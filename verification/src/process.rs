//! The processes of the system, as `/proc` shows them: which Steam games run,
//! and whether a process group still does something.

use crate::text;
use vstd::prelude::*;
use vstd::slice::slice_subrange;
use vstd::utf8;

verus! {

// ---------------------------------------------------------------------------
// Command lines
// ---------------------------------------------------------------------------

/// The index of the first zero byte, or the length where there is none.
pub open spec fn first_zero(bytes: Seq<u8>) -> int
    decreases bytes.len(),
{
    if bytes.len() == 0 || bytes[0] == 0 {
        0
    } else {
        1 + first_zero(bytes.drop_first())
    }
}

/// `first_zero` is the one index that has no zero byte before it and holds one,
/// or is the end.
pub proof fn lemma_first_zero(bytes: Seq<u8>)
    ensures
        0 <= first_zero(bytes) <= bytes.len(),
        forall|i: int| 0 <= i < first_zero(bytes) ==> bytes[i] != 0,
        first_zero(bytes) < bytes.len() ==> bytes[first_zero(bytes)] == 0,
    decreases bytes.len(),
{
    if bytes.len() > 0 && bytes[0] != 0 {
        let rest = bytes.drop_first();
        lemma_first_zero(rest);
        assert forall|i: int| 0 <= i < first_zero(bytes) implies bytes[i] != 0 by {
            if i > 0 {
                assert(rest[i - 1] == bytes[i]);
            }
        }
    }
}

/// The texts that zero bytes separate, without those that are empty and those
/// that are no UTF-8.
pub open spec fn zero_separated(bytes: Seq<u8>) -> Seq<Seq<char>>
    decreases bytes.len(),
{
    proof {
        lemma_first_zero(bytes);
    }
    let end = first_zero(bytes);
    let field = bytes.take(end);
    let first = if field.len() > 0 && utf8::valid_utf8(field) {
        seq![utf8::decode_utf8(field)]
    } else {
        Seq::empty()
    };
    if end == bytes.len() {
        first
    } else {
        first + zero_separated(bytes.skip(end + 1))
    }
}

/// What each text of a list holds.
pub open spec fn text_views(list: Seq<&str>) -> Seq<Seq<char>> {
    Seq::new(list.len(), |i: int| list[i]@)
}

/// Cuts bytes at zero bytes into texts, without those that are empty and those
/// that are no UTF-8.
pub fn split_zero_separated<'a>(bytes: &'a [u8]) -> (list: Vec<&'a str>)
    ensures
        text_views(list@) == zero_separated(bytes@),
{
    let mut list: Vec<&'a str> = Vec::new();
    let mut at: usize = 0;
    assert(bytes@.skip(0) == bytes@);
    loop
        invariant
            at <= bytes@.len(),
            zero_separated(bytes@) == text_views(list@) + zero_separated(bytes@.skip(at as int)),
        decreases bytes@.len() - at,
    {
        let ghost rest = bytes@.skip(at as int);
        let ghost before = text_views(list@);
        let mut end: usize = at;
        while end < bytes.len() && bytes[end] != 0
            invariant
                at <= end <= bytes@.len(),
                forall|i: int| at <= i < end ==> bytes@[i] != 0,
            decreases bytes@.len() - end,
        {
            end += 1;
        }
        proof {
            lemma_first_zero(rest);
            let found = first_zero(rest);
            if found < end - at {
                assert(rest[found] == bytes@[at + found]);
            } else if end - at < found {
                assert(rest[end - at] == bytes@[end as int]);
            }
            assert(found == end - at);
        }
        let field = slice_subrange(bytes, at, end);
        assert(field@ == rest.take(end - at));
        if field.len() > 0 {
            match std::str::from_utf8(field) {
                Ok(found) => {
                    list.push(found);
                    assert(text_views(list@) == before + seq![found@]);
                },
                Err(_) => {},
            }
        }
        if end == bytes.len() {
            assert(zero_separated(bytes@) == text_views(list@));
            return list;
        }
        assert(rest.skip(end - at + 1) == bytes@.skip(end + 1));
        assert(zero_separated(bytes@) == text_views(list@) + zero_separated(bytes@.skip(end + 1)));
        at = end + 1;
    }
}

/// The argument that marks the launch of a Steam game.
pub const LAUNCH_MARKER: &'static str = "SteamLaunch";

/// What the argument with the AppID of a Steam game begins with.
pub const APPID_PREFIX: &'static str = "AppId=";

/// The AppID that an argument gives, if it gives one.
pub open spec fn appid_of_argument(argument: Seq<char>) -> Option<u32> {
    if APPID_PREFIX@.is_prefix_of(argument) {
        text::decimal_u32(argument.skip(APPID_PREFIX@.len() as int))
    } else {
        None
    }
}

/// The AppID that the first argument that gives one gives.
pub open spec fn first_appid(arguments: Seq<Seq<char>>) -> Option<u32>
    decreases arguments.len(),
{
    if arguments.len() == 0 {
        None
    } else if appid_of_argument(arguments[0]) is Some {
        appid_of_argument(arguments[0])
    } else {
        first_appid(arguments.skip(1))
    }
}

/// The AppID of the Steam game that a command line launches: the command line
/// holds the launch marker, and an argument that gives an AppID.
pub open spec fn launched_appid(arguments: Seq<Seq<char>>) -> Option<u32> {
    if arguments.contains(LAUNCH_MARKER@) {
        first_appid(arguments)
    } else {
        None
    }
}

/// The AppID that a process belongs to, if its command line launches a Steam
/// game. The marker is needed as well as the AppID: an AppID alone also shows
/// up in command lines that only mention it.
pub fn appid_from_cmdline(args: &[&str]) -> (appid: Option<u32>)
    ensures
        appid == launched_appid(text_views(args@)),
{
    let ghost arguments = text_views(args@);
    let mut marked = false;
    for i in 0..args.len()
        invariant
            arguments == text_views(args@),
            marked <==> exists|j: int| 0 <= j < i && arguments[j] == LAUNCH_MARKER@,
    {
        if text::same_text(args[i], LAUNCH_MARKER) {
            assert(arguments[i as int] == LAUNCH_MARKER@);
            marked = true;
        }
    }
    assert(marked == arguments.contains(LAUNCH_MARKER@));
    if !marked {
        return None;
    }
    let prefix = text::chars_of(APPID_PREFIX);
    assert(arguments.skip(0) == arguments);
    for i in 0..args.len()
        invariant
            arguments == text_views(args@),
            prefix@ == APPID_PREFIX@,
            arguments.contains(LAUNCH_MARKER@),
            first_appid(arguments) == first_appid(arguments.skip(i as int)),
    {
        let argument = text::chars_of(args[i]);
        assert(arguments.skip(i as int)[0] == argument@);
        assert(arguments.skip(i as int).skip(1) == arguments.skip(i + 1));
        if text::starts_with(&argument, &prefix) {
            let digits = slice_subrange(&argument, prefix.len(), argument.len());
            assert(digits@ == argument@.skip(prefix@.len() as int));
            let appid = text::parse_u32(digits);
            if appid.is_some() {
                return appid;
            }
        }
    }
    None
}

/// A process directory: its name below `/proc`, and the bytes of its `cmdline`
/// where they could be read.
pub struct Process {
    pub name: String,
    pub cmdline: Option<Vec<u8>>,
}

/// The AppID of the game that a process belongs to. Directories that are no
/// process, and the process `self_pid`, belong to none.
pub open spec fn game_of(process: Process, self_pid: u32) -> Option<u32> {
    match (text::decimal_u32(process.name@), process.cmdline) {
        (Some(pid), Some(cmdline)) => if pid == self_pid {
            None
        } else {
            launched_appid(zero_separated(cmdline@))
        },
        _ => None,
    }
}

/// Whether a process of the game `appid` runs.
pub open spec fn is_running(processes: Seq<Process>, self_pid: u32, appid: u32) -> bool {
    exists|i: int| 0 <= i < processes.len() && game_of(#[trigger] processes[i], self_pid) == Some(appid)
}

/// Whether the numbers rise from one to the next.
pub open spec fn rising(ids: Seq<u32>) -> bool {
    forall|i: int, j: int| 0 <= i < j < ids.len() ==> ids[i] < ids[j]
}

/// Adds `id` to rising numbers, unless they hold it.
fn insert_rising(ids: &mut Vec<u32>, id: u32)
    requires
        rising(old(ids)@),
    ensures
        rising(final(ids)@),
        forall|x: u32| final(ids)@.contains(x) <==> old(ids)@.contains(x) || x == id,
{
    let ghost before = ids@;
    let mut at: usize = 0;
    while at < ids.len() && ids[at] < id
        invariant
            ids@ == before,
            at <= before.len(),
            forall|i: int| 0 <= i < at ==> before[i] < id,
        decreases before.len() - at,
    {
        at += 1;
    }
    if at < ids.len() && ids[at] == id {
        assert(before[at as int] == id);
        return;
    }
    ids.insert(at, id);
    proof {
        let after = ids@;
        assert(after[at as int] == id);
        assert forall|x: u32| after.contains(x) <==> before.contains(x) || x == id by {
            if before.contains(x) {
                let k = before.index_of(x);
                if k < at {
                    assert(after[k] == x);
                } else {
                    assert(after[k + 1] == x);
                }
            }
            if after.contains(x) {
                let k = after.index_of(x);
                if k < at {
                    assert(before[k] == x);
                } else if k > at {
                    assert(before[k - 1] == x);
                }
            }
        }
    }
}

/// The AppIDs of the games that run. Several processes of one game carry the
/// same AppID, so each is given once; and they are in rising order, so that
/// the answer does not depend on the order in which `/proc` was listed.
pub fn find_running_appids(processes: &[Process], self_pid: u32) -> (found: Vec<u32>)
    ensures
        rising(found@),
        forall|appid: u32| #[trigger] found@.contains(appid) <==> is_running(processes@, self_pid, appid),
{
    let mut found: Vec<u32> = Vec::new();
    for i in 0..processes.len()
        invariant
            rising(found@),
            forall|appid: u32| #[trigger]
                found@.contains(appid) <==> is_running(processes@.take(i as int), self_pid, appid),
    {
        let ghost before = processes@.take(i as int);
        let ghost upto = processes@.take(i + 1);
        let ghost earlier = found@;
        let process = &processes[i];
        let name = text::chars_of(&process.name);
        let mut game: Option<u32> = None;
        if let Some(pid) = text::parse_u32(&name) {
            if pid != self_pid {
                if let Some(cmdline) = &process.cmdline {
                    let args = split_zero_separated(cmdline);
                    game = appid_from_cmdline(&args);
                }
            }
        }
        assert(game == game_of(*process, self_pid));
        if let Some(appid) = game {
            insert_rising(&mut found, appid);
        }
        assert forall|appid: u32| #[trigger]
            found@.contains(appid) <==> is_running(upto, self_pid, appid) by {
            if earlier.contains(appid) {
                let k = choose|k: int|
                    0 <= k < before.len() && game_of(#[trigger] before[k], self_pid) == Some(appid);
                assert(upto[k] == before[k]);
            }
            if game == Some(appid) {
                assert(upto[i as int] == *process);
            }
            if is_running(upto, self_pid, appid) {
                let k = choose|k: int|
                    0 <= k < upto.len() && game_of(#[trigger] upto[k], self_pid) == Some(appid);
                if k < i {
                    assert(before[k] == upto[k]);
                }
            }
        }
    }
    assert(processes@.take(processes@.len() as int) == processes@);
    found
}

/// Rising numbers are known by which numbers they are.
proof fn lemma_rising_unique(a: Seq<u32>, b: Seq<u32>)
    requires
        rising(a),
        rising(b),
        forall|x: u32| a.contains(x) <==> b.contains(x),
    ensures
        a == b,
    decreases a.len(),
{
    if a.len() == 0 {
        if b.len() > 0 {
            assert(b.contains(b[0]));
        }
        assert(a =~= b);
    } else {
        assert(a.contains(a.last()));
        let k = b.index_of(a.last());
        assert(b.contains(b.last()));
        let l = a.index_of(b.last());
        assert(a.last() == b.last());
        let a2 = a.drop_last();
        let b2 = b.drop_last();
        assert forall|x: u32| a2.contains(x) <==> b2.contains(x) by {
            if a2.contains(x) {
                let i = a2.index_of(x);
                assert(a[i] == x);
                assert(a.contains(x));
                let j = b.index_of(x);
                assert(b2[j] == x);
            }
            if b2.contains(x) {
                let i = b2.index_of(x);
                assert(b[i] == x);
                assert(b.contains(x));
                let j = a.index_of(x);
                assert(a2[j] == x);
            }
        }
        lemma_rising_unique(a2, b2);
        assert(a == a2.push(a.last()));
        assert(b == b2.push(b.last()));
    }
}

/// Which games run does not depend on the order in which `/proc` was listed,
/// nor on how often a process was listed: two listings of the same processes
/// give the same answer.
pub proof fn law_listing_order_is_irrelevant(
    one: Seq<Process>,
    other: Seq<Process>,
    self_pid: u32,
    found_one: Seq<u32>,
    found_other: Seq<u32>,
)
    requires
        forall|p: Process| one.contains(p) <==> other.contains(p),
        rising(found_one),
        forall|appid: u32| #[trigger] found_one.contains(appid) <==> is_running(one, self_pid, appid),
        rising(found_other),
        forall|appid: u32| #[trigger]
            found_other.contains(appid) <==> is_running(other, self_pid, appid),
    ensures
        found_one == found_other,
{
    assert forall|appid: u32| found_one.contains(appid) <==> found_other.contains(appid) by {
        if is_running(one, self_pid, appid) {
            let i = choose|i: int|
                0 <= i < one.len() && game_of(#[trigger] one[i], self_pid) == Some(appid);
            assert(one.contains(one[i]));
            let j = other.index_of(one[i]);
            assert(game_of(other[j], self_pid) == Some(appid));
        }
        if is_running(other, self_pid, appid) {
            let i = choose|i: int|
                0 <= i < other.len() && game_of(#[trigger] other[i], self_pid) == Some(appid);
            assert(other.contains(other[i]));
            let j = one.index_of(other[i]);
            assert(game_of(one[j], self_pid) == Some(appid));
        }
    }
    lemma_rising_unique(found_one, found_other);
}

// ---------------------------------------------------------------------------
// Process groups
// ---------------------------------------------------------------------------

/// The state that `stat` gives of a process that has ended and waits for its
/// parent to take notice.
pub const ZOMBIE: &'static str = "Z";

/// The fields of a `stat` file behind the name of the process. The name stands
/// in parentheses and may itself hold spaces and parentheses, so the fields
/// begin behind the last closing one: state, parent, process group.
pub open spec fn stat_fields(stat: Seq<char>) -> Seq<Seq<char>> {
    text::words(stat.skip(text::last_index(stat, ')') + 1))
}

/// Whether a `stat` file is that of a process of group `pgid` that is no zombie.
pub open spec fn is_active_in(stat: Seq<char>, pgid: u32) -> bool {
    &&& text::last_index(stat, ')') >= 0
    &&& stat_fields(stat).len() >= 3
    &&& stat_fields(stat)[0] != ZOMBIE@
    &&& text::decimal_u32(stat_fields(stat)[2]) == Some(pgid)
}

/// A process directory: its name below `/proc`, and the text of its `stat`
/// where it could be read.
pub struct ProcessStat {
    pub name: String,
    pub stat: Option<String>,
}

/// Whether a directory below `/proc` is a process of group `pgid` that is no zombie.
pub open spec fn is_active(process: ProcessStat, pgid: u32) -> bool {
    text::decimal_u32(process.name@) is Some && (process.stat matches Some(stat) && is_active_in(
        stat@,
        pgid,
    ))
}

/// Whether a `stat` file is that of a process of group `pgid` that is no zombie.
fn active_in(stat: &str, pgid: u32) -> (active: bool)
    ensures
        active == is_active_in(stat@, pgid),
{
    let chars = text::chars_of(stat);
    match text::find_last_char(&chars, ')') {
        None => false,
        Some(close) => {
            let end: usize = chars.len();
            let behind = slice_subrange(&chars, close + 1, end);
            assert(behind@ == stat@.skip(close + 1));
            let fields = text::split_words(behind);
            assert(fields@.len() == stat_fields(stat@).len());
            if fields.len() < 3 {
                return false;
            }
            assert(fields@[0]@ == stat_fields(stat@)[0]);
            assert(fields@[2]@ == stat_fields(stat@)[2]);
            if text::same_chars(fields[0], &text::chars_of(ZOMBIE)) {
                return false;
            }
            match text::parse_u32(fields[2]) {
                Some(group) => group == pgid,
                None => false,
            }
        },
    }
}

/// Whether any process that is no zombie belongs to the process group `pgid`.
///
/// The group is asked for, not the process that was started: a trainer unpacks
/// itself and starts anew, under the same group. A zombie does nothing any
/// more, so it does not count.
pub fn process_group_alive(processes: &[ProcessStat], pgid: u32) -> (alive: bool)
    ensures
        alive == exists|i: int| 0 <= i < processes@.len() && is_active(#[trigger] processes@[i], pgid),
{
    for i in 0..processes.len()
        invariant
            forall|j: int| 0 <= j < i ==> !is_active(#[trigger] processes@[j], pgid),
    {
        let process = &processes[i];
        if text::parse_u32(&text::chars_of(&process.name)).is_some() {
            if let Some(stat) = &process.stat {
                if active_in(stat, pgid) {
                    assert(is_active(processes@[i as int], pgid));
                    return true;
                }
            }
        }
    }
    false
}

// ---------------------------------------------------------------------------
// Fields between zero bytes
// ---------------------------------------------------------------------------

/// Whether `field` is one of the pieces that zero bytes cut `bytes` into.
pub open spec fn is_zero_field(bytes: Seq<u8>, field: Seq<u8>) -> bool {
    exists|before: Seq<u8>, after: Seq<u8>| #[trigger] is_field_between(bytes, before, field, after)
}

/// Whether `bytes` are `before`, `field` and `after`, with a zero byte or an end
/// of the bytes on either side of the field and none in it.
pub open spec fn is_field_between(
    bytes: Seq<u8>,
    before: Seq<u8>,
    field: Seq<u8>,
    after: Seq<u8>,
) -> bool {
    &&& bytes == before + field + after
    &&& before.len() == 0 || before.last() == 0
    &&& after.len() == 0 || after[0] == 0
    &&& !field.contains(0)
}

/// The first zero byte is the one that no other comes before.
proof fn lemma_first_zero_is(bytes: Seq<u8>, at: int)
    requires
        0 <= at <= bytes.len(),
        forall|i: int| 0 <= i < at ==> bytes[i] != 0,
        at < bytes.len() ==> bytes[at] == 0,
    ensures
        first_zero(bytes) == at,
{
    lemma_first_zero(bytes);
    let found = first_zero(bytes);
    if found < at {
        assert(bytes[found] != 0);
    } else if at < found {
        assert(bytes[at] != 0);
    }
}

/// A zero byte between two byte strings separates their texts: the texts of the
/// whole are those of the one and then those of the other.
pub proof fn law_zero_bytes_separate(a: Seq<u8>, b: Seq<u8>)
    ensures
        zero_separated(a + seq![0u8] + b) == zero_separated(a) + zero_separated(b),
    decreases a.len(),
{
    let whole = a + seq![0u8] + b;
    lemma_first_zero(a);
    let end = first_zero(a);
    assert forall|i: int| 0 <= i < end implies whole[i] != 0 by {
        assert(whole[i] == a[i]);
    }
    if end < a.len() {
        assert(whole[end] == a[end]);
    } else {
        assert(whole[end] == 0);
    }
    lemma_first_zero_is(whole, end);
    assert(whole.take(end) == a.take(end));
    if end < a.len() {
        assert(whole.skip(end + 1) == a.skip(end + 1) + seq![0u8] + b);
        law_zero_bytes_separate(a.skip(end + 1), b);
    } else {
        assert(whole.skip(end + 1) == b);
    }
    let first = zero_separated(a.take(end));
    assert(zero_separated(whole) =~= zero_separated(a) + zero_separated(b));
}

/// A byte string without a zero byte is one text, where it is not empty and is
/// UTF-8, and none otherwise.
pub proof fn law_one_field(field: Seq<u8>)
    requires
        !field.contains(0),
    ensures
        field.len() > 0 && utf8::valid_utf8(field) ==> zero_separated(field) == seq![
            utf8::decode_utf8(field),
        ],
        field.len() == 0 || !utf8::valid_utf8(field) ==> zero_separated(field).len() == 0,
{
    assert forall|i: int| 0 <= i < field.len() implies field[i] != 0 by {
        assert(field.contains(field[i]));
    }
    lemma_first_zero_is(field, field.len() as int);
    assert(field.take(field.len() as int) == field);
}

/// The texts of bytes around a field: those before it, its own, those behind it.
proof fn lemma_texts_around(bytes: Seq<u8>, before: Seq<u8>, field: Seq<u8>, after: Seq<u8>)
    requires
        is_field_between(bytes, before, field, after),
    ensures
        zero_separated(bytes) == zero_separated(before) + zero_separated(field) + zero_separated(after),
{
    let none = Seq::<u8>::empty();
    law_one_field(none);
    assert(zero_separated(none) == Seq::<Seq<char>>::empty());
    let front = before + field;
    if before.len() > 0 {
        let head = before.drop_last();
        assert(before == head + seq![0u8] + none);
        law_zero_bytes_separate(head, none);
        assert(front == head + seq![0u8] + field);
        law_zero_bytes_separate(head, field);
        assert(zero_separated(head) + Seq::<Seq<char>>::empty() == zero_separated(head));
    } else {
        assert(front == field);
        assert(before == none);
        assert(Seq::<Seq<char>>::empty() + zero_separated(field) == zero_separated(field));
    }
    assert(zero_separated(front) == zero_separated(before) + zero_separated(field));
    if after.len() > 0 {
        let tail = after.drop_first();
        assert(after == none + seq![0u8] + tail);
        law_zero_bytes_separate(none, tail);
        assert(bytes == front + seq![0u8] + tail);
        law_zero_bytes_separate(front, tail);
        assert(Seq::<Seq<char>>::empty() + zero_separated(tail) == zero_separated(tail));
    } else {
        assert(bytes == front);
        assert(after == none);
        assert(zero_separated(front) + Seq::<Seq<char>>::empty() == zero_separated(front));
    }
}

/// The texts that bytes hold are exactly the fields between zero bytes that are
/// not empty and that are UTF-8.
pub proof fn law_texts_are_fields(bytes: Seq<u8>, text: Seq<char>)
    ensures
        zero_separated(bytes).contains(text) <==> text.len() > 0 && is_zero_field(
            bytes,
            utf8::encode_utf8(text),
        ),
{
    if zero_separated(bytes).contains(text) {
        lemma_texts_come_from_fields(bytes, text);
    }
    let field = utf8::encode_utf8(text);
    if text.len() > 0 && is_zero_field(bytes, field) {
        let (before, after) = choose|before: Seq<u8>, after: Seq<u8>| #[trigger]
            is_field_between(bytes, before, field, after);
        lemma_texts_around(bytes, before, field, after);
        lemma_encoded_length(text);
        utf8::encode_utf8_valid_utf8(text);
        utf8::encode_utf8_decode_utf8(text);
        law_one_field(field);
        assert(zero_separated(bytes)[zero_separated(before).len() as int] == text);
    }
}

/// A text of some length has an encoding of some length.
proof fn lemma_encoded_length(text: Seq<char>)
    ensures
        utf8::encode_utf8(text).len() == 0 <==> text.len() == 0,
{
    if text.len() > 0 {
        assert(utf8::encode_scalar(text[0] as u32).len() > 0);
    }
}

/// Each text that bytes hold is a field of theirs.
proof fn lemma_texts_come_from_fields(bytes: Seq<u8>, text: Seq<char>)
    requires
        zero_separated(bytes).contains(text),
    ensures
        text.len() > 0,
        is_zero_field(bytes, utf8::encode_utf8(text)),
    decreases bytes.len(),
{
    lemma_first_zero(bytes);
    let end = first_zero(bytes);
    let field = bytes.take(end);
    let rest = if end == bytes.len() { Seq::empty() } else { bytes.skip(end + 1) };
    let k = zero_separated(bytes).index_of(text);
    if field.len() > 0 && utf8::valid_utf8(field) && k == 0 {
        assert(text == utf8::decode_utf8(field));
        utf8::decode_utf8_encode_utf8(field);
        lemma_encoded_length(text);
        assert(bytes == Seq::<u8>::empty() + field + bytes.skip(end));
        assert(is_field_between(bytes, Seq::<u8>::empty(), field, bytes.skip(end)));
    } else {
        assert(end < bytes.len());
        let skipped: int = if field.len() > 0 && utf8::valid_utf8(field) { 1 } else { 0 };
        assert(zero_separated(rest)[k - skipped] == text);
        lemma_texts_come_from_fields(rest, text);
        let encoded = utf8::encode_utf8(text);
        let (before, after) = choose|before: Seq<u8>, after: Seq<u8>| #[trigger]
            is_field_between(rest, before, encoded, after);
        let front = bytes.take(end + 1) + before;
        assert(bytes == bytes.take(end + 1) + rest);
        assert(rest == before + encoded + after);
        assert(bytes == front + encoded + after);
        if before.len() == 0 {
            assert(front.last() == bytes[end]);
        } else {
            assert(front.last() == before.last());
        }
        assert(is_field_between(bytes, front, encoded, after));
    }
}

/// The encoding of two texts in a row is that of the one and then that of the other.
pub proof fn lemma_encode_concat(a: Seq<char>, b: Seq<char>)
    ensures
        utf8::encode_utf8(a + b) == utf8::encode_utf8(a) + utf8::encode_utf8(b),
    decreases a.len(),
{
    if a.len() == 0 {
        assert(a + b == b);
        assert(utf8::encode_utf8(a) == Seq::<u8>::empty());
    } else {
        assert((a + b)[0] == a[0]);
        assert((a + b).drop_first() == a.drop_first() + b);
        lemma_encode_concat(a.drop_first(), b);
    }
}

/// A text without the character zero has an encoding without a zero byte.
pub proof fn lemma_encode_without_zero(text: Seq<char>)
    requires
        !text.contains('\0'),
    ensures
        !utf8::encode_utf8(text).contains(0),
    decreases text.len(),
{
    if text.len() > 0 {
        let rest = text.drop_first();
        assert forall|c: char| rest.contains(c) implies text.contains(c) by {
            let i = rest.index_of(c);
            assert(text[i + 1] == c);
        }
        lemma_encode_without_zero(rest);
        assert(text.contains(text[0]));
        let scalar = text[0] as u32;
        utf8::char_is_scalar(text[0]);
        utf8::char_u32_cast(text[0], scalar);
        assert(scalar != 0);
        lemma_scalar_without_zero(scalar);
        let first = utf8::encode_scalar(scalar);
        let whole = utf8::encode_utf8(text);
        assert(whole == first + utf8::encode_utf8(rest));
        if whole.contains(0) {
            let i = whole.index_of(0);
            if i < first.len() {
                assert(first[i] == 0);
            } else {
                assert(utf8::encode_utf8(rest)[i - first.len()] == 0);
            }
        }
    }
}

/// The bytes of a character other than zero are not zero.
proof fn lemma_scalar_without_zero(scalar: u32)
    requires
        utf8::is_scalar(scalar),
        scalar != 0,
    ensures
        forall|i: int|
            0 <= i < utf8::encode_scalar(scalar).len() ==> utf8::encode_scalar(scalar)[i] != 0,
{
    if utf8::has_width_1_encoding(scalar) {
        assert(utf8::leading_byte_width_1(scalar) != 0) by (bit_vector)
            requires
                utf8::has_width_1_encoding(scalar),
                scalar != 0,
        ;
    }
    assert(utf8::leading_byte_width_2(scalar) != 0) by (bit_vector);
    assert(utf8::leading_byte_width_3(scalar) != 0) by (bit_vector);
    assert(utf8::leading_byte_width_4(scalar) != 0) by (bit_vector);
    assert(utf8::last_continuation_byte(scalar) != 0) by (bit_vector);
    assert(utf8::second_last_continuation_byte(scalar) != 0) by (bit_vector);
    assert(utf8::third_last_continuation_byte(scalar) != 0) by (bit_vector);
}

// ---------------------------------------------------------------------------
// Laws
// ---------------------------------------------------------------------------

/// Whether an argument is `AppId=` and a text that gives the number `n`.
pub open spec fn gives_number(argument: Seq<char>, n: u32) -> bool {
    exists|digits: Seq<char>|
        argument == "AppId="@ + digits && #[trigger] text::decimal_u32(digits) == Some(n)
}

/// An argument gives the AppID that stands behind `AppId=`, and no other
/// argument gives one.
proof fn lemma_appid_of_argument(argument: Seq<char>, n: u32)
    ensures
        appid_of_argument(argument) == Some(n) <==> gives_number(argument, n),
{
    let prefix = "AppId="@;
    if appid_of_argument(argument) == Some(n) {
        let digits = argument.skip(prefix.len() as int);
        assert(argument == prefix + digits);
        assert(text::decimal_u32(digits) == Some(n));
    }
    if gives_number(argument, n) {
        let digits = choose|digits: Seq<char>|
            argument == prefix + digits && #[trigger] text::decimal_u32(digits) == Some(n);
        assert(argument.skip(prefix.len() as int) == digits);
    }
}

/// The first argument that gives a number decides.
proof fn lemma_first_appid(arguments: Seq<Seq<char>>, at: int, n: u32)
    requires
        0 <= at < arguments.len(),
        gives_number(arguments[at], n),
        forall|j: int, m: u32| 0 <= j < at ==> !#[trigger] gives_number(arguments[j], m),
    ensures
        first_appid(arguments) == Some(n),
    decreases at,
{
    lemma_appid_of_argument(arguments[at], n);
    if at > 0 {
        if appid_of_argument(arguments[0]) is Some {
            let m = appid_of_argument(arguments[0])->0;
            lemma_appid_of_argument(arguments[0], m);
            assert(!gives_number(arguments[0], m));
        }
        let rest = arguments.skip(1);
        assert forall|j: int, m: u32| 0 <= j < at - 1 implies !#[trigger] gives_number(
            rest[j],
            m,
        ) by {
            assert(rest[j] == arguments[j + 1]);
            assert(!gives_number(arguments[j + 1], m));
        }
        assert(rest[at - 1] == arguments[at]);
        lemma_first_appid(rest, at - 1, n);
    }
}

/// An AppID that arguments give stands in one of them.
proof fn lemma_first_appid_stands(arguments: Seq<Seq<char>>, n: u32)
    requires
        first_appid(arguments) == Some(n),
    ensures
        exists|at: int| 0 <= at < arguments.len() && #[trigger] gives_number(arguments[at], n),
    decreases arguments.len(),
{
    if appid_of_argument(arguments[0]) is Some {
        lemma_appid_of_argument(arguments[0], n);
        assert(gives_number(arguments[0], n));
    } else {
        let rest = arguments.skip(1);
        lemma_first_appid_stands(rest, n);
        let at = choose|at: int| 0 <= at < rest.len() && #[trigger] gives_number(rest[at], n);
        assert(arguments[at + 1] == rest[at]);
        assert(gives_number(arguments[at + 1], n));
    }
}

/// A command line launches the game `n` where one argument is `SteamLaunch` and
/// the first that is `AppId=` and a number is `AppId=` and the number `n`. It
/// launches none without the one or without the other.
pub proof fn law_launch_arguments(arguments: Seq<Seq<char>>, appid: Option<u32>, at: int, n: u32)
    requires
        appid == launched_appid(arguments),
    ensures
        arguments.contains("SteamLaunch"@) && 0 <= at < arguments.len() && gives_number(
            arguments[at],
            n,
        ) && (forall|j: int, m: u32| 0 <= j < at ==> !#[trigger] gives_number(arguments[j], m))
            ==> appid == Some(n),
        arguments.contains("SteamLaunch"@) && 0 <= at < arguments.len() && arguments[at]
            == "AppId="@ + text::decimal(n as int) && (forall|j: int|
            0 <= j < at ==> !"AppId="@.is_prefix_of(#[trigger] arguments[j])) ==> appid == Some(n),
        !arguments.contains("SteamLaunch"@) ==> appid is None,
        (forall|j: int, m: u32|
            0 <= j < arguments.len() ==> !#[trigger] gives_number(arguments[j], m)) ==> appid is None,
{
    if arguments.contains("SteamLaunch"@) && 0 <= at < arguments.len() && gives_number(
        arguments[at],
        n,
    ) && (forall|j: int, m: u32| 0 <= j < at ==> !#[trigger] gives_number(arguments[j], m)) {
        lemma_first_appid(arguments, at, n);
    }
    if arguments.contains("SteamLaunch"@) && 0 <= at < arguments.len() && arguments[at] == "AppId="@
        + text::decimal(n as int) && (forall|j: int|
        0 <= j < at ==> !"AppId="@.is_prefix_of(#[trigger] arguments[j])) {
        text::law_decimal_numbers(n as int, Seq::empty(), 0);
        assert(gives_number(arguments[at], n));
        assert forall|j: int, m: u32| 0 <= j < at implies !#[trigger] gives_number(
            arguments[j],
            m,
        ) by {
            assert(!"AppId="@.is_prefix_of(arguments[j]));
        }
        lemma_first_appid(arguments, at, n);
    }
    if forall|j: int, m: u32|
        0 <= j < arguments.len() ==> !#[trigger] gives_number(arguments[j], m) {
        if first_appid(arguments) is Some {
            let m = first_appid(arguments)->0;
            lemma_first_appid_stands(arguments, m);
            assert(false);
        }
    }
}

/// A process runs a game: its directory is named by the number of a process
/// other than the one that asks, one field of its command line is `SteamLaunch`,
/// and one is `AppId=` and the number of the game, while no other field begins
/// with `AppId=`. Then the game is found, whichever of the two processes has the
/// greater number, whatever the other processes are.
pub proof fn law_running_game_is_found(
    processes: Seq<Process>,
    self_pid: u32,
    found: Seq<u32>,
    at: int,
    pid: u32,
    cmdline: Seq<u8>,
    n: u32,
)
    requires
        forall|appid: u32| #[trigger] found.contains(appid) <==> is_running(processes, self_pid, appid),
        0 <= at < processes.len(),
        processes[at].name@ == text::decimal(pid as int),
        pid != self_pid,
        processes[at].cmdline is Some,
        processes[at].cmdline->0@ == cmdline,
        is_zero_field(cmdline, utf8::encode_utf8("SteamLaunch"@)),
        is_zero_field(cmdline, utf8::encode_utf8("AppId="@ + text::decimal(n as int))),
        forall|field: Seq<u8>| #[trigger]
            is_zero_field(cmdline, field) && utf8::encode_utf8("AppId="@).is_prefix_of(field) ==> field
                == utf8::encode_utf8("AppId="@ + text::decimal(n as int)),
    ensures
        found.contains(n),
{
    let whole = "AppId="@ + text::decimal(n as int);
    text::law_decimal_numbers(pid as int, Seq::empty(), 0);
    text::law_decimal_numbers(n as int, Seq::empty(), 0);
    let arguments = zero_separated(cmdline);
    reveal_strlit("SteamLaunch");
    reveal_strlit("AppId=");
    law_texts_are_fields(cmdline, "SteamLaunch"@);
    law_texts_are_fields(cmdline, whole);
    assert(gives_number(whole, n));
    let k = arguments.index_of(whole);
    assert forall|j: int, m: u32|
        0 <= j < arguments.len() && #[trigger] gives_number(arguments[j], m) implies m == n by {
        let argument = arguments[j];
        assert(arguments.contains(argument));
        law_texts_are_fields(cmdline, argument);
        let digits = choose|digits: Seq<char>|
            argument == "AppId="@ + digits && #[trigger] text::decimal_u32(digits) == Some(m);
        lemma_encode_concat("AppId="@, digits);
        let field = utf8::encode_utf8(argument);
        assert(utf8::encode_utf8("AppId="@).is_prefix_of(field));
        assert(field == utf8::encode_utf8(whole));
        utf8::encode_utf8_decode_utf8(argument);
        utf8::encode_utf8_decode_utf8(whole);
        assert(argument == whole);
        assert(digits == argument.skip(6));
        assert(digits == text::decimal(n as int));
    }
    lemma_some_number(arguments, k, n);
    assert(game_of(processes[at], self_pid) == Some(n));
    assert(is_running(processes, self_pid, n));
}

/// Where the arguments give one number only, that is the first.
proof fn lemma_some_number(arguments: Seq<Seq<char>>, at: int, n: u32)
    requires
        0 <= at < arguments.len(),
        gives_number(arguments[at], n),
        forall|j: int, m: u32|
            0 <= j < arguments.len() && #[trigger] gives_number(arguments[j], m) ==> m == n,
    ensures
        first_appid(arguments) == Some(n),
    decreases at,
{
    if exists|j: int| 0 <= j < at && #[trigger] gives_number(arguments[j], n) {
        let j = choose|j: int| 0 <= j < at && #[trigger] gives_number(arguments[j], n);
        lemma_some_number(arguments, j, n);
    } else {
        assert forall|j: int, m: u32| 0 <= j < at implies !#[trigger] gives_number(
            arguments[j],
            m,
        ) by {
            if gives_number(arguments[j], m) {
                assert(gives_number(arguments[j], n));
            }
        }
        lemma_first_appid(arguments, at, n);
    }
}

/// The first `AppId=` with a number decides which game a process runs: what
/// stands in the command line behind it does not change the game, nor does an
/// `AppId=` before it with something that is no number.
pub proof fn law_first_number_decides(
    processes: Seq<Process>,
    self_pid: u32,
    found: Seq<u32>,
    at: int,
    pid: u32,
    before: Seq<u8>,
    after: Seq<u8>,
    n: u32,
)
    requires
        forall|appid: u32| #[trigger] found.contains(appid) <==> is_running(processes, self_pid, appid),
        0 <= at < processes.len(),
        processes[at].name@ == text::decimal(pid as int),
        pid != self_pid,
        processes[at].cmdline is Some,
        processes[at].cmdline->0@ == before + seq![0u8] + utf8::encode_utf8(
            "AppId="@ + text::decimal(n as int),
        ) + seq![0u8] + after,
        is_zero_field(before, utf8::encode_utf8("SteamLaunch"@)) || is_zero_field(
            after,
            utf8::encode_utf8("SteamLaunch"@),
        ),
        forall|digits: Seq<char>| #[trigger]
            is_zero_field(before, utf8::encode_utf8("AppId="@ + digits)) ==> text::decimal_u32(digits) is None,
    ensures
        found.contains(n),
{
    let whole = "AppId="@ + text::decimal(n as int);
    let middle = utf8::encode_utf8(whole);
    text::law_decimal_numbers(pid as int, Seq::empty(), 0);
    text::law_decimal_numbers(n as int, Seq::empty(), 0);
    reveal_strlit("SteamLaunch");
    reveal_strlit("AppId=");
    text::lemma_decimal_reads_back(n as int);
    assert(!whole.contains('\0')) by {
        if whole.contains('\0') {
            let i = whole.index_of('\0');
            if i >= 6 {
                assert(text::decimal(n as int)[i - 6] == '\0');
            }
        }
    }
    lemma_encode_without_zero(whole);
    lemma_encoded_length(whole);
    utf8::encode_utf8_valid_utf8(whole);
    utf8::encode_utf8_decode_utf8(whole);
    law_one_field(middle);
    law_zero_bytes_separate(before, middle);
    law_zero_bytes_separate(before + seq![0u8] + middle, after);
    let arguments = zero_separated(processes[at].cmdline->0@);
    let k = zero_separated(before).len() as int;
    assert(arguments == zero_separated(before) + seq![whole] + zero_separated(after));
    assert(arguments[k] == whole);
    assert(gives_number(arguments[k], n));
    assert forall|j: int, m: u32| 0 <= j < k implies !#[trigger] gives_number(arguments[j], m) by {
        if gives_number(arguments[j], m) {
            let digits = choose|digits: Seq<char>|
                arguments[j] == "AppId="@ + digits && #[trigger] text::decimal_u32(digits) == Some(m);
            assert(zero_separated(before)[j] == arguments[j]);
            assert(zero_separated(before).contains("AppId="@ + digits));
            law_texts_are_fields(before, "AppId="@ + digits);
        }
    }
    law_texts_are_fields(before, "SteamLaunch"@);
    law_texts_are_fields(after, "SteamLaunch"@);
    if zero_separated(before).contains("SteamLaunch"@) {
        let i = zero_separated(before).index_of("SteamLaunch"@);
        assert(arguments[i] == "SteamLaunch"@);
    } else {
        let i = zero_separated(after).index_of("SteamLaunch"@);
        assert(arguments[k + 1 + i] == "SteamLaunch"@);
    }
    law_launch_arguments(arguments, launched_appid(arguments), k, n);
    assert(game_of(processes[at], self_pid) == Some(n));
    assert(is_running(processes, self_pid, n));
}

/// Every game that is found has a process: its directory is named by a number
/// other than that of the process that asks, and its command line has the field
/// `SteamLaunch` and a field that is `AppId=` and the number of the game. The
/// games are given once each, in rising order.
pub proof fn law_found_game_runs(
    processes: Seq<Process>,
    self_pid: u32,
    found: Seq<u32>,
    n: u32,
) -> (witness: (int, u32, Seq<u8>, Seq<char>))
    requires
        forall|appid: u32| #[trigger] found.contains(appid) <==> is_running(processes, self_pid, appid),
        found.contains(n),
    ensures
        ({
            let (at, pid, cmdline, digits) = witness;
            &&& 0 <= at < processes.len()
            &&& text::decimal_u32(processes[at].name@) == Some(pid)
            &&& pid != self_pid
            &&& processes[at].cmdline is Some
            &&& processes[at].cmdline->0@ == cmdline
            &&& is_zero_field(cmdline, utf8::encode_utf8("SteamLaunch"@))
            &&& is_zero_field(cmdline, utf8::encode_utf8("AppId="@ + digits))
            &&& text::decimal_u32(digits) == Some(n)
        }),
{
    let at = choose|i: int|
        0 <= i < processes.len() && game_of(#[trigger] processes[i], self_pid) == Some(n);
    let pid = text::decimal_u32(processes[at].name@)->0;
    let cmdline = processes[at].cmdline->0@;
    let arguments = zero_separated(cmdline);
    law_texts_are_fields(cmdline, "SteamLaunch"@);
    lemma_first_appid_stands(arguments, n);
    let k = choose|k: int| 0 <= k < arguments.len() && #[trigger] gives_number(arguments[k], n);
    let digits = choose|digits: Seq<char>|
        arguments[k] == "AppId="@ + digits && #[trigger] text::decimal_u32(digits) == Some(n);
    assert(arguments.contains(arguments[k]));
    law_texts_are_fields(cmdline, "AppId="@ + digits);
    (at, pid, cmdline, digits)
}

/// A line of `stat`: the number of the process, its name in parentheses, its
/// state, its parent and its group, each behind a space, and what follows.
pub open spec fn written_stat(
    pid: Seq<char>,
    name: Seq<char>,
    state: Seq<char>,
    parent: Seq<char>,
    group: Seq<char>,
    rest: Seq<char>,
) -> Seq<char> {
    pid + " ("@ + name + ") "@ + state + " "@ + parent + " "@ + group + rest
}

/// Whether a text is a word without a closing parenthesis.
pub open spec fn is_stat_word(word: Seq<char>) -> bool {
    text::is_word(word) && !word.contains(')')
}

/// A process counts as one of group `g` exactly where the group in its `stat`
/// line is `g`: the third of the values behind the name, whatever the name is,
/// whatever the number of the process and its parent are, and whatever follows,
/// be it nothing. A zombie counts for no group.
pub proof fn law_stat_line(
    process: ProcessStat,
    g: u32,
    number: u32,
    pid: Seq<char>,
    name: Seq<char>,
    state: Seq<char>,
    parent: Seq<char>,
    p: u32,
    rest: Seq<char>,
)
    requires
        process.name@ == text::decimal(number as int),
        process.stat is Some,
        process.stat->0@ == written_stat(
            pid,
            name,
            state,
            parent,
            text::decimal(p as int),
            rest,
        ),
        is_stat_word(state),
        is_stat_word(parent),
        rest.len() > 0 ==> text::is_space(rest[0]),
        !rest.contains(')'),
    ensures
        state != "Z"@ ==> (is_active(process, g) <==> p == g),
        state == "Z"@ ==> !is_active(process, g),
{
    text::law_decimal_numbers(number as int, Seq::empty(), 0);
    text::law_decimal_numbers(p as int, Seq::empty(), 0);
    text::lemma_decimal_reads_back(p as int);
    reveal_strlit(" (");
    reveal_strlit(") ");
    reveal_strlit(" ");
    let group = text::decimal(p as int);
    let stat = process.stat->0@;
    let front = pid + " ("@ + name;
    let none = Seq::<char>::empty();
    let behind = none + seq![' '] + state + seq![' '] + parent + seq![' '] + (group + rest);
    assert(stat == front + seq![')'] + behind);
    assert(!behind.contains(')')) by {
        if behind.contains(')') {
            let i = behind.index_of(')');
            let a = 1 + state.len();
            let b = a + 1 + parent.len();
            let c = b + 1 + group.len();
            if 1 <= i < a {
                assert(state[i - 1] == ')');
            } else if a + 1 <= i < b {
                assert(parent[i - a - 1] == ')');
            } else if b + 1 <= i < c {
                assert(group[i - b - 1] == ')');
            } else if c <= i {
                assert(rest[i - c] == ')');
            }
        }
    }
    text::law_last_index(front, ')', behind);
    assert(stat.skip(front.len() as int + 1) == behind);
    text::law_words_are_separated(none, ' ', state);
    text::law_words_are_separated(none + seq![' '] + state, ' ', parent);
    text::law_words_are_separated(
        none + seq![' '] + state + seq![' '] + parent,
        ' ',
        group + rest,
    );
    text::law_a_word_is_its_only_word(none);
    text::law_a_word_is_its_only_word(state);
    text::law_a_word_is_its_only_word(parent);
    assert(text::is_word(group)) by {
        assert forall|i: int| 0 <= i < group.len() implies !text::is_space(#[trigger] group[i]) by {}
    }
    text::law_a_word_is_its_only_word(group);
    if rest.len() > 0 {
        let tail = rest.drop_first();
        assert(group + rest == group + seq![rest[0]] + tail);
        text::law_words_are_separated(group, rest[0], tail);
    } else {
        assert(group + rest == group);
    }
    let fields = stat_fields(stat);
    assert(text::words(none) == Seq::<Seq<char>>::empty());
    assert(fields[0] == state);
    assert(fields[2] == group);
}

/// A group is alive exactly where one of the processes that are listed, be it
/// the first or the last, names the group in its `stat` line and is no zombie.
pub proof fn law_group_is_alive(
    processes: Seq<ProcessStat>,
    g: u32,
    alive: bool,
    numbers: Seq<u32>,
    pids: Seq<Seq<char>>,
    names: Seq<Seq<char>>,
    states: Seq<Seq<char>>,
    parents: Seq<Seq<char>>,
    groups: Seq<u32>,
    rests: Seq<Seq<char>>,
)
    requires
        alive == exists|i: int| 0 <= i < processes.len() && is_active(#[trigger] processes[i], g),
        forall|i: int|
            0 <= i < processes.len() ==> {
                let process = #[trigger] processes[i];
                &&& process.name@ == text::decimal(numbers[i] as int)
                &&& process.stat is Some
                &&& process.stat->0@ == written_stat(
                    pids[i],
                    names[i],
                    states[i],
                    parents[i],
                    text::decimal(groups[i] as int),
                    rests[i],
                )
                &&& is_stat_word(states[i])
                &&& is_stat_word(parents[i])
                &&& rests[i].len() > 0 ==> text::is_space(rests[i][0])
                &&& !rests[i].contains(')')
            },
    ensures
        alive <==> exists|i: int|
            0 <= i < processes.len() && #[trigger] groups[i] == g && states[i] != "Z"@,
{
    assert forall|i: int| 0 <= i < processes.len() implies (is_active(#[trigger] processes[i], g)
        <==> groups[i] == g && states[i] != "Z"@) by {
        law_stat_line(
            processes[i],
            g,
            numbers[i],
            pids[i],
            names[i],
            states[i],
            parents[i],
            groups[i],
            rests[i],
        );
    }
    if alive {
        let i = choose|i: int| 0 <= i < processes.len() && is_active(#[trigger] processes[i], g);
        assert(groups[i] == g);
    }
    if exists|i: int| 0 <= i < processes.len() && #[trigger] groups[i] == g && states[i] != "Z"@ {
        let i = choose|i: int|
            0 <= i < processes.len() && #[trigger] groups[i] == g && states[i] != "Z"@;
        assert(is_active(processes[i], g));
    }
}

/// A line of `stat` without a closing parenthesis, or with fewer than three
/// values behind the last one, or of a directory that is named by no number,
/// counts for no group; nor does one whose third value is no number.
pub proof fn law_no_group(process: ProcessStat, g: u32, front: Seq<char>, behind: Seq<char>)
    requires
        process.stat is Some,
        process.stat->0@ == front + seq![')'] + behind,
        !behind.contains(')'),
    ensures
        text::decimal_u32(process.name@) is None ==> !is_active(process, g),
        text::words(behind).len() < 3 ==> !is_active(process, g),
        text::words(behind).len() >= 3 && text::decimal_u32(text::words(behind)[2]) is None
            ==> !is_active(process, g),
{
    text::law_last_index(front, ')', behind);
    assert(process.stat->0@.skip(front.len() as int + 1) == behind);
}

} // verus!
