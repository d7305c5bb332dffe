//! The files of the Steam client: where its libraries lie, and what a game is
//! called.
//!
//! Steam writes them as lines of quoted texts, of which the first is the key
//! and the second the value. In a quoted text a backslash stands in front of a
//! quote or a backslash that is meant itself.

use crate::paths;
use crate::text;
use vstd::prelude::*;

verus! {

// ---------------------------------------------------------------------------
// Keys and values
// ---------------------------------------------------------------------------

/// The text up to the closing quote, and what stands behind that; `None` where
/// there is no closing quote.
pub open spec fn quoted(s: Seq<char>) -> Option<(Seq<char>, Seq<char>)>
    decreases s.len(),
{
    if s.len() == 0 {
        None
    } else if s[0] == '"' {
        Some((Seq::empty(), s.skip(1)))
    } else {
        let escaped = s[0] == '\\' && s.len() >= 2;
        let c = if escaped {
            s[1]
        } else {
            s[0]
        };
        match quoted(
            s.skip(
                if escaped {
                    2
                } else {
                    1
                },
            ),
        ) {
            Some((held, rest)) => Some((seq![c] + held, rest)),
            None => None,
        }
    }
}

/// The quoted text that `s` begins with, behind white space, and what follows it.
pub open spec fn next_quoted(s: Seq<char>) -> Option<(Seq<char>, Seq<char>)> {
    let start = text::trim_start(s);
    if start.len() > 0 && start[0] == '"' {
        quoted(start.skip(1))
    } else {
        None
    }
}

/// The value that a line gives for `key`.
pub open spec fn value_on(line: Seq<char>, key: Seq<char>) -> Option<Seq<char>> {
    match next_quoted(line) {
        Some((found, rest)) => if found == key {
            match next_quoted(rest) {
                Some((value, _)) => Some(value),
                None => None,
            }
        } else {
            None
        },
        None => None,
    }
}

/// The values that the lines give for `key`, in their order.
pub open spec fn values_in(lines: Seq<Seq<char>>, key: Seq<char>) -> Seq<Seq<char>>
    decreases lines.len(),
{
    if lines.len() == 0 {
        Seq::empty()
    } else {
        let before = values_in(lines.drop_last(), key);
        match value_on(lines.last(), key) {
            Some(value) => before.push(value),
            None => before,
        }
    }
}

/// Reads the quoted text that begins behind white space at or after `from`, and
/// where it ends.
fn read_quoted(line: &[char], from: usize) -> (found: Option<(Vec<char>, usize)>)
    requires
        from <= line@.len(),
    ensures
        match found {
            Some((held, end)) => end <= line@.len() && next_quoted(line@.skip(from as int)) == Some(
                (held@, line@.skip(end as int)),
            ),
            None => next_quoted(line@.skip(from as int)) is None,
        },
{
    let length: usize = line.len();
    let start = text::skip_spaces(line, from);
    proof {
        text::lemma_first_where(line@.skip(from as int), |c: char| !text::is_space(c));
        assert(text::trim_start(line@.skip(from as int)) == line@.skip(start as int));
    }
    if start == length || line[start] != '"' {
        return None;
    }
    assert(line@.skip(start as int).skip(1) == line@.skip(start + 1));
    let ghost whole = quoted(line@.skip(start + 1));
    let mut held: Vec<char> = Vec::new();
    let mut at: usize = start + 1;
    assert(match quoted(line@.skip(at as int)) {
        Some((more, rest)) => whole == Some((held@ + more, rest)),
        None => whole is None,
    }) by {
        if let Some((more, _)) = whole {
            assert(Seq::<char>::empty() + more == more);
        }
    }
    while at < length
        invariant
            at <= length,
            length == line@.len(),
            whole == next_quoted(line@.skip(from as int)),
            match quoted(line@.skip(at as int)) {
                Some((more, rest)) => whole == Some((held@ + more, rest)),
                None => whole is None,
            },
        decreases length - at,
    {
        let ghost here = line@.skip(at as int);
        let ghost before = held@;
        let c = line[at];
        assert(here[0] == c);
        if c == '"' {
            assert(here.skip(1) == line@.skip(at + 1));
            assert(held@ + Seq::<char>::empty() == held@);
            return Some((held, at + 1));
        }
        if c == '\\' && length - at >= 2 {
            assert(here[1] == line@[at + 1]);
            assert(here.skip(2) == line@.skip(at + 2));
            held.push(line[at + 1]);
            at += 2;
        } else {
            assert(here.skip(1) == line@.skip(at + 1));
            held.push(c);
            at += 1;
        }
        proof {
            if let Some((more, _)) = quoted(line@.skip(at as int)) {
                assert(before + (seq![held@.last()] + more) == held@ + more);
            }
        }
    }
    None
}

/// The value that a line gives for `key`.
fn read_value(line: &[char], key: &[char]) -> (value: Option<String>)
    ensures
        text::opt_view(value) == value_on(line@, key@),
{
    assert(line@.skip(0) == line@);
    match read_quoted(line, 0) {
        Some((found, end)) => if text::same_chars(&found, key) {
            match read_quoted(line, end) {
                Some((value, _)) => Some(text::string_of(&value)),
                None => None,
            }
        } else {
            None
        },
        None => None,
    }
}

/// What texts hold.
pub open spec fn string_views(list: Seq<String>) -> Seq<Seq<char>> {
    Seq::new(list.len(), |i: int| list[i]@)
}

/// Reads the values that a file gives for `key`.
pub fn values_of(file: &str, key: &str) -> (values: Vec<String>)
    ensures
        string_views(values@) == values_in(text::lines(file@), key@),
{
    let chars = text::chars_of(file);
    let lines = text::split_lines(&chars);
    let wanted = text::chars_of(key);
    let ghost all = text::lines(file@);
    let mut values: Vec<String> = Vec::new();
    assert(string_views(values@) == values_in(all.take(0), key@));
    for i in 0..lines.len()
        invariant
            text::views(lines@) == all,
            wanted@ == key@,
            string_views(values@) == values_in(all.take(i as int), key@),
    {
        let ghost before = string_views(values@);
        assert(all.take(i + 1).drop_last() == all.take(i as int));
        assert(lines@[i as int]@ == all[i as int]);
        if let Some(value) = read_value(lines[i], &wanted) {
            values.push(value);
            assert(string_views(values@) == before.push(value@));
        }
    }
    assert(all.take(all.len() as int) == all);
    values
}

// ---------------------------------------------------------------------------
// Libraries and games
// ---------------------------------------------------------------------------

/// Where the client may be installed, below the home directory.
pub const CLIENT_DIRS: [&'static str; 2] = [".steam/steam", ".local/share/Steam"];

/// The file that lists the libraries, below the client.
pub const LIBRARY_LIST: &'static str = "steamapps/libraryfolders.vdf";

/// The key of the path of a library.
pub const PATH_KEY: &'static str = "path";

/// The key of the name of a game.
pub const NAME_KEY: &'static str = "name";

/// The prefixes of the games, below a library.
pub const COMPATDATA: &'static str = "steamapps/compatdata";

pub const MANIFEST_OPEN: &'static str = "steamapps/appmanifest_";

pub const MANIFEST_CLOSE: &'static str = ".acf";

/// The libraries: the client itself, and those that its list names.
pub fn library_folders(client_dir: &str, list: Option<&str>) -> (libraries: Vec<String>)
    ensures
        string_views(libraries@) == seq![client_dir@] + match list {
            Some(file) => values_in(text::lines(file@), PATH_KEY@),
            None => Seq::empty(),
        },
        libraries@.len() > 0,
        libraries@[0]@ == client_dir@,
        list is None ==> libraries@.len() == 1,
        list matches Some(file) ==> string_views(libraries@).skip(1) == values_in(
            text::lines(file@),
            "path"@,
        ),
{
    let mut libraries: Vec<String> = Vec::new();
    libraries.push(client_dir.to_owned());
    if let Some(file) = list {
        let mut others = values_of(file, PATH_KEY);
        let ghost named = others@;
        libraries.append(&mut others);
        assert(string_views(libraries@) == seq![client_dir@] + string_views(named));
        assert(string_views(libraries@).skip(1) == string_views(named));
    } else {
        assert(string_views(libraries@) == seq![client_dir@] + Seq::<Seq<char>>::empty());
    }
    assert(string_views(libraries@)[0] == client_dir@);
    libraries
}

/// Where the prefix of a game lies in a library, if it is that library's game.
pub fn compatdata_dir(library: &str, appid: u32) -> (dir: String)
    ensures
        dir@ == paths::joined_path(
            paths::joined_path(library@, COMPATDATA@),
            text::decimal(appid as int),
        ),
        dir@ == paths::joined_path(
            paths::joined_path(library@, "steamapps/compatdata"@),
            text::decimal(appid as int),
        ),
{
    paths::join_path(&paths::join_path(library, COMPATDATA), &text::decimal_text(appid as u64))
}

/// Where the manifest of a game lies in a library, if it is that library's game.
pub fn manifest_path(library: &str, appid: u32) -> (path: String)
    ensures
        path@ == paths::joined_path(
            library@,
            MANIFEST_OPEN@ + text::decimal(appid as int) + MANIFEST_CLOSE@,
        ),
        path@ == paths::joined_path(
            library@,
            "steamapps/appmanifest_"@ + text::decimal(appid as int) + ".acf"@,
        ),
{
    let mut name = MANIFEST_OPEN.to_owned();
    text::push_decimal(&mut name, appid as u64);
    name.push_str(MANIFEST_CLOSE);
    paths::join_path(library, &name)
}

/// The name that a manifest gives its game: the first one.
pub fn game_name(manifest: &str) -> (name: Option<String>)
    ensures
        ({
            let names = values_in(text::lines(manifest@), NAME_KEY@);
            text::opt_view(name) == if names.len() > 0 {
                Some(names[0])
            } else {
                None
            }
        }),
        values_in(text::lines(manifest@), "name"@).len() > 0 ==> text::opt_view(name) == Some(
            values_in(text::lines(manifest@), "name"@)[0],
        ),
        values_in(text::lines(manifest@), "name"@).len() == 0 ==> name is None,
{
    let names = values_of(manifest, NAME_KEY);
    let ghost found = string_views(names@);
    if names.len() > 0 {
        assert(found[0] == names@[0]@);
        Some(names[0].clone())
    } else {
        None
    }
}

/// A text as it is written between quotes.
pub open spec fn escaped(held: Seq<char>) -> Seq<char>
    decreases held.len(),
{
    if held.len() == 0 {
        Seq::empty()
    } else if held[0] == '"' || held[0] == '\\' {
        seq!['\\', held[0]] + escaped(held.skip(1))
    } else {
        seq![held[0]] + escaped(held.skip(1))
    }
}

/// What was written between quotes is read back as it was, and what stands
/// behind the closing quote is left.
pub proof fn law_quoted_is_read_back(held: Seq<char>, rest: Seq<char>)
    ensures
        quoted(escaped(held) + seq!['"'] + rest) == Some((held, rest)),
    decreases held.len(),
{
    let written = escaped(held) + seq!['"'] + rest;
    if held.len() == 0 {
        assert(written == seq!['"'] + rest);
        assert(written.skip(1) == rest);
        assert(held == Seq::<char>::empty());
    } else {
        let more = escaped(held.skip(1)) + seq!['"'] + rest;
        law_quoted_is_read_back(held.skip(1), rest);
        assert(seq![held[0]] + held.skip(1) == held);
        if held[0] == '"' || held[0] == '\\' {
            assert(written[0] == '\\' && written[1] == held[0]);
            assert(written.skip(2) == more);
        } else {
            assert(written[0] == held[0]);
            assert(written.skip(1) == more);
        }
    }
}

/// A text without quotes and backslashes is written as it is, and each of these
/// is written with a backslash in front.
pub proof fn law_escaped(plain: Seq<char>, rest: Seq<char>)
    requires
        !plain.contains('"'),
        !plain.contains('\\'),
    ensures
        escaped(plain) == plain,
        escaped(plain + seq!['"'] + rest) == plain + seq!['\\', '"'] + escaped(rest),
        escaped(plain + seq!['\\'] + rest) == plain + seq!['\\', '\\'] + escaped(rest),
    decreases plain.len(),
{
    let quote = plain + seq!['"'] + rest;
    let slash = plain + seq!['\\'] + rest;
    if plain.len() == 0 {
        assert(plain == Seq::<char>::empty());
        assert(quote.skip(1) == rest && slash.skip(1) == rest);
        assert(escaped(quote) == plain + seq!['\\', '"'] + escaped(rest));
        assert(escaped(slash) == plain + seq!['\\', '\\'] + escaped(rest));
    } else {
        let tail = plain.skip(1);
        assert(plain.contains(plain[0]));
        assert forall|c: char| tail.contains(c) implies plain.contains(c) by {
            let i = tail.index_of(c);
            assert(plain[i + 1] == c);
        }
        law_escaped(tail, rest);
        assert(quote.skip(1) == tail + seq!['"'] + rest);
        assert(slash.skip(1) == tail + seq!['\\'] + rest);
        assert(quote[0] == plain[0] && slash[0] == plain[0]);
        assert(seq![plain[0]] + tail == plain);
        assert(seq![plain[0]] + (tail + seq!['\\', '"'] + escaped(rest)) == plain + seq!['\\', '"']
            + escaped(rest));
        assert(seq![plain[0]] + (tail + seq!['\\', '\\'] + escaped(rest)) == plain + seq!['\\', '\\']
            + escaped(rest));
    }
}

/// The quoted text behind white space is the one that was written.
proof fn lemma_next_quoted(before: Seq<char>, held: Seq<char>, rest: Seq<char>)
    requires
        forall|i: int| 0 <= i < before.len() ==> text::is_space(#[trigger] before[i]),
    ensures
        next_quoted(before + seq!['"'] + escaped(held) + seq!['"'] + rest) == Some((held, rest)),
{
    let s = before + seq!['"'] + escaped(held) + seq!['"'] + rest;
    assert forall|i: int| 0 <= i < before.len() implies text::is_space(#[trigger] s[i]) by {
        assert(s[i] == before[i]);
    }
    assert(s[before.len() as int] == '"');
    text::lemma_first_where_is(s, |c: char| !text::is_space(c), before.len() as int);
    let start = text::trim_start(s);
    assert(start.skip(1) == escaped(held) + seq!['"'] + rest);
    law_quoted_is_read_back(held, rest);
}

/// A line with two quoted texts, with any white space before each and anything
/// behind, gives the second as the value of the first, and no value for any
/// other key.
pub proof fn law_written_line_is_read(
    before: Seq<char>,
    key: Seq<char>,
    between: Seq<char>,
    value: Seq<char>,
    rest: Seq<char>,
    other: Seq<char>,
)
    requires
        forall|i: int| 0 <= i < before.len() ==> text::is_space(#[trigger] before[i]),
        forall|i: int| 0 <= i < between.len() ==> text::is_space(#[trigger] between[i]),
        other != key,
    ensures
        ({
            let line = before + seq!['"'] + escaped(key) + seq!['"'] + (between + seq!['"']
                + escaped(value) + seq!['"'] + rest);
            &&& value_on(line, key) == Some(value)
            &&& value_on(line, other) is None
        }),
{
    lemma_next_quoted(between, value, rest);
    lemma_next_quoted(before, key, between + seq!['"'] + escaped(value) + seq!['"'] + rest);
}

/// A line with one quoted text, or with none at its start, gives no value.
pub proof fn law_line_without_a_value(
    before: Seq<char>,
    key: Seq<char>,
    between: Seq<char>,
    rest: Seq<char>,
    wanted: Seq<char>,
)
    requires
        forall|i: int| 0 <= i < before.len() ==> text::is_space(#[trigger] before[i]),
        forall|i: int| 0 <= i < between.len() ==> text::is_space(#[trigger] between[i]),
        rest.len() > 0 ==> !text::is_space(rest[0]) && rest[0] != '"',
    ensures
        value_on(before + seq!['"'] + escaped(key) + seq!['"'] + (between + rest), wanted) is None,
        value_on(before + rest, wanted) is None,
{
    lemma_next_quoted(before, key, between + rest);
    lemma_nothing_quoted(between, rest);
    lemma_nothing_quoted(before, rest);
}

/// White space and then something else than a quote begins no quoted text.
proof fn lemma_nothing_quoted(before: Seq<char>, rest: Seq<char>)
    requires
        forall|i: int| 0 <= i < before.len() ==> text::is_space(#[trigger] before[i]),
        rest.len() > 0 ==> !text::is_space(rest[0]) && rest[0] != '"',
    ensures
        next_quoted(before + rest) is None,
{
    let s = before + rest;
    assert forall|i: int| 0 <= i < before.len() implies text::is_space(#[trigger] s[i]) by {
        assert(s[i] == before[i]);
    }
    if rest.len() > 0 {
        assert(s[before.len() as int] == rest[0]);
    }
    text::lemma_first_where_is(s, |c: char| !text::is_space(c), before.len() as int);
    assert(text::trim_start(s) == rest);
}

/// The values of a file are those that its lines give, line by line: the values
/// of two parts of a file are those of the one and then those of the other, and
/// one line gives one value or none.
pub proof fn law_values_line_by_line(
    lines: Seq<Seq<char>>,
    more: Seq<Seq<char>>,
    line: Seq<char>,
    key: Seq<char>,
)
    ensures
        values_in(lines + more, key) == values_in(lines, key) + values_in(more, key),
        value_on(line, key) matches Some(value) ==> values_in(seq![line], key) == seq![value],
        value_on(line, key) is None ==> values_in(seq![line], key).len() == 0,
    decreases more.len(),
{
    let none = Seq::<Seq<char>>::empty();
    assert(seq![line].drop_last() == none);
    assert(values_in(none, key) == none);
    if let Some(value) = value_on(line, key) {
        assert(none.push(value) == seq![value]);
    }
    if more.len() == 0 {
        assert(lines + more == lines);
        assert(more == none);
        assert(values_in(lines, key) + none == values_in(lines, key));
    } else {
        let all = lines + more;
        law_values_line_by_line(lines, more.drop_last(), line, key);
        assert(all.drop_last() == lines + more.drop_last());
        assert(all.last() == more.last());
        let (a, b) = (values_in(lines, key), values_in(more.drop_last(), key));
        if let Some(value) = value_on(more.last(), key) {
            assert((a + b).push(value) == a + b.push(value));
        }
    }
}

/// A quoted text is read character by character: a backslash makes the character
/// behind it count as itself, whatever it is and also where nothing follows, any
/// other character but a quote counts as itself, and a quote ends the text. A
/// text without a quote that ends it is none.
pub proof fn law_quoted_character_by_character(c: char, rest: Seq<char>, held: Seq<char>)
    ensures
        ({
            let behind_a_backslash = quoted(seq!['\\', c] + rest);
            match quoted(rest) {
                Some((more, left)) => behind_a_backslash == Some((seq![c] + more, left)),
                None => behind_a_backslash is None,
            }
        }),
        c != '"' && c != '\\' ==> match quoted(rest) {
            Some((more, left)) => quoted(seq![c] + rest) == Some((seq![c] + more, left)),
            None => quoted(seq![c] + rest) is None,
        },
        quoted(seq!['"'] + rest) == Some((Seq::<char>::empty(), rest)),
        quoted(seq!['\\']) is None,
        quoted(escaped(held)) is None,
{
    let two = seq!['\\', c] + rest;
    assert(two.skip(2) == rest);
    assert((seq![c] + rest).skip(1) == rest);
    assert((seq!['"'] + rest).skip(1) == rest);
    assert(seq!['\\'].skip(1) == Seq::<char>::empty());
    assert(quoted(Seq::<char>::empty()) is None);
    lemma_unfinished(held);
}

/// What is written between quotes holds no quote that ends it.
proof fn lemma_unfinished(held: Seq<char>)
    ensures
        quoted(escaped(held)) is None,
    decreases held.len(),
{
    if held.len() > 0 {
        let more = escaped(held.skip(1));
        lemma_unfinished(held.skip(1));
        let written = escaped(held);
        if held[0] == '"' || held[0] == '\\' {
            assert(written[0] == '\\' && written[1] == held[0]);
            assert(written.skip(2) == more);
        } else {
            assert(written[0] == held[0]);
            assert(written.skip(1) == more);
        }
    }
}

} // verus!
