//! Unix paths as text.

use crate::text;
use vstd::prelude::*;
use vstd::slice::slice_subrange;

verus! {

/// `tail` below `base`: `tail` itself where it is absolute, and otherwise both
/// with one separator between them.
pub open spec fn joined_path(base: Seq<char>, tail: Seq<char>) -> Seq<char> {
    if tail.len() > 0 && tail[0] == '/' {
        tail
    } else if base.len() == 0 || base.last() == '/' {
        base + tail
    } else {
        base.push('/') + tail
    }
}

/// `tail` below `base`.
pub fn join_path(base: &str, tail: &str) -> (path: String)
    ensures
        path@ == joined_path(base@, tail@),
        tail@.len() > 0 && tail@[0] == '/' ==> path@ == tail@,
        !(tail@.len() > 0 && tail@[0] == '/') && (base@.len() == 0 || base@.last() == '/') ==> path@
            == base@ + tail@,
        !(tail@.len() > 0 && tail@[0] == '/') && base@.len() > 0 && base@.last() != '/' ==> path@
            == base@ + seq!['/'] + tail@,
{
    let base_chars = text::chars_of(base);
    let tail_chars = text::chars_of(tail);
    if tail_chars.len() > 0 && tail_chars[0] == '/' {
        return tail.to_owned();
    }
    let mut path = base.to_owned();
    if base_chars.len() > 0 && base_chars[base_chars.len() - 1] != '/' {
        path.push('/');
    }
    path.push_str(tail);
    path
}

/// Whether a path starts at the root.
pub open spec fn is_absolute(path: Seq<char>) -> bool {
    path.len() > 0 && path[0] == '/'
}

/// Whether a part of a path says nothing: it is empty or names the directory itself.
pub open spec fn says_nothing(part: Seq<char>) -> bool {
    part.len() == 0 || part == seq!['.']
}

/// The parts of a path: what stands between its separators, without the parts
/// that say nothing.
pub open spec fn parts(path: Seq<char>) -> Seq<Seq<char>>
    decreases path.len(),
{
    proof {
        text::lemma_first_where(path, text::is_char('/'));
    }
    let end = text::first_index(path, '/');
    let first = if says_nothing(path.take(end)) {
        Seq::empty()
    } else {
        seq![path.take(end)]
    };
    if end == path.len() {
        first
    } else {
        first + parts(path.skip(end + 1))
    }
}

/// The root, as an element of a resolved path.
pub open spec fn root() -> Seq<char> {
    seq!['/']
}

/// The way up, as a part of a path.
pub open spec fn parent() -> Seq<char> {
    seq!['.', '.']
}

/// The elements that are left of a path when each way up has taken away the
/// element before it, if there is one. The root counts as an element.
pub open spec fn resolved(absolute: bool, of: Seq<Seq<char>>) -> Seq<Seq<char>>
    decreases of.len(),
{
    if of.len() == 0 {
        if absolute {
            seq![root()]
        } else {
            Seq::empty()
        }
    } else {
        let before = resolved(absolute, of.drop_last());
        if of.last() == parent() {
            if before.len() == 0 {
                before
            } else {
                before.drop_last()
            }
        } else {
            before.push(of.last())
        }
    }
}

/// The path that the elements make.
pub open spec fn written(elements: Seq<Seq<char>>) -> Seq<char> {
    if elements.len() > 0 && elements[0] == root() {
        root() + text::joined(elements.skip(1), seq!['/'])
    } else {
        text::joined(elements, seq!['/'])
    }
}

/// A path without `.` and `..`, made without a look at the file system.
pub open spec fn normalized(path: Seq<char>) -> Seq<char> {
    written(resolved(is_absolute(path), parts(path)))
}

/// Whether a part of a path says something and holds no separator.
pub open spec fn is_plain(part: Seq<char>) -> bool {
    !says_nothing(part) && !part.contains('/')
}

/// The parts of a path say something and hold no separator.
proof fn lemma_parts_plain(path: Seq<char>)
    ensures
        forall|i: int| 0 <= i < parts(path).len() ==> is_plain(#[trigger] parts(path)[i]),
    decreases path.len(),
{
    text::lemma_first_where(path, text::is_char('/'));
    let end = text::first_index(path, '/');
    if end < path.len() {
        lemma_parts_plain(path.skip(end + 1));
    }
    assert(!path.take(end).contains('/'));
    let first = if says_nothing(path.take(end)) {
        0int
    } else {
        1int
    };
    assert forall|i: int| 0 <= i < parts(path).len() implies is_plain(#[trigger] parts(path)[i]) by {
        if i >= first {
            assert(parts(path)[i] == parts(path.skip(end + 1))[i - first]);
        }
    }
}

/// What is left of plain parts is plain, but for the root in front, and holds
/// no way up.
proof fn lemma_resolved_plain(absolute: bool, of: Seq<Seq<char>>)
    requires
        forall|i: int| 0 <= i < of.len() ==> is_plain(#[trigger] of[i]),
    ensures
        ({
            let left = resolved(absolute, of);
            let rooted = left.len() > 0 && left[0] == root();
            &&& forall|i: int|
                (if rooted {
                    1int
                } else {
                    0int
                }) <= i < left.len() ==> is_plain(#[trigger] left[i]) && left[i] != parent()
        }),
    decreases of.len(),
{
    if of.len() > 0 {
        let before = resolved(absolute, of.drop_last());
        let left = resolved(absolute, of);
        lemma_resolved_plain(absolute, of.drop_last());
        assert(is_plain(of.last()));
        assert(root()[0] == '/');
        assert forall|i: int|
            (if left.len() > 0 && left[0] == root() {
                1int
            } else {
                0int
            }) <= i < left.len() implies is_plain(#[trigger] left[i]) && left[i] != parent() by {
            if i < before.len() {
                assert(left[i] == before[i]);
                assert(left[0] == before[0]);
            }
        }
    }
}

/// Cuts a path into its parts.
fn split_parts<'a>(path: &'a [char]) -> (pieces: Vec<&'a [char]>)
    ensures
        text::views(pieces@) == parts(path@),
{
    let mut pieces: Vec<&'a [char]> = Vec::new();
    let mut at: usize = 0;
    assert(path@.skip(0) == path@);
    loop
        invariant
            at <= path@.len(),
            parts(path@) == text::views(pieces@) + parts(path@.skip(at as int)),
        decreases path@.len() - at,
    {
        let ghost rest = path@.skip(at as int);
        let ghost before = text::views(pieces@);
        let end = text::find_char(path, at, '/');
        let piece = slice_subrange(path, at, end);
        proof {
            text::lemma_first_where(rest, text::is_char('/'));
            assert(rest.take(end - at) == piece@);
        }
        let empty = piece.len() == 0 || (piece.len() == 1 && piece[0] == '.');
        assert(empty == says_nothing(piece@)) by {
            if piece@.len() == 1 && piece@[0] == '.' {
                assert(piece@ == seq!['.']);
            }
        }
        if !empty {
            pieces.push(piece);
            assert(text::views(pieces@) == before + seq![piece@]);
        }
        if end == path.len() {
            assert(parts(path@) == text::views(pieces@));
            return pieces;
        }
        assert(rest.skip(end - at + 1) == path@.skip(end + 1));
        assert(parts(path@) == text::views(pieces@) + parts(path@.skip(end + 1)));
        at = end + 1;
    }
}

/// Takes `.` and `..` out of a path without a look at the file system: the
/// elements need not exist, and links are not followed.
pub fn normalize_lexical(path: &str) -> (result: String)
    ensures
        result@ == normalized(path@),
{
    let chars = text::chars_of(path);
    let pieces = split_parts(&chars);
    let absolute = chars.len() > 0 && chars[0] == '/';
    let ghost all = parts(path@);
    let mut rooted = absolute;
    let mut elements: Vec<&[char]> = Vec::new();
    assert(resolved(absolute, all.take(0)) == if absolute {
        seq![root()]
    } else {
        Seq::empty()
    });
    for i in 0..pieces.len()
        invariant
            text::views(pieces@) == all,
            rooted ==> absolute,
            forall|k: int| 0 <= k < elements@.len() ==> is_plain(#[trigger] elements@[k]@),
            all == parts(path@),
            resolved(absolute, all.take(i as int)) == if rooted {
                seq![root()] + text::views(elements@)
            } else {
                text::views(elements@)
            },
    {
        let piece = pieces[i];
        let ghost before = text::views(elements@);
        let ghost upto = all.take(i + 1);
        assert(upto.drop_last() == all.take(i as int));
        assert(upto.last() == piece@);
        proof {
            lemma_parts_plain(path@);
        }
        assert(is_plain(piece@));
        let up = piece.len() == 2 && piece[0] == '.' && piece[1] == '.';
        assert(up == (piece@ == parent())) by {
            if up {
                assert(piece@ == parent());
            }
        }
        if up {
            if elements.len() > 0 {
                elements.pop();
                assert(text::views(elements@) == before.drop_last());
                assert((seq![root()] + before).drop_last() == seq![root()] + before.drop_last());
            } else {
                assert((seq![root()] + before).drop_last() == Seq::<Seq<char>>::empty());
                assert(before == Seq::<Seq<char>>::empty());
                rooted = false;
            }
        } else {
            elements.push(piece);
            assert(text::views(elements@) == before.push(piece@));
            assert((seq![root()] + before).push(piece@) == seq![root()] + before.push(piece@));
        }
    }
    assert(all.take(all.len() as int) == all);
    let ghost inner = text::views(elements@);
    let mut result = String::new();
    if rooted {
        result.push('/');
        assert((seq![root()] + inner).skip(1) == inner);
    } else {
        proof {
            assert(root()[0] == '/');
            if inner.len() > 0 {
                assert(is_plain(elements@[0]@));
            }
        }
    }
    let body = text::join(&elements, "/");
    proof {
        reveal_strlit("/");
        assert("/"@ == seq!['/']);
    }
    result.push_str(&body);
    result
}

/// Whether a path begins with a part that names the directory itself.
pub open spec fn starts_here(path: Seq<char>) -> bool {
    path == seq!['.'] || seq!['.', '/'].is_prefix_of(path)
}

/// The components of a path: whether it starts at the root, whether it begins
/// with a part that names the directory itself, and its parts. A `.` counts only
/// at the start of a path, and doubled separators and those at the end not at all.
pub type Components = (bool, bool, Seq<Seq<char>>);

/// The components of a path.
pub open spec fn components(path: Seq<char>) -> Components {
    (is_absolute(path), starts_here(path), parts(path))
}

/// Whether two paths are made of the same components.
pub open spec fn same_components(a: Seq<char>, b: Seq<char>) -> bool {
    components(a) == components(b)
}

/// Bytes, each as the character of its number.
pub open spec fn byte_chars(bytes: Seq<u8>) -> Seq<char> {
    Seq::new(bytes.len(), |i: int| bytes[i] as char)
}

/// The components of a path that is given by its bytes, as not every path is a
/// text: each byte of a part is a character of it.
pub open spec fn byte_components(path: Seq<u8>) -> Components {
    components(byte_chars(path))
}

/// Whether a path begins with a part that names the directory itself.
fn begins_here(path: &[char]) -> (here: bool)
    ensures
        here == starts_here(path@),
{
    proof {
        lemma_starts_here(path@);
    }
    path.len() > 0 && path[0] == '.' && (path.len() == 1 || path[1] == '/')
}

/// Whether two paths are made of the same components.
fn same_component_chars(a: &[char], b: &[char]) -> (same: bool)
    ensures
        same == same_components(a@, b@),
{
    let a_root = a.len() > 0 && a[0] == '/';
    let b_root = b.len() > 0 && b[0] == '/';
    if a_root != b_root || begins_here(a) != begins_here(b) {
        return false;
    }
    let a_parts = split_parts(a);
    let b_parts = split_parts(b);
    assert(a_parts@.len() == parts(a@).len());
    assert(b_parts@.len() == parts(b@).len());
    if a_parts.len() != b_parts.len() {
        return false;
    }
    for i in 0..a_parts.len()
        invariant
            text::views(a_parts@) == parts(a@),
            text::views(b_parts@) == parts(b@),
            a_parts@.len() == b_parts@.len(),
            forall|j: int| 0 <= j < i ==> parts(a@)[j] == parts(b@)[j],
    {
        assert(a_parts@[i as int]@ == parts(a@)[i as int]);
        assert(b_parts@[i as int]@ == parts(b@)[i as int]);
        if !text::same_chars(a_parts[i], b_parts[i]) {
            return false;
        }
    }
    assert(parts(a@) =~= parts(b@));
    true
}

/// Whether two paths are made of the same components.
pub fn same_path(a: &str, b: &str) -> (same: bool)
    ensures
        same == same_components(a@, b@),
{
    same_component_chars(&text::chars_of(a), &text::chars_of(b))
}

/// Bytes, each as the character of its number.
fn chars_of_bytes(bytes: &[u8]) -> (chars: Vec<char>)
    ensures
        chars@ == byte_chars(bytes@),
{
    let mut chars: Vec<char> = Vec::new();
    for i in 0..bytes.len()
        invariant
            chars@ == byte_chars(bytes@).take(i as int),
    {
        chars.push(bytes[i] as char);
    }
    assert(byte_chars(bytes@).take(bytes@.len() as int) == byte_chars(bytes@));
    chars
}

/// Whether two paths that are given by their bytes are made of the same
/// components.
pub fn same_byte_path(a: &[u8], b: &[u8]) -> (same: bool)
    ensures
        same == (byte_components(a@) == byte_components(b@)),
{
    same_component_chars(&chars_of_bytes(a), &chars_of_bytes(b))
}

/// A separator more between or behind the parts of a path changes none of its
/// components.
pub proof fn law_doubled_separators_count_once(a: Seq<char>, b: Seq<char>)
    ensures
        a.len() > 0 ==> same_components(a.push('/').push('/') + b, a.push('/') + b),
        a.len() > 0 ==> same_components(a.push('/'), a),
{
    if a.len() > 0 {
        let nothing = Seq::<char>::empty();
        text::lemma_first_where_is(nothing, text::is_char('/'), 0);
        assert(parts(nothing) == Seq::<Seq<char>>::empty());
        lemma_parts_of_joined(a, nothing);
        assert(a.push('/') + nothing == a.push('/'));
        assert(parts(a.push('/')) == parts(a));
        lemma_parts_of_joined(a.push('/'), b);
        lemma_parts_of_joined(a, b);
        let one = a.push('/') + b;
        let two = a.push('/').push('/') + b;
        assert(one[0] == a[0] && two[0] == a[0] && a.push('/')[0] == a[0]);
        lemma_starts_here(one);
        lemma_starts_here(two);
        lemma_starts_here(a);
        lemma_starts_here(a.push('/'));
        assert(one[1] == two[1]);
        if a.len() > 1 {
            assert(a.push('/')[1] == a[1]);
        }
    }
}

/// How a path begins that begins with a part that names the directory itself.
proof fn lemma_starts_here(path: Seq<char>)
    ensures
        starts_here(path) <==> path.len() > 0 && path[0] == '.' && (path.len() == 1 || path[1]
            == '/'),
{
    let here = path.len() > 0 && path[0] == '.' && (path.len() == 1 || path[1] == '/');
    if here && path.len() == 1 {
        assert(path == seq!['.']);
    } else if here {
        assert(path.subrange(0, 2) == seq!['.', '/']);
    } else if seq!['.', '/'].is_prefix_of(path) {
        assert(path.subrange(0, 2)[0] == path[0]);
        assert(path.subrange(0, 2)[1] == path[1]);
    }
}

/// A separator cuts a path in two: the parts are those of the one side and
/// then those of the other.
proof fn lemma_parts_of_joined(a: Seq<char>, b: Seq<char>)
    ensures
        parts(a.push('/') + b) == parts(a) + parts(b),
    decreases a.len(),
{
    let whole = a.push('/') + b;
    let end = text::first_index(a, '/');
    text::lemma_first_where(a, text::is_char('/'));
    assert forall|i: int| 0 <= i < end implies !text::is_char('/')(#[trigger] whole[i]) by {
        assert(whole[i] == a[i]);
    }
    text::lemma_first_where_is(whole, text::is_char('/'), end);
    assert(whole.take(end) == a.take(end));
    if end == a.len() {
        assert(whole.skip(end + 1) == b);
    } else {
        lemma_parts_of_joined(a.skip(end + 1), b);
        assert(whole.skip(end + 1) == a.skip(end + 1).push('/') + b);
    }
}

/// A plain part is the one part of itself.
proof fn lemma_parts_of_plain(part: Seq<char>)
    requires
        is_plain(part),
    ensures
        parts(part) == seq![part],
{
    assert forall|i: int| 0 <= i < part.len() implies !text::is_char('/')(#[trigger] part[i]) by {
        assert(part.contains(part[i]));
    }
    text::lemma_first_where_is(part, text::is_char('/'), part.len() as int);
    assert(part.take(part.len() as int) == part);
}

/// Plain parts can be read back from the path that they make.
proof fn lemma_parts_read_back(plain: Seq<Seq<char>>)
    requires
        forall|i: int| 0 <= i < plain.len() ==> is_plain(#[trigger] plain[i]),
    ensures
        parts(text::joined(plain, seq!['/'])) == plain,
        !is_absolute(text::joined(plain, seq!['/'])),
    decreases plain.len(),
{
    let path = text::joined(plain, seq!['/']);
    if plain.len() == 0 {
        text::lemma_first_where_is(path, text::is_char('/'), 0);
        assert(parts(path) == plain);
    } else if plain.len() == 1 {
        lemma_parts_of_plain(plain[0]);
        assert(plain == seq![plain[0]]);
        assert(plain[0].contains(plain[0][0]));
    } else {
        let front = plain.drop_last();
        lemma_parts_read_back(front);
        lemma_parts_of_plain(plain.last());
        lemma_parts_of_joined(text::joined(front, seq!['/']), plain.last());
        assert(path == text::joined(front, seq!['/']).push('/') + plain.last());
        assert(plain == front + seq![plain.last()]);
        if text::joined(front, seq!['/']).len() == 0 {
            lemma_parts_of_plain(front[0]);
            assert(parts(text::joined(front, seq!['/'])).len() > 0);
            text::lemma_first_where_is(Seq::<char>::empty(), text::is_char('/'), 0);
            assert(text::joined(front, seq!['/']) == Seq::<char>::empty());
            assert(parts(Seq::<char>::empty()).len() == 0);
        }
    }
}

/// Without a way up, every part is left.
proof fn lemma_resolved_without_parents(absolute: bool, of: Seq<Seq<char>>)
    requires
        forall|i: int| 0 <= i < of.len() ==> #[trigger] of[i] != parent(),
    ensures
        resolved(absolute, of) == if absolute {
            seq![root()] + of
        } else {
            of
        },
    decreases of.len(),
{
    if of.len() > 0 {
        lemma_resolved_without_parents(absolute, of.drop_last());
        assert(of.last() != parent());
        assert((seq![root()] + of.drop_last()).push(of.last()) == seq![root()] + of);
        assert(of.drop_last().push(of.last()) == of);
    }
}

/// What a normalized path is made of.
proof fn lemma_normalized_parts(path: Seq<char>)
    ensures
        forall|i: int|
            0 <= i < parts(normalized(path)).len() ==> is_plain(#[trigger] parts(normalized(path))[i])
                && parts(normalized(path))[i] != parent(),
        resolved(is_absolute(normalized(path)), parts(normalized(path))) == resolved(
            is_absolute(path),
            parts(path),
        ),
{
    let left = resolved(is_absolute(path), parts(path));
    lemma_parts_plain(path);
    lemma_resolved_plain(is_absolute(path), parts(path));
    if left.len() > 0 && left[0] == root() {
        let inner = left.skip(1);
        assert forall|i: int| 0 <= i < inner.len() implies is_plain(#[trigger] inner[i]) && inner[i]
            != parent() by {
            assert(inner[i] == left[i + 1]);
        }
        lemma_parts_read_back(inner);
        let body = text::joined(inner, seq!['/']);
        let nothing = Seq::<char>::empty();
        lemma_parts_of_joined(nothing, body);
        text::lemma_first_where_is(nothing, text::is_char('/'), 0);
        assert(parts(nothing) == Seq::<Seq<char>>::empty());
        assert(nothing.push('/') + body == root() + body);
        assert(parts(normalized(path)) == inner);
        lemma_resolved_without_parents(true, inner);
        assert(left == seq![root()] + inner);
    } else {
        lemma_parts_read_back(left);
        lemma_resolved_without_parents(false, left);
    }
}

/// A normalized path holds neither `.` nor `..` nor an empty part.
pub proof fn law_normalized_has_no_dots(path: Seq<char>)
    ensures
        forall|i: int|
            0 <= i < parts(normalized(path)).len() ==> {
                let part = #[trigger] parts(normalized(path))[i];
                part.len() > 0 && part != seq!['.'] && part != seq!['.', '.']
            },
{
    lemma_normalized_parts(path);
    assert forall|i: int| 0 <= i < parts(normalized(path)).len() implies {
        let part = #[trigger] parts(normalized(path))[i];
        part.len() > 0 && part != seq!['.'] && part != seq!['.', '.']
    } by {
        assert(is_plain(parts(normalized(path))[i]));
    }
}

/// Normalizing a path a second time changes nothing.
pub proof fn law_normalize_twice(path: Seq<char>)
    ensures
        normalized(normalized(path)) == normalized(path),
{
    lemma_normalized_parts(path);
}

// ---------------------------------------------------------------------------
// Laws on written paths
// ---------------------------------------------------------------------------

/// Whether a part is the name of something below a directory: not empty, neither
/// `.` nor `..`, and without a separator.
pub open spec fn is_entry(part: Seq<char>) -> bool {
    &&& part.len() > 0
    &&& part != seq!['.']
    &&& part != seq!['.', '.']
    &&& !part.contains('/')
}

/// A path that is written with one separator between any two of its parts, and
/// one in front where it starts at the root.
pub open spec fn written_path(absolute: bool, names: Seq<Seq<char>>) -> Seq<char> {
    if absolute {
        seq!['/'] + text::joined(names, seq!['/'])
    } else {
        text::joined(names, seq!['/'])
    }
}

/// The parts of a written path are those that it was written with.
proof fn lemma_parts_of_written(absolute: bool, names: Seq<Seq<char>>)
    requires
        forall|i: int| 0 <= i < names.len() ==> is_plain(#[trigger] names[i]),
    ensures
        parts(written_path(absolute, names)) == names,
        is_absolute(written_path(absolute, names)) == absolute,
        !starts_here(written_path(absolute, names)),
{
    let body = text::joined(names, seq!['/']);
    lemma_parts_read_back(names);
    lemma_starts_here(written_path(absolute, names));
    if absolute {
        let nothing = Seq::<char>::empty();
        lemma_parts_of_joined(nothing, body);
        text::lemma_first_where_is(nothing, text::is_char('/'), 0);
        assert(parts(nothing) == Seq::<Seq<char>>::empty());
        assert(nothing.push('/') + body == seq!['/'] + body);
        assert(parts(nothing) + parts(body) == parts(body));
    } else if names.len() > 0 {
        lemma_joined_begins(names);
        let first = names[0];
        assert(is_plain(first));
        assert(body[0] == first[0]);
        if first.len() == 1 {
            if first[0] == '.' {
                assert(first == seq!['.']);
            }
        } else {
            assert(body[1] == first[1]);
            assert(first.contains(first[1]));
        }
    }
}

/// Joined parts begin with the first and end with the last.
proof fn lemma_joined_begins(names: Seq<Seq<char>>)
    requires
        names.len() > 0,
    ensures
        text::joined(names, seq!['/']).len() >= names[0].len(),
        text::joined(names, seq!['/']).len() >= names.last().len(),
        forall|i: int|
            0 <= i < names[0].len() ==> #[trigger] text::joined(names, seq!['/'])[i] == names[0][i],
        names.last().len() > 0 ==> text::joined(names, seq!['/']).last() == names.last().last(),
    decreases names.len(),
{
    if names.len() > 1 {
        let front = names.drop_last();
        lemma_joined_begins(front);
        assert(front[0] == names[0]);
    }
}

/// A path of names alone is already normalized.
pub proof fn law_plain_path_is_unchanged(absolute: bool, names: Seq<Seq<char>>)
    requires
        forall|i: int| 0 <= i < names.len() ==> is_entry(#[trigger] names[i]),
    ensures
        normalized(written_path(absolute, names)) == written_path(absolute, names),
{
    assert forall|i: int| 0 <= i < names.len() implies is_plain(#[trigger] names[i]) && names[i]
        != parent() by {
        assert(is_entry(names[i]));
    }
    lemma_parts_of_written(absolute, names);
    lemma_resolved_without_parents(absolute, names);
    if absolute {
        assert((seq![root()] + names).skip(1) == names);
    } else if names.len() > 0 {
        assert(is_entry(names[0]));
        assert(root().contains(root()[0]));
    }
}

/// What a name behind a path adds to what the path is made of.
proof fn lemma_one_more_part(path: Seq<char>, part: Seq<char>)
    requires
        path.len() > 0,
        is_plain(part),
    ensures
        parts(path + seq!['/'] + part) == parts(path).push(part),
        is_absolute(path + seq!['/'] + part) == is_absolute(path),
{
    lemma_parts_of_joined(path, part);
    lemma_parts_of_plain(part);
    assert(path.push('/') + part == path + seq!['/'] + part);
    assert(parts(path) + seq![part] == parts(path).push(part));
}

/// A name behind a path is put behind the normalized path.
pub proof fn law_normalize_keeps_a_name(path: Seq<char>, name: Seq<char>)
    requires
        path.len() > 0,
        is_entry(name),
    ensures
        normalized(path + seq!['/'] + name) == joined_path(normalized(path), name),
{
    lemma_one_more_part(path, name);
    let left = resolved(is_absolute(path), parts(path));
    assert(parts(path).push(name).drop_last() == parts(path));
    lemma_parts_plain(path);
    lemma_resolved_plain(is_absolute(path), parts(path));
    assert(resolved(is_absolute(path), parts(path).push(name)) == left.push(name));
    assert(name.contains(name[0]));
    assert(root()[0] == '/');
    if left.len() > 0 && left[0] == root() {
        let inner = left.skip(1);
        assert(left.push(name).skip(1) == inner.push(name));
        assert(inner.push(name).drop_last() == inner);
        if inner.len() > 0 {
            lemma_joined_begins(inner);
            assert(is_plain(left[left.len() - 1]));
            assert(inner.last() == left.last());
            assert(inner.last().contains(inner.last().last()));
            let body = text::joined(inner, seq!['/']);
            assert((root() + body).last() == body.last());
            assert(root() + (body + seq!['/'] + name) == (root() + body).push('/') + name);
        } else {
            assert(root() + text::joined(inner, seq!['/']) == root());
        }
    } else {
        assert(left.push(name).drop_last() == left);
        if left.len() > 0 {
            assert(left.push(name)[0] == left[0]);
            lemma_joined_begins(left);
            assert(is_plain(left[left.len() - 1]));
            assert(left.last().contains(left.last().last()));
            let body = text::joined(left, seq!['/']);
            assert(body + seq!['/'] + name == body.push('/') + name);
        } else {
            assert(left.push(name) == seq![name]);
            assert(written(left) == Seq::<char>::empty());
            assert(Seq::<char>::empty() + name == name);
        }
    }
}

/// A name and the way up behind it leave a path as it was; so do a `.` and a
/// separator more.
pub proof fn law_normalize_takes_away(path: Seq<char>, name: Seq<char>)
    requires
        path.len() > 0,
        is_entry(name),
    ensures
        normalized(path + seq!['/'] + name + seq!['/'] + seq!['.', '.']) == normalized(path),
        normalized(path + seq!['/'] + seq!['.']) == normalized(path),
        normalized(path + seq!['/']) == normalized(path),
{
    lemma_one_more_part(path, name);
    let longer = path + seq!['/'] + name;
    assert(seq!['.', '.'][0] == '.' && seq!['.', '.'].len() == 2);
    assert(is_plain(seq!['.', '.']));
    lemma_one_more_part(longer, seq!['.', '.']);
    let all = parts(path);
    assert(all.push(name).drop_last() == all);
    assert(all.push(name).push(parent()).drop_last() == all.push(name));
    let left = resolved(is_absolute(path), all);
    assert(resolved(is_absolute(path), all.push(name)) == left.push(name));
    assert(left.push(name).drop_last() == left);
    assert(resolved(is_absolute(path), all.push(name).push(parent())) == left);
    let nothing = Seq::<char>::empty();
    let here = seq!['.'];
    lemma_parts_of_joined(path, here);
    lemma_parts_of_joined(path, nothing);
    text::lemma_first_where_is(nothing, text::is_char('/'), 0);
    text::lemma_first_where_is(here, text::is_char('/'), 1);
    assert(nothing.take(0) == nothing);
    assert(here.take(1) == here);
    assert(parts(nothing) == Seq::<Seq<char>>::empty());
    assert(parts(here) == Seq::<Seq<char>>::empty());
    assert(path.push('/') + here == path + seq!['/'] + seq!['.']);
    assert(path.push('/') + nothing == path + seq!['/']);
    assert(all + Seq::<Seq<char>>::empty() == all);
}

/// The way up behind a path goes by what the path normalizes to: two paths that
/// normalize to the same have the same parent. The parent of a name in the
/// current directory is the current directory, and that of a name at the root is
/// the root.
pub proof fn law_normalize_goes_up(path: Seq<char>, other: Seq<char>, name: Seq<char>)
    requires
        path.len() > 0,
        other.len() > 0,
        is_entry(name),
    ensures
        normalized(path) == normalized(other) ==> normalized(path + seq!['/'] + seq!['.', '.'])
            == normalized(other + seq!['/'] + seq!['.', '.']),
        normalized(name + seq!['/'] + seq!['.', '.']) == Seq::<char>::empty(),
        normalized(seq!['/'] + name + seq!['/'] + seq!['.', '.']) == seq!['/'],
{
    let up = seq!['.', '.'];
    assert(up[0] == '.' && up.len() == 2);
    assert(is_plain(up));
    lemma_one_more_part(path, up);
    lemma_one_more_part(other, up);
    assert(parts(path).push(up).drop_last() == parts(path));
    assert(parts(other).push(up).drop_last() == parts(other));
    lemma_normalized_parts(path);
    lemma_normalized_parts(other);
    lemma_parts_of_plain(name);
    assert(name.contains(name[0]));
    lemma_one_more_part(name, up);
    let one = seq![name];
    let none = Seq::<Seq<char>>::empty();
    assert(one.drop_last() == none);
    assert(one.push(up).drop_last() == one);
    assert(resolved(false, none) == none);
    assert(one.last() == name);
    assert(resolved(false, one) == none.push(name));
    assert(none.push(name).drop_last() == none);
    assert(resolved(false, one.push(up)) == none);
    assert(text::joined(none, seq!['/']) == Seq::<char>::empty());
    let rooted = seq!['/'] + name;
    let nothing = Seq::<char>::empty();
    lemma_parts_of_joined(nothing, name);
    text::lemma_first_where_is(nothing, text::is_char('/'), 0);
    assert(parts(nothing) == none);
    assert(nothing.push('/') + name == rooted);
    assert(none + one == one);
    lemma_one_more_part(rooted, up);
    let top = seq![root()];
    assert(resolved(true, none) == top);
    assert(resolved(true, one) == top.push(name));
    assert(top.push(name).drop_last() == top);
    assert(resolved(true, one.push(up)) == top);
    assert(top.skip(1) == none);
    assert(root() + text::joined(none, seq!['/']) == root());
}

/// Two paths that are written with names alone are the same exactly where both
/// or neither start at the root and the names are the same.
pub proof fn law_same_written_paths(
    one_absolute: bool,
    one: Seq<Seq<char>>,
    other_absolute: bool,
    other: Seq<Seq<char>>,
    same: bool,
)
    requires
        same == same_components(
            written_path(one_absolute, one),
            written_path(other_absolute, other),
        ),
        forall|i: int| 0 <= i < one.len() ==> is_plain(#[trigger] one[i]),
        forall|i: int| 0 <= i < other.len() ==> is_plain(#[trigger] other[i]),
    ensures
        same <==> one_absolute == other_absolute && one == other,
{
    lemma_parts_of_written(one_absolute, one);
    lemma_parts_of_written(other_absolute, other);
}

/// A `.` between two parts of a path changes none of its components, but one at
/// the start does.
pub proof fn law_dots_inside_do_not_count(a: Seq<char>, b: Seq<char>)
    requires
        a.len() > 0,
    ensures
        same_components(a + seq!['/', '.', '/'] + b, a + seq!['/'] + b),
        !is_absolute(a) && !starts_here(a) ==> !same_components(seq!['.', '/'] + a, a),
{
    let here = seq!['.'];
    let none = Seq::<Seq<char>>::empty();
    text::lemma_first_where_is(here, text::is_char('/'), 1);
    assert(here.take(1) == here);
    assert(parts(here) == none);
    lemma_parts_of_joined(a, b);
    lemma_parts_of_joined(a, here);
    let longer = a.push('/') + here;
    lemma_parts_of_joined(longer, b);
    assert(parts(a) + none == parts(a));
    let one = a + seq!['/', '.', '/'] + b;
    let two = a + seq!['/'] + b;
    assert(longer.push('/') + b == one);
    assert(a.push('/') + b == two);
    lemma_starts_here(one);
    lemma_starts_here(two);
    assert(one[0] == two[0] && one[1] == two[1]);
    lemma_starts_here(seq!['.', '/'] + a);
    assert((seq!['.', '/'] + a)[0] == '.' && (seq!['.', '/'] + a)[1] == '/');
}

/// Two byte strings without a separator are the same path exactly where they are
/// the same bytes, unless they are empty or a `.`.
pub proof fn law_plain_byte_paths(a: Seq<u8>, b: Seq<u8>, same: bool)
    requires
        same == (byte_components(a) == byte_components(b)),
        a.len() > 0,
        b.len() > 0,
        !a.contains(0x2f),
        !b.contains(0x2f),
        a != seq![0x2eu8],
        b != seq![0x2eu8],
    ensures
        same <==> a == b,
{
    lemma_plain_bytes(a);
    lemma_plain_bytes(b);
    if same {
        let (x, y) = (byte_chars(a), byte_chars(b));
        assert(seq![x] == seq![y]);
        assert(seq![x][0] == seq![y][0]);
        assert(x == y);
        assert forall|i: int| 0 <= i < a.len() implies a[i] == b[i] by {
            assert(x[i] == a[i] as char && y[i] == b[i] as char);
            lemma_byte_char(a[i]);
            lemma_byte_char(b[i]);
        }
        assert(a =~= b);
    }
}

/// A byte is the number of its character.
proof fn lemma_byte_char(b: u8)
    ensures
        (b as char) as int == b as int,
{
}

/// Bytes without a separator are one part.
proof fn lemma_plain_bytes(a: Seq<u8>)
    requires
        a.len() > 0,
        !a.contains(0x2f),
        a != seq![0x2eu8],
    ensures
        parts(byte_chars(a)) == seq![byte_chars(a)],
{
    let x = byte_chars(a);
    if x == seq!['.'] {
        assert(x[0] == a[0] as char);
        lemma_byte_char(a[0]);
        assert(x.len() == seq!['.'].len());
        assert(x[0] == seq!['.'][0]);
        assert(a[0] == 0x2e);
        assert(a =~= seq![0x2eu8]);
    }
    if x.contains('/') {
        let i = x.index_of('/');
        assert(x[i] == a[i] as char);
        lemma_byte_char(a[i]);
        assert(a[i] == 0x2f);
    }
    lemma_parts_of_plain(x);
}

} // verus!
