//! Text as sequences of characters: the searching, splitting, trimming and
//! number reading that the rest of the crate is built on.
//!
//! The specification functions work on `Seq<char>`, the view of `str`,
//! `String` and `[char]`. The executable functions work on slices of
//! characters, which can be cut without copying.

use vstd::prelude::*;
use vstd::slice::slice_subrange;

verus! {

/// `String::push` appends one character.
pub assume_specification[ String::push ](s: &mut String, c: char)
    ensures
        final(s)@ == old(s)@.push(c),
;

/// `String::push_str` appends a text.
pub assume_specification[ String::push_str ](s: &mut String, tail: &str)
    ensures
        final(s)@ == old(s)@ + tail@,
;

/// The error of bytes that are no UTF-8.
#[verifier::external_type_specification]
#[verifier::external_body]
pub struct ExUtf8Error(std::str::Utf8Error);

/// `std::str::from_utf8` reads bytes as UTF-8, and fails where they are none.
pub assume_specification[ std::str::from_utf8 ](bytes: &[u8]) -> (result: Result<
    &str,
    std::str::Utf8Error,
>)
    ensures
        result is Ok <==> vstd::utf8::valid_utf8(bytes@),
        result matches Ok(s) ==> s@ == vstd::utf8::decode_utf8(bytes@),
;

/// The characters of `text`, in order.
pub fn chars_of(text: &str) -> (chars: Vec<char>)
    ensures
        chars@ == text@,
{
    let mut chars: Vec<char> = Vec::new();
    for c in iter: text.chars()
        invariant
            chars@ == text@.take(iter.index()),
            iter.seq() == text@,
    {
        chars.push(c);
    }
    assert(text@.take(text@.len() as int) == text@);
    chars
}

/// Appends `chars` to `text`.
pub fn push_chars(text: &mut String, chars: &[char])
    ensures
        final(text)@ == old(text)@ + chars@,
{
    let ghost before = text@;
    for i in 0..chars.len()
        invariant
            text@ == before + chars@.take(i as int),
    {
        text.push(chars[i]);
    }
    assert(chars@.take(chars@.len() as int) == chars@);
}

/// The text made of `chars`, in order.
pub fn string_of(chars: &[char]) -> (text: String)
    ensures
        text@ == chars@,
{
    let mut text = String::new();
    push_chars(&mut text, chars);
    text
}

/// What a text holds, where there is one.
pub open spec fn opt_view(t: Option<String>) -> Option<Seq<char>> {
    match t {
        Some(held) => Some(held@),
        None => None,
    }
}

/// What a text holds, where there is one.
pub open spec fn opt_str_view(t: Option<&str>) -> Option<Seq<char>> {
    match t {
        Some(held) => Some(held@),
        None => None,
    }
}

/// Whether two sequences of characters are the same.
pub fn same_chars(a: &[char], b: &[char]) -> (same: bool)
    ensures
        same == (a@ == b@),
{
    if a.len() != b.len() {
        return false;
    }
    for i in 0..a.len()
        invariant
            a@.len() == b@.len(),
            forall|j: int| 0 <= j < i ==> a@[j] == b@[j],
    {
        if a[i] != b[i] {
            return false;
        }
    }
    assert(a@ =~= b@);
    true
}

/// Whether two texts are the same.
pub fn same_text(a: &str, b: &str) -> (same: bool)
    ensures
        same == (a@ == b@),
{
    same_chars(&chars_of(a), &chars_of(b))
}

/// Whether `text` begins with `prefix`.
pub fn starts_with(text: &[char], prefix: &[char]) -> (found: bool)
    ensures
        found == prefix@.is_prefix_of(text@),
{
    if text.len() < prefix.len() {
        return false;
    }
    same_chars(slice_subrange(text, 0, prefix.len()), prefix)
}

/// Whether `text` ends with `suffix`.
pub fn ends_with(text: &[char], suffix: &[char]) -> (found: bool)
    ensures
        found == suffix@.is_suffix_of(text@),
{
    if text.len() < suffix.len() {
        return false;
    }
    same_chars(slice_subrange(text, text.len() - suffix.len(), text.len()), suffix)
}

// ---------------------------------------------------------------------------
// Searching
// ---------------------------------------------------------------------------

/// The least index at which `wanted` holds, or the length where it holds nowhere.
pub open spec fn first_where(s: Seq<char>, wanted: spec_fn(char) -> bool) -> int
    decreases s.len(),
{
    if s.len() == 0 || wanted(s[0]) {
        0
    } else {
        1 + first_where(s.drop_first(), wanted)
    }
}

/// `first_where` is the one index that has nothing wanted before it and is
/// wanted itself, or is the end.
pub proof fn lemma_first_where(s: Seq<char>, wanted: spec_fn(char) -> bool)
    ensures
        0 <= first_where(s, wanted) <= s.len(),
        forall|i: int| 0 <= i < first_where(s, wanted) ==> !wanted(#[trigger] s[i]),
        first_where(s, wanted) < s.len() ==> wanted(s[first_where(s, wanted)]),
    decreases s.len(),
{
    if s.len() == 0 || wanted(s[0]) {
    } else {
        let rest = s.drop_first();
        lemma_first_where(rest, wanted);
        assert forall|i: int| 0 <= i < first_where(s, wanted) implies !wanted(#[trigger] s[i]) by {
            if i > 0 {
                assert(rest[i - 1] == s[i]);
            }
        }
    }
}

/// The index that `first_where` gives, recognised by what it is.
pub proof fn lemma_first_where_is(s: Seq<char>, wanted: spec_fn(char) -> bool, at: int)
    requires
        0 <= at <= s.len(),
        forall|i: int| 0 <= i < at ==> !wanted(#[trigger] s[i]),
        at < s.len() ==> wanted(s[at]),
    ensures
        first_where(s, wanted) == at,
{
    lemma_first_where(s, wanted);
    let found = first_where(s, wanted);
    if found < at {
        assert(!wanted(s[found]));
    } else if at < found {
        assert(!wanted(s[at]));
    }
}

/// Being the character `c`.
pub open spec fn is_char(c: char) -> spec_fn(char) -> bool {
    |x: char| x == c
}

/// The first index of `c` in `s`, or the length where it does not occur.
pub open spec fn first_index(s: Seq<char>, c: char) -> int {
    first_where(s, is_char(c))
}

/// Finds the first `c` at or after `from`, or the end.
pub fn find_char(text: &[char], from: usize, c: char) -> (at: usize)
    requires
        from <= text@.len(),
    ensures
        from <= at <= text@.len(),
        at - from == first_index(text@.skip(from as int), c),
{
    let mut at: usize = from;
    while at < text.len() && text[at] != c
        invariant
            from <= at <= text@.len(),
            forall|i: int| from <= i < at ==> text@[i] != c,
        decreases text@.len() - at,
    {
        at += 1;
    }
    proof {
        lemma_first_where_is(text@.skip(from as int), is_char(c), at - from);
    }
    at
}

/// The last index of `c` in `s`, or -1 where it does not occur.
pub open spec fn last_index(s: Seq<char>, c: char) -> int
    decreases s.len(),
{
    if s.len() == 0 {
        -1
    } else if s.last() == c {
        s.len() - 1
    } else {
        last_index(s.drop_last(), c)
    }
}

/// Finds the last `c`.
pub fn find_last_char(text: &[char], c: char) -> (found: Option<usize>)
    ensures
        found is None <==> last_index(text@, c) == -1,
        found matches Some(at) ==> at == last_index(text@, c) && at < text@.len(),
{
    let mut end: usize = text.len();
    assert(text@.take(end as int) == text@);
    while end > 0
        invariant
            end <= text@.len(),
            last_index(text@.take(end as int), c) == last_index(text@, c),
        decreases end,
    {
        assert(text@.take(end as int).drop_last() == text@.take(end - 1));
        if text[end - 1] == c {
            return Some(end - 1);
        }
        end -= 1;
    }
    None
}

/// Whether `pattern` stands in `s` at index `at`.
pub open spec fn occurs_at<T>(s: Seq<T>, pattern: Seq<T>, at: int) -> bool {
    0 <= at && at + pattern.len() <= s.len() && s.subrange(at, at + pattern.len()) == pattern
}

/// Whether `pattern` stands anywhere in `s`.
pub open spec fn occurs<T>(s: Seq<T>, pattern: Seq<T>) -> bool {
    exists|at: int| occurs_at(s, pattern, at)
}

/// The first index at or after `from` at which `pattern` stands in `s`.
pub open spec fn occurrence_from<T>(s: Seq<T>, pattern: Seq<T>, from: int) -> Option<int>
    decreases s.len() - from + 1,
{
    if from + pattern.len() > s.len() {
        None
    } else if occurs_at(s, pattern, from) {
        Some(from)
    } else {
        occurrence_from(s, pattern, from + 1)
    }
}

/// The first index at which `pattern` stands in `s`.
pub open spec fn first_occurrence<T>(s: Seq<T>, pattern: Seq<T>) -> Option<int> {
    occurrence_from(s, pattern, 0)
}

/// `occurrence_from` is the one index at which the pattern stands and before
/// which it does not.
pub proof fn lemma_occurrence_from<T>(s: Seq<T>, pattern: Seq<T>, from: int)
    ensures
        occurrence_from(s, pattern, from) matches Some(at) ==> from <= at && occurs_at(
            s,
            pattern,
            at,
        ) && forall|i: int| from <= i < at ==> !occurs_at(s, pattern, i),
        occurrence_from(s, pattern, from) is None ==> forall|i: int|
            from <= i ==> !occurs_at(s, pattern, i),
    decreases s.len() - from + 1,
{
    if from + pattern.len() <= s.len() && !occurs_at(s, pattern, from) {
        lemma_occurrence_from(s, pattern, from + 1);
    }
}

/// Finds where `pattern` first stands in `text`.
pub fn find(text: &[char], pattern: &[char]) -> (found: Option<usize>)
    ensures
        found is Some <==> first_occurrence(text@, pattern@) is Some,
        found matches Some(at) ==> first_occurrence(text@, pattern@) == Some(at as int) && at
            <= text@.len(),
{
    if text.len() < pattern.len() {
        return None;
    }
    let last: usize = text.len() - pattern.len();
    let mut at: usize = 0;
    loop
        invariant
            last + pattern@.len() == text@.len() <= usize::MAX,
            at <= last,
            first_occurrence(text@, pattern@) == occurrence_from(text@, pattern@, at as int),
        decreases last - at,
    {
        if same_chars(slice_subrange(text, at, at + pattern.len()), pattern) {
            return Some(at);
        }
        if at == last {
            return None;
        }
        at += 1;
    }
}

/// Whether two sequences of bytes are the same.
pub fn same_bytes(a: &[u8], b: &[u8]) -> (same: bool)
    ensures
        same == (a@ == b@),
{
    if a.len() != b.len() {
        return false;
    }
    for i in 0..a.len()
        invariant
            a@.len() == b@.len(),
            forall|j: int| 0 <= j < i ==> a@[j] == b@[j],
    {
        if a[i] != b[i] {
            return false;
        }
    }
    assert(a@ =~= b@);
    true
}

/// Whether `pattern` stands anywhere in `bytes`.
pub fn contains_bytes(bytes: &[u8], pattern: &[u8]) -> (found: bool)
    ensures
        found == occurs(bytes@, pattern@),
{
    if bytes.len() < pattern.len() {
        return false;
    }
    let last: usize = bytes.len() - pattern.len();
    let mut at: usize = 0;
    loop
        invariant
            last + pattern@.len() == bytes@.len() <= usize::MAX,
            at <= last,
            forall|i: int| 0 <= i < at ==> !occurs_at(bytes@, pattern@, i),
        decreases last - at,
    {
        if same_bytes(slice_subrange(bytes, at, at + pattern.len()), pattern) {
            assert(occurs_at(bytes@, pattern@, at as int));
            return true;
        }
        if at == last {
            assert forall|i: int| !occurs_at(bytes@, pattern@, i) by {}
            return false;
        }
        at += 1;
    }
}

// ---------------------------------------------------------------------------
// White space
// ---------------------------------------------------------------------------

/// The characters with the Unicode property `White_Space`.
pub open spec fn is_space(c: char) -> bool {
    ||| '\u{9}' <= c <= '\u{d}'
    ||| c == '\u{20}'
    ||| c == '\u{85}'
    ||| c == '\u{a0}'
    ||| c == '\u{1680}'
    ||| '\u{2000}' <= c <= '\u{200a}'
    ||| c == '\u{2028}'
    ||| c == '\u{2029}'
    ||| c == '\u{202f}'
    ||| c == '\u{205f}'
    ||| c == '\u{3000}'
}

/// Whether `c` has the Unicode property `White_Space`.
pub fn is_whitespace(c: char) -> (space: bool)
    ensures
        space == is_space(c),
{
    ('\u{9}' <= c && c <= '\u{d}') || c == '\u{20}' || c == '\u{85}' || c == '\u{a0}' || c
        == '\u{1680}' || ('\u{2000}' <= c && c <= '\u{200a}') || c == '\u{2028}' || c
        == '\u{2029}' || c == '\u{202f}' || c == '\u{205f}' || c == '\u{3000}'
}

/// `s` without the white space it begins with.
pub open spec fn trim_start(s: Seq<char>) -> Seq<char> {
    s.skip(first_where(s, |c: char| !is_space(c)))
}

/// `s` without the white space it ends with.
pub open spec fn trim_end(s: Seq<char>) -> Seq<char>
    decreases s.len(),
{
    if s.len() > 0 && is_space(s.last()) {
        trim_end(s.drop_last())
    } else {
        s
    }
}

/// `s` without the white space at either end.
pub open spec fn trimmed(s: Seq<char>) -> Seq<char> {
    trim_end(trim_start(s))
}

/// Skips the white space at or after `from`.
pub fn skip_spaces(text: &[char], from: usize) -> (at: usize)
    requires
        from <= text@.len(),
    ensures
        from <= at <= text@.len(),
        at - from == first_where(text@.skip(from as int), |c: char| !is_space(c)),
{
    let mut at: usize = from;
    while at < text.len() && is_whitespace(text[at])
        invariant
            from <= at <= text@.len(),
            forall|i: int| from <= i < at ==> is_space(#[trigger] text@[i]),
        decreases text@.len() - at,
    {
        at += 1;
    }
    proof {
        let s = text@.skip(from as int);
        assert forall|i: int| 0 <= i < at - from implies is_space(#[trigger] s[i]) by {
            assert(s[i] == text@[from + i]);
        }
        lemma_first_where_is(s, |c: char| !is_space(c), at - from);
    }
    at
}

/// Skips what is not white space at or after `from`.
fn skip_word(text: &[char], from: usize) -> (at: usize)
    requires
        from <= text@.len(),
    ensures
        from <= at <= text@.len(),
        at - from == first_where(text@.skip(from as int), |c: char| is_space(c)),
{
    let mut at: usize = from;
    while at < text.len() && !is_whitespace(text[at])
        invariant
            from <= at <= text@.len(),
            forall|i: int| from <= i < at ==> !is_space(#[trigger] text@[i]),
        decreases text@.len() - at,
    {
        at += 1;
    }
    proof {
        let s = text@.skip(from as int);
        assert forall|i: int| 0 <= i < at - from implies !is_space(#[trigger] s[i]) by {
            assert(s[i] == text@[from + i]);
        }
        lemma_first_where_is(s, |c: char| is_space(c), at - from);
    }
    at
}

/// `text` without the white space at either end.
pub fn trim(text: &[char]) -> (middle: &[char])
    ensures
        middle@ == trimmed(text@),
{
    let start = skip_spaces(text, 0);
    let mut end: usize = text.len();
    assert(text@.skip(0) == text@);
    assert(text@.subrange(start as int, end as int) == trim_start(text@));
    while end > start && is_whitespace(text[end - 1])
        invariant
            start <= end <= text@.len(),
            trim_end(text@.subrange(start as int, end as int)) == trimmed(text@),
        decreases end,
    {
        assert(text@.subrange(start as int, end as int).drop_last() == text@.subrange(
            start as int,
            end - 1,
        ));
        end -= 1;
    }
    slice_subrange(text, start, end)
}

// ---------------------------------------------------------------------------
// Words and lines
// ---------------------------------------------------------------------------

/// What each piece of a cut text holds.
pub open spec fn views(pieces: Seq<&[char]>) -> Seq<Seq<char>> {
    Seq::new(pieces.len(), |i: int| pieces[i]@)
}

/// The words of `s`: its longest runs of characters that are no white space.
pub open spec fn words(s: Seq<char>) -> Seq<Seq<char>>
    decreases s.len(),
{
    proof {
        lemma_first_where(s, |c: char| !is_space(c));
        lemma_first_where(trim_start(s), |c: char| is_space(c));
    }
    let rest = trim_start(s);
    if rest.len() == 0 {
        Seq::empty()
    } else {
        let end = first_where(rest, |c: char| is_space(c));
        seq![rest.take(end)] + words(rest.skip(end))
    }
}

/// Cuts `text` into its words.
pub fn split_words<'a>(text: &'a [char]) -> (pieces: Vec<&'a [char]>)
    ensures
        views(pieces@) == words(text@),
{
    let mut pieces: Vec<&'a [char]> = Vec::new();
    let mut at: usize = skip_spaces(text, 0);
    assert(text@.skip(0) == text@);
    proof {
        lemma_words_of_trimmed(text@);
        lemma_first_where(text@, |c: char| !is_space(c));
    }
    assert(text@.skip(at as int) == trim_start(text@));
    while at < text.len()
        invariant
            at <= text@.len(),
            at < text@.len() ==> !is_space(text@[at as int]),
            words(text@) == views(pieces@) + words(text@.skip(at as int)),
        decreases text@.len() - at,
    {
        let ghost rest = text@.skip(at as int);
        let ghost before = views(pieces@);
        let end = skip_word(text, at);
        proof {
            lemma_first_where(rest, |c: char| !is_space(c));
            lemma_first_where(rest, |c: char| is_space(c));
            assert(rest[0] == text@[at as int]);
            lemma_first_where_is(rest, |c: char| !is_space(c), 0);
            assert(trim_start(rest) == rest);
            assert(rest.take(end - at) == text@.subrange(at as int, end as int));
            assert(rest.skip(end - at) == text@.skip(end as int));
        }
        pieces.push(slice_subrange(text, at, end));
        assert(views(pieces@) == before.push(text@.subrange(at as int, end as int)));
        let next = skip_spaces(text, end);
        proof {
            lemma_first_where(text@.skip(end as int), |c: char| !is_space(c));
            lemma_words_of_trimmed(text@.skip(end as int));
            assert(text@.skip(next as int) == trim_start(text@.skip(end as int)));
            if next < text@.len() {
                assert(text@.skip(end as int)[next - end] == text@[next as int]);
            }
        }
        assert(words(text@) == views(pieces@) + words(text@.skip(next as int)));
        at = next;
    }
    assert(words(text@.skip(at as int)) == Seq::<Seq<char>>::empty());
    assert(words(text@) == views(pieces@));
    pieces
}

/// White space in front does not change the words.
pub proof fn lemma_words_of_trimmed(s: Seq<char>)
    ensures
        words(s) == words(trim_start(s)),
{
    let rest = trim_start(s);
    lemma_first_where(s, |c: char| !is_space(c));
    if rest.len() > 0 {
        assert(rest[0] == s[first_where(s, |c: char| !is_space(c))]);
    }
    lemma_first_where_is(rest, |c: char| !is_space(c), 0);
    assert(trim_start(rest) == rest);
}

/// `s` without a carriage return at its end.
pub open spec fn without_return(s: Seq<char>) -> Seq<char> {
    if s.len() > 0 && s.last() == '\r' {
        s.drop_last()
    } else {
        s
    }
}

/// The lines of `s`. A line ends at a line feed, or a carriage return and a
/// line feed, or at the end of the text; what ends it is no part of it.
pub open spec fn lines(s: Seq<char>) -> Seq<Seq<char>>
    decreases s.len(),
{
    proof {
        lemma_first_where(s, is_char('\n'));
    }
    let end = first_index(s, '\n');
    if s.len() == 0 {
        Seq::empty()
    } else if end == s.len() {
        seq![s]
    } else {
        seq![without_return(s.take(end))] + lines(s.skip(end + 1))
    }
}

/// Cuts `text` into its lines.
pub fn split_lines<'a>(text: &'a [char]) -> (pieces: Vec<&'a [char]>)
    ensures
        views(pieces@) == lines(text@),
{
    let mut pieces: Vec<&'a [char]> = Vec::new();
    let mut at: usize = 0;
    assert(text@.skip(0) == text@);
    while at < text.len()
        invariant
            at <= text@.len(),
            lines(text@) == views(pieces@) + lines(text@.skip(at as int)),
        decreases text@.len() - at,
    {
        let ghost rest = text@.skip(at as int);
        let ghost before = views(pieces@);
        let end = find_char(text, at, '\n');
        proof {
            lemma_first_where(rest, is_char('\n'));
            assert(rest.take(end - at) == text@.subrange(at as int, end as int));
        }
        if end == text.len() {
            assert(lines(rest) == seq![rest]);
            pieces.push(slice_subrange(text, at, end));
            assert(views(pieces@) == before + seq![rest]);
            return pieces;
        }
        let line = if end > at && text[end - 1] == '\r' {
            slice_subrange(text, at, end - 1)
        } else {
            slice_subrange(text, at, end)
        };
        assert(line@ == without_return(rest.take(end - at)));
        pieces.push(line);
        assert(views(pieces@) == before + seq![line@]);
        assert(rest.skip(end - at + 1) == text@.skip(end + 1));
        at = end + 1;
    }
    assert(lines(text@.skip(at as int)) == Seq::<Seq<char>>::empty());
    assert(lines(text@) == views(pieces@));
    pieces
}

/// The parts, one after the other, with `separator` between any two.
pub open spec fn joined(parts: Seq<Seq<char>>, separator: Seq<char>) -> Seq<char>
    decreases parts.len(),
{
    if parts.len() == 0 {
        Seq::empty()
    } else if parts.len() == 1 {
        parts[0]
    } else {
        joined(parts.drop_last(), separator) + separator + parts.last()
    }
}

/// Puts the parts together with `separator` between any two.
pub fn join(parts: &[&[char]], separator: &str) -> (text: String)
    ensures
        text@ == joined(views(parts@), separator@),
{
    let mut text = String::new();
    for i in 0..parts.len()
        invariant
            text@ == joined(views(parts@).take(i as int), separator@),
    {
        if i > 0 {
            text.push_str(separator);
        }
        push_chars(&mut text, parts[i]);
        let ghost upto = views(parts@).take(i + 1);
        assert(upto.drop_last() == views(parts@).take(i as int));
        assert(upto.last() == parts@[i as int]@);
    }
    assert(views(parts@).take(parts@.len() as int) == views(parts@));
    text
}

/// Whether `s` is one word.
pub open spec fn is_word(s: Seq<char>) -> bool {
    s.len() > 0 && forall|i: int| 0 <= i < s.len() ==> !is_space(#[trigger] s[i])
}

/// The words of a text are words.
pub proof fn lemma_words_are_words(s: Seq<char>)
    ensures
        forall|i: int| 0 <= i < words(s).len() ==> is_word(#[trigger] words(s)[i]),
    decreases s.len(),
{
    let rest = trim_start(s);
    lemma_first_where(s, |c: char| !is_space(c));
    lemma_first_where(rest, |c: char| is_space(c));
    if rest.len() > 0 {
        assert(rest[0] == s[first_where(s, |c: char| !is_space(c))]);
        let end = first_where(rest, |c: char| is_space(c));
        let word = rest.take(end);
        assert forall|i: int| 0 <= i < word.len() implies !is_space(#[trigger] word[i]) by {
            assert(word[i] == rest[i]);
        }
        lemma_words_are_words(rest.skip(end));
        assert forall|i: int| 0 <= i < words(s).len() implies is_word(#[trigger] words(s)[i]) by {
            if i > 0 {
                assert(words(s)[i] == words(rest.skip(end))[i - 1]);
            }
        }
    }
}

/// A word is its only word.
proof fn lemma_words_of_word(word: Seq<char>)
    requires
        is_word(word),
    ensures
        words(word) == seq![word],
{
    lemma_first_where_is(word, |c: char| !is_space(c), 0);
    assert(trim_start(word) == word);
    lemma_first_where_is(word, |c: char| is_space(c), word.len() as int);
    assert(word.take(word.len() as int) == word);
    let none = word.skip(word.len() as int);
    assert(none == Seq::<char>::empty());
    assert(words(none) == Seq::<Seq<char>>::empty());
}

/// White space between two texts separates their words: the words of the whole
/// are those of the one and then those of the other.
pub proof fn law_words_are_separated(s: Seq<char>, c: char, t: Seq<char>)
    requires
        is_space(c),
    ensures
        words(s + seq![c] + t) == words(s) + words(t),
    decreases s.len(),
{
    let more = seq![c] + t;
    let whole = s + seq![c] + t;
    assert(whole == s + more);
    let start = first_where(s, |x: char| !is_space(x));
    lemma_first_where(s, |x: char| !is_space(x));
    let rest = trim_start(s);
    if rest.len() == 0 {
        lemma_words_behind_space(s.push(c), t);
        assert(s.push(c) + t == whole);
        assert(words(s) == Seq::<Seq<char>>::empty());
        assert(words(s) + words(t) == words(t));
    } else {
        assert forall|i: int| 0 <= i < start implies is_space(#[trigger] whole[i]) by {
            assert(whole[i] == s[i]);
        }
        assert(whole[start] == s[start]);
        lemma_first_where_is(whole, |x: char| !is_space(x), start);
        assert(trim_start(whole) == rest + more);
        let end = first_where(rest, |x: char| is_space(x));
        lemma_first_where(rest, |x: char| is_space(x));
        let longer = rest + more;
        assert forall|i: int| 0 <= i < end implies !is_space(#[trigger] longer[i]) by {
            assert(longer[i] == rest[i]);
        }
        if end < rest.len() {
            assert(longer[end] == rest[end]);
        } else {
            assert(longer[end] == c);
        }
        lemma_first_where_is(longer, |x: char| is_space(x), end);
        assert(rest[0] == s[start]);
        assert(longer.take(end) == rest.take(end));
        assert(longer.skip(end) == rest.skip(end) + seq![c] + t);
        law_words_are_separated(rest.skip(end), c, t);
        assert(seq![rest.take(end)] + (words(rest.skip(end)) + words(t)) == words(s) + words(t));
    }
}

/// White space in front of a text does not change its words.
proof fn lemma_words_behind_space(space: Seq<char>, t: Seq<char>)
    requires
        forall|i: int| 0 <= i < space.len() ==> is_space(#[trigger] space[i]),
    ensures
        words(space + t) == words(t),
{
    let whole = space + t;
    let start = first_where(t, |x: char| !is_space(x));
    lemma_first_where(t, |x: char| !is_space(x));
    assert forall|i: int| 0 <= i < space.len() + start implies is_space(#[trigger] whole[i]) by {
        if i < space.len() {
            assert(whole[i] == space[i]);
        } else {
            assert(whole[i] == t[i - space.len()]);
        }
    }
    if start < t.len() {
        assert(whole[space.len() + start] == t[start]);
    }
    lemma_first_where_is(whole, |x: char| !is_space(x), space.len() + start);
    assert(trim_start(whole) == trim_start(t));
    lemma_words_of_trimmed(whole);
    lemma_words_of_trimmed(t);
}

/// A word is its only word, and white space alone has none.
pub proof fn law_a_word_is_its_only_word(word: Seq<char>)
    ensures
        is_word(word) ==> words(word) == seq![word],
        (forall|i: int| 0 <= i < word.len() ==> is_space(#[trigger] word[i])) ==> words(word).len()
            == 0,
{
    if is_word(word) {
        lemma_words_of_word(word);
    }
    if forall|i: int| 0 <= i < word.len() ==> is_space(#[trigger] word[i]) {
        let none = Seq::<char>::empty();
        lemma_words_behind_space(word, none);
        assert(word + none == word);
        assert(words(none) == Seq::<Seq<char>>::empty());
    }
}

/// A space and a word behind a text add that word.
proof fn lemma_words_with_one_more(s: Seq<char>, word: Seq<char>)
    requires
        is_word(word),
    ensures
        words(s + seq![' '] + word) == words(s).push(word),
{
    law_words_are_separated(s, ' ', word);
    lemma_words_of_word(word);
    assert(words(s) + seq![word] == words(s).push(word));
}

/// Words that are put together with a space between any two are found again.
pub proof fn lemma_words_of_joined(parts: Seq<Seq<char>>)
    requires
        forall|i: int| 0 <= i < parts.len() ==> is_word(#[trigger] parts[i]),
    ensures
        words(joined(parts, seq![' '])) == parts,
    decreases parts.len(),
{
    if parts.len() == 0 {
        assert(words(joined(parts, seq![' '])) == Seq::<Seq<char>>::empty());
    } else if parts.len() == 1 {
        lemma_words_of_word(parts[0]);
        assert(seq![parts[0]] == parts);
    } else {
        let most = parts.drop_last();
        assert forall|i: int| 0 <= i < most.len() implies is_word(#[trigger] most[i]) by {
            assert(most[i] == parts[i]);
        }
        lemma_words_of_joined(most);
        lemma_words_with_one_more(joined(most, seq![' ']), parts.last());
        assert(most.push(parts.last()) == parts);
    }
}

// ---------------------------------------------------------------------------
// Numbers
// ---------------------------------------------------------------------------

/// What `c` is worth as a digit in base `radix`, if it is one.
pub open spec fn digit_value(c: char, radix: int) -> Option<int> {
    let value = if '0' <= c <= '9' {
        c as int - '0' as int
    } else if 'a' <= c <= 'z' {
        c as int - 'a' as int + 10
    } else if 'A' <= c <= 'Z' {
        c as int - 'A' as int + 10
    } else {
        radix
    };
    if value < radix {
        Some(value)
    } else {
        None
    }
}

/// The number that the digits `s` write in base `radix`, if they all are digits.
pub open spec fn digits_value(s: Seq<char>, radix: int) -> Option<int>
    decreases s.len(),
{
    if s.len() == 0 {
        Some(0)
    } else {
        match (digits_value(s.drop_last(), radix), digit_value(s.last(), radix)) {
            (Some(high), Some(low)) => Some(high * radix + low),
            _ => None,
        }
    }
}

/// `s` without a plus sign in front.
pub open spec fn without_plus(s: Seq<char>) -> Seq<char> {
    if s.len() > 0 && s[0] == '+' {
        s.skip(1)
    } else {
        s
    }
}

/// The number that `s` writes in base `radix`: one digit or more, with or
/// without a plus sign in front. `None` where `s` is not of that form, or the
/// number is greater than `max`.
pub open spec fn number_in(s: Seq<char>, radix: int, max: int) -> Option<int> {
    let digits = without_plus(s);
    if digits.len() == 0 {
        None
    } else {
        match digits_value(digits, radix) {
            Some(value) => if value <= max {
                Some(value)
            } else {
                None
            },
            None => None,
        }
    }
}

/// The decimal number that `s` writes, where a `u32` holds it.
pub open spec fn decimal_u32(s: Seq<char>) -> Option<u32> {
    match number_in(s, 10, u32::MAX as int) {
        Some(value) => Some(value as u32),
        None => None,
    }
}

/// More digits make no smaller number, and do not mend a bad digit.
proof fn lemma_digits_grow(s: Seq<char>, radix: int, upto: int)
    requires
        0 <= upto <= s.len(),
        radix >= 1,
    ensures
        digits_value(s, radix) is Some ==> digits_value(s.take(upto), radix) is Some && 0
            <= digits_value(s.take(upto), radix)->0 <= digits_value(s, radix)->0,
    decreases s.len(),
{
    if upto == s.len() {
        assert(s.take(upto) == s);
        if s.len() > 0 {
            lemma_digits_grow(s.drop_last(), radix, upto - 1);
            if digits_value(s, radix) is Some {
                let high = digits_value(s.drop_last(), radix)->0;
                assert(high * radix >= high) by (nonlinear_arith)
                    requires
                        high >= 0,
                        radix >= 1,
                ;
            }
        }
    } else {
        lemma_digits_grow(s.drop_last(), radix, upto);
        assert(s.drop_last().take(upto) == s.take(upto));
        if digits_value(s, radix) is Some {
            let high = digits_value(s.drop_last(), radix)->0;
            assert(high * radix >= high) by (nonlinear_arith)
                requires
                    high >= 0,
                    radix >= 1,
            ;
        }
    }
}

/// What `c` is worth as a digit in base `radix`.
fn digit(c: char, radix: u64) -> (value: Option<u64>)
    requires
        2 <= radix <= 36,
    ensures
        value is Some <==> digit_value(c, radix as int) is Some,
        value matches Some(v) ==> digit_value(c, radix as int) == Some(v as int),
{
    let value: u64 = if '0' <= c && c <= '9' {
        c as u64 - '0' as u64
    } else if 'a' <= c && c <= 'z' {
        c as u64 - 'a' as u64 + 10
    } else if 'A' <= c && c <= 'Z' {
        c as u64 - 'A' as u64 + 10
    } else {
        radix
    };
    if value < radix {
        Some(value)
    } else {
        None
    }
}

/// Reads a number in base `radix` that is not greater than `max`.
pub fn parse_number(text: &[char], radix: u64, max: u64) -> (number: Option<u64>)
    requires
        2 <= radix <= 36,
    ensures
        number is Some <==> number_in(text@, radix as int, max as int) is Some,
        number matches Some(v) ==> number_in(text@, radix as int, max as int) == Some(v as int),
{
    let start: usize = if text.len() > 0 && text[0] == '+' {
        1
    } else {
        0
    };
    let ghost digits = without_plus(text@);
    assert(digits == text@.skip(start as int));
    if text.len() == start {
        return None;
    }
    let mut value: u64 = 0;
    let mut at: usize = start;
    while at < text.len()
        invariant
            start <= at <= text@.len(),
            2 <= radix <= 36,
            value <= max,
            digits == text@.skip(start as int),
            digits == without_plus(text@),
            digits_value(digits.take(at - start), radix as int) == Some(value as int),
        decreases text@.len() - at,
    {
        let ghost done = digits.take(at - start);
        let ghost longer = digits.take(at - start + 1);
        proof {
            assert(longer.drop_last() == done);
            assert(longer.last() == text@[at as int]);
            lemma_digits_grow(digits, radix as int, at - start + 1);
        }
        match digit(text[at], radix) {
            Some(low) => {
                assert(value * radix <= u64::MAX * 36) by (nonlinear_arith)
                    requires
                        value <= u64::MAX,
                        0 <= radix <= 36,
                ;
                assert(value * radix >= 0) by (nonlinear_arith)
                    requires
                        value >= 0,
                        radix >= 0,
                ;
                let next: u128 = value as u128 * radix as u128 + low as u128;
                if next > max as u128 {
                    return None;
                }
                value = next as u64;
            },
            None => {
                return None;
            },
        }
        at += 1;
    }
    assert(digits.take(digits.len() as int) == digits);
    Some(value)
}

/// Reads a decimal number that a `u32` holds.
pub fn parse_u32(text: &[char]) -> (number: Option<u32>)
    ensures
        number == decimal_u32(text@),
{
    match parse_number(text, 10, u32::MAX as u64) {
        Some(value) => Some(value as u32),
        None => None,
    }
}

/// The digit that is worth `value`.
pub open spec fn digit_char(value: int) -> char {
    ('0' as int + value) as char
}

/// `n` in decimal, without leading zeros.
pub open spec fn decimal(n: int) -> Seq<char>
    decreases n,
{
    if n < 10 {
        seq![digit_char(n)]
    } else {
        decimal(n / 10).push(digit_char(n % 10))
    }
}

/// Appends `n` in decimal.
pub fn push_decimal(text: &mut String, n: u64)
    ensures
        final(text)@ == old(text)@ + decimal(n as int),
    decreases n,
{
    if n >= 10 {
        push_decimal(text, n / 10);
    }
    text.push(((n % 10) as u8 + 48) as char);
    assert(text@ == old(text)@ + decimal(n as int));
}

/// `n` in decimal.
pub fn decimal_text(n: u64) -> (text: String)
    ensures
        text@ == decimal(n as int),
{
    let mut text = String::new();
    push_decimal(&mut text, n);
    text
}

/// `count` zeros.
pub open spec fn zeros(count: int) -> Seq<char> {
    Seq::new(if count > 0 { count as nat } else { 0 }, |i: int| '0')
}

/// `n` in decimal, with zeros in front of the digits, behind a minus sign, so
/// that it is no shorter than `width`.
pub open spec fn padded(n: int, width: int) -> Seq<char> {
    if n < 0 {
        seq!['-'] + zeros(width - 1 - decimal(-n).len()) + decimal(-n)
    } else {
        zeros(width - decimal(n).len()) + decimal(n)
    }
}

/// Appends `n` in decimal, with zeros in front of the digits so that it is no
/// shorter than `width`.
pub fn push_padded(text: &mut String, n: i64, width: usize)
    ensures
        final(text)@ == old(text)@ + padded(n as int, width as int),
{
    let ghost before = text@;
    let magnitude: u64 = if n < 0 {
        (-(n + 1)) as u64 + 1
    } else {
        n as u64
    };
    let digits = chars_of(&decimal_text(magnitude));
    let mut length: usize = digits.len();
    let ghost mut sign: Seq<char> = Seq::empty();
    if n < 0 {
        text.push('-');
        proof {
            sign = seq!['-'];
        }
        if width > 0 && length < width - 1 {
            length = length + 1;
        } else {
            length = width;
        }
    }
    let ghost missing: int = width - sign.len() - digits@.len();
    let ghost first = length as int;
    assert(text@ == before + sign + zeros(0));
    while length < width
        invariant
            text@ == before + sign + zeros(length - first),
            first <= length,
            length <= width || length == first,
        decreases width - length,
    {
        text.push('0');
        assert(zeros(length - first).push('0') == zeros(length - first + 1));
        length = length + 1;
    }
    assert(zeros(length - first) == zeros(missing));
    push_chars(text, &digits);
    assert(text@ == before + padded(n as int, width as int));
}

/// Reading a number back from its decimal digits gives the number.
pub proof fn lemma_decimal_reads_back(n: int)
    requires
        0 <= n,
    ensures
        digits_value(decimal(n), 10) == Some(n),
        decimal(n).len() > 0,
        forall|i: int| 0 <= i < decimal(n).len() ==> '0' <= #[trigger] decimal(n)[i] <= '9',
    decreases n,
{
    if n < 10 {
        let s = decimal(n);
        assert(s.drop_last() == Seq::<char>::empty());
        assert(digits_value(s.drop_last(), 10) == Some(0int));
    } else {
        lemma_decimal_reads_back(n / 10);
        assert(decimal(n).drop_last() == decimal(n / 10));
    }
}

// ---------------------------------------------------------------------------
// Letter case and order
// ---------------------------------------------------------------------------

/// `c` in lower case, where it is an ASCII letter; `c` itself where not.
pub open spec fn lower(c: char) -> char {
    if 'A' <= c <= 'Z' {
        (c as int + 32) as char
    } else {
        c
    }
}

/// `s` with its ASCII letters in lower case.
pub open spec fn lowered(s: Seq<char>) -> Seq<char> {
    Seq::new(s.len(), |i: int| lower(s[i]))
}

/// Whether two texts differ in nothing but the case of ASCII letters.
pub open spec fn same_but_case(a: Seq<char>, b: Seq<char>) -> bool {
    lowered(a) == lowered(b)
}

fn lower_char(c: char) -> (lowercase: char)
    ensures
        lowercase == lower(c),
{
    if 'A' <= c && c <= 'Z' {
        (c as u8 + 32) as char
    } else {
        c
    }
}

/// `text` with its ASCII letters in lower case.
pub fn to_lower(text: &[char]) -> (result: Vec<char>)
    ensures
        result@ == lowered(text@),
{
    let mut result: Vec<char> = Vec::new();
    for i in 0..text.len()
        invariant
            result@ == lowered(text@).take(i as int),
    {
        result.push(lower_char(text[i]));
    }
    assert(lowered(text@).take(text@.len() as int) == lowered(text@));
    result
}

/// Whether two texts differ in nothing but the case of ASCII letters.
pub fn eq_ignore_ascii_case(a: &[char], b: &[char]) -> (same: bool)
    ensures
        same == same_but_case(a@, b@),
{
    let a_lower = to_lower(a);
    let b_lower = to_lower(b);
    same_chars(&a_lower, &b_lower)
}

/// Whether `a` comes before `b` in dictionary order by code point.
pub open spec fn precedes(a: Seq<char>, b: Seq<char>) -> bool
    decreases a.len(),
{
    if b.len() == 0 {
        false
    } else if a.len() == 0 {
        true
    } else {
        a[0] < b[0] || (a[0] == b[0] && precedes(a.skip(1), b.skip(1)))
    }
}

/// Whether `a` comes before `b` in dictionary order by code point.
pub fn is_before(a: &[char], b: &[char]) -> (before: bool)
    ensures
        before == precedes(a@, b@),
{
    let mut at: usize = 0;
    assert(a@.skip(0) == a@);
    assert(b@.skip(0) == b@);
    while at < a.len() && at < b.len()
        invariant
            at <= a@.len(),
            at <= b@.len(),
            precedes(a@.skip(at as int), b@.skip(at as int)) == precedes(a@, b@),
        decreases a@.len() - at,
    {
        assert(a@.skip(at as int).skip(1) == a@.skip(at + 1));
        assert(b@.skip(at as int).skip(1) == b@.skip(at + 1));
        if a[at] != b[at] {
            return a[at] < b[at];
        }
        at += 1;
    }
    at < b.len()
}

/// Dictionary order: of two texts that differ, exactly one comes before the
/// other, and no text comes before itself.
pub proof fn lemma_precedes_total(a: Seq<char>, b: Seq<char>)
    ensures
        !precedes(a, a),
        !(precedes(a, b) && precedes(b, a)),
        a != b ==> precedes(a, b) || precedes(b, a),
    decreases a.len(),
{
    if a.len() > 0 && b.len() > 0 {
        lemma_precedes_total(a.skip(1), b.skip(1));
        if a[0] == b[0] && a.skip(1) == b.skip(1) {
            assert(a =~= seq![a[0]] + a.skip(1));
            assert(b =~= seq![b[0]] + b.skip(1));
        }
    } else if a.len() > 0 {
        lemma_precedes_total(a.skip(1), a.skip(1));
    } else if b.len() == 0 {
        assert(a =~= b);
    }
}

/// Dictionary order is transitive.
pub proof fn lemma_precedes_transitive(a: Seq<char>, b: Seq<char>, c: Seq<char>)
    requires
        precedes(a, b),
        precedes(b, c),
    ensures
        precedes(a, c),
    decreases a.len(),
{
    if a.len() > 0 && a[0] == b[0] && b[0] == c[0] {
        lemma_precedes_transitive(a.skip(1), b.skip(1), c.skip(1));
    }
}

// ---------------------------------------------------------------------------
// Laws
// ---------------------------------------------------------------------------

/// The last index of a character is that of the one behind which there is none.
pub proof fn law_last_index(s: Seq<char>, c: char, t: Seq<char>)
    requires
        !t.contains(c),
    ensures
        last_index(s + seq![c] + t, c) == s.len(),
        last_index(t, c) == -1,
    decreases t.len(),
{
    let whole = s + seq![c] + t;
    if t.len() == 0 {
        assert(whole.last() == c);
    } else {
        assert(t.contains(t.last()));
        assert forall|x: char| t.drop_last().contains(x) implies t.contains(x) by {
            let i = choose|i: int| 0 <= i < t.drop_last().len() && t.drop_last()[i] == x;
            assert(t[i] == x);
        }
        law_last_index(s, c, t.drop_last());
        assert(whole.last() == t.last());
        assert(whole.drop_last() == s + seq![c] + t.drop_last());
    }
}

/// What is left of a text without the white space at either end: what stands
/// between the white space, where that neither begins nor ends with any.
pub proof fn law_trimmed(before: Seq<char>, core: Seq<char>, after: Seq<char>)
    requires
        forall|i: int| 0 <= i < before.len() ==> is_space(#[trigger] before[i]),
        forall|i: int| 0 <= i < after.len() ==> is_space(#[trigger] after[i]),
        core.len() > 0 ==> !is_space(core[0]) && !is_space(core.last()),
    ensures
        trimmed(before + core + after) == core,
{
    let whole = before + core + after;
    if core.len() == 0 {
        assert forall|i: int| 0 <= i < whole.len() implies is_space(#[trigger] whole[i]) by {
            if i < before.len() {
                assert(whole[i] == before[i]);
            } else {
                assert(whole[i] == after[i - before.len()]);
            }
        }
        lemma_first_where_is(whole, |c: char| !is_space(c), whole.len() as int);
        assert(trim_start(whole) == core);
    } else {
        assert forall|i: int| 0 <= i < before.len() implies is_space(#[trigger] whole[i]) by {
            assert(whole[i] == before[i]);
        }
        assert(whole[before.len() as int] == core[0]);
        lemma_first_where_is(whole, |c: char| !is_space(c), before.len() as int);
        assert(trim_start(whole) == core + after);
        lemma_trim_end(core, after);
    }
}

/// White space behind a text that ends with none is taken away.
proof fn lemma_trim_end(core: Seq<char>, after: Seq<char>)
    requires
        core.len() > 0,
        !is_space(core.last()),
        forall|i: int| 0 <= i < after.len() ==> is_space(#[trigger] after[i]),
    ensures
        trim_end(core + after) == core,
    decreases after.len(),
{
    if after.len() == 0 {
        assert(core + after == core);
    } else {
        assert((core + after).last() == after.last());
        assert((core + after).drop_last() == core + after.drop_last());
        assert forall|i: int| 0 <= i < after.drop_last().len() implies is_space(
            #[trigger] after.drop_last()[i],
        ) by {
            assert(after.drop_last()[i] == after[i]);
        }
        assert(is_space(after[after.len() - 1]));
        lemma_trim_end(core, after.drop_last());
    }
}

/// The characters that are white space, by their numbers.
pub proof fn law_white_space(c: char)
    ensures
        is_space(c) <==> {
            let n = c as int;
            9 <= n <= 13 || n == 32 || n == 133 || n == 160 || n == 5760 || 8192 <= n <= 8202 || n
                == 8232 || n == 8233 || n == 8239 || n == 8287 || n == 12288
        },
{
}

/// A line feed, or a carriage return and a line feed, ends a line, and what
/// stands behind it are the lines that follow; a text without a line feed is one
/// line.
pub proof fn law_lines(line: Seq<char>, rest: Seq<char>)
    requires
        !line.contains('\n'),
    ensures
        !(line.len() > 0 && line.last() == '\r') ==> lines(line + seq!['\n'] + rest) == seq![line]
            + lines(rest),
        lines(line + seq!['\r', '\n'] + rest) == seq![line] + lines(rest),
        line.len() > 0 ==> lines(line) == seq![line],
        lines(Seq::<char>::empty()).len() == 0,
{
    let bare = line + seq!['\n'] + rest;
    assert forall|i: int| 0 <= i < line.len() implies !is_char('\n')(#[trigger] line[i]) by {
        assert(line.contains(line[i]));
    }
    assert forall|i: int| 0 <= i < line.len() implies !is_char('\n')(#[trigger] bare[i]) by {
        assert(bare[i] == line[i]);
    }
    lemma_first_where_is(bare, is_char('\n'), line.len() as int);
    assert(bare.take(line.len() as int) == line);
    assert(bare.skip(line.len() as int + 1) == rest);
    let full = line + seq!['\r', '\n'] + rest;
    let with_return = line.push('\r');
    assert forall|i: int| 0 <= i < with_return.len() implies !is_char('\n')(#[trigger] full[i]) by {
        if i < line.len() {
            assert(full[i] == line[i]);
        }
    }
    lemma_first_where_is(full, is_char('\n'), with_return.len() as int);
    assert(full.take(with_return.len() as int) == with_return);
    assert(with_return.drop_last() == line);
    assert(full.skip(with_return.len() as int + 1) == rest);
    lemma_first_where_is(line, is_char('\n'), line.len() as int);
}

/// The number that a text gives is the one that its digits write; zeros and a
/// plus sign in front change nothing, a character that is no digit spoils it, and
/// so does a number that is too great.
pub proof fn law_decimal_numbers(n: int, s: Seq<char>, at: int)
    requires
        0 <= n,
    ensures
        n <= u32::MAX ==> decimal_u32(decimal(n)) == Some(n as u32),
        n <= u32::MAX ==> decimal_u32(seq!['+'] + decimal(n)) == Some(n as u32),
        n <= u32::MAX ==> decimal_u32(seq!['0'] + decimal(n)) == Some(n as u32),
        n > u32::MAX ==> decimal_u32(decimal(n)) is None,
        0 <= at < s.len() && !('0' <= s[at] <= '9') && !(at == 0 && s[0] == '+') ==> decimal_u32(s)
            is None,
        decimal_u32(Seq::<char>::empty()) is None,
        decimal_u32(seq!['+']) is None,
{
    let digits = decimal(n);
    lemma_decimal_reads_back(n);
    assert(digits[0] != '+');
    assert((seq!['+'] + digits).skip(1) == digits);
    lemma_zero_in_front(digits);
    assert((seq!['0'] + digits)[0] == '0');
    if 0 <= at < s.len() && !('0' <= s[at] <= '9') && !(at == 0 && s[0] == '+') {
        if s[0] == '+' {
            assert(s.skip(1)[at - 1] == s[at]);
            lemma_bad_digit(s.skip(1), at - 1);
        } else {
            lemma_bad_digit(s, at);
        }
    }
    assert(seq!['+'].skip(1) == Seq::<char>::empty());
}

/// A zero in front of digits adds nothing.
proof fn lemma_zero_in_front(digits: Seq<char>)
    ensures
        digits_value(seq!['0'] + digits, 10) == digits_value(digits, 10),
    decreases digits.len(),
{
    let whole = seq!['0'] + digits;
    if digits.len() == 0 {
        assert(whole.drop_last() == digits);
        assert(digits_value(digits, 10) == Some(0int));
    } else {
        lemma_zero_in_front(digits.drop_last());
        assert(whole.drop_last() == seq!['0'] + digits.drop_last());
        assert(whole.last() == digits.last());
    }
}

/// One character that is no digit spoils the number.
pub proof fn lemma_bad_digit(s: Seq<char>, at: int)
    requires
        0 <= at < s.len(),
        !('0' <= s[at] <= '9'),
    ensures
        digits_value(s, 10) is None,
    decreases s.len(),
{
    if at < s.len() - 1 {
        assert(s.drop_last()[at] == s[at]);
        lemma_bad_digit(s.drop_last(), at);
    }
}

/// Dictionary order goes by the first character that differs, and a text comes
/// before any that goes on behind it.
pub proof fn law_dictionary_order(same: Seq<char>, a: Seq<char>, b: Seq<char>)
    ensures
        a.len() > 0 && b.len() > 0 && a[0] != b[0] ==> (precedes(same + a, same + b) <==> a[0]
            < b[0]),
        precedes(same, same + b) <==> b.len() > 0,
        !precedes(same + a, same),
    decreases same.len(),
{
    if same.len() > 0 {
        law_dictionary_order(same.skip(1), a, b);
        assert((same + a).skip(1) == same.skip(1) + a);
        assert((same + b).skip(1) == same.skip(1) + b);
    } else {
        assert(same + a == a);
        assert(same + b == b);
        if a.len() > 0 {
            assert((same + a)[0] == a[0]);
        }
    }
}

/// Two texts differ in nothing but the case of letters exactly where they are as
/// long as each other and any two of their characters are the same, or the small
/// and the capital of one ASCII letter.
pub proof fn law_letter_case(a: Seq<char>, b: Seq<char>)
    ensures
        same_but_case(a, b) <==> a.len() == b.len() && forall|i: int|
            0 <= i < a.len() ==> {
                ||| #[trigger] a[i] == b[i]
                ||| 'A' <= a[i] <= 'Z' && b[i] as int == a[i] as int + 32
                ||| 'A' <= b[i] <= 'Z' && a[i] as int == b[i] as int + 32
            },
{
    if same_but_case(a, b) {
        assert(a.len() == lowered(a).len() && b.len() == lowered(b).len());
        assert forall|i: int| 0 <= i < a.len() implies {
            ||| #[trigger] a[i] == b[i]
            ||| 'A' <= a[i] <= 'Z' && b[i] as int == a[i] as int + 32
            ||| 'A' <= b[i] <= 'Z' && a[i] as int == b[i] as int + 32
        } by {
            assert(lowered(a)[i] == lowered(b)[i]);
        }
    }
    if a.len() == b.len() && forall|i: int|
        0 <= i < a.len() ==> {
            ||| #[trigger] a[i] == b[i]
            ||| 'A' <= a[i] <= 'Z' && b[i] as int == a[i] as int + 32
            ||| 'A' <= b[i] <= 'Z' && a[i] as int == b[i] as int + 32
        } {
        assert forall|i: int| 0 <= i < a.len() implies lowered(a)[i] == lowered(b)[i] by {
            let x = a[i];
            assert(lowered(a)[i] == lower(a[i]) && lowered(b)[i] == lower(b[i]));
        }
        assert(lowered(a) =~= lowered(b));
    }
}

/// A text in lower case stays what it is, but for its capital ASCII letters.
pub proof fn law_lower_case(s: Seq<char>, i: int)
    requires
        0 <= i < s.len(),
    ensures
        lowered(s).len() == s.len(),
        'A' <= s[i] <= 'Z' ==> lowered(s)[i] as int == s[i] as int + 32,
        !('A' <= s[i] <= 'Z') ==> lowered(s)[i] == s[i],
{
}

/// A padded number is at least as wide as asked for, and its digits read back to
/// the number; a negative one has a minus sign in front.
pub proof fn law_padded(n: int, width: int)
    ensures
        padded(n, width).len() >= width,
        n >= 0 ==> digits_value(padded(n, width), 10) == Some(n),
        n < 0 ==> padded(n, width)[0] == '-' && digits_value(padded(n, width).skip(1), 10) == Some(
            -n,
        ),
        n >= 0 && decimal(n).len() >= width ==> padded(n, width) == decimal(n),
        n < 0 && decimal(-n).len() + 1 >= width ==> padded(n, width) == seq!['-'] + decimal(-n),
{
    let digits = if n < 0 { decimal(-n) } else { decimal(n) };
    lemma_decimal_reads_back(if n < 0 { -n } else { n });
    let count = if n < 0 { width - 1 - digits.len() } else { width - digits.len() };
    lemma_zeros_in_front(count, digits);
    if n < 0 {
        assert(padded(n, width).skip(1) == zeros(count) + digits);
    }
    if count <= 0 {
        assert(zeros(count) == Seq::<char>::empty());
        assert(zeros(count) + digits == digits);
        assert(seq!['-'] + zeros(count) + digits == seq!['-'] + digits);
    }
}

/// Zeros in front of digits add nothing.
proof fn lemma_zeros_in_front(count: int, digits: Seq<char>)
    ensures
        digits_value(zeros(count) + digits, 10) == digits_value(digits, 10),
    decreases count,
{
    if count <= 0 {
        assert(zeros(count) + digits == digits);
    } else {
        lemma_zeros_in_front(count - 1, digits);
        lemma_zero_in_front(zeros(count - 1) + digits);
        assert(zeros(count) + digits == seq!['0'] + (zeros(count - 1) + digits));
    }
}

/// A digit behind a number makes it ten times as great and adds the digit.
pub proof fn law_one_more_digit(s: Seq<char>, c: char)
    requires
        '0' <= c <= '9',
    ensures
        digits_value(s, 10) is Some ==> digits_value(s.push(c), 10) == Some(
            10 * digits_value(s, 10)->0 + (c as int - 48),
        ),
        digits_value(Seq::<char>::empty(), 10) == Some(0int),
{
    assert(s.push(c).drop_last() == s);
    assert(s.push(c).last() == c);
}

/// A hexadecimal digit behind a number makes it sixteen times as great and adds
/// the digit, in either case; any other character spoils the number.
pub proof fn law_one_more_hex_digit(s: Seq<char>, c: char)
    requires
        digits_value(s, 16) is Some,
    ensures
        ({
            let value = digits_value(s, 16)->0;
            let longer = digits_value(s.push(c), 16);
            &&& '0' <= c <= '9' ==> longer == Some(16 * value + (c as int - 48))
            &&& 'a' <= c <= 'f' ==> longer == Some(16 * value + (c as int - 97) + 10)
            &&& 'A' <= c <= 'F' ==> longer == Some(16 * value + (c as int - 65) + 10)
            &&& !('0' <= c <= '9' || 'a' <= c <= 'f' || 'A' <= c <= 'F') ==> longer is None
        }),
        digits_value(Seq::<char>::empty(), 16) == Some(0int),
{
    assert(s.push(c).drop_last() == s);
    assert(s.push(c).last() == c);
}

/// Parts that are put together: one part is itself, and a part more adds the
/// separator and the part.
pub proof fn law_joined(parts: Seq<Seq<char>>, part: Seq<char>, separator: Seq<char>)
    ensures
        joined(seq![part], separator) == part,
        parts.len() > 0 ==> joined(parts.push(part), separator) == joined(parts, separator)
            + separator + part,
        joined(Seq::<Seq<char>>::empty(), separator).len() == 0,
{
    assert(parts.push(part).drop_last() == parts);
}

/// Where a pattern first stands: nowhere before, and there.
pub proof fn law_first_occurrence<T>(s: Seq<T>, pattern: Seq<T>, before: Seq<T>, after: Seq<T>)
    requires
        s == before + pattern + after,
        forall|i: int| 0 <= i < before.len() ==> !#[trigger] occurs_at(s, pattern, i),
    ensures
        first_occurrence(s, pattern) == Some(before.len() as int),
{
    lemma_occurrence_from(s, pattern, 0);
    assert(s.subrange(before.len() as int, (before.len() + pattern.len()) as int) == pattern);
    assert(occurs_at(s, pattern, before.len() as int));
}

} // verus!
