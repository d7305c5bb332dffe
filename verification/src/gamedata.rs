//! What the Steam Store tells of a game: its name and cover art for an AppID,
//! the search for an AppID by name, and the term that is searched for.

use crate::json;
use crate::json::{json_member, parse_json, JsonTree};
use crate::library;
use crate::library::HomeError;
use crate::paths;
use crate::text;
use serde_json::Value;
use vstd::prelude::*;
use vstd::utf8;

verus! {

// ---------------------------------------------------------------------------
// The term that is searched for
// ---------------------------------------------------------------------------

/// The word that introduces the number of cheats in the name of a trainer.
pub const PLUS: &'static str = "plus";

/// The two words that the search of the store does not cope with.
pub const EARLY: &'static str = "early";

pub const ACCESS: &'static str = "access";

/// Whether a word is a version: a `v` and a digit behind it.
pub open spec fn is_version(word: Seq<char>) -> bool {
    word.len() >= 2 && (word[0] == 'v' || word[0] == 'V') && '0' <= word[1] <= '9'
}

/// Whether a word ends the title of a game in the name of a trainer.
pub open spec fn ends_title(word: Seq<char>) -> bool {
    is_version(word) || text::same_but_case(word, PLUS@)
}

/// The first of the words from `from` on that ends the title, or their number.
pub open spec fn title_end(words: Seq<Seq<char>>, from: int) -> int
    decreases words.len() - from,
{
    if from >= words.len() {
        words.len() as int
    } else if ends_title(words[from]) {
        from
    } else {
        title_end(words, from + 1)
    }
}

/// Whether the words `at` and `at + 1` are "early access".
pub open spec fn is_early_access(words: Seq<Seq<char>>, at: int) -> bool {
    0 <= at && at + 1 < words.len() && text::same_but_case(words[at], EARLY@)
        && text::same_but_case(words[at + 1], ACCESS@)
}

/// The words from `from` on, without each "early access", from left to right.
pub open spec fn without_early_access(words: Seq<Seq<char>>, from: int) -> Seq<Seq<char>>
    decreases words.len() - from,
{
    if from < 0 || from >= words.len() {
        Seq::empty()
    } else if is_early_access(words, from) {
        without_early_access(words, from + 2)
    } else {
        seq![words[from]] + without_early_access(words, from + 1)
    }
}

/// Whether "early access" stands anywhere in the words.
pub open spec fn says_early_access(words: Seq<Seq<char>>) -> bool {
    exists|at: int| is_early_access(words, at)
}

/// The words of the title that the stem of a file name begins with.
pub open spec fn title_words(stem: Seq<char>) -> Seq<Seq<char>> {
    text::words(stem).take(title_end(text::words(stem), 0))
}

/// The term to search for, from the stem of a file name: the title that it
/// begins with, without "early access"; the stem itself, unchanged, where there
/// is nothing to take away.
pub open spec fn search_term(stem: Seq<char>) -> Seq<char> {
    let words = text::words(stem);
    let title = title_words(stem);
    if title.len() == words.len() && !says_early_access(words) {
        stem
    } else {
        text::joined(without_early_access(title, 0), seq![' '])
    }
}

/// Whether a word is a version.
fn is_version_token(word: &[char]) -> (version: bool)
    ensures
        version == is_version(word@),
{
    word.len() >= 2 && (word[0] == 'v' || word[0] == 'V') && '0' <= word[1] && word[1] <= '9'
}

/// Takes each "early access" out of the words; says whether there was one.
fn strip_early_access<'a>(words: &[&'a [char]]) -> (result: (Vec<&'a [char]>, bool))
    ensures
        text::views(result.0@) == without_early_access(text::views(words@), 0),
        result.1 == says_early_access(text::views(words@)),
{
    let early = text::chars_of(EARLY);
    let access = text::chars_of(ACCESS);
    let ghost all = text::views(words@);
    let mut kept: Vec<&'a [char]> = Vec::new();
    let mut found = false;
    let mut at: usize = 0;
    let end: usize = words.len();
    assert(Seq::<Seq<char>>::empty() + without_early_access(all, 0) == without_early_access(all, 0));
    while at < end
        invariant
            at <= end,
            end == words@.len(),
            all == text::views(words@),
            early@ == EARLY@,
            access@ == ACCESS@,
            text::views(kept@) + without_early_access(all, at as int) == without_early_access(
                all,
                0,
            ),
            found ==> says_early_access(all),
            !found ==> forall|i: int| 0 <= i < at ==> !is_early_access(all, i),
        decreases end - at,
    {
        let ghost before = text::views(kept@);
        assert(words@[at as int]@ == all[at as int]);
        if at + 1 < end && text::eq_ignore_ascii_case(words[at], &early)
            && text::eq_ignore_ascii_case(words[at + 1], &access) {
            assert(is_early_access(all, at as int));
            found = true;
            at += 2;
        } else {
            assert(!is_early_access(all, at as int));
            kept.push(words[at]);
            assert(text::views(kept@) == before.push(all[at as int]));
            assert(before + (seq![all[at as int]] + without_early_access(all, at + 1))
                == text::views(kept@) + without_early_access(all, at + 1));
            at += 1;
        }
    }
    assert(text::views(kept@) == without_early_access(all, 0));
    (kept, found)
}

/// Guesses what to search for from the stem of a trainer's file name: what
/// stands before the first version (`v` and a digit, so that the `V` of "Grand
/// Theft Auto V" stays) or the word "plus", and that without "early access",
/// with which the store finds nothing. Where there is nothing to take away the
/// stem is returned as it is.
pub fn guess_search_term(filename_stem: &str) -> (term: String)
    ensures
        term@ == search_term(filename_stem@),
{
    let chars = text::chars_of(filename_stem);
    let words = text::split_words(&chars);
    let plus = text::chars_of(PLUS);
    let ghost all = text::words(filename_stem@);
    let mut cut: usize = 0;
    let end: usize = words.len();
    while cut < end && !(is_version_token(words[cut]) || text::eq_ignore_ascii_case(
        words[cut],
        &plus,
    ))
        invariant
            cut <= end,
            end == words@.len(),
            plus@ == PLUS@,
            text::views(words@) == all,
            title_end(all, 0) == title_end(all, cut as int),
        decreases end - cut,
    {
        assert(words@[cut as int]@ == all[cut as int]);
        cut += 1;
    }
    proof {
        if cut < end {
            assert(words@[cut as int]@ == all[cut as int]);
        }
    }
    let title = vstd::slice::slice_subrange(&words, 0, cut);
    assert(text::views(title@) == title_words(filename_stem@));
    let (kept, found) = strip_early_access(title);
    if cut == end && !found {
        assert(all.take(end as int) == all);
        return filename_stem.to_owned();
    }
    proof {
        reveal_strlit(" ");
        assert(" "@ == seq![' ']);
        if cut == end {
            assert(all.take(end as int) == all);
        }
    }
    text::join(&kept, " ")
}

/// What is kept are words of what there was.
proof fn lemma_kept_words(words: Seq<Seq<char>>, from: int)
    requires
        0 <= from,
    ensures
        forall|i: int|
            0 <= i < without_early_access(words, from).len() ==> words.contains(
                #[trigger] without_early_access(words, from)[i],
            ),
    decreases words.len() - from,
{
    if from < words.len() {
        let kept = without_early_access(words, from);
        if is_early_access(words, from) {
            lemma_kept_words(words, from + 2);
            assert(kept == without_early_access(words, from + 2));
        } else {
            lemma_kept_words(words, from + 1);
            let rest = without_early_access(words, from + 1);
            assert forall|i: int| 0 <= i < kept.len() implies words.contains(#[trigger] kept[i]) by {
                if i > 0 {
                    assert(kept[i] == rest[i - 1]);
                } else {
                    assert(kept[i] == words[from]);
                }
            }
        }
    }
}

/// No word before the end of the title ends it.
proof fn lemma_title_end(words: Seq<Seq<char>>, from: int)
    requires
        0 <= from <= words.len(),
    ensures
        from <= title_end(words, from) <= words.len(),
        forall|i: int| from <= i < title_end(words, from) ==> !ends_title(#[trigger] words[i]),
    decreases words.len() - from,
{
    if from < words.len() && !ends_title(words[from]) {
        lemma_title_end(words, from + 1);
    }
}

/// No word of a term is a version or "plus", and each is a word of the stem.
pub proof fn law_term_holds_only_the_title(stem: Seq<char>)
    ensures
        forall|i: int|
            0 <= i < text::words(search_term(stem)).len() ==> {
                &&& !ends_title(#[trigger] text::words(search_term(stem))[i])
                &&& text::words(stem).contains(text::words(search_term(stem))[i])
            },
{
    let words = text::words(stem);
    let title = title_words(stem);
    let term = text::words(search_term(stem));
    lemma_title_end(words, 0);
    if title.len() == words.len() && !says_early_access(words) {
        assert(term == words);
        assert forall|i: int| 0 <= i < term.len() implies words.contains(#[trigger] term[i]) by {
            assert(words[i] == term[i]);
        }
    } else {
        let kept = without_early_access(title, 0);
        lemma_kept_words(title, 0);
        text::lemma_words_are_words(stem);
        assert forall|i: int| 0 <= i < kept.len() implies text::is_word(#[trigger] kept[i])
            && !ends_title(kept[i]) && words.contains(kept[i]) by {
            let j = choose|j: int| 0 <= j < title.len() && title[j] == kept[i];
            assert(title.contains(kept[i]));
            assert(words[j] == kept[i]);
        }
        text::lemma_words_of_joined(kept);
        assert(term == kept);
    }
}

/// A term without a title to cut off and without "early access" stays as it is.
pub proof fn law_plain_stem_is_unchanged(stem: Seq<char>)
    requires
        forall|i: int|
            0 <= i < text::words(stem).len() ==> !ends_title(#[trigger] text::words(stem)[i]),
        !says_early_access(text::words(stem)),
    ensures
        search_term(stem) == stem,
{
    let words = text::words(stem);
    lemma_title_end(words, 0);
    lemma_title_end_is(words, 0);
}

/// The title has no end where no word ends it.
proof fn lemma_title_end_is(words: Seq<Seq<char>>, from: int)
    requires
        0 <= from <= words.len(),
        forall|i: int| from <= i < words.len() ==> !ends_title(#[trigger] words[i]),
    ensures
        title_end(words, from) == words.len(),
    decreases words.len() - from,
{
    if from < words.len() {
        lemma_title_end_is(words, from + 1);
    }
}

// ---------------------------------------------------------------------------
// Percent-encoding
// ---------------------------------------------------------------------------

/// Whether a byte stands for itself in a query: a letter, a digit, or one of
/// `-`, `_`, `.` and `~`.
pub open spec fn is_unreserved(b: u8) -> bool {
    ||| 0x41 <= b <= 0x5a
    ||| 0x61 <= b <= 0x7a
    ||| 0x30 <= b <= 0x39
    ||| b == 0x2d
    ||| b == 0x5f
    ||| b == 0x2e
    ||| b == 0x7e
}

/// The hexadecimal digit of worth `n`.
pub open spec fn hex_digit(n: int) -> char {
    if n < 10 {
        ('0' as int + n) as char
    } else {
        ('A' as int + n - 10) as char
    }
}

/// A byte in a query: itself, or a percent sign and two hexadecimal digits.
pub open spec fn encoded_byte(b: u8) -> Seq<char> {
    if is_unreserved(b) {
        seq![b as char]
    } else {
        seq!['%', hex_digit(b as int / 16), hex_digit(b as int % 16)]
    }
}

/// Bytes in a query, one after the other.
pub open spec fn encoded(bytes: Seq<u8>) -> Seq<char>
    decreases bytes.len(),
{
    if bytes.len() == 0 {
        Seq::empty()
    } else {
        encoded(bytes.drop_last()) + encoded_byte(bytes.last())
    }
}

/// The hexadecimal digit of worth `n`.
fn hex_char(n: u8) -> (c: char)
    requires
        n < 16,
    ensures
        c == hex_digit(n as int),
{
    if n < 10 {
        (48 + n) as char
    } else {
        (55 + n) as char
    }
}

/// Encodes the value of a parameter for a query.
pub fn percent_encode(input: &str) -> (out: String)
    ensures
        out@ == encoded(utf8::encode_utf8(input@)),
{
    let bytes = input.as_bytes();
    let mut out = String::new();
    for i in 0..bytes.len()
        invariant
            out@ == encoded(bytes@.take(i as int)),
    {
        let b = bytes[i];
        let ghost before = out@;
        if (0x41 <= b && b <= 0x5a) || (0x61 <= b && b <= 0x7a) || (0x30 <= b && b <= 0x39) || b
            == 0x2d || b == 0x5f || b == 0x2e || b == 0x7e {
            out.push(b as char);
        } else {
            out.push('%');
            out.push(hex_char(b / 16));
            out.push(hex_char(b % 16));
        }
        assert(out@ == before + encoded_byte(b));
        assert(bytes@.take(i + 1).drop_last() == bytes@.take(i as int));
    }
    assert(bytes@.take(bytes@.len() as int) == bytes@);
    out
}

/// The bytes that a percent-encoded text stands for; `None` where it is not well
/// formed.
pub open spec fn decoded(s: Seq<char>) -> Option<Seq<u8>>
    decreases s.len(),
{
    if s.len() == 0 {
        Some(Seq::empty())
    } else if s[0] == '%' {
        if s.len() < 3 {
            None
        } else {
            match (
                text::digit_value(s[1], 16),
                text::digit_value(s[2], 16),
                decoded(s.skip(3)),
            ) {
                (Some(high), Some(low), Some(rest)) => Some(seq![(high * 16 + low) as u8] + rest),
                _ => None,
            }
        }
    } else if s[0] <= '\u{7f}' && is_unreserved(s[0] as u8) {
        match decoded(s.skip(1)) {
            Some(rest) => Some(seq![s[0] as u8] + rest),
            None => None,
        }
    } else {
        None
    }
}

/// Bytes are encoded from the front as well as from the back.
proof fn lemma_encoded_from_the_front(bytes: Seq<u8>)
    requires
        bytes.len() > 0,
    ensures
        encoded(bytes) == encoded_byte(bytes[0]) + encoded(bytes.skip(1)),
    decreases bytes.len(),
{
    let rest = bytes.skip(1);
    if bytes.len() == 1 {
        assert(bytes.drop_last() == Seq::<u8>::empty());
        assert(rest == Seq::<u8>::empty());
        assert(encoded(bytes) == encoded_byte(bytes[0]) + encoded(rest));
    } else {
        lemma_encoded_from_the_front(bytes.drop_last());
        assert(bytes.drop_last().skip(1) == rest.drop_last());
        assert(encoded(bytes) == encoded_byte(bytes[0]) + encoded(rest));
    }
}

/// A query gives back the bytes that were encoded for it.
pub proof fn law_encoding_is_undone(bytes: Seq<u8>)
    ensures
        decoded(encoded(bytes)) == Some(bytes),
    decreases bytes.len(),
{
    if bytes.len() == 0 {
        assert(bytes == Seq::<u8>::empty());
    } else {
        let b = bytes[0];
        let rest = bytes.skip(1);
        lemma_encoded_from_the_front(bytes);
        law_encoding_is_undone(rest);
        let s = encoded(bytes);
        let high = b as int / 16;
        let low = b as int % 16;
        if is_unreserved(b) {
            assert(s[0] == b as char);
            assert(s.skip(1) == encoded(rest));
        } else {
            assert(s[0] == '%' && s[1] == hex_digit(high) && s[2] == hex_digit(low));
            assert(s.skip(3) == encoded(rest));
            assert(text::digit_value(hex_digit(high), 16) == Some(high));
            assert(text::digit_value(hex_digit(low), 16) == Some(low));
            assert((high * 16 + low) as u8 == b);
        }
        assert(seq![b] + rest == bytes);
    }
}

/// An encoded text holds nothing but unreserved characters and percent signs.
pub proof fn law_encoding_leaves_nothing_reserved(bytes: Seq<u8>)
    ensures
        forall|i: int|
            0 <= i < encoded(bytes).len() ==> {
                let c = #[trigger] encoded(bytes)[i];
                c == '%' || (c <= '\u{7f}' && is_unreserved(c as u8))
            },
    decreases bytes.len(),
{
    if bytes.len() > 0 {
        let before = encoded(bytes.drop_last());
        let last = encoded_byte(bytes.last());
        law_encoding_leaves_nothing_reserved(bytes.drop_last());
        assert forall|i: int| 0 <= i < encoded(bytes).len() implies {
            let c = #[trigger] encoded(bytes)[i];
            c == '%' || (c <= '\u{7f}' && is_unreserved(c as u8))
        } by {
            if i < before.len() {
                assert(encoded(bytes)[i] == before[i]);
            } else {
                assert(encoded(bytes)[i] == last[i - before.len()]);
            }
        }
    }
}

// ---------------------------------------------------------------------------
// Searching the store
// ---------------------------------------------------------------------------

pub const SEARCH_URL_OPEN: &'static str = "https://store.steampowered.com/api/storesearch/?term=";

pub const SEARCH_URL_CLOSE: &'static str = "&cc=us&l=en";

/// The address that answers a search for `term`; `None` where there is nothing
/// to search for.
pub open spec fn search_address(term: Seq<char>) -> Option<Seq<char>> {
    if text::trimmed(term).len() == 0 {
        None
    } else {
        Some(
            SEARCH_URL_OPEN@ + encoded(utf8::encode_utf8(text::trimmed(term))) + SEARCH_URL_CLOSE@,
        )
    }
}

/// The address that answers a search for `term`. A blank term means that there
/// is no search yet, which is no error.
pub fn search_url(term: &str) -> (url: Option<String>)
    ensures
        text::opt_view(url) == search_address(term@),
{
    let chars = text::chars_of(term);
    let middle = text::trim(&chars);
    if middle.len() == 0 {
        return None;
    }
    let mut url = String::new();
    url.push_str(SEARCH_URL_OPEN);
    url.push_str(&percent_encode(&text::string_of(middle)));
    url.push_str(SEARCH_URL_CLOSE);
    Some(url)
}

/// What is shown of a game that a search found.
pub struct SearchResult {
    pub appid: u32,
    pub name: String,
    pub thumbnail_url: Option<String>,
}

/// An item of the store's answer, as far as it is read.
pub struct SearchItem {
    pub id: Option<u64>,
    pub name: Option<String>,
    pub tiny_image: Option<String>,
}

/// What an item holds: the number, the name and the picture.
pub type ItemView = (Option<u64>, Option<Seq<char>>, Option<Seq<char>>);

/// What a result holds: the AppID, the name and the picture.
pub type Hit = (u32, Seq<char>, Option<Seq<char>>);

/// How many results are shown at most.
pub const MAX_SEARCH_RESULTS: usize = 8;

/// What an item holds.
pub open spec fn item_view(item: SearchItem) -> ItemView {
    (item.id, text::opt_view(item.name), text::opt_view(item.tiny_image))
}

/// What items hold.
pub open spec fn item_views(items: Seq<SearchItem>) -> Seq<ItemView> {
    Seq::new(items.len(), |i: int| item_view(items[i]))
}

/// What a result holds.
pub open spec fn hit_view(result: SearchResult) -> Hit {
    (result.appid, result.name@, text::opt_view(result.thumbnail_url))
}

/// What results hold.
pub open spec fn hit_views(results: Seq<SearchResult>) -> Seq<Hit> {
    Seq::new(results.len(), |i: int| hit_view(results[i]))
}

/// The result that an item is: one without a number or a name is none. Of a
/// number that no AppID can be, the low 32 bits count.
pub open spec fn hit_of(item: ItemView) -> Option<Hit> {
    match (item.0, item.1) {
        (Some(id), Some(name)) => Some(((id % 0x1_0000_0000) as u32, name, item.2)),
        _ => None,
    }
}

/// The results that the items are, in their order.
pub open spec fn hits(items: Seq<ItemView>) -> Seq<Hit>
    decreases items.len(),
{
    if items.len() == 0 {
        Seq::empty()
    } else {
        let before = hits(items.drop_last());
        match hit_of(items.last()) {
            Some(hit) => before.push(hit),
            None => before,
        }
    }
}

/// The results that are shown: the first ones.
pub open spec fn shown_hits(items: Seq<ItemView>) -> Seq<Hit> {
    let all = hits(items);
    if all.len() > MAX_SEARCH_RESULTS {
        all.take(MAX_SEARCH_RESULTS as int)
    } else {
        all
    }
}

/// The results that some items are stand in front of those that more items are.
proof fn lemma_hits_in_order(items: Seq<ItemView>, count: int)
    requires
        0 <= count <= items.len(),
    ensures
        hits(items.take(count)).is_prefix_of(hits(items)),
    decreases items.len(),
{
    let fewer = items.take(count);
    if count == items.len() {
        assert(fewer == items);
        assert(hits(items).subrange(0, hits(items).len() as int) == hits(items));
    } else {
        lemma_hits_in_order(items.drop_last(), count);
        assert(items.drop_last().take(count) == fewer);
        let most = hits(items.drop_last());
        assert(most.subrange(0, hits(fewer).len() as int) == hits(fewer));
        assert(hits(items).subrange(0, hits(fewer).len() as int) =~= hits(fewer));
    }
}

/// Picks the results to show from the items of the store's answer.
pub fn pick_results(items: &[SearchItem]) -> (results: Vec<SearchResult>)
    ensures
        hit_views(results@) == shown_hits(item_views(items@)),
        results@.len() <= MAX_SEARCH_RESULTS,
{
    let ghost all = item_views(items@);
    let mut results: Vec<SearchResult> = Vec::new();
    assert(hit_views(results@) == hits(all.take(0)));
    for i in 0..items.len()
        invariant
            all == item_views(items@),
            results@.len() <= MAX_SEARCH_RESULTS,
            hit_views(results@) == hits(all.take(i as int)),
    {
        if results.len() == MAX_SEARCH_RESULTS {
            proof {
                lemma_hits_in_order(all, i as int);
                assert(hits(all).take(MAX_SEARCH_RESULTS as int) == hit_views(results@));
                assert(hits(all).take(hits(all).len() as int) == hits(all));
            }
            return results;
        }
        let ghost before = hit_views(results@);
        assert(all.take(i + 1).drop_last() == all.take(i as int));
        assert(all[i as int] == item_view(items@[i as int]));
        let item = &items[i];
        if let (Some(id), Some(name)) = (item.id, &item.name) {
            let appid: u32 = #[verifier::truncate] (id as u32);
            assert(id as u32 == id % 0x1_0000_0000) by (bit_vector);
            let thumbnail_url = match &item.tiny_image {
                Some(url) => Some(url.clone()),
                None => None,
            };
            let result = SearchResult { appid, name: name.clone(), thumbnail_url };
            assert(hit_of(all[i as int]) == Some(hit_view(result)));
            results.push(result);
            assert(hit_views(results@) == before.push(hit_view(result)));
        }
    }
    assert(all.take(items@.len() as int) == all);
    results
}

/// What is read of an item of the store's answer.
pub open spec fn item_of(tree: JsonTree) -> ItemView {
    (
        match tree.member("id"@) {
            Some(id) => id.whole_number(),
            None => None,
        },
        text_member(tree, "name"@),
        text_member(tree, "tiny_image"@),
    )
}

/// The text that a member is, when there is one and it is a text.
pub open spec fn text_member(tree: JsonTree, key: Seq<char>) -> Option<Seq<char>> {
    match tree.member(key) {
        Some(member) => member.text(),
        None => None,
    }
}

/// The results that an answer of the store holds.
pub open spec fn answered(document: JsonTree) -> Seq<Hit> {
    match document.member("items"@) {
        Some(member) => match member.items() {
            Some(items) => shown_hits(items.map_values(|item: JsonTree| item_of(item))),
            None => Seq::empty(),
        },
        None => Seq::empty(),
    }
}

/// The text that a member is, when there is one and it is a text.
fn member_text(value: &Value, key: &str) -> (found: Option<String>)
    ensures
        text::opt_view(found) == text_member(json::json_tree(*value), key@),
{
    match json_member(value, key) {
        Some(member) => match member.as_str() {
            Some(held) => Some(held.to_owned()),
            None => None,
        },
        None => None,
    }
}

/// Reads what is shown of an item of the store's answer.
fn read_item(value: &Value) -> (item: SearchItem)
    ensures
        item_view(item) == item_of(json::json_tree(*value)),
{
    let id = match json_member(value, "id") {
        Some(member) => member.as_u64(),
        None => None,
    };
    SearchItem { id, name: member_text(value, "name"), tiny_image: member_text(value, "tiny_image") }
}

/// Why an answer of the store is of no use.
#[derive(Clone, Copy, Debug, PartialEq, Eq, Structural)]
pub enum StoreError {
    /// The answer to a search is no JSON document.
    SearchUnreadable,
    /// The answer for the details of a game is no JSON document.
    DetailsUnreadable,
    /// The details give no name for this AppID.
    NoName(u32),
}

pub const SEARCH_UNREADABLE: &'static str = "parsing storesearch response as JSON";

pub const DETAILS_UNREADABLE: &'static str = "parsing appdetails response as JSON";

pub const NO_NAME_OPEN: &'static str = "appdetails response for AppID ";

pub const NO_NAME_CLOSE: &'static str = " has no data.name \u{2014} is the AppID valid?";

impl StoreError {
    /// What is said of it.
    pub open spec fn said(self) -> Seq<char> {
        match self {
            StoreError::SearchUnreadable => SEARCH_UNREADABLE@,
            StoreError::DetailsUnreadable => DETAILS_UNREADABLE@,
            StoreError::NoName(appid) => NO_NAME_OPEN@ + text::decimal(appid as int)
                + NO_NAME_CLOSE@,
        }
    }

    /// What is said of it.
    pub fn message(&self) -> (message: String)
        ensures
            message@ == self.said(),
            *self is SearchUnreadable ==> message@ == "parsing storesearch response as JSON"@,
            *self is DetailsUnreadable ==> message@ == "parsing appdetails response as JSON"@,
            *self matches StoreError::NoName(appid) ==> message@ == "appdetails response for AppID "@
                + text::decimal(appid as int)
                + " has no data.name \u{2014} is the AppID valid?"@,
    {
        match self {
            StoreError::SearchUnreadable => SEARCH_UNREADABLE.to_owned(),
            StoreError::DetailsUnreadable => DETAILS_UNREADABLE.to_owned(),
            StoreError::NoName(appid) => {
                let mut message = NO_NAME_OPEN.to_owned();
                text::push_decimal(&mut message, *appid as u64);
                message.push_str(NO_NAME_CLOSE);
                message
            },
        }
    }
}

/// Reads the results of a search from the bytes of the store's answer. An
/// answer without items has no results; one that is no JSON document is refused.
pub fn search_results(body: &[u8]) -> (results: Result<Vec<SearchResult>, StoreError>)
    ensures
        match results {
            Ok(found) => json::json_document(body@) matches Some(document) && hit_views(found@)
                == answered(document),
            Err(e) => json::json_document(body@) is None && e == StoreError::SearchUnreadable,
        },
{
    let document = match parse_json(body) {
        Ok(document) => document,
        Err(_) => {
            return Err(StoreError::SearchUnreadable);
        },
    };
    let none: Vec<SearchResult> = Vec::new();
    assert(hit_views(none@) == Seq::<Hit>::empty());
    let member = match json_member(&document, "items") {
        Some(member) => member,
        None => {
            return Ok(none);
        },
    };
    let values = match member.as_array() {
        Some(values) => values,
        None => {
            return Ok(none);
        },
    };
    let ghost trees = json::json_tree(*member).items()->0;
    let mut items: Vec<SearchItem> = Vec::new();
    for i in 0..values.len()
        invariant
            trees == values@.map_values(|item: Value| json::json_tree(item)),
            items@.len() == i,
            forall|j: int|
                0 <= j < i ==> item_view(#[trigger] items@[j]) == item_of(
                    json::json_tree(values@[j]),
                ),
    {
        items.push(read_item(&values[i]));
    }
    assert(item_views(items@) == trees.map_values(|item: JsonTree| item_of(item)));
    Ok(pick_results(&items))
}

// ---------------------------------------------------------------------------
// The details of a game
// ---------------------------------------------------------------------------

pub const DETAILS_URL: &'static str = "https://store.steampowered.com/api/appdetails?appids=";

/// The address that answers with the details of a game.
pub fn appdetails_url(appid: u32) -> (url: String)
    ensures
        url@ == DETAILS_URL@ + text::decimal(appid as int),
        url@ == "https://store.steampowered.com/api/appdetails?appids="@ + text::decimal(
            appid as int,
        ),
{
    let mut url = DETAILS_URL.to_owned();
    text::push_decimal(&mut url, appid as u64);
    url
}

/// What is read of the details of a game.
pub struct AppDetails {
    pub name: String,
    /// The address of the picture that the store itself shows. It names the file
    /// by what it holds, and for many games it is the only one that is served.
    pub header_image: Option<String>,
}

/// The details of a game in the store's answer.
pub open spec fn details_data(document: JsonTree, appid: u32) -> Option<JsonTree> {
    match document.member(text::decimal(appid as int)) {
        Some(entry) => entry.member("data"@),
        None => None,
    }
}

/// The text of this name in the details of a game.
pub open spec fn details_text(document: JsonTree, appid: u32, key: Seq<char>) -> Option<Seq<char>> {
    match details_data(document, appid) {
        Some(data) => text_member(data, key),
        None => None,
    }
}

/// What is made of the name and the picture that were found: without a name
/// there is nothing to show.
pub fn details_of(
    appid: u32,
    name: Option<String>,
    header_image: Option<String>,
) -> (details: Result<AppDetails, StoreError>)
    ensures
        match details {
            Ok(found) => name == Some(found.name) && found.header_image == header_image,
            Err(e) => name is None && e == StoreError::NoName(appid),
        },
{
    match name {
        Some(name) => Ok(AppDetails { name, header_image }),
        None => Err(StoreError::NoName(appid)),
    }
}

/// Reads the details of a game from the bytes of the store's answer.
pub fn parse_appdetails(body: &[u8], appid: u32) -> (details: Result<AppDetails, StoreError>)
    ensures
        match details {
            Ok(found) => {
                &&& json::json_document(body@) matches Some(document)
                &&& details_text(document, appid, "name"@) == Some(found.name@)
                &&& details_text(document, appid, "header_image"@) == text::opt_view(
                    found.header_image,
                )
            },
            Err(StoreError::DetailsUnreadable) => json::json_document(body@) is None,
            Err(StoreError::NoName(id)) => {
                &&& json::json_document(body@) matches Some(document)
                &&& details_text(document, appid, "name"@) is None
                &&& id == appid
            },
            Err(StoreError::SearchUnreadable) => false,
        },
{
    let document = match parse_json(body) {
        Ok(document) => document,
        Err(_) => {
            return Err(StoreError::DetailsUnreadable);
        },
    };
    let data = match json_member(&document, &text::decimal_text(appid as u64)) {
        Some(entry) => json_member(entry, "data"),
        None => None,
    };
    let (name, header_image) = match data {
        Some(data) => (member_text(data, "name"), member_text(data, "header_image")),
        None => (None, None),
    };
    details_of(appid, name, header_image)
}

// ---------------------------------------------------------------------------
// The cover art
// ---------------------------------------------------------------------------

pub const COVER_URL: &'static str = "https://cdn.akamai.steamstatic.com/steam/apps/";

/// The picture that the library of the Steam client shows.
pub const LIBRARY_COVER: &'static str = "/library_600x338.jpg";

/// The picture at the head of the store's page.
pub const HEADER_COVER: &'static str = "/header.jpg";

/// The address at which a picture of a game is guessed to lie.
pub open spec fn cover_address(appid: u32, picture: Seq<char>) -> Seq<char> {
    COVER_URL@ + text::decimal(appid as int) + picture
}

/// The addresses to try for the cover art of a game, in their order: the two
/// guesses, and then the one that the store gave, if it gave one.
pub open spec fn cover_addresses(appid: u32, header_image: Option<Seq<char>>) -> Seq<Seq<char>> {
    let guesses = seq![
        cover_address(appid, LIBRARY_COVER@),
        cover_address(appid, HEADER_COVER@),
    ];
    match header_image {
        Some(url) => guesses.push(url),
        None => guesses,
    }
}

/// The address at which a picture of a game is guessed to lie.
fn cover_url(appid: u32, picture: &str) -> (url: String)
    ensures
        url@ == cover_address(appid, picture@),
{
    let mut url = COVER_URL.to_owned();
    text::push_decimal(&mut url, appid as u64);
    url.push_str(picture);
    url
}

/// What is to be done next for the cover art of a game.
pub enum CoverStep {
    /// Download from this address.
    Download(String),
    /// Keep what was downloaded last.
    Keep,
    /// Give up; the last failure is the one to report.
    GiveUp,
}

/// What follows, where `tried` addresses were tried and the last download
/// succeeded or not.
pub open spec fn follows_cover(
    step: CoverStep,
    appid: u32,
    header_image: Option<Seq<char>>,
    tried: int,
    succeeded: bool,
) -> bool {
    let addresses = cover_addresses(appid, header_image);
    match step {
        CoverStep::Keep => tried > 0 && succeeded,
        CoverStep::Download(url) => !(tried > 0 && succeeded) && tried < addresses.len() && url@
            == addresses[tried],
        CoverStep::GiveUp => !(tried > 0 && succeeded) && tried >= addresses.len(),
    }
}

/// Leads the download of the cover art of a game: `tried` is how many addresses
/// were tried, and `succeeded` whether the last of them gave a picture.
pub fn cover_step(
    appid: u32,
    header_image: Option<&str>,
    tried: usize,
    succeeded: bool,
) -> (step: CoverStep)
    ensures
        follows_cover(step, appid, text::opt_str_view(header_image), tried as int, succeeded),
        step is Keep <==> tried > 0 && succeeded,
        tried == 0 ==> (step matches CoverStep::Download(url) && url@
            == "https://cdn.akamai.steamstatic.com/steam/apps/"@ + text::decimal(appid as int)
            + "/library_600x338.jpg"@),
        tried == 1 && !succeeded ==> (step matches CoverStep::Download(url) && url@
            == "https://cdn.akamai.steamstatic.com/steam/apps/"@ + text::decimal(appid as int)
            + "/header.jpg"@),
        tried == 2 && !succeeded && header_image is Some ==> (step matches CoverStep::Download(url)
            && url@ == header_image->0@),
        tried == 2 && !succeeded && header_image is None ==> step is GiveUp,
        tried > 2 && !succeeded ==> step is GiveUp,
{
    if tried > 0 && succeeded {
        CoverStep::Keep
    } else if tried == 0 {
        CoverStep::Download(cover_url(appid, LIBRARY_COVER))
    } else if tried == 1 {
        CoverStep::Download(cover_url(appid, HEADER_COVER))
    } else {
        match header_image {
            Some(url) => if tried == 2 {
                CoverStep::Download(url.to_owned())
            } else {
                CoverStep::GiveUp
            },
            None => CoverStep::GiveUp,
        }
    }
}

/// The art of the first address that works is kept, and it is given up only
/// where none works: so long as no address before the last one that was tried
/// worked, a further download means that none of those tried worked either.
pub proof fn law_first_working_cover_is_kept(
    step: CoverStep,
    appid: u32,
    header_image: Option<Seq<char>>,
    works: Seq<bool>,
    tried: int,
)
    requires
        works.len() == cover_addresses(appid, header_image).len(),
        0 <= tried <= works.len(),
        forall|i: int| 0 <= i < tried - 1 ==> !#[trigger] works[i],
        follows_cover(step, appid, header_image, tried, tried > 0 && works[tried - 1]),
    ensures
        match step {
            CoverStep::Keep => {
                &&& tried > 0
                &&& works[tried - 1]
                &&& forall|i: int| 0 <= i < tried - 1 ==> !#[trigger] works[i]
            },
            CoverStep::Download(url) => {
                &&& url@ == cover_addresses(appid, header_image)[tried]
                &&& forall|i: int| 0 <= i < tried ==> !#[trigger] works[i]
            },
            CoverStep::GiveUp => forall|i: int| 0 <= i < works.len() ==> !#[trigger] works[i],
        },
{
}

/// How large a picture may be.
pub const MAX_IMAGE_BYTES: usize = 5242880;

/// What the type of a picture begins with.
pub const IMAGE_TYPE: &'static str = "image/";

/// Why what was downloaded is not kept.
#[derive(Clone, Copy, Debug, PartialEq, Eq, Structural)]
pub enum ImageError {
    NotAnImage,
    TooLarge,
}

pub const NOT_AN_IMAGE: &'static str = " did not return an image (wrong Content-Type)";

pub const TOO_LARGE: &'static str = " image is larger than 5242880 bytes";

impl ImageError {
    /// What is said of it, for the address that was downloaded from.
    pub fn message(&self, url: &str) -> (message: String)
        ensures
            message@ == url@ + match self {
                ImageError::NotAnImage => NOT_AN_IMAGE@,
                ImageError::TooLarge => TOO_LARGE@,
            },
            *self is NotAnImage ==> message@ == url@
                + " did not return an image (wrong Content-Type)"@,
            *self is TooLarge ==> message@ == url@ + " image is larger than 5242880 bytes"@,
    {
        let mut message = url.to_owned();
        match self {
            ImageError::NotAnImage => {
                message.push_str(NOT_AN_IMAGE);
            },
            ImageError::TooLarge => {
                message.push_str(TOO_LARGE);
            },
        }
        message
    }
}

/// Whether the type that a server gives is that of a picture.
pub open spec fn is_image(content_type: Option<Seq<char>>) -> bool {
    content_type matches Some(given) && IMAGE_TYPE@.is_prefix_of(
        text::lowered(text::trimmed(given)),
    )
}

/// Whether a download is worth reading, by the type and the length that the
/// server announces: it has to be a picture, and one that is not too large.
pub fn check_image_head(content_type: Option<&str>, content_length: Option<u64>) -> (checked: Result<
    (),
    ImageError,
>)
    ensures
        match checked {
            Ok(_) => is_image(text::opt_str_view(content_type)) && (content_length matches Some(n)
                ==> n <= MAX_IMAGE_BYTES),
            Err(ImageError::NotAnImage) => !is_image(text::opt_str_view(content_type)),
            Err(ImageError::TooLarge) => is_image(text::opt_str_view(content_type))
                && (content_length matches Some(n) && n > MAX_IMAGE_BYTES),
        },
        checked is Ok ==> content_type is Some && (content_length matches Some(n) ==> n <= 5242880),
        checked == Err::<(), ImageError>(ImageError::TooLarge) ==> content_length is Some
            && content_length->0 > 5242880,
{
    let image = match content_type {
        Some(given) => {
            let chars = text::chars_of(given);
            let lower = text::to_lower(text::trim(&chars));
            let wanted = text::chars_of(IMAGE_TYPE);
            text::starts_with(&lower, &wanted)
        },
        None => false,
    };
    if !image {
        return Err(ImageError::NotAnImage);
    }
    match content_length {
        Some(n) => if n > MAX_IMAGE_BYTES as u64 {
            Err(ImageError::TooLarge)
        } else {
            Ok(())
        },
        None => Ok(()),
    }
}

/// Whether what was read is kept: no server has to announce a length.
pub fn check_image_body(bytes: &[u8]) -> (checked: Result<(), ImageError>)
    ensures
        checked == if bytes@.len() > MAX_IMAGE_BYTES {
            Err(ImageError::TooLarge)
        } else {
            Ok::<(), ImageError>(())
        },
        checked is Ok <==> bytes@.len() <= 5242880,
{
    if bytes.len() > MAX_IMAGE_BYTES {
        Err(ImageError::TooLarge)
    } else {
        Ok(())
    }
}

// ---------------------------------------------------------------------------
// What is cached
// ---------------------------------------------------------------------------

/// The cache, below the data directory.
pub const CACHE_DIR: &'static str = "cache";

pub const NAME_SUFFIX: &'static str = ".name.txt";

pub const COVER_SUFFIX: &'static str = ".jpg";

/// The directory of the cache.
pub fn cache_dir(home: Option<&str>) -> (dir: Result<String, HomeError>)
    ensures
        library::known(dir) == library::path_in(library::data_path(home), CACHE_DIR@),
        home is None ==> dir is Err,
        home matches Some(base) ==> library::known(dir) == Some(
            paths::joined_path(paths::joined_path(base@, ".local/share/steampunk"@), "cache"@),
        ),
{
    match library::data_dir(home) {
        Ok(dir) => Ok(paths::join_path(&dir, CACHE_DIR)),
        Err(e) => Err(e),
    }
}

/// The path of a file of the cache.
pub open spec fn cached_file(home: Option<&str>, appid: u32, suffix: Seq<char>) -> Option<
    Seq<char>,
> {
    library::path_in(
        library::path_in(library::data_path(home), CACHE_DIR@),
        text::decimal(appid as int) + suffix,
    )
}

/// The path of a file of the cache.
fn cache_path(home: Option<&str>, appid: u32, suffix: &str) -> (path: Result<String, HomeError>)
    ensures
        library::known(path) == cached_file(home, appid, suffix@),
{
    match cache_dir(home) {
        Ok(dir) => {
            let mut name = text::decimal_text(appid as u64);
            name.push_str(suffix);
            Ok(paths::join_path(&dir, &name))
        },
        Err(e) => Err(e),
    }
}

/// The file that holds the name of a game.
pub fn name_cache_path(home: Option<&str>, appid: u32) -> (path: Result<String, HomeError>)
    ensures
        library::known(path) == cached_file(home, appid, NAME_SUFFIX@),
        home is None ==> path is Err,
        home matches Some(base) ==> library::known(path) == Some(
            paths::joined_path(
                paths::joined_path(paths::joined_path(base@, ".local/share/steampunk"@), "cache"@),
                text::decimal(appid as int) + ".name.txt"@,
            ),
        ),
{
    cache_path(home, appid, NAME_SUFFIX)
}

/// The file that holds the cover art of a game.
pub fn cover_cache_path(home: Option<&str>, appid: u32) -> (path: Result<String, HomeError>)
    ensures
        library::known(path) == cached_file(home, appid, COVER_SUFFIX@),
        home is None ==> path is Err,
        home matches Some(base) ==> library::known(path) == Some(
            paths::joined_path(
                paths::joined_path(paths::joined_path(base@, ".local/share/steampunk"@), "cache"@),
                text::decimal(appid as int) + ".jpg"@,
            ),
        ),
{
    cache_path(home, appid, COVER_SUFFIX)
}

/// The name of a game, from what its file holds, where it could be read: without
/// the white space at either end. A blank file holds no name.
pub fn cached_name(held: Option<&str>) -> (name: Option<String>)
    ensures
        text::opt_view(name) == match held {
            Some(t) => if text::trimmed(t@).len() > 0 {
                Some(text::trimmed(t@))
            } else {
                None
            },
            None => None,
        },
{
    match held {
        Some(t) => {
            let chars = text::chars_of(t);
            let middle = text::trim(&chars);
            if middle.len() > 0 {
                Some(text::string_of(middle))
            } else {
                None
            }
        },
        None => None,
    }
}

/// The file with the cover art of a game, when there is such a file.
pub fn cached_cover(home: Option<&str>, appid: u32, is_file: bool) -> (path: Option<String>)
    ensures
        text::opt_view(path) == if is_file {
            cached_file(home, appid, COVER_SUFFIX@)
        } else {
            None
        },
        !is_file || home is None ==> path is None,
        is_file ==> (home matches Some(base) ==> text::opt_view(path) == Some(
            paths::joined_path(
                paths::joined_path(paths::joined_path(base@, ".local/share/steampunk"@), "cache"@),
                text::decimal(appid as int) + ".jpg"@,
            ),
        )),
{
    match cover_cache_path(home, appid) {
        Ok(path) => if is_file {
            Some(path)
        } else {
            None
        },
        Err(_) => None,
    }
}

// ---------------------------------------------------------------------------
// Laws of the search term, on written words
// ---------------------------------------------------------------------------

/// Whether a word is written like one that ends a title: `plus`, each letter in
/// either case, or a `v` in either case with a digit behind it.
pub open spec fn is_written_end(word: Seq<char>) -> bool {
    ||| {
        &&& word.len() == 4
        &&& word[0] == 'p' || word[0] == 'P'
        &&& word[1] == 'l' || word[1] == 'L'
        &&& word[2] == 'u' || word[2] == 'U'
        &&& word[3] == 's' || word[3] == 'S'
    }
    ||| {
        &&& word.len() >= 2
        &&& word[0] == 'v' || word[0] == 'V'
        &&& word[1] == '0' || word[1] == '1' || word[1] == '2' || word[1] == '3' || word[1] == '4'
            || word[1] == '5' || word[1] == '6' || word[1] == '7' || word[1] == '8' || word[1] == '9'
    }
}

/// Whether two words in a row are "early access", each letter in either case.
pub open spec fn is_written_early_access(one: Seq<char>, other: Seq<char>) -> bool {
    &&& one.len() == 5
    &&& one[0] == 'e' || one[0] == 'E'
    &&& one[1] == 'a' || one[1] == 'A'
    &&& one[2] == 'r' || one[2] == 'R'
    &&& one[3] == 'l' || one[3] == 'L'
    &&& one[4] == 'y' || one[4] == 'Y'
    &&& other.len() == 6
    &&& other[0] == 'a' || other[0] == 'A'
    &&& other[1] == 'c' || other[1] == 'C'
    &&& other[2] == 'c' || other[2] == 'C'
    &&& other[3] == 'e' || other[3] == 'E'
    &&& other[4] == 's' || other[4] == 'S'
    &&& other[5] == 's' || other[5] == 'S'
}

/// Whether "early access" stands nowhere in the words.
pub open spec fn is_without_early_access(words: Seq<Seq<char>>) -> bool {
    forall|i: int|
        0 <= i < words.len() - 1 ==> !is_written_early_access(#[trigger] words[i], words[i + 1])
}

/// A word ends a title exactly where it is written like one that does.
proof fn lemma_written_end(word: Seq<char>)
    ensures
        ends_title(word) <==> is_written_end(word),
{
    reveal_strlit("plus");
    text::law_letter_case(word, "plus"@);
    if word.len() == 4 {
        let (a, b, c, d) = (word[0], word[1], word[2], word[3]);
        if is_written_end(word) && !is_version(word) {
            assert forall|i: int| 0 <= i < word.len() implies {
                ||| #[trigger] word[i] == "plus"@[i]
                ||| 'A' <= word[i] <= 'Z' && "plus"@[i] as int == word[i] as int + 32
                ||| 'A' <= "plus"@[i] <= 'Z' && word[i] as int == "plus"@[i] as int + 32
            } by {}
        }
    }
}

/// Two words are "early access" exactly where they are written so.
proof fn lemma_written_early_access(words: Seq<Seq<char>>, at: int)
    requires
        0 <= at < words.len() - 1,
    ensures
        is_early_access(words, at) <==> is_written_early_access(words[at], words[at + 1]),
{
    reveal_strlit("early");
    reveal_strlit("access");
    let (one, other) = (words[at], words[at + 1]);
    text::law_letter_case(one, "early"@);
    text::law_letter_case(other, "access"@);
    if one.len() == 5 && other.len() == 6 {
        let (a, b, c, d, e) = (one[0], one[1], one[2], one[3], one[4]);
        let (f, g, h, i, j, k) = (other[0], other[1], other[2], other[3], other[4], other[5]);
    }
    if is_written_early_access(one, other) {
        assert forall|i: int| 0 <= i < one.len() implies {
            ||| #[trigger] one[i] == "early"@[i]
            ||| 'A' <= one[i] <= 'Z' && "early"@[i] as int == one[i] as int + 32
            ||| 'A' <= "early"@[i] <= 'Z' && one[i] as int == "early"@[i] as int + 32
        } by {}
        assert forall|i: int| 0 <= i < other.len() implies {
            ||| #[trigger] other[i] == "access"@[i]
            ||| 'A' <= other[i] <= 'Z' && "access"@[i] as int == other[i] as int + 32
            ||| 'A' <= "access"@[i] <= 'Z' && other[i] as int == "access"@[i] as int + 32
        } by {}
    }
}

/// The title ends before the first word that is written like an end.
proof fn lemma_title_ends_at(words: Seq<Seq<char>>, from: int, at: int)
    requires
        0 <= from <= at <= words.len(),
        forall|i: int| from <= i < at ==> !is_written_end(#[trigger] words[i]),
        at < words.len() ==> is_written_end(words[at]),
    ensures
        title_end(words, from) == at,
    decreases at - from,
{
    if from < words.len() {
        lemma_written_end(words[from]);
        if from < at {
            lemma_title_ends_at(words, from + 1, at);
        }
    }
}

/// Nothing is taken out of words without "early access".
proof fn lemma_nothing_taken_out(words: Seq<Seq<char>>, from: int)
    requires
        0 <= from <= words.len(),
        is_without_early_access(words),
    ensures
        without_early_access(words, from) == words.skip(from),
    decreases words.len() - from,
{
    if from < words.len() {
        if from < words.len() - 1 {
            lemma_written_early_access(words, from);
        }
        lemma_nothing_taken_out(words, from + 1);
        assert(seq![words[from]] + words.skip(from + 1) == words.skip(from));
    } else {
        assert(words.skip(from) == Seq::<Seq<char>>::empty());
    }
}

/// What is taken out of the last words does not depend on those before them.
proof fn lemma_taken_out_of_the_rest(front: Seq<Seq<char>>, back: Seq<Seq<char>>, from: int)
    requires
        0 <= from <= back.len(),
    ensures
        without_early_access(front + back, front.len() + from) == without_early_access(back, from),
    decreases back.len() - from,
{
    let words = front + back;
    if from < back.len() {
        assert(words[front.len() + from] == back[from]);
        if from + 1 < back.len() {
            assert(words[front.len() + from + 1] == back[from + 1]);
            if is_early_access(back, from) {
                lemma_taken_out_of_the_rest(front, back, from + 2);
            }
        }
        lemma_taken_out_of_the_rest(front, back, from + 1);
    }
}

/// "Early access" is taken out of words wherever it stands, as often as it does,
/// and everything else is kept in its order.
pub proof fn law_early_access_is_taken_out(
    before: Seq<Seq<char>>,
    early: Seq<char>,
    access: Seq<char>,
    after: Seq<Seq<char>>,
)
    requires
        is_without_early_access(before),
        is_written_early_access(early, access),
    ensures
        without_early_access(before + seq![early, access] + after, 0) == before
            + without_early_access(after, 0),
        without_early_access(before, 0) == before,
{
    lemma_nothing_taken_out(before, 0);
    assert(before.skip(0) == before);
    lemma_kept_up_to(before, early, access, after, 0);
}

/// The words before the first "early access" are kept.
proof fn lemma_kept_up_to(
    before: Seq<Seq<char>>,
    early: Seq<char>,
    access: Seq<char>,
    after: Seq<Seq<char>>,
    from: int,
)
    requires
        is_without_early_access(before),
        is_written_early_access(early, access),
        0 <= from <= before.len(),
    ensures
        without_early_access(before + seq![early, access] + after, from) == before.skip(from)
            + without_early_access(after, 0),
    decreases before.len() - from,
{
    let words = before + seq![early, access] + after;
    lemma_written_early_access(words, from);
    if from < before.len() {
        assert(words[from] == before[from]);
        if from + 1 < before.len() {
            assert(words[from + 1] == before[from + 1]);
            assert(!is_written_early_access(before[from], before[from + 1]));
        } else {
            assert(words[from + 1] == early);
        }
        lemma_kept_up_to(before, early, access, after, from + 1);
        assert(seq![before[from]] + (before.skip(from + 1) + without_early_access(after, 0))
            == before.skip(from) + without_early_access(after, 0));
    } else {
        assert(words[from] == early && words[from + 1] == access);
        let front = before + seq![early, access];
        lemma_taken_out_of_the_rest(front, after, 0);
        assert(before.skip(from) == Seq::<Seq<char>>::empty());
        assert(before.skip(from) + without_early_access(after, 0) == without_early_access(after, 0));
    }
}

/// The whole title is searched for: where a stem is the words of a title, a word
/// that ends it and anything more, the term is the words of the title with one
/// space between any two. A number, a `v` by itself or any other word that is
/// not written like an end stays.
pub proof fn law_whole_title_is_kept(
    stem: Seq<char>,
    term: Seq<char>,
    title: Seq<Seq<char>>,
    end: Seq<char>,
    more: Seq<Seq<char>>,
)
    requires
        term == search_term(stem),
        text::words(stem) == title + seq![end] + more,
        is_written_end(end),
        forall|i: int| 0 <= i < title.len() ==> !is_written_end(#[trigger] title[i]),
    ensures
        is_without_early_access(title) ==> term == text::joined(title, seq![' ']),
        term == text::joined(without_early_access(title, 0), seq![' ']),
{
    let words = text::words(stem);
    assert forall|i: int| 0 <= i < title.len() implies !is_written_end(#[trigger] words[i]) by {
        assert(words[i] == title[i]);
    }
    assert(words[title.len() as int] == end);
    lemma_title_ends_at(words, 0, title.len() as int);
    assert(words.take(title.len() as int) == title);
    if is_without_early_access(title) {
        lemma_nothing_taken_out(title, 0);
        assert(title.skip(0) == title);
    }
}

/// A stem in which no word is written like an end is searched for as it stands,
/// unless "early access" stands in it: then that is taken out, and the words
/// that are left have one space between any two.
pub proof fn law_stem_without_an_end(stem: Seq<char>, term: Seq<char>)
    requires
        term == search_term(stem),
        forall|i: int|
            0 <= i < text::words(stem).len() ==> !is_written_end(#[trigger] text::words(stem)[i]),
    ensures
        is_without_early_access(text::words(stem)) ==> term == stem,
        !is_without_early_access(text::words(stem)) ==> term == text::joined(
            without_early_access(text::words(stem), 0),
            seq![' '],
        ),
{
    let words = text::words(stem);
    lemma_title_ends_at(words, 0, words.len() as int);
    assert(words.take(words.len() as int) == words);
    if is_without_early_access(words) {
        assert forall|at: int| !is_early_access(words, at) by {
            if 0 <= at < words.len() - 1 {
                lemma_written_early_access(words, at);
                assert(!is_written_early_access(words[at], words[at + 1]));
            }
        }
    } else {
        let i = choose|i: int|
            0 <= i < words.len() - 1 && is_written_early_access(#[trigger] words[i], words[i + 1]);
        lemma_written_early_access(words, i);
        assert(says_early_access(words));
    }
}

// ---------------------------------------------------------------------------
// Laws of the store's addresses and answers
// ---------------------------------------------------------------------------

/// A byte more in a query adds the byte itself where it is a letter, a digit or
/// one of `-`, `_`, `.` and `~`, and otherwise a percent sign and its two
/// hexadecimal digits, in capitals.
pub proof fn law_one_more_byte(bytes: Seq<u8>, b: u8)
    ensures
        encoded(Seq::<u8>::empty()).len() == 0,
        ({
            let c = b as char;
            let stands = {
                ||| 'A' <= c <= 'Z'
                ||| 'a' <= c <= 'z'
                ||| '0' <= c <= '9'
                ||| c == '-'
                ||| c == '_'
                ||| c == '.'
                ||| c == '~'
            };
            &&& stands ==> encoded(bytes.push(b)) == encoded(bytes) + seq![c]
            &&& !stands ==> encoded(bytes.push(b)) == encoded(bytes) + seq![
                '%',
                "0123456789ABCDEF"@[b as int / 16],
                "0123456789ABCDEF"@[b as int % 16],
            ]
        }),
{
    assert(bytes.push(b).drop_last() == bytes);
    assert(bytes.push(b).last() == b);
    lemma_hex_digit(b as int / 16);
    lemma_hex_digit(b as int % 16);
}

/// The sixteen hexadecimal digits.
proof fn lemma_hex_digit(n: int)
    requires
        0 <= n < 16,
    ensures
        hex_digit(n) == "0123456789ABCDEF"@[n],
{
    reveal_strlit("0123456789ABCDEF");
}

/// A search is answered at the address with its term, encoded, without the white
/// space at either end; a term of white space alone has no address.
pub proof fn law_search_address(
    before: Seq<char>,
    core: Seq<char>,
    after: Seq<char>,
    url: Option<Seq<char>>,
)
    requires
        url == search_address(before + core + after),
        forall|i: int| 0 <= i < before.len() ==> text::is_space(#[trigger] before[i]),
        forall|i: int| 0 <= i < after.len() ==> text::is_space(#[trigger] after[i]),
        core.len() > 0 ==> !text::is_space(core[0]) && !text::is_space(core.last()),
    ensures
        core.len() == 0 ==> url is None,
        core.len() > 0 ==> url == Some(
            "https://store.steampowered.com/api/storesearch/?term="@ + encoded(
                utf8::encode_utf8(core),
            ) + "&cc=us&l=en"@,
        ),
{
    text::law_trimmed(before, core, after);
}

/// Items of which each has a number and a name are results one for one, in their
/// order, up to the eighth: with the number as AppID, the name and the picture.
pub proof fn law_results_of_full_items(items: Seq<ItemView>, shown: Seq<Hit>)
    requires
        shown == shown_hits(items),
        forall|i: int|
            0 <= i < items.len() ==> (#[trigger] items[i]).0 is Some && items[i].1 is Some,
    ensures
        shown.len() == if items.len() < 8 {
            items.len()
        } else {
            8
        },
        forall|i: int|
            0 <= i < shown.len() ==> {
                &&& (#[trigger] shown[i]).0 as int == items[i].0->0 as int % 0x1_0000_0000
                &&& shown[i].1 == items[i].1->0
                &&& shown[i].2 == items[i].2
            },
{
    lemma_hits_of_full_items(items);
}

/// Full items are results one for one.
proof fn lemma_hits_of_full_items(items: Seq<ItemView>)
    requires
        forall|i: int|
            0 <= i < items.len() ==> (#[trigger] items[i]).0 is Some && items[i].1 is Some,
    ensures
        hits(items).len() == items.len(),
        forall|i: int|
            0 <= i < items.len() ==> {
                &&& (#[trigger] hits(items)[i]).0 as int == items[i].0->0 as int % 0x1_0000_0000
                &&& hits(items)[i].1 == items[i].1->0
                &&& hits(items)[i].2 == items[i].2
            },
    decreases items.len(),
{
    if items.len() > 0 {
        let front = items.drop_last();
        assert forall|i: int| 0 <= i < front.len() implies (#[trigger] front[i]).0 is Some
            && front[i].1 is Some by {
            assert(front[i] == items[i]);
        }
        lemma_hits_of_full_items(front);
        let last = items[items.len() - 1];
        let hit = hit_of(last)->0;
        assert(hits(items) == hits(front).push(hit));
        assert forall|i: int| 0 <= i < items.len() implies {
            &&& (#[trigger] hits(items)[i]).0 as int == items[i].0->0 as int % 0x1_0000_0000
            &&& hits(items)[i].1 == items[i].1->0
            &&& hits(items)[i].2 == items[i].2
        } by {
            if i < front.len() {
                assert(hits(items)[i] == hits(front)[i]);
                assert(front[i] == items[i]);
            }
        }
    }
}

/// An item without a number, or without a name, is as if it were not there: the
/// results are those of the other items, in their order.
pub proof fn law_items_without_a_name_are_passed_over(
    before: Seq<ItemView>,
    item: ItemView,
    after: Seq<ItemView>,
)
    requires
        item.0 is None || item.1 is None,
    ensures
        shown_hits(before + seq![item] + after) == shown_hits(before + after),
{
    lemma_hits_without(before, item, after);
}

/// An item without a number, or without a name, adds no result.
proof fn lemma_hits_without(before: Seq<ItemView>, item: ItemView, after: Seq<ItemView>)
    requires
        item.0 is None || item.1 is None,
    ensures
        hits(before + seq![item] + after) == hits(before + after),
    decreases after.len(),
{
    let one = before + seq![item] + after;
    let two = before + after;
    if after.len() == 0 {
        assert(one.drop_last() == before);
        assert(one.last() == item);
        assert(two == before);
    } else {
        assert(one.drop_last() == before + seq![item] + after.drop_last());
        assert(two.drop_last() == before + after.drop_last());
        assert(one.last() == after.last() && two.last() == after.last());
        lemma_hits_without(before, item, after.drop_last());
    }
}

/// The results of an answer are those of its `items`: of each, the number `id`,
/// the text `name` and the text `tiny_image`. An answer without an array of that
/// name has none.
pub proof fn law_answer(document: JsonTree, members: Map<Seq<char>, JsonTree>, items: Seq<JsonTree>)
    ensures
        document == JsonTree::Object(members) && members.contains_key("items"@) && members["items"@]
            == JsonTree::Array(items) ==> answered(document) == shown_hits(
            Seq::new(items.len(), |i: int| item_of(items[i])),
        ),
        document == JsonTree::Object(members) && !members.contains_key("items"@) ==> answered(
            document,
        ).len() == 0,
        document == JsonTree::Object(members) && members.contains_key("items"@) && !(
        members["items"@] is Array) ==> answered(document).len() == 0,
        !(document is Object) ==> answered(document).len() == 0,
{
    assert(items.map_values(|item: JsonTree| item_of(item)) =~= Seq::new(
        items.len(),
        |i: int| item_of(items[i]),
    ));
}

/// What is read of an item that is written as an object.
pub proof fn law_answer_item(item: JsonTree, members: Map<Seq<char>, JsonTree>)
    ensures
        item == JsonTree::Object(members) ==> {
            let read = item_of(item);
            &&& read.0 == if members.contains_key("id"@) && members["id"@] is Number {
                members["id"@]->Number_0
            } else {
                None
            }
            &&& read.1 == if members.contains_key("name"@) && members["name"@] is Text {
                Some(members["name"@]->Text_0)
            } else {
                None
            }
            &&& read.2 == if members.contains_key("tiny_image"@) && members["tiny_image"@] is Text {
                Some(members["tiny_image"@]->Text_0)
            } else {
                None
            }
        },
        !(item is Object) ==> item_of(item) == (None::<u64>, None::<Seq<char>>, None::<Seq<char>>),
{
}

/// The details of a game are the texts in the object `data` of the object that
/// is named by the AppID in decimal.
pub proof fn law_details(
    document: Map<Seq<char>, JsonTree>,
    appid: u32,
    entry: Map<Seq<char>, JsonTree>,
    data: Map<Seq<char>, JsonTree>,
    key: Seq<char>,
    value: Seq<char>,
)
    ensures
        document.contains_key(text::decimal(appid as int)) && document[text::decimal(appid as int)]
            == JsonTree::Object(entry) && entry.contains_key("data"@) && entry["data"@]
            == JsonTree::Object(data) ==> {
            &&& data.contains_key(key) && data[key] == JsonTree::Text(value) ==> details_text(
                JsonTree::Object(document),
                appid,
                key,
            ) == Some(value)
            &&& !data.contains_key(key) ==> details_text(JsonTree::Object(document), appid, key)
                is None
            &&& data.contains_key(key) && !(data[key] is Text) ==> details_text(
                JsonTree::Object(document),
                appid,
                key,
            ) is None
        },
        !document.contains_key(text::decimal(appid as int)) ==> details_text(
            JsonTree::Object(document),
            appid,
            key,
        ) is None,
{
}

/// A picture is what is announced as `image/` and anything more, in any letter
/// case and with white space around it.
pub proof fn law_image_type(before: Seq<char>, kind: Seq<char>, more: Seq<char>, after: Seq<char>)
    requires
        forall|i: int| 0 <= i < before.len() ==> text::is_space(#[trigger] before[i]),
        forall|i: int| 0 <= i < after.len() ==> text::is_space(#[trigger] after[i]),
        kind.len() == 6,
        !text::is_space(kind[0]),
        !text::is_space((kind + more).last()),
    ensures
        is_image(Some(before + (kind + more) + after)) <==> text::same_but_case(kind, "image/"@),
        !is_image(None::<Seq<char>>),
{
    reveal_strlit("image/");
    let core = kind + more;
    assert(core[0] == kind[0]);
    text::law_trimmed(before, core, after);
    let low = text::lowered(core);
    assert(low.subrange(0, 6) == text::lowered(kind));
    assert(text::lowered("image/"@) =~= "image/"@);
}

/// The cached name of a game is what its file holds, without the white space at
/// either end; a file of white space alone holds none.
pub proof fn law_cached_name(
    before: Seq<char>,
    core: Seq<char>,
    after: Seq<char>,
    name: Option<Seq<char>>,
)
    requires
        name == if text::trimmed(before + core + after).len() > 0 {
            Some(text::trimmed(before + core + after))
        } else {
            None
        },
        forall|i: int| 0 <= i < before.len() ==> text::is_space(#[trigger] before[i]),
        forall|i: int| 0 <= i < after.len() ==> text::is_space(#[trigger] after[i]),
        core.len() > 0 ==> !text::is_space(core[0]) && !text::is_space(core.last()),
    ensures
        core.len() == 0 ==> name is None,
        core.len() > 0 ==> name == Some(core),
{
    text::law_trimmed(before, core, after);
}

} // verus!
