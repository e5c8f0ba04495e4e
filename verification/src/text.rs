//! Text matching: how relevant a tile is to a query.
//!
//! Lower-casing and splitting at whitespace follow Unicode, as std's `str`
//! methods do; the library calls them. Lower-casing is named, splitting and
//! substring search are stated exactly.
use vstd::prelude::*;
use crate::fraction::{min_int, UNIT, TAG_SCORE};

verus! {

/// What `str::to_lowercase` returns for a string with these characters.
pub uninterp spec fn lowercase(s: Seq<char>) -> Seq<char>;

/// A character with the Unicode `White_Space` property.
pub open spec fn is_white_space(c: char) -> bool {
    ||| '\u{9}' <= c <= '\u{d}'
    ||| c == ' '
    ||| c == '\u{85}'
    ||| c == '\u{a0}'
    ||| c == '\u{1680}'
    ||| '\u{2000}' <= c <= '\u{200a}'
    ||| c == '\u{2028}'
    ||| c == '\u{2029}'
    ||| c == '\u{202f}'
    ||| c == '\u{205f}'
    ||| c == '\u{3000}'
}

/// The maximal runs of characters of `s` that are not white space, in
/// order.
pub open spec fn whitespace_words(s: Seq<char>) -> Seq<Seq<char>>
    decreases s.len(),
{
    if s.len() == 0 {
        Seq::empty()
    } else {
        let words = whitespace_words(s.drop_last());
        let c = s.last();
        if is_white_space(c) {
            words
        } else if s.len() >= 2 && !is_white_space(s[s.len() - 2]) {
            words.update(words.len() - 1, words.last().push(c))
        } else {
            words.push(seq![c])
        }
    }
}

/// `needle` occurs in `hay` as a contiguous run of characters.
pub open spec fn contains_seq(hay: Seq<char>, needle: Seq<char>) -> bool {
    exists|i: int|
        0 <= i && i + needle.len() <= hay.len() && #[trigger] hay.subrange(i, i + needle.len())
            == needle
}

/// Calls `str::to_lowercase`: the Unicode lower-case form of `s`. Nothing
/// more is claimed than that the result is a function of the characters of
/// `s`, named [`lowercase`].
#[verifier::external_body]
pub(crate) fn to_lowercase(s: &str) -> (res: String)
    ensures
        res@ == lowercase(s@),
{
    s.to_lowercase()
}

/// Calls `str::split_whitespace` and collects the pieces in order; std
/// documents them as the sub-slices of `s` separated by any amount of
/// whitespace as Unicode's `White_Space` property defines it, never empty,
/// which is [`whitespace_words`].
#[verifier::external_body]
pub(crate) fn split_words<'a>(s: &'a str) -> (res: Vec<&'a str>)
    ensures
        res@.map_values(|w: &str| w@) == whitespace_words(s@),
{
    s.split_whitespace().collect()
}

/// Calls `str::contains` with a string pattern, which std documents as true
/// exactly when the pattern matches a sub-slice of `hay`.
#[verifier::external_body]
pub(crate) fn str_contains(hay: &str, needle: &str) -> (res: bool)
    ensures
        res == contains_seq(hay@, needle@),
{
    hay.contains(needle)
}

/// How many of `words` occur in `content`, each counted once per occurrence
/// in `words`.
pub open spec fn word_hits(content: Seq<char>, words: Seq<Seq<char>>) -> nat
    decreases words.len(),
{
    if words.len() == 0 {
        0
    } else {
        word_hits(content, words.drop_last()) + if contains_seq(content, words.last()) {
            1nat
        } else {
            0nat
        }
    }
}

/// A tag matches a query when the lower-cased query contains the tag, or
/// the tag contains the query as given.
pub open spec fn tag_matches(tag: Seq<char>, query_lower: Seq<char>, query: Seq<char>) -> bool {
    contains_seq(query_lower, tag) || contains_seq(tag, query)
}

/// How many of `tags` match the query.
pub open spec fn tag_hits(tags: Seq<Seq<char>>, query_lower: Seq<char>, query: Seq<char>) -> nat
    decreases tags.len(),
{
    if tags.len() == 0 {
        0
    } else {
        tag_hits(tags.drop_last(), query_lower, query) + if tag_matches(
            tags.last(),
            query_lower,
            query,
        ) {
            1nat
        } else {
            0nat
        }
    }
}

/// The relevance score: the share of query words found, plus [`TAG_SCORE`]
/// per matching tag, capped at one; zero for a query without words.
pub open spec fn relevance_score(hits: nat, total: nat, tags: nat) -> int {
    if total == 0 {
        0
    } else {
        min_int((hits * (UNIT as int)) / (total as int) + tags * (TAG_SCORE as int), UNIT as int)
    }
}

/// The relevance of a tile with this content and these tags to `query`.
#[verifier::opaque]
pub open spec fn relevance(content: Seq<char>, tags: Seq<Seq<char>>, query: Seq<char>) -> int {
    let query_lower = lowercase(query);
    let words = whitespace_words(query_lower);
    relevance_score(
        word_hits(lowercase(content), words),
        words.len(),
        tag_hits(tags, query_lower, query),
    )
}

/// A relevance lies between zero and one.
pub proof fn lemma_relevance_bounds(content: Seq<char>, tags: Seq<Seq<char>>, query: Seq<char>)
    ensures
        0 <= relevance(content, tags, query) <= UNIT,
{
    reveal(relevance);
    let query_lower = lowercase(query);
    let words = whitespace_words(query_lower);
    let hits = word_hits(lowercase(content), words);
    let total = words.len();
    if total > 0 {
        assert(0 <= (hits * (UNIT as int)) / (total as int)) by (nonlinear_arith)
            requires
                total > 0,
        ;
        assert(0 <= tag_hits(tags, query_lower, query) * (TAG_SCORE as int)) by (nonlinear_arith);
    }
}

proof fn lemma_share_bound(hits: nat, total: nat)
    requires
        0 < total,
        hits <= total,
    ensures
        0 <= (hits * (UNIT as int)) / (total as int) <= UNIT,
{
    assert(0 <= hits * (UNIT as int) <= total * (UNIT as int)) by (nonlinear_arith)
        requires
            hits <= total,
    ;
    assert((total * (UNIT as int)) / (total as int) == UNIT) by (nonlinear_arith)
        requires
            0 < total,
    ;
    assert((hits * (UNIT as int)) / (total as int) <= (total * (UNIT as int)) / (total as int))
        by (nonlinear_arith)
        requires
            0 <= hits * (UNIT as int) <= total * (UNIT as int),
            0 < total,
    ;
}

/// Counts the words that occur in `content` (the lower-cased content of a
/// tile, for a relevance score), each counted once per occurrence in
/// `words`.
pub fn count_word_hits(content: &str, words: &Vec<&str>) -> (res: u64)
    ensures
        res == word_hits(content@, words@.map_values(|w: &str| w@)),
        res <= words.len(),
{
    let ghost all = words@.map_values(|w: &str| w@);
    let mut hits: u64 = 0;
    let mut j: usize = 0;
    while j < words.len()
        invariant
            j <= words.len(),
            all == words@.map_values(|w: &str| w@),
            hits == word_hits(content@, all.take(j as int)),
            hits <= j,
        decreases words.len() - j,
    {
        assert(all.take(j + 1).drop_last() =~= all.take(j as int));
        if str_contains(content, words[j]) {
            hits = hits + 1;
        }
        j = j + 1;
    }
    assert(all.take(words.len() as int) =~= all);
    hits
}

/// Counts the tags that match the query: those that occur in the
/// lower-cased query, or in which the query as given occurs.
pub fn count_tag_hits(tags: &Vec<String>, query_lower: &str, query: &str) -> (res: u64)
    ensures
        res == tag_hits(tags@.map_values(|t: String| t@), query_lower@, query@),
        res <= tags.len(),
{
    let ghost all = tags@.map_values(|t: String| t@);
    let mut hits: u64 = 0;
    let mut j: usize = 0;
    while j < tags.len()
        invariant
            j <= tags.len(),
            all == tags@.map_values(|t: String| t@),
            hits == tag_hits(all.take(j as int), query_lower@, query@),
            hits <= j,
        decreases tags.len() - j,
    {
        assert(all.take(j + 1).drop_last() =~= all.take(j as int));
        let tag: &str = tags[j].as_str();
        if str_contains(query_lower, tag) || str_contains(tag, query) {
            hits = hits + 1;
        }
        j = j + 1;
    }
    assert(all.take(tags.len() as int) =~= all);
    hits
}

/// Combines the counts into a relevance score in parts per billion.
pub fn score(hits: u64, total: u64, tags: u64) -> (res: u64)
    requires
        hits <= total,
    ensures
        res == relevance_score(hits as nat, total as nat, tags as nat),
        res <= UNIT,
{
    if total == 0 {
        return 0;
    }
    proof {
        lemma_share_bound(hits as nat, total as nat);
    }
    let share: u128 = (hits as u128) * (UNIT as u128) / (total as u128);
    let share: u64 = share as u64;
    if tags >= 5 {
        assert(tags * (TAG_SCORE as int) >= UNIT) by (nonlinear_arith)
            requires
                tags >= 5,
        ;
        return UNIT;
    }
    let sum: u64 = share + tags * TAG_SCORE;
    if sum >= UNIT {
        UNIT
    } else {
        sum
    }
}

/// The relevance of a tile's content and tags to a query, given the query
/// lower-cased and split into words.
pub fn tile_relevance(
    content: &str,
    tags: &Vec<String>,
    query: &str,
    query_lower: &str,
    words: &Vec<&str>,
) -> (res: u64)
    requires
        query_lower@ == lowercase(query@),
        words@.map_values(|w: &str| w@) == whitespace_words(query_lower@),
    ensures
        res == relevance(content@, tags@.map_values(|t: String| t@), query@),
        res <= UNIT,
{
    let content_lower = to_lowercase(content);
    let hits = count_word_hits(content_lower.as_str(), words);
    let tag_count = count_tag_hits(tags, query_lower, query);
    let total: u64 = words.len() as u64;
    let res = score(hits, total, tag_count);
    proof {
        reveal(relevance);
    }
    res
}

} // verus!
