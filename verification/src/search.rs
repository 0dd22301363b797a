//! Scoring of stored tiles against a search query.
//!
//! A tile whose kind passes the query's kind filter earns 10 when its content
//! (read as UTF-8 and lowercased) contains the lowercased query, 1 for each
//! match of the query in that content, and 5 for each metadata pair whose
//! lowercased value or key contains the query. Content that is not valid
//! UTF-8 earns nothing.

use vstd::prelude::*;
use vstd::utf8::{decode_utf8, encode_utf8, valid_utf8};
use crate::kind::{KindView, TileKind};
use crate::text::{
    contains_bytes, count_matches, decode_text, lowercase, lowercase_text, lowered, match_count,
    occurs_in,
};

verus! {

/// The score that a tile's content earns against a lowercased pattern.
pub open spec fn content_score(content: Seq<u8>, pattern: Seq<u8>) -> int {
    if valid_utf8(content) {
        let text = lowered(decode_utf8(content));
        (if occurs_in(text, pattern) {
            10int
        } else {
            0int
        }) + match_count(text, pattern)
    } else {
        0
    }
}

/// A metadata pair matches when its lowercased value or key contains the
/// pattern.
pub open spec fn pair_matches(pair: (String, String), pattern: Seq<u8>) -> bool {
    occurs_in(lowered(pair.1@), pattern) || occurs_in(lowered(pair.0@), pattern)
}

/// The score that a tile's metadata earns: 5 for each matching pair.
pub open spec fn metadata_score(metadata: Seq<(String, String)>, pattern: Seq<u8>) -> int
    decreases metadata.len(),
{
    if metadata.len() == 0 {
        0
    } else {
        metadata_score(metadata.drop_last(), pattern) + if pair_matches(metadata.last(), pattern) {
            5int
        } else {
            0int
        }
    }
}

/// The text score of a tile against a lowercased pattern.
pub open spec fn text_score(content: Seq<u8>, metadata: Seq<(String, String)>, pattern: Seq<u8>) -> int {
    content_score(content, pattern) + metadata_score(metadata, pattern)
}

/// A kind filter lets a kind through when there is no filter or the kinds are
/// the same.
pub open spec fn admits_kind(filter: Option<KindView>, kind: KindView) -> bool {
    match filter {
        None => true,
        Some(k) => k == kind,
    }
}

/// The value of an optional kind.
pub open spec fn filter_view(kind: Option<TileKind>) -> Option<KindView> {
    match kind {
        None => None,
        Some(k) => Some(k@),
    }
}

/// A search query: the lowercased query text and an optional kind filter.
pub struct SearchQuery {
    lower: String,
    kind: Option<TileKind>,
}

impl SearchQuery {
    /// The UTF-8 bytes of the lowercased query.
    pub closed spec fn pattern(&self) -> Seq<u8> {
        encode_utf8(self.lower@)
    }

    /// The kind filter.
    pub closed spec fn filter(&self) -> Option<KindView> {
        filter_view(self.kind)
    }

    /// A query for `query` (matched without regard to case), restricted to
    /// `kind` when one is given.
    pub fn new(query: &str, kind: Option<TileKind>) -> (q: SearchQuery)
        ensures
            q.pattern() == lowered(query@),
            q.filter() == filter_view(kind),
    {
        SearchQuery { lower: lowercase_text(query), kind }
    }

    /// Whether a tile of this kind passes the kind filter.
    pub fn admits(&self, kind: &TileKind) -> (passes: bool)
        ensures
            passes == admits_kind(self.filter(), kind@),
            passes <==> (self.filter() is None || self.filter() == Some(kind@)),
    {
        proof {
            lemma_kind_filter_exact(self.filter(), kind@);
        }
        match &self.kind {
            None => true,
            Some(k) => k.same_as(kind),
        }
    }

    /// The text score of a tile with this content and metadata.
    pub fn score_text(&self, content: &[u8], metadata: &[(String, String)]) -> (score: u128)
        ensures
            score == text_score(content@, metadata@, self.pattern()),
    {
        let pattern = self.lower.as_str().as_bytes();
        let mut score: u128 = 0;
        match decode_text(content) {
            Some(text) => {
                let lower = lowercase_text(text);
                let bytes = lower.as_str().as_bytes();
                if contains_bytes(bytes, pattern) {
                    score = 10;
                }
                let count = count_matches(bytes, pattern);
                score = score + count;
            },
            None => {},
        }
        let m = metadata.len();
        for i in 0..m
            invariant
                m == metadata@.len(),
                pattern@ == self.pattern(),
                score == content_score(content@, self.pattern()) + metadata_score(
                    metadata@.subrange(0, i as int),
                    self.pattern(),
                ),
                score <= 11 + usize::MAX + 5 * i,
        {
            assert(metadata@.subrange(0, i + 1).drop_last() =~= metadata@.subrange(0, i as int));
            let pair = &metadata[i];
            let value = lowercase_text(pair.1.as_str());
            let hit = if contains_bytes(value.as_str().as_bytes(), pattern) {
                true
            } else {
                let key = lowercase_text(pair.0.as_str());
                contains_bytes(key.as_str().as_bytes(), pattern)
            };
            if hit {
                score = score + 5;
            }
        }
        assert(metadata@.subrange(0, m as int) =~= metadata@);
        score
    }
}

/// Search does not tell the case of the query: two queries with the same
/// lowercase form give every tile the same score.
pub proof fn lemma_query_case_ignored(
    content: Seq<u8>,
    metadata: Seq<(String, String)>,
    query1: Seq<char>,
    query2: Seq<char>,
)
    requires
        lowercase(query1) == lowercase(query2),
    ensures
        text_score(content, metadata, lowered(query1)) == text_score(
            content,
            metadata,
            lowered(query2),
        ),
{
}

/// Search does not tell the case of the content: two contents with the same
/// lowercase text earn the same score.
pub proof fn lemma_content_case_ignored(content1: Seq<u8>, content2: Seq<u8>, pattern: Seq<u8>)
    requires
        valid_utf8(content1),
        valid_utf8(content2),
        lowercase(decode_utf8(content1)) == lowercase(decode_utf8(content2)),
    ensures
        content_score(content1, pattern) == content_score(content2, pattern),
{
}

/// Content that contains the query earns at least 10, so such a tile is
/// always a search candidate.
pub proof fn lemma_content_hit_scores(
    content: Seq<u8>,
    metadata: Seq<(String, String)>,
    pattern: Seq<u8>,
)
    requires
        valid_utf8(content),
        occurs_in(lowered(decode_utf8(content)), pattern),
    ensures
        text_score(content, metadata, pattern) >= 10,
{
    lemma_metadata_score_nonnegative(metadata, pattern);
}

/// A matching metadata pair earns at least 5, so such a tile is always a
/// search candidate.
pub proof fn lemma_metadata_hit_scores(
    content: Seq<u8>,
    metadata: Seq<(String, String)>,
    pattern: Seq<u8>,
    i: int,
)
    requires
        0 <= i < metadata.len(),
        pair_matches(metadata[i], pattern),
    ensures
        text_score(content, metadata, pattern) >= 5,
    decreases metadata.len(),
{
    if i == metadata.len() - 1 {
        lemma_metadata_score_nonnegative(metadata.drop_last(), pattern);
    } else {
        assert(metadata.drop_last()[i] == metadata[i]);
        lemma_metadata_hit_scores(content, metadata.drop_last(), pattern, i);
    }
}

/// Metadata never lowers a score.
proof fn lemma_metadata_score_nonnegative(metadata: Seq<(String, String)>, pattern: Seq<u8>)
    ensures
        metadata_score(metadata, pattern) >= 0,
    decreases metadata.len(),
{
    if metadata.len() > 0 {
        lemma_metadata_score_nonnegative(metadata.drop_last(), pattern);
    }
}

/// The kind filter lets a tile through exactly when there is no filter or the
/// tile's kind is the filter's kind (two unknown kinds only when their texts
/// are the same).
pub proof fn lemma_kind_filter_exact(filter: Option<KindView>, kind: KindView)
    ensures
        admits_kind(None, kind),
        admits_kind(filter, kind) <==> (filter is None || filter == Some(kind)),
        forall|a: Seq<char>, b: Seq<char>|
            admits_kind(Some(KindView::Unknown(a)), KindView::Unknown(b)) ==> a == b,
{
}

/// Each metadata pair adds 5 to the score when its lowercased value or its
/// lowercased key contains the pattern, and nothing otherwise; no metadata
/// adds nothing.
pub proof fn lemma_metadata_step(metadata: Seq<(String, String)>, pair: (String, String), pattern: Seq<u8>)
    ensures
        metadata_score(Seq::<(String, String)>::empty(), pattern) == 0,
        metadata_score(metadata.push(pair), pattern) == metadata_score(metadata, pattern) + if occurs_in(
            lowered(pair.1@),
            pattern,
        ) || occurs_in(lowered(pair.0@), pattern) {
            5int
        } else {
            0int
        },
{
    assert(metadata.push(pair).drop_last() =~= metadata);
}

/// A metadata pair whose lowercased key contains the pattern makes the tile
/// score at least 5.
pub proof fn lemma_key_hit_scores(content: Seq<u8>, metadata: Seq<(String, String)>, pattern: Seq<u8>, i: int)
    requires
        0 <= i < metadata.len(),
        occurs_in(lowered(metadata[i].0@), pattern),
    ensures
        text_score(content, metadata, pattern) >= 5,
{
    lemma_metadata_hit_scores(content, metadata, pattern, i);
}

/// A metadata pair whose lowercased value contains the pattern makes the
/// tile score at least 5.
pub proof fn lemma_value_hit_scores(content: Seq<u8>, metadata: Seq<(String, String)>, pattern: Seq<u8>, i: int)
    requires
        0 <= i < metadata.len(),
        occurs_in(lowered(metadata[i].1@), pattern),
    ensures
        text_score(content, metadata, pattern) >= 5,
{
    lemma_metadata_hit_scores(content, metadata, pattern, i);
}

/// Metadata earns at most 5 for each pair, and exactly 5 for each pair when
/// every pair matches.
pub proof fn lemma_metadata_score_bounds(metadata: Seq<(String, String)>, pattern: Seq<u8>)
    ensures
        0 <= metadata_score(metadata, pattern) <= 5 * metadata.len(),
        (forall|i: int| 0 <= i < metadata.len() ==> occurs_in(lowered(#[trigger] metadata[i].0@), pattern))
            ==> metadata_score(metadata, pattern) == 5 * metadata.len(),
    decreases metadata.len(),
{
    if metadata.len() > 0 {
        let pre = metadata.drop_last();
        lemma_metadata_score_bounds(pre, pattern);
        assert(metadata =~= pre.push(metadata.last()));
        lemma_metadata_step(pre, metadata.last(), pattern);
        if forall|i: int| 0 <= i < metadata.len() ==> occurs_in(lowered(#[trigger] metadata[i].0@), pattern) {
            assert forall|i: int| 0 <= i < pre.len() implies occurs_in(lowered(#[trigger] pre[i].0@), pattern) by {
                assert(pre[i] == metadata[i]);
            }
            assert(occurs_in(lowered(metadata[metadata.len() - 1].0@), pattern));
        }
    }
}

} // verus!
