//! Case-folded text and byte-level substring matching.
//!
//! Text is matched on its UTF-8 bytes. For valid UTF-8 text and pattern this
//! is the same as matching the characters: a match of a non-empty pattern
//! always starts and ends on a character boundary.

use vstd::prelude::*;
use vstd::utf8::{decode_utf8, encode_utf8, is_continuation_byte, valid_utf8};
use sha2::Digest;

verus! {

/// What `str::to_lowercase` returns for a sequence of characters (the
/// Unicode lowercase mapping).
pub uninterp spec fn lowercase(s: Seq<char>) -> Seq<char>;

/// What `sha2::Sha256` digests the given bytes to.
pub uninterp spec fn sha256_digest(data: Seq<u8>) -> Seq<u8>;

/// Calls `str::to_lowercase`. The contract names its result and claims
/// nothing more of it.
#[verifier::external_body]
fn to_lowercase(s: &str) -> (lower: String)
    ensures
        lower@ == lowercase(s@),
{
    s.to_lowercase()
}

/// Calls `std::str::from_utf8`. The contract claims that text comes back
/// exactly when the bytes are valid UTF-8, and that the text is then the
/// decoding of the bytes.
#[verifier::external_body]
fn utf8_text(bytes: &[u8]) -> (text: Option<&str>)
    ensures
        text is Some <==> valid_utf8(bytes@),
        text matches Some(t) ==> t@ == decode_utf8(bytes@),
{
    std::str::from_utf8(bytes).ok()
}

/// Calls `sha2::Sha256::digest`. The contract names its result and claims
/// that it is 32 bytes long (the output size of `Sha256`).
#[verifier::external_body]
fn sha256(data: &[u8]) -> (digest: Vec<u8>)
    ensures
        digest@ == sha256_digest(data@),
        digest@.len() == 32,
{
    sha2::Sha256::digest(data).to_vec()
}

/// The UTF-8 bytes of the lowercase form of a text.
pub open spec fn lowered(s: Seq<char>) -> Seq<u8> {
    encode_utf8(lowercase(s))
}

/// The lowercase form of a text, as text.
pub fn lowercase_text(s: &str) -> (lower: String)
    ensures
        lower@ == lowercase(s@),
{
    to_lowercase(s)
}

/// The text held by the given bytes, when they are valid UTF-8.
pub fn decode_text(bytes: &[u8]) -> (text: Option<&str>)
    ensures
        text is Some <==> valid_utf8(bytes@),
        text matches Some(t) ==> t@ == decode_utf8(bytes@),
{
    utf8_text(bytes)
}

/// The hash under which search matches content: the SHA-256 digest of the
/// UTF-8 bytes of the lowercase text.
pub fn content_hash(content: &str) -> (hash: Vec<u8>)
    ensures
        hash@ == sha256_digest(lowered(content@)),
        hash@.len() == 32,
{
    let lower = to_lowercase(content);
    sha256(lower.as_str().as_bytes())
}

/// `pattern` occurs in `text` at position `i`.
pub open spec fn occurs_at(text: Seq<u8>, pattern: Seq<u8>, i: int) -> bool {
    0 <= i && i + pattern.len() <= text.len() && text.subrange(i, i + pattern.len()) == pattern
}

/// `pattern` occurs somewhere in `text` (the empty pattern always does).
pub open spec fn occurs_in(text: Seq<u8>, pattern: Seq<u8>) -> bool {
    exists|i: int| occurs_at(text, pattern, i)
}

/// The number of non-overlapping occurrences of a non-empty `pattern` in
/// `text` from position `i` on, found from left to right.
pub open spec fn matches_from(text: Seq<u8>, pattern: Seq<u8>, i: int) -> nat
    decreases text.len() - i,
{
    if pattern.len() == 0 || i < 0 || i + pattern.len() > text.len() {
        0
    } else if occurs_at(text, pattern, i) {
        1 + matches_from(text, pattern, i + pattern.len())
    } else {
        matches_from(text, pattern, i + 1)
    }
}

/// The number of bytes of `text` that start a character.
pub open spec fn leading_bytes(text: Seq<u8>) -> nat
    decreases text.len(),
{
    if text.len() == 0 {
        0
    } else {
        leading_bytes(text.drop_last()) + if is_continuation_byte(text.last()) {
            0nat
        } else {
            1nat
        }
    }
}

/// The number of matches that `str::matches` yields: for a non-empty pattern
/// its non-overlapping occurrences from left to right, for the empty pattern
/// one match at each character boundary (the end of the text included).
pub open spec fn match_count(text: Seq<u8>, pattern: Seq<u8>) -> nat {
    if pattern.len() == 0 {
        leading_bytes(text) + 1
    } else {
        matches_from(text, pattern, 0)
    }
}

/// Whether `pattern` occurs in `text` at position `i`.
fn occurs_at_exec(text: &[u8], pattern: &[u8], i: usize) -> (found: bool)
    requires
        i + pattern@.len() <= text@.len(),
    ensures
        found == occurs_at(text@, pattern@, i as int),
{
    let m = pattern.len();
    let n = text.len();
    for j in 0..m
        invariant
            m == pattern@.len(),
            n == text@.len(),
            i + m <= n,
            forall|k: int| 0 <= k < j ==> text@[i + k] == pattern@[k],
    {
        if text[i + j] != pattern[j] {
            assert(text@.subrange(i as int, i + m)[j as int] != pattern@[j as int]);
            return false;
        }
    }
    assert(text@.subrange(i as int, i + m) =~= pattern@);
    true
}

/// Whether `pattern` occurs in `text`.
pub fn contains_bytes(text: &[u8], pattern: &[u8]) -> (found: bool)
    ensures
        found == occurs_in(text@, pattern@),
{
    let n = text.len();
    let m = pattern.len();
    if m > n {
        return false;
    }
    if m == 0 {
        assert(text@.subrange(0, 0) =~= pattern@);
        assert(occurs_at(text@, pattern@, 0));
        return true;
    }
    let mut i: usize = 0;
    while i <= n - m
        invariant
            n == text@.len(),
            m == pattern@.len(),
            0 < m <= n,
            i <= n - m + 1,
            forall|j: int| 0 <= j < i ==> !occurs_at(text@, pattern@, j),
        decreases n - m + 1 - i,
    {
        if occurs_at_exec(text, pattern, i) {
            return true;
        }
        i = i + 1;
    }
    assert forall|j: int| !occurs_at(text@, pattern@, j) by {
        if 0 <= j < i {
        }
    }
    false
}

/// How many matches of `pattern` `str::matches` finds in `text`.
pub fn count_matches(text: &[u8], pattern: &[u8]) -> (count: u128)
    ensures
        count == match_count(text@, pattern@),
        count <= text@.len() + 1,
        count <= usize::MAX + 1,
{
    let n = text.len();
    let m = pattern.len();
    if m == 0 {
        let mut count: u128 = 1;
        for i in 0..n
            invariant
                n == text@.len(),
                count == leading_bytes(text@.subrange(0, i as int)) + 1,
                count <= i + 1,
        {
            assert(text@.subrange(0, i + 1).drop_last() =~= text@.subrange(0, i as int));
            let b = text[i];
            if !(0x80u8 <= b && b <= 0xbfu8) {
                count = count + 1;
            }
        }
        assert(text@.subrange(0, n as int) =~= text@);
        count
    } else {
        let mut i: usize = 0;
        let mut count: u128 = 0;
        while m <= n - i
            invariant
                n == text@.len(),
                m == pattern@.len(),
                m > 0,
                i <= n,
                count + matches_from(text@, pattern@, i as int) == matches_from(text@, pattern@, 0),
                count <= i,
            decreases n - i,
        {
            if occurs_at_exec(text, pattern, i) {
                count = count + 1;
                i = i + m;
            } else {
                i = i + 1;
            }
        }
        count
    }
}

/// Matches counted from position `i` never overlap, and there is one exactly
/// when the pattern occurs at `i` or later.
proof fn lemma_matches_from_bounds(text: Seq<u8>, pattern: Seq<u8>, i: int)
    requires
        pattern.len() > 0,
        0 <= i <= text.len(),
    ensures
        matches_from(text, pattern, i) * pattern.len() <= text.len() - i,
        matches_from(text, pattern, i) >= 1 <==> exists|j: int| i <= j && occurs_at(text, pattern, j),
    decreases text.len() - i,
{
    if i + pattern.len() > text.len() {
        assert forall|j: int| i <= j implies !occurs_at(text, pattern, j) by {}
        assert(0 * pattern.len() == 0);
    } else if occurs_at(text, pattern, i) {
        lemma_matches_from_bounds(text, pattern, i + pattern.len());
        let rest = matches_from(text, pattern, i + pattern.len());
        assert((1 + rest) * pattern.len() == pattern.len() + rest * pattern.len()) by (nonlinear_arith);
    } else {
        lemma_matches_from_bounds(text, pattern, i + 1);
        assert(matches_from(text, pattern, i) == matches_from(text, pattern, i + 1));
        if exists|j: int| i <= j && occurs_at(text, pattern, j) {
            let j = choose|j: int| i <= j && occurs_at(text, pattern, j);
            assert(i + 1 <= j);
        }
    }
}

/// For a non-empty pattern the matches that are counted never overlap, so
/// they take no more bytes than the text has, and there is at least one
/// exactly when the pattern occurs in the text. The empty pattern matches
/// once more than the text has characters.
pub proof fn lemma_match_count_bounds(text: Seq<u8>, pattern: Seq<u8>)
    ensures
        pattern.len() > 0 ==> match_count(text, pattern) * pattern.len() <= text.len(),
        pattern.len() > 0 ==> (match_count(text, pattern) >= 1 <==> occurs_in(text, pattern)),
        pattern.len() == 0 ==> match_count(text, pattern) >= 1,
{
    if pattern.len() > 0 {
        lemma_matches_from_bounds(text, pattern, 0);
        if occurs_in(text, pattern) {
            let j = choose|j: int| occurs_at(text, pattern, j);
            assert(0 <= j && occurs_at(text, pattern, j));
        }
    }
}

} // verus!
