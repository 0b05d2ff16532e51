//! Substring containment.

use vstd::prelude::*;
use vstd::string::*;
use vstd::utf8::*;
use crate::encoding::{lemma_encoding_of_concat, lemma_prefix_of_encoding};

verus! {

/// `needle` lies in `haystack` as a contiguous run that starts at index `at`.
pub open spec fn occurs_at<T>(needle: Seq<T>, haystack: Seq<T>, at: int) -> bool {
    &&& 0 <= at
    &&& at + needle.len() <= haystack.len()
    &&& haystack.subrange(at, at + needle.len()) == needle
}

/// `needle` lies somewhere in `haystack` as a contiguous run.
pub open spec fn occurs_in<T>(needle: Seq<T>, haystack: Seq<T>) -> bool {
    exists|at: int| occurs_at(needle, haystack, at)
}

/// The empty run occurs in every sequence.
pub proof fn lemma_empty_occurs<T>(haystack: Seq<T>)
    ensures
        occurs_in(Seq::<T>::empty(), haystack),
{
    assert(haystack.subrange(0, 0) =~= Seq::<T>::empty());
    assert(occurs_at(Seq::<T>::empty(), haystack, 0));
}

/// Nothing occurs in a sequence that is shorter than itself.
pub proof fn lemma_longer_never_occurs<T>(needle: Seq<T>, haystack: Seq<T>)
    requires
        needle.len() > haystack.len(),
    ensures
        !occurs_in(needle, haystack),
{
}

/// Every sequence occurs in itself.
pub proof fn lemma_occurs_in_itself<T>(text: Seq<T>)
    ensures
        occurs_in(text, text),
{
    assert(text.subrange(0, text.len() as int) =~= text);
    assert(occurs_at(text, text, 0));
}

/// Compares `needle` with the bytes of `haystack` that start at `at`.
fn bytes_match_at(haystack: &[u8], needle: &[u8], at: usize) -> (same: bool)
    requires
        at + needle@.len() <= haystack@.len(),
    ensures
        same == occurs_at(needle@, haystack@, at as int),
{
    let width: usize = needle.len();
    let total: usize = haystack.len();
    let mut k: usize = 0;
    while k < width
        invariant
            width == needle@.len(),
            total == haystack@.len(),
            k <= width,
            at + width <= total,
            forall|j: int| 0 <= j < k ==> haystack@[at + j] == needle@[j],
        decreases width - k,
    {
        if haystack[at + k] != needle[k] {
            assert(haystack@.subrange(at as int, at + width)[k as int] != needle@[k as int]);
            return false;
        }
        k += 1;
    }
    assert(haystack@.subrange(at as int, at + width) =~= needle@);
    true
}

/// Looks for `needle` at every position of `haystack` in turn.
fn bytes_contain(haystack: &[u8], needle: &[u8]) -> (found: bool)
    ensures
        found == occurs_in(needle@, haystack@),
{
    let width: usize = needle.len();
    let total: usize = haystack.len();
    if width > total {
        return false;
    }
    let last: usize = total - width;
    let mut at: usize = 0;
    while at < last
        invariant
            width == needle@.len(),
            total == haystack@.len(),
            last == total - width,
            at <= last,
            forall|j: int| 0 <= j < at ==> !occurs_at(needle@, haystack@, j),
        decreases last - at,
    {
        if bytes_match_at(haystack, needle, at) {
            return true;
        }
        at += 1;
    }
    bytes_match_at(haystack, needle, last)
}

/// A text occurs in another exactly when its bytes occur in the bytes of the
/// other.
pub proof fn lemma_occurrence_in_encoding(needle: Seq<char>, haystack: Seq<char>)
    ensures
        occurs_in(encode_utf8(needle), encode_utf8(haystack)) <==> occurs_in(needle, haystack),
{
    let needle_bytes = encode_utf8(needle);
    let bytes = encode_utf8(haystack);
    if occurs_in(needle, haystack) {
        let at = choose|at: int| occurs_at(needle, haystack, at);
        let before = haystack.take(at);
        let after = haystack.skip(at + needle.len());
        assert(haystack =~= before + needle + after);
        lemma_encoding_of_concat(before + needle, after);
        lemma_encoding_of_concat(before, needle);
        let start = encode_utf8(before).len() as int;
        assert(bytes.subrange(start, start + needle_bytes.len()) =~= needle_bytes);
        assert(occurs_at(needle_bytes, bytes, start));
    }
    if occurs_in(needle_bytes, bytes) {
        if needle.len() == 0 {
            assert(haystack.subrange(0, 0) =~= needle);
            assert(occurs_at(needle, haystack, 0));
        } else {
            let start = choose|start: int| occurs_at(needle_bytes, bytes, start);
            encode_utf8_first_scalar(needle);
            encode_utf8_valid_utf8(haystack);
            is_char_boundary_iff_not_is_continuation_byte(bytes, start);
            valid_utf8_split(bytes, start);
            decode_utf8_split(bytes, start);
            encode_utf8_decode_utf8(haystack);
            let tail_bytes = bytes.subrange(start, bytes.len() as int);
            let before = decode_utf8(bytes.subrange(0, start));
            let tail = decode_utf8(tail_bytes);
            decode_utf8_encode_utf8(tail_bytes);
            assert(tail_bytes.subrange(0, needle_bytes.len() as int) =~= bytes.subrange(
                start,
                start + needle_bytes.len(),
            ));
            lemma_prefix_of_encoding(needle, tail);
            let at = before.len() as int;
            assert(haystack.subrange(at, at + needle.len()) =~= tail.subrange(
                0,
                needle.len() as int,
            ));
            assert(occurs_at(needle, haystack, at));
        }
    }
}

/// Whether `needle` occurs in `haystack` as a contiguous run of characters.
///
/// The empty text occurs in every text.
pub fn contains(haystack: &str, needle: &str) -> (found: bool)
    ensures
        found == occurs_in(needle@, haystack@),
{
    proof {
        lemma_occurrence_in_encoding(needle@, haystack@);
    }
    bytes_contain(haystack.as_bytes(), needle.as_bytes())
}

} // verus!
