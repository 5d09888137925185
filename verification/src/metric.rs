//! Units of measure for addressing positions inside a chunk. A metric can
//! read its scalar out of a summary, translate a metric-relative offset into
//! a byte offset inside a chunk, and summarize the chunk up to that byte
//! offset. All metrics obey the same additive, boundary-preserving contract.

use vstd::prelude::*;

verus! {

use vstd::utf8::{
    valid_utf8, is_char_boundary, is_char_boundary_iff_not_is_continuation_byte,
    is_char_boundary_start_end_of_seq,
};
use crate::summary::{
    ChunkSummary, is_summary_of, count_chars, count_line_breaks, summarize_bytes,
    lemma_count_chars_concat, lemma_count_line_breaks_concat,
};
use crate::utf8_facts::{lemma_boundary_after_ascii, lemma_boundary_in_concat};

/// A unit of measure over chunk contents.
///
/// `measure_seq` is the measure of a byte sequence in this unit; it must add
/// over concatenation. `admissible` says at which offsets this metric can cut
/// a given chunk; it must carry over to whichever side of a seam the offset
/// falls in. `to_byte_offset` locates the smallest character boundary whose
/// prefix measures exactly the requested offset, and `up_to` produces the
/// summary of the chunk up to a byte offset found that way.
pub trait Metric: Sized {
    /// The measure of a byte sequence in this unit.
    spec fn measure_seq(s: Seq<u8>) -> nat;

    /// The scalar this metric reads out of a summary.
    spec fn measure_sum(sum: ChunkSummary) -> nat;

    /// Whether this metric can translate `offset` inside the bytes `s`.
    spec fn admissible(s: Seq<u8>, offset: int) -> bool;

    /// The scalar read from a faithful summary is the measure of the bytes.
    proof fn lemma_measure_agrees(sum: ChunkSummary, s: Seq<u8>)
        requires
            is_summary_of(sum, s),
        ensures
            Self::measure_sum(sum) == Self::measure_seq(s),
    ;

    /// The measure adds over concatenation.
    proof fn lemma_measure_concat(a: Seq<u8>, b: Seq<u8>)
        ensures
            Self::measure_seq(a + b) == Self::measure_seq(a) + Self::measure_seq(b),
    ;

    /// An offset admissible in a concatenation and not past the first part's
    /// measure is admissible in the first part.
    proof fn lemma_admissible_left(a: Seq<u8>, b: Seq<u8>, offset: int)
        requires
            valid_utf8(a),
            valid_utf8(b),
            Self::admissible(a + b, offset),
            0 <= offset <= Self::measure_seq(a),
        ensures
            Self::admissible(a, offset),
    ;

    /// An offset admissible in a concatenation and past the first part's
    /// measure is admissible in the second part, shifted by that measure.
    proof fn lemma_admissible_right(a: Seq<u8>, b: Seq<u8>, offset: int)
        requires
            valid_utf8(a),
            valid_utf8(b),
            Self::admissible(a + b, offset),
            Self::measure_seq(a) < offset <= Self::measure_seq(a) + Self::measure_seq(b),
        ensures
            Self::admissible(b, offset - Self::measure_seq(a)),
    ;

    /// Reads this metric's scalar out of a summary.
    fn measure(sum: &ChunkSummary) -> (r: usize)
        ensures
            r == Self::measure_sum(*sum),
    ;

    /// Translates a metric-relative offset into a byte offset inside `chunk`:
    /// the smallest character boundary whose prefix measures `offset`.
    fn to_byte_offset(chunk: &[u8], offset: usize) -> (r: usize)
        requires
            valid_utf8(chunk@),
            offset <= Self::measure_seq(chunk@),
            Self::admissible(chunk@, offset as int),
        ensures
            r <= chunk@.len(),
            is_char_boundary(chunk@, r as int),
            Self::measure_seq(chunk@.subrange(0, r as int)) == offset,
            forall|j: int|
                0 <= j < r && is_char_boundary(chunk@, j) ==> Self::measure_seq(
                    chunk@.subrange(0, j),
                ) < offset,
    ;

    /// The summary of `chunk` truncated at `byte_offset`, consistent with the
    /// metric-relative `offset` that produced it.
    fn up_to(chunk: &[u8], summary: &ChunkSummary, offset: usize, byte_offset: usize) -> (r:
        ChunkSummary)
        requires
            valid_utf8(chunk@),
            is_summary_of(*summary, chunk@),
            byte_offset <= chunk@.len(),
            Self::measure_seq(chunk@.subrange(0, byte_offset as int)) == offset,
        ensures
            is_summary_of(r, chunk@.subrange(0, byte_offset as int)),
    ;
}

/// The byte metric: positions are raw byte offsets. An offset is admissible
/// only where it falls on a character boundary; it is never silently moved.
pub struct ByteMetric;

impl Metric for ByteMetric {
    open spec fn measure_seq(s: Seq<u8>) -> nat {
        s.len()
    }

    open spec fn measure_sum(sum: ChunkSummary) -> nat {
        sum.bytes as nat
    }

    open spec fn admissible(s: Seq<u8>, offset: int) -> bool {
        is_char_boundary(s, offset)
    }

    proof fn lemma_measure_agrees(sum: ChunkSummary, s: Seq<u8>) {
    }

    proof fn lemma_measure_concat(a: Seq<u8>, b: Seq<u8>) {
    }

    proof fn lemma_admissible_left(a: Seq<u8>, b: Seq<u8>, offset: int) {
        lemma_boundary_in_concat(a, b, offset);
    }

    proof fn lemma_admissible_right(a: Seq<u8>, b: Seq<u8>, offset: int) {
        lemma_boundary_in_concat(a, b, offset);
    }

    fn measure(sum: &ChunkSummary) -> (r: usize) {
        sum.bytes
    }

    fn to_byte_offset(chunk: &[u8], offset: usize) -> (r: usize) {
        proof {
            assert(chunk@.subrange(0, offset as int).len() == offset);
            assert(forall|j: int| 0 <= j < offset ==> chunk@.subrange(0, j).len() == j);
        }
        offset
    }

    fn up_to(chunk: &[u8], summary: &ChunkSummary, offset: usize, byte_offset: usize) -> (r:
        ChunkSummary) {
        summarize_bytes(vstd::slice::slice_subrange(chunk, 0, byte_offset))
    }
}

/// Splitting at the full byte measure mirrors splitting at offset zero: a
/// split outcome whose left part carries the whole byte measure has an empty
/// right part and a left part equal to the original live text.
pub proof fn lemma_byte_split_at_full_is_mirror(c: Seq<u8>, lc: Seq<u8>, rc: Seq<u8>)
    requires
        lc + rc == c,
        ByteMetric::measure_seq(lc) == ByteMetric::measure_seq(c),
    ensures
        rc == Seq::<u8>::empty(),
        lc == c,
{
    assert(rc =~= Seq::<u8>::empty());
    assert(lc + rc =~= lc);
}

/// The line metric: positions count line feed bytes, so offset `n` addresses
/// the start of the text that follows the `n`-th line break.
pub struct RawLineMetric;

impl Metric for RawLineMetric {
    open spec fn measure_seq(s: Seq<u8>) -> nat {
        count_line_breaks(s)
    }

    open spec fn measure_sum(sum: ChunkSummary) -> nat {
        sum.line_breaks as nat
    }

    open spec fn admissible(s: Seq<u8>, offset: int) -> bool {
        true
    }

    proof fn lemma_measure_agrees(sum: ChunkSummary, s: Seq<u8>) {
    }

    proof fn lemma_measure_concat(a: Seq<u8>, b: Seq<u8>) {
        lemma_count_line_breaks_concat(a, b);
    }

    proof fn lemma_admissible_left(a: Seq<u8>, b: Seq<u8>, offset: int) {
    }

    proof fn lemma_admissible_right(a: Seq<u8>, b: Seq<u8>, offset: int) {
    }

    fn measure(sum: &ChunkSummary) -> (r: usize) {
        sum.line_breaks
    }

    fn to_byte_offset(chunk: &[u8], offset: usize) -> (r: usize) {
        if offset == 0 {
            proof {
                assert(chunk@.subrange(0, 0).len() == 0);
                assert(count_line_breaks(chunk@.subrange(0, 0)) == 0);
            }
            return 0;
        }
        let n: usize = chunk.len();
        let mut i: usize = 0;
        let mut c: usize = 0;
        while i < n
            invariant
                i <= n,
                n == chunk@.len(),
                valid_utf8(chunk@),
                offset <= count_line_breaks(chunk@),
                c == count_line_breaks(chunk@.subrange(0, i as int)),
                c < offset,
                forall|j: int| 0 <= j <= i ==> count_line_breaks(chunk@.subrange(0, j)) <= c,
            decreases n - i,
        {
            let b: u8 = *vstd::slice::slice_index_get(chunk, i);
            proof {
                assert(chunk@.subrange(0, i + 1 as int).drop_last() =~= chunk@.subrange(
                    0,
                    i as int,
                ));
                assert(chunk@.subrange(0, i + 1 as int).last() == chunk@[i as int]);
            }
            if b == 10 {
                if c + 1 == offset {
                    proof {
                        lemma_boundary_after_ascii(chunk@, i as int);
                        assert(count_line_breaks(chunk@.subrange(0, i + 1 as int)) == offset);
                    }
                    return i + 1;
                }
                c = c + 1;
            }
            i = i + 1;
        }
        proof {
            assert(chunk@.subrange(0, n as int) =~= chunk@);
            assert(false);
        }
        0
    }

    fn up_to(chunk: &[u8], summary: &ChunkSummary, offset: usize, byte_offset: usize) -> (r:
        ChunkSummary) {
        summarize_bytes(vstd::slice::slice_subrange(chunk, 0, byte_offset))
    }
}

/// The codepoint metric: positions count whole characters, so offset `n`
/// addresses the byte where the `n`-th codepoint ends and the next begins.
pub struct CharMetric;

impl Metric for CharMetric {
    open spec fn measure_seq(s: Seq<u8>) -> nat {
        count_chars(s)
    }

    open spec fn measure_sum(sum: ChunkSummary) -> nat {
        sum.chars as nat
    }

    open spec fn admissible(s: Seq<u8>, offset: int) -> bool {
        true
    }

    proof fn lemma_measure_agrees(sum: ChunkSummary, s: Seq<u8>) {
    }

    proof fn lemma_measure_concat(a: Seq<u8>, b: Seq<u8>) {
        lemma_count_chars_concat(a, b);
    }

    proof fn lemma_admissible_left(a: Seq<u8>, b: Seq<u8>, offset: int) {
    }

    proof fn lemma_admissible_right(a: Seq<u8>, b: Seq<u8>, offset: int) {
    }

    fn measure(sum: &ChunkSummary) -> (r: usize) {
        sum.chars
    }

    fn to_byte_offset(chunk: &[u8], offset: usize) -> (r: usize) {
        let n: usize = chunk.len();
        let mut i: usize = 0;
        let mut c: usize = 0;
        while i < n
            invariant
                i <= n,
                n == chunk@.len(),
                valid_utf8(chunk@),
                offset <= count_chars(chunk@),
                c == count_chars(chunk@.subrange(0, i as int)),
                c <= offset,
                forall|j: int|
                    0 <= j < i && is_char_boundary(chunk@, j) ==> count_chars(
                        chunk@.subrange(0, j),
                    ) < offset,
            decreases n - i,
        {
            let b: u8 = *vstd::slice::slice_index_get(chunk, i);
            proof {
                is_char_boundary_iff_not_is_continuation_byte(chunk@, i as int);
                assert(chunk@.subrange(0, i + 1 as int).drop_last() =~= chunk@.subrange(
                    0,
                    i as int,
                ));
                assert(chunk@.subrange(0, i + 1 as int).last() == chunk@[i as int]);
            }
            if !(0x80 <= b && b <= 0xbf) {
                if c == offset {
                    return i;
                }
                c = c + 1;
            }
            i = i + 1;
        }
        proof {
            assert(chunk@.subrange(0, n as int) =~= chunk@);
            is_char_boundary_start_end_of_seq(chunk@);
        }
        n
    }

    fn up_to(chunk: &[u8], summary: &ChunkSummary, offset: usize, byte_offset: usize) -> (r:
        ChunkSummary) {
        summarize_bytes(vstd::slice::slice_subrange(chunk, 0, byte_offset))
    }
}

} // verus!
