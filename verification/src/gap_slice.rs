//! The gap-buffered chunk slice: an immutable view over a gap buffer's
//! backing bytes, holding up to two live UTF-8 segments separated by an
//! unused gap, together with a cached summary of the left segment.

use vstd::prelude::*;

verus! {

use vstd::slice::{slice_index_get, slice_subrange};
use vstd::utf8::{
    valid_utf8, is_char_boundary, is_continuation_byte, length_of_last_scalar,
    take_last_scalar, valid_utf8_split, valid_utf8_concat, is_char_boundary_start_end_of_seq,
    is_char_boundary_iff_not_is_continuation_byte,
};
use crate::summary::{
    ChunkSummary, is_summary_of, count_chars, count_line_breaks, summarize_bytes,
    lemma_count_chars_concat, lemma_count_line_breaks_concat, lemma_counts_le_len,
    lemma_summary_of_concat,
};
use crate::metric::Metric;
use crate::utf8_facts::{lemma_last_scalar, lemma_last_scalar_concat, lemma_boundary_in_concat};

/// A read-only slice of a gap buffer: `bytes` is the backing span, of which
/// the first `left_summary.bytes` bytes and the last `len_right` bytes are
/// live UTF-8 text, with the unused gap in between.
#[derive(Clone, Copy)]
pub struct GapSlice<'a> {
    pub bytes: &'a [u8],
    pub left_summary: ChunkSummary,
    pub len_right: u16,
}

/// The backing span is a real slice, so its length fits in `usize`.
proof fn lemma_backing_fits(s: &[u8])
    ensures
        s@.len() <= usize::MAX,
{
    broadcast use vstd::slice::axiom_spec_len;

    assert(vstd::slice::spec_slice_len(s) <= usize::MAX);
}

impl<'a> GapSlice<'a> {
    /// Byte length of the left live segment.
    pub open spec fn len_left_spec(self) -> int {
        self.left_summary.bytes as int
    }

    /// Byte length of the right live segment.
    pub open spec fn len_right_spec(self) -> int {
        self.len_right as int
    }

    /// Combined byte length of the live text.
    pub open spec fn len_spec(self) -> int {
        self.len_left_spec() + self.len_right_spec()
    }

    /// Byte width of the unused gap between the two live segments.
    pub open spec fn len_gap_spec(self) -> int {
        self.bytes@.len() - self.len_spec()
    }

    /// The left live segment.
    pub open spec fn left_seg(self) -> Seq<u8> {
        self.bytes@.subrange(0, self.len_left_spec())
    }

    /// The right live segment.
    pub open spec fn right_seg(self) -> Seq<u8> {
        self.bytes@.subrange(self.bytes@.len() - self.len_right_spec(), self.bytes@.len() as int)
    }

    /// The live text: both segments laid end to end, the gap skipped.
    pub open spec fn content(self) -> Seq<u8> {
        self.left_seg() + self.right_seg()
    }

    /// Well-formedness: the live segments fit in the backing span and are
    /// valid UTF-8 on their own, the cached summary describes the left
    /// segment exactly, and a slice with a single live segment has no gap
    /// (the segment spans the whole backing span).
    pub open spec fn wf(self) -> bool {
        &&& self.len_spec() <= self.bytes@.len()
        &&& is_summary_of(self.left_summary, self.left_seg())
        &&& valid_utf8(self.left_seg())
        &&& valid_utf8(self.right_seg())
        &&& (self.len_right_spec() == 0 ==> self.len_left_spec() == self.bytes@.len())
        &&& (self.len_left_spec() == 0 ==> self.len_right_spec() == self.bytes@.len())
    }

    /// The live text of a well-formed slice is valid UTF-8, its length is the
    /// slice's length, and the seam between the segments is a character
    /// boundary.
    pub proof fn lemma_wf_content(self)
        requires
            self.wf(),
        ensures
            valid_utf8(self.content()),
            self.content().len() == self.len_spec(),
            is_char_boundary(self.content(), self.len_left_spec()),
    {
        valid_utf8_concat(self.left_seg(), self.right_seg());
        lemma_boundary_in_concat(self.left_seg(), self.right_seg(), self.len_left_spec());
        is_char_boundary_start_end_of_seq(self.left_seg());
    }

    /// Byte length of the live text.
    pub fn len(&self) -> (r: usize)
        requires
            self.wf(),
        ensures
            r == self.len_spec(),
    {
        proof {
            lemma_backing_fits(self.bytes);
        }
        self.left_summary.bytes + self.len_right as usize
    }

    /// Byte length of the left live segment.
    pub fn len_left(&self) -> (r: usize)
        ensures
            r == self.len_left_spec(),
    {
        self.left_summary.bytes
    }

    /// Byte length of the right live segment.
    pub fn len_right(&self) -> (r: usize)
        ensures
            r == self.len_right_spec(),
    {
        self.len_right as usize
    }

    /// Byte width of the gap.
    pub fn len_gap(&self) -> (r: usize)
        requires
            self.wf(),
        ensures
            r == self.len_gap_spec(),
    {
        self.bytes.len() - self.len()
    }

    /// The left live segment as a byte slice.
    pub fn left_chunk(&self) -> (r: &'a [u8])
        requires
            self.wf(),
        ensures
            r@ == self.left_seg(),
    {
        slice_subrange(self.bytes, 0, self.left_summary.bytes)
    }

    /// The right live segment as a byte slice.
    pub fn right_chunk(&self) -> (r: &'a [u8])
        requires
            self.wf(),
        ensures
            r@ == self.right_seg(),
    {
        slice_subrange(self.bytes, self.bytes.len() - self.len_right as usize, self.bytes.len())
    }

    /// The second segment if it is not empty, or the first one otherwise:
    /// the segment holding the logically-last byte.
    pub fn last_chunk(&self) -> (r: &'a [u8])
        requires
            self.wf(),
        ensures
            r@ == (if self.len_right_spec() == 0 {
                self.left_seg()
            } else {
                self.right_seg()
            }),
            valid_utf8(r@),
            self.len_spec() > 0 ==> r@.len() > 0,
    {
        if self.len_right == 0 {
            self.left_chunk()
        } else {
            self.right_chunk()
        }
    }

    /// The byte at logical index `i` of the live text.
    pub fn byte(&self, byte_index: usize) -> (r: u8)
        requires
            self.wf(),
            byte_index < self.len_spec(),
        ensures
            r == self.content()[byte_index as int],
    {
        if byte_index < self.left_summary.bytes {
            *slice_index_get(self.bytes, byte_index)
        } else {
            let i: usize = self.bytes.len() - self.len_right as usize + (byte_index
                - self.left_summary.bytes);
            *slice_index_get(self.bytes, i)
        }
    }

    /// Recomputes the right segment's summary from scratch.
    pub fn summarize_right_chunk(&self) -> (r: ChunkSummary)
        requires
            self.wf(),
        ensures
            is_summary_of(r, self.right_seg()),
    {
        summarize_bytes(self.right_chunk())
    }

    /// The summary of the whole live text: the cached left summary plus a
    /// scan of the right segment.
    pub fn summarize(&self) -> (r: ChunkSummary)
        requires
            self.wf(),
        ensures
            is_summary_of(r, self.content()),
    {
        let right = self.summarize_right_chunk();
        proof {
            lemma_summary_of_concat(self.left_summary, right, self.left_seg(), self.right_seg());
            lemma_counts_le_len(self.left_seg());
            lemma_counts_le_len(self.right_seg());
            lemma_backing_fits(self.bytes);
        }
        self.left_summary.add(right)
    }

    /// The summary of the right segment, derived from a caller-supplied
    /// summary of the whole live text.
    pub fn right_summary(&self, summary: ChunkSummary) -> (r: ChunkSummary)
        requires
            self.wf(),
            is_summary_of(summary, self.content()),
        ensures
            is_summary_of(r, self.right_seg()),
    {
        proof {
            lemma_count_chars_concat(self.left_seg(), self.right_seg());
            lemma_count_line_breaks_concat(self.left_seg(), self.right_seg());
        }
        summary.sub(self.left_summary)
    }

    /// This metric's scalar of the cached left summary.
    pub fn left_measure<M: Metric>(&self) -> (r: usize)
        ensures
            r == M::measure_sum(self.left_summary),
    {
        M::measure(&self.left_summary)
    }

    /// True exactly when `byte_offset` falls on a character boundary of the
    /// live text; the seam between the segments always is one.
    pub fn is_char_boundary(&self, byte_offset: usize) -> (r: bool)
        requires
            self.wf(),
            byte_offset <= self.len_spec(),
        ensures
            r == is_char_boundary(self.content(), byte_offset as int),
    {
        proof {
            self.lemma_wf_content();
            lemma_backing_fits(self.bytes);
        }
        if byte_offset == self.left_summary.bytes + self.len_right as usize {
            proof {
                is_char_boundary_start_end_of_seq(self.content());
            }
            true
        } else {
            let b: u8 = self.byte(byte_offset);
            proof {
                is_char_boundary_iff_not_is_continuation_byte(self.content(), byte_offset as int);
            }
            !(0x80 <= b && b <= 0xbf)
        }
    }

    /// Splits the backing bytes at a logical byte offset, mapping it through
    /// the gap: cutting exactly at the seam drops the gap and returns the
    /// two live segments directly.
    fn split_bytes(&self, byte_offset: usize) -> (r: (&'a [u8], &'a [u8]))
        requires
            self.wf(),
            byte_offset <= self.len_spec(),
        ensures
            byte_offset < self.len_left_spec() ==> r.0@ == self.bytes@.subrange(
                0,
                byte_offset as int,
            ) && r.1@ == self.bytes@.subrange(byte_offset as int, self.bytes@.len() as int),
            byte_offset == self.len_left_spec() ==> r.0@ == self.left_seg() && r.1@
                == self.right_seg(),
            byte_offset > self.len_left_spec() ==> r.0@ == self.bytes@.subrange(
                0,
                byte_offset + self.len_gap_spec(),
            ) && r.1@ == self.bytes@.subrange(
                byte_offset + self.len_gap_spec(),
                self.bytes@.len() as int,
            ),
    {
        let ll: usize = self.left_summary.bytes;
        if byte_offset < ll {
            (
                slice_subrange(self.bytes, 0, byte_offset),
                slice_subrange(self.bytes, byte_offset, self.bytes.len()),
            )
        } else if byte_offset > ll {
            proof {
                lemma_backing_fits(self.bytes);
            }
            let off: usize = byte_offset + self.len_gap();
            (
                slice_subrange(self.bytes, 0, off),
                slice_subrange(self.bytes, off, self.bytes.len()),
            )
        } else {
            (self.left_chunk(), self.right_chunk())
        }
    }

    /// Splits the slice at an offset expressed in metric `M`, returning the
    /// left and right slices with their summaries.
    ///
    /// The two results partition the live text in order, their summaries sum
    /// component-wise to the given summary, the left result measures exactly
    /// `offset` in `M`, and each result keeps at most one non-empty segment.
    #[verifier::rlimit(80)]
    #[verifier::spinoff_prover]
    pub fn split_at_offset<M: Metric>(&self, offset: usize, summary: ChunkSummary) -> (r: (
        (GapSlice<'a>, ChunkSummary),
        (GapSlice<'a>, ChunkSummary),
    ))
        requires
            self.wf(),
            is_summary_of(summary, self.content()),
            offset <= M::measure_seq(self.content()),
            M::admissible(self.content(), offset as int),
        ensures
            ({
                let ((left, left_sum), (right, right_sum)) = r;
                &&& left.wf()
                &&& right.wf()
                &&& left.content() + right.content() == self.content()
                &&& is_summary_of(left_sum, left.content())
                &&& is_summary_of(right_sum, right.content())
                &&& M::measure_seq(left.content()) == offset
                &&& M::measure_seq(right.content()) == M::measure_seq(self.content()) - offset
                &&& left_sum.bytes + right_sum.bytes == summary.bytes
                &&& left_sum.chars + right_sum.chars == summary.chars
                &&& left_sum.line_breaks + right_sum.line_breaks == summary.line_breaks
                &&& (offset == 0 ==> left.content() == Seq::<u8>::empty() && right.content()
                    == self.content())
                &&& (forall|j: int|
                    0 <= j < left.content().len() && is_char_boundary(self.content(), j)
                        ==> M::measure_seq(self.content().subrange(0, j)) < offset)
            }),
    {
        let ghost c = self.content();
        let ghost lseg = self.left_seg();
        let ghost rseg = self.right_seg();
        proof {
            lemma_backing_fits(self.bytes);
            M::lemma_measure_agrees(self.left_summary, lseg);
            M::lemma_measure_concat(lseg, rseg);
        }
        let lm: usize = self.left_measure::<M>();
        if offset <= lm {
            proof {
                M::lemma_admissible_left(lseg, rseg, offset as int);
            }
            let lc = self.left_chunk();
            let byte_offset = M::to_byte_offset(lc, offset);
            let ghost b = byte_offset as int;
            let ghost lpre = lseg.subrange(0, b);
            let ghost lsuf = lseg.subrange(b, lseg.len() as int);
            proof {
                assert(lpre + lsuf =~= lseg);
                lemma_count_chars_concat(lpre, lsuf);
                lemma_count_line_breaks_concat(lpre, lsuf);
                valid_utf8_split(lseg, b);
            }
            let (bytes_left, bytes_right) = self.split_bytes(byte_offset);
            let left_left_summary = M::up_to(lc, &self.left_summary, offset, byte_offset);
            let left = GapSlice {
                bytes: bytes_left,
                left_summary: left_left_summary,
                len_right: 0u16,
            };
            let right = GapSlice {
                bytes: bytes_right,
                left_summary: self.left_summary.sub(left_left_summary),
                len_right: self.len_right,
            };
            proof {
                // The left result's single segment is the prefix cut from the
                // left segment; the right result keeps the remainder of the
                // left segment plus the untouched right segment.
                assert(left.left_seg() =~= lpre);
                assert(left.right_seg() =~= Seq::<u8>::empty());
                assert(valid_utf8(Seq::<u8>::empty()));
                assert(left.content() =~= lpre);
                if byte_offset < self.left_summary.bytes {
                    assert(right.left_seg() =~= lsuf);
                    assert(right.right_seg() =~= rseg);
                } else {
                    assert(lsuf =~= Seq::<u8>::empty());
                    assert(right.left_seg() =~= lsuf);
                    assert(right.right_seg() =~= rseg);
                }
                assert(right.content() =~= lsuf + rseg);
                assert(left.content() + right.content() =~= c);
                // Counts of the whole split into the three pieces.
                lemma_count_chars_concat(lsuf, rseg);
                lemma_count_line_breaks_concat(lsuf, rseg);
                lemma_count_chars_concat(lpre, lsuf + rseg);
                lemma_count_line_breaks_concat(lpre, lsuf + rseg);
                assert(c =~= lpre + (lsuf + rseg));
                // The left result measures exactly `offset`.
                assert(M::measure_seq(left.content()) == offset);
                M::lemma_measure_concat(left.content(), right.content());
                // No earlier boundary already measures `offset`: the cut is
                // the smallest boundary that does.
                assert forall|j: int| 0 <= j < left.content().len() && is_char_boundary(c, j)
                    implies M::measure_seq(c.subrange(0, j)) < offset by {
                    lemma_boundary_in_concat(lseg, rseg, j);
                    assert(c.subrange(0, j) =~= lseg.subrange(0, j));
                }
                if offset == 0 {
                    // A positive cut would put the boundary at zero below
                    // it, whose empty prefix cannot measure less than zero:
                    // so the cut is at zero and nothing moves left.
                    if b > 0 {
                        assert(is_char_boundary(lseg, 0));
                        assert(M::measure_seq(lseg.subrange(0, 0)) < 0);
                    }
                    assert(b == 0);
                    assert(right.content() =~= c);
                }
            }
            ((left, left_left_summary), (right, summary.sub(left_left_summary)))
        } else {
            let rsum = self.right_summary(summary);
            proof {
                M::lemma_measure_agrees(rsum, rseg);
                M::lemma_admissible_right(lseg, rseg, offset as int);
            }
            let off_right: usize = offset - lm;
            let rc = self.right_chunk();
            let byte_offset = M::to_byte_offset(rc, off_right);
            let ghost b = byte_offset as int;
            let ghost rpre = rseg.subrange(0, b);
            let ghost rsuf = rseg.subrange(b, rseg.len() as int);
            proof {
                // A cut strictly past the seam lands strictly inside the
                // right segment: a zero-length prefix would measure zero.
                M::lemma_measure_concat(Seq::<u8>::empty(), Seq::<u8>::empty());
                assert(Seq::<u8>::empty() + Seq::<u8>::empty() =~= Seq::<u8>::empty());
                assert(M::measure_seq(Seq::<u8>::empty()) == 0);
                if byte_offset == 0 {
                    assert(rseg.subrange(0, 0) =~= Seq::<u8>::empty());
                }
                assert(byte_offset > 0);
                assert(rpre + rsuf =~= rseg);
                lemma_count_chars_concat(rpre, rsuf);
                lemma_count_line_breaks_concat(rpre, rsuf);
                valid_utf8_split(rseg, b);
            }
            let right_left_summary = M::up_to(rc, &rsum, off_right, byte_offset);
            let (bytes_left, bytes_right) = self.split_bytes(self.left_summary.bytes + byte_offset);
            proof {
                assert(b <= self.len_right_spec());
            }
            let left = GapSlice {
                bytes: bytes_left,
                left_summary: self.left_summary,
                len_right: right_left_summary.bytes as u16,
            };
            let right = GapSlice {
                bytes: bytes_right,
                left_summary: rsum.sub(right_left_summary),
                len_right: 0u16,
            };
            proof {
                // The left result keeps the whole left segment plus the cut
                // prefix of the right segment; the right result is the tail
                // of the right segment alone.
                assert(left.len_right_spec() == b);
                assert(left.left_seg() =~= lseg);
                assert(left.right_seg() =~= rpre);
                assert(left.content() =~= lseg + rpre);
                assert(right.left_seg() =~= rsuf);
                assert(right.right_seg() =~= Seq::<u8>::empty());
                assert(valid_utf8(Seq::<u8>::empty()));
                assert(right.content() =~= rsuf);
                assert(left.content() + right.content() =~= c);
                // Counts of the whole split into the three pieces.
                lemma_count_chars_concat(lseg, rpre);
                lemma_count_line_breaks_concat(lseg, rpre);
                lemma_count_chars_concat(lseg + rpre, rsuf);
                lemma_count_line_breaks_concat(lseg + rpre, rsuf);
                assert(c =~= (lseg + rpre) + rsuf);
                // The left result measures exactly `offset`.
                M::lemma_measure_concat(lseg, rpre);
                M::lemma_measure_concat(left.content(), right.content());
                assert(M::measure_seq(left.content()) == offset);
                // No earlier boundary already measures `offset`: boundaries
                // up to the seam measure at most the left segment's measure,
                // and later ones inherit the right chunk's minimality.
                assert forall|j: int| 0 <= j < left.content().len() && is_char_boundary(c, j)
                    implies M::measure_seq(c.subrange(0, j)) < offset by {
                    if j <= lseg.len() {
                        assert(lseg =~= c.subrange(0, j) + lseg.subrange(j, lseg.len() as int));
                        M::lemma_measure_concat(
                            c.subrange(0, j),
                            lseg.subrange(j, lseg.len() as int),
                        );
                    } else {
                        lemma_boundary_in_concat(lseg, rseg, j);
                        assert(c.subrange(0, j) =~= lseg + rseg.subrange(0, j - lseg.len()));
                        M::lemma_measure_concat(lseg, rseg.subrange(0, j - lseg.len()));
                    }
                }
            }
            ((left, summary.sub(rsum.sub(right_left_summary))), (right, rsum.sub(right_left_summary)))
        }
    }

    /// True if the live text ends with a line feed.
    pub fn has_trailing_newline(&self) -> (r: bool)
        requires
            self.wf(),
        ensures
            r == (self.content().len() > 0 && self.content().last() == 10u8),
    {
        let n: usize = self.len();
        if n == 0 {
            false
        } else {
            self.byte(n - 1) == 10
        }
    }

    /// Removes exactly the final codepoint from the slice and returns the
    /// updated summary. The backing span shrinks by the codepoint's UTF-8
    /// width; re-appending those bytes would restore the original live text.
    #[verifier::rlimit(80)]
    #[verifier::spinoff_prover]
    pub fn truncate_last_char(&mut self, summary: ChunkSummary) -> (r: ChunkSummary)
        requires
            old(self).wf(),
            old(self).len_spec() > 0,
            is_summary_of(summary, old(self).content()),
        ensures
            final(self).wf(),
            final(self).content() == old(self).content().subrange(
                0,
                old(self).content().len() - length_of_last_scalar(old(self).content()),
            ),
            old(self).content() == final(self).content() + take_last_scalar(old(self).content()),
            is_summary_of(r, final(self).content()),
    {
        let ghost c = old(self).content();
        let ghost lseg = old(self).left_seg();
        let ghost rseg = old(self).right_seg();
        proof {
            (*self).lemma_wf_content();
            lemma_backing_fits(self.bytes);
        }
        let last = self.last_chunk();
        let k = crate::utf8_facts::last_scalar_len(last);
        proof {
            lemma_last_scalar(last@);
            if self.len_right == 0 {
                assert(c =~= lseg);
            } else {
                lemma_last_scalar_concat(lseg, rseg);
            }
            assert(k == length_of_last_scalar(c));
            assert(take_last_scalar(c) =~= take_last_scalar(last@));
        }
        let removed = summarize_bytes(slice_subrange(last, last.len() - k, last.len()));
        let lr: usize = self.len_right as usize;
        if lr < k {
            // The right segment cannot hold part of a codepoint: it is empty
            // here, and the left segment shrinks.
            proof {
                assert(lr == 0);
                let rest = lseg.subrange(0, lseg.len() - k);
                assert(rest + take_last_scalar(lseg) =~= lseg);
                lemma_count_chars_concat(rest, take_last_scalar(lseg));
                lemma_count_line_breaks_concat(rest, take_last_scalar(lseg));
            }
            let new_left = self.left_summary.sub(removed);
            self.left_summary = new_left;
            self.bytes = slice_subrange(self.bytes, 0, new_left.bytes);
            proof {
                assert(self.left_seg() =~= lseg.subrange(0, lseg.len() - k));
                assert(self.right_seg() =~= Seq::<u8>::empty());
                assert(valid_utf8(Seq::<u8>::empty()));
                assert(self.content() =~= c.subrange(0, c.len() - k));
            }
            new_left
        } else if lr > k {
            // The right segment keeps more than the removed codepoint: only
            // its byte span shrinks, the left segment is untouched.
            proof {
                let rest = rseg.subrange(0, rseg.len() - k);
                assert(rest + take_last_scalar(rseg) =~= rseg);
                lemma_count_chars_concat(rest, take_last_scalar(rseg));
                lemma_count_line_breaks_concat(rest, take_last_scalar(rseg));
                let crest = c.subrange(0, c.len() - k);
                assert(crest + take_last_scalar(c) =~= c);
                lemma_count_chars_concat(crest, take_last_scalar(c));
                lemma_count_line_breaks_concat(crest, take_last_scalar(c));
                valid_utf8_split(rseg, rseg.len() - k);
            }
            self.len_right = (lr - k) as u16;
            self.bytes = slice_subrange(self.bytes, 0, self.bytes.len() - k);
            proof {
                assert(self.left_seg() =~= lseg);
                assert(self.right_seg() =~= rseg.subrange(0, rseg.len() - k));
                assert(self.content() =~= c.subrange(0, c.len() - k));
            }
            summary.sub(removed)
        } else {
            // The right segment is exactly the removed codepoint: the result
            // keeps only the left segment.
            proof {
                assert(take_last_scalar(rseg) =~= rseg);
                assert(c.subrange(0, c.len() - k) =~= lseg);
            }
            self.len_right = 0;
            self.bytes = slice_subrange(self.bytes, 0, self.left_summary.bytes);
            proof {
                assert(self.left_seg() =~= lseg);
                assert(self.right_seg() =~= Seq::<u8>::empty());
                assert(valid_utf8(Seq::<u8>::empty()));
                assert(self.content() =~= lseg);
            }
            self.left_summary
        }
    }

    /// Removes the trailing line break if there is one: the final line feed
    /// goes, and a carriage return directly before it goes with it, so a
    /// CRLF terminator is removed as a unit. Returns the updated summary.
    pub fn truncate_trailing_line_break(&mut self, summary: ChunkSummary) -> (r: ChunkSummary)
        requires
            old(self).wf(),
            is_summary_of(summary, old(self).content()),
        ensures
            final(self).wf(),
            final(self).content() == strip_trailing_line_break(old(self).content()),
            is_summary_of(r, final(self).content()),
    {
        let ghost c = old(self).content();
        if !self.has_trailing_newline() {
            return summary;
        }
        proof {
            (*self).lemma_wf_content();
            assert(!is_continuation_byte(c.last()));
            assert(length_of_last_scalar(c) == 1);
            assert(c.subrange(0, c.len() - 1) =~= c.drop_last());
        }
        let mut new_summary = self.truncate_last_char(summary);
        let ghost c1 = c.drop_last();
        let n: usize = self.len();
        if n > 0 && self.byte(n - 1) == 13 {
            proof {
                (*self).lemma_wf_content();
                assert(!is_continuation_byte(c1.last()));
                assert(length_of_last_scalar(c1) == 1);
                assert(c1.subrange(0, c1.len() - 1) =~= c1.drop_last());
            }
            new_summary = self.truncate_last_char(new_summary);
        }
        new_summary
    }
}

/// Where a requested byte offset failed the character-boundary check: which
/// live segment it fell in, and the offset local to that segment.
#[derive(Clone, Copy, Debug, PartialEq, Eq, Structural)]
pub struct BoundaryViolation {
    pub in_left: bool,
    pub local_offset: usize,
}

impl<'a> GapSlice<'a> {
    /// Checks that the given byte offset is a character boundary of the live
    /// text, reporting the offending segment and local offset otherwise: a
    /// mid-codepoint offset is rejected, never silently moved.
    pub fn assert_char_boundary(&self, byte_offset: usize) -> (r: Result<(), BoundaryViolation>)
        requires
            self.wf(),
            byte_offset <= self.len_spec(),
        ensures
            r.is_ok() <==> is_char_boundary(self.content(), byte_offset as int),
            (r matches Err(v) ==> v == (if byte_offset < self.len_left_spec() {
                BoundaryViolation { in_left: true, local_offset: byte_offset }
            } else {
                BoundaryViolation {
                    in_left: false,
                    local_offset: (byte_offset - self.len_left_spec()) as usize,
                }
            })),
    {
        if self.is_char_boundary(byte_offset) {
            Ok(())
        } else if byte_offset < self.left_summary.bytes {
            Err(BoundaryViolation { in_left: true, local_offset: byte_offset })
        } else {
            Err(
                BoundaryViolation {
                    in_left: false,
                    local_offset: byte_offset - self.left_summary.bytes,
                },
            )
        }
    }

    /// Diagnostic check: recomputes the left segment's summary from scratch
    /// and compares it with the cached one, and checks the single-segment
    /// degenerate-state invariant. Any mismatch is a programming-contract
    /// violation in whoever built the slice.
    pub fn assert_invariants(&self) -> (ok: bool)
        ensures
            ok <==> (self.len_spec() <= self.bytes@.len() && is_summary_of(
                self.left_summary,
                self.left_seg(),
            ) && (self.len_right_spec() == 0 ==> self.len_left_spec() == self.bytes@.len()) && (
            self.len_left_spec() == 0 ==> self.len_right_spec() == self.bytes@.len())),
    {
        proof {
            lemma_backing_fits(self.bytes);
        }
        let ll: usize = self.left_summary.bytes;
        let lr: usize = self.len_right as usize;
        if self.bytes.len() < ll || self.bytes.len() - ll < lr {
            return false;
        }
        let computed = summarize_bytes(slice_subrange(self.bytes, 0, ll));
        if !(computed.bytes == self.left_summary.bytes && computed.chars == self.left_summary.chars
            && computed.line_breaks == self.left_summary.line_breaks) {
            return false;
        }
        if lr == 0 && ll != self.bytes.len() {
            return false;
        }
        if ll == 0 && lr != self.bytes.len() {
            return false;
        }
        true
    }

    /// A slice with no backing bytes and no live text.
    pub fn empty() -> (r: GapSlice<'static>)
        ensures
            r.wf(),
            r.content() == Seq::<u8>::empty(),
            r.len_spec() == 0,
    {
        let bytes: &'static [u8] = &[];
        proof {
            assert(bytes@.len() == 0);
            assert(valid_utf8(Seq::<u8>::empty()));
        }
        let r = GapSlice { bytes, left_summary: ChunkSummary::zero(), len_right: 0u16 };
        proof {
            assert(r.left_seg() =~= Seq::<u8>::empty());
            assert(r.right_seg() =~= Seq::<u8>::empty());
            assert(r.content() =~= Seq::<u8>::empty());
        }
        r
    }

    /// The live text copied out in order, left segment first.
    pub fn live_bytes(&self) -> (r: Vec<u8>)
        requires
            self.wf(),
        ensures
            r@ == self.content(),
    {
        let mut out: Vec<u8> = Vec::new();
        let lc = self.left_chunk();
        let mut i: usize = 0;
        while i < lc.len()
            invariant
                i <= lc@.len(),
                out@ == lc@.subrange(0, i as int),
            decreases lc@.len() - i,
        {
            out.push(*slice_index_get(lc, i));
            proof {
                assert(out@ =~= lc@.subrange(0, i + 1 as int));
            }
            i = i + 1;
        }
        let rc = self.right_chunk();
        let mut j: usize = 0;
        while j < rc.len()
            invariant
                j <= rc@.len(),
                out@ == lc@ + rc@.subrange(0, j as int),
                lc@ == self.left_seg(),
                rc@ == self.right_seg(),
            decreases rc@.len() - j,
        {
            out.push(*slice_index_get(rc, j));
            proof {
                assert(out@ =~= lc@ + rc@.subrange(0, j + 1 as int));
            }
            j = j + 1;
        }
        proof {
            assert(lc@.subrange(0, lc@.len() as int) =~= lc@);
            assert(rc@.subrange(0, rc@.len() as int) =~= rc@);
        }
        out
    }

    /// A diagnostic rendering of the backing span: a quote, the left
    /// segment's bytes, one tilde per gap byte, the right segment's bytes,
    /// and a closing quote.
    pub fn debug_render(&self) -> (r: Vec<u8>)
        requires
            self.wf(),
        ensures
            r@ == seq![34u8] + self.left_seg() + Seq::new(self.len_gap_spec() as nat, |i: int| 126u8)
                + self.right_seg() + seq![34u8],
    {
        let ghost tildes = Seq::new(self.len_gap_spec() as nat, |i: int| 126u8);
        let mut out: Vec<u8> = Vec::new();
        out.push(34);
        let lc = self.left_chunk();
        let mut i: usize = 0;
        while i < lc.len()
            invariant
                i <= lc@.len(),
                out@ == seq![34u8] + lc@.subrange(0, i as int),
            decreases lc@.len() - i,
        {
            out.push(*slice_index_get(lc, i));
            proof {
                assert(out@ =~= seq![34u8] + lc@.subrange(0, i + 1 as int));
            }
            i = i + 1;
        }
        proof {
            assert(lc@.subrange(0, lc@.len() as int) =~= lc@);
        }
        let g: usize = self.len_gap();
        let mut j: usize = 0;
        while j < g
            invariant
                j <= g,
                g == self.len_gap_spec(),
                lc@ == self.left_seg(),
                out@ == seq![34u8] + lc@ + Seq::new(j as nat, |i: int| 126u8),
            decreases g - j,
        {
            out.push(126);
            proof {
                assert(Seq::new((j + 1) as nat, |i: int| 126u8) =~= Seq::new(
                    j as nat,
                    |i: int| 126u8,
                ).push(126u8));
                assert(out@ =~= seq![34u8] + lc@ + Seq::new((j + 1) as nat, |i: int| 126u8));
            }
            j = j + 1;
        }
        let rc = self.right_chunk();
        let mut p: usize = 0;
        while p < rc.len()
            invariant
                p <= rc@.len(),
                lc@ == self.left_seg(),
                rc@ == self.right_seg(),
                g == self.len_gap_spec(),
                out@ == seq![34u8] + lc@ + Seq::new(g as nat, |i: int| 126u8) + rc@.subrange(
                    0,
                    p as int,
                ),
            decreases rc@.len() - p,
        {
            out.push(*slice_index_get(rc, p));
            proof {
                assert(out@ =~= seq![34u8] + lc@ + Seq::new(g as nat, |i: int| 126u8)
                    + rc@.subrange(0, p + 1 as int));
            }
            p = p + 1;
        }
        out.push(34);
        proof {
            assert(rc@.subrange(0, rc@.len() as int) =~= rc@);
            assert(out@ =~= seq![34u8] + lc@ + tildes + rc@ + seq![34u8]);
        }
        out
    }
}

/// The cached left summary plus the right segment's summary gives exactly
/// the statistics of the whole live text: the two partial summaries add to
/// the summary the slice reports.
pub proof fn lemma_left_plus_right_is_summarize(s: GapSlice, right_sum: ChunkSummary)
    requires
        s.wf(),
        is_summary_of(right_sum, s.right_seg()),
    ensures
        s.content().len() == s.left_summary.bytes + right_sum.bytes,
        count_chars(s.content()) == s.left_summary.chars + right_sum.chars,
        count_line_breaks(s.content()) == s.left_summary.line_breaks + right_sum.line_breaks,
{
    lemma_summary_of_concat(s.left_summary, right_sum, s.left_seg(), s.right_seg());
}

/// Removing the final codepoint and then re-appending its encoding restores
/// the original live text, so byte length and every count are restored too.
pub proof fn lemma_truncate_last_char_round_trip(c: Seq<u8>)
    requires
        valid_utf8(c),
        c.len() > 0,
    ensures
        ({
            let rest = c.subrange(0, c.len() - length_of_last_scalar(c));
            let removed = take_last_scalar(c);
            &&& rest + removed == c
            &&& c.len() == rest.len() + removed.len()
            &&& count_chars(c) == count_chars(rest) + count_chars(removed)
            &&& count_line_breaks(c) == count_line_breaks(rest) + count_line_breaks(removed)
        }),
{
    lemma_last_scalar(c);
    let rest = c.subrange(0, c.len() - length_of_last_scalar(c));
    let removed = take_last_scalar(c);
    assert(rest + removed =~= c);
    lemma_count_chars_concat(rest, removed);
    lemma_count_line_breaks_concat(rest, removed);
}

/// Live text that does not end in a line feed is unchanged by the
/// line-break truncation.
pub proof fn lemma_strip_line_break_no_newline(c: Seq<u8>)
    requires
        c.len() == 0 || c.last() != 10u8,
    ensures
        strip_trailing_line_break(c) == c,
{
}

/// Stripping a trailing line break is idempotent from the second call on,
/// provided the first application leaves no trailing line feed behind.
pub proof fn lemma_strip_line_break_idempotent(c: Seq<u8>)
    requires
        ({
            let once = strip_trailing_line_break(c);
            once.len() == 0 || once.last() != 10u8
        }),
    ensures
        strip_trailing_line_break(strip_trailing_line_break(c)) == strip_trailing_line_break(c),
{
}

/// The live text with its trailing line break removed: a final line feed
/// goes, and a carriage return directly before it goes too; text without a
/// trailing line feed is unchanged.
pub open spec fn strip_trailing_line_break(c: Seq<u8>) -> Seq<u8> {
    if c.len() > 0 && c.last() == 10u8 {
        let c1 = c.drop_last();
        if c1.len() > 0 && c1.last() == 13u8 {
            c1.drop_last()
        } else {
            c1
        }
    } else {
        c
    }
}

} // verus!
