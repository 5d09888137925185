//! Per-chunk statistics: byte count, codepoint count and line-break count,
//! aggregated into a [`ChunkSummary`] that supports exact addition and
//! subtraction over adjacent byte ranges.

use vstd::prelude::*;

verus! {

use vstd::utf8::is_continuation_byte;

/// Number of codepoints in a byte sequence, counted as the bytes that do not
/// have the form of a UTF-8 continuation byte. On valid UTF-8 this is exactly
/// the number of encoded scalars, since each scalar contributes one leading
/// byte.
pub open spec fn count_chars(s: Seq<u8>) -> nat
    decreases s.len(),
{
    if s.len() == 0 {
        0
    } else {
        count_chars(s.drop_last()) + (if is_continuation_byte(s.last()) {
            0nat
        } else {
            1nat
        })
    }
}

/// Number of line feed bytes (0x0A) in a byte sequence. A CRLF pair counts
/// once, through its line feed.
pub open spec fn count_line_breaks(s: Seq<u8>) -> nat
    decreases s.len(),
{
    if s.len() == 0 {
        0
    } else {
        count_line_breaks(s.drop_last()) + (if s.last() == 10u8 {
            1nat
        } else {
            0nat
        })
    }
}

/// Codepoint counts add over concatenation.
pub proof fn lemma_count_chars_concat(a: Seq<u8>, b: Seq<u8>)
    ensures
        count_chars(a + b) == count_chars(a) + count_chars(b),
    decreases b.len(),
{
    if b.len() == 0 {
        assert(a + b =~= a);
    } else {
        lemma_count_chars_concat(a, b.drop_last());
        assert((a + b).drop_last() =~= a + b.drop_last());
        assert((a + b).last() == b.last());
    }
}

/// Line-break counts add over concatenation.
pub proof fn lemma_count_line_breaks_concat(a: Seq<u8>, b: Seq<u8>)
    ensures
        count_line_breaks(a + b) == count_line_breaks(a) + count_line_breaks(b),
    decreases b.len(),
{
    if b.len() == 0 {
        assert(a + b =~= a);
    } else {
        lemma_count_line_breaks_concat(a, b.drop_last());
        assert((a + b).drop_last() =~= a + b.drop_last());
        assert((a + b).last() == b.last());
    }
}

/// Neither count can exceed the byte length.
pub proof fn lemma_counts_le_len(s: Seq<u8>)
    ensures
        count_chars(s) <= s.len(),
        count_line_breaks(s) <= s.len(),
    decreases s.len(),
{
    if s.len() > 0 {
        lemma_counts_le_len(s.drop_last());
    }
}

/// Aggregate statistics of one chunk of text, or of a sub-range of one.
///
/// The summary of a whole chunk equals the component-wise sum of the
/// summaries of any two adjacent sub-ranges that cover it.
#[derive(Clone, Copy, Debug, PartialEq, Eq, Structural)]
pub struct ChunkSummary {
    pub bytes: usize,
    pub chars: usize,
    pub line_breaks: usize,
}

/// True when `sum` holds exactly the statistics of the byte sequence `s`.
pub open spec fn is_summary_of(sum: ChunkSummary, s: Seq<u8>) -> bool {
    &&& sum.bytes == s.len()
    &&& sum.chars == count_chars(s)
    &&& sum.line_breaks == count_line_breaks(s)
}

/// The summaries of two byte sequences laid end to end determine the
/// statistics of the whole: every count adds component-wise.
pub proof fn lemma_summary_of_concat(sa: ChunkSummary, sb: ChunkSummary, a: Seq<u8>, b: Seq<u8>)
    requires
        is_summary_of(sa, a),
        is_summary_of(sb, b),
    ensures
        (a + b).len() == sa.bytes + sb.bytes,
        count_chars(a + b) == sa.chars + sb.chars,
        count_line_breaks(a + b) == sa.line_breaks + sb.line_breaks,
{
    lemma_count_chars_concat(a, b);
    lemma_count_line_breaks_concat(a, b);
}

impl ChunkSummary {
    /// The summary of an empty byte range.
    pub fn zero() -> (r: Self)
        ensures
            is_summary_of(r, Seq::<u8>::empty()),
    {
        ChunkSummary { bytes: 0, chars: 0, line_breaks: 0 }
    }

    /// Component-wise sum: the summary of two adjacent ranges taken together.
    pub fn add(self, other: Self) -> (r: Self)
        requires
            self.bytes + other.bytes <= usize::MAX,
            self.chars + other.chars <= usize::MAX,
            self.line_breaks + other.line_breaks <= usize::MAX,
        ensures
            r.bytes == self.bytes + other.bytes,
            r.chars == self.chars + other.chars,
            r.line_breaks == self.line_breaks + other.line_breaks,
    {
        ChunkSummary {
            bytes: self.bytes + other.bytes,
            chars: self.chars + other.chars,
            line_breaks: self.line_breaks + other.line_breaks,
        }
    }

    /// Component-wise difference: subtraction exactly undoes a prior
    /// addition, so `a.add(b).sub(b) == a`.
    pub fn sub(self, other: Self) -> (r: Self)
        requires
            other.bytes <= self.bytes,
            other.chars <= self.chars,
            other.line_breaks <= self.line_breaks,
        ensures
            r.bytes == self.bytes - other.bytes,
            r.chars == self.chars - other.chars,
            r.line_breaks == self.line_breaks - other.line_breaks,
    {
        ChunkSummary {
            bytes: self.bytes - other.bytes,
            chars: self.chars - other.chars,
            line_breaks: self.line_breaks - other.line_breaks,
        }
    }
}

/// Computes the statistics of a byte slice by a single scan.
pub fn summarize_bytes(chunk: &[u8]) -> (r: ChunkSummary)
    ensures
        is_summary_of(r, chunk@),
{
    let n: usize = chunk.len();
    let mut chars: usize = 0;
    let mut breaks: usize = 0;
    let mut i: usize = 0;
    while i < n
        invariant
            i <= n,
            n == chunk@.len(),
            chars == count_chars(chunk@.subrange(0, i as int)),
            breaks == count_line_breaks(chunk@.subrange(0, i as int)),
            chars <= i,
            breaks <= i,
        decreases n - i,
    {
        let b: u8 = *vstd::slice::slice_index_get(chunk, i);
        proof {
            assert(chunk@.subrange(0, i + 1 as int).drop_last() =~= chunk@.subrange(0, i as int));
            assert(chunk@.subrange(0, i + 1 as int).last() == chunk@[i as int]);
        }
        if !(0x80 <= b && b <= 0xbf) {
            chars = chars + 1;
        }
        if b == 10 {
            breaks = breaks + 1;
        }
        i = i + 1;
    }
    proof {
        assert(chunk@.subrange(0, n as int) =~= chunk@);
    }
    ChunkSummary { bytes: n, chars, line_breaks: breaks }
}

} // verus!
