//! Facts about UTF-8 byte sequences that the chunk operations rest on: where
//! the final codepoint of a sequence starts, and how character boundaries
//! behave across concatenation and after ASCII bytes.

use vstd::prelude::*;

verus! {

use vstd::utf8::{
    valid_utf8, is_char_boundary, is_continuation_byte, length_of_first_scalar,
    length_of_last_scalar, pop_first_scalar, take_last_scalar, valid_first_scalar,
    valid_utf8_split, valid_utf8_concat, is_char_boundary_start_end_of_seq,
    is_char_boundary_iff_not_is_continuation_byte,
};

/// The final scalar of a valid, nonempty UTF-8 sequence: it is 1 to 4 bytes
/// long, fits inside the sequence, starts at a character boundary with a
/// non-continuation byte, is followed only by continuation bytes, and both
/// the part before it and the scalar itself remain valid UTF-8.
pub proof fn lemma_last_scalar(s: Seq<u8>)
    requires
        valid_utf8(s),
        s.len() > 0,
    ensures
        ({
            let k = length_of_last_scalar(s);
            &&& 1 <= k <= 4
            &&& k <= s.len()
            &&& !is_continuation_byte(s[s.len() - k])
            &&& (forall|j: int| s.len() - k < j < s.len() ==> is_continuation_byte(s[j]))
            &&& is_char_boundary(s, s.len() - k)
            &&& valid_utf8(s.subrange(0, s.len() - k))
            &&& valid_utf8(take_last_scalar(s))
        }),
    decreases s.len(),
{
    let n = s.len() as int;
    let k1 = length_of_first_scalar(s);
    let rest = pop_first_scalar(s);
    assert(rest =~= s.subrange(k1, n));
    if rest.len() == 0 {
        // The whole sequence is a single scalar.
        assert(k1 == n);
        assert(!is_continuation_byte(s[0]));
        assert(forall|j: int| 0 < j < n ==> is_continuation_byte(s[j]));
        let k = length_of_last_scalar(s);
        assert(k == n);
        assert(is_char_boundary(s, 0));
        assert(s.subrange(0, 0) =~= Seq::<u8>::empty());
        assert(take_last_scalar(s) =~= s);
    } else {
        lemma_last_scalar(rest);
        let m = rest.len() as int;
        let k = length_of_last_scalar(rest);
        assert(forall|i: int| 0 <= i < m ==> s[k1 + i] == rest[i]);
        // The last-scalar length only inspects the trailing bytes, which the
        // tail shares with the whole sequence.
        assert(s[n - 1] == rest[m - 1]);
        if k >= 2 {
            assert(s[n - 2] == rest[m - 2]);
        }
        if k >= 3 {
            assert(s[n - 3] == rest[m - 3]);
        }
        if k >= 4 {
            assert(s[n - 4] == rest[m - 4]);
        }
        assert(length_of_last_scalar(s) == k);
        assert(!is_continuation_byte(s[n - k]));
        assert(forall|j: int| n - k < j < n ==> is_continuation_byte(s[j])) by {
            assert(forall|j: int| n - k < j < n ==> s[j] == rest[j - k1]);
        }
        // The starting position is a boundary: it either is position zero or
        // carries a non-continuation byte.
        if n - k == 0 {
            assert(is_char_boundary(s, 0));
        } else {
            is_char_boundary_iff_not_is_continuation_byte(s, n - k);
        }
        valid_utf8_split(s, n - k);
        assert(take_last_scalar(s) =~= take_last_scalar(rest));
    }
}

/// Appending bytes in front of a valid, nonempty sequence does not change
/// which trailing bytes form its final scalar.
pub proof fn lemma_last_scalar_concat(a: Seq<u8>, b: Seq<u8>)
    requires
        valid_utf8(b),
        b.len() > 0,
    ensures
        length_of_last_scalar(a + b) == length_of_last_scalar(b),
        take_last_scalar(a + b) =~= take_last_scalar(b),
{
    lemma_last_scalar(b);
    let s = a + b;
    let n = s.len() as int;
    let m = b.len() as int;
    let k = length_of_last_scalar(b);
    assert(s[n - 1] == b[m - 1]);
    if k >= 2 {
        assert(s[n - 2] == b[m - 2]);
    }
    if k >= 3 {
        assert(s[n - 3] == b[m - 3]);
    }
    if k >= 4 {
        assert(s[n - 4] == b[m - 4]);
    }
    if k == 1 {
        assert(length_of_last_scalar(s) == 1);
    } else {
        assert(forall|j: int| m - k < j < m ==> is_continuation_byte(b[j]));
        assert(forall|j: int| n - k < j < n ==> s[j] == b[j - a.len()]);
        assert(length_of_last_scalar(s) == k);
    }
    assert(take_last_scalar(s) =~= take_last_scalar(b));
}

/// A byte sequence made of one non-continuation byte followed only by
/// continuation bytes counts as a single codepoint.
proof fn lemma_count_chars_single_scalar(h: Seq<u8>)
    requires
        h.len() >= 1,
        !is_continuation_byte(h[0]),
        forall|i: int| 1 <= i < h.len() ==> is_continuation_byte(h[i]),
    ensures
        crate::summary::count_chars(h) == 1,
    decreases h.len(),
{
    if h.len() == 1 {
        assert(h.last() == h[0]);
        assert(h.drop_last().len() == 0);
        assert(crate::summary::count_chars(h.drop_last()) == 0);
    } else {
        lemma_count_chars_single_scalar(h.drop_last());
        assert(is_continuation_byte(h.last()));
    }
}

/// On valid UTF-8 the codepoint count used by the summaries is exactly the
/// number of decoded scalars: each scalar contributes one leading byte and
/// only continuation bytes after it.
pub proof fn lemma_count_chars_is_scalar_count(s: Seq<u8>)
    requires
        valid_utf8(s),
    ensures
        crate::summary::count_chars(s) == vstd::utf8::decode_utf8(s).len(),
    decreases s.len(),
{
    if s.len() > 0 {
        let k = length_of_first_scalar(s);
        let head = s.subrange(0, k);
        let rest = pop_first_scalar(s);
        assert(head + rest =~= s);
        crate::summary::lemma_count_chars_concat(head, rest);
        lemma_count_chars_single_scalar(head);
        lemma_count_chars_is_scalar_count(rest);
    }
}

/// Byte length of the final codepoint of a valid, nonempty chunk, found by
/// walking back over continuation bytes.
pub fn last_scalar_len(chunk: &[u8]) -> (k: usize)
    requires
        valid_utf8(chunk@),
        chunk@.len() > 0,
    ensures
        k == length_of_last_scalar(chunk@),
        1 <= k <= 4,
        k <= chunk@.len(),
{
    proof {
        lemma_last_scalar(chunk@);
    }
    let n: usize = chunk.len();
    let b1: u8 = *vstd::slice::slice_index_get(chunk, n - 1);
    if !(0x80 <= b1 && b1 <= 0xbf) {
        return 1;
    }
    let b2: u8 = *vstd::slice::slice_index_get(chunk, n - 2);
    if !(0x80 <= b2 && b2 <= 0xbf) {
        return 2;
    }
    let b3: u8 = *vstd::slice::slice_index_get(chunk, n - 3);
    if !(0x80 <= b3 && b3 <= 0xbf) {
        return 3;
    }
    4
}

/// In valid UTF-8 the position just after an ASCII byte (below 0x80) is a
/// character boundary: an ASCII byte always encodes a scalar on its own.
pub proof fn lemma_boundary_after_ascii(s: Seq<u8>, i: int)
    requires
        valid_utf8(s),
        0 <= i < s.len(),
        s[i] < 0x80,
    ensures
        is_char_boundary(s, i + 1),
{
    let n = s.len() as int;
    if i + 1 == n {
        is_char_boundary_start_end_of_seq(s);
    } else {
        is_char_boundary_iff_not_is_continuation_byte(s, i);
        assert(is_char_boundary(s, i));
        valid_utf8_split(s, i);
        let t = s.subrange(i, n);
        assert(valid_utf8(t));
        assert(t[0] == s[i]);
        assert(valid_first_scalar(t));
        assert(length_of_first_scalar(t) == 1);
        let t2 = pop_first_scalar(t);
        assert(t2 =~= s.subrange(i + 1, n));
        assert(t2.len() > 0);
        assert(valid_first_scalar(t2)) by {
            reveal_with_fuel(valid_utf8, 2);
        }
        assert(!is_continuation_byte(t2[0]));
        assert(t2[0] == s[i + 1]);
        is_char_boundary_iff_not_is_continuation_byte(s, i + 1);
    }
}

/// A position in the concatenation of two valid UTF-8 sequences is a
/// character boundary exactly when it is one in the segment it falls in; the
/// seam between the two is always a boundary.
pub proof fn lemma_boundary_in_concat(a: Seq<u8>, b: Seq<u8>, i: int)
    requires
        valid_utf8(a),
        valid_utf8(b),
        0 <= i <= a.len() + b.len(),
    ensures
        is_char_boundary(a + b, i) <==> (if i <= a.len() {
            is_char_boundary(a, i)
        } else {
            is_char_boundary(b, i - a.len())
        }),
{
    let s = a + b;
    let n = s.len() as int;
    valid_utf8_concat(a, b);
    is_char_boundary_start_end_of_seq(a);
    is_char_boundary_start_end_of_seq(b);
    is_char_boundary_start_end_of_seq(s);
    if i == 0 || i == n {
        // Start and end of any valid sequence are boundaries on both sides of
        // the equivalence.
        if i == n && i <= a.len() {
            assert(b.len() == 0);
            assert(is_char_boundary(a, a.len() as int));
        }
    } else {
        is_char_boundary_iff_not_is_continuation_byte(s, i);
        if i < a.len() {
            assert(s[i] == a[i]);
            is_char_boundary_iff_not_is_continuation_byte(a, i);
        } else if i == a.len() {
            // The seam: position i carries the first byte of b, a leading
            // byte of a valid scalar, hence not a continuation byte.
            assert(b.len() > 0);
            assert(valid_first_scalar(b));
            assert(!is_continuation_byte(b[0]));
            assert(s[i] == b[0]);
            assert(is_char_boundary(a, a.len() as int));
        } else {
            assert(s[i] == b[i - a.len()]);
            is_char_boundary_iff_not_is_continuation_byte(b, i - a.len());
        }
    }
}

} // verus!
