use gap_chunk::gap_slice::{BoundaryViolation, GapSlice};
use gap_chunk::metric::{ByteMetric, CharMetric, RawLineMetric};
use gap_chunk::summary::{summarize_bytes, ChunkSummary};

#[test]
fn debug_slice() {
    // "Hello" in a capacity-10 buffer: left "He", a gap of 5, right "llo".
    let bytes: &[u8] = b"He\0\0\0\0\0llo";
    let slice = GapSlice {
        bytes,
        left_summary: summarize_bytes(b"He"),
        len_right: 3,
    };
    assert_eq!(b"\"He~~~~~llo\"".to_vec(), slice.debug_render());
}

#[test]
fn truncate_trailing_crlf() {
    let bytes: &[u8] = b"bar\r\n";
    let mut slice = GapSlice {
        bytes,
        left_summary: summarize_bytes(bytes),
        len_right: 0,
    };
    let summary = slice.summarize();
    slice.truncate_trailing_line_break(summary);
    assert_eq!(b"bar".to_vec(), slice.live_bytes());
}

#[test]
fn truncate_trailing_lf() {
    let bytes: &[u8] = b"bar\n";
    let mut slice = GapSlice {
        bytes,
        left_summary: summarize_bytes(bytes),
        len_right: 0,
    };
    let summary = slice.summarize();
    slice.truncate_trailing_line_break(summary);
    assert_eq!(b"bar".to_vec(), slice.live_bytes());
}

#[test]
fn hello_lengths() {
    let bytes: &[u8] = b"He\0\0\0\0\0llo";
    let slice = GapSlice {
        bytes,
        left_summary: summarize_bytes(b"He"),
        len_right: 3,
    };
    assert_eq!(5, slice.len());
    assert_eq!(2, slice.len_left());
    assert_eq!(3, slice.len_right());
    assert_eq!(5, slice.len_gap());
    assert_eq!(b"He", slice.left_chunk());
    assert_eq!(b"llo", slice.right_chunk());
    assert_eq!(b"llo", slice.last_chunk());
    assert_eq!(b"Hello".to_vec(), slice.live_bytes());
    assert_eq!(b'H', slice.byte(0));
    assert_eq!(b'l', slice.byte(2));
    assert_eq!(b'o', slice.byte(4));
}

#[test]
fn summarize_adds_left_and_right() {
    let bytes: &[u8] = b"He\0\0\0\0\0l\no";
    let slice = GapSlice {
        bytes,
        left_summary: summarize_bytes(b"He"),
        len_right: 3,
    };
    let right = slice.summarize_right_chunk();
    let total = slice.summarize();
    assert_eq!(total, slice.left_summary.add(right));
    assert_eq!(
        ChunkSummary {
            bytes: 5,
            chars: 5,
            line_breaks: 1
        },
        total
    );
    assert_eq!(right, slice.right_summary(total));
}

#[test]
fn left_measure_reads_cached_summary() {
    let bytes: &[u8] = b"a\nb\0\0cd";
    let slice = GapSlice {
        bytes,
        left_summary: summarize_bytes(b"a\nb"),
        len_right: 2,
    };
    assert_eq!(3, slice.left_measure::<ByteMetric>());
    assert_eq!(3, slice.left_measure::<CharMetric>());
    assert_eq!(1, slice.left_measure::<RawLineMetric>());
}

#[test]
fn summary_sub_undoes_add() {
    let a = ChunkSummary {
        bytes: 7,
        chars: 5,
        line_breaks: 2,
    };
    let b = ChunkSummary {
        bytes: 3,
        chars: 3,
        line_breaks: 1,
    };
    assert_eq!(a, a.add(b).sub(b));
}

#[test]
fn split_line_metric_scenario() {
    // "foo\nbar\r\nbaz" held as "foo\nba" + gap + "r\r\nbaz".
    let bytes: &[u8] = b"foo\nba\0\0r\r\nbaz";
    let slice = GapSlice {
        bytes,
        left_summary: summarize_bytes(b"foo\nba"),
        len_right: 6,
    };
    let summary = slice.summarize();
    assert_eq!(2, summary.line_breaks);
    let ((left, left_sum), (right, right_sum)) = slice.split_at_offset::<RawLineMetric>(1, summary);
    assert_eq!(b"foo\n".to_vec(), left.live_bytes());
    assert_eq!(b"bar\r\nbaz".to_vec(), right.live_bytes());
    assert_eq!(1, left_sum.line_breaks);
    assert_eq!(1, right_sum.line_breaks);
    assert_eq!(4, left_sum.bytes);
    assert_eq!(8, right_sum.bytes);
    assert_eq!(summary, left_sum.add(right_sum));
}

#[test]
fn split_line_metric_at_zero() {
    let bytes: &[u8] = b"foo\nbar";
    let slice = GapSlice {
        bytes,
        left_summary: summarize_bytes(bytes),
        len_right: 0,
    };
    let summary = slice.summarize();
    let ((left, left_sum), (right, right_sum)) = slice.split_at_offset::<RawLineMetric>(0, summary);
    assert_eq!(0, left.live_bytes().len());
    assert_eq!(0, left_sum.bytes);
    assert_eq!(b"foo\nbar".to_vec(), right.live_bytes());
    assert_eq!(summary, right_sum);
}

#[test]
fn split_byte_metric_ends() {
    let bytes: &[u8] = b"He\0\0\0llo";
    let slice = GapSlice {
        bytes,
        left_summary: summarize_bytes(b"He"),
        len_right: 3,
    };
    let summary = slice.summarize();
    let ((left, left_sum), (right, right_sum)) = slice.split_at_offset::<ByteMetric>(0, summary);
    assert_eq!(0, left_sum.bytes);
    assert_eq!(0, left.live_bytes().len());
    assert_eq!(b"Hello".to_vec(), right.live_bytes());
    assert_eq!(summary, right_sum);
    let ((left, left_sum), (right, right_sum)) = slice.split_at_offset::<ByteMetric>(5, summary);
    assert_eq!(b"Hello".to_vec(), left.live_bytes());
    assert_eq!(summary, left_sum);
    assert_eq!(0, right.live_bytes().len());
    assert_eq!(0, right_sum.bytes);
}

#[test]
fn split_byte_metric_in_each_segment() {
    let bytes: &[u8] = b"He\0\0\0llo";
    let slice = GapSlice {
        bytes,
        left_summary: summarize_bytes(b"He"),
        len_right: 3,
    };
    let summary = slice.summarize();
    // Inside the left segment.
    let ((left, left_sum), (right, right_sum)) = slice.split_at_offset::<ByteMetric>(1, summary);
    assert_eq!(b"H".to_vec(), left.live_bytes());
    assert_eq!(b"ello".to_vec(), right.live_bytes());
    assert_eq!(summary, left_sum.add(right_sum));
    // Exactly at the seam: the zero-scan path reuses both segments.
    let ((left, _), (right, _)) = slice.split_at_offset::<ByteMetric>(2, summary);
    assert_eq!(b"He".to_vec(), left.live_bytes());
    assert_eq!(b"llo".to_vec(), right.live_bytes());
    // Inside the right segment.
    let ((left, left_sum), (right, right_sum)) = slice.split_at_offset::<ByteMetric>(4, summary);
    assert_eq!(b"Hell".to_vec(), left.live_bytes());
    assert_eq!(b"o".to_vec(), right.live_bytes());
    assert_eq!(4, left_sum.bytes);
    assert_eq!(1, right_sum.bytes);
}

#[test]
fn split_char_metric_multibyte() {
    // "aé!" held as "a" + gap + "é!": three codepoints in four bytes.
    let bytes: &[u8] = b"a\0\0\xc3\xa9!";
    let slice = GapSlice {
        bytes,
        left_summary: summarize_bytes(b"a"),
        len_right: 3,
    };
    let summary = slice.summarize();
    assert_eq!(3, summary.chars);
    assert_eq!(4, summary.bytes);
    let ((left, left_sum), (right, right_sum)) = slice.split_at_offset::<CharMetric>(2, summary);
    assert_eq!(b"a\xc3\xa9".to_vec(), left.live_bytes());
    assert_eq!(b"!".to_vec(), right.live_bytes());
    assert_eq!(2, left_sum.chars);
    assert_eq!(3, left_sum.bytes);
    assert_eq!(1, right_sum.chars);
}

#[test]
fn char_boundary_checks() {
    // "a" + gap + "é!": the e-acute is the two bytes 0xC3 0xA9 at logical
    // offsets 1 and 2.
    let bytes: &[u8] = b"a\0\0\xc3\xa9!";
    let slice = GapSlice {
        bytes,
        left_summary: summarize_bytes(b"a"),
        len_right: 3,
    };
    assert!(slice.is_char_boundary(0));
    assert!(slice.is_char_boundary(1));
    assert!(!slice.is_char_boundary(2));
    assert!(slice.is_char_boundary(3));
    assert!(slice.is_char_boundary(4));
    assert_eq!(Ok(()), slice.assert_char_boundary(1));
    assert_eq!(
        Err(BoundaryViolation {
            in_left: false,
            local_offset: 1
        }),
        slice.assert_char_boundary(2)
    );
}

#[test]
fn char_boundary_rejected_in_left_segment() {
    let bytes: &[u8] = b"\xc3\xa9b\0\0cd";
    let slice = GapSlice {
        bytes,
        left_summary: summarize_bytes(b"\xc3\xa9b"),
        len_right: 2,
    };
    assert!(!slice.is_char_boundary(1));
    assert_eq!(
        Err(BoundaryViolation {
            in_left: true,
            local_offset: 1
        }),
        slice.assert_char_boundary(1)
    );
}

#[test]
fn truncate_last_char_cases() {
    // Right segment longer than the removed codepoint.
    let bytes: &[u8] = b"ab\0cd";
    let mut slice = GapSlice {
        bytes,
        left_summary: summarize_bytes(b"ab"),
        len_right: 2,
    };
    let summary = slice.summarize();
    let new_summary = slice.truncate_last_char(summary);
    assert_eq!(b"abc".to_vec(), slice.live_bytes());
    assert_eq!(3, new_summary.bytes);
    // Right segment exactly the removed codepoint.
    let bytes: &[u8] = b"ab\0\xc3\xa9";
    let mut slice = GapSlice {
        bytes,
        left_summary: summarize_bytes(b"ab"),
        len_right: 2,
    };
    let summary = slice.summarize();
    assert_eq!(3, summary.chars);
    let new_summary = slice.truncate_last_char(summary);
    assert_eq!(b"ab".to_vec(), slice.live_bytes());
    assert_eq!(2, new_summary.chars);
    // No right segment: the left segment shrinks.
    let bytes: &[u8] = b"a\xc3\xa9";
    let mut slice = GapSlice {
        bytes,
        left_summary: summarize_bytes(bytes),
        len_right: 0,
    };
    let summary = slice.summarize();
    let new_summary = slice.truncate_last_char(summary);
    assert_eq!(b"a".to_vec(), slice.live_bytes());
    assert_eq!(1, new_summary.bytes);
    assert_eq!(1, new_summary.chars);
}

#[test]
fn truncate_restores_by_reappending() {
    let bytes: &[u8] = b"a\xc3\xa9";
    let mut slice = GapSlice {
        bytes,
        left_summary: summarize_bytes(bytes),
        len_right: 0,
    };
    let summary = slice.summarize();
    let new_summary = slice.truncate_last_char(summary);
    // Re-appending the removed encoding restores content, length and summary.
    let mut restored = slice.live_bytes();
    restored.extend_from_slice(b"\xc3\xa9");
    assert_eq!(bytes.to_vec(), restored);
    assert_eq!(summary, new_summary.add(summarize_bytes(b"\xc3\xa9")));
}

#[test]
fn trailing_newline_and_line_break_noop() {
    let bytes: &[u8] = b"bar\r\n";
    let slice = GapSlice {
        bytes,
        left_summary: summarize_bytes(bytes),
        len_right: 0,
    };
    assert!(slice.has_trailing_newline());
    let bytes2: &[u8] = b"bar";
    let mut slice2 = GapSlice {
        bytes: bytes2,
        left_summary: summarize_bytes(bytes2),
        len_right: 0,
    };
    assert!(!slice2.has_trailing_newline());
    let summary = slice2.summarize();
    let unchanged = slice2.truncate_trailing_line_break(summary);
    assert_eq!(summary, unchanged);
    assert_eq!(b"bar".to_vec(), slice2.live_bytes());
}

#[test]
fn line_break_truncation_second_call_is_noop() {
    let bytes: &[u8] = b"bar\n";
    let mut slice = GapSlice {
        bytes,
        left_summary: summarize_bytes(bytes),
        len_right: 0,
    };
    let summary = slice.summarize();
    let once = slice.truncate_trailing_line_break(summary);
    assert_eq!(3, once.bytes);
    let twice = slice.truncate_trailing_line_break(once);
    assert_eq!(once, twice);
    assert_eq!(b"bar".to_vec(), slice.live_bytes());
}

#[test]
fn crlf_summary_drops_two_bytes() {
    let bytes: &[u8] = b"bar\r\n";
    let mut slice = GapSlice {
        bytes,
        left_summary: summarize_bytes(bytes),
        len_right: 0,
    };
    let summary = slice.summarize();
    let after = slice.truncate_trailing_line_break(summary);
    assert_eq!(summary.bytes - 2, after.bytes);
    assert_eq!(summary.line_breaks - 1, after.line_breaks);
}

#[test]
fn invariant_checker() {
    let good_bytes: &[u8] = b"He\0\0\0llo";
    let good = GapSlice {
        bytes: good_bytes,
        left_summary: summarize_bytes(b"He"),
        len_right: 3,
    };
    assert!(good.assert_invariants());
    // A slice whose right segment is empty must report its whole backing
    // span as the left segment.
    let bad_bytes: &[u8] = b"Hello";
    let bad = GapSlice {
        bytes: bad_bytes,
        left_summary: summarize_bytes(b"He"),
        len_right: 0,
    };
    assert!(!bad.assert_invariants());
    // A stale cached summary fails the checker too.
    let stale = GapSlice {
        bytes: bad_bytes,
        left_summary: ChunkSummary {
            bytes: 5,
            chars: 4,
            line_breaks: 0,
        },
        len_right: 0,
    };
    assert!(!stale.assert_invariants());
}

#[test]
fn empty_slice() {
    let slice = GapSlice::empty();
    assert_eq!(0, slice.len());
    assert!(!slice.has_trailing_newline());
    assert_eq!(
        ChunkSummary {
            bytes: 0,
            chars: 0,
            line_breaks: 0
        },
        slice.summarize()
    );
    assert_eq!(0, slice.live_bytes().len());
}
