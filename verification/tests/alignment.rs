//! The chunk locator and the work distributor on their own.

use chunkscan::chunk::{align_chunk, read_window};
use chunkscan::distribute::WorkDistributor;
use chunkscan::error::ScanError;

#[test]
fn distributor_hands_out_multiples_until_past_the_end() {
    let mut d = WorkDistributor::new(10, 4);
    assert_eq!(d.next_chunk_start(), Some(0));
    assert_eq!(d.next_chunk_start(), Some(4));
    assert_eq!(d.next_chunk_start(), Some(8));
    assert_eq!(d.next_chunk_start(), None);
    assert_eq!(d.next_chunk_start(), None);
}

#[test]
fn distributor_still_claims_an_offset_equal_to_the_length() {
    // A nominal start exactly at the end of the file is still handed out;
    // its chunk realigns to nothing.
    let mut d = WorkDistributor::new(8, 4);
    assert_eq!(d.next_chunk_start(), Some(0));
    assert_eq!(d.next_chunk_start(), Some(4));
    assert_eq!(d.next_chunk_start(), Some(8));
    assert_eq!(d.next_chunk_start(), None);
}

#[test]
fn distributor_on_an_empty_file() {
    let mut d = WorkDistributor::new(0, 16);
    assert_eq!(d.next_chunk_start(), Some(0));
    assert_eq!(d.next_chunk_start(), None);
}

#[test]
fn window_clamps_at_both_ends() {
    // Head of the file: no lookback to apply.
    assert_eq!(read_window(0, 8, 64, 100), (0, 8));
    // Lookback clamped at the head.
    assert_eq!(read_window(3, 8, 64, 100), (0, 11));
    // Full lookback in the middle.
    assert_eq!(read_window(70, 8, 64, 100), (6, 78));
    // End clamped at the file length.
    assert_eq!(read_window(96, 8, 64, 100), (32, 100));
}

#[test]
fn align_starts_after_the_margin_terminator_and_ends_at_the_last() {
    let w = b"XX\nAB;1\nCD".to_vec();
    // margin 3: bytes XX\n precede the nominal start
    assert_eq!(align_chunk(&w, 3, false), Ok((3, 8)));
}

#[test]
fn align_at_file_start_needs_no_terminator() {
    let w = b"AB;1\nCD".to_vec();
    assert_eq!(align_chunk(&w, 0, true), Ok((0, 5)));
}

#[test]
fn align_without_any_terminator_yields_an_empty_range() {
    let w = b"ABCD".to_vec();
    assert_eq!(align_chunk(&w, 0, true), Ok((0, 0)));
}

#[test]
fn align_empty_window() {
    let w = Vec::new();
    assert_eq!(align_chunk(&w, 0, true), Ok((0, 0)));
}

#[test]
fn align_fails_when_the_margin_has_no_terminator() {
    let w = b"AAAAAB;1\n".to_vec();
    assert_eq!(align_chunk(&w, 5, false), Err(ScanError::Alignment));
}

#[test]
fn align_skips_a_chunk_that_is_inside_one_record() {
    // The whole nominal range lies inside one long record: the chunk
    // realigns to the empty range right after the margin's terminator.
    let w = b"X\nAAAAAAAA".to_vec();
    assert_eq!(align_chunk(&w, 2, false), Ok((2, 2)));
}
