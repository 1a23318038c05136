use relay_core::extract::{find_jpeg_frame, IngestBuffer};

#[test]
fn find_frame_basic() {
    let buf = [0xFF, 0xD8, 0xAA, 0xBB, 0xFF, 0xD9];
    assert_eq!(find_jpeg_frame(&buf), Some((0, 6)));
}

#[test]
fn find_frame_skips_leading_garbage() {
    let buf = [0x01, 0x02, 0xFF, 0xD8, 0xAA, 0xFF, 0xD9, 0x03];
    assert_eq!(find_jpeg_frame(&buf), Some((2, 7)));
}

#[test]
fn find_frame_none_without_end_marker() {
    let buf = [0xFF, 0xD8, 0xAA, 0xBB];
    assert_eq!(find_jpeg_frame(&buf), None);
}

#[test]
fn find_frame_end_must_follow_start() {
    let buf = [0xFF, 0xD9, 0xFF, 0xD8];
    assert_eq!(find_jpeg_frame(&buf), None);
}

#[test]
fn find_frame_empty_and_tiny_buffers() {
    assert_eq!(find_jpeg_frame(&[]), None);
    assert_eq!(find_jpeg_frame(&[0xFF]), None);
    assert_eq!(find_jpeg_frame(&[0xFF, 0xD8]), None);
}

#[test]
fn find_frame_shortest_possible() {
    let buf = [0xFF, 0xD8, 0xFF, 0xD9];
    assert_eq!(find_jpeg_frame(&buf), Some((0, 4)));
}

#[test]
fn scenario_two_reads_two_frames() {
    let mut buf = IngestBuffer::new(500_000);
    let frames = buf.push_bytes(&[0xFF, 0xD8, 0xAA, 0xBB, 0xFF, 0xD9]);
    assert_eq!(frames, vec![vec![0xFF, 0xD8, 0xAA, 0xBB, 0xFF, 0xD9]]);
    let frames = buf.push_bytes(&[0xFF, 0xD8, 0xCC, 0xFF, 0xD9]);
    assert_eq!(frames, vec![vec![0xFF, 0xD8, 0xCC, 0xFF, 0xD9]]);
    assert!(buf.buf.is_empty());
}

#[test]
fn extraction_is_chunking_independent() {
    let mut buf = IngestBuffer::new(500_000);
    assert!(buf.push_bytes(&[0xFF, 0xD8, 0xAA]).is_empty());
    let frames = buf.push_bytes(&[0xBB, 0xFF, 0xD9, 0xFF, 0xD8]);
    assert_eq!(frames, vec![vec![0xFF, 0xD8, 0xAA, 0xBB, 0xFF, 0xD9]]);
    let frames = buf.push_bytes(&[0xCC, 0xFF, 0xD9]);
    assert_eq!(frames, vec![vec![0xFF, 0xD8, 0xCC, 0xFF, 0xD9]]);
}

#[test]
fn extraction_discards_bytes_before_first_start() {
    let mut buf = IngestBuffer::new(500_000);
    let frames = buf.push_bytes(&[0x11, 0x22, 0x33, 0xFF, 0xD8, 0x44, 0xFF, 0xD9, 0x55]);
    assert_eq!(frames, vec![vec![0xFF, 0xD8, 0x44, 0xFF, 0xD9]]);
    assert_eq!(buf.buf, vec![0x55]);
}

#[test]
fn extraction_yields_concatenated_frames_in_order() {
    let mut buf = IngestBuffer::new(500_000);
    let frames = buf.push_bytes(&[
        0xFF, 0xD8, 0x01, 0xFF, 0xD9, 0xFF, 0xD8, 0x02, 0xFF, 0xD9, 0xFF, 0xD8, 0x03, 0xFF, 0xD9,
    ]);
    assert_eq!(
        frames,
        vec![
            vec![0xFF, 0xD8, 0x01, 0xFF, 0xD9],
            vec![0xFF, 0xD8, 0x02, 0xFF, 0xD9],
            vec![0xFF, 0xD8, 0x03, 0xFF, 0xD9],
        ]
    );
    assert!(buf.buf.is_empty());
}

#[test]
fn overflow_guard_clears_marker_free_buffer() {
    let mut buf = IngestBuffer::new(4);
    let frames = buf.push_bytes(&[1, 2, 3, 4, 5, 6, 7, 8, 9, 10]);
    assert!(frames.is_empty());
    assert!(buf.buf.is_empty());
}

#[test]
fn overflow_guard_keeps_tail_from_last_start_marker() {
    let mut buf = IngestBuffer::new(4);
    let frames = buf.push_bytes(&[0x01, 0x02, 0x03, 0x04, 0x05, 0xFF, 0xD8, 0xAA]);
    assert!(frames.is_empty());
    assert_eq!(buf.buf, vec![0xFF, 0xD8, 0xAA]);
}

#[test]
fn guard_does_not_fire_under_the_cap() {
    let mut buf = IngestBuffer::new(100);
    let frames = buf.push_bytes(&[0xFF, 0xD8, 0xAA]);
    assert!(frames.is_empty());
    assert_eq!(buf.buf, vec![0xFF, 0xD8, 0xAA]);
}

#[test]
fn frame_with_interior_start_marker_is_kept_whole() {
    // A second start marker inside a frame does not split it: the earliest
    // start and the earliest end after it bound the emitted frame.
    let mut buf = IngestBuffer::new(500_000);
    let frames = buf.push_bytes(&[0xFF, 0xD8, 0xFF, 0xD8, 0x01, 0xFF, 0xD9]);
    assert_eq!(frames, vec![vec![0xFF, 0xD8, 0xFF, 0xD8, 0x01, 0xFF, 0xD9]]);
}
