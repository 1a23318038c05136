use relay_core::reassembly::{
    parse_header, DatagramOutcome, PendingFrame, Reassembler, UDP_MAX_PENDING_FRAMES,
};

fn datagram(id: u32, idx: u16, total: u16, size: u32, payload: &[u8]) -> Vec<u8> {
    let mut d = Vec::new();
    d.extend_from_slice(&id.to_be_bytes());
    d.extend_from_slice(&idx.to_be_bytes());
    d.extend_from_slice(&total.to_be_bytes());
    d.extend_from_slice(&size.to_be_bytes());
    d.extend_from_slice(payload);
    d
}

fn expect_completed(out: DatagramOutcome) -> Vec<u8> {
    match out {
        DatagramOutcome::Completed(f) => f,
        _ => panic!("expected a completed frame"),
    }
}

#[test]
fn header_decodes_big_endian_fields() {
    let d = datagram(5, 2, 3, 256, &[]);
    let h = parse_header(&d).unwrap();
    assert_eq!(h.frame_id, 5);
    assert_eq!(h.fragment_index, 2);
    assert_eq!(h.total_fragments, 3);
    assert_eq!(h.total_size, 256);
}

#[test]
fn header_too_short_is_rejected() {
    assert!(parse_header(&[0, 0, 0, 1, 0]).is_none());
    assert!(parse_header(&[]).is_none());
}

#[test]
fn undersized_datagram_is_dropped() {
    let mut r = Reassembler::new(UDP_MAX_PENDING_FRAMES);
    assert!(matches!(r.handle_datagram(&[1, 2, 3], 0), DatagramOutcome::TooShort));
    assert_eq!(r.pending_count(), 0);
}

#[test]
fn scenario_three_fragments_out_of_order() {
    let f0 = [0xFF, 0xD8, 0x10];
    let f1 = [0x20, 0x30];
    let f2 = [0x40, 0xFF, 0xD9];
    let mut r = Reassembler::new(UDP_MAX_PENDING_FRAMES);
    assert!(matches!(
        r.handle_datagram(&datagram(1, 2, 3, 8, &f2), 0),
        DatagramOutcome::Stored
    ));
    assert!(matches!(
        r.handle_datagram(&datagram(1, 0, 3, 8, &f0), 1),
        DatagramOutcome::Stored
    ));
    let out = r.handle_datagram(&datagram(1, 1, 3, 8, &f1), 2);
    let frame = expect_completed(out);
    assert_eq!(frame, vec![0xFF, 0xD8, 0x10, 0x20, 0x30, 0x40, 0xFF, 0xD9]);
    assert_eq!(r.last_completed(), Some(1));
    assert_eq!(r.pending_count(), 0);
}

#[test]
fn duplicate_fragment_counts_once_and_first_write_wins() {
    let mut r = Reassembler::new(UDP_MAX_PENDING_FRAMES);
    assert!(matches!(
        r.handle_datagram(&datagram(1, 0, 2, 4, &[0xFF, 0xD8]), 0),
        DatagramOutcome::Stored
    ));
    // The same index again, with different bytes: idempotent, counted once.
    assert!(matches!(
        r.handle_datagram(&datagram(1, 0, 2, 4, &[0x77, 0x77]), 1),
        DatagramOutcome::Stored
    ));
    let frame = expect_completed(r.handle_datagram(&datagram(1, 1, 2, 4, &[0x01, 0x02]), 2));
    assert_eq!(frame, vec![0xFF, 0xD8, 0x01, 0x02]);
}

#[test]
fn stale_identifiers_are_gated_after_success() {
    let mut r = Reassembler::new(UDP_MAX_PENDING_FRAMES);
    let frame = expect_completed(r.handle_datagram(&datagram(5, 0, 1, 2, &[0xFF, 0xD8]), 0));
    assert_eq!(frame, vec![0xFF, 0xD8]);
    assert_eq!(r.last_completed(), Some(5));
    // Identifier 5 again, and an older one: both dropped, no record created.
    assert!(matches!(
        r.handle_datagram(&datagram(5, 0, 2, 4, &[0xAA]), 1),
        DatagramOutcome::Stale
    ));
    assert!(matches!(
        r.handle_datagram(&datagram(4, 0, 2, 4, &[0xAA]), 2),
        DatagramOutcome::Stale
    ));
    assert_eq!(r.pending_count(), 0);
    assert!(!r.has_pending(5));
    assert!(!r.has_pending(4));
}

#[test]
fn failed_verification_still_advances_the_gate() {
    let mut r = Reassembler::new(UDP_MAX_PENDING_FRAMES);
    // Completes but does not open with the start marker: rejected.
    assert!(matches!(
        r.handle_datagram(&datagram(5, 0, 1, 2, &[0x00, 0x01]), 0),
        DatagramOutcome::Rejected
    ));
    assert_eq!(r.last_completed(), Some(5));
    assert!(matches!(
        r.handle_datagram(&datagram(3, 0, 1, 2, &[0xFF, 0xD8]), 1),
        DatagramOutcome::Stale
    ));
    assert_eq!(r.pending_count(), 0);
}

#[test]
fn timed_out_record_is_purged_and_cannot_complete() {
    let mut r = Reassembler::new(UDP_MAX_PENDING_FRAMES);
    // Frame 5 starts at t=0 and receives one of its two fragments.
    assert!(matches!(
        r.handle_datagram(&datagram(5, 0, 2, 4, &[0xFF, 0xD8]), 0),
        DatagramOutcome::Stored
    ));
    assert!(r.has_pending(5));
    // Frame 3 completes at t=1000; the sweep purges the timed-out record 5.
    expect_completed(r.handle_datagram(&datagram(3, 0, 1, 2, &[0xFF, 0xD8]), 1000));
    assert!(!r.has_pending(5));
    // The remaining fragment arrives late: it re-creates the record from
    // scratch, so the frame never completes from it.
    assert!(matches!(
        r.handle_datagram(&datagram(5, 1, 2, 4, &[0xAB, 0xCD]), 1001),
        DatagramOutcome::Stored
    ));
    assert!(r.has_pending(5));
    assert_eq!(r.last_completed(), Some(3));
}

#[test]
fn fresh_record_survives_sweep_within_timeout() {
    let mut r = Reassembler::new(UDP_MAX_PENDING_FRAMES);
    assert!(matches!(
        r.handle_datagram(&datagram(5, 0, 2, 4, &[0xFF, 0xD8]), 0),
        DatagramOutcome::Stored
    ));
    // Frame 3 completes within the timeout window: record 5 stays.
    expect_completed(r.handle_datagram(&datagram(3, 0, 1, 2, &[0xFF, 0xD8]), 100));
    assert!(r.has_pending(5));
    // Its second fragment still completes it.
    let frame = expect_completed(r.handle_datagram(&datagram(5, 1, 2, 4, &[0xAB, 0xCD]), 200));
    assert_eq!(frame, vec![0xFF, 0xD8, 0xAB, 0xCD]);
}

#[test]
fn pending_bound_evicts_smallest_identifiers() {
    let mut r = Reassembler::new(2);
    for id in [20u32, 21, 22, 23] {
        assert!(matches!(
            r.handle_datagram(&datagram(id, 0, 2, 4, &[0xFF, 0xD8]), 0),
            DatagramOutcome::Stored
        ));
    }
    assert_eq!(r.pending_count(), 4);
    // A completion triggers the sweep and then the eviction loop.
    expect_completed(r.handle_datagram(&datagram(15, 0, 1, 2, &[0xFF, 0xD8]), 0));
    assert_eq!(r.pending_count(), 2);
    assert!(!r.has_pending(20));
    assert!(!r.has_pending(21));
    assert!(r.has_pending(22));
    assert!(r.has_pending(23));
}

#[test]
fn completion_sweeps_older_identifiers() {
    let mut r = Reassembler::new(UDP_MAX_PENDING_FRAMES);
    assert!(matches!(
        r.handle_datagram(&datagram(7, 0, 2, 4, &[0xFF, 0xD8]), 0),
        DatagramOutcome::Stored
    ));
    // Frame 9 completes: the record for 7 is older than 9 and is dropped.
    expect_completed(r.handle_datagram(&datagram(9, 0, 1, 2, &[0xFF, 0xD8]), 1));
    assert!(!r.has_pending(7));
    assert_eq!(r.pending_count(), 0);
}

#[test]
fn out_of_range_index_is_ignored() {
    let mut r = Reassembler::new(UDP_MAX_PENDING_FRAMES);
    assert!(matches!(
        r.handle_datagram(&datagram(1, 9, 2, 4, &[0xAA]), 0),
        DatagramOutcome::Stored
    ));
    assert!(r.has_pending(1));
    assert!(matches!(
        r.handle_datagram(&datagram(1, 0, 2, 4, &[0xFF, 0xD8]), 1),
        DatagramOutcome::Stored
    ));
    let frame = expect_completed(r.handle_datagram(&datagram(1, 1, 2, 4, &[0x01]), 2));
    assert_eq!(frame, vec![0xFF, 0xD8, 0x01]);
}

#[test]
fn zero_fragment_record_lingers_incomplete() {
    let mut r = Reassembler::new(UDP_MAX_PENDING_FRAMES);
    assert!(matches!(
        r.handle_datagram(&datagram(1, 0, 0, 0, &[]), 0),
        DatagramOutcome::Stored
    ));
    assert!(r.has_pending(1));
    assert_eq!(r.last_completed(), None);
}

#[test]
fn pending_frame_counts_and_assembles() {
    let mut pf = PendingFrame::new(7, 2, 5, 100);
    assert!(!pf.is_complete());
    assert!(pf.assemble().is_none());
    assert!(!pf.add_fragment(0, vec![0xFF, 0xD8, 0x01]));
    assert!(!pf.add_fragment(0, vec![0x99]));
    assert!(!pf.is_complete());
    assert!(pf.add_fragment(1, vec![0x02, 0x03]));
    assert!(pf.is_complete());
    assert_eq!(pf.assemble().unwrap(), vec![0xFF, 0xD8, 0x01, 0x02, 0x03]);
}

#[test]
fn pending_frame_rejects_out_of_range_index() {
    let mut pf = PendingFrame::new(7, 2, 5, 100);
    assert!(!pf.add_fragment(2, vec![0x01]));
    assert!(!pf.is_complete());
}

#[test]
fn pending_frame_expiry_is_strict() {
    let pf = PendingFrame::new(7, 2, 5, 100);
    assert!(!pf.is_expired(100));
    assert!(!pf.is_expired(600));
    assert!(pf.is_expired(601));
    // A clock that went backward never expires the record.
    assert!(!pf.is_expired(0));
}
