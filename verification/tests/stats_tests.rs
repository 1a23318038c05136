use relay_core::stats::Stats;

#[test]
fn counters_start_at_zero() {
    let s = Stats::new();
    assert_eq!(s.total_frames, 0);
    assert_eq!(s.total_bytes, 0);
    assert_eq!(s.active_clients, 0);
}

#[test]
fn add_frame_bumps_both_counters() {
    let mut s = Stats::new();
    s.add_frame(100);
    s.add_frame(50);
    assert_eq!(s.total_frames, 2);
    assert_eq!(s.total_bytes, 150);
    assert_eq!(s.active_clients, 0);
}

#[test]
fn counters_wrap_at_the_machine_width() {
    let mut s = Stats::new();
    s.add_frame(u64::MAX);
    s.add_frame(1);
    assert_eq!(s.total_frames, 2);
    assert_eq!(s.total_bytes, 0);
}

#[test]
fn client_gauge_moves_up_and_down() {
    let mut s = Stats::new();
    s.client_connected();
    s.client_connected();
    assert_eq!(s.active_clients, 2);
    s.client_disconnected();
    assert_eq!(s.active_clients, 1);
    assert_eq!(s.total_frames, 0);
}
