use relay_core::hub::{session_action, Hub, RecvOutcome, SessionAction, BROADCAST_CHANNEL_SIZE};

fn expect_frame(out: RecvOutcome) -> Vec<u8> {
    match out {
        RecvOutcome::Frame(f) => f,
        _ => panic!("expected a delivered frame"),
    }
}

#[test]
fn publish_with_no_subscribers_is_a_no_op() {
    let mut hub = Hub::new(BROADCAST_CHANNEL_SIZE);
    hub.publish(vec![0xFF, 0xD8, 0x01, 0xFF, 0xD9]);
    assert_eq!(hub.subscriber_count(), 0);
}

#[test]
fn no_courtesy_frame_before_anything_published() {
    let mut hub = Hub::new(BROADCAST_CHANNEL_SIZE);
    let (courtesy, id) = hub.connect();
    assert!(courtesy.is_none());
    assert_eq!(id, 0);
    assert!(matches!(hub.recv(id), RecvOutcome::Empty));
}

#[test]
fn late_joiner_gets_exactly_the_cached_frame_first() {
    let mut hub = Hub::new(BROADCAST_CHANNEL_SIZE);
    hub.publish(vec![0xF0]);
    hub.publish(vec![0xF1]);
    let (courtesy, id) = hub.connect();
    assert_eq!(courtesy.unwrap(), vec![0xF1]);
    // Nothing published since connecting: the queue is empty.
    assert!(matches!(hub.recv(id), RecvOutcome::Empty));
    hub.publish(vec![0xF2]);
    assert_eq!(expect_frame(hub.recv(id)), vec![0xF2]);
}

#[test]
fn subscribers_receive_frames_in_publish_order() {
    let mut hub = Hub::new(BROADCAST_CHANNEL_SIZE);
    let id = hub.subscribe();
    hub.publish(vec![1]);
    hub.publish(vec![2]);
    hub.publish(vec![3]);
    assert_eq!(expect_frame(hub.recv(id)), vec![1]);
    assert_eq!(expect_frame(hub.recv(id)), vec![2]);
    assert_eq!(expect_frame(hub.recv(id)), vec![3]);
    assert!(matches!(hub.recv(id), RecvOutcome::Empty));
}

#[test]
fn slow_subscriber_lags_without_affecting_others() {
    let mut hub = Hub::new(2);
    let stuck = hub.subscribe();
    let live = hub.subscribe();
    // The live subscriber consumes after every publish and misses nothing,
    // even while the stuck one overflows.
    for n in 1u8..=4 {
        hub.publish(vec![n]);
        assert_eq!(expect_frame(hub.recv(live)), vec![n]);
    }
    // The stuck subscriber is told how much it missed, then reads what its
    // bounded queue retained: the newest frames, oldest dropped first.
    match hub.recv(stuck) {
        RecvOutcome::Lagged(n) => assert_eq!(n, 2),
        _ => panic!("expected a lag notice"),
    }
    assert_eq!(expect_frame(hub.recv(stuck)), vec![3]);
    assert_eq!(expect_frame(hub.recv(stuck)), vec![4]);
    assert!(matches!(hub.recv(stuck), RecvOutcome::Empty));
}

#[test]
fn closing_ends_the_stream_after_draining() {
    let mut hub = Hub::new(BROADCAST_CHANNEL_SIZE);
    let id = hub.subscribe();
    hub.publish(vec![9]);
    hub.close();
    assert_eq!(expect_frame(hub.recv(id)), vec![9]);
    assert!(matches!(hub.recv(id), RecvOutcome::Closed));
}

#[test]
fn unsubscribed_consumer_is_no_longer_served() {
    let mut hub = Hub::new(BROADCAST_CHANNEL_SIZE);
    let id = hub.subscribe();
    hub.publish(vec![1]);
    hub.unsubscribe(id);
    hub.publish(vec![2]);
    assert!(matches!(hub.recv(id), RecvOutcome::Empty));
}

#[test]
fn session_forwards_frames_and_survives_lag() {
    match session_action(RecvOutcome::Frame(vec![1, 2])) {
        SessionAction::Forward(f) => assert_eq!(f, vec![1, 2]),
        _ => panic!("a delivered frame must be forwarded"),
    }
    assert!(matches!(
        session_action(RecvOutcome::Lagged(7)),
        SessionAction::NoteLag(7)
    ));
    assert!(matches!(session_action(RecvOutcome::Empty), SessionAction::Wait));
    assert!(matches!(session_action(RecvOutcome::Closed), SessionAction::End));
}
