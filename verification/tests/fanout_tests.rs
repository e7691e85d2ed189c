use mdserve::fanout::Broadcaster;
use mdserve::ServerMessage;

#[test]
fn test_subscriber_receives_published_event() {
    let mut b = Broadcaster::new(16);
    let s = b.subscribe();
    b.publish(ServerMessage::Reload);
    assert_eq!(b.try_recv(s), Some(ServerMessage::Reload));
    assert_eq!(b.try_recv(s), None);
}

#[test]
fn test_events_arrive_in_publish_order() {
    let mut b = Broadcaster::new(16);
    let s = b.subscribe();
    b.publish(ServerMessage::Reload);
    b.publish(ServerMessage::Pong);
    b.publish(ServerMessage::Reload);
    assert_eq!(b.try_recv(s), Some(ServerMessage::Reload));
    assert_eq!(b.try_recv(s), Some(ServerMessage::Pong));
    assert_eq!(b.try_recv(s), Some(ServerMessage::Reload));
    assert_eq!(b.try_recv(s), None);
}

#[test]
fn test_full_queue_drops_oldest_for_that_subscriber_only() {
    let mut b = Broadcaster::new(2);
    let lagging = b.subscribe();

    b.publish(ServerMessage::Reload);
    b.publish(ServerMessage::Reload);
    // The lagging subscriber's queue is full; this publish costs it its
    // oldest pending event only.
    b.publish(ServerMessage::Pong);

    assert_eq!(b.try_recv(lagging), Some(ServerMessage::Reload));
    assert_eq!(b.try_recv(lagging), Some(ServerMessage::Pong));
    assert_eq!(b.try_recv(lagging), None);
}

#[test]
fn test_never_reading_subscriber_does_not_stall_others() {
    let mut b = Broadcaster::new(2);
    let never_reads = b.subscribe();
    let reader = b.subscribe();

    // Far more events than the lagging subscriber's queue can hold:
    // publication never blocks, and the reading subscriber sees every
    // event promptly.
    for _ in 0..10 {
        b.publish(ServerMessage::Reload);
        assert_eq!(b.try_recv(reader), Some(ServerMessage::Reload));
    }
    assert_eq!(b.try_recv(reader), None);

    // The lagging subscriber lost only its own backlog.
    assert_eq!(b.try_recv(never_reads), Some(ServerMessage::Reload));
    assert_eq!(b.try_recv(never_reads), Some(ServerMessage::Reload));
    assert_eq!(b.try_recv(never_reads), None);
}

#[test]
fn test_fifty_subscribers_one_survivor_still_receives() {
    let mut b = Broadcaster::new(16);
    let mut ids = Vec::new();
    for _ in 0..50 {
        ids.push(b.subscribe());
    }
    assert_eq!(b.subscriber_count(), 50);

    b.publish(ServerMessage::Reload);

    // 49 disconnect without ever reading.
    let survivor = ids.pop().unwrap();
    for id in ids {
        b.unsubscribe(id);
    }
    assert_eq!(b.subscriber_count(), 1);

    // The one remaining subscriber still receives the event promptly.
    assert_eq!(b.try_recv(survivor), Some(ServerMessage::Reload));
    assert_eq!(b.try_recv(survivor), None);
}

#[test]
fn test_unsubscribe_affects_only_that_slot() {
    let mut b = Broadcaster::new(16);
    let s1 = b.subscribe();
    let s2 = b.subscribe();
    b.publish(ServerMessage::Reload);
    b.unsubscribe(s1);
    assert_eq!(b.try_recv(s1), None);
    assert_eq!(b.try_recv(s2), Some(ServerMessage::Reload));
}

#[test]
fn test_unknown_handle_is_harmless() {
    let mut b = Broadcaster::new(16);
    let s = b.subscribe();
    b.publish(ServerMessage::Reload);
    b.unsubscribe(12345);
    assert_eq!(b.try_recv(12345), None);
    assert_eq!(b.try_recv(s), Some(ServerMessage::Reload));
}
