use graphql_test::keyed_broker::KeyedBroker;

#[test]
fn publish_reaches_every_subscriber_of_the_key() {
    let mut broker: KeyedBroker<u32> = KeyedBroker::new();
    let (a, mut ra) = broker.subscribe("room".to_string());
    let (b, mut rb) = broker.subscribe("room".to_string());
    let (_, mut rc) = broker.subscribe("other".to_string());
    assert_ne!(a, b);
    assert_eq!(broker.publish("room".to_string(), 7), 2);
    assert_eq!(ra.try_next().unwrap(), Some(7));
    assert_eq!(rb.try_next().unwrap(), Some(7));
    assert!(rc.try_next().is_err());
}

#[test]
fn counts_follow_subscriptions() {
    let mut broker: KeyedBroker<String> = KeyedBroker::new();
    assert_eq!(broker.subscriber_count("k".to_string()), 0);
    let (a, _ra) = broker.subscribe("k".to_string());
    assert_eq!(broker.subscriber_count("k".to_string()), 1);
    let (_b, _rb) = broker.subscribe("k".to_string());
    assert_eq!(broker.subscriber_count("k".to_string()), 2);
    broker.unsubscribe("k", a);
    assert_eq!(broker.subscriber_count("k".to_string()), 1);
    assert_eq!(broker.publish("k".to_string(), "x".to_string()), 1);
}

#[test]
fn unsubscribe_undoes_subscribe() {
    let mut broker: KeyedBroker<u8> = KeyedBroker::new();
    let (_a, _ra) = broker.subscribe("k".to_string());
    let (b, _rb) = broker.subscribe("k".to_string());
    broker.unsubscribe("k", b);
    assert_eq!(broker.subscriber_count("k".to_string()), 1);
    // unknown ids and keys change nothing
    broker.unsubscribe("k", 99);
    broker.unsubscribe("none", 0);
    assert_eq!(broker.subscriber_count("k".to_string()), 1);
}

#[test]
fn smallest_free_id_is_reused() {
    let mut broker: KeyedBroker<u8> = KeyedBroker::new();
    let (a, _ra) = broker.subscribe("k".to_string());
    let (b, _rb) = broker.subscribe("k".to_string());
    assert_eq!((a, b), (0, 1));
    broker.unsubscribe("k", 0);
    let (c, _rc) = broker.subscribe("k".to_string());
    assert_eq!(c, 0);
}

#[test]
fn publish_to_key_without_subscribers() {
    let mut broker: KeyedBroker<u8> = KeyedBroker::new();
    assert_eq!(broker.publish("nobody".to_string(), 1), 0);
}

#[test]
fn publish_to_dropped_receiver_still_counts_it() {
    let mut broker: KeyedBroker<u8> = KeyedBroker::new();
    let (_a, ra) = broker.subscribe("k".to_string());
    drop(ra);
    assert_eq!(broker.publish("k".to_string(), 1), 1);
}

#[test]
fn subscriber_gets_later_messages_in_order() {
    let mut broker: KeyedBroker<u32> = KeyedBroker::new();
    broker.publish("k".to_string(), 1);
    let (_, mut rx) = broker.subscribe("k".to_string());
    broker.publish("k".to_string(), 2);
    broker.publish("other".to_string(), 9);
    broker.publish("k".to_string(), 3);
    assert_eq!(rx.try_next().unwrap(), Some(2));
    assert_eq!(rx.try_next().unwrap(), Some(3));
    assert!(rx.try_next().is_err());
}

#[test]
fn other_subscriptions_between_publications_change_nothing_for_a_subscriber() {
    let mut broker: KeyedBroker<u32> = KeyedBroker::new();
    let (_, mut rx) = broker.subscribe("k".to_string());
    broker.publish("k".to_string(), 1);
    let (b, _rb) = broker.subscribe("k".to_string());
    broker.publish("k".to_string(), 2);
    broker.unsubscribe("k", b);
    broker.publish("k".to_string(), 3);
    assert_eq!(rx.try_next().unwrap(), Some(1));
    assert_eq!(rx.try_next().unwrap(), Some(2));
    assert_eq!(rx.try_next().unwrap(), Some(3));
    assert!(rx.try_next().is_err());
}
