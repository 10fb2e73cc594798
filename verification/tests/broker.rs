use market_feed::{ConnectionService, SubscriptionError};

const FEED: &str = "x;NVDA;100.0;101.5;99.0;102.0;500;12;1700000000000;1\n";

fn broker_with_nvda() -> ConnectionService {
    let mut cs = ConnectionService::new();
    cs.add_ohlc_json(FEED).unwrap();
    cs
}

#[test]
fn subscriber_ids_are_fresh_and_monotonic() {
    let mut cs = ConnectionService::new();
    let a = cs.add_subscriber();
    let b = cs.add_subscriber();
    cs.remove_subscriber(a);
    let c = cs.add_subscriber();
    assert!(a < b && b < c);
}

#[test]
fn subscribe_seeds_queue_with_snapshot() {
    let mut cs = broker_with_nvda();
    let m = cs.add_ohlc_json(FEED).unwrap();
    let id = cs.add_subscriber();
    cs.add_stock_subscription(id, &"NVDA".to_string()).unwrap();
    let seed = cs.read_events(&id);
    // two ingested candles, then the sentinel
    assert_eq!(seed.len(), 3);
    assert_eq!(seed[0], m.to_string());
    assert_eq!(seed[1], m.to_string());
    assert_eq!(seed[2], "End of Update");
}

#[test]
fn publish_reaches_exactly_the_subscribers() {
    let mut cs = broker_with_nvda();
    let a = cs.add_subscriber();
    let b = cs.add_subscriber();
    cs.add_stock_subscription(a, &"NVDA".to_string()).unwrap();
    let _ = cs.read_events(&a);
    let subs = cs.get_subscribers(&"NVDA".to_string());
    assert_eq!(subs, vec![a]);
    cs.add_events(&subs, &"hello".to_string());
    assert_eq!(cs.read_events(&a), vec!["hello".to_string()]);
    assert_eq!(cs.read_events(&b), Vec::<String>::new());
}

#[test]
fn backpressure_keeps_the_oldest_thousand() {
    let mut cs = broker_with_nvda();
    let id = cs.add_subscriber();
    cs.add_stock_subscription(id, &"NVDA".to_string()).unwrap();
    let _ = cs.read_events(&id);
    let subs = cs.get_subscribers(&"NVDA".to_string());
    for k in 0..1001u32 {
        cs.add_events(&subs, &format!("event {}", k));
    }
    let pending = cs.read_events(&id);
    // the queue saturated at exactly 1000 entries, earliest first;
    // the freshest event was dropped
    assert_eq!(pending.len(), 1000);
    assert_eq!(pending[0], "event 0");
    assert_eq!(pending[999], "event 999");
    // after the drain, delivery resumes
    cs.add_events(&subs, &"after".to_string());
    assert_eq!(cs.read_events(&id), vec!["after".to_string()]);
}

#[test]
fn unsubscribe_removes_from_fanout() {
    let mut cs = broker_with_nvda();
    let id = cs.add_subscriber();
    cs.add_stock_subscription(id, &"NVDA".to_string()).unwrap();
    cs.remove_stock_subscription(id, &"NVDA".to_string());
    assert_eq!(cs.get_subscribers(&"NVDA".to_string()), Vec::<usize>::new());
    let _ = cs.read_events(&id);
    let subs = cs.get_subscribers(&"NVDA".to_string());
    cs.add_events(&subs, &"lost".to_string());
    assert_eq!(cs.read_events(&id), Vec::<String>::new());
    // unsubscribing again, or with an empty or wrong name, changes nothing
    cs.remove_stock_subscription(id, &"NVDA".to_string());
    cs.remove_stock_subscription(id, &"".to_string());
    cs.remove_stock_subscription(id, &"AMD".to_string());
}

#[test]
fn rejected_subscription_keeps_the_prior_one() {
    let mut cs = broker_with_nvda();
    let id = cs.add_subscriber();
    cs.add_stock_subscription(id, &"NVDA".to_string()).unwrap();
    let _ = cs.read_events(&id);
    assert_eq!(
        cs.add_stock_subscription(id, &"FAKE".to_string()),
        Err(SubscriptionError::UnknownSymbol)
    );
    // the NVDA subscription survived the rejected switch
    assert_eq!(cs.get_subscribers(&"NVDA".to_string()), vec![id]);
    assert_eq!(
        cs.add_stock_subscription(9999, &"NVDA".to_string()),
        Err(SubscriptionError::UnknownSubscriber)
    );
}

#[test]
fn publish_then_drain_then_drain_again() {
    let mut cs = broker_with_nvda();
    let id = cs.add_subscriber();
    cs.add_stock_subscription(id, &"NVDA".to_string()).unwrap();
    let _ = cs.read_events(&id);

    let m = cs.add_ohlc_json(FEED).unwrap();
    let rendered = m.to_string();
    let subs = cs.get_subscribers(&m.stock_name);
    cs.add_events(&subs, &rendered);

    // exactly the one published rendering is pending
    assert_eq!(cs.read_events(&id), vec![rendered]);
    // and a second drain right after finds nothing
    assert_eq!(cs.read_events(&id), Vec::<String>::new());
}

#[test]
fn teardown_is_idempotent_and_stops_delivery() {
    let mut cs = broker_with_nvda();
    let id = cs.add_subscriber();
    cs.add_stock_subscription(id, &"NVDA".to_string()).unwrap();
    cs.remove_subscriber(id);
    cs.remove_subscriber(id);
    assert_eq!(cs.get_subscribers(&"NVDA".to_string()), Vec::<usize>::new());
    assert_eq!(cs.read_events(&id), Vec::<String>::new());
}

#[test]
fn aggregate_feed_subscription_and_sync() {
    let mut cs = broker_with_nvda();
    let id = cs.add_subscriber();
    cs.add_stock_subscription(id, &"DataFeed".to_string()).unwrap();
    // nothing aggregated has been published yet: only the sentinel seeds
    assert_eq!(cs.read_events(&id), vec!["End of Update".to_string()]);

    cs.sync_data_events();
    let msgs = cs.read_events(&id);
    assert_eq!(
        msgs,
        vec![
            "{\"stock_n\": 1, \"trade_n\": 12, \"volume_n\": 500.000000, \
             \"market_v_n\": 50750000000000000, \"timestamp\": 1700000000000}"
                .to_string()
        ]
    );

    // the counters were cleared; a second sync reports zeros
    cs.sync_data_events();
    let msgs = cs.read_events(&id);
    assert_eq!(
        msgs,
        vec![
            "{\"stock_n\": 1, \"trade_n\": 0, \"volume_n\": 0.000000, \
             \"market_v_n\": 0, \"timestamp\": 1700000000000}"
                .to_string()
        ]
    );
}
