use paper_trader::hub::{PriceHub, PriceUpdate, DEFAULT_QUEUE_CAPACITY};

fn tick(price: u64) -> PriceUpdate {
    PriceUpdate { symbol: "BTC".to_string(), price, timestamp: price }
}

#[test]
fn subscriptions_are_idempotent() {
    let mut hub = PriceHub::new(DEFAULT_QUEUE_CAPACITY);
    let btc = "BTC".to_string();
    hub.subscribe_symbol(&btc);
    hub.subscribe_symbol(&btc);
    assert_eq!(hub.subscribed_symbols(), vec![btc.clone()]);
    hub.unsubscribe_symbol(&btc);
    hub.unsubscribe_symbol(&btc);
    assert!(!hub.is_subscribed(&btc));
}

#[test]
fn every_subscriber_gets_every_update() {
    let mut hub = PriceHub::new(10);
    let a = hub.add_subscriber();
    let b = hub.add_subscriber();
    hub.publish(&tick(1));
    hub.publish(&tick(2));
    assert_eq!(hub.receive(a).unwrap().price, 1);
    assert_eq!(hub.receive(a).unwrap().price, 2);
    assert!(hub.receive(a).is_none());
    assert_eq!(hub.receive(b).unwrap().price, 1);
}

#[test]
fn full_queue_drops_oldest() {
    let mut hub = PriceHub::new(2);
    let a = hub.add_subscriber();
    for p in 1..=4 {
        hub.publish(&tick(p));
    }
    assert_eq!(hub.receive(a).unwrap().price, 3);
    assert_eq!(hub.receive(a).unwrap().price, 4);
    assert!(hub.receive(a).is_none());
}
