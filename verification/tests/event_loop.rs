use infonode::book::Update;
use infonode::event_loop::EventLoop;
use infonode::testmarket::GenClient;
use infonode::venue::Exchange;

#[test]
fn a_fresh_loop_has_no_subscriber_and_an_empty_summary() {
    let core: EventLoop<u32> = EventLoop::new();
    assert!(core.subscribers().is_empty());
    let summary = core.greeting();
    assert!(summary.asks.is_empty());
    assert!(summary.bids.is_empty());
    assert!(summary.spread.is_zero());
}

#[test]
fn a_newcomer_joins_only_if_it_took_the_greeting() {
    let mut core: EventLoop<&str> = EventLoop::new();
    core.on_subscriber("a", true);
    core.on_subscriber("b", false);
    core.on_subscriber("c", true);
    assert_eq!(core.subscribers(), &vec!["a", "c"]);
}

#[test]
fn a_snapshot_goes_to_every_subscriber_and_failed_ones_are_dropped() {
    let mut core: EventLoop<u8> = EventLoop::new();
    for id in 1..=5 {
        core.on_subscriber(id, true);
    }
    let summary = core.on_update(GenClient::snapshot(Exchange::Binance));
    assert_eq!(summary.asks.len(), 10);
    assert_eq!(summary.bids.len(), 10);
    assert_eq!(core.subscribers(), &vec![1, 2, 3, 4, 5]);

    core.retain_delivered(&vec![true, false, true, false, true]);
    assert_eq!(core.subscribers(), &vec![1, 3, 5]);
    core.retain_delivered(&vec![true, true]);
    assert_eq!(core.subscribers(), &vec![1, 3]);
    core.retain_delivered(&vec![false, true, true, true]);
    assert_eq!(core.subscribers(), &vec![3]);
    core.retain_delivered(&vec![]);
    assert!(core.subscribers().is_empty());
    core.retain_delivered(&vec![true]);
    assert!(core.subscribers().is_empty());
}

#[test]
fn the_greeting_is_the_summary_of_the_last_snapshot() {
    let mut core: EventLoop<u8> = EventLoop::new();
    let mut update = Update::new(Exchange::Bitstamp, 3, 3);
    update.add_ask("2", "1").unwrap();
    update.add_bid("1", "1").unwrap();
    let sent = core.on_update(update);
    let greeting = core.greeting();
    assert_eq!(format!("{:?}", sent), format!("{:?}", greeting));
    assert_eq!(greeting.asks.len(), 1);
    assert_eq!(greeting.asks[0].exchange, "bitstamp");
    assert_eq!(greeting.spread.digits(), &vec![1, 0, 0]);
    assert_eq!(greeting.spread.scale(), 2);

    let next = core.on_update(Update::new(Exchange::Bitstamp, 3, 3));
    assert!(next.asks.is_empty());
    assert!(next.spread.is_zero());
}
