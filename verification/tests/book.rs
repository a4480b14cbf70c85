use bigdecimal::num_bigint::{BigInt, Sign};
use bigdecimal::{BigDecimal, ToPrimitive};
use infonode::book::{Book, Level, Update};
use infonode::decimal::Decimal;
use infonode::venue::Exchange;

fn to_f64(d: &Decimal) -> f64 {
    let sign = if d.is_negative() { Sign::Minus } else { Sign::Plus };
    let unscaled = BigInt::from_radix_be(sign, d.digits(), 10).unwrap();
    BigDecimal::new(unscaled, d.scale()).to_f64().unwrap()
}

fn level(l: &Level) -> (f64, f64, String) {
    (to_f64(&l.price), to_f64(&l.amount), l.exchange.clone())
}

#[test]
fn test_spread_1() {
    let mut orders = Update::new(Exchange::Binance, 5, 5);
    orders.add_ask("0.00555", "1234").unwrap();
    orders.add_bid("0.00551", "1234").unwrap();
    let mut book = Book::new();
    book.add_orders(orders);
    assert_eq!(to_f64(&book.to_summary().spread), 0.00004);
}

#[test]
fn test_spread_2() {
    let mut orders = Update::new(Exchange::Binance, 10, 10);
    orders.add_ask("0.00555", "1234").unwrap();
    let mut book = Book::new();
    book.add_orders(orders);
    assert_eq!(to_f64(&book.to_summary().spread), 0.00555);
}

#[test]
fn test_spread_3() {
    let mut orders = Update::new(Exchange::Binance, 10, 10);
    orders.add_bid("0.00555", "1234").unwrap();
    let mut book = Book::new();
    book.add_orders(orders);
    assert_eq!(to_f64(&book.to_summary().spread), -0.00555);
}

#[test]
fn test_top_bid() {
    let mut orders = Update::new(Exchange::Binance, 10, 10);
    orders.add_bid("1", "1").unwrap();
    orders.add_bid("3", "3").unwrap();
    orders.add_bid("2", "2").unwrap();
    orders.add_bid("6", "6").unwrap();

    let mut book = Book::new();
    book.add_orders(orders);
    let summary = book.to_summary();

    assert_eq!(level(&summary.bids[0]), (6.0, 6.0, "binance".to_string()));
    assert_eq!(level(&summary.bids[1]), (3.0, 3.0, "binance".to_string()));
    assert_eq!(level(&summary.bids[2]), (2.0, 2.0, "binance".to_string()));
    assert_eq!(level(&summary.bids[3]), (1.0, 1.0, "binance".to_string()));
}

#[test]
fn test_top_bid_2() {
    let mut orders = Update::new(Exchange::Binance, 10, 10);
    orders.add_bid("0.000010001", "1").unwrap();
    orders.add_bid("0.030003", "3").unwrap();
    orders.add_bid("0.0020002", "2").unwrap();
    orders.add_bid("0.06", "6").unwrap();

    let mut book = Book::new();
    book.add_orders(orders);
    let summary = book.to_summary();

    assert_eq!(level(&summary.bids[0]), (0.06_f64, 6.0, "binance".to_string()));
    assert_eq!(level(&summary.bids[1]), (0.030003_f64, 3.0, "binance".to_string()));
    assert_eq!(level(&summary.bids[2]), (0.0020002_f64, 2.0, "binance".to_string()));
    assert_eq!(level(&summary.bids[3]), (0.000010001_f64, 1.0, "binance".to_string()));
}

#[test]
fn test_top_ask() {
    let mut orders = Update::new(Exchange::Binance, 10, 10);
    orders.add_ask("1", "1").unwrap();
    orders.add_ask("3", "3").unwrap();
    orders.add_ask("2", "2").unwrap();
    orders.add_ask("6", "6").unwrap();

    let mut book = Book::new();
    book.add_orders(orders);
    let summary = book.to_summary();

    assert_eq!(level(&summary.asks[0]), (1.0, 1.0, "binance".to_string()));
    assert_eq!(level(&summary.asks[1]), (2.0, 2.0, "binance".to_string()));
    assert_eq!(level(&summary.asks[2]), (3.0, 3.0, "binance".to_string()));
    assert_eq!(level(&summary.asks[3]), (6.0, 6.0, "binance".to_string()));
}

#[test]
fn test_decimal() {
    let e = Decimal::parse("0.00000030003");
    assert_eq!(0.00000030003_f64, to_f64(&e.unwrap().with_prec(11).unwrap()));
}

fn two_venues() -> Book {
    let mut orders1 = Update::new(Exchange::Binance, 2, 2);
    orders1.add_ask("1", "1").unwrap();
    orders1.add_ask("3", "3").unwrap();
    orders1.add_ask("2", "2").unwrap();
    orders1.add_ask("6", "6").unwrap();

    let mut orders2 = Update::new(Exchange::Bitstamp, 2, 2);
    orders2.add_ask("1.1", "1").unwrap();
    orders2.add_ask("3.1", "3").unwrap();
    orders2.add_ask("2.1", "2").unwrap();
    orders2.add_ask("6.1", "6").unwrap();

    let mut book = Book::new();
    book.add_orders(orders1);
    book.add_orders(orders2);
    book
}

#[test]
fn test_top_ask_exchanges() {
    let book = two_venues();
    let summary = book.to_summary();

    assert_eq!(level(&summary.asks[0]), (1.0, 1.0, "binance".to_string()));
    assert_eq!(level(&summary.asks[1]), (1.1, 1.0, "bitstamp".to_string()));
    assert_eq!(level(&summary.asks[2]), (2.0, 2.0, "binance".to_string()));
    assert_eq!(level(&summary.asks[3]), (2.1, 2.0, "bitstamp".to_string()));
    assert_eq!(level(&summary.asks[4]), (3.0, 3.0, "binance".to_string()));
    assert_eq!(level(&summary.asks[5]), (3.1, 3.0, "bitstamp".to_string()));
    assert_eq!(level(&summary.asks[6]), (6.0, 6.0, "binance".to_string()));
}

#[test]
fn spread_of_both_sides_comes_with_the_levels() {
    let mut orders = Update::new(Exchange::Binance, 5, 5);
    orders.add_ask("0.00555", "1234").unwrap();
    orders.add_bid("0.00551", "1234").unwrap();
    let mut book = Book::new();
    book.add_orders(orders);
    let summary = book.to_summary();
    let (ask, ask_amount, ask_venue) = level(&summary.asks[0]);
    assert!((ask - 0.00555).abs() < 1e-12);
    assert_eq!((ask_amount, ask_venue), (1234.0, "binance".to_string()));
    assert_eq!(level(&summary.bids[0]), (0.00551, 1234.0, "binance".to_string()));
    assert_eq!(summary.asks.len(), 1);
    assert_eq!(summary.bids.len(), 1);
    assert_eq!(summary.spread.digits(), &vec![4, 0, 0, 0, 0]);
    assert_eq!(summary.spread.scale(), 9);
}

#[test]
fn one_side_alone_leaves_the_other_empty() {
    let mut asks = Update::new(Exchange::Binance, 5, 5);
    asks.add_ask("0.00555", "1234").unwrap();
    let mut book = Book::new();
    book.add_orders(asks);
    assert!(book.to_summary().bids.is_empty());
    assert_eq!(book.to_summary().asks.len(), 1);

    let mut bids = Update::new(Exchange::Binance, 5, 5);
    bids.add_bid("0.00555", "1234").unwrap();
    let mut book = Book::new();
    book.add_orders(bids);
    assert!(book.to_summary().asks.is_empty());
    assert!(book.to_summary().spread.is_negative());
}

#[test]
fn empty_book_has_zero_spread() {
    let book = Book::new();
    let summary = book.to_summary();
    assert!(summary.asks.is_empty());
    assert!(summary.bids.is_empty());
    assert_eq!(to_f64(&summary.spread), 0.0);
    assert!(summary.spread.is_zero());

    let mut book = Book::new();
    book.add_orders(Update::new(Exchange::Bitstamp, 5, 5));
    assert!(book.to_summary().spread.is_zero());
    assert!(book.asks().is_empty());
    assert!(book.bids().is_empty());
}

#[test]
fn venue_replacement_removes_the_old_snapshot() {
    let mut book = two_venues();
    let mut orders3 = Update::new(Exchange::Bitstamp, 2, 2);
    orders3.add_ask("0.5", "9").unwrap();
    book.add_orders(orders3);

    let summary = book.to_summary();
    assert_eq!(level(&summary.asks[0]), (0.5, 9.0, "bitstamp".to_string()));
    let bitstamp = summary.asks.iter().filter(|l| l.exchange == "bitstamp").count();
    assert_eq!(bitstamp, 1);
    assert_eq!(summary.asks.len(), 5);
    let in_book = book.asks().iter().filter(|e| e.exchange() == Exchange::Bitstamp).count();
    assert_eq!(in_book, 1);
    let prices: Vec<f64> = summary.asks.iter().map(|l| to_f64(&l.price)).collect();
    assert_eq!(prices, vec![0.5, 1.0, 2.0, 3.0, 6.0]);
}

#[test]
fn empty_snapshot_clears_the_venue_only() {
    let mut book = two_venues();
    book.add_orders(Update::new(Exchange::Binance, 2, 2));
    let venues: Vec<Exchange> = book.asks().iter().map(|e| e.exchange()).collect();
    assert_eq!(venues, vec![Exchange::Bitstamp; 4]);
    let prices: Vec<f64> = book.asks().iter().map(|e| to_f64(e.price())).collect();
    assert_eq!(prices, vec![1.1, 2.1, 3.1, 6.1000000000000005]);
}

#[test]
fn same_snapshot_twice_changes_nothing() {
    let snapshot = || {
        let mut u = Update::new(Exchange::Binance, 4, 4);
        u.add_ask("10.5", "1").unwrap();
        u.add_ask("10.25", "2").unwrap();
        u.add_bid("9.75", "3").unwrap();
        u.add_bid("9.5", "4").unwrap();
        u
    };
    let mut book = two_venues();
    book.add_orders(snapshot());
    let once = format!("{:?}", book);
    book.add_orders(snapshot());
    let twice = format!("{:?}", book);
    assert_eq!(once, twice);
}

#[test]
fn two_venues_in_either_order_hold_the_same_entries() {
    let binance = || {
        let mut u = Update::new(Exchange::Binance, 3, 3);
        u.add_ask("2", "1").unwrap();
        u.add_ask("1", "1").unwrap();
        u.add_bid("0.5", "1").unwrap();
        u
    };
    let bitstamp = || {
        let mut u = Update::new(Exchange::Bitstamp, 3, 3);
        u.add_ask("1", "2").unwrap();
        u.add_ask("1.5", "2").unwrap();
        u.add_bid("0.5", "2").unwrap();
        u.add_bid("0.7", "2").unwrap();
        u
    };
    let mut a = Book::new();
    a.add_orders(binance());
    a.add_orders(bitstamp());
    let mut b = Book::new();
    b.add_orders(bitstamp());
    b.add_orders(binance());

    let entries = |book: &Book| {
        let mut all: Vec<String> = book.asks().iter().map(|e| format!("ask {:?}", e)).collect();
        all.extend(book.bids().iter().map(|e| format!("bid {:?}", e)));
        all.sort();
        all
    };
    assert_eq!(entries(&a), entries(&b));
    assert_eq!(a.asks().len(), 4);
    assert_eq!(a.bids().len(), 3);

    let venues = |book: &Book| -> Vec<Exchange> { book.asks().iter().map(|e| e.exchange()).collect() };
    assert_eq!(
        venues(&a),
        vec![Exchange::Binance, Exchange::Bitstamp, Exchange::Bitstamp, Exchange::Binance]
    );
    assert_eq!(
        venues(&b),
        vec![Exchange::Bitstamp, Exchange::Binance, Exchange::Bitstamp, Exchange::Binance]
    );
    let summary = a.to_summary();
    assert!(summary.asks.iter().any(|l| l.exchange == "binance"));
    assert!(summary.asks.iter().any(|l| l.exchange == "bitstamp"));
}

#[test]
fn equal_prices_keep_their_order_of_arrival() {
    let mut u = Update::new(Exchange::Binance, 3, 3);
    u.add_bid("5", "1").unwrap();
    u.add_bid("5.0", "2").unwrap();
    u.add_bid("7", "3").unwrap();
    u.add_bid("5.00", "4").unwrap();
    let mut book = Book::new();
    book.add_orders(u);
    let amounts: Vec<f64> = book.to_summary().bids.iter().map(|l| to_f64(&l.amount)).collect();
    assert_eq!(amounts, vec![3.0, 1.0, 2.0, 4.0]);
}

#[test]
fn summary_holds_ten_levels_at_most() {
    let mut u = Update::new(Exchange::Binance, 4, 4);
    for i in 1..=13 {
        u.add_ask(&format!("{}", 100 + i), "1").unwrap();
        u.add_bid(&format!("{}", i), "1").unwrap();
    }
    let mut book = Book::new();
    book.add_orders(u);
    let summary = book.to_summary();
    assert_eq!(summary.asks.len(), 10);
    assert_eq!(summary.bids.len(), 10);
    assert_eq!(book.asks().len(), 13);
    let asks: Vec<f64> = summary.asks.iter().map(|l| to_f64(&l.price)).collect();
    let bids: Vec<f64> = summary.bids.iter().map(|l| to_f64(&l.price)).collect();
    assert_eq!(asks, vec![101.0, 102.0, 103.0, 104.0, 105.0, 106.0, 107.0, 108.0, 109.0, 110.0]);
    assert_eq!(bids, vec![13.0, 12.0, 11.0, 10.0, 9.0, 8.0, 7.0, 6.0, 5.0, 4.0]);
    assert_eq!(to_f64(&summary.spread), 88.0);
}

#[test]
fn spread_is_cut_to_the_precision_of_the_last_snapshot() {
    let mut a = Update::new(Exchange::Binance, 6, 6);
    a.add_ask("1.23656", "1").unwrap();
    let mut b = Update::new(Exchange::Bitstamp, 2, 2);
    b.add_bid("1.1", "1").unwrap();
    let mut book = Book::new();
    book.add_orders(a);
    book.add_orders(b);
    let spread = book.to_summary().spread;
    assert_eq!(spread.digits(), &vec![1, 3]);
    assert_eq!(spread.scale(), 2);
    assert!(!spread.is_negative());
}

#[test]
fn crossed_book_has_a_negative_spread() {
    let mut u = Update::new(Exchange::Binance, 3, 3);
    u.add_ask("1", "1").unwrap();
    u.add_bid("1.5", "1").unwrap();
    let mut book = Book::new();
    book.add_orders(u);
    let spread = book.to_summary().spread;
    assert!(spread.is_negative());
    assert_eq!(to_f64(&spread), -0.5);
}

#[test]
fn equal_prices_at_the_cut_follow_the_order_of_arrival() {
    let ten = |venue: Exchange| {
        let mut u = Update::new(venue, 3, 3);
        for _ in 0..10 {
            u.add_ask("1", "1").unwrap();
        }
        u
    };
    let mut a = Book::new();
    a.add_orders(ten(Exchange::Binance));
    a.add_orders(ten(Exchange::Bitstamp));
    let mut b = Book::new();
    b.add_orders(ten(Exchange::Bitstamp));
    b.add_orders(ten(Exchange::Binance));

    assert_eq!(a.asks().len(), 20);
    assert_eq!(b.asks().len(), 20);
    assert!(a.to_summary().asks.iter().all(|l| l.exchange == "binance"));
    assert!(b.to_summary().asks.iter().all(|l| l.exchange == "bitstamp"));
    assert_eq!(a.to_summary().asks.len(), 10);
    assert_eq!(b.to_summary().asks.len(), 10);
}

#[test]
fn a_clear_cut_gives_the_same_summary_in_either_order() {
    let binance = || {
        let mut u = Update::new(Exchange::Binance, 4, 4);
        for i in 0..8 {
            u.add_bid(&format!("{}", 10 + 2 * i), "1").unwrap();
        }
        u
    };
    let bitstamp = || {
        let mut u = Update::new(Exchange::Bitstamp, 4, 4);
        for i in 0..8 {
            u.add_bid(&format!("{}", 11 + 2 * i), "2").unwrap();
        }
        u
    };
    let mut a = Book::new();
    a.add_orders(binance());
    a.add_orders(bitstamp());
    let mut b = Book::new();
    b.add_orders(bitstamp());
    b.add_orders(binance());
    let bids = |book: &Book| -> Vec<(f64, String)> {
        book.to_summary().bids.iter().map(|l| (to_f64(&l.price), l.exchange.clone())).collect()
    };
    assert_eq!(bids(&a), bids(&b));
    assert_eq!(bids(&a).len(), 10);
    assert_eq!(bids(&a)[0], (25.0, "bitstamp".to_string()));
    assert_eq!(bids(&a)[9], (16.0, "binance".to_string()));
}
