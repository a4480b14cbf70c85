use infonode::binance::BinanceClient;
use infonode::bitstamp::BitstampClient;
use infonode::book::{EntryError, Update};
use infonode::decimal::Decimal;
use infonode::document::Json;
use infonode::feed::FeedError;
use infonode::testmarket::GenClient;
use infonode::venue::Exchange;

fn parts(d: &Decimal) -> (bool, Vec<u8>, i64) {
    (d.is_negative(), d.digits().clone(), d.scale())
}

fn sides(u: &Update) -> (Vec<(Vec<u8>, i64, Vec<u8>, i64)>, Vec<(Vec<u8>, i64, Vec<u8>, i64)>) {
    let row = |e: &infonode::book::Entry| {
        (e.price().digits().clone(), e.price().scale(), e.amount().digits().clone(), e.amount().scale())
    };
    (u.asks().iter().map(row).collect(), u.bids().iter().map(row).collect())
}

#[test]
fn binance_urls() {
    assert_eq!(
        BinanceClient::precisions_url("ethbtc"),
        "https://api.binance.com/api/v3/exchangeInfo?symbol=ETHBTC"
    );
    assert_eq!(
        BinanceClient::precisions_url("Eth-btc1é"),
        "https://api.binance.com/api/v3/exchangeInfo?symbol=ETH-BTC1é"
    );
    let client = BinanceClient::new("ethbtc".to_string());
    assert_eq!(client.pair(), "ethbtc");
    assert_eq!(client.stream_url(), "wss://stream.binance.com:9443/ws/ethbtc@depth10@100ms");
}

#[test]
fn bitstamp_urls_and_subscription() {
    assert_eq!(BitstampClient::precisions_url(), "https://www.bitstamp.net/api/v2/trading-pairs-info");
    assert_eq!(BitstampClient::stream_url(), "wss://ws.bitstamp.net");
    let client = BitstampClient::new("ethbtc".to_string());
    assert_eq!(client.pair(), "ethbtc");
    assert_eq!(
        client.subscription(),
        r#"{"event":"bts:subscribe","data":{"channel":"order_book_ethbtc"}}"#
    );
}

#[test]
fn binance_precisions() {
    let body = r#"{"timezone":"UTC","symbols":[{"symbol":"ETHBTC","baseAssetPrecision":8,"quotePrecision":6}]}"#;
    assert_eq!(BinanceClient::read_precisions(body), Ok((6, 8)));
    assert_eq!(BinanceClient::read_precisions("{"), Err(FeedError::NotJson));
    assert_eq!(BinanceClient::read_precisions("{}"), Err(FeedError::Contract));
    assert_eq!(BinanceClient::read_precisions(r#"{"symbols":[]}"#), Err(FeedError::Contract));
    assert_eq!(
        BinanceClient::read_precisions(
            r#"{"symbols":[{"baseAssetPrecision":8,"quotePrecision":6},{"baseAssetPrecision":3,"quotePrecision":4}]}"#
        ),
        Ok((6, 8))
    );
    assert_eq!(
        BinanceClient::read_precisions(r#"{"symbols":{"baseAssetPrecision":8,"quotePrecision":6}}"#),
        Err(FeedError::Contract)
    );
    assert_eq!(
        BinanceClient::read_precisions(r#"{"symbols":[{"baseAssetPrecision":8}]}"#),
        Err(FeedError::Contract)
    );
    assert_eq!(
        BinanceClient::read_precisions(r#"{"symbols":[{"baseAssetPrecision":"8","quotePrecision":6}]}"#),
        Err(FeedError::Contract)
    );
    assert_eq!(
        BinanceClient::read_precisions(r#"{"symbols":[{"baseAssetPrecision":8.5,"quotePrecision":6}]}"#),
        Err(FeedError::Contract)
    );
    assert_eq!(
        BinanceClient::read_precisions(r#"{"symbols":[{"baseAssetPrecision":-8,"quotePrecision":6}]}"#),
        Err(FeedError::Contract)
    );
    assert_eq!(
        BinanceClient::read_precisions(r#"{"symbols":[{"baseAssetPrecision":8,"quotePrecision":1073741824}]}"#),
        Ok((1073741824, 8))
    );
    assert_eq!(
        BinanceClient::read_precisions(r#"{"symbols":[{"baseAssetPrecision":8,"quotePrecision":1073741825}]}"#),
        Err(FeedError::Contract)
    );
}

#[test]
fn bitstamp_precisions() {
    let body = r#"[
        {"name":"BTC/USD","url_symbol":"btcusd","base_decimals":8,"instant_order_counter_decimals":2},
        {"name":"ETH/BTC","url_symbol":"ethbtc","base_decimals":7,"instant_order_counter_decimals":9},
        {"name":"ETH/BTC again","url_symbol":"ethbtc","base_decimals":1,"instant_order_counter_decimals":1}
    ]"#;
    assert_eq!(BitstampClient::read_precisions(body, "ethbtc"), Ok((7, 9)));
    assert_eq!(BitstampClient::read_precisions(body, "btcusd"), Ok((8, 2)));
    assert_eq!(BitstampClient::read_precisions(body, "xrpusd"), Err(FeedError::Contract));
    assert_eq!(BitstampClient::read_precisions(body, "ETHBTC"), Err(FeedError::Contract));
    assert_eq!(BitstampClient::read_precisions("[", "ethbtc"), Err(FeedError::NotJson));
    assert_eq!(BitstampClient::read_precisions("{}", "ethbtc"), Err(FeedError::Contract));
    assert_eq!(
        BitstampClient::read_precisions(r#"[{"url_symbol":"ethbtc","base_decimals":7}]"#, "ethbtc"),
        Err(FeedError::Contract)
    );
    assert_eq!(
        BitstampClient::read_precisions(
            r#"[{"url_symbol":"ethbtc","base_decimals":"7","instant_order_counter_decimals":9},
                {"url_symbol":"ethbtc","base_decimals":7,"instant_order_counter_decimals":9}]"#,
            "ethbtc"
        ),
        Err(FeedError::Contract)
    );
    assert_eq!(
        BitstampClient::read_precisions(
            r#"[7, {"base_decimals":7}, {"url_symbol":7}, {"url_symbol":"ethbtc","base_decimals":3,"instant_order_counter_decimals":4}]"#,
            "ethbtc"
        ),
        Ok((3, 4))
    );
}

#[test]
fn bitstamp_confirmation() {
    assert_eq!(
        BitstampClient::read_confirmation(
            r#"{"event":"bts:subscription_succeeded","channel":"order_book_ethbtc","data":{}}"#
        ),
        Ok(true)
    );
    assert_eq!(BitstampClient::read_confirmation(r#"{"event":"bts:error"}"#), Ok(false));
    assert_eq!(BitstampClient::read_confirmation(r#"{"data":{}}"#), Ok(false));
    assert_eq!(BitstampClient::read_confirmation(r#"["bts:subscription_succeeded"]"#), Ok(false));
    assert_eq!(BitstampClient::read_confirmation(r#"{"event":1}"#), Ok(false));
    assert_eq!(BitstampClient::read_confirmation("not json"), Err(FeedError::NotJson));
}

#[test]
fn binance_message_becomes_a_snapshot() {
    let text = r#"{"lastUpdateId":160,"bids":[["0.0024","10"],["0.0023","5.5"]],"asks":[["0.0026","100"]]}"#;
    let update = BinanceClient::decode(text, 4, 3).unwrap();
    assert_eq!(update.exchange(), Exchange::Binance);
    assert_eq!(update.price_prec(), 4);
    assert_eq!(update.amount_prec(), 3);
    let (asks, bids) = sides(&update);
    assert_eq!(asks, vec![(vec![2, 6, 0, 0], 6, vec![1, 0, 0], 0)]);
    assert_eq!(
        bids,
        vec![(vec![2, 4, 0, 0], 6, vec![1, 0, 0], 1), (vec![2, 3, 0, 0], 6, vec![5, 5, 0], 2)]
    );
    assert!(update.asks().iter().all(|e| e.exchange() == Exchange::Binance));
}

#[test]
fn rows_of_another_length_are_passed_over() {
    let text = r#"{"asks":[["1","2","3"],["4","5"],[],["6"],{"a":"7","b":"8","c":"9"},"x",["10","11"]],"bids":[]}"#;
    let update = BinanceClient::decode(text, 2, 2).unwrap();
    let (asks, bids) = sides(&update);
    assert_eq!(asks, vec![(vec![4, 0], 1, vec![5, 0], 1), (vec![1, 0], 0, vec![1, 1], 0)]);
    assert!(bids.is_empty());
}

#[test]
fn missing_sides_make_an_empty_snapshot() {
    for text in ["{}", "[]", "1", r#"{"asks":{"0":["1","2"]},"bids":"x"}"#, r#"{"data":{"asks":[["1","2"]]}}"#] {
        let update = BinanceClient::decode(text, 2, 2).unwrap();
        assert!(update.asks().is_empty());
        assert!(update.bids().is_empty());
    }
    let update = BinanceClient::decode(r#"{"bids":[["1","2"]]}"#, 2, 2).unwrap();
    assert!(update.asks().is_empty());
    assert_eq!(update.bids().len(), 1);
}

#[test]
fn bad_rows_end_the_decoding() {
    assert_eq!(BinanceClient::decode("{", 2, 2).err(), Some(FeedError::NotJson));
    assert_eq!(BinanceClient::decode("", 2, 2).err(), Some(FeedError::NotJson));
    assert_eq!(
        BinanceClient::decode(r#"{"asks":[["1","x"]]}"#, 2, 2).err(),
        Some(FeedError::Entry(EntryError::Unreadable))
    );
    assert_eq!(
        BinanceClient::decode(r#"{"asks":[["1",null]]}"#, 2, 2).err(),
        Some(FeedError::Entry(EntryError::Unreadable))
    );
    assert_eq!(
        BinanceClient::decode(r#"{"asks":[[["1"],"2"]]}"#, 2, 2).err(),
        Some(FeedError::Entry(EntryError::Unreadable))
    );
    assert_eq!(
        BinanceClient::decode(r#"{"asks":[[true,"2"]]}"#, 2, 2).err(),
        Some(FeedError::Entry(EntryError::Unreadable))
    );
    assert_eq!(
        BinanceClient::decode(r#"{"asks":[{"a":"1","b":"2"}]}"#, 2, 2).err(),
        Some(FeedError::Entry(EntryError::Unreadable))
    );
    assert_eq!(
        BinanceClient::decode(r#"{"asks":[["1e-1073741830","2"]],"bids":[["x","y"]]}"#, 2, 2).err(),
        Some(FeedError::Entry(EntryError::OutOfRange))
    );
    assert_eq!(
        BinanceClient::decode(r#"{"bids":[["1e-1073741830","2"]],"asks":[["1","2"],["x","y"]]}"#, 2, 2)
            .err(),
        Some(FeedError::Entry(EntryError::Unreadable))
    );
}

#[test]
fn numbers_in_rows_are_read_as_printed() {
    let update = BinanceClient::decode(r#"{"asks":[[0.5,3],[12,1e2]]}"#, 3, 3).unwrap();
    let (asks, _) = sides(&update);
    assert_eq!(
        asks,
        vec![(vec![5, 0, 0], 3, vec![3, 0, 0], 2), (vec![1, 2, 0], 1, vec![1, 0, 0], 0)]
    );
}

#[test]
fn bitstamp_message_becomes_a_snapshot() {
    let text = r#"{"data":{"timestamp":"1","bids":[["0.071","1.5"]],"asks":[["0.072","2"],["0.073","3"]]},"channel":"order_book_ethbtc","event":"data"}"#;
    let update = BitstampClient::decode(text, 3, 2).unwrap();
    assert_eq!(update.exchange(), Exchange::Bitstamp);
    let (asks, bids) = sides(&update);
    assert_eq!(asks, vec![(vec![7, 2, 0], 4, vec![2, 0], 1), (vec![7, 3, 0], 4, vec![3, 0], 1)]);
    assert_eq!(bids, vec![(vec![7, 1, 0], 4, vec![1, 5], 1)]);

    let outside = BitstampClient::decode(r#"{"asks":[["1","2"]],"bids":[["1","2"]]}"#, 3, 2).unwrap();
    assert!(outside.asks().is_empty());
    assert!(outside.bids().is_empty());
    let no_object = BitstampClient::decode(r#"{"data":[["1","2"]]}"#, 3, 2).unwrap();
    assert!(no_object.asks().is_empty());
    assert_eq!(BitstampClient::decode("nope", 3, 2).err(), Some(FeedError::NotJson));
    assert_eq!(
        BitstampClient::decode(r#"{"data":{"bids":[["a","b"]]}}"#, 3, 2).err(),
        Some(FeedError::Entry(EntryError::Unreadable))
    );
}

#[test]
fn documents_are_read_off_by_key_and_index() {
    let doc = Json::parse(r#"{"a":[1,"two",null,true,{"k":-3}],"b":{"c":"d"},"n":18446744073709551615}"#).unwrap();
    assert!(!doc.is_array());
    assert_eq!(doc.len(), 3);
    let a = doc.field("a").unwrap();
    assert!(a.is_array());
    assert_eq!(a.len(), 5);
    assert_eq!(a.item(0).unwrap().as_u64(), Some(1));
    assert!(a.item(1).unwrap().is_text("two"));
    assert!(!a.item(1).unwrap().is_text("tw"));
    assert_eq!(a.item(1).unwrap().scalar_text(), Some("two".to_string()));
    assert_eq!(a.item(0).unwrap().scalar_text(), Some("1".to_string()));
    assert_eq!(a.item(2).unwrap().scalar_text(), None);
    assert_eq!(a.item(3).unwrap().scalar_text(), None);
    assert_eq!(a.item(4).unwrap().scalar_text(), None);
    assert_eq!(a.item(4).unwrap().len(), 1);
    assert_eq!(a.item(4).unwrap().field("k").unwrap().as_u64(), None);
    assert_eq!(a.item(4).unwrap().field("k").unwrap().scalar_text(), Some("-3".to_string()));
    assert!(a.item(5).is_none());
    assert!(a.field("k").is_none());
    assert!(doc.item(0).is_none());
    assert!(doc.field("c").is_none());
    assert!(doc.field("b").unwrap().field("c").unwrap().is_text("d"));
    assert_eq!(doc.field("n").unwrap().as_u64(), Some(u64::MAX));
    assert_eq!(doc.field("a").unwrap().item(1).unwrap().as_u64(), None);
    assert_eq!(doc.field("b").unwrap().len(), 1);
    assert_eq!(a.item(1).unwrap().len(), 0);
}

#[test]
fn documents_that_do_not_parse() {
    assert!(Json::parse("").is_none());
    assert!(Json::parse("{").is_none());
    assert!(Json::parse(r#"{"a":}"#).is_none());
    assert!(Json::parse("[1,2").is_none());
    assert!(Json::parse("[1] x").is_none());
    assert!(Json::parse("é").is_none());
    assert!(Json::parse("[]").is_some());
    assert!(Json::parse(" 7 ").is_some());
}

#[test]
fn documents_with_endless_digits_are_refused() {
    let run = |n: usize| format!("[0.{}1]", "0".repeat(n));
    assert!(Json::parse(&run(32000)).is_some());
    assert!(Json::parse(&run(32766)).is_some());
    assert!(Json::parse(&run(32767)).is_none());
    assert!(Json::parse(&run(40000)).is_none());
    let text = format!("[\"{}\"]", "7".repeat(40000));
    assert!(Json::parse(&text).is_none());
}

#[test]
fn generated_snapshots() {
    let client = GenClient::new("ethbtc".to_string());
    assert!(format!("{:?}", client).contains("ethbtc"));
    let binance = GenClient::snapshot(Exchange::Binance);
    assert_eq!(binance.exchange(), Exchange::Binance);
    assert_eq!(binance.asks().len(), 12);
    assert_eq!(binance.bids().len(), 11);
    assert_eq!(parts(binance.asks()[0].price()), (false, vec![2, 0, 1, 2, 2, 3, 4, 5], 2));
    assert_eq!(parts(binance.asks()[11].price()), (false, vec![3, 1, 1, 2, 2, 3, 4, 5], 2));
    assert_eq!(parts(binance.bids()[0].price()), (false, vec![1, 1, 2, 2, 3, 4, 5, 0], 3));
    assert_eq!(parts(binance.bids()[10].price()), (false, vec![1, 1, 1, 2, 2, 3, 4, 5], 2));
    assert_eq!(parts(binance.bids()[3].amount()), (false, vec![1, 2, 2, 4, 4], 2));
    let bitstamp = GenClient::snapshot(Exchange::Bitstamp);
    assert_eq!(bitstamp.exchange(), Exchange::Bitstamp);
    assert_eq!(bitstamp.asks().len(), 11);
    assert_eq!(bitstamp.bids().len(), 15);
    assert_eq!(parts(bitstamp.asks()[10].price()), (false, vec![3, 0, 1, 2, 2, 3, 4, 5], 2));
    assert_eq!(parts(bitstamp.bids()[14].price()), (false, vec![1, 5, 1, 2, 2, 3, 4, 5], 2));
    assert!(bitstamp.bids().iter().all(|e| e.exchange() == Exchange::Bitstamp));
}
