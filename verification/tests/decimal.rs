use bigdecimal::num_bigint::{BigInt, Sign};
use bigdecimal::{BigDecimal, ToPrimitive};
use infonode::book::{Entry, EntryError, Update};
use infonode::decimal::Decimal;
use infonode::venue::Exchange;
use std::str::FromStr;

fn parts(d: &Decimal) -> (bool, Vec<u8>, i64) {
    (d.is_negative(), d.digits().clone(), d.scale())
}

fn float_of(d: &Decimal) -> f64 {
    let sign = if d.is_negative() { Sign::Minus } else { Sign::Plus };
    let unscaled = BigInt::from_radix_be(sign, d.digits(), 10).unwrap();
    BigDecimal::new(unscaled, d.scale()).to_f64().unwrap()
}

#[test]
fn parse_keeps_the_digits_as_written() {
    assert_eq!(parts(&Decimal::parse("0.00555").unwrap()), (false, vec![5, 5, 5], 5));
    assert_eq!(parts(&Decimal::parse("1234").unwrap()), (false, vec![1, 2, 3, 4], 0));
    assert_eq!(parts(&Decimal::parse("1.10").unwrap()), (false, vec![1, 1, 0], 2));
    assert_eq!(parts(&Decimal::parse("-2.5").unwrap()), (true, vec![2, 5], 1));
    assert_eq!(parts(&Decimal::parse("0").unwrap()), (false, vec![0], 0));
    assert_eq!(parts(&Decimal::parse("-0.00").unwrap()), (false, vec![0], 2));
    assert_eq!(parts(&Decimal::parse("1.5e3").unwrap()), (false, vec![1, 5], -2));
    assert_eq!(parts(&Decimal::parse("12E-2").unwrap()), (false, vec![1, 2], 2));
}

#[test]
fn parse_refuses_what_is_no_decimal() {
    assert!(Decimal::parse("").is_none());
    assert!(Decimal::parse("abc").is_none());
    assert!(Decimal::parse("1.2.3").is_none());
    assert!(Decimal::parse("null").is_none());
    assert!(Decimal::parse("1e").is_none());
    assert!(Decimal::parse("1,5").is_none());
}

#[test]
fn parse_refuses_a_long_exponent() {
    assert!(Decimal::parse("1e123456789012345678").is_some());
    assert!(Decimal::parse("1e1234567890123456789").is_none());
    assert!(Decimal::parse("1e-9223372036854775808").is_none());
    assert!(Decimal::parse("1e0000000000000000001").is_none());
}

#[test]
fn with_prec_cuts_and_does_not_round() {
    let d = Decimal::parse("0.123456").unwrap();
    assert_eq!(parts(&d.with_prec(5).unwrap()), (false, vec![1, 2, 3, 4, 5], 5));
    let d = Decimal::parse("0.123459").unwrap();
    assert_eq!(parts(&d.with_prec(5).unwrap()), (false, vec![1, 2, 3, 4, 5], 5));
    let d = Decimal::parse("999").unwrap();
    assert_eq!(parts(&d.with_prec(2).unwrap()), (false, vec![9, 9], -1));
    let d = Decimal::parse("-98765.4321").unwrap();
    assert_eq!(parts(&d.with_prec(3).unwrap()), (true, vec![9, 8, 7], -2));
    let d = Decimal::parse("123456").unwrap();
    assert_eq!(parts(&d.with_prec(6).unwrap()), (false, vec![1, 2, 3, 4, 5, 6], 0));
}

#[test]
fn with_prec_fills_up_with_zeros() {
    let d = Decimal::parse("0.00555").unwrap();
    assert_eq!(parts(&d.with_prec(5).unwrap()), (false, vec![5, 5, 5, 0, 0], 7));
    let d = Decimal::parse("-7").unwrap();
    assert_eq!(parts(&d.with_prec(3).unwrap()), (true, vec![7, 0, 0], 2));
    let d = Decimal::parse("0").unwrap();
    assert_eq!(parts(&d.with_prec(4).unwrap()), (false, vec![0], 3));
}

#[test]
fn with_prec_of_nothing_is_zero() {
    let d = Decimal::parse("-12.5").unwrap();
    assert_eq!(parts(&d.with_prec(0).unwrap()), (false, vec![0], -2));
    let d = Decimal::parse("0").unwrap();
    assert_eq!(parts(&d.with_prec(0).unwrap()), (false, vec![0], -1));
}

#[test]
fn with_prec_fails_where_the_scale_leaves_64_bits() {
    let d = Decimal::from_parts(false, vec![1], i64::MAX).unwrap();
    assert!(d.with_prec(2).is_none());
    assert!(d.with_prec(1).is_some());
    let d = Decimal::from_parts(false, vec![1, 2], i64::MIN).unwrap();
    assert!(d.with_prec(1).is_none());
    assert!(d.with_prec(2).is_some());
}

#[test]
fn high_precision_survives_the_way_to_a_float() {
    let d = Decimal::parse("0.00000030003").unwrap().with_prec(11).unwrap();
    assert_eq!(parts(&d), (false, vec![3, 0, 0, 0, 3, 0, 0, 0, 0, 0, 0], 17));
    assert_eq!(float_of(&d), 0.00000030003_f64);
}

#[test]
fn lt_compares_numbers_not_digits() {
    let p = |s: &str| Decimal::parse(s).unwrap();
    assert!(p("1").lt(&p("2")));
    assert!(!p("2").lt(&p("1")));
    assert!(!p("1.10").lt(&p("1.1")));
    assert!(!p("1.1").lt(&p("1.10")));
    assert!(p("0.999").lt(&p("1")));
    assert!(p("9").lt(&p("10")));
    assert!(p("-3").lt(&p("-2.5")));
    assert!(p("-1").lt(&p("0")));
    assert!(p("0").lt(&p("0.0001")));
    assert!(p("5e-3").lt(&p("0.05")));
    assert!(p("99").lt(&p("1e2")));
    assert!(!p("0").lt(&p("0.000")));
}

#[test]
fn minus_is_exact_at_the_larger_scale() {
    let p = |s: &str| Decimal::parse(s).unwrap();
    assert_eq!(parts(&p("0.3").minus(&p("0.1"))), (false, vec![2], 1));
    assert_eq!(parts(&p("0.00555").minus(&p("0.00551"))), (false, vec![4], 5));
    assert_eq!(parts(&p("1").minus(&p("0.001"))), (false, vec![9, 9, 9], 3));
    assert_eq!(parts(&p("1.5").minus(&p("2"))), (true, vec![5], 1));
    assert_eq!(parts(&p("2.50").minus(&p("2.5"))), (false, vec![0], 2));
    assert_eq!(parts(&p("1e2").minus(&p("1"))), (false, vec![9, 9], 0));
    assert_eq!(parts(&p("-1").minus(&p("-4"))), (false, vec![3], 0));
}

#[test]
fn negated_flips_the_sign_but_not_of_zero() {
    let p = |s: &str| Decimal::parse(s).unwrap();
    assert_eq!(parts(&p("1.5").negated()), (true, vec![1, 5], 1));
    assert_eq!(parts(&p("-1.5").negated()), (false, vec![1, 5], 1));
    assert_eq!(parts(&p("0.0").negated()), (false, vec![0], 1));
}

#[test]
fn from_parts_wants_the_shortest_digits() {
    assert!(Decimal::from_parts(false, vec![], 0).is_none());
    assert!(Decimal::from_parts(false, vec![0, 1], 0).is_none());
    assert!(Decimal::from_parts(false, vec![1, 10], 0).is_none());
    assert!(Decimal::from_parts(true, vec![0], 0).is_none());
    let d = Decimal::from_parts(true, vec![1, 0], -3).unwrap();
    assert_eq!(parts(&d), (true, vec![1, 0], -3));
    assert_eq!(float_of(&d), -10000.0);
}

#[test]
fn from_u64_writes_the_digits_of_the_value() {
    assert_eq!(parts(&Decimal::from_u64(0, 0)), (false, vec![0], 0));
    assert_eq!(parts(&Decimal::from_u64(7, 1)), (false, vec![7], 1));
    assert_eq!(parts(&Decimal::from_u64(20122345, 2)), (false, vec![2, 0, 1, 2, 2, 3, 4, 5], 2));
    assert_eq!(
        parts(&Decimal::from_u64(u64::MAX, -1)).1,
        vec![1, 8, 4, 4, 6, 7, 4, 4, 0, 7, 3, 7, 0, 9, 5, 5, 1, 6, 1, 5]
    );
    assert_eq!(parts(&Decimal::zero()), (false, vec![0], 0));
}

#[test]
fn clone_is_the_same_number() {
    let d = Decimal::parse("-12.340").unwrap();
    assert_eq!(parts(&d.clone()), parts(&d));
}

#[test]
fn range_of_what_can_be_stored() {
    assert!(Decimal::parse("1e-1073741824").unwrap().is_in_range());
    assert!(!Decimal::parse("1e-1073741825").unwrap().is_in_range());
    assert!(Decimal::parse("1e1073741824").unwrap().is_in_range());
    assert!(!Decimal::parse("1e1073741825").unwrap().is_in_range());
    let p = Decimal::parse("1").unwrap();
    let far = Decimal::parse("1e-1073741825").unwrap();
    assert!(Entry::new(p.clone(), far.clone(), Exchange::Binance).is_none());
    assert!(Entry::new(far, p.clone(), Exchange::Binance).is_none());
    let e = Entry::new(p.clone(), p, Exchange::Bitstamp).unwrap();
    assert_eq!(e.exchange(), Exchange::Bitstamp);
    assert_eq!(parts(e.price()), (false, vec![1], 0));
    assert_eq!(parts(e.amount()), (false, vec![1], 0));
}

#[test]
fn update_reports_why_nothing_was_added() {
    let mut u = Update::new(Exchange::Binance, 5, 5);
    assert_eq!(u.add_bid("abc", "1"), Err(EntryError::Unreadable));
    assert_eq!(u.add_bid("1", ""), Err(EntryError::Unreadable));
    assert_eq!(u.add_ask("1", "x"), Err(EntryError::Unreadable));
    assert_eq!(u.add_ask("1e-1073741830", "1"), Err(EntryError::OutOfRange));
    assert_eq!(u.add_bid("1", "1e1073741830"), Err(EntryError::OutOfRange));
    assert_eq!(u.add_bid("1e-1073741830", "zz"), Err(EntryError::Unreadable));
    assert!(u.bids().is_empty());
    assert!(u.asks().is_empty());
    assert_eq!(u.add_bid("1", "2"), Ok(()));
    assert_eq!(u.bids().len(), 1);
    assert_eq!(u.exchange(), Exchange::Binance);
    assert_eq!(u.price_prec(), 5);
    assert_eq!(u.amount_prec(), 5);
}

#[test]
fn update_cuts_each_number_to_its_own_precision() {
    let mut u = Update::new(Exchange::Bitstamp, 3, 6);
    u.add_ask("123.456", "0.5").unwrap();
    u.push_bid(&Decimal::from_u64(98765, 2), &Decimal::from_u64(1, 0)).unwrap();
    let ask = &u.asks()[0];
    assert_eq!(parts(ask.price()), (false, vec![1, 2, 3], 0));
    assert_eq!(parts(ask.amount()), (false, vec![5, 0, 0, 0, 0, 0], 6));
    assert_eq!(ask.exchange(), Exchange::Bitstamp);
    let bid = &u.bids()[0];
    assert_eq!(parts(bid.price()), (false, vec![9, 8, 7], 0));
    assert_eq!(parts(bid.amount()), (false, vec![1, 0, 0, 0, 0, 0], 5));
    let far = Decimal::from_parts(false, vec![1], 2000000000).unwrap();
    assert_eq!(u.push_ask(&far, &Decimal::zero()), Err(EntryError::OutOfRange));
    assert_eq!(u.asks().len(), 1);
}

#[test]
fn venue_names_are_lowercase() {
    assert_eq!(Exchange::Binance.name(), "binance");
    assert_eq!(Exchange::Bitstamp.name(), "bitstamp");
}

#[test]
fn filling_up_writes_what_the_float_conversion_expects() {
    for (text, prec) in [("0.00555", 10), ("1234", 5), ("0.06", 10), ("1.1", 2), ("6", 2), ("0", 3)] {
        let ours = Decimal::parse(text).unwrap().with_prec(prec).unwrap();
        let (unscaled, scale) = BigDecimal::from_str(text)
            .unwrap()
            .with_prec(prec)
            .into_bigint_and_exponent();
        let (_, digits) = unscaled.to_radix_be(10);
        assert_eq!(parts(&ours), (false, digits, scale));
    }
}
