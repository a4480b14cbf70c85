//! A feed of fixed snapshots, for trying out the book without a venue.

use crate::book::Update;
use crate::book_model::{EntryView, UpdateView};
use crate::decimal::Decimal;
use crate::decimal_model::{lemma_with_prec_digits, DecimalView};
use crate::digits::lemma_digit_count_u64;
use crate::venue::Exchange;
use vstd::prelude::*;

verus! {

/// The significant digits of a generated price.
pub const PRICE_PREC: u64 = 8;

/// The significant digits of a generated amount.
pub const AMOUNT_PREC: u64 = 5;

/// The lowest generated ask, in hundredths: 201223.45.
pub const FIRST_ASK: u64 = 20122345;

/// The lowest generated bid, in hundredths: 11223.45.
pub const FIRST_BID: u64 = 1122345;

/// The distance between two generated prices, in hundredths: 10000.00.
pub const PRICE_STEP: u64 = 1000000;

/// The generated amount, in hundredths: 122.44.
pub const AMOUNT: u64 = 12244;

/// A feed that generates the same two snapshots over and over.
#[derive(Debug)]
pub struct GenClient {
    pair: String,
}

impl View for GenClient {
    type V = Seq<char>;

    closed spec fn view(&self) -> Seq<char> {
        self.pair@
    }
}

/// How many asks the generated snapshot of a venue holds.
pub open spec fn asks_of(exchange: Exchange) -> nat {
    match exchange {
        Exchange::Binance => 12,
        Exchange::Bitstamp => 11,
    }
}

/// How many bids the generated snapshot of a venue holds.
pub open spec fn bids_of(exchange: Exchange) -> nat {
    match exchange {
        Exchange::Binance => 11,
        Exchange::Bitstamp => 15,
    }
}

/// The empty snapshot of a venue at the generated precisions.
pub open spec fn blank(exchange: Exchange) -> UpdateView {
    UpdateView {
        venue: exchange,
        bids: Seq::empty(),
        asks: Seq::empty(),
        price_prec: PRICE_PREC as nat,
        amount_prec: AMOUNT_PREC as nat,
    }
}

/// The generated entry at step `k` from the price `first`.
pub open spec fn generated_entry(exchange: Exchange, first: nat, k: int) -> EntryView {
    blank(exchange).entry(
        DecimalView { unscaled: first + k * PRICE_STEP, scale: 2 },
        DecimalView { unscaled: AMOUNT as int, scale: 2 },
    )
}

/// The generated snapshot of a venue: prices a step apart from the first
/// ask and the first bid up, all with the same amount.
pub open spec fn generated(exchange: Exchange) -> UpdateView {
    UpdateView {
        asks: Seq::new(asks_of(exchange), |k: int| generated_entry(exchange, FIRST_ASK as nat, k)),
        bids: Seq::new(bids_of(exchange), |k: int| generated_entry(exchange, FIRST_BID as nat, k)),
        ..blank(exchange)
    }
}

impl GenClient {
    /// The feed of `pair`.
    pub fn new(pair: String) -> (r: GenClient)
        ensures
            r@ == pair@,
    {
        GenClient { pair }
    }

    /// The generated snapshot of `exchange`.
    pub fn snapshot(exchange: Exchange) -> (r: Update)
        ensures
            r.wf(),
            r@ == generated(exchange),
    {
        let asks: u64 = match exchange {
            Exchange::Binance => 12,
            Exchange::Bitstamp => 11,
        };
        let bids: u64 = match exchange {
            Exchange::Binance => 11,
            Exchange::Bitstamp => 15,
        };
        let mut update = Update::new(exchange, PRICE_PREC, AMOUNT_PREC);
        let amount = Decimal::from_u64(AMOUNT, 2);
        proof {
            lemma_generated_wf(AMOUNT, AMOUNT_PREC as nat);
        }
        let mut k: u64 = 0;
        assert(update@.asks =~= Seq::new(
            0,
            |j: int| generated_entry(exchange, FIRST_ASK as nat, j),
        ));
        while k < asks
            invariant
                k <= asks <= 12,
                update.wf(),
                amount.wf(),
                amount@ == (DecimalView { unscaled: AMOUNT as int, scale: 2 }),
                amount@.with_prec(AMOUNT_PREC as nat).in_range(),
                update@ == (UpdateView {
                    asks: Seq::new(
                        k as nat,
                        |j: int| generated_entry(exchange, FIRST_ASK as nat, j),
                    ),
                    ..blank(exchange)
                }),
            decreases asks - k,
        {
            let price = Decimal::from_u64(FIRST_ASK + k * PRICE_STEP, 2);
            proof {
                lemma_generated_wf((FIRST_ASK + k * PRICE_STEP) as u64, PRICE_PREC as nat);
            }
            let added = update.push_ask(&price, &amount);
            assert(added is Ok);
            assert(update@.asks =~= Seq::new(
                (k + 1) as nat,
                |j: int| generated_entry(exchange, FIRST_ASK as nat, j),
            ));
            k += 1;
        }
        let mut k: u64 = 0;
        assert(update@.bids =~= Seq::new(
            0,
            |j: int| generated_entry(exchange, FIRST_BID as nat, j),
        ));
        while k < bids
            invariant
                k <= bids <= 15,
                update.wf(),
                amount.wf(),
                amount@ == (DecimalView { unscaled: AMOUNT as int, scale: 2 }),
                amount@.with_prec(AMOUNT_PREC as nat).in_range(),
                update@ == (UpdateView {
                    asks: Seq::new(
                        asks as nat,
                        |j: int| generated_entry(exchange, FIRST_ASK as nat, j),
                    ),
                    bids: Seq::new(
                        k as nat,
                        |j: int| generated_entry(exchange, FIRST_BID as nat, j),
                    ),
                    ..blank(exchange)
                }),
            decreases bids - k,
        {
            let price = Decimal::from_u64(FIRST_BID + k * PRICE_STEP, 2);
            proof {
                lemma_generated_wf((FIRST_BID + k * PRICE_STEP) as u64, PRICE_PREC as nat);
            }
            let added = update.push_bid(&price, &amount);
            assert(added is Ok);
            assert(update@.bids =~= Seq::new(
                (k + 1) as nat,
                |j: int| generated_entry(exchange, FIRST_BID as nat, j),
            ));
            k += 1;
        }
        update
    }
}

/// A number of hundredths, written with a precision of at most twenty
/// digits, can be stored.
proof fn lemma_generated_wf(value: u64, prec: nat)
    requires
        prec <= 20,
    ensures
        (DecimalView { unscaled: value as int, scale: 2 }).with_prec(prec).in_range(),
{
    let v = DecimalView { unscaled: value as int, scale: 2 };
    lemma_digit_count_u64(value);
    lemma_with_prec_digits(v, prec);
}

} // verus!
