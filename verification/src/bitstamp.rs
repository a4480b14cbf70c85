//! The Bitstamp feed: where to ask for its precisions and its order book
//! stream, how to subscribe, and how to read what comes back.

use crate::binance::{number_under, read_number};
use crate::book::Update;
use crate::book_model::UpdateView;
use crate::decimal_model::MAX_DIGITS;
use crate::document::{json_reading, parseable, Json};
use crate::feed::{rows_under, snapshot_from, snapshot_of, FeedError};
use crate::venue::Exchange;
use vstd::prelude::*;
use vstd::string::StringExecFns;

verus! {

/// The Bitstamp feed of one trading pair.
#[derive(Debug)]
pub struct BitstampClient {
    pair: String,
}

impl View for BitstampClient {
    type V = Seq<char>;

    closed spec fn view(&self) -> Seq<char> {
        self.pair@
    }
}

/// The description describes `pair`: its `url_symbol` is that text.
pub open spec fn describes(info: Json, pair: Seq<char>) -> bool {
    match info.spec_field("url_symbol"@) {
        Some(symbol) => symbol.spec_is_text(pair),
        None => false,
    }
}

/// The first description of `pair` among `infos`.
pub open spec fn info_of(infos: Seq<Json>, pair: Seq<char>) -> Option<Json>
    decreases infos.len(),
{
    if infos.len() == 0 {
        None
    } else if describes(infos[0], pair) {
        Some(infos[0])
    } else {
        info_of(infos.drop_first(), pair)
    }
}

/// What the trading pairs information gives as precisions of `pair`: the
/// base decimals for prices and the instant order counter decimals for
/// amounts of the first description of the pair, where both are whole
/// numbers and neither is more than can be stored.
pub open spec fn precisions_of(document: Json, pair: Seq<char>) -> Result<(u64, u64), FeedError> {
    match info_of(document.spec_items(), pair) {
        Some(info) => if number_under(info, "base_decimals"@) is Some && number_under(
            info,
            "instant_order_counter_decimals"@,
        ) is Some && number_under(info, "base_decimals"@)->0 <= MAX_DIGITS && number_under(
            info,
            "instant_order_counter_decimals"@,
        )->0 <= MAX_DIGITS {
            Ok(
                (
                    number_under(info, "base_decimals"@)->0,
                    number_under(info, "instant_order_counter_decimals"@)->0,
                ),
            )
        } else {
            Err(FeedError::Contract)
        },
        None => Err(FeedError::Contract),
    }
}

/// The frame confirms the subscription: its `event` says so.
pub open spec fn confirmation_in(document: Json) -> bool {
    match document.spec_field("event"@) {
        Some(event) => event.spec_is_text("bts:subscription_succeeded"@),
        None => false,
    }
}

/// What an order book message gives as a snapshot at the given precisions:
/// the rows that its `data` holds.
pub open spec fn snapshot_in(document: Json, price_prec: nat, amount_prec: nat) -> Result<
    UpdateView,
    FeedError,
> {
    match snapshot_of(
        Exchange::Bitstamp,
        price_prec,
        amount_prec,
        rows_under(document.spec_field("data"@), "asks"@),
        rows_under(document.spec_field("data"@), "bids"@),
    ) {
        Ok(update) => Ok(update),
        Err(e) => Err(FeedError::Entry(e)),
    }
}

impl BitstampClient {
    /// The feed of `pair`.
    pub fn new(pair: String) -> (r: BitstampClient)
        ensures
            r@ == pair@,
    {
        BitstampClient { pair }
    }

    /// The trading pair.
    pub fn pair(&self) -> (r: &str)
        ensures
            r@ == self@,
    {
        self.pair.as_str()
    }

    /// Where the venue states the precisions of every pair.
    pub fn precisions_url() -> (r: String)
        ensures
            r@ == "https://www.bitstamp.net/api/v2/trading-pairs-info"@,
    {
        "https://www.bitstamp.net/api/v2/trading-pairs-info".to_owned()
    }

    /// Where the venue streams order books.
    pub fn stream_url() -> (r: String)
        ensures
            r@ == "wss://ws.bitstamp.net"@,
    {
        "wss://ws.bitstamp.net".to_owned()
    }

    /// The frame that subscribes to the order book of the pair.
    pub fn subscription(&self) -> (r: String)
        ensures
            r@ == "{\"event\":\"bts:subscribe\",\"data\":{\"channel\":\"order_book_"@ + self@
                + "\"}}"@,
    {
        "{\"event\":\"bts:subscribe\",\"data\":{\"channel\":\"order_book_".to_owned().concat(
            self.pair.as_str(),
        ).concat("\"}}")
    }

    /// The precisions of prices and amounts of `pair` that the parsed
    /// trading pairs information gives.
    pub fn precisions_from(document: &Json, pair: &str) -> (r: Result<(u64, u64), FeedError>)
        ensures
            r == precisions_of(*document, pair@),
    {
        let ghost infos = document.spec_items();
        let n = if document.is_array() {
            document.len()
        } else {
            0
        };
        let mut i: usize = 0;
        proof {
            assert(infos.skip(0) =~= infos);
        }
        while i < n
            invariant
                i <= n,
                n == infos.len(),
                infos == document.spec_items(),
                info_of(infos, pair@) == info_of(infos.skip(i as int), pair@),
            decreases n - i,
        {
            let info = document.item(i).unwrap();
            proof {
                assert(infos.skip(i as int).drop_first() =~= infos.skip(i + 1));
                assert(infos.skip(i as int)[0] == infos[i as int]);
            }
            let found = match info.field("url_symbol") {
                Some(symbol) => symbol.is_text(pair),
                None => false,
            };
            if found {
                return match (
                    read_number(info, "base_decimals"),
                    read_number(info, "instant_order_counter_decimals"),
                ) {
                    (Some(price), Some(amount)) => {
                        if price <= MAX_DIGITS as u64 && amount <= MAX_DIGITS as u64 {
                            Ok((price, amount))
                        } else {
                            Err(FeedError::Contract)
                        }
                    },
                    _ => Err(FeedError::Contract),
                };
            }
            i += 1;
        }
        Err(FeedError::Contract)
    }

    /// The precisions of prices and amounts of `pair` that the body of the
    /// trading pairs information gives.
    pub fn read_precisions(body: &str, pair: &str) -> (r: Result<(u64, u64), FeedError>)
        ensures
            !parseable(body@) ==> r == Err::<(u64, u64), FeedError>(FeedError::NotJson),
            parseable(body@) ==> r == precisions_of(json_reading(body@)->0, pair@),
            r matches Ok((price, amount)) ==> price <= MAX_DIGITS && amount <= MAX_DIGITS,
    {
        match Json::parse(body) {
            Some(document) => Self::precisions_from(&document, pair),
            None => Err(FeedError::NotJson),
        }
    }

    /// Whether the parsed frame confirms the subscription.
    pub fn confirms(document: &Json) -> (r: bool)
        ensures
            r == confirmation_in(*document),
    {
        match document.field("event") {
            Some(event) => event.is_text("bts:subscription_succeeded"),
            None => false,
        }
    }

    /// Whether the frame that follows the subscription confirms it.
    pub fn read_confirmation(text: &str) -> (r: Result<bool, FeedError>)
        ensures
            !parseable(text@) ==> r == Err::<bool, FeedError>(FeedError::NotJson),
            parseable(text@) ==> r == Ok::<bool, FeedError>(
                confirmation_in(json_reading(text@)->0),
            ),
    {
        match Json::parse(text) {
            Some(document) => Ok(Self::confirms(&document)),
            None => Err(FeedError::NotJson),
        }
    }

    /// The snapshot that a parsed order book message holds: the rows under
    /// `asks`, then those under `bids`, of its `data`.
    pub fn snapshot(document: &Json, price_prec: u64, amount_prec: u64) -> (r: Result<
        Update,
        FeedError,
    >)
        requires
            price_prec <= MAX_DIGITS,
            amount_prec <= MAX_DIGITS,
        ensures
            match r {
                Ok(update) => update.wf() && snapshot_in(
                    *document,
                    price_prec as nat,
                    amount_prec as nat,
                ) == Ok::<UpdateView, FeedError>(update@),
                Err(e) => snapshot_in(*document, price_prec as nat, amount_prec as nat) == Err::<
                    UpdateView,
                    FeedError,
                >(e),
            },
    {
        match snapshot_from(Exchange::Bitstamp, price_prec, amount_prec, document.field("data")) {
            Ok(update) => Ok(update),
            Err(e) => Err(FeedError::Entry(e)),
        }
    }

    /// The snapshot that the text of an order book message holds.
    pub fn decode(text: &str, price_prec: u64, amount_prec: u64) -> (r: Result<Update, FeedError>)
        requires
            price_prec <= MAX_DIGITS,
            amount_prec <= MAX_DIGITS,
        ensures
            !parseable(text@) ==> r matches Err(FeedError::NotJson),
            parseable(text@) ==> match r {
                Ok(update) => update.wf() && snapshot_in(
                    json_reading(text@)->0,
                    price_prec as nat,
                    amount_prec as nat,
                ) == Ok::<UpdateView, FeedError>(update@),
                Err(e) => snapshot_in(
                    json_reading(text@)->0,
                    price_prec as nat,
                    amount_prec as nat,
                ) == Err::<UpdateView, FeedError>(e),
            },
    {
        match Json::parse(text) {
            Some(document) => Self::snapshot(&document, price_prec, amount_prec),
            None => Err(FeedError::NotJson),
        }
    }
}

} // verus!
