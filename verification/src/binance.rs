//! The Binance feed: where to ask for its precisions and its depth stream,
//! and how to read what comes back.

use crate::book::Update;
use crate::decimal_model::MAX_DIGITS;
use crate::document::{json_reading, parseable, Json};
use crate::feed::{rows_under, snapshot_from, snapshot_of, FeedError};
use crate::book_model::UpdateView;
use crate::text::{ascii_upper, to_ascii_upper};
use crate::venue::Exchange;
use vstd::prelude::*;
use vstd::string::StringExecFns;

verus! {

/// The Binance feed of one trading pair.
#[derive(Debug)]
pub struct BinanceClient {
    pair: String,
}

impl View for BinanceClient {
    type V = Seq<char>;

    closed spec fn view(&self) -> Seq<char> {
        self.pair@
    }
}

/// The whole number that `document` holds under `key`.
pub open spec fn number_under(document: Json, key: Seq<char>) -> Option<u64> {
    match document.spec_field(key) {
        Some(value) => value.spec_as_u64(),
        None => None,
    }
}

/// The whole number that `document` holds under `key`.
pub(crate) fn read_number(document: &Json, key: &str) -> (r: Option<u64>)
    ensures
        r == number_under(*document, key@),
{
    match document.field(key) {
        Some(value) => value.as_u64(),
        None => None,
    }
}

/// The precisions that the exchange information states: those of the first
/// symbol that it describes, the quote precision for prices and the base
/// asset precision for amounts.
pub open spec fn precisions_in(document: Json) -> Option<(u64, u64)> {
    match document.spec_field("symbols"@) {
        Some(symbols) => if symbols is Array && symbols.spec_len() >= 1 {
            let symbol = symbols.spec_items()[0];
            if number_under(symbol, "quotePrecision"@) is Some && number_under(
                symbol,
                "baseAssetPrecision"@,
            ) is Some {
                Some(
                    (
                        number_under(symbol, "quotePrecision"@)->0,
                        number_under(symbol, "baseAssetPrecision"@)->0,
                    ),
                )
            } else {
                None
            }
        } else {
            None
        },
        None => None,
    }
}

/// What the exchange information gives as precisions: those that it states,
/// where neither is more than can be stored.
pub open spec fn precisions_of(document: Json) -> Result<(u64, u64), FeedError> {
    match precisions_in(document) {
        Some((price, amount)) => if price <= MAX_DIGITS && amount <= MAX_DIGITS {
            Ok((price, amount))
        } else {
            Err(FeedError::Contract)
        },
        None => Err(FeedError::Contract),
    }
}

/// What a depth message gives as a snapshot at the given precisions.
pub open spec fn snapshot_in(document: Json, price_prec: nat, amount_prec: nat) -> Result<
    UpdateView,
    FeedError,
> {
    match snapshot_of(
        Exchange::Binance,
        price_prec,
        amount_prec,
        rows_under(Some(document), "asks"@),
        rows_under(Some(document), "bids"@),
    ) {
        Ok(update) => Ok(update),
        Err(e) => Err(FeedError::Entry(e)),
    }
}

impl BinanceClient {
    /// The feed of `pair`.
    pub fn new(pair: String) -> (r: BinanceClient)
        ensures
            r@ == pair@,
    {
        BinanceClient { pair }
    }

    /// The trading pair.
    pub fn pair(&self) -> (r: &str)
        ensures
            r@ == self@,
    {
        self.pair.as_str()
    }

    /// Where the venue states the precisions of `pair`: the exchange
    /// information of the pair in upper case.
    pub fn precisions_url(pair: &str) -> (r: String)
        ensures
            r@ == "https://api.binance.com/api/v3/exchangeInfo?symbol="@ + ascii_upper(pair@),
    {
        let upper = to_ascii_upper(pair);
        "https://api.binance.com/api/v3/exchangeInfo?symbol=".to_owned().concat(upper.as_str())
    }

    /// Where the venue streams the depth of the pair, ten levels every
    /// 100 ms.
    pub fn stream_url(&self) -> (r: String)
        ensures
            r@ == "wss://stream.binance.com:9443/ws/"@ + self@ + "@depth10@100ms"@,
    {
        "wss://stream.binance.com:9443/ws/".to_owned().concat(self.pair.as_str()).concat(
            "@depth10@100ms",
        )
    }

    /// The precisions of prices and amounts that the parsed exchange
    /// information gives.
    pub fn precisions_from(document: &Json) -> (r: Result<(u64, u64), FeedError>)
        ensures
            r == precisions_of(*document),
    {
        let symbols = match document.field("symbols") {
            Some(symbols) => symbols,
            None => {
                return Err(FeedError::Contract);
            },
        };
        if !symbols.is_array() || symbols.len() < 1 {
            return Err(FeedError::Contract);
        }
        let symbol = symbols.item(0).unwrap();
        match (read_number(symbol, "quotePrecision"), read_number(symbol, "baseAssetPrecision")) {
            (Some(price), Some(amount)) => {
                if price <= MAX_DIGITS as u64 && amount <= MAX_DIGITS as u64 {
                    Ok((price, amount))
                } else {
                    Err(FeedError::Contract)
                }
            },
            _ => Err(FeedError::Contract),
        }
    }

    /// The precisions of prices and amounts that the body of the exchange
    /// information gives.
    pub fn read_precisions(body: &str) -> (r: Result<(u64, u64), FeedError>)
        ensures
            !parseable(body@) ==> r == Err::<(u64, u64), FeedError>(FeedError::NotJson),
            parseable(body@) ==> r == precisions_of(json_reading(body@)->0),
            r matches Ok((price, amount)) ==> price <= MAX_DIGITS && amount <= MAX_DIGITS,
    {
        match Json::parse(body) {
            Some(document) => Self::precisions_from(&document),
            None => Err(FeedError::NotJson),
        }
    }

    /// The snapshot that a parsed depth message holds: the rows under
    /// `asks`, then those under `bids`.
    pub fn snapshot(document: &Json, price_prec: u64, amount_prec: u64) -> (r: Result<
        Update,
        FeedError,
    >)
        requires
            price_prec <= MAX_DIGITS,
            amount_prec <= MAX_DIGITS,
        ensures
            match r {
                Ok(update) => update.wf() && snapshot_in(
                    *document,
                    price_prec as nat,
                    amount_prec as nat,
                ) == Ok::<UpdateView, FeedError>(update@),
                Err(e) => snapshot_in(*document, price_prec as nat, amount_prec as nat) == Err::<
                    UpdateView,
                    FeedError,
                >(e),
            },
    {
        match snapshot_from(Exchange::Binance, price_prec, amount_prec, Some(document)) {
            Ok(update) => Ok(update),
            Err(e) => Err(FeedError::Entry(e)),
        }
    }

    /// The snapshot that the text of a depth message holds.
    pub fn decode(text: &str, price_prec: u64, amount_prec: u64) -> (r: Result<Update, FeedError>)
        requires
            price_prec <= MAX_DIGITS,
            amount_prec <= MAX_DIGITS,
        ensures
            !parseable(text@) ==> r matches Err(FeedError::NotJson),
            parseable(text@) ==> match r {
                Ok(update) => update.wf() && snapshot_in(
                    json_reading(text@)->0,
                    price_prec as nat,
                    amount_prec as nat,
                ) == Ok::<UpdateView, FeedError>(update@),
                Err(e) => snapshot_in(
                    json_reading(text@)->0,
                    price_prec as nat,
                    amount_prec as nat,
                ) == Err::<UpdateView, FeedError>(e),
            },
    {
        match Json::parse(text) {
            Some(document) => Self::snapshot(&document, price_prec, amount_prec),
            None => Err(FeedError::NotJson),
        }
    }
}

} // verus!
