//! What the venue feeds have in common: turning the rows of a depth message
//! into the entries of a snapshot.
//!
//! A row is an array of two texts, a price and an amount. A row of another
//! length is passed over; a row whose texts are not decimals ends the
//! decoding with an error.

use crate::book::{EntryError, Update};
use crate::book_model::{EntryView, Side, UpdateView};
use crate::decimal::{readable, reading};
use crate::document::Json;
use vstd::prelude::*;

verus! {

/// Why a venue's message did not become what was asked of it.
#[derive(Debug, Clone, Copy, PartialEq, Eq, Structural)]
pub enum FeedError {
    /// The message is not a JSON document.
    NotJson,
    /// The document lacks what the venue promises, or a precision in it is
    /// more than can be stored.
    Contract,
    /// A row's price or amount did not become an entry.
    Entry(EntryError),
}

/// The text of the member of `row` at `index`, where it is a string or a
/// number.
pub open spec fn element_text(row: Json, index: int) -> Option<Seq<char>> {
    match row.spec_item(index) {
        Some(element) => element.spec_scalar_text(),
        None => None,
    }
}

/// The entry that a snapshot makes of the texts of a price and an amount.
pub open spec fn texts_entry(
    update: UpdateView,
    price: Option<Seq<char>>,
    amount: Option<Seq<char>>,
) -> Result<EntryView, EntryError> {
    if price is Some && amount is Some && readable(price->0) && readable(amount->0) {
        if update.entry(reading(price->0), reading(amount->0)).wf() {
            Ok(update.entry(reading(price->0), reading(amount->0)))
        } else {
            Err(EntryError::OutOfRange)
        }
    } else {
        Err(EntryError::Unreadable)
    }
}

/// What a row adds to a snapshot: nothing where it does not have two
/// members, else the entry of its two texts or the reason why they make
/// none.
pub open spec fn row_entry(update: UpdateView, row: Json) -> Option<Result<EntryView, EntryError>> {
    if row.spec_len() != 2 {
        None
    } else {
        Some(texts_entry(update, element_text(row, 0), element_text(row, 1)))
    }
}

/// The entries of the rows in their order, or the error of the first row
/// that has one.
pub open spec fn rows_entries(update: UpdateView, rows: Seq<Json>) -> Result<
    Seq<EntryView>,
    EntryError,
>
    decreases rows.len(),
{
    if rows.len() == 0 {
        Ok(Seq::empty())
    } else {
        match rows_entries(update, rows.drop_last()) {
            Err(e) => Err(e),
            Ok(entries) => match row_entry(update, rows.last()) {
                None => Ok(entries),
                Some(Ok(e)) => Ok(entries.push(e)),
                Some(Err(e)) => Err(e),
            },
        }
    }
}

/// The rows under `key`: the members of the array that the document holds
/// there, and none where it holds no array there.
pub open spec fn rows_under(document: Option<Json>, key: Seq<char>) -> Seq<Json> {
    match document {
        Some(d) => match d.spec_field(key) {
            Some(rows) => rows.spec_items(),
            None => Seq::empty(),
        },
        None => Seq::empty(),
    }
}

/// The snapshot of `venue` that holds the entries of the given rows, or the
/// error of the first row that has one, asks before bids.
pub open spec fn snapshot_of(
    venue: crate::venue::Exchange,
    price_prec: nat,
    amount_prec: nat,
    asks: Seq<Json>,
    bids: Seq<Json>,
) -> Result<UpdateView, EntryError> {
    let empty = UpdateView {
        venue,
        bids: Seq::empty(),
        asks: Seq::empty(),
        price_prec,
        amount_prec,
    };
    match rows_entries(empty, asks) {
        Err(e) => Err(e),
        Ok(ask_entries) => match rows_entries(empty, bids) {
            Err(e) => Err(e),
            Ok(bid_entries) => Ok(UpdateView { asks: ask_entries, bids: bid_entries, ..empty }),
        },
    }
}

/// The entries of a row do not depend on the entries that the snapshot
/// already holds.
proof fn lemma_rows_entries_same(a: UpdateView, b: UpdateView, rows: Seq<Json>)
    requires
        a.venue == b.venue,
        a.price_prec == b.price_prec,
        a.amount_prec == b.amount_prec,
    ensures
        rows_entries(a, rows) == rows_entries(b, rows),
    decreases rows.len(),
{
    if rows.len() > 0 {
        lemma_rows_entries_same(a, b, rows.drop_last());
        assert(a.entry(
            reading(element_text(rows.last(), 0)->0),
            reading(element_text(rows.last(), 1)->0),
        ) == b.entry(
            reading(element_text(rows.last(), 0)->0),
            reading(element_text(rows.last(), 1)->0),
        ));
    }
}

/// Adds the entries of the rows under `key` to one side of `update`.
fn add_rows(update: &mut Update, document: Option<&Json>, key: &str, side: Side) -> (r: Result<
    (),
    EntryError,
>)
    requires
        old(update).wf(),
    ensures
        final(update).wf(),
        match rows_entries(
            old(update)@,
            rows_under(
                match document {
                    Some(d) => Some(*d),
                    None => None,
                },
                key@,
            ),
        ) {
            Ok(entries) => r is Ok && final(update)@ == old(update)@.with_entries(side, entries),
            Err(e) => r == Err::<(), EntryError>(e),
        },
{
    let ghost start = update@;
    let ghost none = Seq::<EntryView>::empty();
    proof {
        assert(start.asks + none =~= start.asks);
        assert(start.bids + none =~= start.bids);
    }
    let rows = match document {
        Some(d) => match d.field(key) {
            Some(rows) => rows,
            None => {
                return Ok(());
            },
        },
        None => {
            return Ok(());
        },
    };
    if !rows.is_array() {
        return Ok(());
    }
    let ghost all = rows.spec_items();
    let n = rows.len();
    let mut i: usize = 0;
    let ghost mut added = Seq::<EntryView>::empty();
    proof {
        assert(all.take(0) =~= Seq::<Json>::empty());
    }
    while i < n
        invariant
            i <= n,
            n == all.len(),
            all == rows.spec_items(),
            rows.spec_is_array(),
            update.wf(),
            start == old(update)@,
            rows_entries(start, all.take(i as int)) == Ok::<Seq<EntryView>, EntryError>(added),
            update@ == start.with_entries(side, added),
            all == rows_under(
                match document {
                    Some(d) => Some(*d),
                    None => None,
                },
                key@,
            ),
        decreases n - i,
    {
        let ghost before = update@;
        proof {
            assert(all.take(i + 1).drop_last() =~= all.take(i as int));
            assert(all.take(i + 1).last() == all[i as int]);
            lemma_rows_entries_same(start, before, all.take(i + 1));
            lemma_rows_entries_same(start, before, all.take(i as int));
            lemma_rows_stop(start, all, i + 1);
        }
        let row = rows.item(i).unwrap();
        if row.len() == 2 {
            let price = match row.item(0) {
                Some(element) => element.scalar_text(),
                None => None,
            };
            let amount = match row.item(1) {
                Some(element) => element.scalar_text(),
                None => None,
            };
            match (price, amount) {
                (Some(p), Some(a)) => {
                    let outcome = match side {
                        Side::Ask => update.add_ask(p.as_str(), a.as_str()),
                        Side::Bid => update.add_bid(p.as_str(), a.as_str()),
                    };
                    match outcome {
                        Ok(()) => {
                            proof {
                                let e = before.entry(reading(p@), reading(a@));
                                assert(start.asks + added.push(e) =~= (start.asks + added).push(e));
                                assert(start.bids + added.push(e) =~= (start.bids + added).push(e));
                                added = added.push(e);
                            }
                        },
                        Err(e) => {
                            return Err(e);
                        },
                    }
                },
                _ => {
                    return Err(EntryError::Unreadable);
                },
            }
        }
        i += 1;
    }
    proof {
        assert(all.take(n as int) =~= all);
    }
    Ok(())
}

/// Once a prefix of the rows has an error, the whole has that error.
proof fn lemma_rows_stop(update: UpdateView, rows: Seq<Json>, k: int)
    requires
        0 <= k <= rows.len(),
    ensures
        rows_entries(update, rows.take(k)) is Err ==> rows_entries(update, rows) == rows_entries(
            update,
            rows.take(k),
        ),
    decreases rows.len() - k,
{
    if k < rows.len() {
        assert(rows.drop_last().take(k) =~= rows.take(k));
        lemma_rows_stop(update, rows.drop_last(), k);
    } else {
        assert(rows.take(k) =~= rows);
    }
}

/// The snapshot of `venue` from the rows that `document` holds under
/// `asks` and `bids`. A missing side, or one that is no array, has no rows.
pub fn snapshot_from(
    venue: crate::venue::Exchange,
    price_prec: u64,
    amount_prec: u64,
    document: Option<&Json>,
) -> (r: Result<Update, EntryError>)
    requires
        price_prec <= crate::decimal_model::MAX_DIGITS,
        amount_prec <= crate::decimal_model::MAX_DIGITS,
    ensures
        match r {
            Ok(update) => update.wf() && snapshot_of(
                venue,
                price_prec as nat,
                amount_prec as nat,
                rows_under(
                    match document {
                        Some(d) => Some(*d),
                        None => None,
                    },
                    "asks"@,
                ),
                rows_under(
                    match document {
                        Some(d) => Some(*d),
                        None => None,
                    },
                    "bids"@,
                ),
            ) == Ok::<UpdateView, EntryError>(update@),
            Err(e) => snapshot_of(
                venue,
                price_prec as nat,
                amount_prec as nat,
                rows_under(
                    match document {
                        Some(d) => Some(*d),
                        None => None,
                    },
                    "asks"@,
                ),
                rows_under(
                    match document {
                        Some(d) => Some(*d),
                        None => None,
                    },
                    "bids"@,
                ),
            ) == Err::<UpdateView, EntryError>(e),
        },
{
    let mut update = Update::new(venue, price_prec, amount_prec);
    let ghost empty = update@;
    let ghost doc = match document {
        Some(d) => Some(*d),
        None => None,
    };
    match add_rows(&mut update, document, "asks", Side::Ask) {
        Ok(()) => {},
        Err(e) => {
            return Err(e);
        },
    }
    proof {
        lemma_rows_entries_same(empty, update@, rows_under(doc, "bids"@));
    }
    match add_rows(&mut update, document, "bids", Side::Bid) {
        Ok(()) => {},
        Err(e) => {
            return Err(e);
        },
    }
    proof {
        let asks = rows_entries(empty, rows_under(doc, "asks"@))->Ok_0;
        let bids = rows_entries(empty, rows_under(doc, "bids"@))->Ok_0;
        assert(Seq::<EntryView>::empty() + asks =~= asks);
        assert(Seq::<EntryView>::empty() + bids =~= bids);
    }
    Ok(update)
}

} // verus!
