//! The mathematical model of the merged book.
//!
//! Each side of the book is a sequence of entries in ranking order: asks from
//! the lowest price up, bids from the highest price down. Entries of equal
//! price stand in the order in which they arrived. Ingesting a venue's
//! snapshot removes that venue's entries and places the new ones one by one.

use crate::decimal_model::{
    lemma_order_strict, lemma_order_transitive, DecimalView, MAX_DIGITS,
};
use crate::venue::Exchange;
use vstd::multiset::Multiset;
use vstd::prelude::*;

verus! {

/// How many levels of each side a summary holds at most.
pub const DEPTH: usize = 10;

/// One resting order of a venue.
pub struct EntryView {
    pub price: DecimalView,
    pub amount: DecimalView,
    pub venue: Exchange,
}

/// One level of a published summary.
pub struct LevelView {
    pub exchange: Seq<char>,
    pub price: DecimalView,
    pub amount: DecimalView,
}

/// The published top of the book.
pub struct SummaryView {
    pub spread: DecimalView,
    pub bids: Seq<LevelView>,
    pub asks: Seq<LevelView>,
}

/// A venue's snapshot.
pub struct UpdateView {
    pub venue: Exchange,
    pub bids: Seq<EntryView>,
    pub asks: Seq<EntryView>,
    pub price_prec: nat,
    pub amount_prec: nat,
}

/// The merged book: both sides in ranking order, the price precision of the
/// snapshot ingested last, and the summary computed then.
pub struct BookView {
    pub asks: Seq<EntryView>,
    pub bids: Seq<EntryView>,
    pub price_prec: nat,
    pub summary: SummaryView,
}

/// A side of the book.
#[derive(Clone, Copy, Debug, PartialEq, Eq, Structural)]
pub enum Side {
    Ask,
    Bid,
}

impl Side {
    /// Price `p` ranks strictly ahead of price `q` on this side: it is lower
    /// among asks, higher among bids.
    pub open spec fn ahead(self, p: DecimalView, q: DecimalView) -> bool {
        match self {
            Side::Ask => p.lt(q),
            Side::Bid => q.lt(p),
        }
    }
}

impl EntryView {
    /// Both numbers are small enough to be stored.
    pub open spec fn wf(self) -> bool {
        self.price.in_range() && self.amount.in_range()
    }

    /// The level that publishes this entry.
    pub open spec fn level(self) -> LevelView {
        LevelView { exchange: self.venue.spec_name(), price: self.price, amount: self.amount }
    }
}

/// Every entry is well formed.
pub open spec fn all_wf(s: Seq<EntryView>) -> bool {
    forall|i: int| 0 <= i < s.len() ==> (#[trigger] s[i]).wf()
}

/// Every entry belongs to `venue`.
pub open spec fn all_of_venue(s: Seq<EntryView>, venue: Exchange) -> bool {
    forall|i: int| 0 <= i < s.len() ==> (#[trigger] s[i]).venue == venue
}

/// The sequence is in ranking order: no entry ranks strictly ahead of one
/// that stands before it.
pub open spec fn ranked(side: Side, s: Seq<EntryView>) -> bool {
    forall|i: int, j: int|
        0 <= i < j < s.len() ==> !side.ahead((#[trigger] s[j]).price, (#[trigger] s[i]).price)
}

/// Where an entry of price `p` is placed: behind every entry that it does
/// not rank strictly ahead of, so behind those of its own price.
pub open spec fn slot(side: Side, s: Seq<EntryView>, p: DecimalView) -> nat
    decreases s.len(),
{
    if s.len() == 0 {
        0
    } else if side.ahead(p, s[0].price) {
        0
    } else {
        1 + slot(side, s.drop_first(), p)
    }
}

/// The sequence with `e` placed in ranking order.
pub open spec fn place(side: Side, s: Seq<EntryView>, e: EntryView) -> Seq<EntryView> {
    s.insert(slot(side, s, e.price) as int, e)
}

/// The sequence with all of `items` placed, first to last.
pub open spec fn place_all(side: Side, s: Seq<EntryView>, items: Seq<EntryView>) -> Seq<
    EntryView,
>
    decreases items.len(),
{
    if items.len() == 0 {
        s
    } else {
        place(side, place_all(side, s, items.drop_last()), items.last())
    }
}

/// The entries that do not belong to `venue`, in their order.
pub open spec fn without_venue(s: Seq<EntryView>, venue: Exchange) -> Seq<EntryView> {
    s.filter(|e: EntryView| e.venue != venue)
}

/// The entries that belong to `venue`, in their order.
pub open spec fn only_venue(s: Seq<EntryView>, venue: Exchange) -> Seq<EntryView> {
    s.filter(|e: EntryView| e.venue == venue)
}

/// The first [`DEPTH`] entries, or all where there are fewer.
pub open spec fn top_entries(s: Seq<EntryView>) -> Seq<EntryView> {
    if s.len() <= DEPTH {
        s
    } else {
        s.take(DEPTH as int)
    }
}

/// The first [`DEPTH`] entries, as levels.
pub open spec fn top_levels(s: Seq<EntryView>) -> Seq<LevelView> {
    top_entries(s).map_values(|e: EntryView| e.level())
}

/// The cut of a summary falls between two prices: the side has no more
/// than [`DEPTH`] entries, or its last entry within the summary ranks
/// strictly ahead of the first one outside.
pub open spec fn clear_cut(side: Side, s: Seq<EntryView>) -> bool {
    s.len() <= DEPTH || side.ahead(s[DEPTH - 1].price, s[DEPTH as int].price)
}

/// How many entries at the front rank strictly ahead of the price `q`.
pub open spec fn lead(side: Side, s: Seq<EntryView>, q: DecimalView) -> nat
    decreases s.len(),
{
    if s.len() == 0 {
        0
    } else if side.ahead(s[0].price, q) {
        1 + lead(side, s.drop_first(), q)
    } else {
        0
    }
}

/// The levels are in ranking order by price.
pub open spec fn levels_ranked(side: Side, levels: Seq<LevelView>) -> bool {
    forall|i: int, j: int|
        0 <= i < j < levels.len() ==> !side.ahead(
            (#[trigger] levels[j]).price,
            (#[trigger] levels[i]).price,
        )
}

/// The spread of a book: best ask less best bid, cut to `prec` significant
/// digits; the best ask alone where there are no bids; the best bid negated
/// where there are no asks; zero for the empty book.
pub open spec fn spread_of(asks: Seq<EntryView>, bids: Seq<EntryView>, prec: nat) -> DecimalView {
    if asks.len() > 0 && bids.len() > 0 {
        asks[0].price.minus(bids[0].price).with_prec(prec)
    } else if asks.len() > 0 {
        asks[0].price
    } else if bids.len() > 0 {
        bids[0].price.negated()
    } else {
        DecimalView::zero()
    }
}

/// The summary of a book.
pub open spec fn summary_of(asks: Seq<EntryView>, bids: Seq<EntryView>, prec: nat) -> SummaryView {
    SummaryView {
        spread: spread_of(asks, bids, prec),
        bids: top_levels(bids),
        asks: top_levels(asks),
    }
}

impl UpdateView {
    /// The entry that the snapshot makes of a price and an amount: both cut
    /// to the snapshot's precisions, and tagged with its venue.
    pub open spec fn entry(self, price: DecimalView, amount: DecimalView) -> EntryView {
        EntryView {
            price: price.with_prec(self.price_prec),
            amount: amount.with_prec(self.amount_prec),
            venue: self.venue,
        }
    }

    /// The snapshot with one more bid.
    pub open spec fn with_bid(self, e: EntryView) -> UpdateView {
        UpdateView { bids: self.bids.push(e), ..self }
    }

    /// The snapshot with one more ask.
    pub open spec fn with_ask(self, e: EntryView) -> UpdateView {
        UpdateView { asks: self.asks.push(e), ..self }
    }

    /// The snapshot with more entries on one side.
    pub open spec fn with_entries(self, side: Side, entries: Seq<EntryView>) -> UpdateView {
        match side {
            Side::Ask => UpdateView { asks: self.asks + entries, ..self },
            Side::Bid => UpdateView { bids: self.bids + entries, ..self },
        }
    }

    /// Every entry is tagged with the snapshot's venue and small enough to
    /// be stored, and the precisions are within the digits that can be
    /// stored.
    pub open spec fn wf(self) -> bool {
        &&& all_wf(self.asks)
        &&& all_wf(self.bids)
        &&& all_of_venue(self.asks, self.venue)
        &&& all_of_venue(self.bids, self.venue)
        &&& self.price_prec <= MAX_DIGITS
        &&& self.amount_prec <= MAX_DIGITS
    }
}

impl BookView {
    /// The book before any snapshot.
    pub open spec fn empty() -> BookView {
        BookView {
            asks: Seq::empty(),
            bids: Seq::empty(),
            price_prec: 0,
            summary: summary_of(Seq::empty(), Seq::empty(), 0),
        }
    }

    /// Both sides are in ranking order, and the summary is that of the
    /// sides at the precision of the last snapshot.
    pub open spec fn wf(self) -> bool {
        &&& all_wf(self.asks)
        &&& all_wf(self.bids)
        &&& ranked(Side::Ask, self.asks)
        &&& ranked(Side::Bid, self.bids)
        &&& self.price_prec <= MAX_DIGITS
        &&& self.summary == summary_of(self.asks, self.bids, self.price_prec)
    }

    /// The book after the snapshot `update`: the venue's earlier entries are
    /// gone, the snapshot's entries are placed, and the summary is computed
    /// anew at the snapshot's price precision.
    pub open spec fn ingest(self, update: UpdateView) -> BookView {
        let asks = place_all(Side::Ask, without_venue(self.asks, update.venue), update.asks);
        let bids = place_all(Side::Bid, without_venue(self.bids, update.venue), update.bids);
        BookView {
            asks,
            bids,
            price_prec: update.price_prec,
            summary: summary_of(asks, bids, update.price_prec),
        }
    }

    /// The book after each of `updates` in turn.
    pub open spec fn ingest_all(self, updates: Seq<UpdateView>) -> BookView
        decreases updates.len(),
    {
        if updates.len() == 0 {
            self
        } else {
            self.ingest_all(updates.drop_last()).ingest(updates.last())
        }
    }
}

/// Ranking is a strict weak order on prices.
pub proof fn lemma_ahead_order(side: Side, a: DecimalView, b: DecimalView, c: DecimalView)
    ensures
        !side.ahead(a, a),
        side.ahead(a, b) ==> !side.ahead(b, a),
        side.ahead(a, b) && !side.ahead(c, b) ==> side.ahead(a, c),
        !side.ahead(a, b) && !side.ahead(b, c) ==> !side.ahead(a, c),
{
    lemma_order_strict(a, b);
    lemma_order_strict(b, a);
    lemma_order_transitive(a, b, c);
    lemma_order_transitive(c, b, a);
}

/// The slot lies within the sequence, behind entries that the price does not
/// rank ahead of and in front of one that it does.
pub proof fn lemma_slot(side: Side, s: Seq<EntryView>, p: DecimalView)
    ensures
        slot(side, s, p) <= s.len(),
        forall|j: int| 0 <= j < slot(side, s, p) ==> !side.ahead(p, (#[trigger] s[j]).price),
        slot(side, s, p) < s.len() ==> side.ahead(p, s[slot(side, s, p) as int].price),
    decreases s.len(),
{
    if s.len() > 0 && !side.ahead(p, s[0].price) {
        let rest = s.drop_first();
        lemma_slot(side, rest, p);
        assert forall|j: int| 0 <= j < slot(side, s, p) implies !side.ahead(
            p,
            (#[trigger] s[j]).price,
        ) by {
            if j > 0 {
                assert(s[j] == rest[j - 1]);
            }
        }
        if slot(side, s, p) < s.len() {
            assert(s[slot(side, s, p) as int] == rest[slot(side, rest, p) as int]);
        }
    }
}

/// The slot counted from the front: skipping `i` entries that the price does
/// not rank ahead of moves the slot by `i`.
pub proof fn lemma_slot_skip(side: Side, s: Seq<EntryView>, p: DecimalView, i: int)
    requires
        0 <= i < s.len(),
        slot(side, s, p) == i + slot(side, s.skip(i), p),
        !side.ahead(p, s[i].price),
    ensures
        slot(side, s, p) == i + 1 + slot(side, s.skip(i + 1), p),
{
    assert(s.skip(i).drop_first() =~= s.skip(i + 1));
    assert(s.skip(i)[0] == s[i]);
}

/// Placing an entry keeps the ranking order.
pub proof fn lemma_place_ranked(side: Side, s: Seq<EntryView>, e: EntryView)
    requires
        ranked(side, s),
    ensures
        ranked(side, place(side, s, e)),
{
    let k = slot(side, s, e.price) as int;
    let r = place(side, s, e);
    lemma_slot(side, s, e.price);
    assert forall|i: int, j: int| 0 <= i < j < r.len() implies !side.ahead(
        (#[trigger] r[j]).price,
        (#[trigger] r[i]).price,
    ) by {
        if j == k {
            assert(r[i] == s[i]);
        } else if i == k {
            assert(r[j] == s[j - 1]);
            lemma_ahead_order(side, e.price, s[k].price, s[j - 1].price);
            lemma_ahead_order(side, e.price, s[j - 1].price, e.price);
            if k < j - 1 {
                assert(!side.ahead(s[j - 1].price, s[k].price));
            }
        } else {
            let oi = if i < k {
                i
            } else {
                i - 1
            };
            let oj = if j < k {
                j
            } else {
                j - 1
            };
            assert(r[i] == s[oi]);
            assert(r[j] == s[oj]);
            assert(!side.ahead(s[oj].price, s[oi].price));
        }
    }
}

/// Placing entries keeps the ranking order.
pub proof fn lemma_place_all_ranked(side: Side, s: Seq<EntryView>, items: Seq<EntryView>)
    requires
        ranked(side, s),
    ensures
        ranked(side, place_all(side, s, items)),
    decreases items.len(),
{
    if items.len() > 0 {
        lemma_place_all_ranked(side, s, items.drop_last());
        lemma_place_ranked(side, place_all(side, s, items.drop_last()), items.last());
    }
}

/// Placing entries adds exactly those entries.
pub proof fn lemma_place_all_multiset(side: Side, s: Seq<EntryView>, items: Seq<EntryView>)
    ensures
        place_all(side, s, items).to_multiset() == s.to_multiset().add(items.to_multiset()),
        place_all(side, s, items).len() == s.len() + items.len(),
    decreases items.len(),
{
    broadcast use vstd::seq_lib::group_to_multiset_ensures;

    if items.len() == 0 {
        assert(items.to_multiset() =~= Multiset::empty());
        assert(s.to_multiset().add(items.to_multiset()) =~= s.to_multiset());
    } else {
        let init = items.drop_last();
        let mid = place_all(side, s, init);
        lemma_place_all_multiset(side, s, init);
        lemma_slot(side, mid, items.last().price);
        assert(items =~= init.push(items.last()));
        assert(place(side, mid, items.last()).to_multiset() =~= mid.to_multiset().insert(
            items.last(),
        ));
        assert(items.to_multiset() =~= init.to_multiset().insert(items.last()));
        assert(s.to_multiset().add(init.to_multiset()).insert(items.last()) =~= s.to_multiset().add(
            items.to_multiset(),
        ));
    }
}

/// Placed entries are well formed where the old and the new ones are.
pub proof fn lemma_place_all_wf(side: Side, s: Seq<EntryView>, items: Seq<EntryView>)
    requires
        all_wf(s),
        all_wf(items),
    ensures
        all_wf(place_all(side, s, items)),
    decreases items.len(),
{
    if items.len() > 0 {
        let mid = place_all(side, s, items.drop_last());
        lemma_place_all_wf(side, s, items.drop_last());
        lemma_slot(side, mid, items.last().price);
        let k = slot(side, mid, items.last().price) as int;
        let r = place(side, mid, items.last());
        assert forall|i: int| 0 <= i < r.len() implies (#[trigger] r[i]).wf() by {
            if i < k {
                assert(r[i] == mid[i]);
            } else if i > k {
                assert(r[i] == mid[i - 1]);
            } else {
                assert(items.last() == items[items.len() - 1]);
            }
        }
    }
}

/// A filtered sequence keeps the ranking order and the well-formedness of
/// its entries.
pub proof fn lemma_filter_ranked(side: Side, s: Seq<EntryView>, pred: spec_fn(EntryView) -> bool)
    requires
        ranked(side, s),
    ensures
        ranked(side, s.filter(pred)),
    decreases s.len(),
{
    reveal(Seq::filter);
    if s.len() > 0 {
        let init = s.drop_last();
        let f = init.filter(pred);
        assert(ranked(side, init)) by {
            assert forall|i: int, j: int| 0 <= i < j < init.len() implies !side.ahead(
                (#[trigger] init[j]).price,
                (#[trigger] init[i]).price,
            ) by {
                assert(init[i] == s[i] && init[j] == s[j]);
            }
        }
        lemma_filter_ranked(side, init, pred);
        if pred(s.last()) {
            let r = f.push(s.last());
            assert forall|i: int, j: int| 0 <= i < j < r.len() implies !side.ahead(
                (#[trigger] r[j]).price,
                (#[trigger] r[i]).price,
            ) by {
                if j < f.len() {
                    assert(r[i] == f[i] && r[j] == f[j]);
                } else {
                    assert(r[i] == f[i]);
                    assert(f.contains(f[i]));
                    init.lemma_filter_contains_rev(pred, f[i]);
                    let k = choose|k: int| 0 <= k < init.len() && init[k] == f[i];
                    assert(s[k] == f[i]);
                    assert(!side.ahead(s[s.len() - 1].price, s[k].price));
                }
            }
        }
    }
}

/// A filtered sequence of well-formed entries holds well-formed entries.
pub proof fn lemma_filter_wf(s: Seq<EntryView>, pred: spec_fn(EntryView) -> bool)
    requires
        all_wf(s),
    ensures
        all_wf(s.filter(pred)),
{
    let f = s.filter(pred);
    assert forall|i: int| 0 <= i < f.len() implies (#[trigger] f[i]).wf() by {
        assert(f.contains(f[i]));
        s.lemma_filter_contains_rev(pred, f[i]);
        let k = choose|k: int| 0 <= k < s.len() && s[k] == f[i];
        assert(s[k].wf());
    }
}

/// Filtering a sequence with an entry inserted: the entry is kept or not,
/// the others as before.
pub proof fn lemma_filter_insert(
    s: Seq<EntryView>,
    k: int,
    e: EntryView,
    pred: spec_fn(EntryView) -> bool,
)
    requires
        0 <= k <= s.len(),
    ensures
        !pred(e) ==> s.insert(k, e).filter(pred) == s.filter(pred),
        pred(e) ==> s.insert(k, e).filter(pred) == s.take(k).filter(pred).push(e) + s.skip(
            k,
        ).filter(pred),
        s.filter(pred) == s.take(k).filter(pred) + s.skip(k).filter(pred),
{
    reveal(Seq::filter);
    let one = seq![e];
    assert(s.insert(k, e) =~= s.take(k) + one + s.skip(k));
    assert(s =~= s.take(k) + s.skip(k));
    Seq::filter_distributes_over_add(s.take(k), s.skip(k), pred);
    Seq::filter_distributes_over_add(s.take(k) + one, s.skip(k), pred);
    Seq::filter_distributes_over_add(s.take(k), one, pred);
    assert(one.drop_last() =~= Seq::<EntryView>::empty());
    assert(one.drop_last().filter(pred) =~= Seq::<EntryView>::empty());
    assert(one.last() == e);
    if pred(e) {
        assert(one.filter(pred) =~= one);
        assert(s.take(k).filter(pred) + one =~= s.take(k).filter(pred).push(e));
    } else {
        assert(one.filter(pred) =~= Seq::<EntryView>::empty());
        assert(s.take(k).filter(pred) + one.filter(pred) =~= s.take(k).filter(pred));
    }
}

/// Placed entries of one venue do not show among the other venues' entries.
pub proof fn lemma_place_all_without(
    side: Side,
    s: Seq<EntryView>,
    items: Seq<EntryView>,
    venue: Exchange,
)
    requires
        all_of_venue(items, venue),
    ensures
        without_venue(place_all(side, s, items), venue) == without_venue(s, venue),
    decreases items.len(),
{
    if items.len() > 0 {
        let mid = place_all(side, s, items.drop_last());
        lemma_place_all_without(side, s, items.drop_last(), venue);
        lemma_slot(side, mid, items.last().price);
        assert(items.last() == items[items.len() - 1]);
        lemma_filter_insert(
            mid,
            slot(side, mid, items.last().price) as int,
            items.last(),
            |e: EntryView| e.venue != venue,
        );
    }
}

/// The entries of a venue after its own entries were placed: those that
/// were there, and the placed ones.
pub proof fn lemma_place_all_only(
    side: Side,
    s: Seq<EntryView>,
    items: Seq<EntryView>,
    venue: Exchange,
)
    requires
        all_of_venue(items, venue),
    ensures
        only_venue(place_all(side, s, items), venue).to_multiset() == only_venue(
            s,
            venue,
        ).to_multiset().add(items.to_multiset()),
    decreases items.len(),
{
    broadcast use vstd::seq_lib::group_to_multiset_ensures;

    let pred = |e: EntryView| e.venue == venue;
    if items.len() == 0 {
        assert(items.to_multiset() =~= Multiset::empty());
        assert(only_venue(s, venue).to_multiset().add(items.to_multiset()) =~= only_venue(
            s,
            venue,
        ).to_multiset());
    } else {
        let init = items.drop_last();
        let last = items.last();
        let mid = place_all(side, s, init);
        lemma_place_all_only(side, s, init, venue);
        lemma_slot(side, mid, last.price);
        let k = slot(side, mid, last.price) as int;
        assert(last == items[items.len() - 1]);
        lemma_filter_insert(mid, k, last, pred);
        let front = mid.take(k).filter(pred);
        let back = mid.skip(k).filter(pred);
        vstd::seq_lib::lemma_multiset_commutative(front.push(last), back);
        vstd::seq_lib::lemma_multiset_commutative(front, back);
        assert(front.push(last).to_multiset() =~= front.to_multiset().insert(last));
        assert(items =~= init.push(last));
        assert(items.to_multiset() =~= init.to_multiset().insert(last));
        assert(only_venue(place_all(side, s, items), venue).to_multiset() =~= only_venue(
            mid,
            venue,
        ).to_multiset().insert(last));
        assert(only_venue(s, venue).to_multiset().add(init.to_multiset()).insert(last)
            =~= only_venue(s, venue).to_multiset().add(items.to_multiset()));
    }
}

/// Placed entries of one venue among the entries kept for another venue's
/// removal: they stay.
pub proof fn lemma_place_all_other(
    side: Side,
    s: Seq<EntryView>,
    items: Seq<EntryView>,
    venue: Exchange,
    other: Exchange,
)
    requires
        all_of_venue(items, venue),
        venue != other,
    ensures
        without_venue(place_all(side, s, items), other).to_multiset() == without_venue(
            s,
            other,
        ).to_multiset().add(items.to_multiset()),
    decreases items.len(),
{
    broadcast use vstd::seq_lib::group_to_multiset_ensures;

    let pred = |e: EntryView| e.venue != other;
    if items.len() == 0 {
        assert(items.to_multiset() =~= Multiset::empty());
        assert(without_venue(s, other).to_multiset().add(items.to_multiset()) =~= without_venue(
            s,
            other,
        ).to_multiset());
    } else {
        let init = items.drop_last();
        let last = items.last();
        let mid = place_all(side, s, init);
        lemma_place_all_other(side, s, init, venue, other);
        lemma_slot(side, mid, last.price);
        let k = slot(side, mid, last.price) as int;
        assert(last == items[items.len() - 1]);
        lemma_filter_insert(mid, k, last, pred);
        let front = mid.take(k).filter(pred);
        let back = mid.skip(k).filter(pred);
        vstd::seq_lib::lemma_multiset_commutative(front.push(last), back);
        vstd::seq_lib::lemma_multiset_commutative(front, back);
        assert(front.push(last).to_multiset() =~= front.to_multiset().insert(last));
        assert(items =~= init.push(last));
        assert(items.to_multiset() =~= init.to_multiset().insert(last));
        assert(without_venue(place_all(side, s, items), other).to_multiset() =~= without_venue(
            mid,
            other,
        ).to_multiset().insert(last));
        assert(without_venue(s, other).to_multiset().add(init.to_multiset()).insert(last)
            =~= without_venue(s, other).to_multiset().add(items.to_multiset()));
    }
}

/// Removing a venue from nothing leaves nothing.
pub proof fn lemma_without_empty(venue: Exchange)
    ensures
        without_venue(Seq::empty(), venue) == Seq::<EntryView>::empty(),
{
    reveal(Seq::filter);
}

/// Removing a venue from a sequence with one more entry at its end.
pub proof fn lemma_without_push(s: Seq<EntryView>, e: EntryView, venue: Exchange)
    ensures
        without_venue(s.push(e), venue) == if e.venue != venue {
            without_venue(s, venue).push(e)
        } else {
            without_venue(s, venue)
        },
{
    reveal(Seq::filter);
    s.lemma_filter_push(e, |x: EntryView| x.venue != venue);
}

/// Removing a venue twice removes no more than removing it once, and a
/// sequence without the venue holds none of its entries.
pub proof fn lemma_without_twice(s: Seq<EntryView>, venue: Exchange)
    ensures
        without_venue(without_venue(s, venue), venue) == without_venue(s, venue),
        only_venue(without_venue(s, venue), venue) == Seq::<EntryView>::empty(),
    decreases s.len(),
{
    reveal(Seq::filter);
    if s.len() > 0 {
        lemma_without_twice(s.drop_last(), venue);
        let f = without_venue(s.drop_last(), venue);
        if s.last().venue != venue {
            f.lemma_filter_push(s.last(), |e: EntryView| e.venue != venue);
            f.lemma_filter_push(s.last(), |e: EntryView| e.venue == venue);
        }
    }
}

/// Removing two venues gives the same entries in either order.
pub proof fn lemma_without_commutes(s: Seq<EntryView>, a: Exchange, b: Exchange)
    ensures
        without_venue(without_venue(s, a), b) == without_venue(without_venue(s, b), a),
    decreases s.len(),
{
    reveal(Seq::filter);
    if s.len() > 0 {
        lemma_without_commutes(s.drop_last(), a, b);
        let fa = without_venue(s.drop_last(), a);
        let fb = without_venue(s.drop_last(), b);
        if s.last().venue != a {
            fa.lemma_filter_push(s.last(), |e: EntryView| e.venue != b);
        }
        if s.last().venue != b {
            fb.lemma_filter_push(s.last(), |e: EntryView| e.venue != a);
        }
    }
}

/// The first levels of a ranked side are ranked, and at most [`DEPTH`].
pub proof fn lemma_top_levels(side: Side, s: Seq<EntryView>)
    requires
        ranked(side, s),
    ensures
        levels_ranked(side, top_levels(s)),
        top_levels(s).len() <= DEPTH,
        top_levels(s).len() <= s.len(),
{
    let t = top_levels(s);
    assert forall|i: int, j: int| 0 <= i < j < t.len() implies !side.ahead(
        (#[trigger] t[j]).price,
        (#[trigger] t[i]).price,
    ) by {
        assert(t[i] == top_entries(s)[i].level());
        assert(t[j] == top_entries(s)[j].level());
        assert(top_entries(s)[i] == s[i]);
        assert(top_entries(s)[j] == s[j]);
        assert(!side.ahead(s[j].price, s[i].price));
    }
}

/// A well-formed book stays well formed when it ingests a well-formed
/// snapshot.
pub proof fn lemma_ingest_wf(book: BookView, update: UpdateView)
    requires
        book.wf(),
        update.wf(),
    ensures
        book.ingest(update).wf(),
{
    let other = |e: EntryView| e.venue != update.venue;
    lemma_filter_ranked(Side::Ask, book.asks, other);
    lemma_filter_ranked(Side::Bid, book.bids, other);
    lemma_filter_wf(book.asks, other);
    lemma_filter_wf(book.bids, other);
    lemma_place_all_ranked(Side::Ask, without_venue(book.asks, update.venue), update.asks);
    lemma_place_all_ranked(Side::Bid, without_venue(book.bids, update.venue), update.bids);
    lemma_place_all_wf(Side::Ask, without_venue(book.asks, update.venue), update.asks);
    lemma_place_all_wf(Side::Bid, without_venue(book.bids, update.venue), update.bids);
}

/// What ingesting a snapshot does to a venue's entries and to the summary:
/// the entries of other venues stay as they were, in their order; the
/// venue's entries are exactly the snapshot's; the summary's sides are in
/// ranking order and at most [`DEPTH`] long.
pub proof fn lemma_ingest_replaces(book: BookView, update: UpdateView)
    requires
        book.wf(),
        update.wf(),
    ensures
        without_venue(book.ingest(update).asks, update.venue) == without_venue(
            book.asks,
            update.venue,
        ),
        without_venue(book.ingest(update).bids, update.venue) == without_venue(
            book.bids,
            update.venue,
        ),
        only_venue(book.ingest(update).asks, update.venue).to_multiset()
            == update.asks.to_multiset(),
        only_venue(book.ingest(update).bids, update.venue).to_multiset()
            == update.bids.to_multiset(),
        levels_ranked(Side::Ask, book.ingest(update).summary.asks),
        levels_ranked(Side::Bid, book.ingest(update).summary.bids),
        book.ingest(update).summary.asks.len() <= DEPTH,
        book.ingest(update).summary.bids.len() <= DEPTH,
{
    broadcast use vstd::seq_lib::group_to_multiset_ensures;

    let v = update.venue;
    lemma_ingest_wf(book, update);
    lemma_without_twice(book.asks, v);
    lemma_without_twice(book.bids, v);
    lemma_place_all_without(Side::Ask, without_venue(book.asks, v), update.asks, v);
    lemma_place_all_without(Side::Bid, without_venue(book.bids, v), update.bids, v);
    lemma_place_all_only(Side::Ask, without_venue(book.asks, v), update.asks, v);
    lemma_place_all_only(Side::Bid, without_venue(book.bids, v), update.bids, v);
    assert(Seq::<EntryView>::empty().to_multiset().add(update.asks.to_multiset())
        =~= update.asks.to_multiset());
    assert(Seq::<EntryView>::empty().to_multiset().add(update.bids.to_multiset())
        =~= update.bids.to_multiset());
    lemma_top_levels(Side::Ask, book.ingest(update).asks);
    lemma_top_levels(Side::Bid, book.ingest(update).bids);
}


/// Ingesting the same snapshot twice in a row leaves the book as it was
/// after the first time.
pub proof fn lemma_ingest_idempotent(book: BookView, update: UpdateView)
    requires
        update.wf(),
    ensures
        book.ingest(update).ingest(update) == book.ingest(update),
{
    let v = update.venue;
    lemma_without_twice(book.asks, v);
    lemma_without_twice(book.bids, v);
    lemma_place_all_without(Side::Ask, without_venue(book.asks, v), update.asks, v);
    lemma_place_all_without(Side::Bid, without_venue(book.bids, v), update.bids, v);
}

/// Two snapshots of different venues leave the same entries on each side in
/// whichever order they are ingested: those of the other venues that the
/// book held, and all of both snapshots. Only the order among entries of one
/// price may differ.
pub proof fn lemma_ingest_commutes(book: BookView, first: UpdateView, second: UpdateView)
    requires
        first.wf(),
        second.wf(),
        first.venue != second.venue,
    ensures
        book.ingest(first).ingest(second).asks.to_multiset() == book.ingest(second).ingest(
            first,
        ).asks.to_multiset(),
        book.ingest(first).ingest(second).bids.to_multiset() == book.ingest(second).ingest(
            first,
        ).bids.to_multiset(),
        book.ingest(first).ingest(second).asks.to_multiset() == without_venue(
            without_venue(book.asks, first.venue),
            second.venue,
        ).to_multiset().add(first.asks.to_multiset()).add(second.asks.to_multiset()),
        book.ingest(first).ingest(second).bids.to_multiset() == without_venue(
            without_venue(book.bids, first.venue),
            second.venue,
        ).to_multiset().add(first.bids.to_multiset()).add(second.bids.to_multiset()),
{
    lemma_both_placed(Side::Ask, book.asks, first.asks, first.venue, second.asks, second.venue);
    lemma_both_placed(Side::Ask, book.asks, second.asks, second.venue, first.asks, first.venue);
    lemma_both_placed(Side::Bid, book.bids, first.bids, first.venue, second.bids, second.venue);
    lemma_both_placed(Side::Bid, book.bids, second.bids, second.venue, first.bids, first.venue);
    lemma_without_commutes(book.asks, first.venue, second.venue);
    lemma_without_commutes(book.bids, first.venue, second.venue);
    let a = without_venue(without_venue(book.asks, first.venue), second.venue).to_multiset();
    let b = without_venue(without_venue(book.bids, first.venue), second.venue).to_multiset();
    assert(a.add(first.asks.to_multiset()).add(second.asks.to_multiset()) =~= a.add(
        second.asks.to_multiset(),
    ).add(first.asks.to_multiset()));
    assert(b.add(first.bids.to_multiset()).add(second.bids.to_multiset()) =~= b.add(
        second.bids.to_multiset(),
    ).add(first.bids.to_multiset()));
}

/// After two snapshots of different venues, every entry of either snapshot
/// stands in the book, and so in the summary of a side that holds no more
/// than [`DEPTH`] entries.
pub proof fn lemma_ingest_holds_both(book: BookView, first: UpdateView, second: UpdateView)
    requires
        first.wf(),
        second.wf(),
        first.venue != second.venue,
    ensures
        forall|i: int|
            0 <= i < first.asks.len() ==> book.ingest(first).ingest(second).asks.contains(
                #[trigger] first.asks[i],
            ),
        forall|i: int|
            0 <= i < second.asks.len() ==> book.ingest(first).ingest(second).asks.contains(
                #[trigger] second.asks[i],
            ),
        forall|i: int|
            0 <= i < first.bids.len() ==> book.ingest(first).ingest(second).bids.contains(
                #[trigger] first.bids[i],
            ),
        forall|i: int|
            0 <= i < second.bids.len() ==> book.ingest(first).ingest(second).bids.contains(
                #[trigger] second.bids[i],
            ),
        book.ingest(first).ingest(second).asks.len() <= DEPTH ==> top_entries(
            book.ingest(first).ingest(second).asks,
        ) == book.ingest(first).ingest(second).asks,
        book.ingest(first).ingest(second).bids.len() <= DEPTH ==> top_entries(
            book.ingest(first).ingest(second).bids,
        ) == book.ingest(first).ingest(second).bids,
{
    broadcast use vstd::seq_lib::group_to_multiset_ensures;

    lemma_ingest_commutes(book, first, second);
    let after = book.ingest(first).ingest(second);
    assert forall|i: int| 0 <= i < first.asks.len() implies after.asks.contains(
        #[trigger] first.asks[i],
    ) by {
        assert(first.asks.contains(first.asks[i]));
        assert(first.asks.to_multiset().count(first.asks[i]) > 0);
        assert(after.asks.to_multiset().count(first.asks[i]) > 0);
    }
    assert forall|i: int| 0 <= i < second.asks.len() implies after.asks.contains(
        #[trigger] second.asks[i],
    ) by {
        assert(second.asks.contains(second.asks[i]));
        assert(second.asks.to_multiset().count(second.asks[i]) > 0);
        assert(after.asks.to_multiset().count(second.asks[i]) > 0);
    }
    assert forall|i: int| 0 <= i < first.bids.len() implies after.bids.contains(
        #[trigger] first.bids[i],
    ) by {
        assert(first.bids.contains(first.bids[i]));
        assert(first.bids.to_multiset().count(first.bids[i]) > 0);
        assert(after.bids.to_multiset().count(first.bids[i]) > 0);
    }
    assert forall|i: int| 0 <= i < second.bids.len() implies after.bids.contains(
        #[trigger] second.bids[i],
    ) by {
        assert(second.bids.contains(second.bids[i]));
        assert(second.bids.to_multiset().count(second.bids[i]) > 0);
        assert(after.bids.to_multiset().count(second.bids[i]) > 0);
    }
}

/// One side after the entries of two different venues replaced what it held
/// of them.
proof fn lemma_both_placed(
    side: Side,
    s: Seq<EntryView>,
    first: Seq<EntryView>,
    first_venue: Exchange,
    second: Seq<EntryView>,
    second_venue: Exchange,
)
    requires
        all_of_venue(first, first_venue),
        all_of_venue(second, second_venue),
        first_venue != second_venue,
    ensures
        place_all(
            side,
            without_venue(place_all(side, without_venue(s, first_venue), first), second_venue),
            second,
        ).to_multiset() == without_venue(
            without_venue(s, first_venue),
            second_venue,
        ).to_multiset().add(first.to_multiset()).add(second.to_multiset()),
{
    let kept = without_venue(s, first_venue);
    let mid = place_all(side, kept, first);
    lemma_place_all_other(side, kept, first, first_venue, second_venue);
    lemma_place_all_multiset(side, without_venue(mid, second_venue), second);
}

/// In a ranked side, the entries that rank ahead of a price are exactly those
/// at the front.
proof fn lemma_lead(side: Side, s: Seq<EntryView>, q: DecimalView)
    requires
        ranked(side, s),
    ensures
        lead(side, s, q) <= s.len(),
        forall|i: int| 0 <= i < lead(side, s, q) ==> side.ahead((#[trigger] s[i]).price, q),
        forall|i: int| lead(side, s, q) <= i < s.len() ==> !side.ahead((#[trigger] s[i]).price, q),
    decreases s.len(),
{
    if s.len() > 0 {
        let rest = s.drop_first();
        assert(ranked(side, rest)) by {
            assert forall|i: int, j: int| 0 <= i < j < rest.len() implies !side.ahead(
                (#[trigger] rest[j]).price,
                (#[trigger] rest[i]).price,
            ) by {
                assert(rest[i] == s[i + 1] && rest[j] == s[j + 1]);
            }
        }
        lemma_lead(side, rest, q);
        if side.ahead(s[0].price, q) {
            assert forall|i: int| 0 <= i < lead(side, s, q) implies side.ahead(
                (#[trigger] s[i]).price,
                q,
            ) by {
                if i > 0 {
                    assert(s[i] == rest[i - 1]);
                }
            }
            assert forall|i: int| lead(side, s, q) <= i < s.len() implies !side.ahead(
                (#[trigger] s[i]).price,
                q,
            ) by {
                assert(s[i] == rest[i - 1]);
            }
        } else {
            assert forall|i: int| 0 <= i < s.len() implies !side.ahead(
                (#[trigger] s[i]).price,
                q,
            ) by {
                if i > 0 {
                    assert(!side.ahead(s[i].price, s[0].price));
                    lemma_ahead_order(side, s[i].price, s[0].price, q);
                }
            }
        }
    }
}

/// Where the entries at the front, and only those, meet a condition,
/// filtering by it keeps the front.
proof fn lemma_filter_front(s: Seq<EntryView>, pred: spec_fn(EntryView) -> bool, k: int)
    requires
        0 <= k <= s.len(),
        forall|i: int| 0 <= i < k ==> pred(#[trigger] s[i]),
        forall|i: int| k <= i < s.len() ==> !pred(#[trigger] s[i]),
    ensures
        s.filter(pred) == s.take(k),
    decreases s.len(),
{
    reveal(Seq::filter);
    if s.len() == 0 {
        assert(s.take(k) =~= s);
    } else {
        let init = s.drop_last();
        let n = s.len() - 1;
        if k == s.len() {
            assert forall|i: int| 0 <= i < n implies pred(#[trigger] init[i]) by {
                assert(init[i] == s[i]);
            }
            lemma_filter_front(init, pred, n);
            assert(init.take(n) =~= init);
            assert(pred(s[n]));
            assert(init.push(s.last()) =~= s);
            assert(s.take(k) =~= s);
        } else {
            assert forall|i: int| 0 <= i < k implies pred(#[trigger] init[i]) by {
                assert(init[i] == s[i]);
            }
            assert forall|i: int| k <= i < init.len() implies !pred(#[trigger] init[i]) by {
                assert(init[i] == s[i]);
            }
            lemma_filter_front(init, pred, k);
            assert(!pred(s[n]));
            assert(init.take(k) =~= s.take(k));
        }
    }
}

/// How often an entry occurs in a filtered sequence: as often as in the
/// whole where it meets the condition, and not at all where it does not.
proof fn lemma_filter_count(s: Seq<EntryView>, pred: spec_fn(EntryView) -> bool, x: EntryView)
    ensures
        s.filter(pred).to_multiset().count(x) == if pred(x) {
            s.to_multiset().count(x)
        } else {
            0
        },
    decreases s.len(),
{
    broadcast use vstd::seq_lib::group_to_multiset_ensures;

    reveal(Seq::filter);
    if s.len() == 0 {
        assert(s.filter(pred) =~= Seq::<EntryView>::empty());
        assert(s =~= Seq::<EntryView>::empty());
    } else {
        let init = s.drop_last();
        let last = s.last();
        lemma_filter_count(init, pred, x);
        assert(s =~= init.push(last));
        assert(s.to_multiset() =~= init.to_multiset().insert(last));
        if pred(last) {
            assert(s.filter(pred).to_multiset() =~= init.filter(pred).to_multiset().insert(last));
        }
    }
}

/// Two sequences with the same entries have the same entries after
/// filtering.
proof fn lemma_filter_same_entries(
    s: Seq<EntryView>,
    t: Seq<EntryView>,
    pred: spec_fn(EntryView) -> bool,
)
    requires
        s.to_multiset() == t.to_multiset(),
    ensures
        s.filter(pred).to_multiset() == t.filter(pred).to_multiset(),
{
    assert forall|x: EntryView|
        s.filter(pred).to_multiset().count(x) == t.filter(pred).to_multiset().count(x) by {
        lemma_filter_count(s, pred, x);
        lemma_filter_count(t, pred, x);
    }
    assert(s.filter(pred).to_multiset() =~= t.filter(pred).to_multiset());
}

/// Two ranked sequences with the same entries have the same entries within
/// the summary, where the cut of one of them is clear.
pub proof fn lemma_top_entries_same(side: Side, s: Seq<EntryView>, t: Seq<EntryView>)
    requires
        ranked(side, s),
        ranked(side, t),
        s.to_multiset() == t.to_multiset(),
        clear_cut(side, s),
    ensures
        top_entries(s).to_multiset() == top_entries(t).to_multiset(),
        clear_cut(side, t),
{
    broadcast use vstd::seq_lib::group_to_multiset_ensures;

    assert(s.len() == t.len()) by {
        assert(s.to_multiset().len() == s.len());
        assert(t.to_multiset().len() == t.len());
    }
    if s.len() > DEPTH {
        let n = DEPTH as int;
        let q = s[n].price;
        let pred = |x: EntryView| side.ahead(x.price, q);
        assert forall|i: int| 0 <= i < n implies pred(#[trigger] s[i]) by {
            if i < n - 1 {
                assert(!side.ahead(s[n - 1].price, s[i].price));
                lemma_ahead_order(side, s[n - 1].price, q, s[i].price);
                lemma_ahead_order(side, s[i].price, s[n - 1].price, q);
                lemma_order_transitive(s[i].price, s[n - 1].price, q);
                lemma_order_transitive(q, s[n - 1].price, s[i].price);
            }
        }
        assert forall|i: int| n <= i < s.len() implies !pred(#[trigger] s[i]) by {
            lemma_ahead_order(side, q, q, q);
            if i > n {
                assert(!side.ahead(s[i].price, s[n].price));
            }
        }
        lemma_filter_front(s, pred, n);
        lemma_lead(side, t, q);
        let k = lead(side, t, q) as int;
        lemma_filter_front(t, pred, k);
        lemma_filter_same_entries(s, t, pred);
        assert(s.take(n).len() == n);
        assert(t.take(k).len() == k);
        assert(s.take(n).to_multiset().len() == n);
        assert(t.take(k).to_multiset().len() == k);
        assert(k == n);
        assert(pred(t[n - 1]));
        assert(!pred(t[n]));
        assert(t.take(n).contains(t[n - 1])) by {
            assert(t.take(n)[n - 1] == t[n - 1]);
        }
        assert(s.contains(t[n])) by {
            assert(t.contains(t[n]));
            assert(t.to_multiset().count(t[n]) > 0);
            assert(s.to_multiset().count(t[n]) > 0);
        }
        let m = choose|m: int| 0 <= m < s.len() && s[m] == t[n];
        assert(m >= n) by {
            if m < n {
                assert(pred(s[m]));
            }
        }
        if m > n {
            assert(!side.ahead(s[m].price, s[n].price));
        }
        lemma_ahead_order(side, t[n - 1].price, q, t[n].price);
        lemma_order_transitive(t[n - 1].price, q, t[n].price);
        lemma_order_transitive(t[n].price, q, t[n - 1].price);
    }
}

/// Two snapshots of different venues leave the same entries within the
/// summary in whichever order they are ingested, on each side whose cut is
/// clear. Where entries of one price stand on both sides of the cut, which of
/// them the summary holds depends on the order of arrival.
pub proof fn lemma_summary_commutes(book: BookView, first: UpdateView, second: UpdateView)
    requires
        book.wf(),
        first.wf(),
        second.wf(),
        first.venue != second.venue,
    ensures
        clear_cut(Side::Ask, book.ingest(first).ingest(second).asks) ==> top_entries(
            book.ingest(first).ingest(second).asks,
        ).to_multiset() == top_entries(book.ingest(second).ingest(first).asks).to_multiset(),
        clear_cut(Side::Bid, book.ingest(first).ingest(second).bids) ==> top_entries(
            book.ingest(first).ingest(second).bids,
        ).to_multiset() == top_entries(book.ingest(second).ingest(first).bids).to_multiset(),
        book.ingest(first).ingest(second).summary.asks == top_entries(
            book.ingest(first).ingest(second).asks,
        ).map_values(|e: EntryView| e.level()),
        book.ingest(first).ingest(second).summary.bids == top_entries(
            book.ingest(first).ingest(second).bids,
        ).map_values(|e: EntryView| e.level()),
{
    lemma_ingest_wf(book, first);
    lemma_ingest_wf(book, second);
    lemma_ingest_wf(book.ingest(first), second);
    lemma_ingest_wf(book.ingest(second), first);
    lemma_ingest_commutes(book, first, second);
    let a = book.ingest(first).ingest(second);
    let b = book.ingest(second).ingest(first);
    if clear_cut(Side::Ask, a.asks) {
        lemma_top_entries_same(Side::Ask, a.asks, b.asks);
    }
    if clear_cut(Side::Bid, a.bids) {
        lemma_top_entries_same(Side::Bid, a.bids, b.bids);
    }
}

/// After any run of snapshots from the empty book, the book is well formed:
/// its sides are in ranking order and its summary, the spread included, is
/// that of its sides at the price precision of the last snapshot.
pub proof fn lemma_ingest_all_wf(updates: Seq<UpdateView>)
    requires
        forall|i: int| 0 <= i < updates.len() ==> (#[trigger] updates[i]).wf(),
    ensures
        BookView::empty().ingest_all(updates).wf(),
        BookView::empty().ingest_all(updates).summary.spread == spread_of(
            BookView::empty().ingest_all(updates).asks,
            BookView::empty().ingest_all(updates).bids,
            BookView::empty().ingest_all(updates).price_prec,
        ),
    decreases updates.len(),
{
    if updates.len() > 0 {
        let init = updates.drop_last();
        assert forall|i: int| 0 <= i < init.len() implies (#[trigger] init[i]).wf() by {
            assert(init[i] == updates[i]);
        }
        lemma_ingest_all_wf(init);
        assert(updates.last() == updates[updates.len() - 1]);
        lemma_ingest_wf(BookView::empty().ingest_all(init), updates.last());
    }
}

} // verus!
