//! The merged book and the snapshots it ingests.
//!
//! A [`Book`] holds the resting orders of every venue, each side in ranking
//! order, together with the summary computed when the last snapshot came in.
//! An [`Update`] is one venue's snapshot; ingesting it replaces what the book
//! held of that venue.

use crate::book_model::{
    lemma_ingest_replaces, lemma_ingest_wf, lemma_slot_skip, lemma_without_empty,
    lemma_without_push, levels_ranked,
    only_venue, place, place_all, slot, spread_of, summary_of, top_levels, without_venue,
    BookView, EntryView, LevelView, Side, SummaryView, UpdateView, DEPTH,
};
use crate::decimal::{readable, reading, Decimal};
use crate::decimal_model::{lemma_minus_digits, MAX_DIGITS};
use crate::venue::Exchange;
use vstd::prelude::*;

verus! {

/// Why a price and an amount did not become an entry.
#[derive(Debug, Clone, Copy, PartialEq, Eq, Structural)]
pub enum EntryError {
    /// The price or the amount is not the text of a decimal.
    Unreadable,
    /// The price or the amount, cut to its precision, is too long or too
    /// far from the point to be stored.
    OutOfRange,
}

/// One resting order of a venue: a price, an amount and the venue.
#[derive(Debug)]
pub struct Entry {
    price: Decimal,
    amount: Decimal,
    exchange: Exchange,
}

impl View for Entry {
    type V = EntryView;

    closed spec fn view(&self) -> EntryView {
        EntryView { price: self.price@, amount: self.amount@, venue: self.exchange }
    }
}

impl Clone for Entry {
    fn clone(&self) -> (r: Entry)
        ensures
            r@ == self@,
            r.wf() == self.wf(),
    {
        Entry {
            price: self.price.clone(),
            amount: self.amount.clone(),
            exchange: self.exchange,
        }
    }
}

impl Entry {
    /// Both numbers are well formed and small enough to be stored.
    pub closed spec fn wf(&self) -> bool {
        &&& self.price.wf()
        &&& self.amount.wf()
        &&& self@.wf()
    }

    /// An entry of `exchange`, where both numbers are small enough to be
    /// stored.
    pub fn new(price: Decimal, amount: Decimal, exchange: Exchange) -> (r: Option<Entry>)
        requires
            price.wf(),
            amount.wf(),
        ensures
            r is Some <==> price@.in_range() && amount@.in_range(),
            r matches Some(e) ==> e.wf() && e@ == (EntryView {
                price: price@,
                amount: amount@,
                venue: exchange,
            }),
    {
        if price.is_in_range() && amount.is_in_range() {
            Some(Entry { price, amount, exchange })
        } else {
            None
        }
    }

    /// The price.
    pub fn price(&self) -> (r: &Decimal)
        ensures
            r@ == self@.price,
            self.wf() ==> r.wf(),
    {
        &self.price
    }

    /// The amount.
    pub fn amount(&self) -> (r: &Decimal)
        ensures
            r@ == self@.amount,
            self.wf() ==> r.wf(),
    {
        &self.amount
    }

    /// The venue.
    pub fn exchange(&self) -> (r: Exchange)
        ensures
            r == self@.venue,
    {
        self.exchange
    }
}

/// The views of a sequence of entries.
pub open spec fn entry_views(s: Seq<Entry>) -> Seq<EntryView> {
    s.map_values(|e: Entry| e@)
}

/// Every entry of the sequence is well formed.
pub open spec fn entries_wf(s: Seq<Entry>) -> bool {
    forall|i: int| 0 <= i < s.len() ==> (#[trigger] s[i]).wf()
}

/// One level of a published summary: the venue's name, a price and an
/// amount.
#[derive(Debug)]
pub struct Level {
    pub exchange: String,
    pub price: Decimal,
    pub amount: Decimal,
}

impl View for Level {
    type V = LevelView;

    open spec fn view(&self) -> LevelView {
        LevelView { exchange: self.exchange@, price: self.price@, amount: self.amount@ }
    }
}

impl Clone for Level {
    fn clone(&self) -> (r: Level)
        ensures
            r@ == self@,
            r.wf() == self.wf(),
    {
        Level {
            exchange: self.exchange.clone(),
            price: self.price.clone(),
            amount: self.amount.clone(),
        }
    }
}

impl Level {
    /// Both numbers are well formed.
    pub open spec fn wf(&self) -> bool {
        self.price.wf() && self.amount.wf()
    }
}

/// The views of a sequence of levels.
pub open spec fn level_views(s: Seq<Level>) -> Seq<LevelView> {
    s.map_values(|l: Level| l@)
}

/// Every level of the sequence is well formed.
pub open spec fn levels_wf(s: Seq<Level>) -> bool {
    forall|i: int| 0 <= i < s.len() ==> (#[trigger] s[i]).wf()
}

/// A copy of a sequence of levels.
fn copy_levels(levels: &Vec<Level>) -> (r: Vec<Level>)
    ensures
        level_views(r@) == level_views(levels@),
        levels_wf(r@) == levels_wf(levels@),
{
    let mut r: Vec<Level> = Vec::new();
    let mut i: usize = 0;
    while i < levels.len()
        invariant
            i <= levels.len(),
            r@.len() == i,
            forall|j: int| 0 <= j < i ==> (#[trigger] r@[j])@ == levels@[j]@,
            forall|j: int| 0 <= j < i ==> (#[trigger] r@[j]).wf() == levels@[j].wf(),
        decreases levels.len() - i,
    {
        r.push(levels[i].clone());
        i += 1;
    }
    assert(level_views(r@) =~= level_views(levels@));
    proof {
        if levels_wf(levels@) {
            assert forall|j: int| 0 <= j < r@.len() implies (#[trigger] r@[j]).wf() by {
                assert(levels@[j].wf());
            }
        }
        if levels_wf(r@) {
            assert forall|j: int| 0 <= j < levels@.len() implies (#[trigger] levels@[j]).wf() by {
                assert(r@[j].wf());
            }
        }
    }
    r
}

/// The published top of the book: the spread and at most [`DEPTH`] levels
/// of each side, best first.
#[derive(Debug)]
pub struct Summary {
    pub spread: Decimal,
    pub bids: Vec<Level>,
    pub asks: Vec<Level>,
}

impl View for Summary {
    type V = SummaryView;

    open spec fn view(&self) -> SummaryView {
        SummaryView {
            spread: self.spread@,
            bids: level_views(self.bids@),
            asks: level_views(self.asks@),
        }
    }
}

impl Clone for Summary {
    fn clone(&self) -> (r: Summary)
        ensures
            r@ == self@,
            r.wf() == self.wf(),
    {
        Summary {
            spread: self.spread.clone(),
            bids: copy_levels(&self.bids),
            asks: copy_levels(&self.asks),
        }
    }
}

impl Default for Summary {
    /// The summary of the empty book.
    fn default() -> (r: Summary)
        ensures
            r.wf(),
            r@ == summary_of(Seq::empty(), Seq::empty(), 0),
    {
        let r = Summary { spread: Decimal::zero(), bids: Vec::new(), asks: Vec::new() };
        assert(level_views(r.bids@) =~= top_levels(Seq::empty()));
        assert(level_views(r.asks@) =~= top_levels(Seq::empty()));
        r
    }
}

impl Summary {
    /// Every number is well formed.
    pub open spec fn wf(&self) -> bool {
        &&& self.spread.wf()
        &&& levels_wf(self.bids@)
        &&& levels_wf(self.asks@)
    }
}

/// One venue's snapshot: its bids and asks, and the precisions that its
/// prices and amounts are cut to.
#[derive(Debug)]
pub struct Update {
    exchange: Exchange,
    bids: Vec<Entry>,
    asks: Vec<Entry>,
    price_prec: u64,
    amount_prec: u64,
}

impl View for Update {
    type V = UpdateView;

    closed spec fn view(&self) -> UpdateView {
        UpdateView {
            venue: self.exchange,
            bids: entry_views(self.bids@),
            asks: entry_views(self.asks@),
            price_prec: self.price_prec as nat,
            amount_prec: self.amount_prec as nat,
        }
    }
}

impl Update {
    /// Every entry is well formed and tagged with the snapshot's venue.
    pub closed spec fn wf(&self) -> bool {
        &&& entries_wf(self.bids@)
        &&& entries_wf(self.asks@)
        &&& self@.wf()
    }

    /// An empty snapshot of `e`. The precisions count significant digits, and
    /// neither may exceed the digits that can be stored.
    pub fn new(e: Exchange, price_prec: u64, amount_prec: u64) -> (r: Update)
        requires
            price_prec <= MAX_DIGITS,
            amount_prec <= MAX_DIGITS,
        ensures
            r.wf(),
            r@ == (UpdateView {
                venue: e,
                bids: Seq::empty(),
                asks: Seq::empty(),
                price_prec: price_prec as nat,
                amount_prec: amount_prec as nat,
            }),
    {
        let r = Update { exchange: e, bids: Vec::new(), asks: Vec::new(), price_prec, amount_prec };
        assert(entry_views(r.bids@) =~= Seq::empty());
        assert(entry_views(r.asks@) =~= Seq::empty());
        r
    }

    /// The venue.
    pub fn exchange(&self) -> (r: Exchange)
        ensures
            r == self@.venue,
    {
        self.exchange
    }

    /// The significant digits that prices are cut to.
    pub fn price_prec(&self) -> (r: u64)
        ensures
            r == self@.price_prec,
    {
        self.price_prec
    }

    /// The significant digits that amounts are cut to.
    pub fn amount_prec(&self) -> (r: u64)
        ensures
            r == self@.amount_prec,
    {
        self.amount_prec
    }

    /// The bids, in the order in which they were added.
    pub fn bids(&self) -> (r: &Vec<Entry>)
        ensures
            entry_views(r@) == self@.bids,
            self.wf() ==> entries_wf(r@),
    {
        &self.bids
    }

    /// The asks, in the order in which they were added.
    pub fn asks(&self) -> (r: &Vec<Entry>)
        ensures
            entry_views(r@) == self@.asks,
            self.wf() ==> entries_wf(r@),
    {
        &self.asks
    }

    /// The entry that this snapshot makes of a price and an amount, where it
    /// can be stored.
    fn entry(&self, price: &Decimal, amount: &Decimal) -> (r: Option<Entry>)
        requires
            price.wf(),
            amount.wf(),
        ensures
            r is Some <==> self@.entry(price@, amount@).wf(),
            r matches Some(e) ==> e.wf() && e@ == self@.entry(price@, amount@),
    {
        match price.with_prec(self.price_prec) {
            Some(p) => match amount.with_prec(self.amount_prec) {
                Some(a) => Entry::new(p, a, self.exchange),
                None => None,
            },
            None => None,
        }
    }

    /// Adds a bid: the price and the amount are cut to the snapshot's
    /// precisions and tagged with its venue. Nothing is added where the
    /// result cannot be stored.
    pub fn push_bid(&mut self, price: &Decimal, amount: &Decimal) -> (r: Result<(), EntryError>)
        requires
            old(self).wf(),
            price.wf(),
            amount.wf(),
        ensures
            final(self).wf(),
            r is Ok <==> old(self)@.entry(price@, amount@).wf(),
            r is Ok ==> final(self)@ == old(self)@.with_bid(old(self)@.entry(price@, amount@)),
            r is Err ==> r == Err::<(), EntryError>(EntryError::OutOfRange) && final(self)@ == old(
                self,
            )@,
    {
        match self.entry(price, amount) {
            Some(e) => {
                self.bids.push(e);
                assert(entry_views(self.bids@) =~= entry_views(old(self).bids@).push(e@));
                Ok(())
            },
            None => Err(EntryError::OutOfRange),
        }
    }

    /// Adds an ask: the price and the amount are cut to the snapshot's
    /// precisions and tagged with its venue. Nothing is added where the
    /// result cannot be stored.
    pub fn push_ask(&mut self, price: &Decimal, amount: &Decimal) -> (r: Result<(), EntryError>)
        requires
            old(self).wf(),
            price.wf(),
            amount.wf(),
        ensures
            final(self).wf(),
            r is Ok <==> old(self)@.entry(price@, amount@).wf(),
            r is Ok ==> final(self)@ == old(self)@.with_ask(old(self)@.entry(price@, amount@)),
            r is Err ==> r == Err::<(), EntryError>(EntryError::OutOfRange) && final(self)@ == old(
                self,
            )@,
    {
        match self.entry(price, amount) {
            Some(e) => {
                self.asks.push(e);
                assert(entry_views(self.asks@) =~= entry_views(old(self).asks@).push(e@));
                Ok(())
            },
            None => Err(EntryError::OutOfRange),
        }
    }

    /// Adds a bid from the texts of its price and amount. Both are read as
    /// decimals, cut to the snapshot's precisions and tagged with its venue.
    /// Nothing is added where a text is not a decimal or the result cannot
    /// be stored.
    pub fn add_bid(&mut self, price: &str, amount: &str) -> (r: Result<(), EntryError>)
        requires
            old(self).wf(),
        ensures
            final(self).wf(),
            r is Ok <==> readable(price@) && readable(amount@) && old(self)@.entry(
                reading(price@),
                reading(amount@),
            ).wf(),
            r is Ok ==> final(self)@ == old(self)@.with_bid(
                old(self)@.entry(reading(price@), reading(amount@)),
            ),
            r is Err ==> final(self)@ == old(self)@,
            r == Err::<(), EntryError>(EntryError::Unreadable) <==> !(readable(price@) && readable(
                amount@,
            )),
    {
        match Decimal::parse(price) {
            Some(p) => match Decimal::parse(amount) {
                Some(a) => self.push_bid(&p, &a),
                None => Err(EntryError::Unreadable),
            },
            None => Err(EntryError::Unreadable),
        }
    }

    /// Adds an ask from the texts of its price and amount. Both are read as
    /// decimals, cut to the snapshot's precisions and tagged with its venue.
    /// Nothing is added where a text is not a decimal or the result cannot
    /// be stored.
    pub fn add_ask(&mut self, price: &str, amount: &str) -> (r: Result<(), EntryError>)
        requires
            old(self).wf(),
        ensures
            final(self).wf(),
            r is Ok <==> readable(price@) && readable(amount@) && old(self)@.entry(
                reading(price@),
                reading(amount@),
            ).wf(),
            r is Ok ==> final(self)@ == old(self)@.with_ask(
                old(self)@.entry(reading(price@), reading(amount@)),
            ),
            r is Err ==> final(self)@ == old(self)@,
            r == Err::<(), EntryError>(EntryError::Unreadable) <==> !(readable(price@) && readable(
                amount@,
            )),
    {
        match Decimal::parse(price) {
            Some(p) => match Decimal::parse(amount) {
                Some(a) => self.push_ask(&p, &a),
                None => Err(EntryError::Unreadable),
            },
            None => Err(EntryError::Unreadable),
        }
    }
}

/// The entries of the other venues, in their order.
fn keep_others(entries: Vec<Entry>, venue: Exchange) -> (r: Vec<Entry>)
    requires
        entries_wf(entries@),
    ensures
        entries_wf(r@),
        entry_views(r@) == without_venue(entry_views(entries@), venue),
{
    let mut kept: Vec<Entry> = Vec::new();
    let ghost all = entries@;
    proof {
        lemma_without_empty(venue);
        assert(entry_views(all.take(0)) =~= Seq::empty());
        assert(entry_views(kept@) =~= Seq::empty());
    }
    for e in it: entries
        invariant
            it.seq() == all,
            entries_wf(all),
            entries_wf(kept@),
            entry_views(kept@) == without_venue(entry_views(all.take(it.index())), venue),
    {
        proof {
            let prefix = entry_views(all.take(it.index()));
            assert(entry_views(all.take(it.index() + 1)) =~= prefix.push(e@));
            lemma_without_push(prefix, e@, venue);
            assert(e.wf());
        }
        if e.exchange != venue {
            let ghost before = kept@;
            kept.push(e);
            assert(entry_views(kept@) =~= entry_views(before).push(e@));
        }
    }
    assert(all.take(all.len() as int) =~= all);
    kept
}

/// Places `entry` among `entries` in the ranking order of `side`, behind the
/// entries of its own price.
fn place_entry(entries: &mut Vec<Entry>, entry: Entry, side: Side)
    requires
        entries_wf(old(entries)@),
        entry.wf(),
    ensures
        entries_wf(final(entries)@),
        entry_views(final(entries)@) == place(side, entry_views(old(entries)@), entry@),
{
    let n = entries.len();
    let ghost views = entry_views(entries@);
    let mut i: usize = 0;
    let mut found = false;
    proof {
        assert(views.skip(0) =~= views);
    }
    while i < n && !found
        invariant
            i <= n,
            n == entries@.len(),
            entries@ == old(entries)@,
            views == entry_views(entries@),
            entries_wf(entries@),
            entry.wf(),
            slot(side, views, entry@.price) == i + slot(side, views.skip(i as int), entry@.price),
            found ==> i < n && side.ahead(entry@.price, views[i as int].price),
        decreases n - i + if found { 0int } else { 1int },
    {
        let ahead = match side {
            Side::Ask => entry.price.lt(&entries[i].price),
            Side::Bid => entries[i].price.lt(&entry.price),
        };
        if ahead {
            found = true;
        } else {
            proof {
                lemma_slot_skip(side, views, entry@.price, i as int);
            }
            i += 1;
        }
    }
    proof {
        if found {
            assert(views.skip(i as int)[0] == views[i as int]);
        }
        assert(slot(side, views.skip(i as int), entry@.price) == 0);
    }
    entries.insert(i, entry);
    assert(entry_views(entries@) =~= views.insert(i as int, entry@));
    assert forall|j: int| 0 <= j < entries@.len() implies (#[trigger] entries@[j]).wf() by {
        if j < i {
            assert(entries@[j] == old(entries)@[j]);
        } else if j > i {
            assert(entries@[j] == old(entries)@[j - 1]);
        }
    }
}

/// Places all of `items` among `entries`, first to last.
fn place_entries(entries: &mut Vec<Entry>, items: Vec<Entry>, side: Side)
    requires
        entries_wf(old(entries)@),
        entries_wf(items@),
    ensures
        entries_wf(final(entries)@),
        entry_views(final(entries)@) == place_all(
            side,
            entry_views(old(entries)@),
            entry_views(items@),
        ),
{
    let ghost all = items@;
    let ghost base = entry_views(entries@);
    proof {
        assert(entry_views(all.take(0)) =~= Seq::empty());
    }
    for e in it: items
        invariant
            it.seq() == all,
            entries_wf(all),
            entries_wf(entries@),
            entry_views(entries@) == place_all(side, base, entry_views(all.take(it.index()))),
    {
        proof {
            let next = entry_views(all.take(it.index() + 1));
            assert(next.drop_last() =~= entry_views(all.take(it.index())));
            assert(next.last() == e@);
            assert(e.wf());
        }
        place_entry(entries, e, side);
    }
    assert(all.take(all.len() as int) =~= all);
}

/// The first [`DEPTH`] entries as levels.
fn levels_of(entries: &Vec<Entry>) -> (r: Vec<Level>)
    requires
        entries_wf(entries@),
    ensures
        levels_wf(r@),
        level_views(r@) == top_levels(entry_views(entries@)),
{
    let n = if entries.len() <= DEPTH {
        entries.len()
    } else {
        DEPTH
    };
    let mut r: Vec<Level> = Vec::new();
    let mut i: usize = 0;
    while i < n
        invariant
            i <= n <= entries@.len(),
            entries_wf(entries@),
            r@.len() == i,
            levels_wf(r@),
            forall|j: int| 0 <= j < i ==> (#[trigger] r@[j])@ == entries@[j]@.level(),
        decreases n - i,
    {
        let e = &entries[i];
        r.push(
            Level {
                exchange: e.exchange.name(),
                price: e.price.clone(),
                amount: e.amount.clone(),
            },
        );
        i += 1;
    }
    proof {
        let views = entry_views(entries@);
        let top = crate::book_model::top_entries(views);
        assert(top.len() == n);
        assert forall|j: int| 0 <= j < n implies top[j] == views[j] by {}
        assert(level_views(r@) =~= top_levels(views));
    }
    r
}

/// The spread of the two sides at `prec` significant digits.
fn spread(asks: &Vec<Entry>, bids: &Vec<Entry>, prec: u64) -> (r: Decimal)
    requires
        entries_wf(asks@),
        entries_wf(bids@),
        prec <= MAX_DIGITS,
    ensures
        r.wf(),
        r@ == spread_of(entry_views(asks@), entry_views(bids@), prec as nat),
{
    if asks.len() > 0 && bids.len() > 0 {
        let difference = asks[0].price.minus(&bids[0].price);
        proof {
            lemma_minus_digits(asks[0].price@, bids[0].price@);
        }
        difference.with_prec(prec).unwrap()
    } else if asks.len() > 0 {
        asks[0].price.clone()
    } else if bids.len() > 0 {
        bids[0].price.negated()
    } else {
        Decimal::zero()
    }
}

/// The merged book of every venue.
#[derive(Debug)]
pub struct Book {
    asks: Vec<Entry>,
    bids: Vec<Entry>,
    price_prec: u64,
    summary: Summary,
}

impl View for Book {
    type V = BookView;

    closed spec fn view(&self) -> BookView {
        BookView {
            asks: entry_views(self.asks@),
            bids: entry_views(self.bids@),
            price_prec: self.price_prec as nat,
            summary: self.summary@,
        }
    }
}

impl Book {
    /// Both sides are in ranking order and hold well-formed entries, and the
    /// summary is that of the sides.
    pub closed spec fn wf(&self) -> bool {
        &&& entries_wf(self.asks@)
        &&& entries_wf(self.bids@)
        &&& self.summary.wf()
        &&& self@.wf()
    }

    /// The empty book, with the summary of the empty book.
    pub fn new() -> (r: Book)
        ensures
            r.wf(),
            r@ == BookView::empty(),
    {
        let r = Book {
            asks: Vec::new(),
            bids: Vec::new(),
            price_prec: 0,
            summary: Summary::default(),
        };
        assert(entry_views(r.asks@) =~= Seq::empty());
        assert(entry_views(r.bids@) =~= Seq::empty());
        r
    }

    /// Ingests a venue's snapshot: every entry that the book held of that
    /// venue is removed, the snapshot's entries are placed in ranking order
    /// (behind entries of their own price), and the summary is computed
    /// anew, the spread at the snapshot's price precision.
    pub fn add_orders(&mut self, orders: Update)
        requires
            old(self).wf(),
            orders.wf(),
        ensures
            final(self).wf(),
            final(self)@ == old(self)@.ingest(orders@),
            without_venue(final(self)@.asks, orders@.venue) == without_venue(
                old(self)@.asks,
                orders@.venue,
            ),
            without_venue(final(self)@.bids, orders@.venue) == without_venue(
                old(self)@.bids,
                orders@.venue,
            ),
            only_venue(final(self)@.asks, orders@.venue).to_multiset()
                == orders@.asks.to_multiset(),
            only_venue(final(self)@.bids, orders@.venue).to_multiset()
                == orders@.bids.to_multiset(),
            levels_ranked(Side::Ask, final(self)@.summary.asks),
            levels_ranked(Side::Bid, final(self)@.summary.bids),
            final(self)@.summary.asks.len() <= DEPTH,
            final(self)@.summary.bids.len() <= DEPTH,
            final(self)@.summary.spread == spread_of(
                final(self)@.asks,
                final(self)@.bids,
                orders@.price_prec,
            ),
    {
        let ghost before = self@;
        let ghost update = orders@;
        let Update { exchange, bids, asks, price_prec, amount_prec: _ } = orders;
        let mut old_asks: Vec<Entry> = Vec::new();
        let mut old_bids: Vec<Entry> = Vec::new();
        std::mem::swap(&mut self.asks, &mut old_asks);
        std::mem::swap(&mut self.bids, &mut old_bids);
        let mut new_asks = keep_others(old_asks, exchange);
        let mut new_bids = keep_others(old_bids, exchange);
        place_entries(&mut new_asks, asks, Side::Ask);
        place_entries(&mut new_bids, bids, Side::Bid);
        proof {
            lemma_ingest_wf(before, update);
            lemma_ingest_replaces(before, update);
        }
        let summary = Summary {
            spread: spread(&new_asks, &new_bids, price_prec),
            bids: levels_of(&new_bids),
            asks: levels_of(&new_asks),
        };
        self.asks = new_asks;
        self.bids = new_bids;
        self.price_prec = price_prec;
        self.summary = summary;
    }

    /// The asks, lowest price first.
    pub fn asks(&self) -> (r: &Vec<Entry>)
        ensures
            entry_views(r@) == self@.asks,
            self.wf() ==> entries_wf(r@),
    {
        &self.asks
    }

    /// The bids, highest price first.
    pub fn bids(&self) -> (r: &Vec<Entry>)
        ensures
            entry_views(r@) == self@.bids,
            self.wf() ==> entries_wf(r@),
    {
        &self.bids
    }

    /// A copy of the summary computed when the last snapshot was ingested.
    pub fn to_summary(&self) -> (r: Summary)
        requires
            self.wf(),
        ensures
            r.wf(),
            r@ == self@.summary,
    {
        self.summary.clone()
    }
}

} // verus!
