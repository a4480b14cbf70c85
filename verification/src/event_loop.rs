//! The core of the event loop that feeds subscribers.
//!
//! The loop itself waits for snapshots and for new subscribers, and delivers
//! summaries to them; that is the caller's part. What is decided on each
//! event is decided here: a snapshot is ingested and its summary goes to
//! every subscriber, a subscriber whose delivery failed is dropped, and a
//! newcomer is greeted with the current summary and kept if it took it.

use crate::book::{Book, Summary, Update};
use crate::book_model::BookView;
use vstd::prelude::*;

verus! {

/// The subscribers whose delivery succeeded, in their order. A subscriber
/// without a flag counts as failed.
pub open spec fn delivered_to<T>(subscribers: Seq<T>, delivered: Seq<bool>) -> Seq<T>
    decreases subscribers.len(),
{
    if subscribers.len() == 0 {
        subscribers
    } else if subscribers.len() <= delivered.len() && delivered[subscribers.len() - 1] {
        delivered_to(subscribers.drop_last(), delivered).push(subscribers.last())
    } else {
        delivered_to(subscribers.drop_last(), delivered)
    }
}

/// The state of the event loop: the merged book and the live subscribers,
/// oldest first.
pub struct EventLoop<T> {
    book: Book,
    subscribers: Vec<T>,
}

impl<T> EventLoop<T> {
    /// The book.
    pub closed spec fn book(&self) -> BookView {
        self.book@
    }

    /// The live subscribers, oldest first.
    pub closed spec fn live(&self) -> Seq<T> {
        self.subscribers@
    }

    /// The book is well formed.
    pub closed spec fn wf(&self) -> bool {
        self.book.wf()
    }

    /// The loop before any event: an empty book and no subscriber.
    pub fn new() -> (r: EventLoop<T>)
        ensures
            r.wf(),
            r.book() == BookView::empty(),
            r.live() == Seq::<T>::empty(),
    {
        EventLoop { book: Book::new(), subscribers: Vec::new() }
    }

    /// A snapshot came in: it is ingested, and the summary that comes back
    /// is to be delivered to every live subscriber.
    pub fn on_update(&mut self, update: Update) -> (r: Summary)
        requires
            old(self).wf(),
            update.wf(),
        ensures
            final(self).wf(),
            final(self).book() == old(self).book().ingest(update@),
            final(self).live() == old(self).live(),
            r.wf(),
            r@ == final(self).book().summary,
    {
        self.book.add_orders(update);
        self.book.to_summary()
    }

    /// The live subscribers, oldest first.
    pub fn subscribers(&self) -> (r: &Vec<T>)
        ensures
            r@ == self.live(),
    {
        &self.subscribers
    }

    /// The deliveries of a summary ended: `delivered` says for each live
    /// subscriber, oldest first, whether it took the summary. Those that did
    /// not are dropped.
    pub fn retain_delivered(&mut self, delivered: &Vec<bool>)
        requires
            old(self).wf(),
        ensures
            final(self).wf(),
            final(self).book() == old(self).book(),
            final(self).live() == delivered_to(old(self).live(), delivered@),
    {
        let mut all: Vec<T> = Vec::new();
        std::mem::swap(&mut self.subscribers, &mut all);
        let ghost before = all@;
        let n = all.len();
        let mut kept: Vec<T> = Vec::new();
        let mut i: usize = 0;
        proof {
            assert(before.take(0) =~= Seq::<T>::empty());
        }
        for subscriber in it: all
            invariant
                it.seq() == before,
                before.len() == n,
                i == it.index(),
                kept@ == delivered_to(before.take(i as int), delivered@),
        {
            proof {
                assert(before.take(i + 1).drop_last() =~= before.take(i as int));
                assert(before.take(i + 1).last() == subscriber);
            }
            if i < delivered.len() && delivered[i] {
                kept.push(subscriber);
            }
            i += 1;
        }
        proof {
            assert(before.take(before.len() as int) =~= before);
        }
        self.subscribers = kept;
    }

    /// The summary that a newcomer is greeted with: the current one.
    pub fn greeting(&self) -> (r: Summary)
        requires
            self.wf(),
        ensures
            r.wf(),
            r@ == self.book().summary,
    {
        self.book.to_summary()
    }

    /// A newcomer was greeted: it joins the live subscribers, behind all
    /// others, where it took the greeting, and is dropped otherwise.
    pub fn on_subscriber(&mut self, subscriber: T, delivered: bool)
        requires
            old(self).wf(),
        ensures
            final(self).wf(),
            final(self).book() == old(self).book(),
            final(self).live() == if delivered {
                old(self).live().push(subscriber)
            } else {
                old(self).live()
            },
    {
        if delivered {
            self.subscribers.push(subscriber);
        }
    }
}

} // verus!
