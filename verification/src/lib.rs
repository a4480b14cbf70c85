//! Merged order book for one trading pair quoted on several venues.
//!
//! Each venue sends snapshots of its bids and asks. A snapshot replaces what
//! the book held of that venue, and after each one the book gives a summary:
//! the best levels of each side across all venues, and the spread.
//!
//! - [`decimal`] and [`decimal_model`]: exact decimal numbers and their order.
//! - [`book`] and [`book_model`]: entries, snapshots, the book and what
//!   ingesting a snapshot does to it.
//! - [`document`], [`feed`], [`binance`], [`bitstamp`], [`testmarket`]: from
//!   a venue's messages to snapshots.
//! - [`event_loop`]: what is decided on each snapshot and each new
//!   subscriber.

pub mod binance;
pub mod bitstamp;
pub mod book;
pub mod book_model;
pub mod decimal;
pub mod decimal_model;
pub mod digits;
pub mod document;
pub mod event_loop;
pub mod feed;
pub mod testmarket;
pub mod text;
pub mod venue;
