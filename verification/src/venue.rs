//! The venues whose books are merged.

use vstd::prelude::*;

verus! {

/// A venue that quotes the pair.
#[derive(Debug, Clone, Copy, PartialEq, Eq, Structural)]
pub enum Exchange {
    Binance,
    Bitstamp,
}

impl Exchange {
    /// The lowercase name under which the venue appears in a published level.
    pub open spec fn spec_name(self) -> Seq<char> {
        match self {
            Exchange::Binance => "binance"@,
            Exchange::Bitstamp => "bitstamp"@,
        }
    }

    /// The lowercase name of the venue.
    pub fn name(&self) -> (r: String)
        ensures
            r@ == self.spec_name(),
    {
        match self {
            Exchange::Binance => "binance".to_owned(),
            Exchange::Bitstamp => "bitstamp".to_owned(),
        }
    }
}

} // verus!
