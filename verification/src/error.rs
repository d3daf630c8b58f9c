use vstd::prelude::*;

verus! {

/// An identification failure while reading a single listing.
#[derive(Clone, Copy, Debug, PartialEq, Eq, Structural)]
pub enum WatchIdError {
    /// No brand in the table matched the listing tokens.
    Brand,
    /// No token qualified as a model number.
    ModelNo,
    /// No currency amount could be extracted from the text.
    Currency,
    /// The rate table holds no rates for the extracted currency.
    ConversionRate,
}

/// A failure of the wider crawl pipeline.
#[derive(Clone, Copy, Debug, PartialEq, Eq, Structural)]
pub enum WatchError {
    /// A date or time string did not parse.
    ParseTime,
    /// A listing-level identification failure.
    WatchId(WatchIdError),
}

} // verus!
