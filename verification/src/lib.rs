//! A single-user commodity ledger with weighted-average costing.
//!
//! For each named asset the ledger keeps the quantity on hand and the
//! aggregate cost basis of that holding. Buys grow both; sells realize a
//! profit or loss against the pre-sale average cost and shrink the holding,
//! closing the position entirely when the whole quantity is sold. The
//! ledger persists as a JSON object mapping asset names to holdings.

pub mod codec;
pub mod input;
pub mod ledger;
pub mod text;
