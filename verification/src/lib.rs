//! Matching core of a limit-order trading venue.
//!
//! The crate keeps, per market, the set of outstanding resting orders and
//! executes incoming orders against them by price priority, then time
//! priority. `price` holds the canonical price key, `orderbook` the
//! price-level and book data structures with the fill algorithm, and
//! `engine` the multi-market router.

pub mod engine;
pub mod orderbook;
pub mod price;
