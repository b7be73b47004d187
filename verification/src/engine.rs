//! The multi-market engine.
//!
//! A [`MatchingEngine`] owns one [`Orderbook`] per trading pair and routes
//! placement requests to it. A market must be opened explicitly before it
//! accepts orders: a request against an unregistered pair is rejected and
//! mutates nothing, and opening a pair twice is rejected rather than
//! replacing the resting orders. Markets are isolated: an order placed with
//! one pair never touches another pair's book.

use crate::orderbook::book_after_add;
use crate::orderbook::book_after_market_fill;
use crate::orderbook::Limit;
use crate::orderbook::Order;
use crate::orderbook::Orderbook;
use crate::price::Price;
use vstd::prelude::*;
use vstd::string::StringExecFns;

verus! {

/// The routing key of one market: a base asset traded against a quote
/// asset. Value-equal pairs name the same market.
#[derive(Debug, PartialEq, Eq, Hash, Clone)]
pub struct TradingPair {
    pub base: String,
    pub quote: String,
}

impl View for TradingPair {
    type V = (Seq<char>, Seq<char>);

    open spec fn view(&self) -> (Seq<char>, Seq<char>) {
        (self.base@, self.quote@)
    }
}

impl TradingPair {
    pub fn new(base: String, quote: String) -> (r: TradingPair)
        ensures
            r.base == base,
            r.quote == quote,
    {
        TradingPair { base, quote }
    }

    /// The pair written as `base_quote`.
    pub fn to_string(self) -> (r: String)
        ensures
            r@ == self.base@ + "_"@ + self.quote@,
    {
        let mut s = self.base;
        s.append("_");
        s.append(self.quote.as_str());
        s
    }

    /// Whether two pairs name the same market.
    pub fn same_market(&self, other: &TradingPair) -> (r: bool)
        ensures
            r == (self@ == other@),
    {
        self.base == other.base && self.quote == other.quote
    }
}

/// Why the engine rejected a request.
#[derive(Clone, Copy, Debug, PartialEq, Eq, Structural)]
pub enum EngineError {
    /// The trading pair has no registered order book.
    MarketNotFound,
    /// The trading pair already has a registered order book.
    MarketAlreadyExists,
}

/// Whether some market in `s` is keyed by `key`.
pub open spec fn has_market(s: Seq<(TradingPair, Orderbook)>, key: (Seq<char>, Seq<char>)) -> bool {
    exists|i: int| 0 <= i < s.len() && (#[trigger] s[i]).0@ == key
}

/// Owns one order book per open market and routes requests to it.
pub struct MatchingEngine {
    pub orderbooks: Vec<(TradingPair, Orderbook)>,
}

impl MatchingEngine {
    /// Open markets are keyed by pairwise distinct pairs, and every book
    /// keeps its levels in best-price-first order.
    pub open spec fn wf(self) -> bool {
        &&& forall|i: int, j: int|
            #![trigger self.orderbooks@[i], self.orderbooks@[j]]
            0 <= i < j < self.orderbooks@.len() ==> self.orderbooks@[i].0@
                != self.orderbooks@[j].0@
        &&& forall|i: int|
            0 <= i < self.orderbooks@.len() ==> (#[trigger] self.orderbooks@[i]).1.wf()
    }

    pub fn new() -> (r: MatchingEngine)
        ensures
            r.orderbooks@ == Seq::<(TradingPair, Orderbook)>::empty(),
            r.wf(),
    {
        MatchingEngine { orderbooks: Vec::new() }
    }

    /// Index of the market keyed by `pair`, if one is open.
    fn find_market(&self, pair: &TradingPair) -> (r: Option<usize>)
        ensures
            match r {
                Some(i) => 0 <= i < self.orderbooks@.len() && self.orderbooks@[i as int].0@
                    == pair@,
                None => !has_market(self.orderbooks@, pair@),
            },
    {
        let mut i: usize = 0;
        while i < self.orderbooks.len()
            invariant
                0 <= i <= self.orderbooks@.len(),
                forall|j: int| 0 <= j < i ==> (#[trigger] self.orderbooks@[j]).0@ != pair@,
            decreases self.orderbooks@.len() - i,
        {
            if self.orderbooks[i].0.same_market(pair) {
                return Some(i);
            }
            i = i + 1;
        }
        None
    }

    /// Opens a market: registers an empty order book under `pair`. A pair
    /// that is already open is rejected unchanged — re-registration never
    /// replaces a book that may hold resting orders.
    pub fn add_new_market(&mut self, pair: TradingPair) -> (r: Result<(), EngineError>)
        requires
            old(self).wf(),
        ensures
            final(self).wf(),
            has_market(old(self).orderbooks@, pair@) ==> r == Err::<(), EngineError>(
                EngineError::MarketAlreadyExists,
            ) && *final(self) == *old(self),
            !has_market(old(self).orderbooks@, pair@) ==> {
                &&& r == Ok::<(), EngineError>(())
                &&& final(self).orderbooks@.len() == old(self).orderbooks@.len() + 1
                &&& forall|j: int|
                    0 <= j < old(self).orderbooks@.len()
                        ==> final(self).orderbooks@[j] == old(self).orderbooks@[j]
                &&& final(self).orderbooks@.last().0 == pair
                &&& final(self).orderbooks@.last().1.asks@ == Seq::<Limit>::empty()
                &&& final(self).orderbooks@.last().1.bids@ == Seq::<Limit>::empty()
            },
    {
        match self.find_market(&pair) {
            Some(_) => Err(EngineError::MarketAlreadyExists),
            None => {
                self.orderbooks.push((pair, Orderbook::new()));
                Ok(())
            },
        }
    }

    /// Files a resting limit order with the market keyed by `pair`. An
    /// unregistered pair is rejected and nothing is mutated; otherwise the
    /// order rests on its side's level for `price`, and no other market's
    /// book is touched. The order is not crossed against the opposite side
    /// before resting.
    pub fn place_limit_order(&mut self, pair: TradingPair, price: Price, order: Order) -> (r:
        Result<(), EngineError>)
        requires
            old(self).wf(),
        ensures
            final(self).wf(),
            !has_market(old(self).orderbooks@, pair@) ==> r == Err::<(), EngineError>(
                EngineError::MarketNotFound,
            ) && *final(self) == *old(self),
            has_market(old(self).orderbooks@, pair@) ==> r == Ok::<(), EngineError>(())
                && final(self).orderbooks@.len() == old(self).orderbooks@.len() && (exists|i: int|
                {
                    &&& 0 <= i < old(self).orderbooks@.len()
                    &&& (#[trigger] old(self).orderbooks@[i]).0@ == pair@
                    &&& final(self).orderbooks@[i].0 == old(self).orderbooks@[i].0
                    &&& book_after_add(
                        old(self).orderbooks@[i].1,
                        price,
                        order,
                        final(self).orderbooks@[i].1,
                    )
                    &&& forall|j: int|
                        0 <= j < old(self).orderbooks@.len() && j != i
                            ==> final(self).orderbooks@[j] == old(self).orderbooks@[j]
                }),
    {
        match self.find_market(&pair) {
            None => Err(EngineError::MarketNotFound),
            Some(i) => {
                proof {
                    assert(old(self).orderbooks@[i as int].1.wf());
                }
                let entry = &mut self.orderbooks[i];
                entry.1.add_order(price, order);
                proof {
                    assert(self.orderbooks@ == old(self).orderbooks@.update(
                        i as int,
                        self.orderbooks@[i as int],
                    ));
                }
                Ok(())
            },
        }
    }

    /// Fills a market order against the book of the market keyed by `pair`,
    /// walking the opposite side best price first; whatever that side
    /// cannot absorb stays on the order. An unregistered pair is rejected
    /// and neither the engine nor the order is mutated.
    pub fn place_market_order(&mut self, pair: TradingPair, market_order: &mut Order) -> (r: Result<
        (),
        EngineError,
    >)
        requires
            old(self).wf(),
        ensures
            final(self).wf(),
            !has_market(old(self).orderbooks@, pair@) ==> r == Err::<(), EngineError>(
                EngineError::MarketNotFound,
            ) && *final(self) == *old(self) && *final(market_order) == *old(market_order),
            has_market(old(self).orderbooks@, pair@) ==> r == Ok::<(), EngineError>(())
                && final(market_order).bid_or_ask == old(market_order).bid_or_ask
                && final(self).orderbooks@.len() == old(self).orderbooks@.len() && (exists|i: int|
                {
                    &&& 0 <= i < old(self).orderbooks@.len()
                    &&& (#[trigger] old(self).orderbooks@[i]).0@ == pair@
                    &&& final(self).orderbooks@[i].0 == old(self).orderbooks@[i].0
                    &&& book_after_market_fill(
                        old(self).orderbooks@[i].1,
                        old(market_order).bid_or_ask,
                        old(market_order).size as int,
                        final(self).orderbooks@[i].1,
                        final(market_order).size as int,
                    )
                    &&& forall|j: int|
                        0 <= j < old(self).orderbooks@.len() && j != i
                            ==> final(self).orderbooks@[j] == old(self).orderbooks@[j]
                }),
    {
        match self.find_market(&pair) {
            None => Err(EngineError::MarketNotFound),
            Some(i) => {
                proof {
                    assert(old(self).orderbooks@[i as int].1.wf());
                }
                let entry = &mut self.orderbooks[i];
                entry.1.fill_market_order(market_order);
                proof {
                    assert(self.orderbooks@ == old(self).orderbooks@.update(
                        i as int,
                        self.orderbooks@[i as int],
                    ));
                }
                Ok(())
            },
        }
    }
}

} // verus!
