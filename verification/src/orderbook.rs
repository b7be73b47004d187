//! Price levels and the two-sided order book for one market.
//!
//! A [`Limit`] holds every order resting at one exact price, in arrival
//! order: earlier orders are filled first (time priority). An [`Orderbook`]
//! keeps the ask levels in ascending and the bid levels in descending price
//! order, so that a market order walks the opposite side best price first
//! (price priority). Every fill conserves size: what an incoming order loses
//! is exactly what the resting side loses in total.

use crate::price::Price;
use vstd::math::max;
use vstd::math::min;
use vstd::prelude::*;

verus! {

/// Whether an order is buy interest (a bid) or sell interest (an ask).
#[derive(Clone, Copy, Debug, PartialEq, Eq, Structural)]
pub enum BidOrAk {
    Bid,
    Ask,
}

/// A single unit of trading intent: a side and the size still unfilled.
/// The size only ever decreases; the order is filled when it reaches zero.
#[derive(Clone, Copy, Debug, PartialEq, Eq, Structural)]
pub struct Order {
    pub size: u64,
    pub bid_or_ask: BidOrAk,
}

impl Order {
    pub fn new(bid_or_ask: BidOrAk, size: u64) -> (r: Order)
        ensures
            r == (Order { size, bid_or_ask }),
    {
        Order { bid_or_ask, size }
    }

    /// An order is filled exactly when nothing of it remains.
    pub fn is_filled(&self) -> (r: bool)
        ensures
            r == (self.size == 0),
    {
        self.size == 0
    }
}

/// Total size resting in the first `i` orders of `s`.
pub open spec fn size_before(s: Seq<Order>, i: int) -> int
    decreases i,
{
    if i <= 0 {
        0
    } else {
        size_before(s, i - 1) + s[i - 1].size
    }
}

/// Total size resting in `s`.
pub open spec fn total_size(s: Seq<Order>) -> int {
    size_before(s, s.len() as int)
}

/// What is left of an incoming size `t` when a fill walk reaches index `i`,
/// every earlier resting order having absorbed as much as it could.
pub open spec fn remaining_at(s: Seq<Order>, t: int, i: int) -> int {
    max(t - size_before(s, i), 0)
}

/// The amount a fill of incoming size `t` takes from the resting order at
/// index `i`: all of it if enough of `t` is left, else whatever is left.
pub open spec fn taken_at(s: Seq<Order>, t: int, i: int) -> int {
    min(s[i].size as int, remaining_at(s, t, i))
}

/// How a fill of incoming size `t` transforms a resting sequence: every
/// order keeps its place and side and loses exactly its taken amount.
/// Fully drained orders stay in the sequence.
pub open spec fn orders_after_fill(pre: Seq<Order>, t: int, post: Seq<Order>) -> bool {
    &&& post.len() == pre.len()
    &&& forall|i: int|
        0 <= i < pre.len() ==> (#[trigger] post[i]).bid_or_ask == pre[i].bid_or_ask
    &&& forall|i: int|
        0 <= i < pre.len() ==> (#[trigger] post[i]).size == pre[i].size - taken_at(pre, t, i)
}

proof fn lemma_size_before_mono(s: Seq<Order>, i: int, j: int)
    requires
        0 <= i <= j <= s.len(),
    ensures
        size_before(s, i) <= size_before(s, j),
    decreases j,
{
    if i < j {
        lemma_size_before_mono(s, i, j - 1);
    }
}

proof fn lemma_size_before_nonneg(s: Seq<Order>, i: int)
    requires
        0 <= i <= s.len(),
    ensures
        size_before(s, i) >= 0,
{
    lemma_size_before_mono(s, 0, i);
}

/// Once an incoming order is exhausted at some index, it stays exhausted.
proof fn lemma_remaining_stays_zero(s: Seq<Order>, t: int, i: int, j: int)
    requires
        0 <= i <= j <= s.len(),
        remaining_at(s, t, i) == 0,
    ensures
        remaining_at(s, t, j) == 0,
{
    lemma_size_before_mono(s, i, j);
}

/// A fill with nothing incoming leaves a resting sequence as it was.
proof fn lemma_zero_fill_id(s: Seq<Order>)
    ensures
        orders_after_fill(s, 0, s),
{
    assert forall|i: int| 0 <= i < s.len() implies (#[trigger] s[i]).size == s[i].size - taken_at(
        s,
        0,
        i,
    ) by {
        lemma_size_before_nonneg(s, i);
    }
}

/// Conservation of size at one price level: after a fill, what remains of
/// the incoming size plus what rests in the sequence equals what came in
/// plus what rested before. Size is never created or destroyed.
pub proof fn lemma_fill_conserves(pre: Seq<Order>, t: int, post: Seq<Order>)
    requires
        t >= 0,
        orders_after_fill(pre, t, post),
    ensures
        total_size(post) + t == total_size(pre) + remaining_at(pre, t, pre.len() as int),
{
    lemma_fill_conserves_prefix(pre, t, post, pre.len() as int);
    assert(post.len() == pre.len());
}

proof fn lemma_fill_conserves_prefix(pre: Seq<Order>, t: int, post: Seq<Order>, i: int)
    requires
        t >= 0,
        orders_after_fill(pre, t, post),
        0 <= i <= pre.len(),
    ensures
        size_before(post, i) + t == size_before(pre, i) + remaining_at(pre, t, i),
    decreases i,
{
    if i > 0 {
        lemma_fill_conserves_prefix(pre, t, post, i - 1);
    }
}

/// Time priority: a later resting order is touched only if every earlier
/// order at the level has been fully drained.
pub proof fn lemma_time_priority(pre: Seq<Order>, t: int, post: Seq<Order>, i: int, j: int)
    requires
        t >= 0,
        orders_after_fill(pre, t, post),
        0 <= i < j < pre.len(),
        post[j].size != pre[j].size,
    ensures
        post[i].size == 0,
{
    lemma_size_before_mono(pre, i + 1, j);
}

/// An incoming order of exactly the first resting order's size drains that
/// first order and leaves the one behind it untouched.
pub proof fn lemma_exact_fill_first(pre: Seq<Order>, post: Seq<Order>)
    requires
        pre.len() == 2,
        orders_after_fill(pre, pre[0].size as int, post),
    ensures
        post[0].size == 0,
        post[1].size == pre[1].size,
{
    assert(size_before(pre, 1) == size_before(pre, 0) + pre[0].size);
}

/// All orders resting at one exact price, in arrival order. The side the
/// price belongs to is implicit from which half of the book holds the level.
#[derive(Debug)]
pub struct Limit {
    pub price: Price,
    pub orders: Vec<Order>,
}

impl Limit {
    pub fn new(price: Price) -> (r: Limit)
        ensures
            r.price == price,
            r.orders@ == Seq::<Order>::empty(),
    {
        Limit { price, orders: Vec::new() }
    }

    /// Appends an order at the tail of the resting sequence, behind every
    /// earlier arrival. Never fails.
    pub fn add_order(&mut self, order: Order)
        ensures
            final(self).price == old(self).price,
            final(self).orders@ == old(self).orders@.push(order),
    {
        self.orders.push(order);
    }

    /// Sum of the remaining sizes of all resting orders at this level;
    /// zero when the level is empty.
    pub fn total_volume(&self) -> (r: u128)
        ensures
            r as int == total_size(self.orders@),
    {
        let mut acc: u128 = 0;
        let mut idx: usize = 0;
        while idx < self.orders.len()
            invariant
                0 <= idx <= self.orders@.len(),
                acc as int == size_before(self.orders@, idx as int),
                acc as int <= idx as int * (u64::MAX as int),
            decreases self.orders@.len() - idx,
        {
            let sz: u64 = self.orders[idx].size;
            proof {
                assert(acc as int + sz as int <= (idx as int + 1) * (u64::MAX as int))
                    by (nonlinear_arith)
                    requires
                        acc as int <= idx as int * (u64::MAX as int),
                        sz as int <= u64::MAX as int,
                        idx as int >= 0,
                ;
                assert((idx as int + 1) * (u64::MAX as int) < u128::MAX as int)
                    by (nonlinear_arith)
                    requires
                        0 <= idx as int + 1 <= u64::MAX as int,
                ;
            }
            acc = acc + sz as u128;
            idx = idx + 1;
        }
        acc
    }

    /// Walks the resting sequence in arrival order, draining each resting
    /// order into the incoming one until the incoming order is filled or
    /// the level is exhausted. Size is conserved; fully drained resting
    /// orders stay in the sequence.
    pub fn fill_order(&mut self, market_order: &mut Order)
        ensures
            final(self).price == old(self).price,
            orders_after_fill(
                old(self).orders@,
                old(market_order).size as int,
                final(self).orders@,
            ),
            final(market_order).size as int == remaining_at(
                old(self).orders@,
                old(market_order).size as int,
                old(self).orders@.len() as int,
            ),
            final(market_order).bid_or_ask == old(market_order).bid_or_ask,
            total_size(final(self).orders@) + old(market_order).size == total_size(
                old(self).orders@,
            ) + final(market_order).size,
    {
        let ghost pre = self.orders@;
        let ghost t = market_order.size as int;
        let ghost side = market_order.bid_or_ask;
        let mut idx: usize = 0;
        while idx < self.orders.len() && market_order.size > 0
            invariant
                0 <= idx <= pre.len(),
                self.orders@.len() == pre.len(),
                self.price == old(self).price,
                t >= 0,
                market_order.size as int == remaining_at(pre, t, idx as int),
                market_order.bid_or_ask == side,
                forall|i: int|
                    0 <= i < idx ==> (#[trigger] self.orders@[i]).size == pre[i].size - taken_at(
                        pre,
                        t,
                        i,
                    ),
                forall|i: int|
                    0 <= i < idx ==> (#[trigger] self.orders@[i]).bid_or_ask == pre[i].bid_or_ask,
                forall|i: int| idx <= i < pre.len() ==> self.orders@[i] == pre[i],
            decreases pre.len() - idx,
        {
            let msize: u64 = market_order.size;
            let rsize: u64 = self.orders[idx].size;
            let mut resting: Order = self.orders[idx];
            if msize >= rsize {
                resting.size = 0;
                self.orders[idx] = resting;
                market_order.size = msize - rsize;
            } else {
                resting.size = rsize - msize;
                self.orders[idx] = resting;
                market_order.size = 0;
            }
            proof {
                assert(size_before(pre, idx as int + 1) == size_before(pre, idx as int)
                    + pre[idx as int].size);
            }
            idx = idx + 1;
        }
        proof {
            if idx < pre.len() {
                lemma_remaining_stays_zero(pre, t, idx as int, pre.len() as int);
                assert forall|i: int| idx <= i < pre.len() implies remaining_at(pre, t, i)
                    == 0 by {
                    lemma_remaining_stays_zero(pre, t, idx as int, i);
                }
            }
            lemma_fill_conserves(pre, t, self.orders@);
        }
    }
}

/// Total size resting in the first `k` price levels of one side.
pub open spec fn volume_before(s: Seq<Limit>, k: int) -> int
    decreases k,
{
    if k <= 0 {
        0
    } else {
        volume_before(s, k - 1) + total_size(s[k - 1].orders@)
    }
}

/// Total size resting on one whole side.
pub open spec fn book_volume(s: Seq<Limit>) -> int {
    volume_before(s, s.len() as int)
}

/// What is left of an incoming size `t` when a market fill reaches level
/// `k`, every better level having absorbed as much as it could.
pub open spec fn remaining_at_level(s: Seq<Limit>, t: int, k: int) -> int {
    max(t - volume_before(s, k), 0)
}

/// How a market fill of incoming size `t` transforms one side of the book:
/// each level keeps its place and price, and its resting sequence is filled
/// with whatever of `t` the levels before it left over.
pub open spec fn limits_after_fill(pre: Seq<Limit>, t: int, post: Seq<Limit>) -> bool {
    &&& post.len() == pre.len()
    &&& forall|k: int| 0 <= k < pre.len() ==> (#[trigger] post[k]).price == pre[k].price
    &&& forall|k: int|
        0 <= k < pre.len() ==> orders_after_fill(
            pre[k].orders@,
            remaining_at_level(pre, t, k),
            (#[trigger] post[k]).orders@,
        )
}

/// Whether level price `a` sorts strictly before `b` on a side: ascending
/// for asks, descending for bids, so the best price always comes first.
pub open spec fn level_before(a: Price, b: Price, descending: bool) -> bool {
    if descending {
        b.lt(a)
    } else {
        a.lt(b)
    }
}

/// One side of the book keeps its levels in best-price-first order.
pub open spec fn sorted_side(s: Seq<Limit>, descending: bool) -> bool {
    forall|i: int, j: int|
        #![trigger s[i], s[j]]
        0 <= i < j < s.len() ==> level_before(s[i].price, s[j].price, descending)
}

/// Whether some level of `s` already carries `price`.
pub open spec fn has_level(s: Seq<Limit>, price: Price) -> bool {
    exists|i: int| 0 <= i < s.len() && (#[trigger] s[i]).price == price
}

/// One side of the book after `order` is filed under `price`: the order is
/// appended at the tail of the level with that price, a fresh level holding
/// only the order appearing in place if the price was unseen. All other
/// levels are untouched.
pub open spec fn side_after_add(pre: Seq<Limit>, price: Price, order: Order, post: Seq<
    Limit,
>) -> bool {
    if has_level(pre, price) {
        &&& post.len() == pre.len()
        &&& exists|i: int|
            0 <= i < pre.len() && (#[trigger] pre[i]).price == price && post[i].price == price
                && post[i].orders@ == pre[i].orders@.push(order) && (forall|j: int|
                0 <= j < pre.len() && j != i ==> post[j] == pre[j])
    } else {
        &&& post.len() == pre.len() + 1
        &&& exists|i: int|
            0 <= i <= pre.len() && (#[trigger] post[i]).price == price && post[i].orders@.len()
                == 1 && post[i].orders@[0] == order && (forall|j: int|
                0 <= j < i ==> post[j] == pre[j]) && (forall|j: int|
                i <= j < pre.len() ==> post[j + 1] == pre[j])
    }
}

/// How a whole book looks after `order` is filed under `price`: the order's
/// own side grows as [`side_after_add`] says, the other side is untouched.
pub open spec fn book_after_add(pre: Orderbook, price: Price, order: Order, post: Orderbook) -> bool {
    &&& order.bid_or_ask == BidOrAk::Bid ==> post.asks@ == pre.asks@ && side_after_add(
        pre.bids@,
        price,
        order,
        post.bids@,
    )
    &&& order.bid_or_ask == BidOrAk::Ask ==> post.bids@ == pre.bids@ && side_after_add(
        pre.asks@,
        price,
        order,
        post.asks@,
    )
}

/// How a whole book looks after a market fill of incoming size `t` on side
/// `side`, `left` of it unfilled: the opposite side is walked best price
/// first, the order's own side is untouched, and size is conserved.
pub open spec fn book_after_market_fill(
    pre: Orderbook,
    side: BidOrAk,
    t: int,
    post: Orderbook,
    left: int,
) -> bool {
    if side == BidOrAk::Bid {
        &&& post.bids@ == pre.bids@
        &&& limits_after_fill(pre.asks@, t, post.asks@)
        &&& left == remaining_at_level(pre.asks@, t, pre.asks@.len() as int)
        &&& book_volume(post.asks@) + t == book_volume(pre.asks@) + left
    } else {
        &&& post.asks@ == pre.asks@
        &&& limits_after_fill(pre.bids@, t, post.bids@)
        &&& left == remaining_at_level(pre.bids@, t, pre.bids@.len() as int)
        &&& book_volume(post.bids@) + t == book_volume(pre.bids@) + left
    }
}

proof fn lemma_volume_before_mono(s: Seq<Limit>, k: int, l: int)
    requires
        0 <= k <= l <= s.len(),
    ensures
        volume_before(s, k) <= volume_before(s, l),
    decreases l,
{
    if k < l {
        lemma_volume_before_mono(s, k, l - 1);
        lemma_size_before_nonneg(s[l - 1].orders@, s[l - 1].orders@.len() as int);
    }
}

/// Once an incoming order is exhausted at some level, it stays exhausted.
proof fn lemma_level_remaining_stays_zero(s: Seq<Limit>, t: int, k: int, l: int)
    requires
        0 <= k <= l <= s.len(),
        remaining_at_level(s, t, k) == 0,
    ensures
        remaining_at_level(s, t, l) == 0,
{
    lemma_volume_before_mono(s, k, l);
}

/// Conservation of size across a whole market fill: what the incoming
/// order loses is exactly what the walked side loses in total.
pub proof fn lemma_book_fill_conserves(pre: Seq<Limit>, t: int, post: Seq<Limit>)
    requires
        t >= 0,
        limits_after_fill(pre, t, post),
    ensures
        book_volume(post) + t == book_volume(pre) + remaining_at_level(pre, t, pre.len() as int),
{
    lemma_book_fill_conserves_prefix(pre, t, post, pre.len() as int);
    assert(post.len() == pre.len());
}

proof fn lemma_book_fill_conserves_prefix(pre: Seq<Limit>, t: int, post: Seq<Limit>, k: int)
    requires
        t >= 0,
        limits_after_fill(pre, t, post),
        0 <= k <= pre.len(),
    ensures
        volume_before(post, k) + t == volume_before(pre, k) + remaining_at_level(pre, t, k),
    decreases k,
{
    if k > 0 {
        lemma_book_fill_conserves_prefix(pre, t, post, k - 1);
        let entry = remaining_at_level(pre, t, k - 1);
        lemma_fill_conserves(pre[k - 1].orders@, entry, post[k - 1].orders@);
        lemma_size_before_nonneg(pre[k - 1].orders@, pre[k - 1].orders@.len() as int);
    }
}

/// Price priority: a level is touched by a market fill only if every level
/// before it — every better price — has been fully drained.
pub proof fn lemma_price_priority(pre: Seq<Limit>, t: int, post: Seq<Limit>, k: int, l: int)
    requires
        t >= 0,
        limits_after_fill(pre, t, post),
        0 <= k < l < pre.len(),
        exists|i: int|
            0 <= i < post[l].orders@.len() && (#[trigger] post[l].orders@[i]).size
                != pre[l].orders@[i].size,
    ensures
        forall|i: int| 0 <= i < post[k].orders@.len() ==> (#[trigger] post[k].orders@[i]).size == 0,
{
    let touched = choose|i: int|
        0 <= i < post[l].orders@.len() && (#[trigger] post[l].orders@[i]).size
            != pre[l].orders@[i].size;
    let rem_l = remaining_at_level(pre, t, l);
    assert(taken_at(pre[l].orders@, rem_l, touched) != 0);
    lemma_size_before_nonneg(pre[l].orders@, touched);
    assert(rem_l > 0);
    lemma_volume_before_mono(pre, k + 1, l);
    let rem_k = remaining_at_level(pre, t, k);
    let orders_k = pre[k].orders@;
    assert(volume_before(pre, k + 1) == volume_before(pre, k) + total_size(orders_k));
    assert(rem_k >= total_size(orders_k) + rem_l);
    assert forall|i: int| 0 <= i < post[k].orders@.len() implies (#[trigger] post[k].orders@[i]).size
        == 0 by {
        lemma_size_before_mono(orders_k, i + 1, orders_k.len() as int);
        assert(size_before(orders_k, i + 1) == size_before(orders_k, i) + orders_k[i].size);
        assert(taken_at(orders_k, rem_k, i) == orders_k[i].size);
    }
}

/// Levels whose prices did not move keep their best-first order.
proof fn lemma_same_prices_keep_sort(pre: Seq<Limit>, post: Seq<Limit>, descending: bool)
    requires
        sorted_side(pre, descending),
        post.len() == pre.len(),
        forall|k: int| 0 <= k < pre.len() ==> (#[trigger] post[k]).price == pre[k].price,
    ensures
        sorted_side(post, descending),
{
    assert forall|i: int, j: int|
        #![trigger post[i], post[j]]
        0 <= i < j < post.len() implies level_before(post[i].price, post[j].price, descending) by {
        assert(post[i].price == pre[i].price);
        assert(post[j].price == pre[j].price);
        assert(level_before(pre[i].price, pre[j].price, descending));
    }
}

/// The two-sided collection of price levels for one market. Ask levels are
/// kept ascending and bid levels descending by price, so that a fill walk
/// meets the best price first.
#[derive(Debug)]
pub struct Orderbook {
    pub asks: Vec<Limit>,
    pub bids: Vec<Limit>,
}

impl Orderbook {
    /// Both sides keep their levels in best-price-first order.
    pub open spec fn wf(self) -> bool {
        sorted_side(self.asks@, false) && sorted_side(self.bids@, true)
    }

    pub fn new() -> (r: Orderbook)
        ensures
            r.asks@ == Seq::<Limit>::empty(),
            r.bids@ == Seq::<Limit>::empty(),
            r.wf(),
    {
        Orderbook { bids: Vec::new(), asks: Vec::new() }
    }

    /// Snapshot access to the resting bid levels, best (highest) price
    /// first, for market-data publication.
    pub fn bid_limits(&self) -> (r: &Vec<Limit>)
        ensures
            r@ == self.bids@,
    {
        &self.bids
    }

    /// Snapshot access to the resting ask levels, best (lowest) price
    /// first, for market-data publication.
    pub fn ask_limits(&self) -> (r: &Vec<Limit>)
        ensures
            r@ == self.asks@,
    {
        &self.asks
    }

    /// Files `order` under `price` on the side the order belongs to,
    /// creating the level in sorted position if the price is unseen.
    /// Never fails.
    pub fn add_order(&mut self, price: Price, order: Order)
        requires
            old(self).wf(),
        ensures
            final(self).wf(),
            order.bid_or_ask == BidOrAk::Bid ==> final(self).asks@ == old(self).asks@
                && side_after_add(old(self).bids@, price, order, final(self).bids@),
            order.bid_or_ask == BidOrAk::Ask ==> final(self).bids@ == old(self).bids@
                && side_after_add(old(self).asks@, price, order, final(self).asks@),
    {
        match order.bid_or_ask {
            BidOrAk::Bid => add_to_side(&mut self.bids, price, order, true),
            BidOrAk::Ask => add_to_side(&mut self.asks, price, order, false),
        }
    }

    /// Fills a market order against the opposite side of the book, walking
    /// the levels best price first and stopping as soon as the order is
    /// filled; whatever the opposite side cannot absorb is left on the
    /// order. The order's own side is never touched. Size is conserved.
    pub fn fill_market_order(&mut self, market_order: &mut Order)
        requires
            old(self).wf(),
        ensures
            final(self).wf(),
            final(market_order).bid_or_ask == old(market_order).bid_or_ask,
            old(market_order).bid_or_ask == BidOrAk::Bid ==> {
                &&& final(self).bids@ == old(self).bids@
                &&& limits_after_fill(
                    old(self).asks@,
                    old(market_order).size as int,
                    final(self).asks@,
                )
                &&& final(market_order).size as int == remaining_at_level(
                    old(self).asks@,
                    old(market_order).size as int,
                    old(self).asks@.len() as int,
                )
                &&& book_volume(final(self).asks@) + old(market_order).size == book_volume(
                    old(self).asks@,
                ) + final(market_order).size
            },
            old(market_order).bid_or_ask == BidOrAk::Ask ==> {
                &&& final(self).asks@ == old(self).asks@
                &&& limits_after_fill(
                    old(self).bids@,
                    old(market_order).size as int,
                    final(self).bids@,
                )
                &&& final(market_order).size as int == remaining_at_level(
                    old(self).bids@,
                    old(market_order).size as int,
                    old(self).bids@.len() as int,
                )
                &&& book_volume(final(self).bids@) + old(market_order).size == book_volume(
                    old(self).bids@,
                ) + final(market_order).size
            },
    {
        match market_order.bid_or_ask {
            BidOrAk::Bid => {
                fill_side(&mut self.asks, market_order);
                proof {
                    lemma_book_fill_conserves(
                        old(self).asks@,
                        old(market_order).size as int,
                        self.asks@,
                    );
                    lemma_same_prices_keep_sort(old(self).asks@, self.asks@, false);
                }
            },
            BidOrAk::Ask => {
                fill_side(&mut self.bids, market_order);
                proof {
                    lemma_book_fill_conserves(
                        old(self).bids@,
                        old(market_order).size as int,
                        self.bids@,
                    );
                    lemma_same_prices_keep_sort(old(self).bids@, self.bids@, true);
                }
            },
        }
    }
}

/// Whether the level price `a` sorts strictly before `b` on a side.
fn sorts_before(a: &Price, b: &Price, descending: bool) -> (r: bool)
    ensures
        r == level_before(*a, *b, descending),
{
    if descending {
        b.less_than(a)
    } else {
        a.less_than(b)
    }
}

/// Files `order` under `price` on one side, keeping the side's best-first
/// order: the level with that price grows at its tail, or a fresh level is
/// inserted at its sorted position.
fn add_to_side(side: &mut Vec<Limit>, price: Price, order: Order, descending: bool)
    requires
        sorted_side(old(side)@, descending),
    ensures
        sorted_side(final(side)@, descending),
        side_after_add(old(side)@, price, order, final(side)@),
{
    let ghost pre = side@;
    let mut idx: usize = 0;
    while idx < side.len() && sorts_before(&side[idx].price, &price, descending)
        invariant
            0 <= idx <= pre.len(),
            side@ == pre,
            sorted_side(pre, descending),
            forall|j: int| 0 <= j < idx ==> level_before((#[trigger] pre[j]).price, price, descending),
        decreases pre.len() - idx,
    {
        idx = idx + 1;
    }
    if idx < side.len() && side[idx].price == price {
        let level = &mut side[idx];
        level.orders.push(order);
        proof {
            assert(side@ == pre.update(idx as int, side@[idx as int]));
            assert(pre[idx as int].price == price);
            assert(side@[idx as int].orders@ == pre[idx as int].orders@.push(order));
            assert forall|k: int| 0 <= k < pre.len() implies (#[trigger] side@[k]).price
                == pre[k].price by {}
            lemma_same_prices_keep_sort(pre, side@, descending);
        }
    } else {
        proof {
            assert forall|j: int| 0 <= j < pre.len() implies (#[trigger] pre[j]).price != price by {
                if j >= idx {
                    assert(idx < pre.len());
                    if j > idx {
                        assert(level_before(pre[idx as int].price, pre[j].price, descending));
                    }
                }
            }
            assert(!has_level(pre, price));
        }
        let mut level = Limit::new(price);
        level.add_order(order);
        let ghost nl = level;
        side.insert(idx, level);
        proof {
            pre.insert_ensures(idx as int, nl);
            assert(side@[idx as int].price == price);
            assert(side@[idx as int].orders@.len() == 1);
            assert(side@[idx as int].orders@[0] == order);
            assert forall|i: int, j: int|
                #![trigger side@[i], side@[j]]
                0 <= i < j < side@.len() implies level_before(
                side@[i].price,
                side@[j].price,
                descending,
            ) by {
                if j < idx {
                    assert(side@[i] == pre[i] && side@[j] == pre[j]);
                } else if j == idx {
                    assert(side@[i] == pre[i]);
                } else if i == idx {
                    assert(side@[j] == pre[j - 1]);
                    if j - 1 > idx {
                        assert(level_before(pre[idx as int].price, pre[j - 1].price, descending));
                    }
                } else if i < idx {
                    assert(side@[i] == pre[i] && side@[j] == pre[j - 1]);
                    assert(level_before(pre[i].price, pre[j - 1].price, descending));
                } else {
                    assert(side@[i] == pre[i - 1] && side@[j] == pre[j - 1]);
                    assert(level_before(pre[i - 1].price, pre[j - 1].price, descending));
                }
            }
        }
    }
}

/// Walks one side of the book in its stored (best-first) order, filling the
/// incoming order level by level until it is filled or the side is
/// exhausted.
fn fill_side(side: &mut Vec<Limit>, market_order: &mut Order)
    ensures
        limits_after_fill(old(side)@, old(market_order).size as int, final(side)@),
        final(market_order).size as int == remaining_at_level(
            old(side)@,
            old(market_order).size as int,
            old(side)@.len() as int,
        ),
        final(market_order).bid_or_ask == old(market_order).bid_or_ask,
{
    let ghost pre = side@;
    let ghost t = market_order.size as int;
    let ghost mside = market_order.bid_or_ask;
    let mut k: usize = 0;
    while k < side.len() && market_order.size > 0
        invariant
            0 <= k <= pre.len(),
            side@.len() == pre.len(),
            t >= 0,
            market_order.size as int == remaining_at_level(pre, t, k as int),
            market_order.bid_or_ask == mside,
            forall|j: int| 0 <= j < k ==> (#[trigger] side@[j]).price == pre[j].price,
            forall|j: int|
                0 <= j < k ==> orders_after_fill(
                    pre[j].orders@,
                    remaining_at_level(pre, t, j),
                    (#[trigger] side@[j]).orders@,
                ),
            forall|j: int| k <= j < pre.len() ==> side@[j] == pre[j],
        decreases pre.len() - k,
    {
        let level = &mut side[k];
        level.fill_order(market_order);
        proof {
            assert(volume_before(pre, k as int + 1) == volume_before(pre, k as int) + total_size(
                pre[k as int].orders@,
            ));
            lemma_size_before_nonneg(pre[k as int].orders@, pre[k as int].orders@.len() as int);
        }
        k = k + 1;
    }
    proof {
        if k < pre.len() {
            assert forall|j: int| k <= j < pre.len() implies orders_after_fill(
                pre[j].orders@,
                remaining_at_level(pre, t, j),
                side@[j].orders@,
            ) by {
                lemma_level_remaining_stays_zero(pre, t, k as int, j);
                lemma_zero_fill_id(pre[j].orders@);
            }
            lemma_level_remaining_stays_zero(pre, t, k as int, pre.len() as int);
        }
    }
}

} // verus!
