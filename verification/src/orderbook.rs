use vstd::prelude::*;

use crate::errors::EngineError;
use crate::price::Price;

verus! {

/// The side an order trades on: `Bid` buys, `Ask` sells.
#[derive(Clone, Copy, Debug, PartialEq, Eq, Structural)]
pub enum OrderType {
    Bid,
    Ask,
}

/// A unit of trading intent: a side, an original size, and the size still
/// unmatched. `remaining` starts equal to `original` and only ever
/// decreases, by matching; an order with `remaining == 0` is filled and is
/// pruned from any level it rests in.
#[derive(Clone, Copy, Debug, PartialEq, Eq, Structural)]
pub struct Order {
    pub id: u64,
    pub order_type: OrderType,
    pub original: u64,
    pub remaining: u64,
}

/// One match: `quantity` units were consumed from the resting order
/// `order_id` (and from the aggressor).
#[derive(Clone, Copy, Debug, PartialEq, Eq, Structural)]
pub struct Fill {
    pub order_id: u64,
    pub quantity: u64,
}

impl Order {
    /// A fresh order: `remaining` equals the full `size`.
    pub fn new(id: u64, order_type: OrderType, size: u64) -> (o: Order)
        ensures
            o == (Order { id, order_type, original: size, remaining: size }),
    {
        Order { id, order_type, original: size, remaining: size }
    }

    /// Whether nothing of the order is left unmatched.
    pub fn is_filled(&self) -> (r: bool)
        ensures
            r == (self.remaining == 0),
    {
        self.remaining == 0
    }

    /// The size invariant: an order never has more left than it started with.
    pub open spec fn size_wf(self) -> bool {
        self.remaining <= self.original
    }
}

/// Every order in a resting sequence is live (`remaining > 0`) and obeys the
/// size invariant.
pub open spec fn level_orders_wf(s: Seq<Order>) -> bool {
    forall|i: int|
        0 <= i < s.len() ==> (#[trigger] s[i]).remaining > 0 && s[i].remaining <= s[i].original
}

/// Sum of the remaining sizes of a sequence of orders.
pub open spec fn seq_volume(s: Seq<Order>) -> int
    decreases s.len(),
{
    if s.len() == 0 {
        0
    } else {
        s[0].remaining + seq_volume(s.skip(1))
    }
}

/// Sum of the quantities of a sequence of fills.
pub open spec fn fills_total(fs: Seq<Fill>) -> int
    decreases fs.len(),
{
    if fs.len() == 0 {
        0
    } else {
        fs[0].quantity + fills_total(fs.skip(1))
    }
}

/// The outcome of matching an aggressor of size `qty` against the resting
/// orders `s`, head first: the orders left resting (zeroed ones pruned), the
/// fills generated in order, and the aggressor's size afterwards. Each step
/// consumes `min(qty, head.remaining)` from both sides.
pub open spec fn match_orders(s: Seq<Order>, qty: int) -> (Seq<Order>, Seq<Fill>, int)
    decreases s.len(),
{
    if qty <= 0 || s.len() == 0 {
        (s, Seq::<Fill>::empty(), qty)
    } else if qty >= s[0].remaining {
        let rest = match_orders(s.skip(1), qty - s[0].remaining);
        (rest.0, seq![(Fill { order_id: s[0].id, quantity: s[0].remaining })] + rest.1, rest.2)
    } else {
        let reduced = Order {
            id: s[0].id,
            order_type: s[0].order_type,
            original: s[0].original,
            remaining: (s[0].remaining - qty) as u64,
        };
        (
            seq![reduced] + s.skip(1),
            seq![(Fill { order_id: s[0].id, quantity: qty as u64 })],
            0,
        )
    }
}

/// All orders resting at one exact price, in arrival order: first inserted,
/// first matched.
#[derive(Debug)]
pub struct Limit {
    pub price: Price,
    pub orders: Vec<Order>,
}

impl Limit {
    /// The level's invariant: every resting order is live and size-consistent.
    pub open spec fn wf(self) -> bool {
        level_orders_wf(self.orders@)
    }

    /// An empty level at `price`.
    pub fn new(price: Price) -> (l: Limit)
        ensures
            l.price == price,
            l.orders@ == Seq::<Order>::empty(),
    {
        Limit { price, orders: Vec::new() }
    }

    /// Appends `order` to the tail of the FIFO queue. No other order moves.
    pub fn add_order(&mut self, order: Order)
        requires
            order.remaining > 0,
            order.size_wf(),
        ensures
            final(self).price == old(self).price,
            final(self).orders@ == old(self).orders@.push(order),
    {
        self.orders.push(order);
    }

    /// Sum of the remaining sizes of all orders at the level; zero for an
    /// empty level.
    pub fn total_volume(&self) -> (v: u128)
        ensures
            v == seq_volume(self.orders@),
    {
        let n = self.orders.len();
        let mut v: u128 = 0;
        let mut i: usize = 0;
        while i < n
            invariant
                i <= n,
                n == self.orders@.len(),
                v == seq_volume(self.orders@.take(i as int)),
                v <= i * 0xffff_ffff_ffff_ffffu64,
            decreases n - i,
        {
            proof {
                lemma_seq_volume_take_step(self.orders@, i as int);
            }
            v = v + self.orders[i].remaining as u128;
            i = i + 1;
        }
        proof {
            assert(self.orders@.take(n as int) =~= self.orders@);
        }
        v
    }

    /// Matches `aggressor` against the head of the queue until the aggressor
    /// is filled or the level empties. Each step consumes
    /// `min(aggressor.remaining, head.remaining)` from both sides; a resting
    /// order whose remaining size reaches zero is removed at once, preserving
    /// the FIFO order of the rest. Returns the fills generated, in order.
    pub fn fill_order(&mut self, aggressor: &mut Order) -> (fills: Vec<Fill>)
        requires
            old(self).wf(),
            old(aggressor).size_wf(),
        ensures
            final(self).price == old(self).price,
            final(self).orders@ == match_orders(
                old(self).orders@,
                old(aggressor).remaining as int,
            ).0,
            fills@ == match_orders(old(self).orders@, old(aggressor).remaining as int).1,
            final(aggressor).remaining as int == match_orders(
                old(self).orders@,
                old(aggressor).remaining as int,
            ).2,
            final(aggressor).id == old(aggressor).id,
            final(aggressor).order_type == old(aggressor).order_type,
            final(aggressor).original == old(aggressor).original,
            final(aggressor).remaining <= old(aggressor).remaining,
            final(self).wf(),
    {
        let ghost g = match_orders(old(self).orders@, old(aggressor).remaining as int);
        let mut fills: Vec<Fill> = Vec::new();
        while aggressor.remaining > 0 && self.orders.len() > 0
            invariant
                self.wf(),
                aggressor.size_wf(),
                self.price == old(self).price,
                aggressor.id == old(aggressor).id,
                aggressor.order_type == old(aggressor).order_type,
                aggressor.original == old(aggressor).original,
                aggressor.remaining <= old(aggressor).remaining,
                g == match_orders(old(self).orders@, old(aggressor).remaining as int),
                g.0 == match_orders(self.orders@, aggressor.remaining as int).0,
                g.1 == fills@ + match_orders(self.orders@, aggressor.remaining as int).1,
                g.2 == match_orders(self.orders@, aggressor.remaining as int).2,
            decreases aggressor.remaining,
        {
            let ghost pre_orders = self.orders@;
            let ghost pre_qty = aggressor.remaining as int;
            let head = self.orders[0];
            if aggressor.remaining >= head.remaining {
                fills.push(Fill { order_id: head.id, quantity: head.remaining });
                aggressor.remaining = aggressor.remaining - head.remaining;
                self.orders.remove(0);
                proof {
                    assert(self.orders@ =~= pre_orders.skip(1));
                    let c = match_orders(self.orders@, aggressor.remaining as int);
                    assert(match_orders(pre_orders, pre_qty).1 == seq![
                        (Fill { order_id: head.id, quantity: head.remaining }),
                    ] + c.1);
                    assert(fills@ + c.1 =~= g.1);
                }
            } else {
                let consumed = aggressor.remaining;
                fills.push(Fill { order_id: head.id, quantity: consumed });
                let reduced = Order {
                    id: head.id,
                    order_type: head.order_type,
                    original: head.original,
                    remaining: head.remaining - consumed,
                };
                self.orders.remove(0);
                self.orders.insert(0, reduced);
                aggressor.remaining = 0;
                proof {
                    assert(self.orders@ =~= seq![reduced] + pre_orders.skip(1));
                    let c = match_orders(self.orders@, aggressor.remaining as int);
                    assert(c.1 == Seq::<Fill>::empty());
                    assert(fills@ + c.1 =~= g.1);
                }
            }
        }
        proof {
            let c = match_orders(self.orders@, aggressor.remaining as int);
            assert(c.0 == self.orders@ && c.1 == Seq::<Fill>::empty() && c.2
                == aggressor.remaining as int);
            assert(fills@ =~= fills@ + Seq::<Fill>::empty());
        }
        fills
    }
}

/// The side opposite to `side`: the side an aggressor of type `side` is
/// matched against.
pub open spec fn opposite(side: OrderType) -> OrderType {
    match side {
        OrderType::Bid => OrderType::Ask,
        OrderType::Ask => OrderType::Bid,
    }
}

/// The spec-level image of one price level: its price in scaled units and
/// its resting orders in FIFO order.
#[verifier::ext_equal]
pub ghost struct LevelV {
    pub price: u64,
    pub orders: Seq<Order>,
}

/// The spec-level image of one side of a book.
pub open spec fn side_v(s: Seq<Limit>) -> Seq<LevelV> {
    Seq::new(s.len(), |i: int| LevelV { price: s[i].price.units, orders: s[i].orders@ })
}

/// Whether a level priced `a` is kept strictly ahead of one priced `b` on a
/// side: bids are sorted descending (highest buy first), asks ascending
/// (lowest sell first).
pub open spec fn comes_before(side: OrderType, a: u64, b: u64) -> bool {
    match side {
        OrderType::Bid => a > b,
        OrderType::Ask => a < b,
    }
}

/// A side's levels are strictly sorted best price first, so no price appears
/// twice.
pub open spec fn side_sorted(ls: Seq<LevelV>, side: OrderType) -> bool {
    forall|i: int, j: int|
        0 <= i < j < ls.len() ==> comes_before(side, ls[i].price, ls[j].price)
}

/// Every level on a side is non-empty and holds only live, size-consistent
/// orders.
pub open spec fn levels_wf(ls: Seq<LevelV>) -> bool {
    forall|i: int|
        0 <= i < ls.len() ==> (#[trigger] ls[i]).orders.len() > 0 && level_orders_wf(ls[i].orders)
}

/// Total resting volume across a side's levels.
pub open spec fn levels_volume(ls: Seq<LevelV>) -> int
    decreases ls.len(),
{
    if ls.len() == 0 {
        0
    } else {
        seq_volume(ls[0].orders) + levels_volume(ls.skip(1))
    }
}

/// Whether an aggressor bounded by limit price `bound` executes against a
/// level priced `level_price` resting on side `book_side`: a bid takes asks
/// priced at or below its limit, an ask takes bids priced at or above its
/// limit, and a market order (no bound) takes any level.
pub open spec fn crossed_by(book_side: OrderType, level_price: u64, bound: Option<u64>) -> bool {
    match bound {
        Option::None => true,
        Option::Some(p) => match book_side {
            OrderType::Ask => level_price <= p,
            OrderType::Bid => level_price >= p,
        },
    }
}

/// The outcome of sweeping an aggressor of size `qty` (bounded by `bound`)
/// across the levels `ls` of side `book_side`, best price first: the levels
/// left (an emptied level is removed, a partially consumed head level keeps
/// its reduced orders), the fills generated in order, and the aggressor's
/// remaining size. The sweep stops as soon as the aggressor is filled or the
/// best remaining level no longer crosses.
pub open spec fn sweep_levels(ls: Seq<LevelV>, book_side: OrderType, bound: Option<u64>, qty: int) -> (
    Seq<LevelV>,
    Seq<Fill>,
    int,
)
    decreases ls.len(),
{
    if qty <= 0 || ls.len() == 0 || !crossed_by(book_side, ls[0].price, bound) {
        (ls, Seq::<Fill>::empty(), qty)
    } else {
        let m = match_orders(ls[0].orders, qty);
        if m.0.len() == 0 {
            let rest = sweep_levels(ls.skip(1), book_side, bound, m.2);
            (rest.0, m.1 + rest.1, rest.2)
        } else {
            (seq![(LevelV { price: ls[0].price, orders: m.0 })] + ls.skip(1), m.1, m.2)
        }
    }
}

/// What one matching step guarantees: the orders left are live and
/// size-consistent, the aggressor never goes negative, an unfilled aggressor
/// means the level was emptied, and quantity is conserved: the fills account
/// exactly for what left the resting side and for what left the aggressor.
pub proof fn lemma_match_orders_props(s: Seq<Order>, qty: int)
    requires
        level_orders_wf(s),
        qty >= 0,
    ensures
        level_orders_wf(match_orders(s, qty).0),
        0 <= match_orders(s, qty).2 <= qty,
        match_orders(s, qty).0.len() > 0 && qty > 0 ==> match_orders(s, qty).2 == 0,
        seq_volume(match_orders(s, qty).0) + fills_total(match_orders(s, qty).1) == seq_volume(s),
        match_orders(s, qty).2 + fills_total(match_orders(s, qty).1) == qty,
    decreases s.len(),
{
    let r = match_orders(s, qty);
    if qty <= 0 || s.len() == 0 {
        assert(fills_total(Seq::<Fill>::empty()) == 0);
    } else if qty >= s[0].remaining {
        assert(level_orders_wf(s.skip(1)));
        lemma_match_orders_props(s.skip(1), qty - s[0].remaining);
        let rest = match_orders(s.skip(1), qty - s[0].remaining);
        let f = Fill { order_id: s[0].id, quantity: s[0].remaining };
        assert((seq![f] + rest.1)[0] == f);
        assert((seq![f] + rest.1).skip(1) =~= rest.1);
        assert(fills_total(seq![f] + rest.1) == s[0].remaining + fills_total(rest.1));
        if rest.0.len() > 0 && qty > 0 {
            if qty - s[0].remaining == 0 {
                assert(rest.2 == 0);
            }
        }
    } else {
        let reduced = Order {
            id: s[0].id,
            order_type: s[0].order_type,
            original: s[0].original,
            remaining: (s[0].remaining - qty) as u64,
        };
        let f = Fill { order_id: s[0].id, quantity: qty as u64 };
        assert((seq![reduced] + s.skip(1)).skip(1) =~= s.skip(1));
        assert((seq![reduced] + s.skip(1))[0] == reduced);
        assert(seq_volume(seq![reduced] + s.skip(1)) == reduced.remaining + seq_volume(s.skip(1)));
        assert((seq![f]).skip(1) =~= Seq::<Fill>::empty());
        assert(fills_total(Seq::<Fill>::empty()) == 0);
        assert((seq![f])[0] == f);
        assert(fills_total(seq![f]) == f.quantity + fills_total((seq![f]).skip(1)));
        assert(fills_total(seq![f]) == qty);
        assert(forall|i: int|
            0 <= i < (seq![reduced] + s.skip(1)).len() ==> (#[trigger] (seq![reduced] + s.skip(
                1,
            ))[i]).remaining > 0 && (seq![reduced] + s.skip(1))[i].remaining <= (seq![reduced]
                + s.skip(1))[i].original) by {
            assert(forall|i: int|
                1 <= i < (seq![reduced] + s.skip(1)).len() ==> (seq![reduced] + s.skip(1))[i]
                    == s.skip(1)[i - 1]);
        }
    }
}

/// Splitting a fill sequence splits its total.
pub proof fn lemma_fills_total_concat(a: Seq<Fill>, b: Seq<Fill>)
    ensures
        fills_total(a + b) == fills_total(a) + fills_total(b),
    decreases a.len(),
{
    if a.len() == 0 {
        assert(a + b =~= b);
    } else {
        lemma_fills_total_concat(a.skip(1), b);
        assert((a + b).skip(1) =~= a.skip(1) + b);
        assert((a + b)[0] == a[0]);
    }
}

/// What a sweep guarantees: the levels left are a tail of the original side
/// (the head possibly reduced, never re-ordered and never emptied), the
/// aggressor never goes negative, a remainder is left only when no remaining
/// level crosses, and quantity is conserved across the whole sweep.
pub proof fn lemma_sweep_props(ls: Seq<LevelV>, book_side: OrderType, bound: Option<u64>, qty: int)
    requires
        levels_wf(ls),
        qty >= 0,
    ensures
        levels_wf(sweep_levels(ls, book_side, bound, qty).0),
        0 <= sweep_levels(ls, book_side, bound, qty).2 <= qty,
        sweep_levels(ls, book_side, bound, qty).0.len() <= ls.len(),
        forall|i: int|
            0 <= i < sweep_levels(ls, book_side, bound, qty).0.len()
                ==> (#[trigger] sweep_levels(ls, book_side, bound, qty).0[i]).price == ls[i
                + ls.len() - sweep_levels(ls, book_side, bound, qty).0.len()].price,
        sweep_levels(ls, book_side, bound, qty).2 > 0 ==> (sweep_levels(ls, book_side, bound, qty).0.len()
            == 0 || !crossed_by(book_side, sweep_levels(ls, book_side, bound, qty).0[0].price, bound)),
        levels_volume(sweep_levels(ls, book_side, bound, qty).0) + fills_total(
            sweep_levels(ls, book_side, bound, qty).1,
        ) == levels_volume(ls),
        sweep_levels(ls, book_side, bound, qty).2 + fills_total(
            sweep_levels(ls, book_side, bound, qty).1,
        ) == qty,
    decreases ls.len(),
{
    let r = sweep_levels(ls, book_side, bound, qty);
    if qty <= 0 || ls.len() == 0 || !crossed_by(book_side, ls[0].price, bound) {
        assert(fills_total(Seq::<Fill>::empty()) == 0);
    } else {
        assert(level_orders_wf(ls[0].orders) && ls[0].orders.len() > 0);
        lemma_match_orders_props(ls[0].orders, qty);
        let m = match_orders(ls[0].orders, qty);
        assert(levels_wf(ls.skip(1)));
        if m.0.len() == 0 {
            lemma_sweep_props(ls.skip(1), book_side, bound, m.2);
            let rest = sweep_levels(ls.skip(1), book_side, bound, m.2);
            lemma_fills_total_concat(m.1, rest.1);
            assert(seq_volume(m.0) == 0);
            assert(forall|i: int|
                0 <= i < rest.0.len() ==> (#[trigger] rest.0[i]).price == ls.skip(1)[i + ls.skip(
                    1,
                ).len() - rest.0.len()].price);
            assert(forall|i: int|
                0 <= i < r.0.len() ==> (#[trigger] r.0[i]).price == ls[i + ls.len()
                    - r.0.len()].price) by {
                assert(forall|j: int| 0 <= j < ls.skip(1).len() ==> ls.skip(1)[j] == ls[j + 1]);
            }
        } else {
            assert(m.2 == 0);
            let head = LevelV { price: ls[0].price, orders: m.0 };
            assert(r.0 == seq![head] + ls.skip(1));
            assert(r.0[0] == head);
            assert(forall|i: int| 1 <= i < r.0.len() ==> r.0[i] == ls.skip(1)[i - 1]);
            assert(levels_wf(r.0)) by {
                assert(forall|i: int| 1 <= i < r.0.len() ==> r.0[i] == ls[i]);
            }
            assert(r.0.skip(1) =~= ls.skip(1));
            assert(levels_volume(r.0) == seq_volume(m.0) + levels_volume(ls.skip(1)));
            assert(levels_volume(ls) == seq_volume(ls[0].orders) + levels_volume(ls.skip(1)));
        }
    }
}

/// Extending a prefix of `s` by one order adds that order's remaining size
/// to the prefix's volume.
pub proof fn lemma_seq_volume_take_step(s: Seq<Order>, i: int)
    requires
        0 <= i < s.len(),
    ensures
        seq_volume(s.take(i + 1)) == seq_volume(s.take(i)) + s[i].remaining,
    decreases i,
{
    if i == 0 {
        assert(s.take(1) =~= seq![s[0]]);
        assert(s.take(1).skip(1) =~= Seq::<Order>::empty());
        assert(s.take(0) =~= Seq::<Order>::empty());
    } else {
        lemma_seq_volume_take_step(s.skip(1), i - 1);
        assert(s.take(i + 1).skip(1) =~= s.skip(1).take(i));
        assert(s.take(i).skip(1) =~= s.skip(1).take(i - 1));
        assert(s.take(i + 1)[0] == s[0]);
        assert(s.take(i)[0] == s[0]);
        assert(s.skip(1)[i - 1] == s[i]);
    }
}

/// The two-sided collection of price levels for one instrument. Bids are
/// kept descending by price, asks ascending, so index 0 of each side is its
/// best price.
#[derive(Debug)]
pub struct OrderBook {
    pub asks: Vec<Limit>,
    pub bids: Vec<Limit>,
}

impl OrderBook {
    /// The ask side as seen by specifications.
    pub open spec fn asks_v(self) -> Seq<LevelV> {
        side_v(self.asks@)
    }

    /// The bid side as seen by specifications.
    pub open spec fn bids_v(self) -> Seq<LevelV> {
        side_v(self.bids@)
    }

    /// The book's resting state never crosses: whenever both sides hold
    /// liquidity, the best bid is strictly below the best ask.
    pub open spec fn uncrossed(self) -> bool {
        self.asks@.len() > 0 && self.bids@.len() > 0 ==> self.bids_v()[0].price
            < self.asks_v()[0].price
    }

    /// The book's invariant: each side strictly sorted best price first,
    /// every level non-empty with live orders, and the book uncrossed.
    pub open spec fn wf(self) -> bool {
        &&& side_sorted(self.asks_v(), OrderType::Ask)
        &&& side_sorted(self.bids_v(), OrderType::Bid)
        &&& levels_wf(self.asks_v())
        &&& levels_wf(self.bids_v())
        &&& self.uncrossed()
    }

    /// An empty book.
    pub fn new() -> (b: OrderBook)
        ensures
            b.asks@ == Seq::<Limit>::empty(),
            b.bids@ == Seq::<Limit>::empty(),
            b.wf(),
    {
        let b = OrderBook { asks: Vec::new(), bids: Vec::new() };
        proof {
            assert(b.asks_v() =~= Seq::<LevelV>::empty());
            assert(b.bids_v() =~= Seq::<LevelV>::empty());
        }
        b
    }

    /// The lowest resting sell price, or `None` when no ask liquidity rests.
    pub fn best_ask(&self) -> (r: Option<Price>)
        ensures
            self.asks@.len() == 0 ==> r is None,
            self.asks@.len() > 0 ==> r == Some(self.asks@[0].price),
    {
        if self.asks.len() > 0 {
            Some(self.asks[0].price)
        } else {
            None
        }
    }

    /// The highest resting buy price, or `None` when no bid liquidity rests.
    pub fn best_bid(&self) -> (r: Option<Price>)
        ensures
            self.bids@.len() == 0 ==> r is None,
            self.bids@.len() > 0 ==> r == Some(self.bids@[0].price),
    {
        if self.bids.len() > 0 {
            Some(self.bids[0].price)
        } else {
            None
        }
    }

    /// Sweeps a market order across the opposite side in strict best-price
    /// order, with no price bound, until it is filled or that side is
    /// exhausted. A remainder is not an error: the caller observes it on the
    /// order. Returns the fills generated, in order.
    pub fn fill_market_order(&mut self, market_order: &mut Order) -> (fills: Vec<Fill>)
        requires
            old(self).wf(),
            old(market_order).size_wf(),
        ensures
            old(market_order).order_type == OrderType::Bid ==> ({
                let r = sweep_levels(
                    old(self).asks_v(),
                    OrderType::Ask,
                    None,
                    old(market_order).remaining as int,
                );
                final(self).asks_v() == r.0 && fills@ == r.1 && final(market_order).remaining as int
                    == r.2 && final(self).bids@ == old(self).bids@
            }),
            old(market_order).order_type == OrderType::Ask ==> ({
                let r = sweep_levels(
                    old(self).bids_v(),
                    OrderType::Bid,
                    None,
                    old(market_order).remaining as int,
                );
                final(self).bids_v() == r.0 && fills@ == r.1 && final(market_order).remaining as int
                    == r.2 && final(self).asks@ == old(self).asks@
            }),
            final(market_order).id == old(market_order).id,
            final(market_order).order_type == old(market_order).order_type,
            final(market_order).original == old(market_order).original,
            final(market_order).remaining <= old(market_order).remaining,
            final(self).wf(),
    {
        let fills = match market_order.order_type {
            OrderType::Bid => sweep_side(&mut self.asks, market_order, None),
            OrderType::Ask => sweep_side(&mut self.bids, market_order, None),
        };
        proof {
            lemma_book_side_after_sweep(*old(self), *self, *old(market_order), None);
        }
        fills
    }
}

/// After one side of a well-formed book has been swept (the other side left
/// unchanged), the book is well-formed again: the swept side keeps a tail of
/// its prices in order, so sortedness holds and the spread can only widen.
proof fn lemma_book_side_after_sweep(
    pre: OrderBook,
    post: OrderBook,
    aggressor: Order,
    bound: Option<u64>,
)
    requires
        pre.wf(),
        aggressor.order_type == OrderType::Bid ==> post.asks_v() == sweep_levels(
            pre.asks_v(),
            OrderType::Ask,
            bound,
            aggressor.remaining as int,
        ).0 && post.bids@ == pre.bids@,
        aggressor.order_type == OrderType::Ask ==> post.bids_v() == sweep_levels(
            pre.bids_v(),
            OrderType::Bid,
            bound,
            aggressor.remaining as int,
        ).0 && post.asks@ == pre.asks@,
    ensures
        post.wf(),
{
    match aggressor.order_type {
        OrderType::Bid => {
            lemma_sweep_props(pre.asks_v(), OrderType::Ask, bound, aggressor.remaining as int);
            let r0 = post.asks_v();
            let d = pre.asks_v().len() - r0.len();
            assert(side_sorted(r0, OrderType::Ask)) by {
                assert(forall|i: int, j: int|
                    0 <= i < j < r0.len() ==> comes_before(
                        OrderType::Ask,
                        (#[trigger] r0[i]).price,
                        (#[trigger] r0[j]).price,
                    )) by {
                    assert(forall|i: int| 0 <= i < r0.len() ==> (#[trigger] r0[i]).price
                        == pre.asks_v()[i + d].price);
                }
            }
            assert(post.bids_v() =~= pre.bids_v());
            if post.asks@.len() > 0 && post.bids@.len() > 0 {
                assert(r0[0].price == pre.asks_v()[d].price);
                if d > 0 {
                    assert(comes_before(
                        OrderType::Ask,
                        pre.asks_v()[0].price,
                        pre.asks_v()[d].price,
                    ));
                }
            }
        },
        OrderType::Ask => {
            lemma_sweep_props(pre.bids_v(), OrderType::Bid, bound, aggressor.remaining as int);
            let r0 = post.bids_v();
            let d = pre.bids_v().len() - r0.len();
            assert(side_sorted(r0, OrderType::Bid)) by {
                assert(forall|i: int, j: int|
                    0 <= i < j < r0.len() ==> comes_before(
                        OrderType::Bid,
                        (#[trigger] r0[i]).price,
                        (#[trigger] r0[j]).price,
                    )) by {
                    assert(forall|i: int| 0 <= i < r0.len() ==> (#[trigger] r0[i]).price
                        == pre.bids_v()[i + d].price);
                }
            }
            assert(post.asks_v() =~= pre.asks_v());
            if post.asks@.len() > 0 && post.bids@.len() > 0 {
                assert(r0[0].price == pre.bids_v()[d].price);
                if d > 0 {
                    assert(comes_before(
                        OrderType::Bid,
                        pre.bids_v()[0].price,
                        pre.bids_v()[d].price,
                    ));
                }
            }
        },
    }
}

/// Sweeps `aggressor` across `levels` (the side opposite the aggressor,
/// best price first), consuming whole levels while the aggressor still
/// crosses `bound`, and pruning each level it empties. The functional
/// outcome is exactly `sweep_levels` on the side's spec image.
fn sweep_side(levels: &mut Vec<Limit>, aggressor: &mut Order, bound: Option<Price>) -> (fills: Vec<
    Fill,
>)
    requires
        levels_wf(side_v(old(levels)@)),
        old(aggressor).size_wf(),
    ensures
        ({
            let r = sweep_levels(
                side_v(old(levels)@),
                opposite(old(aggressor).order_type),
                bound_v(bound),
                old(aggressor).remaining as int,
            );
            side_v(final(levels)@) == r.0 && fills@ == r.1 && final(aggressor).remaining as int
                == r.2
        }),
        final(aggressor).id == old(aggressor).id,
        final(aggressor).order_type == old(aggressor).order_type,
        final(aggressor).original == old(aggressor).original,
        final(aggressor).remaining <= old(aggressor).remaining,
{
    let ghost book_side = opposite(old(aggressor).order_type);
    let ghost g = sweep_levels(
        side_v(old(levels)@),
        book_side,
        bound_v(bound),
        old(aggressor).remaining as int,
    );
    let buys = match aggressor.order_type {
        OrderType::Bid => true,
        OrderType::Ask => false,
    };
    let mut fills: Vec<Fill> = Vec::new();
    loop
        invariant
            levels_wf(side_v(levels@)),
            aggressor.size_wf(),
            aggressor.id == old(aggressor).id,
            aggressor.order_type == old(aggressor).order_type,
            aggressor.original == old(aggressor).original,
            aggressor.remaining <= old(aggressor).remaining,
            buys == (aggressor.order_type == OrderType::Bid),
            book_side == opposite(aggressor.order_type),
            g == sweep_levels(
                side_v(old(levels)@),
                book_side,
                bound_v(bound),
                old(aggressor).remaining as int,
            ),
            g.0 == sweep_levels(
                side_v(levels@),
                book_side,
                bound_v(bound),
                aggressor.remaining as int,
            ).0,
            g.1 == fills@ + sweep_levels(
                side_v(levels@),
                book_side,
                bound_v(bound),
                aggressor.remaining as int,
            ).1,
            g.2 == sweep_levels(
                side_v(levels@),
                book_side,
                bound_v(bound),
                aggressor.remaining as int,
            ).2,
        ensures
            side_v(levels@) == g.0,
            fills@ == g.1,
            aggressor.remaining as int == g.2,
            aggressor.id == old(aggressor).id,
            aggressor.order_type == old(aggressor).order_type,
            aggressor.original == old(aggressor).original,
            aggressor.remaining <= old(aggressor).remaining,
            levels_wf(side_v(levels@)),
        decreases levels@.len(), aggressor.remaining,
    {
        let ghost pre_v = side_v(levels@);
        let ghost pre_qty = aggressor.remaining as int;
        let ghost c = sweep_levels(pre_v, book_side, bound_v(bound), pre_qty);
        if aggressor.remaining == 0 {
            proof {
                assert(fills@ + Seq::<Fill>::empty() =~= fills@);
            }
            break ;
        }
        if levels.len() == 0 {
            proof {
                assert(fills@ + Seq::<Fill>::empty() =~= fills@);
            }
            break ;
        }
        let crosses = match bound {
            None => true,
            Some(p) => if buys {
                levels[0].price.units <= p.units
            } else {
                levels[0].price.units >= p.units
            },
        };
        if !crosses {
            proof {
                assert(!crossed_by(book_side, pre_v[0].price, bound_v(bound)));
                assert(fills@ + Seq::<Fill>::empty() =~= fills@);
            }
            break ;
        }
        proof {
            assert(crossed_by(book_side, pre_v[0].price, bound_v(bound)));
            assert(level_orders_wf(pre_v[0].orders) && pre_v[0].orders.len() > 0);
            lemma_match_orders_props(pre_v[0].orders, pre_qty);
        }
        let mut level = levels.remove(0);
        let mut fs = level.fill_order(aggressor);
        fills.append(&mut fs);
        let ghost m = match_orders(pre_v[0].orders, pre_qty);
        if level.orders.len() > 0 {
            levels.insert(0, level);
            proof {
                assert(m.2 == 0 && aggressor.remaining == 0);
                let head = LevelV { price: pre_v[0].price, orders: m.0 };
                assert(side_v(levels@) =~= seq![head] + pre_v.skip(1));
                assert(c.0 == side_v(levels@) && c.1 == m.1 && c.2 == 0);
                let c2 = sweep_levels(side_v(levels@), book_side, bound_v(bound), 0);
                assert(c2.0 == side_v(levels@) && c2.1 == Seq::<Fill>::empty() && c2.2 == 0);
                assert(fills@ + Seq::<Fill>::empty() =~= fills@);
            }
        } else {
            proof {
                assert(side_v(levels@) =~= pre_v.skip(1));
                let c2 = sweep_levels(side_v(levels@), book_side, bound_v(bound), m.2);
                assert(c.0 == c2.0 && c.1 == m.1 + c2.1 && c.2 == c2.2);
                assert(fills@ + c2.1 =~= g.1);
            }
        }
    }
    fills
}

/// The side `ls` after `order` rests on it at `price`: appended to the level
/// already at that exact price, or placed in a new level at the position the
/// side's sort order dictates.
pub open spec fn rest_order(ls: Seq<LevelV>, side: OrderType, price: u64, order: Order) -> Seq<
    LevelV,
>
    decreases ls.len(),
{
    if ls.len() == 0 {
        seq![(LevelV { price, orders: seq![order] })]
    } else if ls[0].price == price {
        seq![(LevelV { price, orders: ls[0].orders.push(order) })] + ls.skip(1)
    } else if comes_before(side, price, ls[0].price) {
        seq![(LevelV { price, orders: seq![order] })] + ls
    } else {
        seq![ls[0]] + rest_order(ls.skip(1), side, price, order)
    }
}

/// What resting an order guarantees: the side stays strictly sorted and
/// well-formed, is never empty afterwards, and its best price only improves
/// to `price` when `price` beats the old best.
pub proof fn lemma_rest_order_props(ls: Seq<LevelV>, side: OrderType, price: u64, order: Order)
    requires
        side_sorted(ls, side),
        levels_wf(ls),
        order.remaining > 0,
        order.size_wf(),
    ensures
        side_sorted(rest_order(ls, side, price, order), side),
        levels_wf(rest_order(ls, side, price, order)),
        rest_order(ls, side, price, order).len() > 0,
        rest_order(ls, side, price, order)[0].price == (if ls.len() == 0 {
            price
        } else if comes_before(side, price, ls[0].price) {
            price
        } else {
            ls[0].price
        }),
    decreases ls.len(),
{
    let r = rest_order(ls, side, price, order);
    if ls.len() == 0 {
        assert(r[0].orders == seq![order]);
        assert(levels_wf(r)) by {
            assert(r[0].orders[0] == order);
        }
    } else if ls[0].price == price {
        let head = LevelV { price, orders: ls[0].orders.push(order) };
        assert(r[0] == head);
        assert(forall|i: int| 1 <= i < r.len() ==> r[i] == ls[i]);
        assert forall|i: int, j: int| 0 <= i < j < r.len() implies comes_before(
            side,
            r[i].price,
            r[j].price,
        ) by {
            assert(r[i].price == ls[i].price);
            assert(r[j].price == ls[j].price);
            assert(comes_before(side, ls[i].price, ls[j].price));
        }
        assert(levels_wf(r)) by {
            assert(level_orders_wf(ls[0].orders));
            assert(forall|k: int|
                0 <= k < head.orders.len() ==> (#[trigger] head.orders[k]).remaining > 0
                    && head.orders[k].remaining <= head.orders[k].original) by {
                assert(forall|k: int|
                    0 <= k < ls[0].orders.len() ==> head.orders[k] == ls[0].orders[k]);
                assert(head.orders[head.orders.len() - 1] == order);
            }
        }
    } else if comes_before(side, price, ls[0].price) {
        assert(r[0] == (LevelV { price, orders: seq![order] }));
        assert(forall|i: int| 1 <= i < r.len() ==> r[i] == ls[i - 1]);
        assert forall|i: int, j: int| 0 <= i < j < r.len() implies comes_before(
            side,
            r[i].price,
            r[j].price,
        ) by {
            if i == 0 {
                assert(r[j] == ls[j - 1]);
                if j - 1 > 0 {
                    assert(comes_before(side, ls[0].price, ls[j - 1].price));
                }
            } else {
                assert(r[i] == ls[i - 1]);
                assert(r[j] == ls[j - 1]);
                assert(comes_before(side, ls[i - 1].price, ls[j - 1].price));
            }
        }
        assert(levels_wf(r)) by {
            assert(r[0].orders[0] == order);
        }
    } else {
        assert(comes_before(side, ls[0].price, price));
        assert(side_sorted(ls.skip(1), side)) by {
            assert(forall|j: int| 0 <= j < ls.skip(1).len() ==> ls.skip(1)[j] == ls[j + 1]);
        }
        assert(levels_wf(ls.skip(1))) by {
            assert(forall|j: int| 0 <= j < ls.skip(1).len() ==> ls.skip(1)[j] == ls[j + 1]);
        }
        lemma_rest_order_props(ls.skip(1), side, price, order);
        let rr = rest_order(ls.skip(1), side, price, order);
        assert(r[0] == ls[0]);
        assert(forall|i: int| 1 <= i < r.len() ==> r[i] == rr[i - 1]);
        assert(comes_before(side, ls[0].price, rr[0].price)) by {
            if ls.skip(1).len() > 0 {
                assert(ls.skip(1)[0] == ls[1]);
            }
        }
        assert forall|i: int, j: int| 0 <= i < j < r.len() implies comes_before(
            side,
            r[i].price,
            r[j].price,
        ) by {
            if i == 0 {
                assert(r[j] == rr[j - 1]);
                if j - 1 > 0 {
                    assert(comes_before(side, rr[0].price, rr[j - 1].price));
                }
            } else {
                assert(r[i] == rr[i - 1]);
                assert(r[j] == rr[j - 1]);
                assert(comes_before(side, rr[i - 1].price, rr[j - 1].price));
            }
        }
    }
}

/// Rests `order` on `levels` (the side of the order's own type) at `price`:
/// appends to the level at that exact price if one exists, otherwise splices
/// a new level in at the side's sort position.
fn insert_into_side(levels: &mut Vec<Limit>, price: Price, order: Order)
    requires
        order.remaining > 0,
        order.size_wf(),
    ensures
        side_v(final(levels)@) == rest_order(
            side_v(old(levels)@),
            order.order_type,
            price.units,
            order,
        ),
{
    let descending = match order.order_type {
        OrderType::Bid => true,
        OrderType::Ask => false,
    };
    let ghost side = order.order_type;
    let ghost old_v = side_v(old(levels)@);
    let ghost target = rest_order(old_v, side, price.units, order);
    let mut i: usize = 0;
    proof {
        assert(old_v.skip(0) =~= old_v);
        assert(old_v.take(0) + rest_order(old_v, side, price.units, order) =~= rest_order(
            old_v,
            side,
            price.units,
            order,
        ));
    }
    loop
        invariant_except_break
            levels@ == old(levels)@,
            i <= levels@.len(),
        invariant
            old_v == side_v(old(levels)@),
            target == rest_order(old_v, side, price.units, order),
            descending == (side == OrderType::Bid),
            side == order.order_type,
            order.remaining > 0,
            order.size_wf(),
            forall|j: int| 0 <= j < i ==> comes_before(side, old_v[j].price, price.units),
            target == old_v.take(i as int) + rest_order(
                old_v.skip(i as int),
                side,
                price.units,
                order,
            ),
        ensures
            side_v(levels@) == target,
        decreases levels@.len() - i,
    {
        if i == levels.len() {
            let mut l = Limit::new(price);
            l.add_order(order);
            levels.push(l);
            proof {
                assert(old_v.skip(i as int) =~= Seq::<LevelV>::empty());
                assert(side_v(levels@) =~= old_v.take(i as int) + seq![
                    (LevelV { price: price.units, orders: seq![order] }),
                ]);
            }
            break ;
        }
        let cur = levels[i].price.units;
        if cur == price.units {
            let mut l = levels.remove(i);
            l.add_order(order);
            levels.insert(i, l);
            proof {
                assert(old_v.skip(i as int)[0] == old_v[i as int]);
                assert(old_v.skip(i as int).skip(1) =~= old_v.skip(i as int + 1));
                assert(side_v(levels@) =~= old_v.take(i as int) + (seq![
                    (LevelV { price: price.units, orders: old_v[i as int].orders.push(order) }),
                ] + old_v.skip(i as int + 1)));
            }
            break ;
        }
        let goes_before = if descending {
            price.units > cur
        } else {
            price.units < cur
        };
        if goes_before {
            let mut l = Limit::new(price);
            l.add_order(order);
            levels.insert(i, l);
            proof {
                assert(old_v.skip(i as int)[0] == old_v[i as int]);
                assert(side_v(levels@) =~= old_v.take(i as int) + (seq![
                    (LevelV { price: price.units, orders: seq![order] }),
                ] + old_v.skip(i as int)));
            }
            break ;
        }
        proof {
            assert(comes_before(side, cur, price.units));
            assert(old_v.skip(i as int)[0] == old_v[i as int]);
            assert(old_v.skip(i as int).skip(1) =~= old_v.skip(i as int + 1));
            assert(old_v.take(i as int) + (seq![old_v[i as int]] + rest_order(
                old_v.skip(i as int + 1),
                side,
                price.units,
                order,
            )) =~= old_v.take(i as int + 1) + rest_order(
                old_v.skip(i as int + 1),
                side,
                price.units,
                order,
            ));
        }
        i = i + 1;
    }
}

impl OrderBook {
    /// Administrative, non-crossing insert: rests `order` at `price` on the
    /// order's own side, creating the level if absent. Callers resolve
    /// crossing first; the precondition demands the insert cannot cross the
    /// opposite side's best price.
    pub fn add_order_at(&mut self, price: Price, order: Order)
        requires
            old(self).wf(),
            order.remaining > 0,
            order.size_wf(),
            (match order.order_type {
                OrderType::Bid => old(self).asks@.len() == 0 || price.units < old(
                    self,
                ).asks_v()[0].price,
                OrderType::Ask => old(self).bids@.len() == 0 || price.units > old(
                    self,
                ).bids_v()[0].price,
            }),
        ensures
            order.order_type == OrderType::Bid ==> final(self).bids_v() == rest_order(
                old(self).bids_v(),
                OrderType::Bid,
                price.units,
                order,
            ) && final(self).asks@ == old(self).asks@,
            order.order_type == OrderType::Ask ==> final(self).asks_v() == rest_order(
                old(self).asks_v(),
                OrderType::Ask,
                price.units,
                order,
            ) && final(self).bids@ == old(self).bids@,
            final(self).wf(),
    {
        match order.order_type {
            OrderType::Bid => {
                insert_into_side(&mut self.bids, price, order);
                proof {
                    lemma_rest_order_props(old(self).bids_v(), OrderType::Bid, price.units, order);
                    assert(self.asks_v() =~= old(self).asks_v());
                }
            },
            OrderType::Ask => {
                insert_into_side(&mut self.asks, price, order);
                proof {
                    lemma_rest_order_props(old(self).asks_v(), OrderType::Ask, price.units, order);
                    assert(self.bids_v() =~= old(self).bids_v());
                }
            },
        }
    }

    /// Places a limit order: a marketable (crossing) order executes against
    /// the opposite side, best price first, before any of it rests; only the
    /// still-unfilled remainder rests on the order's own side at `price`. A
    /// zero-size order is rejected with `InvalidSize` and the book is left
    /// untouched.
    pub fn add_limit_order(&mut self, price: Price, order: Order) -> (r: Result<
        Vec<Fill>,
        EngineError,
    >)
        requires
            old(self).wf(),
            order.size_wf(),
        ensures
            order.remaining == 0 ==> r == Err::<Vec<Fill>, EngineError>(EngineError::InvalidSize)
                && *final(self) == *old(self),
            order.remaining > 0 && order.order_type == OrderType::Bid ==> ({
                let s = sweep_levels(
                    old(self).asks_v(),
                    OrderType::Ask,
                    Some(price.units),
                    order.remaining as int,
                );
                &&& r matches Ok(fills) && fills@ == s.1
                &&& final(self).asks_v() == s.0
                &&& s.2 > 0 ==> final(self).bids_v() == rest_order(
                    old(self).bids_v(),
                    OrderType::Bid,
                    price.units,
                    (Order {
                        id: order.id,
                        order_type: order.order_type,
                        original: order.original,
                        remaining: s.2 as u64,
                    }),
                )
                &&& s.2 == 0 ==> final(self).bids@ == old(self).bids@
            }),
            order.remaining > 0 && order.order_type == OrderType::Ask ==> ({
                let s = sweep_levels(
                    old(self).bids_v(),
                    OrderType::Bid,
                    Some(price.units),
                    order.remaining as int,
                );
                &&& r matches Ok(fills) && fills@ == s.1
                &&& final(self).bids_v() == s.0
                &&& s.2 > 0 ==> final(self).asks_v() == rest_order(
                    old(self).asks_v(),
                    OrderType::Ask,
                    price.units,
                    (Order {
                        id: order.id,
                        order_type: order.order_type,
                        original: order.original,
                        remaining: s.2 as u64,
                    }),
                )
                &&& s.2 == 0 ==> final(self).asks@ == old(self).asks@
            }),
            final(self).wf(),
    {
        if order.remaining == 0 {
            return Err(EngineError::InvalidSize);
        }
        let mut agg = order;
        match order.order_type {
            OrderType::Bid => {
                let fills = sweep_side(&mut self.asks, &mut agg, Some(price));
                proof {
                    lemma_book_side_after_sweep(*old(self), *self, order, Some(price.units));
                    lemma_sweep_props(
                        old(self).asks_v(),
                        OrderType::Ask,
                        Some(price.units),
                        order.remaining as int,
                    );
                }
                if agg.remaining > 0 {
                    self.add_order_at(price, agg);
                }
                Ok(fills)
            },
            OrderType::Ask => {
                let fills = sweep_side(&mut self.bids, &mut agg, Some(price));
                proof {
                    lemma_book_side_after_sweep(*old(self), *self, order, Some(price.units));
                    lemma_sweep_props(
                        old(self).bids_v(),
                        OrderType::Bid,
                        Some(price.units),
                        order.remaining as int,
                    );
                }
                if agg.remaining > 0 {
                    self.add_order_at(price, agg);
                }
                Ok(fills)
            },
        }
    }
}

/// Whether some order in `s` carries `id`.
pub open spec fn orders_contain(s: Seq<Order>, id: u64) -> bool {
    exists|i: int| 0 <= i < s.len() && s[i].id == id
}

/// `s` with the first order carrying `id` removed; `s` itself when none does.
pub open spec fn remove_order(s: Seq<Order>, id: u64) -> Seq<Order>
    decreases s.len(),
{
    if s.len() == 0 {
        s
    } else if s[0].id == id {
        s.skip(1)
    } else {
        seq![s[0]] + remove_order(s.skip(1), id)
    }
}

/// Whether some level in `ls` holds an order carrying `id`.
pub open spec fn levels_contain(ls: Seq<LevelV>, id: u64) -> bool {
    exists|i: int| 0 <= i < ls.len() && orders_contain(ls[i].orders, id)
}

/// `ls` after cancelling `id`: the first level holding it loses that order,
/// and is pruned from the side entirely when that order was its last.
pub open spec fn cancel_levels(ls: Seq<LevelV>, id: u64) -> Seq<LevelV>
    decreases ls.len(),
{
    if ls.len() == 0 {
        ls
    } else if orders_contain(ls[0].orders, id) {
        if remove_order(ls[0].orders, id).len() == 0 {
            ls.skip(1)
        } else {
            seq![(LevelV { price: ls[0].price, orders: remove_order(ls[0].orders, id) })] + ls.skip(
                1,
            )
        }
    } else {
        seq![ls[0]] + cancel_levels(ls.skip(1), id)
    }
}

/// Removing one order keeps the rest live and size-consistent.
pub proof fn lemma_remove_order_wf(s: Seq<Order>, id: u64)
    requires
        level_orders_wf(s),
    ensures
        level_orders_wf(remove_order(s, id)),
    decreases s.len(),
{
    if s.len() > 0 {
        assert(level_orders_wf(s.skip(1))) by {
            assert(forall|k: int| 0 <= k < s.skip(1).len() ==> s.skip(1)[k] == s[k + 1]);
        }
        if s[0].id != id {
            lemma_remove_order_wf(s.skip(1), id);
            let r = remove_order(s, id);
            assert(forall|k: int| 1 <= k < r.len() ==> r[k] == remove_order(s.skip(1), id)[k - 1]);
            assert(r[0] == s[0]);
        }
    }
}

/// When `j` is the first index carrying `id`, removing `id` removes exactly
/// the order at `j`.
pub proof fn lemma_remove_order_at(s: Seq<Order>, id: u64, j: int)
    requires
        0 <= j < s.len(),
        s[j].id == id,
        forall|k: int| 0 <= k < j ==> s[k].id != id,
    ensures
        orders_contain(s, id),
        remove_order(s, id) == s.take(j) + s.skip(j + 1),
    decreases j,
{
    if j == 0 {
        assert(remove_order(s, id) == s.skip(1));
        assert(s.take(0) + s.skip(1) =~= s.skip(1));
    } else {
        assert(s.skip(1)[j - 1].id == id);
        assert(forall|k: int| 0 <= k < j - 1 ==> s.skip(1)[k] == s[k + 1]);
        lemma_remove_order_at(s.skip(1), id, j - 1);
        assert(seq![s[0]] + (s.skip(1).take(j - 1) + s.skip(1).skip(j)) =~= s.take(j) + s.skip(
            j + 1,
        ));
    }
}

/// What cancelling on one side guarantees: the side stays strictly sorted
/// and well-formed, and its best price never improves (the head level keeps
/// its price, or the old second-best moves up).
pub proof fn lemma_cancel_levels_props(ls: Seq<LevelV>, side: OrderType, id: u64)
    requires
        side_sorted(ls, side),
        levels_wf(ls),
    ensures
        side_sorted(cancel_levels(ls, id), side),
        levels_wf(cancel_levels(ls, id)),
        cancel_levels(ls, id).len() > 0 ==> (cancel_levels(ls, id)[0].price == ls[0].price || (
        ls.len() >= 2 && cancel_levels(ls, id)[0].price == ls[1].price)),
    decreases ls.len(),
{
    let r = cancel_levels(ls, id);
    if ls.len() == 0 {
    } else {
        assert(side_sorted(ls.skip(1), side) && levels_wf(ls.skip(1))) by {
            assert(forall|k: int| 0 <= k < ls.skip(1).len() ==> ls.skip(1)[k] == ls[k + 1]);
        }
        if orders_contain(ls[0].orders, id) {
            lemma_remove_order_wf(ls[0].orders, id);
            if remove_order(ls[0].orders, id).len() == 0 {
            } else {
                assert(r[0] == (LevelV {
                    price: ls[0].price,
                    orders: remove_order(ls[0].orders, id),
                }));
                assert(forall|i: int| 1 <= i < r.len() ==> r[i] == ls[i]);
                assert forall|i: int, j: int| 0 <= i < j < r.len() implies comes_before(
                    side,
                    r[i].price,
                    r[j].price,
                ) by {
                    assert(r[i].price == ls[i].price);
                    assert(r[j].price == ls[j].price);
                    assert(comes_before(side, ls[i].price, ls[j].price));
                }
            }
        } else {
            lemma_cancel_levels_props(ls.skip(1), side, id);
            let rc = cancel_levels(ls.skip(1), id);
            assert(r[0] == ls[0]);
            assert(forall|i: int| 1 <= i < r.len() ==> r[i] == rc[i - 1]);
            if rc.len() > 0 {
                assert(rc[0].price == ls.skip(1)[0].price || (ls.skip(1).len() >= 2 && rc[0].price
                    == ls.skip(1)[1].price));
                assert(comes_before(side, ls[0].price, rc[0].price));
            }
            assert forall|i: int, j: int| 0 <= i < j < r.len() implies comes_before(
                side,
                r[i].price,
                r[j].price,
            ) by {
                if i == 0 {
                    assert(r[j] == rc[j - 1]);
                    if j - 1 > 0 {
                        assert(comes_before(side, rc[0].price, rc[j - 1].price));
                    }
                } else {
                    assert(r[i] == rc[i - 1]);
                    assert(r[j] == rc[j - 1]);
                    assert(comes_before(side, rc[i - 1].price, rc[j - 1].price));
                }
            }
        }
    }
}

/// The index of the first order in `orders` carrying `id`, if any.
fn find_order(orders: &Vec<Order>, id: u64) -> (r: Option<usize>)
    ensures
        r matches Some(j) ==> j < orders@.len() && orders@[j as int].id == id && (forall|k: int|
            0 <= k < j ==> orders@[k].id != id),
        r is None ==> !orders_contain(orders@, id),
{
    let n = orders.len();
    let mut j: usize = 0;
    while j < n
        invariant
            j <= n,
            n == orders@.len(),
            forall|k: int| 0 <= k < j ==> orders@[k].id != id,
        decreases n - j,
    {
        if orders[j].id == id {
            return Some(j);
        }
        j = j + 1;
    }
    None
}

/// Cancelling looks only at the levels from the first one holding `id`
/// onwards: the prefix before it is kept as it is.
proof fn lemma_cancel_levels_at(ls: Seq<LevelV>, id: u64, i: int)
    requires
        0 <= i <= ls.len(),
        forall|j: int| 0 <= j < i ==> !orders_contain((#[trigger] ls[j]).orders, id),
    ensures
        cancel_levels(ls, id) == ls.take(i) + cancel_levels(ls.skip(i), id),
    decreases i,
{
    if i == 0 {
        assert(ls.skip(0) =~= ls);
        assert(ls.take(0) + cancel_levels(ls, id) =~= cancel_levels(ls, id));
    } else {
        assert(forall|j: int| 0 <= j < i - 1 ==> ls.skip(1)[j] == ls[j + 1]);
        lemma_cancel_levels_at(ls.skip(1), id, i - 1);
        assert(ls.skip(1).skip(i - 1) =~= ls.skip(i));
        assert(seq![ls[0]] + (ls.skip(1).take(i - 1) + cancel_levels(ls.skip(i), id)) =~= ls.take(
            i,
        ) + cancel_levels(ls.skip(i), id));
    }
}

/// The first level in `levels` holding `id`, with the first position of
/// `id` inside that level, if any level holds it.
fn find_level_order(levels: &Vec<Limit>, id: u64) -> (r: Option<(usize, usize)>)
    ensures
        r matches Some(p) ==> p.0 < levels@.len() && p.1 < levels@[p.0 as int].orders@.len()
            && levels@[p.0 as int].orders@[p.1 as int].id == id && (forall|k: int|
            0 <= k < p.1 ==> levels@[p.0 as int].orders@[k].id != id) && (forall|j: int|
            0 <= j < p.0 ==> !orders_contain((#[trigger] side_v(levels@)[j]).orders, id)),
        r is None ==> !levels_contain(side_v(levels@), id),
{
    let n = levels.len();
    let mut i: usize = 0;
    while i < n
        invariant
            i <= n,
            n == levels@.len(),
            forall|j: int| 0 <= j < i ==> !orders_contain((#[trigger] side_v(levels@)[j]).orders, id),
        decreases n - i,
    {
        match find_order(&levels[i].orders, id) {
            Some(j) => {
                return Some((i, j));
            },
            None => {
                proof {
                    assert(!orders_contain(side_v(levels@)[i as int].orders, id));
                }
                i = i + 1;
            },
        }
    }
    proof {
        assert(!levels_contain(side_v(levels@), id)) by {
            if levels_contain(side_v(levels@), id) {
                let k = choose|k: int|
                    0 <= k < side_v(levels@).len() && orders_contain(
                        side_v(levels@)[k].orders,
                        id,
                    );
                assert(!orders_contain(side_v(levels@)[k].orders, id));
            }
        }
    }
    None
}

/// Cancels `id` on one side: the first level holding it loses that order,
/// and the level is pruned when it empties. Returns whether `id` was found.
fn cancel_in_side(levels: &mut Vec<Limit>, id: u64) -> (found: bool)
    ensures
        found == levels_contain(side_v(old(levels)@), id),
        found ==> side_v(final(levels)@) == cancel_levels(side_v(old(levels)@), id),
        !found ==> final(levels)@ == old(levels)@,
{
    let ghost old_v = side_v(old(levels)@);
    match find_level_order(levels, id) {
        None => false,
        Some((i, j)) => {
            let ghost lv = old_v[i as int];
            proof {
                lemma_cancel_levels_at(old_v, id, i as int);
                lemma_remove_order_at(lv.orders, id, j as int);
                assert(old_v.skip(i as int)[0] == lv);
                assert(old_v.skip(i as int).skip(1) =~= old_v.skip(i as int + 1));
                assert(levels_contain(old_v, id));
            }
            if levels[i].orders.len() == 1 {
                proof {
                    assert(lv.orders.take(j as int) + lv.orders.skip(j as int + 1)
                        =~= Seq::<Order>::empty());
                    assert(side_v(levels@.remove(i as int)) =~= old_v.take(i as int) + old_v.skip(
                        i as int + 1,
                    ));
                }
                levels.remove(i);
            } else {
                let mut l = levels.remove(i);
                l.orders.remove(j);
                proof {
                    assert(l.orders@ =~= lv.orders.take(j as int) + lv.orders.skip(j as int + 1));
                    assert(remove_order(lv.orders, id).len() > 0);
                }
                levels.insert(i, l);
                proof {
                    assert(side_v(levels@) =~= old_v.take(i as int) + (seq![
                        (LevelV { price: lv.price, orders: remove_order(lv.orders, id) }),
                    ] + old_v.skip(i as int + 1)));
                }
            }
            true
        },
    }
}

impl OrderBook {
    /// Removes the still-resting order carrying `order_id`, pruning its
    /// level if it empties. The bid side is searched first, then the ask
    /// side. Fails with `OrderNotFound`, leaving the book untouched, exactly
    /// when no resting order carries `order_id`.
    pub fn cancel(&mut self, order_id: u64) -> (r: Result<(), EngineError>)
        requires
            old(self).wf(),
        ensures
            levels_contain(old(self).bids_v(), order_id) ==> r == Ok::<(), EngineError>(())
                && final(self).bids_v() == cancel_levels(old(self).bids_v(), order_id)
                && final(self).asks@ == old(self).asks@,
            !levels_contain(old(self).bids_v(), order_id) && levels_contain(
                old(self).asks_v(),
                order_id,
            ) ==> r == Ok::<(), EngineError>(()) && final(self).asks_v() == cancel_levels(
                old(self).asks_v(),
                order_id,
            ) && final(self).bids@ == old(self).bids@,
            !levels_contain(old(self).bids_v(), order_id) && !levels_contain(
                old(self).asks_v(),
                order_id,
            ) ==> r == Err::<(), EngineError>(EngineError::OrderNotFound) && final(self).bids@
                == old(self).bids@ && final(self).asks@ == old(self).asks@,
            final(self).wf(),
    {
        if cancel_in_side(&mut self.bids, order_id) {
            proof {
                lemma_cancel_levels_props(old(self).bids_v(), OrderType::Bid, order_id);
                assert(self.asks_v() =~= old(self).asks_v());
                if self.bids@.len() > 0 && self.asks@.len() > 0 {
                    let nb = self.bids_v()[0].price;
                    if nb != old(self).bids_v()[0].price {
                        assert(old(self).bids@.len() >= 2 && nb == old(self).bids_v()[1].price);
                        assert(comes_before(
                            OrderType::Bid,
                            old(self).bids_v()[0].price,
                            old(self).bids_v()[1].price,
                        ));
                    }
                }
            }
            Ok(())
        } else if cancel_in_side(&mut self.asks, order_id) {
            proof {
                lemma_cancel_levels_props(old(self).asks_v(), OrderType::Ask, order_id);
                assert(self.bids_v() =~= old(self).bids_v());
                if self.bids@.len() > 0 && self.asks@.len() > 0 {
                    let na = self.asks_v()[0].price;
                    if na != old(self).asks_v()[0].price {
                        assert(old(self).asks@.len() >= 2 && na == old(self).asks_v()[1].price);
                        assert(comes_before(
                            OrderType::Ask,
                            old(self).asks_v()[0].price,
                            old(self).asks_v()[1].price,
                        ));
                    }
                }
            }
            Ok(())
        } else {
            Err(EngineError::OrderNotFound)
        }
    }
}

/// `order` reduced to the size still unmatched after a sweep.
pub open spec fn rested_order(order: Order, rem: int) -> Order {
    Order {
        id: order.id,
        order_type: order.order_type,
        original: order.original,
        remaining: rem as u64,
    }
}

/// How `post` and `fills` relate to `pre` when a limit `order` at `price`
/// was placed: the opposite side is swept under the order's price bound, and
/// exactly the unfilled remainder, if any, rests on the order's own side.
pub open spec fn limit_outcome(
    pre: OrderBook,
    post: OrderBook,
    fills: Seq<Fill>,
    price: u64,
    order: Order,
) -> bool {
    match order.order_type {
        OrderType::Bid => {
            let s = sweep_levels(
                pre.asks_v(),
                OrderType::Ask,
                Some(price),
                order.remaining as int,
            );
            &&& post.asks_v() == s.0
            &&& fills == s.1
            &&& s.2 > 0 ==> post.bids_v() == rest_order(
                pre.bids_v(),
                OrderType::Bid,
                price,
                rested_order(order, s.2),
            )
            &&& s.2 == 0 ==> post.bids@ == pre.bids@
        },
        OrderType::Ask => {
            let s = sweep_levels(
                pre.bids_v(),
                OrderType::Bid,
                Some(price),
                order.remaining as int,
            );
            &&& post.bids_v() == s.0
            &&& fills == s.1
            &&& s.2 > 0 ==> post.asks_v() == rest_order(
                pre.asks_v(),
                OrderType::Ask,
                price,
                rested_order(order, s.2),
            )
            &&& s.2 == 0 ==> post.asks@ == pre.asks@
        },
    }
}

/// How `post`, `fills` and the aggressor's remaining size `rem_after`
/// relate to `pre` when a market `order` was filled: the opposite side is
/// swept with no price bound and nothing rests.
pub open spec fn market_outcome(
    pre: OrderBook,
    post: OrderBook,
    fills: Seq<Fill>,
    order: Order,
    rem_after: int,
) -> bool {
    match order.order_type {
        OrderType::Bid => {
            let r = sweep_levels(pre.asks_v(), OrderType::Ask, None, order.remaining as int);
            post.asks_v() == r.0 && fills == r.1 && rem_after == r.2 && post.bids@ == pre.bids@
        },
        OrderType::Ask => {
            let r = sweep_levels(pre.bids_v(), OrderType::Bid, None, order.remaining as int);
            post.bids_v() == r.0 && fills == r.1 && rem_after == r.2 && post.asks@ == pre.asks@
        },
    }
}

/// Whether some resting order of the book carries `id`.
pub open spec fn book_contains_order(b: OrderBook, id: u64) -> bool {
    levels_contain(b.bids_v(), id) || levels_contain(b.asks_v(), id)
}

/// How `post` relates to `pre` when `id` was cancelled: the first side
/// holding it (bids searched first) loses that order, the other side is
/// untouched, and a miss changes nothing.
pub open spec fn cancel_outcome(pre: OrderBook, post: OrderBook, id: u64) -> bool {
    &&& levels_contain(pre.bids_v(), id) ==> post.bids_v() == cancel_levels(pre.bids_v(), id)
        && post.asks@ == pre.asks@
    &&& !levels_contain(pre.bids_v(), id) && levels_contain(pre.asks_v(), id) ==> post.asks_v()
        == cancel_levels(pre.asks_v(), id) && post.bids@ == pre.bids@
    &&& !book_contains_order(pre, id) ==> post.bids@ == pre.bids@ && post.asks@ == pre.asks@
}

/// The resting book never crosses: in a well-formed book with liquidity on
/// both sides, the best ask price is strictly above the best bid price.
/// Every book operation ensures well-formedness, so this holds after every
/// operation.
pub proof fn lemma_no_crossed_book(b: OrderBook)
    requires
        b.wf(),
    ensures
        b.asks@.len() > 0 && b.bids@.len() > 0 ==> b.bids_v()[0].price < b.asks_v()[0].price,
{
}

/// Matching conserves quantity across a whole sweep: the fills account
/// exactly for what left the resting side, and equally for what left the
/// aggressor, so the two sides shrink in lockstep.
pub proof fn lemma_matching_conserves_quantity(
    ls: Seq<LevelV>,
    book_side: OrderType,
    bound: Option<u64>,
    qty: int,
)
    requires
        levels_wf(ls),
        qty >= 0,
    ensures
        levels_volume(sweep_levels(ls, book_side, bound, qty).0) + fills_total(
            sweep_levels(ls, book_side, bound, qty).1,
        ) == levels_volume(ls),
        sweep_levels(ls, book_side, bound, qty).2 + fills_total(
            sweep_levels(ls, book_side, bound, qty).1,
        ) == qty,
{
    lemma_sweep_props(ls, book_side, bound, qty);
}

/// FIFO fairness within a level: an aggressor that does not exhaust the
/// first resting order's size consumes only from it and leaves every later
/// order untouched; and whenever a second order is touched at all, the first
/// fill consumed the first order entirely.
pub proof fn lemma_fifo_fairness(s: Seq<Order>, qty: int)
    requires
        level_orders_wf(s),
        0 < qty,
    ensures
        s.len() > 0 && qty < s[0].remaining ==> match_orders(s, qty).1 == seq![
            (Fill { order_id: s[0].id, quantity: qty as u64 }),
        ] && match_orders(s, qty).0.skip(1) == s.skip(1),
        s.len() > 0 && qty == s[0].remaining ==> match_orders(s, qty).1 == seq![
            (Fill { order_id: s[0].id, quantity: qty as u64 }),
        ] && match_orders(s, qty).0 == s.skip(1),
        match_orders(s, qty).1.len() >= 2 ==> match_orders(s, qty).1[0] == (Fill {
            order_id: s[0].id,
            quantity: s[0].remaining,
        }),
{
    if s.len() > 0 {
        let f = Fill { order_id: s[0].id, quantity: s[0].remaining };
        if qty < s[0].remaining {
            let reduced = Order {
                id: s[0].id,
                order_type: s[0].order_type,
                original: s[0].original,
                remaining: (s[0].remaining - qty) as u64,
            };
            assert((seq![reduced] + s.skip(1)).skip(1) =~= s.skip(1));
        } else if qty == s[0].remaining {
            assert(match_orders(s.skip(1), 0).0 == s.skip(1));
            assert(seq![f] + Seq::<Fill>::empty() =~= seq![f]);
        } else {
            let rest = match_orders(s.skip(1), qty - s[0].remaining);
            assert((seq![f] + rest.1)[0] == f);
        }
    }
}

/// Level pruning: after a sweep no emptied order and no emptied level
/// survives — every level left holds only orders with remaining size above
/// zero, and holds at least one of them.
pub proof fn lemma_level_pruning(ls: Seq<LevelV>, book_side: OrderType, bound: Option<u64>, qty: int)
    requires
        levels_wf(ls),
        qty >= 0,
    ensures
        forall|i: int|
            0 <= i < sweep_levels(ls, book_side, bound, qty).0.len() ==> (
            #[trigger] sweep_levels(ls, book_side, bound, qty).0[i]).orders.len() > 0,
        forall|i: int, k: int|
            0 <= i < sweep_levels(ls, book_side, bound, qty).0.len() && 0 <= k < sweep_levels(
                ls,
                book_side,
                bound,
                qty,
            ).0[i].orders.len() ==> (#[trigger] sweep_levels(
                ls,
                book_side,
                bound,
                qty,
            ).0[i].orders[k]).remaining > 0,
{
    lemma_sweep_props(ls, book_side, bound, qty);
}

/// The crossing rule: a limit order whose price does not cross the opposite
/// side's best level sweeps nothing and keeps its full size to rest, while a
/// crossing one always produces fills, the first of them against the head
/// order of the opposite side's best level.
pub proof fn lemma_crossing_rule(ls: Seq<LevelV>, book_side: OrderType, p: u64, qty: int)
    requires
        levels_wf(ls),
        qty > 0,
    ensures
        ls.len() == 0 || !crossed_by(book_side, ls[0].price, Some(p)) ==> sweep_levels(
            ls,
            book_side,
            Some(p),
            qty,
        ) == (ls, Seq::<Fill>::empty(), qty),
        ls.len() > 0 && crossed_by(book_side, ls[0].price, Some(p)) ==> sweep_levels(
            ls,
            book_side,
            Some(p),
            qty,
        ).1.len() > 0 && sweep_levels(ls, book_side, Some(p), qty).1[0].order_id
            == ls[0].orders[0].id,
{
    if ls.len() > 0 && crossed_by(book_side, ls[0].price, Some(p)) {
        let m = match_orders(ls[0].orders, qty);
        assert(ls[0].orders.len() > 0 && level_orders_wf(ls[0].orders));
        assert(m.1.len() > 0 && m.1[0].order_id == ls[0].orders[0].id);
        if m.0.len() == 0 {
            let rest = sweep_levels(ls.skip(1), book_side, Some(p), m.2);
            assert((m.1 + rest.1)[0] == m.1[0]);
        }
    }
}

/// The scaled-unit image of an optional price bound.
pub open spec fn bound_v(b: Option<Price>) -> Option<u64> {
    match b {
        Option::None => Option::None,
        Option::Some(p) => Option::Some(p.units),
    }
}

} // verus!
