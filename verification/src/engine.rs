use vstd::prelude::*;
use vstd::string::StringExecFns;

use crate::errors::EngineError;
use crate::orderbook::{
    book_contains_order, cancel_outcome, limit_outcome, market_outcome, Fill, Order, OrderBook,
};
use crate::price::Price;

verus! {

/// The base/quote instrument identifier for one order book, compared and
/// hashed as a value.
#[derive(Debug, Hash, PartialEq, Eq)]
pub struct TradingPair {
    pub base: String,
    pub quote: String,
}

/// The value a trading pair is identified by: its two symbol strings.
pub open spec fn pair_key(p: TradingPair) -> (Seq<char>, Seq<char>) {
    (p.base@, p.quote@)
}

impl Clone for TradingPair {
    /// A clone identifies the same market.
    fn clone(&self) -> (r: Self)
        ensures
            pair_key(r) == pair_key(*self),
    {
        TradingPair { base: self.base.clone(), quote: self.quote.clone() }
    }
}

impl TradingPair {
    pub fn new(base: String, quote: String) -> (p: TradingPair)
        ensures
            p.base@ == base@,
            p.quote@ == quote@,
    {
        TradingPair { base, quote }
    }

    /// The canonical string form `{base}_{quote}` used by hosts for
    /// identification and logging.
    pub fn to_string(&self) -> (s: String)
        ensures
            s@ == self.base@ + "_"@ + self.quote@,
    {
        let mut s = self.base.clone();
        s.append("_");
        s.append(self.quote.as_str());
        s
    }
}

/// A registry mapping each trading pair to its order book. Operations on an
/// unregistered pair fail rather than silently creating a book.
pub struct MatchingEngine {
    pub orderbooks: Vec<(TradingPair, OrderBook)>,
}

impl MatchingEngine {
    /// No two entries identify the same market.
    pub open spec fn keys_unique(self) -> bool {
        forall|i: int, j: int|
            0 <= i < j < self.orderbooks@.len() ==> pair_key(self.orderbooks@[i].0) != pair_key(
                self.orderbooks@[j].0,
            )
    }

    /// The engine's invariant: unique markets, each with a well-formed book.
    pub open spec fn wf(self) -> bool {
        &&& self.keys_unique()
        &&& forall|i: int|
            0 <= i < self.orderbooks@.len() ==> (#[trigger] self.orderbooks@[i]).1.wf()
    }

    /// Whether a book is registered under `k`.
    pub open spec fn has_market(self, k: (Seq<char>, Seq<char>)) -> bool {
        exists|i: int|
            0 <= i < self.orderbooks@.len() && pair_key(self.orderbooks@[i].0) == k
    }

    /// The index of the book registered under `k`.
    pub open spec fn market_index(self, k: (Seq<char>, Seq<char>)) -> int {
        choose|i: int|
            0 <= i < self.orderbooks@.len() && pair_key(self.orderbooks@[i].0) == k
    }

    /// An engine with no market registered.
    pub fn new() -> (e: MatchingEngine)
        ensures
            e.orderbooks@.len() == 0,
            e.wf(),
    {
        MatchingEngine { orderbooks: Vec::new() }
    }

    /// The index of the entry registered under `pair`, if one exists.
    fn find_market(&self, pair: &TradingPair) -> (r: Option<usize>)
        ensures
            r matches Some(i) ==> i < self.orderbooks@.len() && pair_key(
                self.orderbooks@[i as int].0,
            ) == pair_key(*pair),
            r is None ==> !self.has_market(pair_key(*pair)),
    {
        let n = self.orderbooks.len();
        let mut i: usize = 0;
        while i < n
            invariant
                i <= n,
                n == self.orderbooks@.len(),
                forall|j: int|
                    0 <= j < i ==> pair_key((#[trigger] self.orderbooks@[j]).0) != pair_key(*pair),
            decreases n - i,
        {
            if self.orderbooks[i].0.base == pair.base && self.orderbooks[i].0.quote == pair.quote {
                return Some(i);
            }
            i = i + 1;
        }
        proof {
            assert(!self.has_market(pair_key(*pair))) by {
                if self.has_market(pair_key(*pair)) {
                    let k = choose|k: int|
                        0 <= k < self.orderbooks@.len() && pair_key(self.orderbooks@[k].0)
                            == pair_key(*pair);
                    assert(pair_key(self.orderbooks@[k].0) != pair_key(*pair));
                }
            }
        }
        None
    }

    /// Registers an empty book for `pair`. Fails with `MarketAlreadyExists`,
    /// changing nothing, exactly when `pair` is already registered.
    pub fn new_market(&mut self, pair: &TradingPair) -> (r: Result<(), EngineError>)
        requires
            old(self).wf(),
        ensures
            old(self).has_market(pair_key(*pair)) ==> r == Err::<(), EngineError>(
                EngineError::MarketAlreadyExists,
            ) && final(self).orderbooks@ == old(self).orderbooks@,
            !old(self).has_market(pair_key(*pair)) ==> ({
                let n = old(self).orderbooks@.len() as int;
                &&& r == Ok::<(), EngineError>(())
                &&& final(self).orderbooks@.len() == n + 1
                &&& final(self).orderbooks@.take(n) == old(self).orderbooks@
                &&& pair_key(final(self).orderbooks@[n].0) == pair_key(*pair)
                &&& final(self).orderbooks@[n].1.asks@.len() == 0
                &&& final(self).orderbooks@[n].1.bids@.len() == 0
            }),
            final(self).wf(),
    {
        match self.find_market(pair) {
            Some(_) => Err(EngineError::MarketAlreadyExists),
            None => {
                let book = OrderBook::new();
                self.orderbooks.push((pair.clone(), book));
                proof {
                    let n = old(self).orderbooks@.len() as int;
                    assert(self.orderbooks@.take(n) =~= old(self).orderbooks@);
                    assert(forall|j: int|
                        0 <= j < n ==> self.orderbooks@[j] == old(self).orderbooks@[j]);
                }
                Ok(())
            },
        }
    }

    /// Places a limit order on the book registered under `pair`, forwarding
    /// to that book's `add_limit_order`. Fails with `MarketNotFound`,
    /// changing nothing, exactly when `pair` is unregistered, and with
    /// `InvalidSize` for a zero-size order; no market is ever created
    /// silently.
    pub fn place_limit_order(&mut self, pair: &TradingPair, price: Price, order: Order) -> (r:
        Result<Vec<Fill>, EngineError>)
        requires
            old(self).wf(),
            order.size_wf(),
        ensures
            !old(self).has_market(pair_key(*pair)) ==> r == Err::<Vec<Fill>, EngineError>(
                EngineError::MarketNotFound,
            ) && final(self).orderbooks@ == old(self).orderbooks@,
            old(self).has_market(pair_key(*pair)) && order.remaining == 0 ==> r == Err::<
                Vec<Fill>,
                EngineError,
            >(EngineError::InvalidSize) && final(self).orderbooks@ == old(self).orderbooks@,
            old(self).has_market(pair_key(*pair)) && order.remaining > 0 ==> ({
                let i = old(self).market_index(pair_key(*pair));
                &&& r matches Ok(fills) && limit_outcome(
                    old(self).orderbooks@[i].1,
                    final(self).orderbooks@[i].1,
                    fills@,
                    price.units,
                    order,
                )
                &&& final(self).orderbooks@.len() == old(self).orderbooks@.len()
                &&& forall|j: int|
                    0 <= j < old(self).orderbooks@.len() && j != i
                        ==> final(self).orderbooks@[j] == old(self).orderbooks@[j]
                &&& final(self).orderbooks@[i].0 == old(self).orderbooks@[i].0
            }),
            final(self).wf(),
    {
        match self.find_market(pair) {
            None => Err(EngineError::MarketNotFound),
            Some(i) => {
                if order.remaining == 0 {
                    return Err(EngineError::InvalidSize);
                }
                proof {
                    self.lemma_index_of_key(i as int);
                }
                let (tp, mut book) = self.orderbooks.remove(i);
                let res = book.add_limit_order(price, order);
                self.orderbooks.insert(i, (tp, book));
                proof {
                    assert(self.orderbooks@ =~= old(self).orderbooks@.update(
                        i as int,
                        (tp, book),
                    ));
                    assert(forall|j: int|
                        0 <= j < old(self).orderbooks@.len() && j != i
                            ==> self.orderbooks@[j] == old(self).orderbooks@[j]);
                }
                match res {
                    Ok(fills) => Ok(fills),
                    Err(e) => Err(e),
                }
            },
        }
    }

    /// Fills a market order against the book registered under `pair`,
    /// forwarding to that book's `fill_market_order`. A remainder left when
    /// the opposite side is exhausted is not an error: the caller observes
    /// it on `order`.
    pub fn place_market_order(&mut self, pair: &TradingPair, order: &mut Order) -> (r: Result<
        Vec<Fill>,
        EngineError,
    >)
        requires
            old(self).wf(),
            old(order).size_wf(),
        ensures
            !old(self).has_market(pair_key(*pair)) ==> r == Err::<Vec<Fill>, EngineError>(
                EngineError::MarketNotFound,
            ) && final(self).orderbooks@ == old(self).orderbooks@ && *final(order) == *old(order),
            old(self).has_market(pair_key(*pair)) && old(order).remaining == 0 ==> r == Err::<
                Vec<Fill>,
                EngineError,
            >(EngineError::InvalidSize) && final(self).orderbooks@ == old(self).orderbooks@
                && *final(order) == *old(order),
            old(self).has_market(pair_key(*pair)) && old(order).remaining > 0 ==> ({
                let i = old(self).market_index(pair_key(*pair));
                &&& r matches Ok(fills) && market_outcome(
                    old(self).orderbooks@[i].1,
                    final(self).orderbooks@[i].1,
                    fills@,
                    *old(order),
                    final(order).remaining as int,
                )
                &&& final(self).orderbooks@.len() == old(self).orderbooks@.len()
                &&& forall|j: int|
                    0 <= j < old(self).orderbooks@.len() && j != i
                        ==> final(self).orderbooks@[j] == old(self).orderbooks@[j]
                &&& final(self).orderbooks@[i].0 == old(self).orderbooks@[i].0
                &&& final(order).id == old(order).id && final(order).order_type == old(
                    order,
                ).order_type && final(order).original == old(order).original
            }),
            final(self).wf(),
    {
        match self.find_market(pair) {
            None => Err(EngineError::MarketNotFound),
            Some(i) => {
                if order.remaining == 0 {
                    return Err(EngineError::InvalidSize);
                }
                proof {
                    self.lemma_index_of_key(i as int);
                }
                let (tp, mut book) = self.orderbooks.remove(i);
                let fills = book.fill_market_order(order);
                self.orderbooks.insert(i, (tp, book));
                proof {
                    assert(self.orderbooks@ =~= old(self).orderbooks@.update(
                        i as int,
                        (tp, book),
                    ));
                    assert(forall|j: int|
                        0 <= j < old(self).orderbooks@.len() && j != i
                            ==> self.orderbooks@[j] == old(self).orderbooks@[j]);
                }
                Ok(fills)
            },
        }
    }

    /// Cancels the resting order carrying `order_id` on the book registered
    /// under `pair`. Fails with `MarketNotFound` when `pair` is
    /// unregistered, and with `OrderNotFound`, changing nothing, when no
    /// resting order of that book carries `order_id`.
    pub fn cancel_order(&mut self, pair: &TradingPair, order_id: u64) -> (r: Result<
        (),
        EngineError,
    >)
        requires
            old(self).wf(),
        ensures
            !old(self).has_market(pair_key(*pair)) ==> r == Err::<(), EngineError>(
                EngineError::MarketNotFound,
            ) && final(self).orderbooks@ == old(self).orderbooks@,
            old(self).has_market(pair_key(*pair)) ==> ({
                let i = old(self).market_index(pair_key(*pair));
                &&& book_contains_order(old(self).orderbooks@[i].1, order_id) ==> r == Ok::<
                    (),
                    EngineError,
                >(())
                &&& !book_contains_order(old(self).orderbooks@[i].1, order_id) ==> r == Err::<
                    (),
                    EngineError,
                >(EngineError::OrderNotFound)
                &&& cancel_outcome(
                    old(self).orderbooks@[i].1,
                    final(self).orderbooks@[i].1,
                    order_id,
                )
                &&& final(self).orderbooks@.len() == old(self).orderbooks@.len()
                &&& forall|j: int|
                    0 <= j < old(self).orderbooks@.len() && j != i
                        ==> final(self).orderbooks@[j] == old(self).orderbooks@[j]
                &&& final(self).orderbooks@[i].0 == old(self).orderbooks@[i].0
            }),
            final(self).wf(),
    {
        match self.find_market(pair) {
            None => Err(EngineError::MarketNotFound),
            Some(i) => {
                proof {
                    self.lemma_index_of_key(i as int);
                }
                let (tp, mut book) = self.orderbooks.remove(i);
                let res = book.cancel(order_id);
                self.orderbooks.insert(i, (tp, book));
                proof {
                    assert(self.orderbooks@ =~= old(self).orderbooks@.update(
                        i as int,
                        (tp, book),
                    ));
                    assert(forall|j: int|
                        0 <= j < old(self).orderbooks@.len() && j != i
                            ==> self.orderbooks@[j] == old(self).orderbooks@[j]);
                }
                res
            },
        }
    }

    /// In a well-formed engine the entry at `i` is the one its key looks up.
    proof fn lemma_index_of_key(self, i: int)
        requires
            self.wf(),
            0 <= i < self.orderbooks@.len(),
        ensures
            self.has_market(pair_key(self.orderbooks@[i].0)),
            self.market_index(pair_key(self.orderbooks@[i].0)) == i,
    {
        let k = pair_key(self.orderbooks@[i].0);
        assert(self.has_market(k));
        let j = self.market_index(k);
        assert(0 <= j < self.orderbooks@.len() && pair_key(self.orderbooks@[j].0) == k);
        if i < j {
            assert(pair_key(self.orderbooks@[i].0) != pair_key(self.orderbooks@[j].0));
        } else if j < i {
            assert(pair_key(self.orderbooks@[j].0) != pair_key(self.orderbooks@[i].0));
        }
    }
}

} // verus!
