//! The rolling window of one symbol over one horizon: the trades of the last
//! `time_limit_mil` milliseconds, their running sums and a trie of their prices.
use std::collections::VecDeque;
use vstd::prelude::*;

use crate::fenwick_tree::FenwickTree;
use crate::finnhub_data_row::FinnhubDataRow;

verus! {

/// One trade as the window keeps it.
#[derive(Clone, Copy, Debug, PartialEq, Eq, Structural)]
pub struct StockDataPoint {
    pub timestamp: i64,
    pub price: i64,
    pub volume_moved: i64,
}

/// Sum of the volumes of `w`.
pub open spec fn volume_sum(w: Seq<StockDataPoint>) -> int
    decreases w.len(),
{
    if w.len() == 0 {
        0
    } else {
        w[0].volume_moved + volume_sum(w.drop_first())
    }
}

/// Sum of price times volume over `w`.
pub open spec fn notional_sum(w: Seq<StockDataPoint>) -> int
    decreases w.len(),
{
    if w.len() == 0 {
        0
    } else {
        w[0].price * w[0].volume_moved + notional_sum(w.drop_first())
    }
}

/// Sum of the prices of `w`.
pub open spec fn price_sum(w: Seq<StockDataPoint>) -> int
    decreases w.len(),
{
    if w.len() == 0 {
        0
    } else {
        w[0].price + price_sum(w.drop_first())
    }
}

/// Sum of the volumes of the trades of `w` whose price, as a trie key, is `k`.
pub open spec fn price_volume(w: Seq<StockDataPoint>, k: u64) -> int
    decreases w.len(),
{
    if w.len() == 0 {
        0
    } else {
        (if w[0].price as u64 == k {
            w[0].volume_moved as int
        } else {
            0
        }) + price_volume(w.drop_first(), k)
    }
}

/// A trade is expired once the latest time seen is more than `limit` ms past it.
pub open spec fn expired(p: StockDataPoint, last: int, limit: int) -> bool {
    last - p.timestamp > limit
}

/// `w` after dropping expired trades from its front, up to the first one that is not.
pub open spec fn evicted(w: Seq<StockDataPoint>, last: int, limit: int) -> Seq<StockDataPoint>
    decreases w.len(),
{
    if w.len() > 0 && expired(w[0], last, limit) {
        evicted(w.drop_first(), last, limit)
    } else {
        w
    }
}

/// The trades of `w` that are not expired, in their order.
pub open spec fn kept(w: Seq<StockDataPoint>, last: int, limit: int) -> Seq<StockDataPoint>
    decreases w.len(),
{
    if w.len() == 0 {
        w
    } else if expired(w[0], last, limit) {
        kept(w.drop_first(), last, limit)
    } else {
        seq![w[0]] + kept(w.drop_first(), last, limit)
    }
}

/// Window and latest time after one more trade: the latest time moves forward to the
/// trade's time if that is later, expired trades leave the front, the trade joins the back.
pub open spec fn after_trade(w: Seq<StockDataPoint>, last: int, limit: int, p: StockDataPoint) -> (
    Seq<StockDataPoint>,
    int,
) {
    let next = if p.timestamp > last {
        p.timestamp as int
    } else {
        last
    };
    (evicted(w, next, limit).push(p), next)
}

/// Window and latest time of a fresh window after the trades `ps`, in order.
pub open spec fn feed(limit: int, ps: Seq<StockDataPoint>) -> (Seq<StockDataPoint>, int)
    decreases ps.len(),
{
    if ps.len() == 0 {
        (Seq::empty(), 0)
    } else {
        let before = feed(limit, ps.drop_last());
        after_trade(before.0, before.1, limit, ps.last())
    }
}

/// The point that the window keeps for a trade record.
pub open spec fn point_of(data: &FinnhubDataRow) -> StockDataPoint {
    StockDataPoint { timestamp: data.t, price: data.p, volume_moved: data.v }
}

proof fn lemma_sums_push(w: Seq<StockDataPoint>, p: StockDataPoint)
    ensures
        volume_sum(w.push(p)) == volume_sum(w) + p.volume_moved,
        notional_sum(w.push(p)) == notional_sum(w) + p.price * p.volume_moved,
        price_sum(w.push(p)) == price_sum(w) + p.price,
        forall|k: u64|
            #[trigger] price_volume(w.push(p), k) == price_volume(w, k) + if p.price as u64 == k {
                p.volume_moved as int
            } else {
                0
            },
    decreases w.len(),
{
    let e = Seq::<StockDataPoint>::empty();
    assert(volume_sum(e) == 0 && notional_sum(e) == 0 && price_sum(e) == 0);
    if w.len() == 0 {
        assert(w.push(p).drop_first() =~= e);
        assert forall|k: u64| #[trigger]
            price_volume(w.push(p), k) == price_volume(w, k) + if p.price as u64 == k {
                p.volume_moved as int
            } else {
                0
            } by {
            assert(price_volume(e, k) == 0);
        }
    } else {
        lemma_sums_push(w.drop_first(), p);
        assert(w.push(p).drop_first() =~= w.drop_first().push(p));
        assert(w.push(p)[0] == w[0]);
        assert forall|k: u64| #[trigger]
            price_volume(w.push(p), k) == price_volume(w, k) + if p.price as u64 == k {
                p.volume_moved as int
            } else {
                0
            } by {
            assert(price_volume(w.drop_first().push(p), k) == price_volume(w.drop_first(), k) + if p.price
                as u64 == k {
                p.volume_moved as int
            } else {
                0
            });
        }
    }
}

/// Sums over trades whose price and volume are not negative are not negative either,
/// and each covers its first trade.
proof fn lemma_sums_bounds(w: Seq<StockDataPoint>)
    requires
        forall|i: int| 0 <= i < w.len() ==> w[i].price >= 0 && w[i].volume_moved >= 0,
    ensures
        volume_sum(w) >= 0,
        notional_sum(w) >= 0,
        price_sum(w) >= 0,
        w.len() > 0 ==> price_sum(w) >= w[0].price,
        forall|k: u64| #[trigger] price_volume(w, k) >= 0,
        w.len() > 0 ==> notional_sum(w) >= w[0].price * w[0].volume_moved,
        w.len() > 0 ==> volume_sum(w) >= w[0].volume_moved,
        w.len() > 0 ==> price_volume(w, w[0].price as u64) >= w[0].volume_moved,
    decreases w.len(),
{
    if w.len() > 0 {
        lemma_sums_bounds(w.drop_first());
        assert(w[0].price * w[0].volume_moved >= 0) by (nonlinear_arith)
            requires
                w[0].price >= 0,
                w[0].volume_moved >= 0,
        ;
        assert forall|k: u64| #[trigger] price_volume(w, k) >= 0 by {
            assert(price_volume(w.drop_first(), k) >= 0);
        }
        assert(price_volume(w.drop_first(), w[0].price as u64) >= 0);
    }
}

/// `m` is the lowest price at which a trade of `w` moved volume.
pub open spec fn is_min_price(w: Seq<StockDataPoint>, m: i64) -> bool {
    &&& exists|i: int| 0 <= i < w.len() && #[trigger] w[i].price == m && w[i].volume_moved > 0
    &&& forall|i: int| 0 <= i < w.len() && #[trigger] w[i].volume_moved > 0 ==> m <= w[i].price
}

/// `m` is the highest price at which a trade of `w` moved volume.
pub open spec fn is_max_price(w: Seq<StockDataPoint>, m: i64) -> bool {
    &&& exists|i: int| 0 <= i < w.len() && #[trigger] w[i].price == m && w[i].volume_moved > 0
    &&& forall|i: int| 0 <= i < w.len() && #[trigger] w[i].volume_moved > 0 ==> m >= w[i].price
}

/// The rank that the `pct`-th percentile of `volume` units stands at, counted from zero:
/// `volume * pct / 100`, but the last unit for 100.
pub open spec fn percentile_rank(volume: int, pct: int) -> int {
    if volume * pct / 100 >= volume {
        volume - 1
    } else {
        volume * pct / 100
    }
}

/// Trades in time order.
pub open spec fn sorted_by_time(ps: Seq<StockDataPoint>) -> bool {
    forall|i: int, j: int| 0 <= i <= j < ps.len() ==> ps[i].timestamp <= ps[j].timestamp
}

/// A price moved volume exactly when some trade at that price has a positive volume.
proof fn lemma_price_volume_positive(w: Seq<StockDataPoint>, k: u64)
    requires
        forall|i: int| 0 <= i < w.len() ==> w[i].price >= 0 && w[i].volume_moved >= 0,
    ensures
        price_volume(w, k) > 0 <==> exists|i: int|
            0 <= i < w.len() && #[trigger] w[i].price as u64 == k && w[i].volume_moved > 0,
    decreases w.len(),
{
    if w.len() > 0 {
        lemma_sums_bounds(w.drop_first());
        lemma_price_volume_positive(w.drop_first(), k);
        if exists|i: int| 0 <= i < w.len() && #[trigger] w[i].price as u64 == k && w[i].volume_moved > 0 {
            let i = choose|i: int| 0 <= i < w.len() && #[trigger] w[i].price as u64 == k && w[i].volume_moved > 0;
            if i > 0 {
                assert(w.drop_first()[i - 1] == w[i]);
            }
        }
        if exists|i: int|
            0 <= i < w.drop_first().len() && #[trigger] w.drop_first()[i].price as u64 == k
                && w.drop_first()[i].volume_moved > 0 {
            let i = choose|i: int|
                0 <= i < w.drop_first().len() && #[trigger] w.drop_first()[i].price as u64 == k
                    && w.drop_first()[i].volume_moved > 0;
            assert(w[i + 1] == w.drop_first()[i]);
        }
    }
}

/// For keys that come from non-negative prices, the key order is the price order.
proof fn lemma_key_order(a: i64, b: i64)
    ensures
        a >= 0 ==> a as u64 as int == a as int,
        (a as u64) < 0x8000_0000_0000_0000u64 ==> a >= 0,
        a as u64 == b as u64 ==> a == b,
{
    assert(a >= 0 ==> a as u64 as int == a as int) by (bit_vector);
    assert((a as u64) < 0x8000_0000_0000_0000u64 ==> a >= 0) by (bit_vector);
    assert(a as u64 == b as u64 ==> a == b) by (bit_vector);
}

/// The smallest and largest keys of a window's trie are its lowest and highest prices.
proof fn lemma_extremes(w: Seq<StockDataPoint>, t: FenwickTree, lo: i64, hi: i64)
    requires
        forall|i: int| 0 <= i < w.len() ==> #[trigger] w[i].price >= 0 && w[i].volume_moved >= 0,
        forall|k: u64| #[trigger] t.count(k) == price_volume(w, k),
        t.is_min_key(lo as u64),
        t.is_max_key(hi as u64),
    ensures
        is_min_price(w, lo),
        is_max_price(w, hi),
{
    lemma_price_volume_positive(w, lo as u64);
    lemma_price_volume_positive(w, hi as u64);
    let a = choose|i: int| 0 <= i < w.len() && #[trigger] w[i].price as u64 == lo as u64 && w[i].volume_moved > 0;
    let b = choose|i: int| 0 <= i < w.len() && #[trigger] w[i].price as u64 == hi as u64 && w[i].volume_moved > 0;
    lemma_key_order(w[a].price, lo);
    lemma_key_order(w[b].price, hi);
    assert(w[a].price == lo);
    assert(w[b].price == hi);
    assert forall|i: int| 0 <= i < w.len() && #[trigger] w[i].volume_moved > 0 implies lo <= w[i].price
        && hi >= w[i].price by {
        lemma_price_volume_positive(w, w[i].price as u64);
        lemma_key_order(w[i].price, lo);
        lemma_key_order(lo, hi);
        lemma_key_order(hi, lo);
        lemma_key_order(w[a].price, w[i].price);
        lemma_key_order(w[b].price, w[i].price);
        assert(t.count(w[i].price as u64) > 0);
    }
}

proof fn lemma_kept_all(w: Seq<StockDataPoint>, last: int, limit: int)
    requires
        forall|i: int| 0 <= i < w.len() ==> !expired(#[trigger] w[i], last, limit),
    ensures
        kept(w, last, limit) == w,
    decreases w.len(),
{
    if w.len() > 0 {
        assert(!expired(w[0], last, limit));
        assert forall|i: int| 0 <= i < w.drop_first().len() implies !expired(
            #[trigger] w.drop_first()[i],
            last,
            limit,
        ) by {
            assert(w.drop_first()[i] == w[i + 1]);
        }
        lemma_kept_all(w.drop_first(), last, limit);
        assert(seq![w[0]] + w.drop_first() =~= w);
    }
}

proof fn lemma_evict_kept(w: Seq<StockDataPoint>, l1: int, l2: int, limit: int)
    requires
        sorted_by_time(w),
        l1 <= l2,
    ensures
        evicted(kept(w, l1, limit), l2, limit) == kept(w, l2, limit),
    decreases w.len(),
{
    if w.len() > 0 {
        let rest = w.drop_first();
        assert(sorted_by_time(rest)) by {
            assert forall|i: int, j: int| 0 <= i <= j < rest.len() implies rest[i].timestamp
                <= rest[j].timestamp by {
                assert(rest[i] == w[i + 1] && rest[j] == w[j + 1]);
            }
        }
        lemma_evict_kept(rest, l1, l2, limit);
        if !expired(w[0], l1, limit) {
            let k = kept(rest, l1, limit);
            let s = seq![w[0]] + k;
            assert(s[0] == w[0]);
            assert(s.drop_first() =~= k);
            if !expired(w[0], l2, limit) {
                assert forall|i: int| 0 <= i < rest.len() implies !expired(#[trigger] rest[i], l1, limit)
                    && !expired(rest[i], l2, limit) by {
                    assert(rest[i] == w[i + 1]);
                }
                lemma_kept_all(rest, l1, limit);
                lemma_kept_all(rest, l2, limit);
            }
        }
    }
}

proof fn lemma_kept_push(w: Seq<StockDataPoint>, x: StockDataPoint, last: int, limit: int)
    requires
        !expired(x, last, limit),
    ensures
        kept(w.push(x), last, limit) == kept(w, last, limit).push(x),
    decreases w.len(),
{
    if w.len() == 0 {
        let e = Seq::<StockDataPoint>::empty();
        assert(w.push(x).drop_first() =~= e);
        assert(kept(e, last, limit) == e);
        assert(seq![x] + e =~= e.push(x));
        assert(w =~= e);
    } else {
        lemma_kept_push(w.drop_first(), x, last, limit);
        assert(w.push(x).drop_first() =~= w.drop_first().push(x));
        assert(w.push(x)[0] == w[0]);
        let k = kept(w.drop_first(), last, limit);
        assert(seq![w[0]] + k.push(x) =~= (seq![w[0]] + k).push(x));
    }
}

/// When trades arrive in time order (with times from zero on) and the retention `limit`
/// is not negative, the window holds, after each trade, exactly the trades seen so far
/// that are at most `limit` ms older than the latest one, in arrival order; so its
/// total volume is the volume of exactly those trades.
pub proof fn lemma_window_exact(limit: i64, trades: Seq<StockDataPoint>)
    requires
        limit >= 0,
        sorted_by_time(trades),
        forall|i: int| 0 <= i < trades.len() ==> #[trigger] trades[i].timestamp >= 0,
    ensures
        feed(limit as int, trades).1 == if trades.len() == 0 {
            0
        } else {
            trades.last().timestamp as int
        },
        feed(limit as int, trades).0 == kept(trades, feed(limit as int, trades).1, limit as int),
        volume_sum(feed(limit as int, trades).0) == volume_sum(
            kept(trades, feed(limit as int, trades).1, limit as int),
        ),
    decreases trades.len(),
{
    if trades.len() > 0 {
        let prev = trades.drop_last();
        let p = trades.last();
        assert(sorted_by_time(prev)) by {
            assert forall|i: int, j: int| 0 <= i <= j < prev.len() implies prev[i].timestamp
                <= prev[j].timestamp by {
                assert(prev[i] == trades[i] && prev[j] == trades[j]);
            }
        }
        assert forall|i: int| 0 <= i < prev.len() implies #[trigger] prev[i].timestamp >= 0 by {
            assert(prev[i] == trades[i]);
        }
        lemma_window_exact(limit, prev);
        let before = feed(limit as int, prev);
        assert(before.1 <= p.timestamp) by {
            assert(trades[trades.len() - 1] == p);
            if prev.len() > 0 {
                assert(prev.last() == trades[prev.len() - 1]);
            }
        }
        let next = p.timestamp as int;
        lemma_evict_kept(prev, before.1, next, limit as int);
        lemma_kept_push(prev, p, next, limit as int);
        assert(prev.push(p) =~= trades);
    }
}

/// Rolling statistics over the trades of the last `time_limit_mil` milliseconds,
/// counted back from the latest trade time seen.
pub struct StockInformation {
    trades: VecDeque<StockDataPoint>,
    fenwick_tree: FenwickTree,
    total_price: i64,
    total_prices: i64,
    total_trades: i64,
    total_volume: i64,
    last_timestamp: i64,
    time_limit_mil: i64,
}

/// What a window reports: `None` where there is no data to average or to order.
#[derive(Clone, Copy, Debug, PartialEq, Eq)]
pub struct WindowSummary {
    pub timestamp: i64,
    /// Volume-weighted average price, rounded down.
    pub avg_price: Option<i64>,
    /// Average price per trade, rounded down.
    pub avg_trade_price: Option<i64>,
    pub min_price: Option<i64>,
    pub max_price: Option<i64>,
    pub volume_moved: i64,
    pub num_of_trades: i64,
}

impl StockInformation {
    /// `r` reports this window: its latest time, volume and trade count, and, where it
    /// holds volume, the rounded-down volume-weighted average price and the lowest and
    /// highest prices that moved volume; with no volume those three are `None`.
    pub open spec fn summarizes(&self, r: WindowSummary) -> bool {
        &&& r.timestamp == self.last_time()
        &&& r.volume_moved == volume_sum(self.window())
        &&& r.num_of_trades == self.window().len()
        &&& r.avg_trade_price == if self.window().len() == 0 {
            None
        } else {
            Some((price_sum(self.window()) / (self.window().len() as int)) as i64)
        }
        &&& volume_sum(self.window()) == 0 ==> r.avg_price is None && r.min_price is None
            && r.max_price is None
        &&& volume_sum(self.window()) > 0 ==> {
            &&& r.avg_price == Some((notional_sum(self.window()) / volume_sum(self.window())) as i64)
            &&& r.min_price is Some && is_min_price(self.window(), r.min_price.unwrap())
            &&& r.max_price is Some && is_max_price(self.window(), r.max_price.unwrap())
        }
    }

    /// The running sums stay within `i64` once `data` is added.
    pub open spec fn accepts(&self, data: &FinnhubDataRow) -> bool {
        &&& self.total_volume_spec() + data.v <= i64::MAX
        &&& self.total_notional_spec() + data.p * data.v <= i64::MAX
        &&& price_sum(self.window()) + data.p <= i64::MAX
        &&& self.window().len() < i64::MAX
    }

    /// The trades in the window, oldest first.
    pub closed spec fn window(&self) -> Seq<StockDataPoint> {
        self.trades@
    }

    pub closed spec fn last_time(&self) -> int {
        self.last_timestamp as int
    }

    pub closed spec fn limit(&self) -> int {
        self.time_limit_mil as int
    }

    pub closed spec fn tree(&self) -> FenwickTree {
        self.fenwick_tree
    }

    /// Running sums match the window, the trie holds the window's volume per price,
    /// and no trade in the window has a negative price or volume.
    pub closed spec fn wf(&self) -> bool {
        &&& self.fenwick_tree.wf()
        &&& self.total_volume == volume_sum(self.trades@)
        &&& self.total_price == notional_sum(self.trades@)
        &&& self.total_prices == price_sum(self.trades@)
        &&& self.total_trades == self.trades@.len()
        &&& self.fenwick_tree.total() == self.total_volume
        &&& forall|k: u64| #[trigger]
            self.fenwick_tree.count(k) == price_volume(self.trades@, k)
        &&& forall|i: int|
            0 <= i < self.trades@.len() ==> #[trigger] self.trades@[i].price >= 0
                && self.trades@[i].volume_moved >= 0
    }

    pub open spec fn total_volume_spec(&self) -> int {
        volume_sum(self.window())
    }

    pub open spec fn total_notional_spec(&self) -> int {
        notional_sum(self.window())
    }

    pub fn new(time_limit_mil: i64) -> (r: Self)
        ensures
            r.wf(),
            r.window() == Seq::<StockDataPoint>::empty(),
            r.last_time() == 0,
            r.limit() == time_limit_mil,
    {
        StockInformation {
            trades: VecDeque::new(),
            fenwick_tree: FenwickTree::new(),
            total_price: 0,
            total_prices: 0,
            total_trades: 0,
            total_volume: 0,
            last_timestamp: 0,
            time_limit_mil: time_limit_mil,
        }
    }

    /// Adds a trade: the latest time moves forward to the trade's time if that is later,
    /// expired trades leave the front of the window with their sums and trie weight, and
    /// the trade joins the back.
    pub fn add_trade(&mut self, data: &FinnhubDataRow)
        requires
            old(self).wf(),
            data.p >= 0,
            data.v >= 0,
            old(self).accepts(data),
        ensures
            final(self).wf(),
            final(self).limit() == old(self).limit(),
            (final(self).window(), final(self).last_time()) == after_trade(
                old(self).window(),
                old(self).last_time(),
                old(self).limit(),
                point_of(data),
            ),
    {
        proof {
            lemma_sums_bounds(self.trades@);
        }
        if data.t > self.last_timestamp {
            self.last_timestamp = data.t;
        }
        let ghost last = self.last_timestamp as int;
        let ghost limit = self.time_limit_mil as int;
        let ghost start = self.trades@;
        while self.trades.len() > 0
            invariant
                self.wf(),
                self.last_timestamp == last,
                self.time_limit_mil == limit,
                evicted(self.trades@, last, limit) == evicted(start, last, limit),
                volume_sum(self.trades@) <= volume_sum(start),
                notional_sum(self.trades@) <= notional_sum(start),
                price_sum(self.trades@) <= price_sum(start),
                self.trades@.len() <= start.len(),
            ensures
                self.wf(),
                self.last_timestamp == last,
                self.time_limit_mil == limit,
                self.trades@ == evicted(start, last, limit),
                volume_sum(self.trades@) <= volume_sum(start),
                notional_sum(self.trades@) <= notional_sum(start),
                price_sum(self.trades@) <= price_sum(start),
                self.trades@.len() <= start.len(),
            decreases self.trades@.len(),
        {
            let front: StockDataPoint = self.trades[0];
            if (self.last_timestamp as i128) - (front.timestamp as i128) > self.time_limit_mil as i128 {
                proof {
                    lemma_sums_bounds(self.trades@);
                    lemma_sums_bounds(self.trades@.drop_first());
                    assert(front.price * front.volume_moved <= i64::MAX);
                }
                let ghost w = self.trades@;
                self.total_volume = self.total_volume - front.volume_moved;
                self.total_trades = self.total_trades - 1;
                self.total_price = self.total_price - front.price * front.volume_moved;
                self.total_prices = self.total_prices - front.price;
                self.fenwick_tree.insert(front.price, -front.volume_moved);
                self.trades.pop_front();
                proof {
                    assert(self.trades@ =~= w.drop_first());
                    assert forall|k: u64| #[trigger]
                        self.fenwick_tree.count(k) == price_volume(self.trades@, k) by {
                        assert(price_volume(w, k) == (if front.price as u64 == k {
                            front.volume_moved as int
                        } else {
                            0
                        }) + price_volume(w.drop_first(), k));
                    }
                    assert forall|i: int| 0 <= i < self.trades@.len() implies #[trigger] self.trades@[i].price >= 0
                        && self.trades@[i].volume_moved >= 0 by {
                        assert(self.trades@[i] == w[i + 1]);
                    }
                }
            } else {
                break;
            }
        }
        proof {
            lemma_sums_bounds(self.trades@);
            lemma_sums_push(self.trades@, point_of(data));
            assert(self.fenwick_tree.total() + data.v <= i64::MAX);
            assert(data.p * data.v >= 0) by (nonlinear_arith)
                requires
                    data.p >= 0,
                    data.v >= 0,
            ;
        }
        let ghost w = self.trades@;
        self.total_price = self.total_price + data.p * data.v;
        self.total_prices = self.total_prices + data.p;
        self.total_volume = self.total_volume + data.v;
        self.total_trades = self.total_trades + 1;
        self.fenwick_tree.insert(data.p, data.v);
        self.trades.push_back(StockDataPoint { timestamp: data.t, price: data.p, volume_moved: data.v });
        proof {
            assert(self.trades@ == w.push(point_of(data)));
            assert forall|k: u64| #[trigger] self.fenwick_tree.count(k) == price_volume(self.trades@, k) by {
                lemma_sums_push(w, point_of(data));
            }
            assert forall|i: int| 0 <= i < self.trades@.len() implies #[trigger] self.trades@[i].price >= 0
                && self.trades@[i].volume_moved >= 0 by {
                if i < w.len() {
                    assert(self.trades@[i] == w[i]);
                }
            }
        }
    }

    /// Whether `data` can be added without the running sums leaving `i64`.
    pub fn can_add(&self, data: &FinnhubDataRow) -> (r: bool)
        requires
            self.wf(),
        ensures
            r == self.accepts(data),
    {
        proof {
            let (a, b) = (data.p as int, data.v as int);
            assert(-0x4000_0000_0000_0000_0000_0000_0000_0000 <= a * b <= 0x4000_0000_0000_0000_0000_0000_0000_0000)
                by (nonlinear_arith)
                requires
                    -0x8000_0000_0000_0000 <= a < 0x8000_0000_0000_0000,
                    -0x8000_0000_0000_0000 <= b < 0x8000_0000_0000_0000,
            ;
        }
        (self.total_volume as i128) + (data.v as i128) <= i64::MAX as i128
            && (self.total_price as i128) + (data.p as i128) * (data.v as i128) <= i64::MAX as i128
            && (self.total_trades as i128) < i64::MAX as i128
            && (self.total_prices as i128) + (data.p as i128) <= i64::MAX as i128
    }

    /// The trie of the window's prices, weighted by volume.
    pub fn fenwick_tree(&self) -> (r: &FenwickTree)
        ensures
            *r == self.tree(),
    {
        &self.fenwick_tree
    }

    /// The window's statistics. Where the window holds no volume there is nothing to
    /// average or to order, and those fields are `None`.
    pub fn snapshot(&self) -> (r: WindowSummary)
        requires
            self.wf(),
        ensures
            self.summarizes(r),
    {
        proof {
            lemma_sums_bounds(self.trades@);
        }
        let avg_trade_price = if self.total_trades == 0 {
            None
        } else {
            Some(self.total_prices / self.total_trades)
        };
        if self.total_volume == 0 {
            return WindowSummary {
                timestamp: self.last_timestamp,
                avg_price: None,
                avg_trade_price,
                min_price: None,
                max_price: None,
                volume_moved: 0,
                num_of_trades: self.total_trades,
            };
        }
        let lo = self.fenwick_tree.find_min();
        let hi = self.fenwick_tree.find_max();
        proof {
            lemma_extremes(self.trades@, self.fenwick_tree, lo, hi);
        }
        WindowSummary {
            timestamp: self.last_timestamp,
            avg_price: Some(self.total_price / self.total_volume),
            avg_trade_price,
            min_price: Some(lo),
            max_price: Some(hi),
            volume_moved: self.total_volume,
            num_of_trades: self.total_trades,
        }
    }

    /// The price at the `pct`-th percentile of the window's volume: the price at which
    /// the volume counted up from the lowest price passes `percentile_rank`. `None`
    /// where the window holds no volume.
    pub fn percentile(&self, pct: u64) -> (r: Option<i64>)
        requires
            self.wf(),
            pct <= 100,
        ensures
            r is None <==> volume_sum(self.window()) == 0,
            r is Some ==> {
                let k = percentile_rank(volume_sum(self.window()), pct as int);
                &&& self.tree().count_below(r.unwrap() as u64) <= k
                &&& k < self.tree().count_below(r.unwrap() as u64) + self.tree().count(
                    r.unwrap() as u64,
                )
            },
    {
        proof {
            lemma_sums_bounds(self.trades@);
        }
        if self.total_volume == 0 {
            return None;
        }
        proof {
            let (v, q) = (self.total_volume as int, pct as int);
            assert(0 <= v * q / 100 <= v) by (nonlinear_arith)
                requires
                    v > 0,
                    0 <= q <= 100,
            ;
        }
        let scaled: i128 = (self.total_volume as i128) * (pct as i128) / 100;
        let target: i64 = if scaled >= self.total_volume as i128 {
            self.total_volume - 1
        } else {
            scaled as i64
        };
        Some(self.fenwick_tree.find_rank(target))
    }

    /// Each price's weight in the trie is the volume that the window's trades moved at
    /// that price: the gap between the two ranks that `find_num` returns for a price.
    pub proof fn lemma_rank_gap(&self, price: i64)
        requires
            self.wf(),
        ensures
            self.tree().count(price as u64) == price_volume(self.window(), price as u64),
    {
    }

}

} // verus!
