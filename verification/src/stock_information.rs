//! Per-symbol state: one bounded sliding window of candles per supported
//! interval bucket, each with its rolling indicators — the running price
//! sum (for the simple moving average), the exponential moving average,
//! and an order-statistics tree over the window's prices (for quantile
//! bands). The central invariant: the tree's contents always equal the
//! multiset of prices currently in the window, so eviction and insertion
//! must adjust both sides symmetrically.

use vstd::prelude::*;

verus! {

use std::collections::VecDeque;
use crate::data::OHLCModel;
use crate::data::PRICE_CAP;
use crate::data::candle_bounded;
use crate::fenwick_tree::FenwickTree;

/// Capacity of each sliding window, in candles.
pub const WINDOW_CAP: usize = 120;

/// Nominal window size for the exponential moving average; the smoothing
/// constant is 2 / (EMA_PERIOD + 1).
pub const EMA_PERIOD: u64 = 120;

/// The price field the rolling indicators track.
pub open spec fn price_of(m: OHLCModel) -> u64 {
    m.price_open
}

/// Sum of the tracked prices over a window.
pub open spec fn sum_prices(w: Seq<OHLCModel>) -> int
    decreases w.len(),
{
    if w.len() == 0 {
        0
    } else {
        sum_prices(w.drop_last()) + price_of(w.last())
    }
}

/// How many candles in the window have tracked price `k`.
pub open spec fn price_count(w: Seq<OHLCModel>, k: u64) -> nat
    decreases w.len(),
{
    if w.len() == 0 {
        0
    } else {
        price_count(w.drop_last(), k) + if price_of(w.last()) == k {
            1nat
        } else {
            0nat
        }
    }
}

/// The window after appending a candle, evicting the head at capacity.
pub open spec fn window_push(w: Seq<OHLCModel>, m: OHLCModel) -> Seq<OHLCModel> {
    if w.len() >= WINDOW_CAP {
        w.subrange(1, w.len() as int).push(m)
    } else {
        w.push(m)
    }
}

/// One step of the exponential moving average in fixed-point integers:
/// price * k + ema * (1 - k) with k = 2 / (period + 1), rounded down.
pub open spec fn ema_step(ema: int, price: int, period: int) -> int {
    (2 * price + (period - 1) * ema) / (period + 1)
}

pub proof fn lemma_sum_prices_push(w: Seq<OHLCModel>, m: OHLCModel)
    ensures
        sum_prices(w.push(m)) == sum_prices(w) + price_of(m),
{
    assert(w.push(m).drop_last() =~= w);
    assert(w.push(m).last() == m);
}

pub proof fn lemma_price_count_push(w: Seq<OHLCModel>, m: OHLCModel, k: u64)
    ensures
        price_count(w.push(m), k) == price_count(w, k) + if price_of(m) == k {
            1nat
        } else {
            0nat
        },
{
    assert(w.push(m).drop_last() =~= w);
    assert(w.push(m).last() == m);
}

pub proof fn lemma_sum_prices_drop_first(w: Seq<OHLCModel>)
    requires
        w.len() > 0,
    ensures
        sum_prices(w.subrange(1, w.len() as int)) == sum_prices(w) - price_of(w[0]),
    decreases w.len(),
{
    let t = w.subrange(1, w.len() as int);
    if w.len() == 1 {
        assert(t =~= Seq::<OHLCModel>::empty());
        assert(sum_prices(t) == 0);
        assert(w.last() == w[0]);
        assert(sum_prices(w) == sum_prices(w.drop_last()) + price_of(w.last()));
        assert(sum_prices(w.drop_last()) == 0);
    } else {
        assert(t.drop_last() =~= w.drop_last().subrange(1, w.drop_last().len() as int));
        assert(t.last() == w.last());
        lemma_sum_prices_drop_first(w.drop_last());
        assert(w.drop_last()[0] == w[0]);
        assert(sum_prices(t) == sum_prices(t.drop_last()) + price_of(t.last()));
        assert(sum_prices(w) == sum_prices(w.drop_last()) + price_of(w.last()));
    }
}

pub proof fn lemma_price_count_drop_first(w: Seq<OHLCModel>, k: u64)
    requires
        w.len() > 0,
    ensures
        price_count(w.subrange(1, w.len() as int), k) == price_count(w, k) - (if price_of(w[0])
            == k {
            1nat
        } else {
            0nat
        }),
        price_of(w[0]) == k ==> price_count(w, k) >= 1,
    decreases w.len(),
{
    let t = w.subrange(1, w.len() as int);
    if w.len() == 1 {
        assert(t =~= Seq::<OHLCModel>::empty());
        assert(price_count(t, k) == 0);
        assert(w.last() == w[0]);
        assert(price_count(w, k) == price_count(w.drop_last(), k) + (if price_of(w.last()) == k {
            1nat
        } else {
            0nat
        }));
        assert(price_count(w.drop_last(), k) == 0);
    } else {
        assert(t.drop_last() =~= w.drop_last().subrange(1, w.drop_last().len() as int));
        assert(t.last() == w.last());
        lemma_price_count_drop_first(w.drop_last(), k);
        assert(w.drop_last()[0] == w[0]);
        assert(price_count(t, k) == price_count(t.drop_last(), k) + (if price_of(t.last()) == k {
            1nat
        } else {
            0nat
        }));
        assert(price_count(w, k) == price_count(w.drop_last(), k) + (if price_of(w.last()) == k {
            1nat
        } else {
            0nat
        }));
    }
}

/// A window of bounded candles has a bounded, non-negative price sum.
pub proof fn lemma_sum_prices_bound(w: Seq<OHLCModel>)
    requires
        forall|i: int| 0 <= i < w.len() ==> candle_bounded(#[trigger] w[i]),
    ensures
        0 <= sum_prices(w) <= w.len() * (PRICE_CAP as int),
    decreases w.len(),
{
    if w.len() > 0 {
        assert(forall|i: int|
            0 <= i < w.drop_last().len() ==> candle_bounded(#[trigger] w.drop_last()[i]));
        lemma_sum_prices_bound(w.drop_last());
        assert(candle_bounded(w.last()));
        assert(w.len() * (PRICE_CAP as int) == w.drop_last().len() * (PRICE_CAP as int)
            + PRICE_CAP);
    }
}

/// The sliding window and rolling indicators for one (symbol, interval)
/// pair.
pub struct IntervalBucket {
    window: VecDeque<OHLCModel>,
    price_sum: u64,
    ema_value: u64,
    quantile_tree: FenwickTree,
}

impl IntervalBucket {
    /// The candles currently in the window, oldest first.
    pub closed spec fn window_view(self) -> Seq<OHLCModel> {
        self.window@
    }

    /// The current exponential moving average, in millionths.
    pub closed spec fn ema_spec(self) -> u64 {
        self.ema_value
    }

    /// Total count stored in the quantile tree.
    pub closed spec fn tree_total(self) -> nat {
        self.quantile_tree.total()
    }

    /// Multiplicity of price `k` in the quantile tree.
    pub closed spec fn tree_count(self, k: u64) -> nat {
        self.quantile_tree.count_of(k)
    }

    /// The price at rank `rank` in the quantile tree.
    pub closed spec fn tree_nth(self, rank: nat) -> nat {
        self.quantile_tree.nth_key(rank)
    }

    /// How many stored prices lie strictly below `k`.
    pub closed spec fn tree_below(self, k: u64) -> nat {
        self.quantile_tree.num_below(k)
    }

    /// The bucket invariant: the window is bounded by its capacity and
    /// holds bounded candles, the running sum equals the window's price
    /// sum, and the quantile tree stores exactly the window's prices.
    pub closed spec fn well_formed(self) -> bool {
        &&& self.window@.len() <= WINDOW_CAP
        &&& forall|i: int| 0 <= i < self.window@.len() ==> candle_bounded(#[trigger] self.window@[i])
        &&& self.price_sum as int == sum_prices(self.window@)
        &&& self.ema_value < PRICE_CAP
        &&& self.quantile_tree.well_formed()
        &&& self.quantile_tree.total() == self.window@.len()
        &&& forall|k: u64| #[trigger] self.quantile_tree.count_of(k) == price_count(self.window@, k)
    }

    pub fn new() -> (b: Self)
        ensures
            b.well_formed(),
            b.window_view() == Seq::<OHLCModel>::empty(),
            b.ema_spec() == 0,
    {
        let b = IntervalBucket {
            window: VecDeque::new(),
            price_sum: 0,
            ema_value: 0,
            quantile_tree: FenwickTree::new(),
        };
        proof {
            assert(b.window@.len() == 0);
        }
        b
    }

    /// Appends a candle: at capacity the head candle is first evicted and
    /// its price removed from the sum and the tree, then the new candle is
    /// appended, its price added to both, and the exponential moving
    /// average stepped (the first candle ever seeds it).
    pub fn ingest(&mut self, m: OHLCModel)
        requires
            old(self).well_formed(),
            candle_bounded(m),
        ensures
            final(self).well_formed(),
            final(self).window_view() == window_push(old(self).window_view(), m),
            final(self).ema_spec() as int == if old(self).window_view().len() == 0 {
                price_of(m) as int
            } else {
                ema_step(old(self).ema_spec() as int, price_of(m) as int, EMA_PERIOD as int)
            },
    {
        let ghost w0 = self.window@;
        if self.window.len() >= WINDOW_CAP {
            let ev = self.window.pop_front().unwrap();
            proof {
                lemma_sum_prices_drop_first(w0);
                lemma_price_count_drop_first(w0, price_of(ev));
                let rest = w0.subrange(1, w0.len() as int);
                assert forall|i: int| 0 <= i < rest.len() implies candle_bounded(
                    #[trigger] rest[i],
                ) by {
                    assert(rest[i] == w0[i + 1]);
                }
                lemma_sum_prices_bound(rest);
                assert(self.quantile_tree.count_of(ev.price_open) >= 1);
            }
            self.price_sum = self.price_sum - ev.price_open;
            self.quantile_tree.insert(ev.price_open, -1);
            proof {
                assert forall|k: u64| #[trigger] self.quantile_tree.count_of(k) == price_count(
                    self.window@,
                    k,
                ) by {
                    lemma_price_count_drop_first(w0, k);
                }
                assert(forall|i: int|
                    0 <= i < self.window@.len() ==> candle_bounded(#[trigger] self.window@[i]));
            }
        }
        let ghost w1 = self.window@;
        proof {
            assert(w1 == if w0.len() >= WINDOW_CAP {
                w0.subrange(1, w0.len() as int)
            } else {
                w0
            });
            lemma_sum_prices_bound(w1);
        }
        let p = m.price_open;
        proof {
            assert(p < PRICE_CAP);
            assert(self.ema_value < PRICE_CAP);
            assert(2 * p + (EMA_PERIOD - 1) * self.ema_value < (EMA_PERIOD + 1) * PRICE_CAP);
        }
        if self.window.len() == 0 {
            self.ema_value = p;
        } else {
            let num = 2 * p + (EMA_PERIOD - 1) * self.ema_value;
            proof {
                let ni = num as int;
                let pi = EMA_PERIOD as int + 1;
                let cap = PRICE_CAP as int;
                assert(ni <= pi * (cap - 1));
                assert(pi * (cap - 1) / pi == cap - 1) by (nonlinear_arith)
                    requires
                        pi > 0,
                ;
                assert(ni / pi <= pi * (cap - 1) / pi) by (nonlinear_arith)
                    requires
                        ni <= pi * (cap - 1),
                        pi > 0,
                ;
                assert(ni / pi < cap);
            }
            self.ema_value = num / (EMA_PERIOD + 1);
        }
        self.price_sum = self.price_sum + p;
        self.quantile_tree.insert(p, 1);
        self.window.push_back(m);
        proof {
            assert(self.window@ == w1.push(m));
            lemma_sum_prices_push(w1, m);
            assert forall|k: u64| #[trigger] self.quantile_tree.count_of(k) == price_count(
                self.window@,
                k,
            ) by {
                lemma_price_count_push(w1, m, k);
            }
            assert(self.window@ == window_push(w0, m));
            assert(forall|i: int|
                0 <= i < w1.len() ==> candle_bounded(#[trigger] w1[i]));
            assert forall|i: int| 0 <= i < self.window@.len() implies candle_bounded(
                #[trigger] self.window@[i],
            ) by {
                if i < w1.len() {
                    assert(self.window@[i] == w1[i]);
                } else {
                    assert(self.window@[i] == m);
                }
            }
        }
    }

    /// The simple moving average of the window, in millionths: the price
    /// sum divided by the window length, and zero for an empty window.
    pub fn sma(&self) -> (r: u64)
        requires
            self.well_formed(),
        ensures
            r as int == if self.window_view().len() == 0 {
                0
            } else {
                sum_prices(self.window_view()) / (self.window_view().len() as int)
            },
    {
        if self.window.len() == 0 {
            0
        } else {
            self.price_sum / (self.window.len() as u64)
        }
    }

    /// The current exponential moving average, in millionths.
    pub fn ema(&self) -> (r: u64)
        requires
            self.well_formed(),
        ensures
            r == self.ema_spec(),
    {
        self.ema_value
    }

    /// The rank a fraction `num/den` selects in a window of `len` entries.
    pub open spec fn quantile_rank(num: int, den: int, len: int) -> int {
        if num * len / den < len {
            num * len / den
        } else {
            len - 1
        }
    }

    /// The price at the `num/den` quantile of the current window, in
    /// millionths; zero for an empty window.
    pub fn quantile(&self, num: u64, den: u64) -> (r: u64)
        requires
            self.well_formed(),
            0 < den <= 1000000,
            num <= den,
        ensures
            self.window_view().len() == 0 ==> r == 0,
            self.window_view().len() > 0 ==> r as nat == self.tree_nth(
                Self::quantile_rank(
                    num as int,
                    den as int,
                    self.window_view().len() as int,
                ) as nat,
            ),
    {
        let len = self.window.len() as u64;
        if len == 0 {
            return 0;
        }
        proof {
            let ni = num as int;
            let li = len as int;
            assert(len <= 120);
            assert(ni * li <= 1000000 * 120) by (nonlinear_arith)
                requires
                    0 <= ni <= 1000000,
                    0 <= li <= 120,
            ;
        }
        let scaled = num * len;
        let wide = scaled / den;
        proof {
            let ni = num as int;
            let di = den as int;
            let li = len as int;
            assert(ni * li <= di * li) by (nonlinear_arith)
                requires
                    ni <= di,
                    li >= 0,
            ;
            assert(di * li / di == li) by (nonlinear_arith)
                requires
                    di > 0,
                    li >= 0,
            ;
            assert(ni * li / di <= di * li / di) by (nonlinear_arith)
                requires
                    ni * li <= di * li,
                    di > 0,
            ;
            assert(wide as int == ni * li / di);
            assert(wide as int <= li);
        }
        let rank: u64 = if wide < len {
            wide
        } else {
            len - 1
        };
        proof {
            assert(rank as int == Self::quantile_rank(
                num as int,
                den as int,
                self.window@.len() as int,
            ));
            assert((rank as nat) < self.quantile_tree.total());
        }
        self.quantile_tree.find_nth(rank)
    }
}

/// Law: the price a quantile rank selects really is the rank-th smallest
/// price currently in the window, counted with multiplicity: at most
/// `rank` windowed prices lie strictly below it and more than `rank` lie
/// at or below it.
pub proof fn lemma_bucket_order_statistic(b: IntervalBucket, rank: nat)
    requires
        b.well_formed(),
        rank < b.tree_total(),
    ensures
        b.tree_nth(rank) <= u64::MAX,
        b.tree_below(b.tree_nth(rank) as u64) <= rank,
        rank < b.tree_below(b.tree_nth(rank) as u64) + price_count(
            b.window_view(),
            b.tree_nth(rank) as u64,
        ),
{
    vstd::arithmetic::power2::lemma2_to64_rest();
    crate::fenwick_tree::lemma_find_nth_is_order_statistic(b.quantile_tree, rank);
}

/// Law: larger quantile ranks never select smaller prices.
pub proof fn lemma_bucket_quantile_monotone(b: IntervalBucket, r1: nat, r2: nat)
    requires
        b.well_formed(),
        r1 <= r2 < b.tree_total(),
    ensures
        b.tree_nth(r1) <= b.tree_nth(r2),
{
    crate::fenwick_tree::lemma_find_nth_monotone(b.quantile_tree, r1, r2);
}

/// Law: below-counts accumulate the per-price multiplicities of the
/// window, starting from zero.
pub proof fn lemma_bucket_below_cumulative(b: IntervalBucket, k: u64)
    requires
        b.well_formed(),
    ensures
        b.tree_below(0) == 0,
        k < u64::MAX ==> b.tree_below((k + 1) as u64) == b.tree_below(k) + price_count(
            b.window_view(),
            k,
        ),
{
    crate::fenwick_tree::lemma_num_below_cumulative(b.quantile_tree, k);
}

/// Law: a well-formed bucket never exceeds its window capacity, and its
/// quantile tree stores exactly one entry per windowed candle — the
/// window length in total, and per price the window's multiplicity.
pub proof fn lemma_window_tree_sync(b: IntervalBucket)
    requires
        b.well_formed(),
    ensures
        b.window_view().len() <= WINDOW_CAP,
        b.tree_total() == b.window_view().len(),
        forall|k: u64| #[trigger] b.tree_count(k) == price_count(b.window_view(), k),
{
}

/// Which bucket an interval selects: the supported intervals in seconds
/// are 1, 10, 60, 300 and 600; anything else selects none.
pub open spec fn bucket_index(interval: u64) -> int {
    if interval == 1 {
        0
    } else if interval == 10 {
        1
    } else if interval == 60 {
        2
    } else if interval == 300 {
        3
    } else if interval == 600 {
        4
    } else {
        -1
    }
}

/// The ingest transition of one bucket, as seen through its public view.
pub open spec fn bucket_ingested(b0: IntervalBucket, b1: IntervalBucket, m: OHLCModel) -> bool {
    &&& b1.window_view() == window_push(b0.window_view(), m)
    &&& b1.ema_spec() as int == if b0.window_view().len() == 0 {
        price_of(m) as int
    } else {
        ema_step(b0.ema_spec() as int, price_of(m) as int, EMA_PERIOD as int)
    }
}

/// All per-interval state for one symbol.
pub struct StockInformation {
    interval_1: IntervalBucket,
    interval_10: IntervalBucket,
    interval_60: IntervalBucket,
    interval_300: IntervalBucket,
    interval_600: IntervalBucket,
}

impl StockInformation {
    /// The bucket at index `idx` (0 to 4, in interval order).
    pub closed spec fn bucket(self, idx: int) -> IntervalBucket {
        if idx == 0 {
            self.interval_1
        } else if idx == 1 {
            self.interval_10
        } else if idx == 2 {
            self.interval_60
        } else if idx == 3 {
            self.interval_300
        } else {
            self.interval_600
        }
    }

    pub open spec fn well_formed(self) -> bool {
        forall|i: int| 0 <= i < 5 ==> (#[trigger] self.bucket(i)).well_formed()
    }

    pub fn new() -> (s: Self)
        ensures
            s.well_formed(),
            forall|i: int|
                0 <= i < 5 ==> (#[trigger] s.bucket(i)).window_view() == Seq::<
                    OHLCModel,
                >::empty() && s.bucket(i).ema_spec() == 0,
    {
        StockInformation {
            interval_1: IntervalBucket::new(),
            interval_10: IntervalBucket::new(),
            interval_60: IntervalBucket::new(),
            interval_300: IntervalBucket::new(),
            interval_600: IntervalBucket::new(),
        }
    }

    /// Routes a candle to the bucket matching its interval; candles for
    /// unsupported intervals are silently ignored.
    pub fn add_ohlc(&mut self, m: OHLCModel)
        requires
            old(self).well_formed(),
            candle_bounded(m),
        ensures
            final(self).well_formed(),
            forall|i: int|
                0 <= i < 5 && i != bucket_index(m.stock_interval)
                    ==> #[trigger] final(self).bucket(i) == old(self).bucket(i),
            bucket_index(m.stock_interval) >= 0 ==> bucket_ingested(
                old(self).bucket(bucket_index(m.stock_interval)),
                final(self).bucket(bucket_index(m.stock_interval)),
                m,
            ),
            bucket_index(m.stock_interval) < 0 ==> *final(self) == *old(self),
    {
        proof {
            assert(old(self).bucket(0).well_formed());
            assert(old(self).bucket(1).well_formed());
            assert(old(self).bucket(2).well_formed());
            assert(old(self).bucket(3).well_formed());
            assert(old(self).bucket(4).well_formed());
        }
        if m.stock_interval == 1 {
            self.interval_1.ingest(m);
        } else if m.stock_interval == 10 {
            self.interval_10.ingest(m);
        } else if m.stock_interval == 60 {
            self.interval_60.ingest(m);
        } else if m.stock_interval == 300 {
            self.interval_300.ingest(m);
        } else if m.stock_interval == 600 {
            self.interval_600.ingest(m);
        }
        proof {
            assert forall|i: int| 0 <= i < 5 implies (#[trigger] self.bucket(i)).well_formed() by {
                assert(self.bucket(0) == self.interval_1);
                assert(self.bucket(1) == self.interval_10);
                assert(self.bucket(2) == self.interval_60);
                assert(self.bucket(3) == self.interval_300);
                assert(self.bucket(4) == self.interval_600);
            }
        }
    }

    /// The simple moving average for one interval bucket, or `None` for
    /// an unsupported interval.
    pub fn sma(&self, interval: u64) -> (r: Option<u64>)
        requires
            self.well_formed(),
        ensures
            r is None <==> bucket_index(interval) < 0,
            r matches Some(v) ==> {
                let b = self.bucket(bucket_index(interval));
                v as int == if b.window_view().len() == 0 {
                    0
                } else {
                    sum_prices(b.window_view()) / (b.window_view().len() as int)
                }
            },
    {
        proof {
            assert(self.bucket(0).well_formed());
            assert(self.bucket(1).well_formed());
            assert(self.bucket(2).well_formed());
            assert(self.bucket(3).well_formed());
            assert(self.bucket(4).well_formed());
        }
        if interval == 1 {
            Some(self.interval_1.sma())
        } else if interval == 10 {
            Some(self.interval_10.sma())
        } else if interval == 60 {
            Some(self.interval_60.sma())
        } else if interval == 300 {
            Some(self.interval_300.sma())
        } else if interval == 600 {
            Some(self.interval_600.sma())
        } else {
            None
        }
    }

    /// The exponential moving average for one interval bucket, or `None`
    /// for an unsupported interval.
    pub fn ema(&self, interval: u64) -> (r: Option<u64>)
        requires
            self.well_formed(),
        ensures
            r is None <==> bucket_index(interval) < 0,
            r matches Some(v) ==> v == self.bucket(bucket_index(interval)).ema_spec(),
    {
        proof {
            assert(self.bucket(0).well_formed());
            assert(self.bucket(1).well_formed());
            assert(self.bucket(2).well_formed());
            assert(self.bucket(3).well_formed());
            assert(self.bucket(4).well_formed());
        }
        if interval == 1 {
            Some(self.interval_1.ema())
        } else if interval == 10 {
            Some(self.interval_10.ema())
        } else if interval == 60 {
            Some(self.interval_60.ema())
        } else if interval == 300 {
            Some(self.interval_300.ema())
        } else if interval == 600 {
            Some(self.interval_600.ema())
        } else {
            None
        }
    }

    /// The `num/den` quantile price for one interval bucket, or `None`
    /// for an unsupported interval.
    pub fn quantile(&self, interval: u64, num: u64, den: u64) -> (r: Option<u64>)
        requires
            self.well_formed(),
            0 < den <= 1000000,
            num <= den,
        ensures
            r is None <==> bucket_index(interval) < 0,
            r matches Some(v) ==> {
                let b = self.bucket(bucket_index(interval));
                &&& b.window_view().len() == 0 ==> v == 0
                &&& b.window_view().len() > 0 ==> v as nat == b.tree_nth(
                    IntervalBucket::quantile_rank(
                        num as int,
                        den as int,
                        b.window_view().len() as int,
                    ) as nat,
                )
            },
    {
        proof {
            assert(self.bucket(0).well_formed());
            assert(self.bucket(1).well_formed());
            assert(self.bucket(2).well_formed());
            assert(self.bucket(3).well_formed());
            assert(self.bucket(4).well_formed());
        }
        if interval == 1 {
            Some(self.interval_1.quantile(num, den))
        } else if interval == 10 {
            Some(self.interval_10.quantile(num, den))
        } else if interval == 60 {
            Some(self.interval_60.quantile(num, den))
        } else if interval == 300 {
            Some(self.interval_300.quantile(num, den))
        } else if interval == 600 {
            Some(self.interval_600.quantile(num, den))
        } else {
            None
        }
    }

    /// The number of candles currently in one interval bucket's window,
    /// or `None` for an unsupported interval.
    pub fn window_len(&self, interval: u64) -> (r: Option<usize>)
        requires
            self.well_formed(),
        ensures
            r is None <==> bucket_index(interval) < 0,
            r matches Some(v) ==> v == self.bucket(bucket_index(interval)).window_view().len(),
    {
        if interval == 1 {
            Some(self.interval_1.window.len())
        } else if interval == 10 {
            Some(self.interval_10.window.len())
        } else if interval == 60 {
            Some(self.interval_60.window.len())
        } else if interval == 300 {
            Some(self.interval_300.window.len())
        } else if interval == 600 {
            Some(self.interval_600.window.len())
        } else {
            None
        }
    }

    /// Renders every windowed candle of every bucket, in bucket order and
    /// window order, as the snapshot a new subscriber is seeded with.
    pub fn render_windows(&self) -> (r: Vec<String>)
        requires
            self.well_formed(),
        ensures
            r.deep_view() == snapshot_of(*self),
    {
        let mut out: Vec<String> = Vec::new();
        append_window(&mut out, &self.interval_1);
        append_window(&mut out, &self.interval_10);
        append_window(&mut out, &self.interval_60);
        append_window(&mut out, &self.interval_300);
        append_window(&mut out, &self.interval_600);
        proof {
            assert(out.deep_view() =~= snapshot_of(*self));
        }
        out
    }
}

/// A well-formed series' snapshot holds at most five full windows.
pub proof fn lemma_snapshot_len(s: StockInformation)
    requires
        s.well_formed(),
    ensures
        snapshot_of(s).len() <= 5 * WINDOW_CAP,
{
    assert(s.bucket(0).well_formed());
    assert(s.bucket(1).well_formed());
    assert(s.bucket(2).well_formed());
    assert(s.bucket(3).well_formed());
    assert(s.bucket(4).well_formed());
}

/// The rendered windows of all buckets of one symbol, in bucket order.
pub open spec fn snapshot_of(s: StockInformation) -> Seq<Seq<char>> {
    rendered_window(s.bucket(0)) + rendered_window(s.bucket(1)) + rendered_window(s.bucket(2))
        + rendered_window(s.bucket(3)) + rendered_window(s.bucket(4))
}

/// The rendered candles of one bucket's window, oldest first.
pub open spec fn rendered_window(b: IntervalBucket) -> Seq<Seq<char>> {
    b.window_view().map_values(|c: OHLCModel| crate::data::render_candle(c))
}

/// Appends the rendering of every candle in the bucket's window.
#[verifier::rlimit(50)]
fn append_window(out: &mut Vec<String>, b: &IntervalBucket)
    ensures
        final(out).deep_view() == old(out).deep_view() + rendered_window(*b),
{
    let n = b.window.len();
    let mut i: usize = 0;
    while i < n
        invariant
            i <= n,
            n == b.window@.len(),
            out.deep_view() == old(out).deep_view() + rendered_window(*b).take(i as int),
        decreases n - i,
    {
        let line = b.window[i].to_string();
        let ghost dv_before = out.deep_view();
        out.push(line);
        proof {
            let rw = rendered_window(*b);
            assert(line@ == crate::data::render_candle(b.window@[i as int]));
            assert(rw[i as int] == crate::data::render_candle(b.window@[i as int]));
            assert(out.deep_view() =~= dv_before.push(line@));
            assert(rw.take(i as int + 1) =~= rw.take(i as int).push(rw[i as int]));
            assert((old(out).deep_view() + rw.take(i as int)).push(rw[i as int]) =~= old(
                out,
            ).deep_view() + rw.take(i as int).push(rw[i as int]));
            assert(out.deep_view() =~= old(out).deep_view() + rw.take(i as int + 1));
        }
        i = i + 1;
    }
    proof {
        assert(rendered_window(*b).take(n as int) =~= rendered_window(*b));
        assert(out.deep_view() =~= old(out).deep_view() + rendered_window(*b));
    }
}

} // verus!
