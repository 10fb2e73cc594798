//! Market-wide aggregate counters for the all-symbols feed: total trades,
//! total volume and traded market value accumulated since the last reset,
//! plus a bounded history of the rendered aggregate messages, used to
//! seed subscribers of the aggregate feed.

use vstd::prelude::*;

verus! {

use std::collections::VecDeque;
use vstd::string::StringExecFns;
use crate::data::OHLCModel;
use crate::data::candle_bounded;
use crate::decimal::dec_str;
use crate::decimal::price_str;
use crate::decimal::append_u64;
use crate::decimal::append_u128;
use crate::decimal::append_price;

/// Capacity of the aggregate-message history.
pub const HISTORY_CAP: usize = 120;

/// Saturating addition on the range of `u64`.
pub open spec fn sat_add_u64(a: int, b: int) -> int {
    if a + b <= u64::MAX {
        a + b
    } else {
        u64::MAX as int
    }
}

/// Saturating addition on the range of `u128`.
pub open spec fn sat_add_u128(a: int, b: int) -> int {
    if a + b <= u128::MAX {
        a + b
    } else {
        u128::MAX as int
    }
}

/// The history after appending a message, evicting the head at capacity.
pub open spec fn history_push(h: Seq<Seq<char>>, x: Seq<char>) -> Seq<Seq<char>> {
    if h.len() >= HISTORY_CAP {
        h.subrange(1, h.len() as int).push(x)
    } else {
        h.push(x)
    }
}

/// The rendered aggregate message.
pub open spec fn render_analysis(
    stocks: nat,
    trades: nat,
    volume: nat,
    market_value: nat,
    timestamp: nat,
) -> Seq<char> {
    ("{\"stock_n\": ")@ + dec_str(stocks) + (", \"trade_n\": ")@ + dec_str(trades) + (
    ", \"volume_n\": ")@ + price_str(volume) + (", \"market_v_n\": ")@ + dec_str(market_value)
        + (", \"timestamp\": ")@ + dec_str(timestamp) + ("}")@
}

/// The sentinel line that closes every history replay.
pub open spec fn end_of_update() -> Seq<char> {
    ("End of Update")@
}

/// Aggregate counters over all symbols since the last reset, with the
/// bounded history of rendered aggregate messages.
pub struct AnalysisInfo {
    stocks: usize,
    trades: u64,
    volume: u64,
    market_value: u128,
    data_history: VecDeque<String>,
}

impl AnalysisInfo {
    pub closed spec fn stocks_spec(self) -> nat {
        self.stocks as nat
    }

    pub closed spec fn trades_spec(self) -> nat {
        self.trades as nat
    }

    pub closed spec fn volume_spec(self) -> nat {
        self.volume as nat
    }

    pub closed spec fn market_value_spec(self) -> nat {
        self.market_value as nat
    }

    /// The rendered aggregate messages currently kept, oldest first.
    pub closed spec fn history_view(self) -> Seq<Seq<char>> {
        self.data_history.deep_view()
    }

    pub closed spec fn well_formed(self) -> bool {
        self.data_history@.len() <= HISTORY_CAP
    }

    pub fn new() -> (a: Self)
        ensures
            a.well_formed(),
            a.stocks_spec() == 0,
            a.trades_spec() == 0,
            a.volume_spec() == 0,
            a.market_value_spec() == 0,
            a.history_view() == Seq::<Seq<char>>::empty(),
    {
        let a = AnalysisInfo {
            stocks: 0,
            trades: 0,
            volume: 0,
            market_value: 0,
            data_history: VecDeque::new(),
        };
        proof {
            assert(a.data_history.deep_view() =~= Seq::<Seq<char>>::empty());
        }
        a
    }

    /// Accumulates one candle: its trades, its volume, and its closing
    /// price times its volume, each addition saturating at the counter's
    /// range.
    pub fn add_ohlc(&mut self, m: &OHLCModel)
        requires
            old(self).well_formed(),
            candle_bounded(*m),
        ensures
            final(self).well_formed(),
            final(self).trades_spec() == sat_add_u64(
                old(self).trades_spec() as int,
                m.trades as int,
            ),
            final(self).volume_spec() == sat_add_u64(
                old(self).volume_spec() as int,
                m.volume as int,
            ),
            final(self).market_value_spec() == sat_add_u128(
                old(self).market_value_spec() as int,
                (m.price_close as int) * (m.volume as int),
            ),
            final(self).stocks_spec() == old(self).stocks_spec(),
            final(self).history_view() == old(self).history_view(),
    {
        if self.trades <= u64::MAX - m.trades {
            self.trades = self.trades + m.trades;
        } else {
            self.trades = u64::MAX;
        }
        if self.volume <= u64::MAX - m.volume {
            self.volume = self.volume + m.volume;
        } else {
            self.volume = u64::MAX;
        }
        proof {
            assert((m.price_close as int) * (m.volume as int)
                < 0x100000000000000000000000000000000) by (nonlinear_arith)
                requires
                    m.price_close < 10000000000000000,
                    m.volume < 10000000000000000,
            ;
        }
        let turnover = (m.price_close as u128) * (m.volume as u128);
        if self.market_value <= u128::MAX - turnover {
            self.market_value = self.market_value + turnover;
        } else {
            self.market_value = u128::MAX;
        }
    }

    /// Records how many symbols the cache currently tracks.
    pub fn set_stock_number(&mut self, n: usize)
        requires
            old(self).well_formed(),
        ensures
            final(self).well_formed(),
            final(self).stocks_spec() == n as nat,
            final(self).trades_spec() == old(self).trades_spec(),
            final(self).volume_spec() == old(self).volume_spec(),
            final(self).market_value_spec() == old(self).market_value_spec(),
            final(self).history_view() == old(self).history_view(),
    {
        self.stocks = n;
    }

    /// Renders the aggregate message for the period that just ended,
    /// clears the period counters, and appends the message to the bounded
    /// history. Returns the rendered message.
    pub fn reset(&mut self, timestamp: u64) -> (r: String)
        requires
            old(self).well_formed(),
        ensures
            final(self).well_formed(),
            r@ == render_analysis(
                old(self).stocks_spec(),
                old(self).trades_spec(),
                old(self).volume_spec(),
                old(self).market_value_spec(),
                timestamp as nat,
            ),
            final(self).stocks_spec() == old(self).stocks_spec(),
            final(self).trades_spec() == 0,
            final(self).volume_spec() == 0,
            final(self).market_value_spec() == 0,
            final(self).history_view() == history_push(old(self).history_view(), r@),
    {
        let mut out = String::new();
        out.append("{\"stock_n\": ");
        append_u64(&mut out, self.stocks as u64);
        out.append(", \"trade_n\": ");
        append_u64(&mut out, self.trades);
        out.append(", \"volume_n\": ");
        append_price(&mut out, self.volume);
        out.append(", \"market_v_n\": ");
        append_u128(&mut out, self.market_value);
        out.append(", \"timestamp\": ");
        append_u64(&mut out, timestamp);
        out.append("}");
        proof {
            assert(out@ =~= render_analysis(
                old(self).stocks_spec(),
                old(self).trades_spec(),
                old(self).volume_spec(),
                old(self).market_value_spec(),
                timestamp as nat,
            ));
        }
        self.trades = 0;
        self.volume = 0;
        self.market_value = 0;
        let ghost h0 = self.data_history.deep_view();
        let line = out.clone();
        self.data_history.push_back(line);
        proof {
            assert(self.data_history.deep_view() =~= h0.push(out@));
        }
        if self.data_history.len() > HISTORY_CAP {
            let ghost h1 = self.data_history.deep_view();
            let _ = self.data_history.pop_front();
            proof {
                assert(self.data_history.deep_view() =~= h1.subrange(1, h1.len() as int));
                assert(self.data_history.deep_view() =~= history_push(h0, out@));
            }
        } else {
            proof {
                assert(self.data_history.deep_view() =~= history_push(h0, out@));
            }
        }
        out
    }

    /// The kept aggregate messages followed by the replay-closing
    /// sentinel.
    pub fn get_history(&self) -> (r: Vec<String>)
        requires
            self.well_formed(),
        ensures
            r.deep_view() == self.history_view() + seq![end_of_update()],
            r@.len() <= HISTORY_CAP + 1,
    {
        let mut out: Vec<String> = Vec::new();
        let n = self.data_history.len();
        let mut i: usize = 0;
        while i < n
            invariant
                i <= n,
                n == self.data_history@.len(),
                out.deep_view() == self.data_history.deep_view().take(i as int),
            decreases n - i,
        {
            let line = self.data_history[i].clone();
            let ghost dv = out.deep_view();
            out.push(line);
            proof {
                assert(out.deep_view() =~= dv.push(self.data_history.deep_view()[i as int]));
                assert(out.deep_view() =~= self.data_history.deep_view().take(i as int + 1));
            }
            i = i + 1;
        }
        proof {
            assert(out.deep_view() =~= self.data_history.deep_view());
        }
        let sentinel = String::from_str("End of Update");
        out.push(sentinel);
        proof {
            assert(out.deep_view() =~= self.history_view() + seq![end_of_update()]);
        }
        out
    }
}

} // verus!
