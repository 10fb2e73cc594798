//! The symbol-indexed cache: decodes inbound feed text into candles,
//! routes each candle to its symbol's per-interval series (allocating the
//! series on the first candle of an unseen symbol), keeps the market-wide
//! aggregate counters, and renders snapshots that seed new subscribers.

use vstd::prelude::*;

verus! {

use vstd::string::StringExecFns;
use vstd::string::StrSliceExecFns;
use crate::data::OHLCModel;
use crate::data::DecodeError;
use crate::data::decodes_to;
use crate::data::decode_err_of;
use crate::data::record_valid;
use crate::data::candle_bounded;
use crate::stock_analysis::AnalysisInfo;
use crate::stock_analysis::sat_add_u64;
use crate::stock_analysis::sat_add_u128;
use crate::stock_analysis::end_of_update;
use crate::stock_information::StockInformation;
use crate::stock_information::IntervalBucket;
use crate::stock_information::bucket_index;
use crate::stock_information::sum_prices;
use crate::stock_information::bucket_ingested;
use crate::stock_information::snapshot_of;

/// The cache state as seen by specifications: the symbol names, the
/// per-symbol series in the same order, the aggregate counters, and the
/// timestamp of the last routed candle.
pub type CacheState = (Seq<String>, Seq<StockInformation>, AnalysisInfo, u64);

/// Whether some tracked symbol has this name.
pub open spec fn has_name(names: Seq<String>, name: Seq<char>) -> bool {
    exists|i: int| 0 <= i < names.len() && #[trigger] names[i]@ == name
}

/// A freshly allocated series: well-formed, every window empty, every
/// exponential moving average unseeded.
pub open spec fn empty_series(s: StockInformation) -> bool {
    &&& s.well_formed()
    &&& forall|i: int|
        0 <= i < 5 ==> (#[trigger] s.bucket(i)).window_view() == Seq::<OHLCModel>::empty()
            && s.bucket(i).ema_spec() == 0
}

/// What routing one candle through a series changes: exactly the bucket
/// of the candle's interval, by one ingest step.
pub open spec fn series_step(s0: StockInformation, s1: StockInformation, m: OHLCModel) -> bool {
    &&& forall|b: int|
        0 <= b < 5 && b != bucket_index(m.stock_interval) ==> #[trigger] s1.bucket(b)
            == s0.bucket(b)
    &&& bucket_index(m.stock_interval) >= 0 ==> bucket_ingested(
        s0.bucket(bucket_index(m.stock_interval)),
        s1.bucket(bucket_index(m.stock_interval)),
        m,
    )
    &&& bucket_index(m.stock_interval) < 0 ==> s1 == s0
}

/// What accumulating one candle does to the aggregate counters.
pub open spec fn analysis_step(a0: AnalysisInfo, a1: AnalysisInfo, m: OHLCModel, stocks: nat) -> bool {
    &&& a1.trades_spec() == sat_add_u64(a0.trades_spec() as int, m.trades as int)
    &&& a1.volume_spec() == sat_add_u64(a0.volume_spec() as int, m.volume as int)
    &&& a1.market_value_spec() == sat_add_u128(
        a0.market_value_spec() as int,
        (m.price_close as int) * (m.volume as int),
    )
    &&& a1.stocks_spec() == stocks
    &&& a1.history_view() == a0.history_view()
}

/// What routing one decoded candle does to the whole cache: the candle
/// reaches its symbol's series (allocated fresh when unseen), the
/// aggregate counters accumulate it, and the last timestamp is taken.
pub open spec fn route_step(v0: CacheState, v1: CacheState, m: OHLCModel) -> bool {
    &&& v1.3 == m.timestamp
    &&& analysis_step(v0.2, v1.2, m, v1.0.len() as nat)
    &&& if has_name(v0.0, m.stock_name@) {
        &&& v1.0 == v0.0
        &&& v1.1.len() == v0.1.len()
        &&& exists|i: int|
            0 <= i < v0.0.len() && #[trigger] v0.0[i]@ == m.stock_name@ && series_step(
                v0.1[i],
                v1.1[i],
                m,
            ) && (forall|j: int| 0 <= j < v0.1.len() && j != i ==> v1.1[j] == v0.1[j])
    } else {
        &&& v1.0.len() == v0.0.len() + 1
        &&& v1.0 == v0.0.push(v1.0.last())
        &&& v1.0.last()@ == m.stock_name@
        &&& v1.1.len() == v0.1.len() + 1
        &&& (forall|j: int| 0 <= j < v0.1.len() ==> v1.1[j] == v0.1[j])
        &&& exists|s0: StockInformation| empty_series(s0) && series_step(s0, v1.1.last(), m)
    }
}

/// What one complete feed line does: a valid record is decoded and
/// routed, an invalid one is dropped.
pub open spec fn line_step(v0: CacheState, v1: CacheState, line: Seq<char>) -> bool {
    if record_valid(line) {
        exists|m: OHLCModel| #[trigger] decodes_to(line, m) && route_step(v0, v1, m)
    } else {
        v1 == v0
    }
}

/// The cache transition over a list of complete feed lines, in order.
pub open spec fn ingest_rel(v0: CacheState, v1: CacheState, lines: Seq<Seq<char>>) -> bool
    decreases lines.len(),
{
    if lines.len() == 0 {
        v1 == v0
    } else {
        exists|mid: CacheState|
            ingest_rel(v0, mid, lines.drop_last()) && #[trigger] line_step(
                mid,
                v1,
                lines.last(),
            )
    }
}

/// Extending a fold over lines by one processed line.
pub proof fn lemma_ingest_rel_snoc(
    v0: CacheState,
    mid: CacheState,
    v1: CacheState,
    lines: Seq<Seq<char>>,
    line: Seq<char>,
)
    requires
        ingest_rel(v0, mid, lines),
        line_step(mid, v1, line),
    ensures
        ingest_rel(v0, v1, lines.push(line)),
{
    assert(lines.push(line).drop_last() =~= lines);
    assert(lines.push(line).last() == line);
    assert(ingest_rel(v0, mid, lines.push(line).drop_last()));
    assert(line_step(mid, v1, lines.push(line).last()));
    assert(ingest_rel(v0, v1, lines.push(line)));
}

/// Index of the first newline at or after `from`, or the length of `s`.
pub open spec fn nl_pos(s: Seq<char>, from: int) -> int
    decreases s.len() - from,
{
    if from < 0 || from >= s.len() {
        s.len() as int
    } else if s[from] == '\n' {
        from
    } else {
        nl_pos(s, from + 1)
    }
}

/// The complete (newline-terminated) lines of the feed text; trailing
/// text with no terminator is not a line.
pub open spec fn lines_of(s: Seq<char>) -> Seq<Seq<char>>
    decreases s.len(),
{
    let j = nl_pos(s, 0);
    if j < 0 || j >= s.len() {
        Seq::<Seq<char>>::empty()
    } else {
        seq![s.subrange(0, j)] + lines_of(s.subrange(j + 1, s.len() as int))
    }
}

proof fn lemma_nl_pos_range(s: Seq<char>, from: int)
    requires
        0 <= from <= s.len(),
    ensures
        from <= nl_pos(s, from) <= s.len(),
    decreases s.len() - from,
{
    if from < s.len() && s[from] != '\n' {
        lemma_nl_pos_range(s, from + 1);
    }
}

/// Index of the first newline in `[from, n)`, or `n`, as executable code.
fn next_nl(s: &str, from: usize, n: usize) -> (r: usize)
    requires
        from <= n,
        n == s@.len(),
    ensures
        from <= r <= n,
        r as int == nl_pos(s@, from as int),
    decreases n - from,
{
    let mut i: usize = from;
    while i < n
        invariant
            from <= i <= n,
            n == s@.len(),
            nl_pos(s@, from as int) == nl_pos(s@, i as int),
        decreases n - i,
    {
        let c = s.get_char(i);
        if c == '\n' {
            proof {
                assert(nl_pos(s@, i as int) == i as int);
            }
            return i;
        }
        proof {
            assert(nl_pos(s@, i as int) == nl_pos(s@, i + 1));
        }
        i = i + 1;
    }
    proof {
        assert(nl_pos(s@, i as int) == i as int);
    }
    i
}

/// The symbol-indexed cache of per-symbol series, with the aggregate
/// counters of the all-symbols feed.
pub struct StockInformationCache {
    names: Vec<String>,
    stock_vec: Vec<StockInformation>,
    analysis: AnalysisInfo,
    last_timestamp: u64,
}

impl StockInformationCache {
    /// The cache state as specifications see it.
    pub closed spec fn state_view(self) -> CacheState {
        (self.names@, self.stock_vec@, self.analysis, self.last_timestamp)
    }

    /// The tracked symbol names, in allocation order.
    pub closed spec fn symbols(self) -> Seq<String> {
        self.names@
    }

    /// The per-symbol series, in allocation order.
    pub closed spec fn series(self) -> Seq<StockInformation> {
        self.stock_vec@
    }

    /// The aggregate counters.
    pub closed spec fn analysis_view(self) -> AnalysisInfo {
        self.analysis
    }

    /// Whether a symbol with this name is tracked.
    pub open spec fn has_symbol(self, name: Seq<char>) -> bool {
        has_name(self.symbols(), name)
    }

    /// The cache invariant: one series per name, names distinct, every
    /// series and the aggregate counters well-formed.
    pub closed spec fn well_formed(self) -> bool {
        &&& self.names@.len() == self.stock_vec@.len()
        &&& forall|i: int, j: int|
            0 <= i < j < self.names@.len() ==> self.names@[i]@ != self.names@[j]@
        &&& forall|i: int|
            0 <= i < self.stock_vec@.len() ==> (#[trigger] self.stock_vec@[i]).well_formed()
        &&& self.analysis.well_formed()
    }

    pub fn new() -> (c: Self)
        ensures
            c.well_formed(),
            c.symbols() == Seq::<String>::empty(),
            c.series() == Seq::<StockInformation>::empty(),
            c.analysis_view().history_view() == Seq::<Seq<char>>::empty(),
            c.analysis_view().trades_spec() == 0,
            c.analysis_view().volume_spec() == 0,
            c.analysis_view().market_value_spec() == 0,
            c.analysis_view().stocks_spec() == 0,
    {
        StockInformationCache {
            names: Vec::new(),
            stock_vec: Vec::new(),
            analysis: AnalysisInfo::new(),
            last_timestamp: 0,
        }
    }

    /// The tracked index of a name, if any.
    fn find_idx(&self, name: &String) -> (r: Option<usize>)
        requires
            self.well_formed(),
        ensures
            r matches Some(i) ==> i < self.symbols().len() && self.symbols()[i as int]@ == name@,
            r is None <==> !self.has_symbol(name@),
    {
        let n = self.names.len();
        let mut i: usize = 0;
        while i < n
            invariant
                i <= n,
                n == self.names@.len(),
                forall|j: int| 0 <= j < i ==> #[trigger] self.names@[j]@ != name@,
            decreases n - i,
        {
            if self.names[i] == *name {
                return Some(i);
            }
            i = i + 1;
        }
        None
    }

    /// Whether a symbol with this name is tracked.
    pub fn has_key(&self, name: &String) -> (r: bool)
        requires
            self.well_formed(),
        ensures
            r == self.has_symbol(name@),
    {
        self.find_idx(name).is_some()
    }

    /// Decodes every complete line of the feed text, routes each valid
    /// record's candle to its symbol's series, and returns the last
    /// decoded candle. Invalid records are dropped and decoding goes on;
    /// the call fails only when no line decodes, with the last line's
    /// decode error (or a missing-field error when there is no line).
    pub fn add_json(&mut self, json_data: &str) -> (r: Result<OHLCModel, DecodeError>)
        requires
            old(self).well_formed(),
        ensures
            final(self).well_formed(),
            ingest_rel(
                old(self).state_view(),
                final(self).state_view(),
                lines_of(json_data@),
            ),
            r is Ok <==> exists|i: int|
                0 <= i < lines_of(json_data@).len() && record_valid(
                    #[trigger] lines_of(json_data@)[i],
                ),
            r matches Ok(m) ==> candle_bounded(m) && exists|i: int|
                0 <= i < lines_of(json_data@).len() && #[trigger] decodes_to(
                    lines_of(json_data@)[i],
                    m,
                ) && (forall|j: int|
                    i < j < lines_of(json_data@).len() ==> !record_valid(
                        #[trigger] lines_of(json_data@)[j],
                    )),
            r matches Err(e) ==> e == if lines_of(json_data@).len() == 0 {
                DecodeError::MissingField
            } else {
                decode_err_of(lines_of(json_data@).last())
            },
    {
        let n = json_data.unicode_len();
        let mut pos: usize = 0;
        let mut last_ok: Option<OHLCModel> = None;
        let mut last_err = DecodeError::MissingField;
        let ghost v0 = self.state_view();
        let ghost all_lines = lines_of(json_data@);
        let ghost mut done: Seq<Seq<char>> = Seq::<Seq<char>>::empty();
        let ghost mut ok_idx: int = 0;
        proof {
            assert(ingest_rel(v0, self.state_view(), done));
            assert(json_data@.subrange(0, n as int) =~= json_data@);
            assert(done + lines_of(json_data@) =~= all_lines);
            assert(all_lines.take(0) =~= done);
        }
        loop
            invariant
                pos <= n,
                n == json_data@.len(),
                self.well_formed(),
                done + lines_of(json_data@.subrange(pos as int, n as int)) == all_lines,
                all_lines == lines_of(json_data@),
                done.len() <= all_lines.len(),
                done == all_lines.take(done.len() as int),
                ingest_rel(v0, self.state_view(), done),
                match last_ok {
                    Some(m) => candle_bounded(m) && 0 <= ok_idx < done.len() && decodes_to(
                        done[ok_idx],
                        m,
                    ) && (forall|j: int|
                        ok_idx < j < done.len() ==> !record_valid(#[trigger] done[j])),
                    None => forall|i: int|
                        0 <= i < done.len() ==> !record_valid(#[trigger] done[i]),
                },
                last_ok is None && done.len() > 0 ==> last_err == decode_err_of(done.last()),
                last_ok is None && done.len() == 0 ==> last_err == DecodeError::MissingField,
            ensures
                done == all_lines,
                self.well_formed(),
                ingest_rel(v0, self.state_view(), done),
                match last_ok {
                    Some(m) => candle_bounded(m) && 0 <= ok_idx < done.len() && decodes_to(
                        done[ok_idx],
                        m,
                    ) && (forall|j: int|
                        ok_idx < j < done.len() ==> !record_valid(#[trigger] done[j])),
                    None => forall|i: int|
                        0 <= i < done.len() ==> !record_valid(#[trigger] done[i]),
                },
                last_ok is None && done.len() > 0 ==> last_err == decode_err_of(done.last()),
                last_ok is None && done.len() == 0 ==> last_err == DecodeError::MissingField,
            decreases n - pos,
        {
            let ghost rest = json_data@.subrange(pos as int, n as int);
            let j = next_nl(json_data, pos, n);
            proof {
                lemma_nl_pos_range(json_data@, pos as int);
                assert(nl_pos(rest, 0) == nl_pos(json_data@, pos as int) - pos) by {
                    lemma_nl_shift(json_data@, pos as int, n as int);
                }
            }
            if j >= n {
                proof {
                    assert(nl_pos(rest, 0) >= rest.len());
                    assert(lines_of(rest) =~= Seq::<Seq<char>>::empty());
                    assert(done =~= all_lines);
                }
                break ;
            }
            let ghost line = json_data@.subrange(pos as int, j as int);
            let ghost prev = done;
            proof {
                assert(nl_pos(rest, 0) == j - pos);
                assert(rest.subrange(0, j - pos) =~= line);
                assert(rest.subrange(j - pos + 1, rest.len() as int) =~= json_data@.subrange(
                    j + 1,
                    n as int,
                ));
                assert(lines_of(rest) =~= seq![line] + lines_of(
                    json_data@.subrange(j + 1, n as int),
                ));
                done = done.push(line);
                assert(done + lines_of(json_data@.subrange(j + 1, n as int)) =~= all_lines);
                assert(all_lines.take(prev.len() as int + 1) =~= done);
                assert(done.last() == line);
                assert(done[prev.len() as int] == line);
                assert forall|i: int| 0 <= i < prev.len() implies done[i] == prev[i] by {}
            }
            let rec = json_data.substring_char(pos, j);
            let ghost mid = self.state_view();
            match OHLCModel::from_string(rec) {
                Ok(m) => {
                    let routed = m.clone();
                    self.route_candle(routed);
                    proof {
                        assert(decodes_to(line, m));
                        assert(route_step(mid, self.state_view(), m));
                        assert(line_step(mid, self.state_view(), line));
                        lemma_ingest_rel_snoc(v0, mid, self.state_view(), prev, line);
                        assert(ingest_rel(v0, self.state_view(), done));
                        ok_idx = prev.len() as int;
                        assert(decodes_to(done[ok_idx], m));
                        assert(forall|jj: int|
                            ok_idx < jj < done.len() ==> !record_valid(#[trigger] done[jj]));
                    }
                    last_ok = Some(m);
                },
                Err(e) => {
                    proof {
                        assert(!record_valid(line));
                        assert(line_step(mid, self.state_view(), line));
                        lemma_ingest_rel_snoc(v0, mid, self.state_view(), prev, line);
                        assert(ingest_rel(v0, self.state_view(), done));
                        assert(e == decode_err_of(line));
                        assert(!record_valid(done[done.len() - 1]));
                        if last_ok is Some {
                            assert(decodes_to(done[ok_idx], last_ok->Some_0));
                            assert forall|jj: int|
                                ok_idx < jj < done.len() implies !record_valid(
                                #[trigger] done[jj],
                            ) by {
                                if jj < prev.len() {
                                    assert(done[jj] == prev[jj]);
                                    assert(!record_valid(prev[jj]));
                                }
                            }
                        } else {
                            assert forall|i: int| 0 <= i < done.len() implies !record_valid(
                                #[trigger] done[i],
                            ) by {
                                if i < prev.len() {
                                    assert(done[i] == prev[i]);
                                    assert(!record_valid(prev[i]));
                                }
                            }
                        }
                    }
                    last_err = e;
                },
            }
            pos = j + 1;
        }
        proof {
            if last_ok is Some {
                let m0 = last_ok->Some_0;
                assert(decodes_to(lines_of(json_data@)[ok_idx], m0));
                assert(record_valid(lines_of(json_data@)[ok_idx]));
                assert forall|jj: int|
                    ok_idx < jj < lines_of(json_data@).len() implies !record_valid(
                    #[trigger] lines_of(json_data@)[jj],
                ) by {
                    assert(lines_of(json_data@)[jj] == done[jj]);
                    assert(!record_valid(done[jj]));
                }
                assert(exists|i: int|
                    0 <= i < lines_of(json_data@).len() && #[trigger] decodes_to(
                        lines_of(json_data@)[i],
                        m0,
                    ) && (forall|jj: int|
                        i < jj < lines_of(json_data@).len() ==> !record_valid(
                            #[trigger] lines_of(json_data@)[jj],
                        )));
                assert(exists|i: int|
                    0 <= i < lines_of(json_data@).len() && record_valid(
                        #[trigger] lines_of(json_data@)[i],
                    ));
            } else {
                assert(forall|i: int|
                    0 <= i < lines_of(json_data@).len() ==> !record_valid(
                        #[trigger] lines_of(json_data@)[i],
                    ));
            }
        }
        match last_ok {
            Some(m) => Ok(m),
            None => Err(last_err),
        }
    }

    /// Routes one decoded candle: finds or allocates the symbol's series,
    /// ingests the candle there, and accumulates the aggregate counters.
    fn route_candle(&mut self, m: OHLCModel)
        requires
            old(self).well_formed(),
            candle_bounded(m),
        ensures
            final(self).well_formed(),
            route_step(old(self).state_view(), final(self).state_view(), m),
    {
        let ghost v0 = self.state_view();
        match self.find_idx(&m.stock_name) {
            Some(idx) => {
                let ghost names0 = self.names@;
                let ghost vec0 = self.stock_vec@;
                let mut series = self.stock_vec.remove(idx);
                let candle = m.clone();
                series.add_ohlc(candle);
                self.stock_vec.insert(idx, series);
                proof {
                    assert(self.stock_vec@ =~= vec0.update(idx as int, series));
                    assert(series_step(vec0[idx as int], series, m));
                    assert forall|i: int|
                        0 <= i < self.stock_vec@.len() implies (#[trigger] self.stock_vec@[i]).well_formed() by {
                        if i != idx {
                            assert(self.stock_vec@[i] == vec0[i]);
                        }
                    }
                }
            },
            None => {
                let ghost names0 = self.names@;
                let ghost vec0 = self.stock_vec@;
                self.names.push(m.stock_name.clone());
                let mut series = StockInformation::new();
                let ghost fresh = series;
                let candle = m.clone();
                series.add_ohlc(candle);
                self.stock_vec.push(series);
                proof {
                    assert(empty_series(fresh));
                    assert(series_step(fresh, series, m));
                    assert(self.names@ == names0.push(m.stock_name));
                    assert(self.names@.last()@ == m.stock_name@);
                    assert forall|i: int, j: int|
                        0 <= i < j < self.names@.len() implies self.names@[i]@
                        != self.names@[j]@ by {
                        if j == self.names@.len() - 1 {
                            assert(self.names@[i] == names0[i]);
                            assert(!has_name(names0, m.stock_name@));
                            assert(names0[i]@ != m.stock_name@);
                        } else {
                            assert(self.names@[i] == names0[i]);
                            assert(self.names@[j] == names0[j]);
                        }
                    }
                    assert forall|i: int|
                        0 <= i < self.stock_vec@.len() implies (#[trigger] self.stock_vec@[i]).well_formed() by {
                        if i < vec0.len() {
                            assert(self.stock_vec@[i] == vec0[i]);
                        }
                    }
                }
            },
        }
        self.analysis.add_ohlc(&m);
        let count = self.names.len();
        self.analysis.set_stock_number(count);
        self.last_timestamp = m.timestamp;
        proof {
            assert(route_step(v0, self.state_view(), m));
        }
    }

    /// The simple moving average of one symbol's interval bucket, in
    /// millionths: the window's price sum over its length, zero when the
    /// window is empty; `None` when the symbol is untracked or the
    /// interval unsupported.
    pub fn sma(&self, name: &String, interval: u64) -> (r: Option<u64>)
        requires
            self.well_formed(),
        ensures
            r is None <==> !self.has_symbol(name@) || bucket_index(interval) < 0,
            r matches Some(v) ==> exists|k: int|
                0 <= k < self.symbols().len() && #[trigger] self.symbols()[k]@ == name@ && {
                    let b = self.series()[k].bucket(bucket_index(interval));
                    v as int == if b.window_view().len() == 0 {
                        0
                    } else {
                        sum_prices(b.window_view()) / (b.window_view().len() as int)
                    }
                },
    {
        match self.find_idx(name) {
            None => None,
            Some(i) => {
                proof {
                    assert(self.stock_vec@[i as int].well_formed());
                }
                self.stock_vec[i].sma(interval)
            },
        }
    }

    /// The current exponential moving average of one symbol's interval
    /// bucket, in millionths; `None` when the symbol is untracked or the
    /// interval unsupported.
    pub fn ema(&self, name: &String, interval: u64) -> (r: Option<u64>)
        requires
            self.well_formed(),
        ensures
            r is None <==> !self.has_symbol(name@) || bucket_index(interval) < 0,
            r matches Some(v) ==> exists|k: int|
                0 <= k < self.symbols().len() && #[trigger] self.symbols()[k]@ == name@ && v
                    == self.series()[k].bucket(bucket_index(interval)).ema_spec(),
    {
        match self.find_idx(name) {
            None => None,
            Some(i) => {
                proof {
                    assert(self.stock_vec@[i as int].well_formed());
                }
                self.stock_vec[i].ema(interval)
            },
        }
    }

    /// The `num/den` quantile price of one symbol's interval bucket, in
    /// millionths; `None` when the symbol is untracked or the interval
    /// unsupported, and zero for an empty window.
    pub fn quantile(&self, name: &String, interval: u64, num: u64, den: u64) -> (r: Option<u64>)
        requires
            self.well_formed(),
            0 < den <= 1000000,
            num <= den,
        ensures
            r is None <==> !self.has_symbol(name@) || bucket_index(interval) < 0,
            r matches Some(v) ==> exists|k: int|
                0 <= k < self.symbols().len() && #[trigger] self.symbols()[k]@ == name@ && {
                    let b = self.series()[k].bucket(bucket_index(interval));
                    &&& b.window_view().len() == 0 ==> v == 0
                    &&& b.window_view().len() > 0 ==> v as nat == b.tree_nth(
                        IntervalBucket::quantile_rank(
                            num as int,
                            den as int,
                            b.window_view().len() as int,
                        ) as nat,
                    )
                },
    {
        match self.find_idx(name) {
            None => None,
            Some(i) => {
                proof {
                    assert(self.stock_vec@[i as int].well_formed());
                }
                self.stock_vec[i].quantile(interval, num, den)
            },
        }
    }

    /// The snapshot that seeds a subscriber of this symbol: every
    /// windowed candle of every interval bucket rendered in order,
    /// closed by the end-of-update sentinel. An untracked name yields an
    /// empty snapshot.
    pub fn get_vec_of_stock(&self, name: &String) -> (r: Vec<String>)
        requires
            self.well_formed(),
        ensures
            !self.has_symbol(name@) ==> r.deep_view() == Seq::<Seq<char>>::empty(),
            self.has_symbol(name@) ==> exists|i: int|
                0 <= i < self.symbols().len() && #[trigger] self.symbols()[i]@ == name@
                    && r.deep_view() == snapshot_of(self.series()[i]) + seq![end_of_update()],
            r@.len() <= 601,
    {
        match self.find_idx(name) {
            None => {
                let r: Vec<String> = Vec::new();
                proof {
                    assert(r.deep_view() =~= Seq::<Seq<char>>::empty());
                }
                r
            },
            Some(idx) => {
                proof {
                    assert(self.stock_vec@[idx as int].well_formed());
                    crate::stock_information::lemma_snapshot_len(self.stock_vec@[idx as int]);
                }
                let mut r = self.stock_vec[idx].render_windows();
                let sentinel = String::from_str("End of Update");
                let ghost dv = r.deep_view();
                r.push(sentinel);
                proof {
                    assert(r.deep_view() =~= dv + seq![end_of_update()]);
                }
                r
            },
        }
    }

    /// Closes the current aggregate period: renders the aggregate
    /// message, clears the counters, appends the message to the
    /// aggregate history, and returns it.
    pub fn retrieve_data_events(&mut self) -> (r: String)
        requires
            old(self).well_formed(),
        ensures
            final(self).well_formed(),
            final(self).symbols() == old(self).symbols(),
            final(self).series() == old(self).series(),
            r@ == crate::stock_analysis::render_analysis(
                old(self).analysis_view().stocks_spec(),
                old(self).analysis_view().trades_spec(),
                old(self).analysis_view().volume_spec(),
                old(self).analysis_view().market_value_spec(),
                old(self).state_view().3 as nat,
            ),
            final(self).analysis_view().trades_spec() == 0,
            final(self).analysis_view().volume_spec() == 0,
            final(self).analysis_view().market_value_spec() == 0,
            final(self).analysis_view().history_view() == crate::stock_analysis::history_push(
                old(self).analysis_view().history_view(),
                r@,
            ),
    {
        let ts = self.last_timestamp;
        self.analysis.reset(ts)
    }

    /// The aggregate history followed by the end-of-update sentinel, to
    /// seed a subscriber of the aggregate feed.
    pub fn get_history(&self) -> (r: Vec<String>)
        requires
            self.well_formed(),
        ensures
            r.deep_view() == self.analysis_view().history_view() + seq![end_of_update()],
            r@.len() <= 121,
    {
        self.analysis.get_history()
    }
}

/// Scanning for a newline inside a suffix matches scanning the whole
/// text from the suffix's start.
proof fn lemma_nl_shift(s: Seq<char>, pos: int, n: int)
    requires
        0 <= pos <= n,
        n == s.len(),
    ensures
        nl_pos(s.subrange(pos, n), 0) == nl_pos(s, pos) - pos,
    decreases n - pos,
{
    let rest = s.subrange(pos, n);
    if pos == n {
        assert(rest.len() == 0);
    } else if s[pos] == '\n' {
        assert(rest[0] == '\n');
    } else {
        assert(rest[0] != '\n');
        lemma_nl_shift(s, pos + 1, n);
        assert(s.subrange(pos + 1, n) =~= rest.subrange(1, rest.len() as int));
        lemma_nl_shift_one(rest);
    }
}

/// Unfolding one step of the newline scan on a non-empty sequence whose
/// head is not a newline.
proof fn lemma_nl_shift_one(rest: Seq<char>)
    requires
        rest.len() > 0,
        rest[0] != '\n',
    ensures
        nl_pos(rest, 0) == nl_pos(rest.subrange(1, rest.len() as int), 0) + 1,
    decreases rest.len(),
{
    let tail = rest.subrange(1, rest.len() as int);
    lemma_nl_chain(rest, tail, 1);
}

/// The scan position advances in lockstep between a sequence and its
/// tail.
proof fn lemma_nl_chain(rest: Seq<char>, tail: Seq<char>, from: int)
    requires
        rest.len() > 0,
        tail =~= rest.subrange(1, rest.len() as int),
        1 <= from <= rest.len(),
    ensures
        nl_pos(rest, from) == nl_pos(tail, from - 1) + 1,
    decreases rest.len() - from,
{
    if from >= rest.len() {
    } else if rest[from] == '\n' {
        assert(tail[from - 1] == '\n');
    } else {
        assert(tail[from - 1] != '\n');
        lemma_nl_chain(rest, tail, from + 1);
    }
}

} // verus!
