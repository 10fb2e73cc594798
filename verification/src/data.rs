//! The candle record: one open/close/min/max/volume/trade-count summary
//! for a symbol over one interval, decoded from a feed record and rendered
//! to the outbound text form.
//!
//! A feed record is a `;`-separated positional list terminated by a
//! newline: `<ignored>;symbol;open;close;min;max;volume;trades;timestamp;
//! interval`. Prices and volume are decimal numbers stored as integers in
//! millionths of a unit; a price field allows at most ten integer digits
//! and six fractional digits, so every stored price is below `PRICE_CAP`
//! and sums over a window cannot overflow.

use vstd::prelude::*;

verus! {

use vstd::string::StringExecFns;
use vstd::string::StrSliceExecFns;
use crate::decimal::all_digits;
use crate::decimal::dec_val;
use crate::decimal::dec_str;
use crate::decimal::price_str;
use crate::decimal::pow10;
use crate::decimal::parse_digits;
use crate::decimal::pow10_u64;
use crate::decimal::append_u64;
use crate::decimal::append_price;
use crate::decimal::lemma_dec_val_bound;
use crate::decimal::lemma_pow10_values;
use crate::decimal::lemma_pow10_increases;

/// Exclusive upper bound on every stored price and volume, in millionths:
/// ten integer digits and six fractional digits.
pub const PRICE_CAP: u64 = 10000000000000000;

/// Why a feed record was rejected.
#[derive(Debug, Clone, Copy, PartialEq, Eq)]
pub enum DecodeError {
    /// The record has fewer than the ten expected fields.
    MissingField,
    /// A numeric field is empty, holds a non-digit, or is too long.
    BadNumber,
}

pub open spec fn is_sep(c: char) -> bool {
    c == ';' || c == '\n'
}

/// Index of the first separator at or after `from`, or the length of `s`.
pub open spec fn seg_end(s: Seq<char>, from: int) -> int
    decreases s.len() - from,
{
    if from < 0 || from >= s.len() {
        s.len() as int
    } else if is_sep(s[from]) {
        from
    } else {
        seg_end(s, from + 1)
    }
}

/// Start of field `k` in the record: fields are the segments between
/// separators, counted from zero.
pub open spec fn field_start(s: Seq<char>, k: nat) -> int
    decreases k,
{
    if k == 0 {
        0
    } else {
        seg_end(s, field_start(s, (k - 1) as nat)) + 1
    }
}

/// Whether the record has a field `k` at all.
pub open spec fn has_field(s: Seq<char>, k: nat) -> bool {
    field_start(s, k) <= s.len()
}

/// The text of field `k`.
pub open spec fn field_seq(s: Seq<char>, k: nat) -> Seq<char> {
    s.subrange(field_start(s, k), seg_end(s, field_start(s, k)))
}

/// Once the fields run out they stay run out.
pub proof fn lemma_field_start_stuck(s: Seq<char>, k: nat, k2: nat)
    requires
        k <= k2,
        field_start(s, k) > s.len(),
    ensures
        field_start(s, k2) > s.len(),
    decreases k2 - k,
{
    if k < k2 {
        assert(field_start(s, (k + 1) as nat) == seg_end(s, field_start(s, k)) + 1);
        assert(seg_end(s, field_start(s, k)) == s.len());
        lemma_field_start_stuck(s, (k + 1) as nat, k2);
    }
}

/// A plain integer field: one to nineteen decimal digits.
pub open spec fn u64_field_valid(f: Seq<char>) -> bool {
    1 <= f.len() <= 19 && all_digits(f)
}

/// Index of the first `.` at or after `from`, or the length of `s`.
pub open spec fn dot_pos(s: Seq<char>, from: int) -> int
    decreases s.len() - from,
{
    if from < 0 || from >= s.len() {
        s.len() as int
    } else if s[from] == '.' {
        from
    } else {
        dot_pos(s, from + 1)
    }
}

pub proof fn lemma_dot_pos(s: Seq<char>, from: int)
    requires
        0 <= from <= s.len(),
    ensures
        from <= dot_pos(s, from) <= s.len(),
    decreases s.len() - from,
{
    if from < s.len() && s[from] != '.' {
        lemma_dot_pos(s, from + 1);
    }
}

/// A price field: one to ten integer digits, optionally a dot and at most
/// six fractional digits.
pub open spec fn price_field_valid(f: Seq<char>) -> bool {
    let j = dot_pos(f, 0);
    &&& 1 <= j <= 10
    &&& all_digits(f.subrange(0, j))
    &&& (j < f.len() ==> f.len() - (j + 1) <= 6 && all_digits(
        f.subrange(j + 1, f.len() as int),
    ))
}

/// The value of a price field in millionths of a unit.
pub open spec fn price_field_val(f: Seq<char>) -> int {
    let j = dot_pos(f, 0);
    dec_val(f.subrange(0, j)) * 1000000 + if j < f.len() {
        dec_val(f.subrange(j + 1, f.len() as int)) * pow10(
            (6 - (f.len() - (j + 1))) as nat,
        )
    } else {
        0
    }
}

/// Whether the whole record decodes.
pub open spec fn record_valid(s: Seq<char>) -> bool {
    &&& has_field(s, 9)
    &&& price_field_valid(field_seq(s, 2))
    &&& price_field_valid(field_seq(s, 3))
    &&& price_field_valid(field_seq(s, 4))
    &&& price_field_valid(field_seq(s, 5))
    &&& price_field_valid(field_seq(s, 6))
    &&& u64_field_valid(field_seq(s, 7))
    &&& u64_field_valid(field_seq(s, 8))
    &&& u64_field_valid(field_seq(s, 9))
}

/// The error a failing decode reports: missing fields trump bad numbers,
/// since the field boundaries are found before any field is parsed.
pub open spec fn decode_err_of(s: Seq<char>) -> DecodeError {
    if !has_field(s, 9) {
        DecodeError::MissingField
    } else {
        DecodeError::BadNumber
    }
}

/// One candle: symbol, prices and volume in millionths, trade count,
/// timestamp in epoch milliseconds, and the interval bucket in seconds.
#[derive(Debug)]
pub struct OHLCModel {
    pub stock_name: String,
    pub price_open: u64,
    pub price_close: u64,
    pub min_price: u64,
    pub max_price: u64,
    pub volume: u64,
    pub trades: u64,
    pub timestamp: u64,
    pub stock_interval: u64,
}

/// All price-like fields of the candle are below `PRICE_CAP`.
pub open spec fn candle_bounded(m: OHLCModel) -> bool {
    &&& m.price_open < PRICE_CAP
    &&& m.price_close < PRICE_CAP
    &&& m.min_price < PRICE_CAP
    &&& m.max_price < PRICE_CAP
    &&& m.volume < PRICE_CAP
}

/// What a successful decode of a feed record yields, field by field.
pub open spec fn decodes_to(s: Seq<char>, m: OHLCModel) -> bool {
    &&& record_valid(s)
    &&& m.stock_name@ == field_seq(s, 1)
    &&& m.price_open as int == price_field_val(field_seq(s, 2))
    &&& m.price_close as int == price_field_val(field_seq(s, 3))
    &&& m.min_price as int == price_field_val(field_seq(s, 4))
    &&& m.max_price as int == price_field_val(field_seq(s, 5))
    &&& m.volume as int == price_field_val(field_seq(s, 6))
    &&& m.trades as int == dec_val(field_seq(s, 7))
    &&& m.timestamp as int == dec_val(field_seq(s, 8))
    &&& m.stock_interval as int == dec_val(field_seq(s, 9))
    &&& candle_bounded(m)
}

/// The outbound text form of a candle: a flat JSON-like object.
pub open spec fn render_candle(m: OHLCModel) -> Seq<char> {
    ("{\"stock_interval\": ")@ + dec_str(m.stock_interval as nat) + (", \"name\": \"")@
        + m.stock_name@ + ("\", \"price_open\": ")@ + price_str(m.price_open as nat)
        + (", \"price_close\": ")@ + price_str(m.price_close as nat) + (", \"min_price\": ")@
        + price_str(m.min_price as nat) + (", \"max_price\": ")@ + price_str(m.max_price as nat)
        + (", \"volume\": ")@ + price_str(m.volume as nat) + (", \"trades\": ")@ + dec_str(
        m.trades as nat,
    ) + (", \"timestamp\": ")@ + dec_str(m.timestamp as nat) + ("}")@
}

impl Clone for OHLCModel {
    /// A clone carries exactly the same fields.
    fn clone(&self) -> (r: Self)
        ensures
            r == *self,
    {
        let r = OHLCModel {
            stock_name: self.stock_name.clone(),
            price_open: self.price_open,
            price_close: self.price_close,
            min_price: self.min_price,
            max_price: self.max_price,
            volume: self.volume,
            trades: self.trades,
            timestamp: self.timestamp,
            stock_interval: self.stock_interval,
        };
        r
    }
}

/// Index of the first separator at or after `from`, as executable code.
fn next_sep(s: &str, from: usize, n: usize) -> (r: usize)
    requires
        from <= n,
        n == s@.len(),
    ensures
        from <= r <= n,
        r as int == seg_end(s@, from as int),
    decreases n - from,
{
    let mut i: usize = from;
    while i < n
        invariant
            from <= i <= n,
            n == s@.len(),
            seg_end(s@, from as int) == seg_end(s@, i as int),
        decreases n - i,
    {
        let c = s.get_char(i);
        if c == ';' || c == '\n' {
            proof {
                assert(seg_end(s@, i as int) == i as int);
            }
            return i;
        }
        proof {
            assert(!is_sep(s@[i as int]));
            assert(seg_end(s@, i as int) == seg_end(s@, i + 1));
        }
        i = i + 1;
    }
    proof {
        assert(seg_end(s@, i as int) == i as int);
    }
    i
}

/// Index of the first dot in `[from, end)`, or `end`, as executable code.
fn next_dot(s: &str, from: usize, end: usize) -> (r: usize)
    requires
        from <= end <= s@.len(),
    ensures
        from <= r <= end,
        r as int - from == dot_pos(s@.subrange(from as int, end as int), 0),
{
    let ghost seg = s@.subrange(from as int, end as int);
    let mut i: usize = from;
    while i < end
        invariant
            from <= i <= end <= s@.len(),
            seg == s@.subrange(from as int, end as int),
            dot_pos(seg, 0) == dot_pos(seg, i - from),
        decreases end - i,
    {
        let c = s.get_char(i);
        proof {
            assert(seg[i - from] == s@[i as int]);
        }
        if c == '.' {
            proof {
                assert(dot_pos(seg, i - from) == i - from);
            }
            return i;
        }
        proof {
            assert(seg[i - from] != '.');
            assert(dot_pos(seg, i - from) == dot_pos(seg, i - from + 1));
        }
        i = i + 1;
    }
    proof {
        assert(dot_pos(seg, i - from) == seg.len());
    }
    i
}

/// Parses the price field `s[start..end]` into millionths of a unit.
fn parse_price_range(s: &str, start: usize, end: usize) -> (r: Option<u64>)
    requires
        start <= end <= s@.len(),
    ensures
        r matches Some(v) ==> price_field_valid(s@.subrange(start as int, end as int)) && v as int
            == price_field_val(s@.subrange(start as int, end as int)) && v < PRICE_CAP,
        r is None ==> !price_field_valid(s@.subrange(start as int, end as int)),
{
    let ghost seg = s@.subrange(start as int, end as int);
    let dot = next_dot(s, start, end);
    let ghost j = dot_pos(seg, 0);
    proof {
        lemma_dot_pos(seg, 0);
    }
    if dot - start < 1 || dot - start > 10 {
        return None;
    }
    proof {
        assert(s@.subrange(start as int, dot as int) =~= seg.subrange(0, j));
    }
    let ip = match parse_digits(s, start, dot) {
        Some(v) => v,
        None => {
            return None;
        },
    };
    proof {
        lemma_dec_val_bound(seg.subrange(0, j));
        lemma_pow10_values();
        lemma_pow10_increases((dot - start) as nat, 10);
        assert(ip < pow10(10));
    }
    if dot == end {
        Some(ip * 1000000)
    } else {
        let flen = end - (dot + 1);
        if flen > 6 {
            return None;
        }
        if flen == 0 {
            proof {
                assert(seg.subrange(j + 1, seg.len() as int) =~= Seq::<char>::empty());
                assert(dec_val(seg.subrange(j + 1, seg.len() as int)) == 0);
            }
            Some(ip * 1000000)
        } else {
            proof {
                assert(s@.subrange((dot + 1) as int, end as int) =~= seg.subrange(
                    j + 1,
                    seg.len() as int,
                ));
            }
            let fp = match parse_digits(s, dot + 1, end) {
                Some(v) => v,
                None => {
                    return None;
                },
            };
            let scale = pow10_u64(6 - (flen as u64));
            proof {
                lemma_dec_val_bound(seg.subrange(j + 1, seg.len() as int));
                lemma_pow10_values();
                assert(fp < pow10(flen as nat));
                assert((fp as int) * (scale as int) < pow10(6)) by {
                    lemma_pow10_mul_bound(fp as nat, flen as nat);
                }
            }
            Some(ip * 1000000 + fp * scale)
        }
    }
}

/// A fraction of `flen` digits scaled to six digits stays below a million.
proof fn lemma_pow10_mul_bound(fp: nat, flen: nat)
    requires
        flen <= 6,
        fp < pow10(flen),
    ensures
        fp * pow10((6 - flen) as nat) < pow10(6),
{
    lemma_pow10_adds(flen, (6 - flen) as nat);
    let q = pow10((6 - flen) as nat);
    assert(q >= 1) by {
        lemma_pow10_ge_one((6 - flen) as nat);
    }
    assert(fp * q < pow10(flen) * q) by (nonlinear_arith)
        requires
            fp < pow10(flen),
            q >= 1,
    ;
}

proof fn lemma_pow10_adds(a: nat, b: nat)
    ensures
        pow10(a) * pow10(b) == pow10(a + b),
    decreases a,
{
    if a == 0 {
        assert(pow10(a) == 1);
        assert(a + b == b);
        assert(pow10(a) * pow10(b) == pow10(b));
    } else {
        lemma_pow10_adds((a - 1) as nat, b);
        let p = pow10((a - 1) as nat);
        let q = pow10(b);
        assert(pow10(a) == 10 * p);
        assert(pow10(a + b) == 10 * pow10((a + b - 1) as nat));
        assert(p * q == pow10((a + b - 1) as nat));
        assert(pow10(a) * q == 10 * (p * q)) by (nonlinear_arith)
            requires
                pow10(a) == 10 * p,
        ;
        assert(pow10(a) * pow10(b) == 10 * (p * q));
        assert(10 * (p * q) == 10 * pow10((a + b - 1) as nat));
        assert(pow10(a) * pow10(b) == pow10(a + b));
    }
}

proof fn lemma_pow10_ge_one(e: nat)
    ensures
        pow10(e) >= 1,
    decreases e,
{
    if e > 0 {
        lemma_pow10_ge_one((e - 1) as nat);
    }
}

/// Parses the integer field `s[start..end]`.
fn parse_u64_range(s: &str, start: usize, end: usize) -> (r: Option<u64>)
    requires
        start <= end <= s@.len(),
    ensures
        r matches Some(v) ==> u64_field_valid(s@.subrange(start as int, end as int)) && v as int
            == dec_val(s@.subrange(start as int, end as int)),
        r is None ==> !u64_field_valid(s@.subrange(start as int, end as int)),
{
    if end - start < 1 || end - start > 19 {
        return None;
    }
    parse_digits(s, start, end)
}

impl OHLCModel {
    /// Decodes one feed record. Succeeds exactly when the record has all
    /// ten fields and every numeric field parses; the decoded candle
    /// carries each field positionally and all prices below `PRICE_CAP`.
    pub fn from_string(s: &str) -> (r: Result<OHLCModel, DecodeError>)
        ensures
            r is Ok <==> record_valid(s@),
            r matches Ok(m) ==> decodes_to(s@, m),
            r matches Err(e) ==> e == decode_err_of(s@),
    {
        let n = s.unicode_len();
        // phase one: find the boundaries of all ten fields, so that a
        // record that is too short is always reported as missing fields
        let e0 = next_sep(s, 0, n);
        proof {
            assert(0 as int == field_start(s@, 0));
        }
        if e0 >= n {
            proof {
                lemma_missing(s@, 1);
            }
            return Err(DecodeError::MissingField);
        }
        let s1 = e0 + 1;
        let e1 = next_sep(s, s1, n);
        proof {
            assert(s1 as int == field_start(s@, 1));
        }
        if e1 >= n {
            proof {
                lemma_missing(s@, 2);
            }
            return Err(DecodeError::MissingField);
        }
        let s2 = e1 + 1;
        let e2 = next_sep(s, s2, n);
        proof {
            assert(s2 as int == field_start(s@, 2));
        }
        if e2 >= n {
            proof {
                lemma_missing(s@, 3);
            }
            return Err(DecodeError::MissingField);
        }
        let s3 = e2 + 1;
        let e3 = next_sep(s, s3, n);
        proof {
            assert(s3 as int == field_start(s@, 3));
        }
        if e3 >= n {
            proof {
                lemma_missing(s@, 4);
            }
            return Err(DecodeError::MissingField);
        }
        let s4 = e3 + 1;
        let e4 = next_sep(s, s4, n);
        proof {
            assert(s4 as int == field_start(s@, 4));
        }
        if e4 >= n {
            proof {
                lemma_missing(s@, 5);
            }
            return Err(DecodeError::MissingField);
        }
        let s5 = e4 + 1;
        let e5 = next_sep(s, s5, n);
        proof {
            assert(s5 as int == field_start(s@, 5));
        }
        if e5 >= n {
            proof {
                lemma_missing(s@, 6);
            }
            return Err(DecodeError::MissingField);
        }
        let s6 = e5 + 1;
        let e6 = next_sep(s, s6, n);
        proof {
            assert(s6 as int == field_start(s@, 6));
        }
        if e6 >= n {
            proof {
                lemma_missing(s@, 7);
            }
            return Err(DecodeError::MissingField);
        }
        let s7 = e6 + 1;
        let e7 = next_sep(s, s7, n);
        proof {
            assert(s7 as int == field_start(s@, 7));
        }
        if e7 >= n {
            proof {
                lemma_missing(s@, 8);
            }
            return Err(DecodeError::MissingField);
        }
        let s8 = e7 + 1;
        let e8 = next_sep(s, s8, n);
        proof {
            assert(s8 as int == field_start(s@, 8));
        }
        if e8 >= n {
            proof {
                lemma_missing(s@, 9);
            }
            return Err(DecodeError::MissingField);
        }
        let s9 = e8 + 1;
        let e9 = next_sep(s, s9, n);
        proof {
            assert(s9 as int == field_start(s@, 9));
            assert(has_field(s@, 9));
        }
        // phase two: decode each field
        let name = s.substring_char(s1, e1).to_owned();
        proof {
            assert(name@ == field_seq(s@, 1));
        }
        let price_open = match parse_price_range(s, s2, e2) {
            Some(v) => v,
            None => {
                return Err(DecodeError::BadNumber);
            },
        };
        let price_close = match parse_price_range(s, s3, e3) {
            Some(v) => v,
            None => {
                return Err(DecodeError::BadNumber);
            },
        };
        let min_price = match parse_price_range(s, s4, e4) {
            Some(v) => v,
            None => {
                return Err(DecodeError::BadNumber);
            },
        };
        let max_price = match parse_price_range(s, s5, e5) {
            Some(v) => v,
            None => {
                return Err(DecodeError::BadNumber);
            },
        };
        let volume = match parse_price_range(s, s6, e6) {
            Some(v) => v,
            None => {
                return Err(DecodeError::BadNumber);
            },
        };
        let trades = match parse_u64_range(s, s7, e7) {
            Some(v) => v,
            None => {
                return Err(DecodeError::BadNumber);
            },
        };
        let timestamp = match parse_u64_range(s, s8, e8) {
            Some(v) => v,
            None => {
                return Err(DecodeError::BadNumber);
            },
        };
        let stock_interval = match parse_u64_range(s, s9, e9) {
            Some(v) => v,
            None => {
                return Err(DecodeError::BadNumber);
            },
        };
        Ok(
            OHLCModel {
                stock_name: name,
                price_open,
                price_close,
                min_price,
                max_price,
                volume,
                trades,
                timestamp,
                stock_interval,
            },
        )
    }

    /// Renders the candle to its outbound text form.
    pub fn to_string(&self) -> (r: String)
        ensures
            r@ == render_candle(*self),
    {
        let mut out = String::new();
        out.append("{\"stock_interval\": ");
        append_u64(&mut out, self.stock_interval);
        out.append(", \"name\": \"");
        out.append(self.stock_name.as_str());
        out.append("\", \"price_open\": ");
        append_price(&mut out, self.price_open);
        out.append(", \"price_close\": ");
        append_price(&mut out, self.price_close);
        out.append(", \"min_price\": ");
        append_price(&mut out, self.min_price);
        out.append(", \"max_price\": ");
        append_price(&mut out, self.max_price);
        out.append(", \"volume\": ");
        append_price(&mut out, self.volume);
        out.append(", \"trades\": ");
        append_u64(&mut out, self.trades);
        out.append(", \"timestamp\": ");
        append_u64(&mut out, self.timestamp);
        out.append("}");
        proof {
            assert(out@ =~= render_candle(*self));
        }
        out
    }
}

/// When a field has no room left, field nine does not exist either.
proof fn lemma_missing(s: Seq<char>, k: nat)
    requires
        k <= 9,
        field_start(s, k) > s.len(),
    ensures
        !has_field(s, 9),
{
    lemma_field_start_stuck(s, k, 9);
}

} // verus!
