//! Decimal text handling for the fixed-point quantities of the feed.
//!
//! Prices and volumes travel as decimal text (`"101.5"`) and live in the
//! core as integers counted in millionths of a unit. This module gives the
//! exact meaning of such text as spec functions and provides verified
//! routines that parse a digit run into a `u64` and append decimal
//! renderings to a `String`.

use vstd::prelude::*;

verus! {

use vstd::string::StringExecFns;
use vstd::string::StrSliceExecFns;

/// Numeric value of a decimal digit character, or -1 for any other char.
pub open spec fn digit_val(c: char) -> int {
    if c == '0' {
        0
    } else if c == '1' {
        1
    } else if c == '2' {
        2
    } else if c == '3' {
        3
    } else if c == '4' {
        4
    } else if c == '5' {
        5
    } else if c == '6' {
        6
    } else if c == '7' {
        7
    } else if c == '8' {
        8
    } else if c == '9' {
        9
    } else {
        -1
    }
}

pub open spec fn is_digit_char(c: char) -> bool {
    digit_val(c) >= 0
}

pub open spec fn all_digits(s: Seq<char>) -> bool {
    forall|i: int| 0 <= i < s.len() ==> is_digit_char(#[trigger] s[i])
}

/// The number denoted by a run of decimal digits, most significant first.
pub open spec fn dec_val(s: Seq<char>) -> int
    decreases s.len(),
{
    if s.len() == 0 {
        0
    } else {
        dec_val(s.drop_last()) * 10 + digit_val(s.last())
    }
}

/// The decimal digit character for a value in `0..10`.
pub open spec fn digit_char(d: int) -> char {
    if d == 0 {
        '0'
    } else if d == 1 {
        '1'
    } else if d == 2 {
        '2'
    } else if d == 3 {
        '3'
    } else if d == 4 {
        '4'
    } else if d == 5 {
        '5'
    } else if d == 6 {
        '6'
    } else if d == 7 {
        '7'
    } else if d == 8 {
        '8'
    } else {
        '9'
    }
}

/// The canonical decimal rendering of a natural number (no leading zeros,
/// except for the single digit `0` itself).
pub open spec fn dec_str(n: nat) -> Seq<char>
    decreases n,
{
    if n < 10 {
        seq![digit_char(n as int)]
    } else {
        dec_str(n / 10).push(digit_char((n % 10) as int))
    }
}

pub open spec fn pow10(e: nat) -> nat
    decreases e,
{
    if e == 0 {
        1
    } else {
        10 * pow10((e - 1) as nat)
    }
}

/// Concrete values of the powers of ten a 64-bit quantity can need.
pub proof fn lemma_pow10_values()
    ensures
        pow10(0) == 1,
        pow10(1) == 10,
        pow10(2) == 100,
        pow10(3) == 1000,
        pow10(4) == 10000,
        pow10(5) == 100000,
        pow10(6) == 1000000,
        pow10(7) == 10000000,
        pow10(8) == 100000000,
        pow10(9) == 1000000000,
        pow10(10) == 10000000000,
        pow10(11) == 100000000000,
        pow10(12) == 1000000000000,
        pow10(13) == 10000000000000,
        pow10(14) == 100000000000000,
        pow10(15) == 1000000000000000,
        pow10(16) == 10000000000000000,
        pow10(17) == 100000000000000000,
        pow10(18) == 1000000000000000000,
        pow10(19) == 10000000000000000000,
{
    assert(pow10(0) == 1);
    assert(pow10(1) == 10);
    assert(pow10(2) == 100);
    assert(pow10(3) == 1000);
    assert(pow10(4) == 10000);
    assert(pow10(5) == 100000);
    assert(pow10(6) == 1000000);
    assert(pow10(7) == 10000000);
    assert(pow10(8) == 100000000);
    assert(pow10(9) == 1000000000);
    assert(pow10(10) == 10000000000);
    assert(pow10(11) == 100000000000);
    assert(pow10(12) == 1000000000000);
    assert(pow10(13) == 10000000000000);
    assert(pow10(14) == 100000000000000);
    assert(pow10(15) == 1000000000000000);
    assert(pow10(16) == 10000000000000000);
    assert(pow10(17) == 100000000000000000);
    assert(pow10(18) == 1000000000000000000);
    assert(pow10(19) == 10000000000000000000);
}

/// A digit run denotes a value below `10^len`.
pub proof fn lemma_dec_val_bound(s: Seq<char>)
    requires
        all_digits(s),
    ensures
        0 <= dec_val(s) < pow10(s.len()),
    decreases s.len(),
{
    if s.len() == 0 {
    } else {
        assert(all_digits(s.drop_last())) by {
            assert(forall|i: int|
                0 <= i < s.len() - 1 ==> #[trigger] s.drop_last()[i] == s[i]);
        }
        lemma_dec_val_bound(s.drop_last());
        assert(0 <= digit_val(s.last()) <= 9);
    }
}

/// Extending a subrange by one element appends that element.
pub proof fn lemma_subrange_snoc(s: Seq<char>, start: int, i: int)
    requires
        0 <= start <= i < s.len(),
    ensures
        s.subrange(start, i + 1) == s.subrange(start, i).push(s[i]),
{
    assert(s.subrange(start, i + 1) =~= s.subrange(start, i).push(s[i]));
}

/// Appends one decimal digit character to `out`.
pub fn append_digit(out: &mut String, d: u64)
    requires
        d < 10,
    ensures
        final(out)@ == old(out)@.push(digit_char(d as int)),
{
    let ghost pre = out@;
    if d == 0 {
        out.append("0");
        proof {
            reveal_strlit("0");
        }
    } else if d == 1 {
        out.append("1");
        proof {
            reveal_strlit("1");
        }
    } else if d == 2 {
        out.append("2");
        proof {
            reveal_strlit("2");
        }
    } else if d == 3 {
        out.append("3");
        proof {
            reveal_strlit("3");
        }
    } else if d == 4 {
        out.append("4");
        proof {
            reveal_strlit("4");
        }
    } else if d == 5 {
        out.append("5");
        proof {
            reveal_strlit("5");
        }
    } else if d == 6 {
        out.append("6");
        proof {
            reveal_strlit("6");
        }
    } else if d == 7 {
        out.append("7");
        proof {
            reveal_strlit("7");
        }
    } else if d == 8 {
        out.append("8");
        proof {
            reveal_strlit("8");
        }
    } else {
        out.append("9");
        proof {
            reveal_strlit("9");
        }
    }
    proof {
        assert(out@ =~= pre.push(digit_char(d as int)));
    }
}

/// Appends the canonical decimal rendering of `n` to `out`.
pub fn append_u64(out: &mut String, n: u64)
    ensures
        final(out)@ == old(out)@ + dec_str(n as nat),
    decreases n,
{
    let ghost pre = out@;
    if n < 10 {
        append_digit(out, n);
        proof {
            assert(out@ =~= pre + dec_str(n as nat));
        }
    } else {
        append_u64(out, n / 10);
        append_digit(out, n % 10);
        proof {
            assert(out@ =~= pre + dec_str(n as nat));
        }
    }
}

/// Appends the canonical decimal rendering of a 128-bit value to `out`.
pub fn append_u128(out: &mut String, n: u128)
    ensures
        final(out)@ == old(out)@ + dec_str(n as nat),
    decreases n,
{
    let ghost pre = out@;
    if n < 10 {
        append_digit(out, n as u64);
        proof {
            assert(out@ =~= pre + dec_str(n as nat));
        }
    } else {
        append_u128(out, n / 10);
        append_digit(out, (n % 10) as u64);
        proof {
            assert(out@ =~= pre + dec_str(n as nat));
        }
    }
}

/// The six fractional digits of a value in millionths, most significant
/// first (zero padded).
pub open spec fn frac6_str(f: nat) -> Seq<char> {
    seq![
        digit_char(((f / 100000) % 10) as int),
        digit_char(((f / 10000) % 10) as int),
        digit_char(((f / 1000) % 10) as int),
        digit_char(((f / 100) % 10) as int),
        digit_char(((f / 10) % 10) as int),
        digit_char((f % 10) as int),
    ]
}

/// The rendering of a fixed-point price in millionths: integer part, a
/// dot, then exactly six fractional digits.
pub open spec fn price_str(p: nat) -> Seq<char> {
    dec_str(p / 1000000) + seq!['.'] + frac6_str(p % 1000000)
}

/// Appends the fixed-point rendering of a price in millionths to `out`.
pub fn append_price(out: &mut String, p: u64)
    ensures
        final(out)@ == old(out)@ + price_str(p as nat),
{
    let ghost pre = out@;
    append_u64(out, p / 1000000);
    out.append(".");
    let f = p % 1000000;
    append_digit(out, (f / 100000) % 10);
    append_digit(out, (f / 10000) % 10);
    append_digit(out, (f / 1000) % 10);
    append_digit(out, (f / 100) % 10);
    append_digit(out, (f / 10) % 10);
    append_digit(out, f % 10);
    proof {
        reveal_strlit(".");
        assert(out@ =~= pre + price_str(p as nat));
    }
}

/// Parses the digit run `s[start..end]` as a decimal number. Returns the
/// value exactly when the whole range is made of decimal digits; the range
/// must be non-empty and at most 19 digits, so the value fits a `u64`.
pub fn parse_digits(s: &str, start: usize, end: usize) -> (r: Option<u64>)
    requires
        start <= end <= s@.len(),
        1 <= end - start <= 19,
    ensures
        r matches Some(v) ==> all_digits(s@.subrange(start as int, end as int)) && v as int
            == dec_val(s@.subrange(start as int, end as int)),
        r is None ==> !all_digits(s@.subrange(start as int, end as int)),
{
    let mut acc: u64 = 0;
    let mut i: usize = start;
    proof {
        lemma_pow10_values();
        assert(s@.subrange(start as int, start as int) =~= Seq::<char>::empty());
    }
    while i < end
        invariant
            start <= i <= end <= s@.len(),
            end - start <= 19,
            all_digits(s@.subrange(start as int, i as int)),
            acc as int == dec_val(s@.subrange(start as int, i as int)),
            acc < pow10((i - start) as nat),
            pow10(19) < u64::MAX,
        decreases end - i,
    {
        let c = s.get_char(i);
        let d: u64 = match c {
            '0' => 0,
            '1' => 1,
            '2' => 2,
            '3' => 3,
            '4' => 4,
            '5' => 5,
            '6' => 6,
            '7' => 7,
            '8' => 8,
            '9' => 9,
            _ => {
                proof {
                    assert(!is_digit_char(s@[i as int]));
                    assert(s@.subrange(start as int, end as int)[i - start] == s@[i as int]);
                }
                return None;
            },
        };
        proof {
            assert(d as int == digit_val(s@[i as int]));
            lemma_subrange_snoc(s@, start as int, i as int);
            let sub0 = s@.subrange(start as int, i as int);
            let sub1 = s@.subrange(start as int, i + 1);
            assert(sub1 == sub0.push(s@[i as int]));
            assert(sub1.drop_last() =~= sub0);
            assert(sub1.last() == s@[i as int]);
            assert(dec_val(sub1) == dec_val(sub0) * 10 + digit_val(s@[i as int]));
            assert(pow10(((i + 1) - start) as nat) == 10 * pow10((i - start) as nat));
            assert(pow10((i - start) as nat) <= pow10(18)) by {
                lemma_pow10_increases((i - start) as nat, 18);
            }
        }
        acc = acc * 10 + d;
        i = i + 1;
    }
    proof {
        assert(s@.subrange(start as int, i as int) =~= s@.subrange(start as int, end as int));
    }
    Some(acc)
}

/// `pow10` is monotone in the exponent.
pub proof fn lemma_pow10_increases(e1: nat, e2: nat)
    requires
        e1 <= e2,
    ensures
        pow10(e1) <= pow10(e2),
    decreases e2,
{
    if e1 < e2 {
        lemma_pow10_increases(e1, (e2 - 1) as nat);
        assert(pow10(e2) == 10 * pow10((e2 - 1) as nat));
    }
}

/// Exact power of ten as a `u64`, for exponents up to 19.
pub fn pow10_u64(e: u64) -> (r: u64)
    requires
        e <= 19,
    ensures
        r as nat == pow10(e as nat),
{
    proof {
        lemma_pow10_values();
    }
    let mut r: u64 = 1;
    let mut i: u64 = 0;
    while i < e
        invariant
            i <= e <= 19,
            r as nat == pow10(i as nat),
            pow10(19) < u64::MAX,
        decreases e - i,
    {
        proof {
            lemma_pow10_increases((i + 1) as nat, 19);
            assert(pow10((i + 1) as nat) == 10 * pow10(i as nat));
        }
        r = r * 10;
        i = i + 1;
    }
    r
}

} // verus!
