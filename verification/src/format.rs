//! Human-readable display of byte totals and byte-per-second rates.
//!
//! Both formatters scale their input by powers of 1024 until the magnitude
//! drops below 1024 (or the largest unit is reached), then print it with a
//! precision that depends on the magnitude: three significant figures for
//! small values, whole numbers for large ones. The displayed digits are
//! rounded to the nearest, ties to even, as the standard formatter rounds
//! at a fixed precision.

use vstd::arithmetic::div_mod::{
    lemma_div_denominator, lemma_fundamental_div_mod, lemma_fundamental_div_mod_converse_div,
    lemma_fundamental_div_mod_converse_mod, lemma_multiply_divide_lt,
};
use vstd::prelude::*;

use crate::chars::chars_to_string;

verus! {

/// The decimal digit character for `d` (0 through 9).
pub open spec fn digit_char(d: nat) -> char {
    if d == 0 {
        '0'
    } else if d == 1 {
        '1'
    } else if d == 2 {
        '2'
    } else if d == 3 {
        '3'
    } else if d == 4 {
        '4'
    } else if d == 5 {
        '5'
    } else if d == 6 {
        '6'
    } else if d == 7 {
        '7'
    } else if d == 8 {
        '8'
    } else {
        '9'
    }
}

/// The decimal digits of `n`, most significant first, with no leading
/// zeroes (a single `'0'` for zero).
pub open spec fn dec_str(n: nat) -> Seq<char>
    decreases n,
{
    if n < 10 {
        seq![digit_char(n)]
    } else {
        dec_str(n / 10).push(digit_char(n % 10))
    }
}

/// 1024 raised to the `k`-th power.
pub open spec fn pow1024(k: nat) -> nat
    decreases k,
{
    if k == 0 {
        1
    } else {
        1024 * pow1024((k - 1) as nat)
    }
}

proof fn lemma_pow1024_pos(k: nat)
    ensures
        pow1024(k) >= 1,
    decreases k,
{
    if k > 0 {
        lemma_pow1024_pos((k - 1) as nat);
    }
}

proof fn lemma_pow1024_at_most_four(k: nat)
    requires
        k <= 4,
    ensures
        pow1024(k) <= 0x10000000000,
{
    assert(pow1024(0) == 1);
    assert(pow1024(1) == 1024);
    assert(pow1024(2) == 1024 * 1024);
    assert(pow1024(3) == 1024 * (1024 * 1024));
    assert(pow1024(4) == 1024 * (1024 * (1024 * 1024)));
}

/// The scale (power of 1024) the formatters use for the value `v`: the
/// largest `k` at most `max` such that `v / 1024^k` stays under 1024 once
/// `k` steps were taken, i.e. divide by 1024 until the value drops below
/// 1024 or the largest unit is reached.
pub open spec fn unit_index(v: nat, max: nat) -> nat
    decreases max,
{
    if v < 1024 || max == 0 {
        0
    } else {
        1 + unit_index(v / 1024, (max - 1) as nat)
    }
}

/// `a / d` rounded to the nearest whole number with ties to even — the
/// rounding the standard formatter applies at a fixed precision.
pub open spec fn rounded_div(a: nat, d: nat) -> nat {
    let q = a / d;
    let r = a % d;
    if 2 * r > d {
        q + 1
    } else if 2 * r < d {
        q
    } else if q % 2 == 1 {
        q + 1
    } else {
        q
    }
}

/// The digits shown for `v` scaled down by `1024^k`: the scaled value at
/// one or two decimal places when its whole part is small enough (under
/// 10: two places, under 100: one place), as a whole number otherwise, in
/// each case rounded to the nearest displayed digit, ties to even.
pub open spec fn format_scaled(v: nat, k: nat) -> Seq<char> {
    let d = pow1024(k);
    let whole = v / d;
    if whole >= 100 {
        dec_str(rounded_div(v, d))
    } else if whole >= 10 {
        let tenths = rounded_div(v * 10, d);
        dec_str(tenths / 10) + seq!['.', digit_char(tenths % 10)]
    } else {
        let hundredths = rounded_div(v * 100, d);
        dec_str(hundredths / 100) + seq![
            '.',
            digit_char(hundredths / 10 % 10),
            digit_char(hundredths % 10),
        ]
    }
}

/// The unit symbol for scale `k`: B, KB, MB, GB or TB.
pub open spec fn unit_symbol(k: nat) -> Seq<char> {
    if k == 0 {
        seq!['B']
    } else if k == 1 {
        seq!['K', 'B']
    } else if k == 2 {
        seq!['M', 'B']
    } else if k == 3 {
        seq!['G', 'B']
    } else {
        seq!['T', 'B']
    }
}

/// What `format_total_bytes` prints for `v`: the scaled digits, a space,
/// and the unit symbol, with units up to TB.
pub open spec fn format_total_spec(v: nat) -> Seq<char> {
    let k = unit_index(v, 4);
    format_scaled(v, k) + seq![' '] + unit_symbol(k)
}

/// What `format_bytes` prints for a rate `v` in bytes per second: the
/// scaled digits, a space, and the unit symbol, with units up to GB,
/// followed by `/s`.
pub open spec fn format_rate_spec(v: nat) -> Seq<char> {
    let k = unit_index(v, 3);
    format_scaled(v, k) + seq![' '] + unit_symbol(k) + seq!['/', 's']
}

/// The decimal digit character for `d`.
fn digit_to_char(d: u64) -> (r: char)
    requires
        d < 10,
    ensures
        r == digit_char(d as nat),
{
    match d {
        0 => '0',
        1 => '1',
        2 => '2',
        3 => '3',
        4 => '4',
        5 => '5',
        6 => '6',
        7 => '7',
        8 => '8',
        _ => '9',
    }
}

/// The decimal digits of `n`, most significant first.
fn u64_to_dec(n: u64) -> (r: Vec<char>)
    ensures
        r@ == dec_str(n as nat),
{
    let mut out: Vec<char> = Vec::new();
    let mut m: u64 = n;
    proof {
        assert(dec_str(n as nat) + Seq::<char>::empty() =~= dec_str(n as nat));
    }
    loop
        invariant
            dec_str(n as nat) == dec_str(m as nat) + out@,
        decreases m,
    {
        let ghost out0 = out@;
        let c = digit_to_char(m % 10);
        out.insert(0, c);
        proof {
            assert(out@ =~= seq![c] + out0);
        }
        if m < 10 {
            proof {
                assert(dec_str(m as nat) =~= seq![c]);
                assert(dec_str(m as nat) + out0 =~= seq![c] + out0);
            }
            return out;
        }
        proof {
            assert(dec_str(m as nat) == dec_str((m / 10) as nat).push(digit_char((m % 10) as nat)));
            assert(dec_str((m / 10) as nat).push(c) + out0 =~= dec_str((m / 10) as nat) + (seq![c]
                + out0));
        }
        m = m / 10;
    }
}

/// The scale for `v` with at most `max` steps, together with the divisor
/// `1024^k`.
fn scale_of(v: u64, max: usize) -> (r: (usize, u64))
    requires
        max <= 4,
    ensures
        r.0 as nat == unit_index(v as nat, max as nat),
        r.1 as nat == pow1024(r.0 as nat),
        r.0 <= max,
{
    let mut k: usize = 0;
    let mut scaled: u64 = v;
    let mut divisor: u64 = 1;
    proof {
        assert(pow1024(0) == 1);
        assert((v as nat) / 1 == v as nat);
    }
    while scaled >= 1024 && k < max
        invariant
            max <= 4,
            k <= max,
            scaled as nat == (v as nat) / pow1024(k as nat),
            divisor as nat == pow1024(k as nat),
            unit_index(v as nat, max as nat) == k + unit_index(
                scaled as nat,
                (max - k) as nat,
            ),
        decreases max - k,
    {
        proof {
            lemma_pow1024_pos(k as nat);
            lemma_pow1024_at_most_four((k + 1) as nat);
            lemma_div_denominator(v as int, pow1024(k as nat) as int, 1024);
            assert(pow1024((k + 1) as nat) == 1024 * pow1024(k as nat));
            assert(pow1024(k as nat) * 1024 == 1024 * pow1024(k as nat)) by (nonlinear_arith);
        }
        scaled = scaled / 1024;
        divisor = divisor * 1024;
        k += 1;
    }
    (k, divisor)
}

/// `(whole * d + rem) * f / d`, rounded to the nearest whole number with
/// ties to even.
fn rounded_scaled(whole: u64, rem: u64, d: u64, f: u64) -> (r: u64)
    requires
        0 < d,
        d <= 0x10000000000,
        rem < d,
        (whole as nat) * (d as nat) + (rem as nat) <= u64::MAX,
        f == 1 || (f == 10 && whole < 100) || (f == 100 && whole < 10),
    ensures
        r as nat == rounded_div(
            ((whole as nat) * (d as nat) + (rem as nat)) * (f as nat),
            d as nat,
        ),
{
    let ghost v: nat = (whole as nat) * (d as nat) + (rem as nat);
    proof {
        assert((rem as int) * (f as int) <= 0x10000000000 * 100) by (nonlinear_arith)
            requires
                rem < 0x10000000000,
                f <= 100,
        ;
    }
    let q2 = rem * f / d;
    let r2 = rem * f % d;
    proof {
        lemma_multiply_divide_lt((rem * f) as int, d as int, f as int);
        lemma_fundamental_div_mod((rem * f) as int, d as int);
        assert((v * (f as nat)) as int == ((whole as int) * (f as int) + (q2 as int)) * (d as int)
            + (r2 as int)) by (nonlinear_arith)
            requires
                v == (whole as nat) * (d as nat) + (rem as nat),
                (rem as int) * (f as int) == (d as int) * (q2 as int) + (r2 as int),
        ;
        lemma_fundamental_div_mod_converse_div(
            (v * (f as nat)) as int,
            d as int,
            (whole as int) * (f as int) + (q2 as int),
            r2 as int,
        );
        lemma_fundamental_div_mod_converse_mod(
            (v * (f as nat)) as int,
            d as int,
            (whole as int) * (f as int) + (q2 as int),
            r2 as int,
        );
        if f == 1 && d >= 2 {
            assert(2 * (whole as int) <= (whole as int) * (d as int)) by (nonlinear_arith)
                requires
                    d >= 2,
                    whole >= 0,
            ;
        }
    }
    let qt = whole * f + q2;
    if 2 * r2 > d {
        qt + 1
    } else if 2 * r2 < d {
        qt
    } else if qt % 2 == 1 {
        qt + 1
    } else {
        qt
    }
}

/// The digit characters for `v` scaled down by `divisor == 1024^k`.
fn format_scaled_chars(v: u64, k: usize, divisor: u64) -> (r: Vec<char>)
    requires
        k <= 4,
        divisor as nat == pow1024(k as nat),
    ensures
        r@ == format_scaled(v as nat, k as nat),
{
    proof {
        lemma_pow1024_pos(k as nat);
        lemma_pow1024_at_most_four(k as nat);
    }
    let whole = v / divisor;
    let rem = v % divisor;
    proof {
        assert((whole as nat) * (divisor as nat) + (rem as nat) == v as nat) by (nonlinear_arith)
            requires
                divisor > 0,
                whole == v / divisor,
                rem == v % divisor,
        ;
    }
    if whole >= 100 {
        let rounded = rounded_scaled(whole, rem, divisor, 1);
        proof {
            assert(((whole as nat) * (divisor as nat) + (rem as nat)) * 1 == v as nat);
        }
        return u64_to_dec(rounded);
    }
    if whole >= 10 {
        let tenths = rounded_scaled(whole, rem, divisor, 10);
        proof {
            assert(((whole as nat) * (divisor as nat) + (rem as nat)) * 10 == (v as nat) * 10);
        }
        let mut out = u64_to_dec(tenths / 10);
        out.push('.');
        out.push(digit_to_char(tenths % 10));
        proof {
            assert(out@ =~= dec_str((tenths / 10) as nat) + seq![
                '.',
                digit_char((tenths % 10) as nat),
            ]);
        }
        return out;
    }
    let hundredths = rounded_scaled(whole, rem, divisor, 100);
    proof {
        assert(((whole as nat) * (divisor as nat) + (rem as nat)) * 100 == (v as nat) * 100);
    }
    let mut out = u64_to_dec(hundredths / 100);
    out.push('.');
    out.push(digit_to_char(hundredths / 10 % 10));
    out.push(digit_to_char(hundredths % 10));
    proof {
        assert(out@ =~= dec_str((hundredths / 100) as nat) + seq![
            '.',
            digit_char((hundredths / 10 % 10) as nat),
            digit_char((hundredths % 10) as nat),
        ]);
    }
    out
}

/// The unit symbol characters for scale `k`, pushed onto `out`.
fn push_unit_symbol(out: &mut Vec<char>, k: usize)
    ensures
        final(out)@ == old(out)@ + unit_symbol(k as nat),
{
    let ghost out0 = old(out)@;
    match k {
        0 => out.push('B'),
        1 => {
            out.push('K');
            out.push('B');
        },
        2 => {
            out.push('M');
            out.push('B');
        },
        3 => {
            out.push('G');
            out.push('B');
        },
        _ => {
            out.push('T');
            out.push('B');
        },
    }
    proof {
        assert(out@ =~= out0 + unit_symbol(k as nat));
    }
}

/// A cumulative byte total in the largest binary unit (B through TB) that
/// keeps the scaled magnitude under 1024, with magnitude-dependent
/// precision.
pub fn format_total_bytes(bytes: u64) -> (r: String)
    ensures
        r@ == format_total_spec(bytes as nat),
{
    let (k, divisor) = scale_of(bytes, 4);
    let mut out = format_scaled_chars(bytes, k, divisor);
    let ghost digits = out@;
    out.push(' ');
    push_unit_symbol(&mut out, k);
    proof {
        assert(digits.push(' ') =~= digits + seq![' ']);
    }
    chars_to_string(&out)
}

/// A transfer rate in bytes per second, in the largest binary unit (B/s
/// through GB/s) that keeps the scaled magnitude under 1024, with
/// magnitude-dependent precision.
pub fn format_bytes(rate: u64) -> (r: String)
    ensures
        r@ == format_rate_spec(rate as nat),
{
    let (k, divisor) = scale_of(rate, 3);
    let mut out = format_scaled_chars(rate, k, divisor);
    let ghost digits = out@;
    out.push(' ');
    push_unit_symbol(&mut out, k);
    out.push('/');
    out.push('s');
    proof {
        assert(out@ =~= digits + seq![' '] + unit_symbol(k as nat) + seq!['/', 's']);
    }
    chars_to_string(&out)
}

} // verus!
