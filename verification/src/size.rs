//! Human-readable byte counts: `512 B`, `1.50 KB`, `3.00 MB`, `1.25 GB`.
//!
//! A count of a kilobyte or more is shown as a binary float divided by 1024, 1024² or 1024³
//! with two decimals. This module computes that text exactly with integers: the count is
//! first rounded to a double (53 significant bits, ties to even), the quotient by the power
//! of two is then exact, and the two decimals are rounded half to even.
use vstd::prelude::*;
use vstd::string::*;
use crate::text::{decimal, push_decimal};

verus! {

/// 2^53: from here on, not every integer is a double.
pub open spec fn double_exact_limit() -> nat {
    0x20_0000_0000_0000
}

/// The spacing of doubles around `n`: 1 below 2^53, doubling with each further bit.
pub open spec fn double_spacing(n: nat) -> nat
    decreases n,
{
    if n < double_exact_limit() {
        1
    } else {
        2 * double_spacing(n / 2)
    }
}

/// `n / d` rounded to the nearest integer, ties to the even one.
pub open spec fn round_half_even(n: nat, d: nat) -> nat {
    let q = n / d;
    let r = n % d;
    if 2 * r > d || (2 * r == d && q % 2 == 1) {
        q + 1
    } else {
        q
    }
}

/// The double nearest to `n` (ties to even), as an integer.
pub open spec fn as_double(n: nat) -> nat {
    round_half_even(n, double_spacing(n)) * double_spacing(n)
}

/// Hundredths of `n / unit`, where `n` is first made a double.
pub open spec fn hundredths(n: nat, unit: nat) -> nat {
    round_half_even(as_double(n) * 100, unit)
}

/// A number of hundredths written with two decimals, as `{:.2}` writes it.
pub open spec fn two_decimals(h: nat) -> Seq<char> {
    decimal(h / 100) + "."@ + decimal((h % 100) / 10) + decimal(h % 10)
}

/// The text for `n` bytes: below 1024 the count and ` B`; below 1024² the count in KB with
/// two decimals; below 1024³ in MB; else in GB.
pub open spec fn format_bytes_spec(n: nat) -> Seq<char> {
    if n < 0x400 {
        decimal(n) + " B"@
    } else if n < 0x10_0000 {
        two_decimals(hundredths(n, 0x400)) + " KB"@
    } else if n < 0x4000_0000 {
        two_decimals(hundredths(n, 0x10_0000)) + " MB"@
    } else {
        two_decimals(hundredths(n, 0x4000_0000)) + " GB"@
    }
}

/// `x / d` rounded half to even.
fn round_half_even_exec(x: u128, d: u128) -> (r: u128)
    requires
        d > 0,
        x / d < u128::MAX,
    ensures
        r == round_half_even(x as nat, d as nat),
{
    let q = x / d;
    let rem = x % d;
    assert(rem < d);
    if rem > d - rem || (rem == d - rem && q % 2 == 1) {
        q + 1
    } else {
        q
    }
}

/// The double nearest to `n`, as an integer.
fn double_value(n: u64) -> (f: u128)
    ensures
        f == as_double(n as nat),
        f <= 0x2_0000_0000_0000_0000,
{
    let mut unit: u128 = 1;
    let mut m: u64 = n;
    while m >= 0x20_0000_0000_0000
        invariant
            1 <= unit < 0x1000,
            m as int * unit <= n,
            m == n as nat / unit as nat,
            double_spacing(n as nat) == unit * double_spacing(m as nat),
        decreases m,
    {
        let ghost old_m = m;
        let ghost old_unit = unit;
        assert(double_spacing(m as nat) == 2 * double_spacing((m / 2) as nat));
        m = m / 2;
        unit = unit * 2;
        proof {
            vstd::arithmetic::div_mod::lemma_div_denominator(n as int, old_unit as int, 2);
            assert(old_unit * (2 * double_spacing(m as nat)) == (old_unit * 2) * double_spacing(m as nat))
                by (nonlinear_arith);
            assert(m * unit <= n) by (nonlinear_arith)
                requires
                    m == old_m / 2,
                    unit == old_unit * 2,
                    old_m * old_unit <= n,
            ;
            assert(unit < 0x1000) by (nonlinear_arith)
                requires
                    m * unit <= n,
                    n < 0x1_0000_0000_0000_0000,
                    m >= 0x10_0000_0000_0000,
            ;
        }
    }
    assert(double_spacing(m as nat) == 1);
    assert(double_spacing(n as nat) == unit) by (nonlinear_arith)
        requires
            double_spacing(m as nat) == 1,
            double_spacing(n as nat) == unit * double_spacing(m as nat),
    ;
    let q = round_half_even_exec(n as u128, unit);
    assert(q <= m + 1);
    assert(q * unit <= 0x2_0000_0000_0000_0000) by (nonlinear_arith)
        requires
            q <= m + 1,
            m < 0x20_0000_0000_0000,
            unit < 0x1000,
    ;
    q * unit
}

/// Appends `h` hundredths with two decimals to `out`.
fn push_two_decimals(out: &mut String, h: u64)
    ensures
        final(out)@ == old(out)@ + two_decimals(h as nat),
{
    push_decimal(out, h / 100);
    out.append(".");
    push_decimal(out, (h % 100) / 10);
    push_decimal(out, h % 10);
    assert(final(out)@ =~= old(out)@ + two_decimals(h as nat));
}

/// A byte count for people to read: below 1 KB in bytes, then in KB, MB or GB with two
/// decimals.
pub fn format_bytes(bytes: usize) -> (s: String)
    ensures
        s@ == format_bytes_spec(bytes as nat),
{
    let n = bytes as u64;
    let mut out = String::new();
    if n < 0x400 {
        push_decimal(&mut out, n);
        out.append(" B");
        assert(out@ =~= format_bytes_spec(bytes as nat));
        return out;
    }
    let f = double_value(n);
    let unit: u128 = if n < 0x10_0000 {
        0x400
    } else if n < 0x4000_0000 {
        0x10_0000
    } else {
        0x4000_0000
    };
    assert(f * 100 <= 0xc8_0000_0000_0000_0000) by (nonlinear_arith)
        requires
            f <= 0x2_0000_0000_0000_0000,
    ;
    let h = round_half_even_exec(f * 100, unit);
    assert(h <= 0xc8_0000_0000_0000_0000int / 0x400int + 1);
    push_two_decimals(&mut out, h as u64);
    if n < 0x10_0000 {
        out.append(" KB");
    } else if n < 0x4000_0000 {
        out.append(" MB");
    } else {
        out.append(" GB");
    }
    assert(out@ =~= format_bytes_spec(bytes as nat));
    out
}

} // verus!
