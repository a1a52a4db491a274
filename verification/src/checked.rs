//! Tests of the overflow conditions of the exact arithmetic, and a Horner
//! evaluation that reports where they fail instead of requiring them.
use crate::arith::{fits_i128, lemma_p2_basics, mag, magnitude, p2, pow2_u128, trailing_zeros};
use crate::complex::ComplexDyadic;
use crate::dyadic::{reducible, Dyadic};
use vstd::prelude::*;

verus! {

/// `n * 2^s` fits in an `i128`, decided.
pub fn shl_fits(n: i128, s: u32) -> (b: bool)
    requires
        s < 128,
    ensures
        b == fits_i128(n * p2(s as int)),
{
    let p = pow2_u128(s);
    proof {
        lemma_p2_basics(s as int);
        crate::arith::lemma_mag_shift(n as int, s as int);
        crate::arith::lemma_p2_mono(s as int, 127);
        crate::arith::lemma_p2_adds(s as int, 127 - s);
        crate::arith::lemma_p2_adds(63, 64);
        vstd::arithmetic::power2::lemma2_to64_rest();
        assert(p2(63) == 0x8000_0000_0000_0000);
        assert(p2(64) == 0x1_0000_0000_0000_0000);
        assert(p2(127) == 0x8000_0000_0000_0000 * 0x1_0000_0000_0000_0000);
    }
    if n >= 0 {
        let q = 0x7fff_ffff_ffff_ffff_ffff_ffff_ffff_ffffu128 / p;
        proof {
            let x = n as int;
            assert((x <= q) == (x * p <= 0x7fff_ffff_ffff_ffff_ffff_ffff_ffff_ffff)) by (nonlinear_arith)
                requires
                    p > 0,
                    x >= 0,
                    q == 0x7fff_ffff_ffff_ffff_ffff_ffff_ffff_ffffint / (p as int),
            ;
        }
        (n as u128) <= q
    } else {
        let q = 0x8000_0000_0000_0000_0000_0000_0000_0000u128 / p;
        let m = magnitude(n);
        proof {
            assert((m <= q) == (m * p <= 0x8000_0000_0000_0000_0000_0000_0000_0000)) by (nonlinear_arith)
                requires
                    p > 0,
                    m >= 0,
                    q == 0x8000_0000_0000_0000_0000_0000_0000_0000int / (p as int),
                    p * p2(127 - s) == 0x8000_0000_0000_0000_0000_0000_0000_0000,
            ;
            assert(mag(n * p2(s as int)) == m * p);
            assert(n * p2(s as int) < 0) by (nonlinear_arith)
                requires
                    n < 0,
                    p2(s as int) > 0,
            ;
        }
        m <= q
    }
}

/// `reducible(n, e)`, decided: reducing `n * 2^e` keeps the exponent within `i32`.
pub fn reducible_check(n: i128, e: i64) -> (b: bool)
    requires
        -0x1_0000_0000 <= e <= 0x1_0000_0000,
    ensures
        b == reducible(n as int, e as int),
{
    if n == 0 {
        return true;
    }
    let mut m = n;
    let mut t: i64 = 0;
    proof {
        crate::arith::lemma_trailing_zeros_fit(n as int);
    }
    while m % 2 == 0
        invariant
            m != 0,
            0 <= t <= 127,
            t + trailing_zeros(m as int) == trailing_zeros(n as int),
            trailing_zeros(n as int) <= 127,
        decreases mag(m as int),
    {
        assert(trailing_zeros(m as int) == 1 + trailing_zeros(m / 2));
        m = m / 2;
        t = t + 1;
    }
    e + t <= 0x7fff_ffff
}

/// `a.mul_ok(b)`, decided.
pub fn mul_fits(a: Dyadic, b: Dyadic) -> (r: bool)
    ensures
        r == a.mul_ok(b),
{
    let e: i64 = a.exponent as i64 + b.exponent as i64;
    if e < -0x8000_0000 || e > 0x7fff_ffff {
        return false;
    }
    match a.numerator.checked_mul(b.numerator) {
        None => false,
        Some(n) => reducible_check(n, e),
    }
}

/// `n * 2^s` for a shift `s` below 128 with a result that fits; `None` otherwise.
fn shifted(n: i128, s: i64) -> (r: Option<i128>)
    requires
        0 <= s,
    ensures
        r matches Some(x) ==> s < 128 && fits_i128(n * p2(s as int)) && x == n * p2(s as int),
        r is None ==> s >= 128 || !fits_i128(n * p2(s as int)),
{
    if s >= 128 {
        return None;
    }
    if shl_fits(n, s as u32) {
        Some(crate::arith::shl(n, s as u32))
    } else {
        None
    }
}

/// `a.add_ok(b)`, decided.
pub fn add_fits(a: Dyadic, b: Dyadic) -> (r: bool)
    ensures
        r == a.add_ok(b),
{
    if b.numerator == 0 {
        return reducible_check(a.numerator, a.exponent as i64);
    }
    if a.numerator == 0 {
        return reducible_check(b.numerator, b.exponent as i64);
    }
    let ghost m = a.common_exp(b);
    let d: i64 = a.exponent as i64 - b.exponent as i64;
    if d < -0x8000_0000 || d > 0x7fff_ffff || d <= -128 || d >= 128 {
        proof {
            assert(!(crate::arith::fits_i32(a.exponent - b.exponent) && mag(a.exponent - b.exponent) < 128));
        }
        return false;
    }
    proof {
        a.lemma_at_own_exponent();
        b.lemma_at_own_exponent();
    }
    let (x, y, mm) = if d >= 0 {
        (shifted(a.numerator, d), Some(b.numerator), b.exponent)
    } else {
        (Some(a.numerator), shifted(b.numerator, -d), a.exponent)
    };
    match (x, y) {
        (Some(x), Some(y)) => {
            assert(x == a.at(m) && y == b.at(m));
            match x.checked_add(y) {
                None => false,
                Some(s) => reducible_check(s, mm as i64),
            }
        },
        _ => false,
    }
}

/// `a.sub_ok(b)`, decided.
pub fn sub_fits(a: Dyadic, b: Dyadic) -> (r: bool)
    ensures
        r == a.sub_ok(b),
{
    if b.numerator == 0 {
        return reducible_check(a.numerator, a.exponent as i64);
    }
    if a.numerator == 0 {
        if b.numerator == i128::MIN {
            return false;
        }
        return reducible_check(-b.numerator, b.exponent as i64);
    }
    let ghost m = a.common_exp(b);
    let d: i64 = a.exponent as i64 - b.exponent as i64;
    if d < -0x8000_0000 || d > 0x7fff_ffff || d <= -128 || d >= 128 {
        proof {
            assert(!(crate::arith::fits_i32(a.exponent - b.exponent) && mag(a.exponent - b.exponent) < 128));
        }
        return false;
    }
    proof {
        a.lemma_at_own_exponent();
        b.lemma_at_own_exponent();
    }
    let (x, y, mm) = if d >= 0 {
        (shifted(a.numerator, d), Some(b.numerator), b.exponent)
    } else {
        (Some(a.numerator), shifted(b.numerator, -d), a.exponent)
    };
    match (x, y) {
        (Some(x), Some(y)) => {
            assert(x == a.at(m) && y == b.at(m));
            if y == i128::MIN {
                return false;
            }
            match x.checked_sub(y) {
                None => false,
                Some(s) => reducible_check(s, mm as i64),
            }
        },
        _ => false,
    }
}

/// `a.mul_ok(b)` for complex dyadics, decided.
pub fn complex_mul_fits(a: ComplexDyadic, b: ComplexDyadic) -> (r: bool)
    ensures
        r == a.mul_ok(b),
{
    if !mul_fits(a.re, b.re) || !mul_fits(a.im, b.im) || !mul_fits(a.re, b.im) || !mul_fits(a.im, b.re) {
        return false;
    }
    sub_fits(a.re * b.re, a.im * b.im) && add_fits(a.re * b.im, a.im * b.re)
}

/// `a.add_ok(b)` for complex dyadics, decided.
pub fn complex_add_fits(a: ComplexDyadic, b: ComplexDyadic) -> (r: bool)
    ensures
        r == a.add_ok(b),
{
    add_fits(a.re, b.re) && add_fits(a.im, b.im)
}

/// `a.div_ok(b)`, decided.
pub fn div_fits(a: Dyadic, b: Dyadic) -> (r: bool)
    ensures
        r == a.div_ok(b),
{
    if b.numerator == 0 {
        return false;
    }
    let k: i64 = a.exponent as i64 - b.exponent as i64 + 30;
    if k >= 0 && (k >= 128 || !shl_fits(a.numerator, k as u32)) {
        return false;
    }
    match crate::dyadic::quotient_numerator(a, b) {
        None => false,
        Some(q) => reducible_check(q, -30),
    }
}

/// `a.div_ok(b)` for complex dyadics, decided.
pub fn complex_div_fits(a: ComplexDyadic, b: ComplexDyadic) -> (r: bool)
    ensures
        r == a.div_ok(b),
{
    proof {
        crate::dyadic_laws::lemma_same_value_iff(b.re, crate::dyadic::dyadic_zero());
        crate::dyadic_laws::lemma_same_value_iff(b.im, crate::dyadic::dyadic_zero());
        lemma_p2_basics(0);
        assert(crate::dyadic::dyadic_zero().val() == 0) by (nonlinear_arith)
            requires
                crate::dyadic::dyadic_zero().val() == 0 * p2(0 - i32::MIN),
        ;
        b.re.lemma_at_own_exponent();
        crate::dyadic_laws::lemma_val_at(b.re, b.re.exponent as int);
        crate::dyadic_laws::lemma_val_at(b.im, b.im.exponent as int);
        lemma_p2_basics(b.re.exponent - i32::MIN);
        lemma_p2_basics(b.im.exponent - i32::MIN);
        b.im.lemma_at_own_exponent();
        assert((b.re.val() == 0) == (b.re.numerator == 0)) by (nonlinear_arith)
            requires
                b.re.val() == b.re.numerator * p2(b.re.exponent - i32::MIN),
                p2(b.re.exponent - i32::MIN) > 0,
        ;
        assert((b.im.val() == 0) == (b.im.numerator == 0)) by (nonlinear_arith)
            requires
                b.im.val() == b.im.numerator * p2(b.im.exponent - i32::MIN),
                p2(b.im.exponent - i32::MIN) > 0,
        ;
    }
    if b.re.numerator == 0 && b.im.numerator == 0 {
        return false;
    }
    if !mul_fits(b.re, b.re) || !mul_fits(b.im, b.im) || !mul_fits(a.re, b.re) || !mul_fits(a.im, b.im)
        || !mul_fits(a.im, b.re) || !mul_fits(a.re, b.im) {
        return false;
    }
    let rr = b.re * b.re;
    let ii = b.im * b.im;
    let ac = a.re * b.re;
    let bd = a.im * b.im;
    let bc = a.im * b.re;
    let ad = a.re * b.im;
    if !add_fits(rr, ii) || !add_fits(ac, bd) || !sub_fits(bc, ad) {
        return false;
    }
    let norm = rr + ii;
    div_fits(ac + bd, norm) && div_fits(bc - ad, norm)
}

} // verus!
