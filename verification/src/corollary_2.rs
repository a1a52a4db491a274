//! The radius `r_hat` just above `r` and the lower bound `rho` of `|f'|` on
//! the circle of radius `r_hat`, from samples of that circle.
use crate::arith::{
    fits_i128, lemma_p2_adds, lemma_p2_basics, lemma_p2_mono, lemma_trailing_zeros_fit, mag,
    magnitude, p2, pow2_u128, sgn,
};
use crate::complex::ComplexDyadic;
use crate::dyadic::{dyadic_one, dyadic_zero, reduced, Dyadic};
use crate::holomorphic::{horner, horner_ok, ComplexFunction};
use crate::dyadic_laws::lemma_below_iff;
use vstd::prelude::*;

verus! {

/// `2^-3`.
pub open spec fn eighth() -> Dyadic {
    Dyadic { numerator: 1, exponent: -3i32 }
}

/// `2^-6`, the largest step from `r` to `r_hat`.
pub open spec fn largest_step() -> Dyadic {
    Dyadic { numerator: 1, exponent: -6i32 }
}

/// `2^-12`, the distance below one of the fallback radius.
pub open spec fn below_one() -> Dyadic {
    Dyadic { numerator: 1, exponent: -12i32 }
}

/// The step from `r` to `r_hat`: `(1 - r) / 8`, unless that is not positive
/// or exceeds `2^-6`, in which case `2^-6`.
pub open spec fn r_hat_step(r: Dyadic) -> Dyadic {
    let s = dyadic_one().difference(r).product(eighth());
    if !dyadic_zero().below(s) || largest_step().below(s) {
        largest_step()
    } else {
        s
    }
}

/// `r_hat = r + step`, or `1 - 2^-12` when that reaches one.
pub open spec fn r_hat_of(r: Dyadic) -> Dyadic {
    let rh = r.sum(r_hat_step(r));
    if !rh.below(dyadic_one()) {
        dyadic_one().difference(below_one())
    } else {
        rh
    }
}

/// `0 < r < 1`, and every step of choosing `r_hat` stays within `i128`/`i32`.
pub open spec fn r_hat_ok(r: Dyadic) -> bool {
    &&& dyadic_zero().below(r)
    &&& r.below(dyadic_one())
    &&& dyadic_one().sub_ok(r)
    &&& dyadic_one().difference(r).mul_ok(eighth())
    &&& r.add_ok(r_hat_step(r))
}

/// The radius `r_hat` for a radius `0 < r < 1`: `r` plus `(1 - r) / 8`, at
/// most `2^-6`; `1 - 2^-12` if that is not below one.
pub fn pick_r_hat(r: Dyadic) -> (r_hat: Dyadic)
    requires
        r_hat_ok(r),
    ensures
        r_hat == r_hat_of(r),
{
    let one = Dyadic::new(1, 0);
    let mut step = (one - r) * Dyadic::new(1, -3);
    let fallback = Dyadic::new(1, -6);
    if step <= Dyadic::zero() || step > fallback {
        step = fallback;
    }
    let mut r_hat = r + step;
    if r_hat >= one {
        proof {
            crate::arith::lemma_p2_basics(12);
            vstd::arithmetic::power2::lemma2_to64();
        }
        r_hat = one - Dyadic::new(1, -12);
    }
    r_hat
}


/// `floor(m * 2^k)` for `m >= 0`.
pub open spec fn scaled_floor(m: int, k: int) -> int {
    if k >= 0 {
        m * p2(k)
    } else {
        m / p2(-k)
    }
}

/// `x` rounded toward zero to `bits` fractional bits, in reduced form.
pub open spec fn trunc_bits(x: Dyadic, bits: int) -> Dyadic {
    reduced(
        sgn(x.numerator as int) * scaled_floor(mag(x.numerator as int) as int, x.exponent + bits),
        -bits,
    )
}

/// The sample of the circle of radius `r_hat` in the direction `d` (a unit
/// vector): `r_hat d`, each part rounded toward zero to `bits` fractional bits.
pub open spec fn circle_point(r_hat: Dyadic, d: ComplexDyadic, bits: int) -> ComplexDyadic {
    ComplexDyadic {
        re: trunc_bits(r_hat.product(d.re), bits),
        im: trunc_bits(r_hat.product(d.im), bits),
    }
}

/// Rounding `x` to `bits` fractional bits gives a numerator that fits.
pub open spec fn trunc_ok(x: Dyadic, bits: int) -> bool {
    fits_i128(scaled_floor(mag(x.numerator as int) as int, x.exponent + bits))
}

/// `x` rounded toward zero to `bits` fractional bits.
fn round_toward_zero(x: Dyadic, bits: i32) -> (r: Dyadic)
    requires
        0 <= bits <= 126,
        trunc_ok(x, bits as int),
    ensures
        r == trunc_bits(x, bits as int),
{
    let m = magnitude(x.numerator);
    let k: i64 = x.exponent as i64 + bits as i64;
    let n = scaled_floor_u128(m, k);
    proof {
        if m == 0 && k < 0 {
            lemma_p2_basics(-k);
            vstd::arithmetic::div_mod::lemma_basic_div(0, p2(-k));
        }
    }
    let signed: i128 = if x.numerator < 0 {
        -(n as i128)
    } else {
        n as i128
    };
    proof {
        if signed != 0 {
            lemma_trailing_zeros_fit(signed as int);
        }
        assert(n == scaled_floor(mag(x.numerator as int) as int, x.exponent + bits));
        assert(signed == sgn(x.numerator as int) * n);
    }
    Dyadic::new(signed, -bits).reduce()
}


/// `q` is the integer square root of `t >= 0`: `q^2 <= t < (q + 1)^2`.
pub open spec fn is_isqrt(q: int, t: int) -> bool {
    0 <= q && q * q <= t && t < (q + 1) * (q + 1)
}

/// The integer square root of `t >= 0`.
pub open spec fn isqrt(t: int) -> int {
    choose|q: int| is_isqrt(q, t)
}

/// The integer square root is unique.
pub proof fn lemma_isqrt_unique(q1: int, q2: int, t: int)
    requires
        is_isqrt(q1, t),
        is_isqrt(q2, t),
    ensures
        q1 == q2,
{
    if q1 < q2 {
        assert((q1 + 1) * (q1 + 1) <= q2 * q2) by (nonlinear_arith)
            requires
                0 <= q1 + 1 <= q2,
        ;
    } else if q2 < q1 {
        assert((q2 + 1) * (q2 + 1) <= q1 * q1) by (nonlinear_arith)
            requires
                0 <= q2 + 1 <= q1,
        ;
    }
}

/// The integer square root of `t`, by bisection of `[0, 2^64)`.
fn isqrt_u128(t: u128) -> (q: u128)
    ensures
        q == isqrt(t as int),
        q < 0x1_0000_0000_0000_0000,
{
    let mut lo: u128 = 0;
    let mut hi: u128 = 0x1_0000_0000_0000_0000;
    assert(t < hi * hi) by (nonlinear_arith)
        requires
            t <= u128::MAX,
            hi == 0x1_0000_0000_0000_0000,
    ;
    while hi - lo > 1
        invariant
            lo < hi <= 0x1_0000_0000_0000_0000,
            lo * lo <= t,
            t < hi * hi,
        decreases hi - lo,
    {
        let mid = lo + (hi - lo) / 2;
        assert(mid * mid < 0x1_0000_0000_0000_0000 * 0x1_0000_0000_0000_0000) by (nonlinear_arith)
            requires
                mid < 0x1_0000_0000_0000_0000,
        ;
        if mid * mid <= t {
            lo = mid;
        } else {
            hi = mid;
        }
    }
    proof {
        assert(is_isqrt(lo as int, t as int));
        lemma_isqrt_unique(lo as int, isqrt(t as int), t as int);
    }
    lo
}


/// `floor(m * 2^k)` as a `u128`, when it fits.
fn scaled_floor_u128(m: u128, k: i64) -> (r: u128)
    requires
        scaled_floor(m as int, k as int) <= u128::MAX,
    ensures
        r == scaled_floor(m as int, k as int),
{
    if m == 0 {
        proof {
            if k < 0 {
                lemma_p2_basics(-k);
                vstd::arithmetic::div_mod::lemma_basic_div(0, p2(-k));
            }
        }
        0
    } else if k >= 0 {
        proof {
            lemma_p2_basics(k as int);
            assert(p2(k as int) <= u128::MAX) by (nonlinear_arith)
                requires
                    m * p2(k as int) <= u128::MAX,
                    m >= 1,
                    p2(k as int) > 0,
            ;
            if k > 127 {
                lemma_p2_mono(128, k as int);
                vstd::arithmetic::power2::lemma2_to64_rest();
                lemma_p2_adds(64, 64);
                assert(p2(128) == 0x1_0000_0000_0000_0000 * 0x1_0000_0000_0000_0000);
            }
        }
        m * pow2_u128(k as u32)
    } else if k <= -128 {
        proof {
            lemma_p2_mono(128, -k);
            vstd::arithmetic::power2::lemma2_to64_rest();
            lemma_p2_adds(64, 64);
            assert(p2(128) == 0x1_0000_0000_0000_0000 * 0x1_0000_0000_0000_0000);
            vstd::arithmetic::div_mod::lemma_basic_div(m as int, p2(-k));
        }
        0
    } else {
        proof {
            lemma_p2_basics(-k);
        }
        m / pow2_u128((-k) as u32)
    }
}

/// `floor(sqrt(n) 2^bits) / 2^bits` for `n >= 0`, in reduced form: the
/// square root of `n` rounded down to `bits` fractional bits.
pub open spec fn floor_sqrt_bits(n: Dyadic, bits: int) -> Dyadic {
    reduced(isqrt(scaled_floor(mag(n.numerator as int) as int, n.exponent + 2 * bits)), -bits)
}

/// `|f'|^2` at the sample of the circle of radius `r_hat` in direction `d`,
/// for the coefficients `c` of `f'`.
pub open spec fn sample_norm(c: Seq<ComplexDyadic>, r_hat: Dyadic, d: ComplexDyadic, bits: int) -> Dyadic {
    horner(c, circle_point(r_hat, d, bits)).norm_sq()
}

/// Every step of taking the sample in direction `d` and its squared norm
/// stays within `i128`/`i32`.
pub open spec fn sample_ok(c: Seq<ComplexDyadic>, r_hat: Dyadic, d: ComplexDyadic, bits: int) -> bool {
    let z = circle_point(r_hat, d, bits);
    let v = horner(c, z);
    &&& r_hat.mul_ok(d.re)
    &&& r_hat.mul_ok(d.im)
    &&& trunc_ok(r_hat.product(d.re), bits)
    &&& trunc_ok(r_hat.product(d.im), bits)
    &&& horner_ok(c, z)
    &&& v.re.mul_ok(v.re)
    &&& v.im.mul_ok(v.im)
    &&& v.re.product(v.re).add_ok(v.im.product(v.im))
}

/// The smallest sample norm among the first `k >= 1` directions.
pub open spec fn min_sample_norm(c: Seq<ComplexDyadic>, r_hat: Dyadic, dirs: Seq<ComplexDyadic>, bits: int, k: int) -> Dyadic
    decreases k,
{
    if k <= 1 {
        sample_norm(c, r_hat, dirs[0], bits)
    } else {
        let a = min_sample_norm(c, r_hat, dirs, bits, k - 1);
        let b = sample_norm(c, r_hat, dirs[k - 1], bits);
        if b.below(a) {
            b
        } else {
            a
        }
    }
}

/// `rho`: the smallest `|f'|` over the samples, rounded down to `rho_bits`
/// fractional bits; zero without samples.
pub open spec fn rho_of(c: Seq<ComplexDyadic>, r_hat: Dyadic, dirs: Seq<ComplexDyadic>, coord_bits: int, rho_bits: int) -> Dyadic {
    if dirs.len() == 0 {
        dyadic_zero()
    } else {
        floor_sqrt_bits(min_sample_norm(c, r_hat, dirs, coord_bits, dirs.len() as int), rho_bits)
    }
}

/// The inputs of `certify_r_hat_rho`: a radius `0 < r < 1` whose `r_hat`
/// can be computed, rounding bits that a shift of `1i128` can scale by,
/// samples that can be computed, and a scaled smallest norm within `u128`.
pub open spec fn certify_ok(r: Dyadic, c: Seq<ComplexDyadic>, dirs: Seq<ComplexDyadic>, coord_bits: int, rho_bits: int) -> bool {
    let n = min_sample_norm(c, r_hat_of(r), dirs, coord_bits, dirs.len() as int);
    &&& r_hat_ok(r)
    &&& 0 <= coord_bits <= 126
    &&& 0 <= rho_bits <= 126
    &&& forall|t: int| 0 <= t < dirs.len() ==> sample_ok(c, r_hat_of(r), #[trigger] dirs[t], coord_bits)
    &&& dirs.len() > 0 ==> scaled_floor(mag(n.numerator as int) as int, n.exponent + 2 * rho_bits) <= u128::MAX
}

/// `r_hat` just above `r` and `rho`, a lower bound of `|f'|` on the circle of
/// radius `r_hat` read from its samples in the given unit `directions`: each
/// sample `r_hat d` is rounded toward zero to `coord_frac_bits` fractional
/// bits, `f'` is evaluated there exactly, and the smallest `|f'|` is rounded
/// down to `rho_frac_bits` fractional bits (zero without samples).
pub fn certify_r_hat_rho(
    r: Dyadic,
    fprime: &ComplexFunction,
    directions: &[ComplexDyadic],
    coord_frac_bits: i32,
    rho_frac_bits: i32,
) -> (res: (Dyadic, Dyadic))
    requires
        certify_ok(r, fprime.coefficients(), directions@, coord_frac_bits as int, rho_frac_bits as int),
    ensures
        res.0 == r_hat_of(r),
        res.1 == rho_of(
            fprime.coefficients(),
            r_hat_of(r),
            directions@,
            coord_frac_bits as int,
            rho_frac_bits as int,
        ),
{
    let r_hat = pick_r_hat(r);
    let ghost c = fprime.coefficients();
    let ghost dirs = directions@;
    let mut min_norm = Dyadic::zero();
    let mut j: usize = 0;
    while j < directions.len()
        invariant
            j <= dirs.len(),
            dirs == directions@,
            c == fprime.coefficients(),
            r_hat == r_hat_of(r),
            0 <= coord_frac_bits <= 126,
            forall|t: int| 0 <= t < dirs.len() ==> sample_ok(c, r_hat, #[trigger] dirs[t], coord_frac_bits as int),
            j > 0 ==> min_norm == min_sample_norm(c, r_hat, dirs, coord_frac_bits as int, j as int),
        decreases dirs.len() - j,
    {
        let d = directions[j];
        assert(sample_ok(c, r_hat, dirs[j as int], coord_frac_bits as int));
        let z = ComplexDyadic::new(
            round_toward_zero(r_hat * d.re, coord_frac_bits),
            round_toward_zero(r_hat * d.im, coord_frac_bits),
        );
        let val = fprime.eval(&z);
        let norm = val.re * val.re + val.im * val.im;
        proof {
            lemma_below_iff(norm, min_norm);
        }
        if j == 0 || norm < min_norm {
            min_norm = norm;
        }
        j = j + 1;
    }
    if directions.len() == 0 {
        return (r_hat, Dyadic::zero());
    }
    let m = magnitude(min_norm.numerator);
    let k: i64 = min_norm.exponent as i64 + 2 * (rho_frac_bits as i64);
    let t = scaled_floor_u128(m, k);
    let q = isqrt_u128(t);
    let qi = q as i128;
    proof {
        if qi != 0 {
            lemma_trailing_zeros_fit(qi as int);
        }
    }
    (r_hat, Dyadic::new(qi, -rho_frac_bits).reduce())
}


/// For `0 < r < 1`, `r_hat` lies strictly between `r` and one.
pub proof fn law_r_hat_between(r: Dyadic)
    requires
        r_hat_ok(r),
    ensures
        r.val() < r_hat_of(r).val() < dyadic_one().val(),
{
    let one = dyadic_one();
    let u = crate::dyadic_laws::unit();
    lemma_p2_basics(-(i32::MIN as int));
    lemma_p2_basics(-3 - i32::MIN);
    lemma_p2_basics(-6 - i32::MIN);
    lemma_p2_adds(3, -3 - i32::MIN);
    lemma_p2_adds(6, -6 - i32::MIN);
    vstd::arithmetic::power2::lemma2_to64();
    assert(one.val() == u);
    assert(p2(3) == 8 && p2(6) == 64);
    assert(eighth().val() == p2(-3 - i32::MIN));
    assert(largest_step().val() == p2(-6 - i32::MIN));
    assert(p2(3) * p2(-3 - i32::MIN) == u);
    assert(p2(6) * p2(-6 - i32::MIN) == u);
    let e8 = eighth().val();
    let e64 = largest_step().val();
    assert(e8 * 8 == u && e64 * 64 == u) by (nonlinear_arith)
        requires
            p2(3) == 8,
            p2(6) == 64,
            e8 == p2(-3 - i32::MIN),
            e64 == p2(-6 - i32::MIN),
            p2(3) * p2(-3 - i32::MIN) == u,
            p2(6) * p2(-6 - i32::MIN) == u,
    ;
    lemma_below_iff(dyadic_zero(), r);
    lemma_below_iff(r, one);
    let d = one.difference(r);
    crate::dyadic_laws::lemma_difference_val(one, r);
    let sx = d.product(eighth());
    crate::dyadic_laws::lemma_product_val(d, eighth());
    assert(8 * sx.val() == d.val()) by (nonlinear_arith)
        requires
            sx.val() * u == d.val() * eighth().val(),
            eighth().val() * 8 == u,
            u > 0,
    ;
    lemma_below_iff(dyadic_zero(), sx);
    lemma_below_iff(largest_step(), sx);
    let step = r_hat_step(r);
    assert(0 < step.val() && 8 * step.val() <= d.val());
    crate::dyadic_laws::lemma_sum_val(r, step);
    let rh = r.sum(step);
    lemma_below_iff(rh, one);
}


/// For `0 < r < 1` the step from `r` to `r_hat` is the smaller of
/// `(1 - r) / 8` and `2^-6`.
pub proof fn law_r_hat_step(r: Dyadic)
    requires
        r_hat_ok(r),
    ensures
        ({
            let u = dyadic_one().val();
            let s = r_hat_of(r).val() - r.val();
            &&& 8 * (u - r.val()) <= u ==> 8 * s == u - r.val()
            &&& 8 * (u - r.val()) > u ==> 64 * s == u
            &&& 64 * s <= u
        }),
{
    let one = dyadic_one();
    let u = crate::dyadic_laws::unit();
    lemma_p2_basics(-(i32::MIN as int));
    lemma_p2_basics(-3 - i32::MIN);
    lemma_p2_basics(-6 - i32::MIN);
    lemma_p2_adds(3, -3 - i32::MIN);
    lemma_p2_adds(6, -6 - i32::MIN);
    vstd::arithmetic::power2::lemma2_to64();
    assert(one.val() == u);
    assert(p2(3) == 8 && p2(6) == 64);
    assert(eighth().val() == p2(-3 - i32::MIN));
    assert(largest_step().val() == p2(-6 - i32::MIN));
    let e8 = eighth().val();
    let e64 = largest_step().val();
    assert(e8 * 8 == u && e64 * 64 == u) by (nonlinear_arith)
        requires
            p2(3) == 8,
            p2(6) == 64,
            e8 == p2(-3 - i32::MIN),
            e64 == p2(-6 - i32::MIN),
            p2(3) * p2(-3 - i32::MIN) == u,
            p2(6) * p2(-6 - i32::MIN) == u,
    ;
    lemma_below_iff(dyadic_zero(), r);
    lemma_below_iff(r, one);
    let d = one.difference(r);
    crate::dyadic_laws::lemma_difference_val(one, r);
    let sx = d.product(eighth());
    crate::dyadic_laws::lemma_product_val(d, eighth());
    assert(8 * sx.val() == d.val()) by (nonlinear_arith)
        requires
            sx.val() * u == d.val() * eighth().val(),
            eighth().val() * 8 == u,
            u > 0,
    ;
    lemma_below_iff(dyadic_zero(), sx);
    lemma_below_iff(largest_step(), sx);
    let step = r_hat_step(r);
    crate::dyadic_laws::lemma_sum_val(r, step);
    let rh = r.sum(step);
    lemma_below_iff(rh, one);
    assert(r_hat_of(r) == rh);
    if 8 * (u - r.val()) <= u {
        assert(64 * sx.val() <= 64 * e64);
        assert(step == sx);
    } else {
        assert(64 * sx.val() > 64 * e64);
        assert(step == largest_step());
    }
}

/// Every integer `t >= 0` has an integer square root.
proof fn lemma_isqrt_exists(t: int)
    requires
        t >= 0,
    ensures
        is_isqrt(isqrt(t), t),
    decreases t,
{
    if t == 0 {
        assert(is_isqrt(0, 0));
    } else {
        lemma_isqrt_exists(t - 1);
        let q = isqrt(t - 1);
        if (q + 1) * (q + 1) <= t {
            assert((q + 2) * (q + 2) > t) by (nonlinear_arith)
                requires
                    q >= 0,
                    t - 1 < (q + 1) * (q + 1),
            ;
            assert(is_isqrt(q + 1, t));
        } else {
            assert(is_isqrt(q, t));
        }
    }
}

/// A squared norm is not negative.
proof fn lemma_norm_nonneg(v: ComplexDyadic)
    requires
        v.re.mul_ok(v.re),
        v.im.mul_ok(v.im),
        v.re.product(v.re).add_ok(v.im.product(v.im)),
    ensures
        v.norm_sq().val() >= 0,
        v.norm_sq().numerator >= 0,
{
    crate::dyadic_laws::lemma_product_val(v.re, v.re);
    crate::dyadic_laws::lemma_product_val(v.im, v.im);
    crate::dyadic_laws::lemma_sum_val(v.re.product(v.re), v.im.product(v.im));
    lemma_p2_basics(-(i32::MIN as int));
    let u = crate::dyadic_laws::unit();
    let (a, b) = (v.re.product(v.re).val(), v.im.product(v.im).val());
    assert(a >= 0 && b >= 0) by (nonlinear_arith)
        requires
            a * u == v.re.val() * v.re.val(),
            b * u == v.im.val() * v.im.val(),
            u > 0,
    ;
    let w = v.norm_sq();
    lemma_p2_basics(w.exponent - i32::MIN);
    assert(w.numerator >= 0) by (nonlinear_arith)
        requires
            w.val() == w.numerator * p2(w.exponent - i32::MIN),
            w.val() >= 0,
            p2(w.exponent - i32::MIN) > 0,
    ;
}

/// The smallest of the first `k` sample norms is at most each of them, and
/// not negative.
proof fn lemma_min_sample(c: Seq<ComplexDyadic>, r_hat: Dyadic, dirs: Seq<ComplexDyadic>, bits: int, k: int)
    requires
        1 <= k <= dirs.len(),
        forall|t: int| 0 <= t < dirs.len() ==> sample_ok(c, r_hat, #[trigger] dirs[t], bits),
    ensures
        forall|t: int|
            0 <= t < k ==> min_sample_norm(c, r_hat, dirs, bits, k).val() <= #[trigger] sample_norm(
                c,
                r_hat,
                dirs[t],
                bits,
            ).val(),
        min_sample_norm(c, r_hat, dirs, bits, k).numerator >= 0,
    decreases k,
{
    let b = sample_norm(c, r_hat, dirs[k - 1], bits);
    assert(sample_ok(c, r_hat, dirs[k - 1], bits));
    lemma_norm_nonneg(horner(c, circle_point(r_hat, dirs[k - 1], bits)));
    if k > 1 {
        lemma_min_sample(c, r_hat, dirs, bits, k - 1);
        let a = min_sample_norm(c, r_hat, dirs, bits, k - 1);
        lemma_below_iff(b, a);
    }
}

/// `rho` is a lower bound of `|f'|` at every sample: `rho^2 <= |f'(z_j)|^2`
/// (in the units of `val`, where one is `unit()`).
pub proof fn law_rho_below_samples(r: Dyadic, c: Seq<ComplexDyadic>, dirs: Seq<ComplexDyadic>, coord_bits: int, rho_bits: int)
    requires
        certify_ok(r, c, dirs, coord_bits, rho_bits),
    ensures
        forall|t: int|
            0 <= t < dirs.len() ==> rho_of(c, r_hat_of(r), dirs, coord_bits, rho_bits).val() * rho_of(
                c,
                r_hat_of(r),
                dirs,
                coord_bits,
                rho_bits,
            ).val() <= #[trigger] sample_norm(c, r_hat_of(r), dirs[t], coord_bits).val()
                * crate::dyadic_laws::unit(),
{
    if dirs.len() > 0 {
        let rh = r_hat_of(r);
        let n = min_sample_norm(c, rh, dirs, coord_bits, dirs.len() as int);
        lemma_min_sample(c, rh, dirs, coord_bits, dirs.len() as int);
        let nn = n.numerator as int;
        let k = n.exponent + 2 * rho_bits;
        let t = scaled_floor(nn, k);
        assert(mag(nn) == nn);
        let bound = if k >= 0 {
            nn * p2(k)
        } else {
            nn
        };
        if k < 0 {
            lemma_p2_basics(-k);
            vstd::arithmetic::div_mod::lemma_fundamental_div_mod(nn, p2(-k));
            vstd::arithmetic::div_mod::lemma_mod_pos_bound(nn, p2(-k));
            vstd::arithmetic::div_mod::lemma_div_pos_is_pos(nn, p2(-k));
        } else {
            lemma_p2_basics(k);
        }
        assert(t >= 0) by (nonlinear_arith)
            requires
                k >= 0 ==> t == nn * p2(k) && p2(k) > 0,
                k < 0 ==> t == nn / p2(-k) && t >= 0,
                nn >= 0,
        ;
        lemma_isqrt_exists(t);
        let q = isqrt(t);
        assert(q < 0x1_0000_0000_0000_0000) by (nonlinear_arith)
            requires
                q * q <= t,
                t <= u128::MAX,
                q >= 0,
        ;
        if q != 0 {
            lemma_trailing_zeros_fit(q);
        }
        crate::dyadic_laws::lemma_reduced_val(q, -rho_bits);
        let rho = rho_of(c, rh, dirs, coord_bits, rho_bits);
        let pr = p2(-rho_bits - i32::MIN);
        assert(rho.val() == q * pr);
        let u = crate::dyadic_laws::unit();
        lemma_p2_basics(-rho_bits - i32::MIN);
        lemma_p2_basics(n.exponent - i32::MIN);
        lemma_p2_basics(-(i32::MIN as int));
        // rho^2 = q^2 2^(-2 rho_bits) (units^2) and q^2 <= t <= n 2^(2 rho_bits)
        lemma_p2_adds(-rho_bits - i32::MIN, -rho_bits - i32::MIN);
        let pn = p2(n.exponent - i32::MIN);
        let w = p2(-2 * rho_bits - 2 * i32::MIN);
        lemma_p2_basics(-2 * rho_bits - 2 * i32::MIN);
        assert(w > 0);
        assert(pn > 0 && u > 0);
        assert(pn * u > 0) by (nonlinear_arith)
            requires
                pn > 0,
                u > 0,
        ;
        assert(n.val() == nn * pn);
        if k >= 0 {
            lemma_p2_adds(k, -2 * rho_bits - 2 * i32::MIN);
            lemma_p2_adds(n.exponent - i32::MIN, -(i32::MIN as int));
            assert(t * w == n.val() * u) by (nonlinear_arith)
                requires
                    t == nn * p2(k),
                    p2(k) * w == pn * u,
                    n.val() == nn * pn,
            ;
        } else {
            lemma_p2_adds(n.exponent - i32::MIN, -(i32::MIN as int));
            lemma_p2_adds(-k, n.exponent - 2 * i32::MIN);
            assert(-k + (n.exponent - 2 * i32::MIN) == -2 * rho_bits - 2 * i32::MIN);
            assert(p2(-k) * (pn * u) == w);
            assert(t * w <= n.val() * u) by (nonlinear_arith)
                requires
                    t * p2(-k) <= nn,
                    n.val() == nn * pn,
                    p2(-k) * (pn * u) == w,
                    pn * u > 0,
                    t >= 0,
            ;
        }
        assert(rho.val() * rho.val() <= n.val() * u) by (nonlinear_arith)
            requires
                rho.val() == q * pr,
                pr * pr == w,
                q * q <= t,
                t * w <= n.val() * u,
                w > 0,
        ;
        assert forall|t2: int| 0 <= t2 < dirs.len() implies rho.val() * rho.val() <= #[trigger] sample_norm(
            c,
            rh,
            dirs[t2],
            coord_bits,
        ).val() * u by {
            assert(n.val() <= sample_norm(c, rh, dirs[t2], coord_bits).val());
            assert(n.val() * u <= sample_norm(c, rh, dirs[t2], coord_bits).val() * u) by (nonlinear_arith)
                requires
                    n.val() <= sample_norm(c, rh, dirs[t2], coord_bits).val(),
                    u > 0,
            ;
        }
    }
}

} // verus!
