//! The nearest lattice index of a dyadic on `delta Z`, exactly, for every
//! pair of exponents.
use crate::arith::{div_round, fits_i128, lemma_p2_basics, lemma_p2_mono, mag, p2, round_half_away};
use crate::complex::ComplexDyadic;
use crate::covering_grids::{
    covering_grid_bitmap, floor_points_to_exponent, grid_input_fits, grid_input_ok, is_covering_bitmap, lattice_index,
    GridBitmap,
};
use crate::arith::floor_q;
use crate::dyadic::Dyadic;
use crate::dyadic_laws::lemma_val_at;
use vstd::prelude::*;

verus! {

/// A quotient `(N 2^t) / D` at least `q` stays at least `q 2^(k - t)` after
/// `k - t` more doublings.
proof fn lemma_quotient_grows(nn: int, dd: int, q: int, rem: int, t: int, k: int)
    requires
        dd > 0,
        nn >= 0,
        q >= 0,
        rem >= 0,
        0 <= t <= k,
        nn * p2(t) == q * dd + rem,
    ensures
        (nn * p2(k)) / dd >= q,
{
    lemma_p2_basics(k - t);
    crate::arith::lemma_p2_adds(t, k - t);
    let c = p2(k - t);
    assert(nn * p2(k) == (q * dd + rem) * c) by (nonlinear_arith)
        requires
            nn * p2(t) == q * dd + rem,
            p2(t) * c == p2(k),
    ;
    assert(nn * p2(k) >= q * dd) by (nonlinear_arith)
        requires
            nn * p2(k) == (q * dd + rem) * c,
            c >= 1,
            q >= 0,
            rem >= 0,
            dd > 0,
    ;
    vstd::arithmetic::div_mod::lemma_fundamental_div_mod(nn * p2(k), dd);
    vstd::arithmetic::div_mod::lemma_mod_bound(nn * p2(k), dd);
    let qq = (nn * p2(k)) / dd;
    assert(qq >= q) by (nonlinear_arith)
        requires
            nn * p2(k) == dd * qq + (nn * p2(k)) % dd,
            0 <= (nn * p2(k)) % dd < dd,
            nn * p2(k) >= q * dd,
            dd > 0,
    ;
}

/// `round_half_away(n * 2^k, d)` where it fits in an `i32`, by long division;
/// `None` where it does not fit.
fn round_shifted(n: i128, d: i128, k: u32) -> (r: Option<i32>)
    requires
        d != 0,
    ensures
        r matches Some(q) ==> q == round_half_away(n * p2(k as int), d as int),
        r is None ==> !crate::arith::fits_i32(round_half_away(n * p2(k as int), d as int)),
{
    let nn = crate::arith::magnitude(n);
    let dd = crate::arith::magnitude(d);
    let ghost big = n * p2(k as int);
    proof {
        crate::arith::lemma_mag_shift(n as int, k as int);
        lemma_p2_basics(0);
        lemma_p2_basics(k as int);
    }
    let mut q: u128 = nn / dd;
    let mut rem: u128 = nn % dd;
    let mut t: u32 = 0;
    proof {
        assert(nn * p2(0) == nn);
        vstd::arithmetic::div_mod::lemma_fundamental_div_mod(nn as int, dd as int);
        vstd::arithmetic::mul::lemma_mul_is_commutative(dd as int, q as int);
        assert(nn * p2(0) == q * dd + rem);
    }
    while t < k
        invariant
            t <= k,
            dd >= 1,
            dd <= 0x8000_0000_0000_0000_0000_0000_0000_0000,
            rem < dd,
            nn * p2(t as int) == q * dd + rem,
            mag(big) == nn * p2(k as int),
            dd == mag(d as int),
            big == n * p2(k as int),
            d != 0,
        decreases k - t,
    {
        if q > 0x8000_0000 {
            proof {
                lemma_quotient_grows(nn as int, dd as int, q as int, rem as int, t as int, k as int);
                assert(mag(d as int) == dd);
                assert(mag(big) / mag(d as int) > 0x8000_0000);
            }
            return None;
        }
        proof {
            lemma_p2_basics(t as int);
            assert(nn * p2(t + 1) == 2 * (q * dd + rem)) by (nonlinear_arith)
                requires
                    nn * p2(t as int) == q * dd + rem,
                    p2(t + 1) == 2 * p2(t as int),
            ;
        }
        let r2 = 2 * rem;
        let ghost q0 = q;
        if r2 >= dd {
            q = 2 * q + 1;
            rem = r2 - dd;
        } else {
            q = 2 * q;
            rem = r2;
        }
        proof {
            assert(q * dd + rem == 2 * (q0 * dd + (r2 / 2))) by (nonlinear_arith)
                requires
                    r2 == 2 * (r2 / 2),
                    (q == 2 * q0 + 1 && rem == r2 - dd) || (q == 2 * q0 && rem == r2),
            ;
        }
        t = t + 1;
    }
    proof {
        vstd::arithmetic::div_mod::lemma_fundamental_div_mod_converse(nn * p2(k as int), dd as int, q as int, rem as int);
        assert(mag(d as int) == dd);
    }
    if q > 0x8000_0000 {
        return None;
    }
    let m: u128 = if 2 * rem >= dd {
        q + 1
    } else {
        q
    };
    if (n < 0) == (d < 0) || m == 0 {
        if m > 0x7fff_ffff {
            return None;
        }
        Some(m as i32)
    } else {
        if m > 0x8000_0000 {
            return None;
        }
        Some((0 - m as i64) as i32)
    }
}

/// `round_half_away(n, d * 2^k)` where it fits in an `i32`; `None` where it does not.
fn round_over_shifted(n: i128, d: i128, k: u32) -> (r: Option<i32>)
    requires
        d != 0,
    ensures
        r matches Some(q) ==> q == round_half_away(n as int, d * p2(k as int)),
        r is None ==> !crate::arith::fits_i32(round_half_away(n as int, d * p2(k as int))),
{
    let ghost dd = d * p2(k as int);
    proof {
        lemma_p2_basics(k as int);
        crate::arith::lemma_mag_shift(d as int, k as int);
    }
    let md = crate::arith::magnitude(d);
    let mut fits = false;
    if k < 127 {
        fits = crate::checked::shl_fits(d, k);
    }
    proof {
        if k == 0 {
            assert(d * p2(0) == d);
        }
        if k < 127 && !fits {
            assert(!fits_i128(dd));
        }
    }
    if fits {
        let big = crate::arith::shl(d, k);
        proof {
            crate::arith::lemma_round_half_away_fits(n as int, big as int);
        }
        if n == i128::MIN && big == -1 {
            return None;
        }
        let q = div_round(n, big, false);
        if q < -0x8000_0000 || q > 0x7fff_ffff {
            return None;
        }
        return Some(q as i32);
    }
    // the denominator exceeds every i128 numerator: the quotient is at most one
    let mn = crate::arith::magnitude(n);
    proof {
        if k >= 127 {
            lemma_p2_mono(127, k as int);
            crate::arith::lemma_p2_adds(63, 64);
            vstd::arithmetic::power2::lemma2_to64_rest();
            assert(p2(63) == 0x8000_0000_0000_0000);
            assert(p2(64) == 0x1_0000_0000_0000_0000);
            assert(md * p2(k as int) >= p2(k as int)) by (nonlinear_arith)
                requires
                    md >= 1,
                    p2(k as int) > 0,
            ;
        }
        assert(mag(dd) >= 0x8000_0000_0000_0000_0000_0000_0000_0000);
        assert(mag(n as int) <= 0x8000_0000_0000_0000_0000_0000_0000_0000);
        crate::arith::lemma_round_half_away_small(n as int, dd);
    }
    // twice the numerator reaches the denominator: |n| >= |d| 2^(k - 1)
    let reach_half = if k >= 129 {
        proof {
            lemma_p2_mono(128, k - 1);
            crate::arith::lemma_p2_adds(64, 64);
            vstd::arithmetic::power2::lemma2_to64_rest();
            assert(p2(64) == 0x1_0000_0000_0000_0000);
            lemma_p2_basics(k - 1);
            assert(md * p2(k - 1) >= p2(k - 1)) by (nonlinear_arith)
                requires
                    md >= 1,
                    p2(k - 1) > 0,
            ;
            assert(mag(dd) == 2 * (md * p2(k - 1))) by (nonlinear_arith)
                requires
                    mag(dd) == md * p2(k as int),
                    p2(k as int) == 2 * p2(k - 1),
            ;
        }
        false
    } else {
        let ph = crate::arith::pow2_u128(k - 1);
        proof {
            lemma_p2_basics(k - 1);
            assert(mag(dd) == 2 * (md * p2(k - 1))) by (nonlinear_arith)
                requires
                    mag(dd) == md * p2(k as int),
                    p2(k as int) == 2 * p2(k - 1),
            ;
            assert((mn / ph >= md) == (mn >= md * ph)) by (nonlinear_arith)
                requires
                    ph > 0,
                    md >= 1,
            ;
        }
        mn / ph >= md
    };
    if reach_half {
        if (n > 0) == (d > 0) {
            Some(1)
        } else {
            Some(-1)
        }
    } else {
        Some(0)
    }
}

/// The nearest lattice index of `x` on `delta Z` (ties away from zero), where
/// it fits in an `i32`; `None` where it does not.
pub fn nearest_lattice_index(x: Dyadic, delta: Dyadic) -> (r: Option<i32>)
    requires
        delta.numerator != 0,
    ensures
        r matches Some(i) ==> i == lattice_index(x, delta),
        r is None ==> !crate::arith::fits_i32(lattice_index(x, delta)),
{
    let ghost m = x.common_exp(delta);
    proof {
        lemma_val_at(x, m);
        lemma_val_at(delta, m);
        lemma_p2_basics(m - i32::MIN);
        crate::arith::lemma_mag_shift(delta.numerator as int, delta.exponent - m);
        assert(delta.at(m) != 0);
        crate::arith::lemma_round_half_away_scale(x.at(m), delta.at(m), p2(m - i32::MIN));
        x.lemma_at_own_exponent();
        delta.lemma_at_own_exponent();
        assert(x.val() == x.at(m) * p2(m - i32::MIN));
        assert(delta.val() == delta.at(m) * p2(m - i32::MIN));
    }
    if x.exponent >= delta.exponent {
        let k = (x.exponent as i64 - delta.exponent as i64) as u32;
        round_shifted(x.numerator, delta.numerator, k)
    } else {
        let k = (delta.exponent as i64 - x.exponent as i64) as u32;
        round_over_shifted(x.numerator, delta.numerator, k)
    }
}

/// `q` is `points` with both parts of each point rounded down to a multiple
/// of `2^l` (as `floor_points_to_exponent` does).
pub open spec fn floored_points(points: Seq<ComplexDyadic>, l: int, q: Seq<ComplexDyadic>) -> bool {
    &&& q.len() == points.len()
    &&& forall|k: int|
        0 <= k < q.len() ==> {
            let p = #[trigger] points[k];
            &&& p.re.exponent >= l ==> q[k].re == p.re
            &&& p.re.exponent < l ==> q[k].re.exponent == l && q[k].re.numerator == floor_q(
                p.re.numerator as int,
                p2(l - p.re.exponent),
            )
            &&& p.im.exponent >= l ==> q[k].im == p.im
            &&& p.im.exponent < l ==> q[k].im.exponent == l && q[k].im.numerator == floor_q(
                p.im.numerator as int,
                p2(l - p.im.exponent),
            )
        }
}

/// The exponent the points are rounded to where the exact covering grid cannot
/// take them: 32 binary places below the finer of `epsilon` and `delta`.
pub open spec fn rounding_exponent(epsilon: Dyadic, delta: Dyadic) -> int {
    let e = if epsilon.exponent <= delta.exponent {
        epsilon.exponent as int
    } else {
        delta.exponent as int
    };
    if e - 32 < i32::MIN {
        i32::MIN as int
    } else {
        e - 32
    }
}

/// The covering grid of `points`, exactly where `covering_grid_bitmap` takes
/// them; otherwise that of the points rounded down to `2^rounding_exponent`,
/// where that fits; `None` where neither does.
pub fn covering_grid_bitmap_rounded(points: &[ComplexDyadic], epsilon: Dyadic, delta: Dyadic) -> (r: Option<GridBitmap>)
    ensures
        grid_input_ok(points@, epsilon, delta) ==> (r matches Some(g) && is_covering_bitmap(g, points@, epsilon, delta)),
        !grid_input_ok(points@, epsilon, delta) ==> exists|q: Seq<ComplexDyadic>|
            floored_points(points@, rounding_exponent(epsilon, delta), q) && (r is Some <==> grid_input_ok(
                q,
                epsilon,
                delta,
            )) && (r matches Some(g) ==> is_covering_bitmap(g, q, epsilon, delta)),
{
    if grid_input_fits(points, epsilon, delta) {
        return Some(covering_grid_bitmap(points, epsilon, delta));
    }
    let e: i32 = if epsilon.exponent <= delta.exponent {
        epsilon.exponent
    } else {
        delta.exponent
    };
    let l: i32 = if (e as i64) - 32 < i32::MIN as i64 {
        i32::MIN
    } else {
        e - 32
    };
    let rounded = floor_points_to_exponent(points, l);
    proof {
        assert(floored_points(points@, rounding_exponent(epsilon, delta), rounded@));
    }
    if grid_input_fits(rounded.as_slice(), epsilon, delta) {
        Some(covering_grid_bitmap(rounded.as_slice(), epsilon, delta))
    } else {
        None
    }
}

/// Rounding a part down to a multiple of `2^l` moves it down by less than `2^l`.
proof fn lemma_floor_close(d: Dyadic, l: int, r: Dyadic)
    requires
        i32::MIN <= l,
        d.exponent >= l ==> r == d,
        d.exponent < l ==> r.exponent == l && r.numerator == floor_q(d.numerator as int, p2(l - d.exponent)),
    ensures
        r.val() <= d.val(),
        d.val() < r.val() + p2(l - i32::MIN),
{
    lemma_p2_basics(l - i32::MIN);
    if d.exponent < l {
        let big = p2(l - d.exponent);
        let unit = p2(d.exponent - i32::MIN);
        lemma_p2_basics(l - d.exponent);
        lemma_p2_basics(d.exponent - i32::MIN);
        crate::arith::lemma_p2_adds(l - d.exponent, d.exponent - i32::MIN);
        let dn = d.numerator as int;
        let fl = dn / big;
        let rem = dn % big;
        vstd::arithmetic::div_mod::lemma_fundamental_div_mod(dn, big);
        vstd::arithmetic::div_mod::lemma_mod_bound(dn, big);
        assert(r.numerator == fl);
        assert(r.val() == fl * (big * unit));
        assert(d.val() == dn * unit);
        assert(d.val() == r.val() + rem * unit) by (nonlinear_arith)
            requires
                dn == big * fl + rem,
                d.val() == dn * unit,
                r.val() == fl * (big * unit),
        ;
        assert(0 <= rem * unit < big * unit) by (nonlinear_arith)
            requires
                0 <= rem < big,
                unit > 0,
        ;
    }
}

/// Where the covering grid rounds the points first, it rounds them only to a
/// step finer than `epsilon` and `delta`: each part of each rounded point lies
/// at or below the part it comes from, by less than `2^-32` times the smaller
/// of `epsilon` and `delta`.
pub proof fn law_rounded_points_close(
    points: Seq<ComplexDyadic>,
    epsilon: Dyadic,
    delta: Dyadic,
    q: Seq<ComplexDyadic>,
)
    requires
        floored_points(points, rounding_exponent(epsilon, delta), q),
        epsilon.numerator > 0,
        delta.numerator > 0,
    ensures
        q.len() == points.len(),
        forall|k: int|
            0 <= k < points.len() ==> {
                let p = #[trigger] points[k];
                &&& q[k].re.val() <= p.re.val()
                &&& (p.re.val() - q[k].re.val()) * p2(32) < epsilon.val()
                &&& (p.re.val() - q[k].re.val()) * p2(32) < delta.val()
                &&& q[k].im.val() <= p.im.val()
                &&& (p.im.val() - q[k].im.val()) * p2(32) < epsilon.val()
                &&& (p.im.val() - q[k].im.val()) * p2(32) < delta.val()
            },
{
    let l = rounding_exponent(epsilon, delta);
    let e = if epsilon.exponent <= delta.exponent {
        epsilon.exponent as int
    } else {
        delta.exponent as int
    };
    lemma_p2_basics(32);
    lemma_p2_basics(epsilon.exponent - i32::MIN);
    lemma_p2_basics(delta.exponent - i32::MIN);
    lemma_p2_basics(e - i32::MIN);
    lemma_p2_basics(l - i32::MIN);
    assert(epsilon.val() >= p2(e - i32::MIN)) by {
        lemma_p2_mono(e - i32::MIN, epsilon.exponent - i32::MIN);
        assert(epsilon.numerator * p2(epsilon.exponent - i32::MIN) >= p2(epsilon.exponent - i32::MIN)) by (nonlinear_arith)
            requires
                epsilon.numerator >= 1,
                p2(epsilon.exponent - i32::MIN) > 0,
        ;
    }
    assert(delta.val() >= p2(e - i32::MIN)) by {
        lemma_p2_mono(e - i32::MIN, delta.exponent - i32::MIN);
        assert(delta.numerator * p2(delta.exponent - i32::MIN) >= p2(delta.exponent - i32::MIN)) by (nonlinear_arith)
            requires
                delta.numerator >= 1,
                p2(delta.exponent - i32::MIN) > 0,
        ;
    }
    if e - 32 >= i32::MIN {
        crate::arith::lemma_p2_adds(32, l - i32::MIN);
        assert(p2(32) * p2(l - i32::MIN) == p2(e - i32::MIN));
    }
    assert forall|k: int| 0 <= k < points.len() implies {
        let p = #[trigger] points[k];
        &&& q[k].re.val() <= p.re.val()
        &&& (p.re.val() - q[k].re.val()) * p2(32) < epsilon.val()
        &&& (p.re.val() - q[k].re.val()) * p2(32) < delta.val()
        &&& q[k].im.val() <= p.im.val()
        &&& (p.im.val() - q[k].im.val()) * p2(32) < epsilon.val()
        &&& (p.im.val() - q[k].im.val()) * p2(32) < delta.val()
    } by {
        let p = points[k];
        lemma_floor_close(p.re, l, q[k].re);
        lemma_floor_close(p.im, l, q[k].im);
        let dr = p.re.val() - q[k].re.val();
        let di = p.im.val() - q[k].im.val();
        let step = p2(l - i32::MIN);
        if e - 32 >= i32::MIN {
            assert(dr * p2(32) < step * p2(32) && di * p2(32) < step * p2(32)) by (nonlinear_arith)
                requires
                    0 <= dr < step,
                    0 <= di < step,
                    p2(32) > 0,
            ;
        } else {
            assert(l == i32::MIN);
            assert(p.re.exponent >= l && p.im.exponent >= l);
            assert(dr == 0 && di == 0);
        }
    }
}

} // verus!
