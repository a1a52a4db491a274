//! What differentiating and integrating power series do to the values of
//! their coefficients.
use crate::arith::{
    fits_i128, lemma_p2_adds, lemma_p2_basics, lemma_round_half_away_close, lemma_round_half_even_close,
    mag, p2, round_half_away, round_half_even,
};
use crate::complex::{padded_c, ComplexDyadic};
use crate::dyadic::{dyadic_zero, max_len, Dyadic};
use crate::dyadic_laws::{lemma_difference_val, lemma_product_val, lemma_reduced_val, lemma_sum_val, unit};
use crate::holomorphic::{
    antiderivative_coeffs, antiderivative_ok, derivative_coeffs, derivative_ok, int_c,
    quotient_antiderivative_coeffs,
};
use vstd::prelude::*;

verus! {

/// The coefficient-wise sum of two series, the shorter padded with zeros, as
/// `+` on `ExpansionCoefficients` gives it.
pub open spec fn added_coeffs(a: Seq<ComplexDyadic>, b: Seq<ComplexDyadic>) -> Seq<ComplexDyadic> {
    Seq::new(max_len(a.len(), b.len()), |i: int| padded_c(a, i).sum(padded_c(b, i)))
}

/// Multiplying by the integer `j` multiplies both parts by `j`.
proof fn lemma_times_int(x: ComplexDyadic, j: int)
    requires
        x.mul_ok(int_c(j)),
        fits_i128(j),
    ensures
        x.product(int_c(j)).re.val() == x.re.val() * j,
        x.product(int_c(j)).im.val() == x.im.val() * j,
{
    let jd = Dyadic { numerator: j as i128, exponent: 0 };
    let z = dyadic_zero();
    let u = unit();
    lemma_p2_basics(-(i32::MIN as int));
    assert(jd.val() == j * u);
    assert(z.val() == 0);
    lemma_product_val(x.re, jd);
    lemma_product_val(x.im, z);
    lemma_product_val(x.re, z);
    lemma_product_val(x.im, jd);
    let (a, b, c, d) = (x.re.product(jd).val(), x.im.product(z).val(), x.re.product(z).val(), x.im.product(jd).val());
    assert(a == x.re.val() * j && b == 0 && c == 0 && d == x.im.val() * j) by (nonlinear_arith)
        requires
            a * u == x.re.val() * (j * u),
            b * u == x.im.val() * 0,
            c * u == x.re.val() * 0,
            d * u == x.im.val() * (j * u),
            u > 0,
    ;
    lemma_difference_val(x.re.product(jd), x.im.product(z));
    lemma_sum_val(x.re.product(z), x.im.product(jd));
}

/// An entry of a padded series times `j`: zero past the end.
proof fn lemma_padded_value(c: Seq<ComplexDyadic>, i: int)
    ensures
        i < 0 || i >= c.len() ==> padded_c(c, i).re.val() == 0 && padded_c(c, i).im.val() == 0,
{
}

/// Entry `k` of a derivative, padded with zeros, has the values of entry
/// `k + 1` of the series times `k + 1`.
proof fn lemma_padded_derivative(c: Seq<ComplexDyadic>, k: int)
    requires
        k >= 0,
        derivative_ok(c),
    ensures
        padded_c(derivative_coeffs(c), k).re.val() == padded_c(c, k + 1).re.val() * (k + 1),
        padded_c(derivative_coeffs(c), k).im.val() == padded_c(c, k + 1).im.val() * (k + 1),
{
    let j = k + 1;
    let dc = derivative_coeffs(c);
    if j < c.len() {
        assert(c[j].mul_ok(int_c(j)));
        lemma_times_int(c[j], j);
        assert(padded_c(dc, k) == c[j].product(int_c(j)));
    } else {
        lemma_padded_value(c, j);
        lemma_padded_value(dc, k);
        if c.len() <= 1 && k == 0 {
            assert(padded_c(dc, k) == crate::complex::complex_zero());
        }
    }
}

/// Differentiating is linear: the derivative of a sum of two series has the
/// values of the sum of their derivatives.
pub proof fn law_derivative_linear(a: Seq<ComplexDyadic>, b: Seq<ComplexDyadic>)
    requires
        forall|i: int| 0 <= i < max_len(a.len(), b.len()) ==> #[trigger] padded_c(a, i).add_ok(padded_c(b, i)),
        derivative_ok(a),
        derivative_ok(b),
        derivative_ok(added_coeffs(a, b)),
        forall|i: int|
            0 <= i < max_len(derivative_coeffs(a).len(), derivative_coeffs(b).len()) ==> #[trigger] padded_c(
                derivative_coeffs(a),
                i,
            ).add_ok(padded_c(derivative_coeffs(b), i)),
    ensures
        derivative_coeffs(added_coeffs(a, b)).len() == added_coeffs(derivative_coeffs(a), derivative_coeffs(b)).len(),
        forall|k: int|
            0 <= k < derivative_coeffs(added_coeffs(a, b)).len() ==> (#[trigger] derivative_coeffs(
                added_coeffs(a, b),
            )[k]).same_value(added_coeffs(derivative_coeffs(a), derivative_coeffs(b))[k]),
{
    let s = added_coeffs(a, b);
    let da = derivative_coeffs(a);
    let db = derivative_coeffs(b);
    let ds = derivative_coeffs(s);
    let dd = added_coeffs(da, db);
    assert(s.len() == max_len(a.len(), b.len()));
    assert(da.len() == (if a.len() <= 1 { 1 } else { a.len() - 1 }));
    assert(db.len() == (if b.len() <= 1 { 1 } else { b.len() - 1 }));
    assert(ds.len() == (if s.len() <= 1 { 1 } else { s.len() - 1 }));
    assert(ds.len() == dd.len());
    assert forall|k: int| 0 <= k < ds.len() implies (#[trigger] ds[k]).same_value(dd[k]) by {
        let j = k + 1;
        lemma_padded_derivative(a, k);
        lemma_padded_derivative(b, k);
        if s.len() <= 1 {
            assert(k == 0);
            assert(ds[k] == crate::complex::complex_zero());
        } else {
            assert(s[j].mul_ok(int_c(j)));
            lemma_times_int(s[j], j);
            assert(j < max_len(a.len(), b.len()));
            assert(padded_c(a, j).add_ok(padded_c(b, j)));
            lemma_sum_val(padded_c(a, j).re, padded_c(b, j).re);
            lemma_sum_val(padded_c(a, j).im, padded_c(b, j).im);
        }
        assert(padded_c(da, k).add_ok(padded_c(db, k)));
        lemma_sum_val(padded_c(da, k).re, padded_c(db, k).re);
        lemma_sum_val(padded_c(da, k).im, padded_c(db, k).im);
        crate::dyadic_laws::lemma_same_value_iff(ds[k].re, dd[k].re);
        crate::dyadic_laws::lemma_same_value_iff(ds[k].im, dd[k].im);
        assert((padded_c(a, j).re.val() + padded_c(b, j).re.val()) * j == padded_c(a, j).re.val() * j
            + padded_c(b, j).re.val() * j) by (nonlinear_arith);
        assert((padded_c(a, j).im.val() + padded_c(b, j).im.val()) * j == padded_c(a, j).im.val() * j
            + padded_c(b, j).im.val() * j) by (nonlinear_arith);
    }
}

/// One part of a coefficient, divided by `j` as the antiderivative does it and
/// multiplied by `j` again, is within `j/2` steps of `2^(exponent - bits)` of itself.
proof fn lemma_divided_back(x: Dyadic, j: int, bits: u32)
    requires
        j > 0,
        fits_i128(j),
        x.div_with_precision_ok(Dyadic { numerator: j as i128, exponent: 0 }, bits),
    ensures
        2 * mag(x.rounded_quotient(Dyadic { numerator: j as i128, exponent: 0 }, bits).val() * j - x.val())
            <= j * p2(x.exponent - bits - i32::MIN),
{
    let jd = Dyadic { numerator: j as i128, exponent: 0 };
    let n = x.numerator * p2(bits as int);
    let q = round_half_even(n, j);
    let e = x.exponent - bits;
    lemma_reduced_val(q, e);
    lemma_round_half_even_close(n, j);
    lemma_p2_basics(e - i32::MIN);
    lemma_p2_adds(bits as int, e - i32::MIN);
    let pe = p2(e - i32::MIN);
    let qv = x.rounded_quotient(jd, bits).val();
    assert(qv == q * pe);
    assert(x.val() == x.numerator * p2(x.exponent - i32::MIN));
    assert(x.val() == n * pe) by (nonlinear_arith)
        requires
            x.val() == x.numerator * p2(x.exponent - i32::MIN),
            p2(x.exponent - i32::MIN) == p2(bits as int) * pe,
            n == x.numerator * p2(bits as int),
    ;
    assert(2 * mag(qv * j - x.val()) <= j * pe) by (nonlinear_arith)
        requires
            qv == q * pe,
            x.val() == n * pe,
            2 * mag(q * j - n) <= j,
            pe > 0,
    ;
}

/// Differentiating the antiderivative gives the series back, up to the
/// rounding of its divisions: each part of coefficient `k` comes back within
/// `(k + 1) / 2` steps of `2^(exponent - bits)`, where `exponent` is that
/// part's exponent (exactly when `k + 1` divides it).
pub proof fn law_derivative_undoes_antiderivative(c: Seq<ComplexDyadic>, bits: u32)
    requires
        c.len() >= 1,
        antiderivative_ok(c, bits),
        derivative_ok(antiderivative_coeffs(c, bits)),
    ensures
        derivative_coeffs(antiderivative_coeffs(c, bits)).len() == c.len(),
        forall|k: int|
            0 <= k < c.len() ==> {
                let d = #[trigger] derivative_coeffs(antiderivative_coeffs(c, bits))[k];
                &&& 2 * mag(d.re.val() - c[k].re.val()) <= (k + 1) * p2(c[k].re.exponent - bits - i32::MIN)
                &&& 2 * mag(d.im.val() - c[k].im.val()) <= (k + 1) * p2(c[k].im.exponent - bits - i32::MIN)
            },
{
    let a = antiderivative_coeffs(c, bits);
    assert forall|k: int| 0 <= k < c.len() implies {
        let d = #[trigger] derivative_coeffs(a)[k];
        &&& 2 * mag(d.re.val() - c[k].re.val()) <= (k + 1) * p2(c[k].re.exponent - bits - i32::MIN)
        &&& 2 * mag(d.im.val() - c[k].im.val()) <= (k + 1) * p2(c[k].im.exponent - bits - i32::MIN)
    } by {
        let j = k + 1;
        assert(c[k].div_i64_ok(j as i64, bits));
        assert(a[j].mul_ok(int_c(j)));
        lemma_times_int(a[j], j);
        lemma_divided_back(c[k].re, j, bits);
        lemma_divided_back(c[k].im, j, bits);
    }
}


/// The `/` of `Dyadic` by a positive divisor: `q = x / y` rounded to the nearest
/// `2^-30`, so `2 |q y - x| <= 2^-30 y`, with values in the units of `val`
/// (where one is `2^30 * p2(-30 - i32::MIN)`).
proof fn lemma_quotient_close(x: Dyadic, y: Dyadic)
    requires
        x.div_ok(y),
        y.val() > 0,
    ensures
        ({
            let v = p2(-30 - i32::MIN);
            let q = round_half_away(x.at(x.common_exp(y)) * p2(30), y.at(x.common_exp(y)));
            &&& x.quotient(y).val() == q * v
            &&& 2 * mag(q * y.val() - x.val() * p2(30)) <= y.val()
        }),
{
    let m = x.common_exp(y);
    let a = x.at(m);
    let b = y.at(m);
    let n = a * p2(30);
    let q = round_half_away(n, b);
    crate::dyadic_laws::lemma_val_at(x, m);
    crate::dyadic_laws::lemma_val_at(y, m);
    let pm = p2(m - i32::MIN);
    lemma_p2_basics(m - i32::MIN);
    assert(b > 0) by (nonlinear_arith)
        requires
            y.val() == b * pm,
            y.val() > 0,
            pm > 0,
    ;
    lemma_round_half_away_close(n, b);
    lemma_reduced_val(q, -30);
    assert(2 * mag(q * y.val() - x.val() * p2(30)) <= y.val()) by (nonlinear_arith)
        requires
            2 * mag(q * b - n) <= b,
            n == a * p2(30),
            y.val() == b * pm,
            x.val() == a * pm,
            pm > 0,
    ;
}

/// Differentiating the antiderivative of a `ComplexFunction` gives its
/// coefficients back, up to the rounding of its divisions: each part of
/// coefficient `k` comes back within `(k + 1) / 2` steps of `2^-30`.
pub proof fn law_function_derivative_undoes_antiderivative(c: Seq<ComplexDyadic>)
    requires
        c.len() >= 1,
        forall|k: int| 0 <= k < c.len() ==> #[trigger] c[k].div_ok(int_c(k + 1)),
        c.len() < i128::MAX,
        derivative_ok(quotient_antiderivative_coeffs(c)),
    ensures
        derivative_coeffs(quotient_antiderivative_coeffs(c)).len() == c.len(),
        forall|k: int|
            0 <= k < c.len() ==> {
                let d = #[trigger] derivative_coeffs(quotient_antiderivative_coeffs(c))[k];
                &&& 2 * mag(d.re.val() - c[k].re.val()) <= (k + 1) * p2(-30 - i32::MIN)
                &&& 2 * mag(d.im.val() - c[k].im.val()) <= (k + 1) * p2(-30 - i32::MIN)
            },
{
    let a = quotient_antiderivative_coeffs(c);
    let v = p2(-30 - i32::MIN);
    let u = unit();
    lemma_p2_basics(-30 - i32::MIN);
    lemma_p2_adds(30, -30 - i32::MIN);
    vstd::arithmetic::power2::lemma2_to64();
    lemma_p2_basics(30);
    lemma_p2_basics(-(i32::MIN as int));
    assert(u == p2(30) * v);
    assert(u > 0);
    assert forall|k: int| 0 <= k < c.len() implies {
        let d = #[trigger] derivative_coeffs(a)[k];
        &&& 2 * mag(d.re.val() - c[k].re.val()) <= (k + 1) * v
        &&& 2 * mag(d.im.val() - c[k].im.val()) <= (k + 1) * v
    } by {
        let j = k + 1;
        let x = c[k];
        let w = int_c(j);
        assert(x.div_ok(w));
        assert(a[j] == x.quotient(w));
        assert(a[j].mul_ok(int_c(j)));
        lemma_times_int(a[j], j);
        // the numerators of the quotient are the parts times j, the norm is j^2
        lemma_times_int_parts(x, j);
        let nre = x.quotient_re_num(w);
        let nim = x.quotient_im_num(w);
        let ns = w.norm_sq();
        assert(ns.val() == j * j * u);
        assert(ns.val() > 0) by (nonlinear_arith)
            requires
                ns.val() == j * j * u,
                j > 0,
                u > 0,
        ;
        lemma_quotient_close(nre, ns);
        lemma_quotient_close(nim, ns);
        let qre = round_half_away(nre.at(nre.common_exp(ns)) * p2(30), ns.at(nre.common_exp(ns)));
        let qim = round_half_away(nim.at(nim.common_exp(ns)) * p2(30), ns.at(nim.common_exp(ns)));
        let p30 = p2(30);
        assert(2 * mag(qre * v * j - x.re.val()) <= j * v) by (nonlinear_arith)
            requires
                2 * mag(qre * ns.val() - nre.val() * p30) <= ns.val(),
                ns.val() == j * j * u,
                nre.val() == x.re.val() * j,
                u == p30 * v,
                j > 0,
                p30 > 0,
                v > 0,
        {
            assert(qre * ns.val() - nre.val() * p30 == (j * p30) * (qre * v * j - x.re.val()));
            assert(ns.val() == (j * p30) * (j * v));
            assert(mag((j * p30) * (qre * v * j - x.re.val())) == (j * p30) * mag(qre * v * j - x.re.val()));
        }
        assert(2 * mag(qim * v * j - x.im.val()) <= j * v) by (nonlinear_arith)
            requires
                2 * mag(qim * ns.val() - nim.val() * p30) <= ns.val(),
                ns.val() == j * j * u,
                nim.val() == x.im.val() * j,
                u == p30 * v,
                j > 0,
                p30 > 0,
                v > 0,
        {
            assert(qim * ns.val() - nim.val() * p30 == (j * p30) * (qim * v * j - x.im.val()));
            assert(ns.val() == (j * p30) * (j * v));
            assert(mag((j * p30) * (qim * v * j - x.im.val())) == (j * p30) * mag(qim * v * j - x.im.val()));
        }
    }
}

/// The numerators of `x / j` are the parts of `x` times `j`, and the norm of `j` is `j^2`.
proof fn lemma_times_int_parts(x: ComplexDyadic, j: int)
    requires
        x.quotient_parts_ok(int_c(j)),
        fits_i128(j),
    ensures
        x.quotient_re_num(int_c(j)).val() == x.re.val() * j,
        x.quotient_im_num(int_c(j)).val() == x.im.val() * j,
        int_c(j).norm_sq().val() == j * j * unit(),
{
    let jd = Dyadic { numerator: j as i128, exponent: 0 };
    let z = dyadic_zero();
    let u = unit();
    lemma_p2_basics(-(i32::MIN as int));
    assert(u > 0);
    assert(jd.val() == j * u);
    assert(z.val() == 0);
    lemma_product_val(x.re, jd);
    lemma_product_val(x.im, z);
    lemma_product_val(x.im, jd);
    lemma_product_val(x.re, z);
    lemma_product_val(jd, jd);
    lemma_product_val(z, z);
    let (a, b, c, d, e, f) = (
        x.re.product(jd).val(),
        x.im.product(z).val(),
        x.im.product(jd).val(),
        x.re.product(z).val(),
        jd.product(jd).val(),
        z.product(z).val(),
    );
    assert(a == x.re.val() * j && b == 0 && c == x.im.val() * j && d == 0 && e == j * j * u && f == 0)
        by (nonlinear_arith)
        requires
            a * u == x.re.val() * (j * u),
            b * u == x.im.val() * 0,
            c * u == x.im.val() * (j * u),
            d * u == x.re.val() * 0,
            e * u == (j * u) * (j * u),
            f * u == 0 * 0,
            u > 0,
    ;
    lemma_sum_val(x.re.product(jd), x.im.product(z));
    lemma_difference_val(x.im.product(jd), x.re.product(z));
    lemma_sum_val(jd.product(jd), z.product(z));
}

} // verus!
