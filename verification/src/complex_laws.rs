//! What the complex operations mean on values: products and sums of the
//! parts, powers, and the value of a power series at a point.
//!
//! A complex dyadic `z` is read as the pair of integers `cv(z)`, its parts in
//! the units of `Dyadic::val` (one is `unit()`). The product of two values
//! carries the unit twice, so `pmul` of two pairs is `unit()` times the pair
//! of the product.
use crate::arith::{ipow, lemma_p2_basics};
use crate::complex::{complex_one, padded_c, ComplexDyadic};
use crate::dyadic::max_len;
use crate::dyadic_laws::{lemma_difference_val, lemma_product_val, lemma_sum_val, unit};
use crate::holomorphic::{horner, horner_ok};
use vstd::prelude::*;

verus! {

/// The parts of `z` as values.
pub open spec fn cv(z: ComplexDyadic) -> (int, int) {
    (z.re.val(), z.im.val())
}

/// The product of two pairs read as complex numbers.
pub open spec fn pmul(p: (int, int), q: (int, int)) -> (int, int) {
    (p.0 * q.0 - p.1 * q.1, p.0 * q.1 + p.1 * q.0)
}

/// The sum of two pairs.
pub open spec fn padd(p: (int, int), q: (int, int)) -> (int, int) {
    (p.0 + q.0, p.1 + q.1)
}

/// A pair times an integer.
pub open spec fn pscale(p: (int, int), s: int) -> (int, int) {
    (p.0 * s, p.1 * s)
}

/// `p^n` for `n >= 1`: `p` multiplied by itself `n` times.
pub open spec fn ppow(p: (int, int), n: nat) -> (int, int)
    decreases n,
{
    if n <= 1 {
        p
    } else {
        pmul(p, ppow(p, (n - 1) as nat))
    }
}

/// `unit()^k`.
pub open spec fn upow(k: nat) -> int {
    ipow(unit(), k)
}

proof fn lemma_unit_pos()
    ensures
        unit() > 0,
{
    lemma_p2_basics(-(i32::MIN as int));
}

proof fn lemma_upow_pos(k: nat)
    ensures
        upow(k) > 0,
    decreases k,
{
    lemma_unit_pos();
    if k > 0 {
        lemma_upow_pos((k - 1) as nat);
        assert(upow(k) == unit() * upow((k - 1) as nat));
        vstd::arithmetic::mul::lemma_mul_strictly_positive(unit(), upow((k - 1) as nat));
    }
}

proof fn lemma_upow_add(a: nat, b: nat)
    ensures
        upow(a + b) == upow(a) * upow(b),
    decreases a,
{
    if a > 0 {
        lemma_upow_add((a - 1) as nat, b);
        assert(upow(a + b) == unit() * upow((a - 1 + b) as nat));
        vstd::arithmetic::mul::lemma_mul_is_associative(unit(), upow((a - 1) as nat), upow(b));
    }
}

/// The values of a product: `unit() * cv(x y) == pmul(cv(x), cv(y))`.
pub proof fn lemma_cv_product(x: ComplexDyadic, y: ComplexDyadic)
    requires
        x.mul_ok(y),
    ensures
        pscale(cv(x.product(y)), unit()) == pmul(cv(x), cv(y)),
{
    lemma_product_val(x.re, y.re);
    lemma_product_val(x.im, y.im);
    lemma_product_val(x.re, y.im);
    lemma_product_val(x.im, y.re);
    lemma_difference_val(x.re.product(y.re), x.im.product(y.im));
    lemma_sum_val(x.re.product(y.im), x.im.product(y.re));
    let u = unit();
    let r = x.product(y);
    assert(r.re.val() * u == x.re.val() * y.re.val() - x.im.val() * y.im.val()) by (nonlinear_arith)
        requires
            r.re.val() == x.re.product(y.re).val() - x.im.product(y.im).val(),
            x.re.product(y.re).val() * u == x.re.val() * y.re.val(),
            x.im.product(y.im).val() * u == x.im.val() * y.im.val(),
    ;
    assert(r.im.val() * u == x.re.val() * y.im.val() + x.im.val() * y.re.val()) by (nonlinear_arith)
        requires
            r.im.val() == x.re.product(y.im).val() + x.im.product(y.re).val(),
            x.re.product(y.im).val() * u == x.re.val() * y.im.val(),
            x.im.product(y.re).val() * u == x.im.val() * y.re.val(),
    ;
}

/// The values of a sum are the sums of the values.
pub proof fn lemma_cv_sum(x: ComplexDyadic, y: ComplexDyadic)
    requires
        x.add_ok(y),
    ensures
        cv(x.sum(y)) == padd(cv(x), cv(y)),
{
    lemma_sum_val(x.re, y.re);
    lemma_sum_val(x.im, y.im);
}

proof fn lemma_pmul_assoc(p: (int, int), q: (int, int), r: (int, int))
    ensures
        pmul(pmul(p, q), r) == pmul(p, pmul(q, r)),
{
    let (a, b, c, d, e, f) = (p.0, p.1, q.0, q.1, r.0, r.1);
    assert((a * c - b * d) * e == (a * c) * e - (b * d) * e) by (nonlinear_arith);
    assert((a * d + b * c) * f == (a * d) * f + (b * c) * f) by (nonlinear_arith);
    assert(a * (c * e - d * f) == (a * c) * e - (a * d) * f) by (nonlinear_arith);
    assert(b * (c * f + d * e) == (b * c) * f + (b * d) * e) by (nonlinear_arith);
    assert((a * c - b * d) * f == (a * c) * f - (b * d) * f) by (nonlinear_arith);
    assert((a * d + b * c) * e == (a * d) * e + (b * c) * e) by (nonlinear_arith);
    assert(a * (c * f + d * e) == (a * c) * f + (a * d) * e) by (nonlinear_arith);
    assert(b * (c * e - d * f) == (b * c) * e - (b * d) * f) by (nonlinear_arith);
}

proof fn lemma_pmul_comm(p: (int, int), q: (int, int))
    ensures
        pmul(p, q) == pmul(q, p),
{
    assert(p.0 * q.0 == q.0 * p.0 && p.1 * q.1 == q.1 * p.1) by (nonlinear_arith);
    assert(p.0 * q.1 == q.1 * p.0 && p.1 * q.0 == q.0 * p.1) by (nonlinear_arith);
}

proof fn lemma_pmul_distrib(p: (int, int), q: (int, int), r: (int, int))
    ensures
        pmul(padd(p, q), r) == padd(pmul(p, r), pmul(q, r)),
{
    let (a, b, c, d, e, f) = (p.0, p.1, q.0, q.1, r.0, r.1);
    assert((a + c) * e - (b + d) * f == (a * e - b * f) + (c * e - d * f)) by (nonlinear_arith);
    assert((a + c) * f + (b + d) * e == (a * f + b * e) + (c * f + d * e)) by (nonlinear_arith);
}

proof fn lemma_pmul_scale(p: (int, int), q: (int, int), s: int)
    ensures
        pmul(pscale(p, s), q) == pscale(pmul(p, q), s),
        pmul(p, pscale(q, s)) == pscale(pmul(p, q), s),
{
    let (a, b, c, d) = (p.0, p.1, q.0, q.1);
    assert((a * s) * c - (b * s) * d == (a * c - b * d) * s) by (nonlinear_arith);
    assert((a * s) * d + (b * s) * c == (a * d + b * c) * s) by (nonlinear_arith);
    assert(a * (c * s) - b * (d * s) == (a * c - b * d) * s) by (nonlinear_arith);
    assert(a * (d * s) + b * (c * s) == (a * d + b * c) * s) by (nonlinear_arith);
}

proof fn lemma_pscale_pscale(p: (int, int), s: int, t: int)
    ensures
        pscale(pscale(p, s), t) == pscale(p, s * t),
{
    assert((p.0 * s) * t == p.0 * (s * t)) by (nonlinear_arith);
    assert((p.1 * s) * t == p.1 * (s * t)) by (nonlinear_arith);
}

proof fn lemma_pscale_padd(p: (int, int), q: (int, int), s: int)
    ensures
        pscale(padd(p, q), s) == padd(pscale(p, s), pscale(q, s)),
{
    assert((p.0 + q.0) * s == p.0 * s + q.0 * s) by (nonlinear_arith);
    assert((p.1 + q.1) * s == p.1 * s + q.1 * s) by (nonlinear_arith);
}

proof fn lemma_pmul_zero(p: (int, int))
    ensures
        pmul((0int, 0int), p) == (0int, 0int),
{
    assert(0 * p.0 - 0 * p.1 == 0 && 0 * p.1 + 0 * p.0 == 0) by (nonlinear_arith);
}

/// Scaling by a positive integer can be undone.
proof fn lemma_pscale_cancel(p: (int, int), q: (int, int), s: int)
    requires
        s > 0,
        pscale(p, s) == pscale(q, s),
    ensures
        p == q,
{
    assert(p.0 == q.0) by (nonlinear_arith)
        requires
            p.0 * s == q.0 * s,
            s > 0,
    ;
    assert(p.1 == q.1) by (nonlinear_arith)
        requires
            p.1 * s == q.1 * s,
            s > 0,
    ;
}

/// `p^(a + b) = p^a p^b`.
proof fn lemma_ppow_add(p: (int, int), a: nat, b: nat)
    requires
        a >= 1,
        b >= 1,
    ensures
        ppow(p, a + b) == pmul(ppow(p, a), ppow(p, b)),
    decreases a,
{
    if a > 1 {
        lemma_ppow_add(p, (a - 1) as nat, b);
        lemma_pmul_assoc(p, ppow(p, (a - 1) as nat), ppow(p, b));
        assert(ppow(p, a + b) == pmul(p, ppow(p, (a + b - 1) as nat)));
    }
}

/// `(p^2)^k = p^(2k)`.
proof fn lemma_ppow_square(p: (int, int), k: nat)
    requires
        k >= 1,
    ensures
        ppow(pmul(p, p), k) == ppow(p, 2 * k),
    decreases k,
{
    assert(ppow(p, 1) == p);
    assert(ppow(p, 2) == pmul(p, p));
    if k > 1 {
        lemma_ppow_square(p, (k - 1) as nat);
        lemma_ppow_add(p, 2, (2 * k - 2) as nat);
        assert(2 * k == 2 + (2 * k - 2));
    }
}

/// `(s q)^k = s^k q^k` for `s = unit()`.
proof fn lemma_ppow_scale(q: (int, int), k: nat)
    requires
        k >= 1,
    ensures
        ppow(pscale(q, unit()), k) == pscale(ppow(q, k), upow(k)),
    decreases k,
{
    let u = unit();
    assert(upow(1) == u * upow(0));
    if k > 1 {
        lemma_ppow_scale(q, (k - 1) as nat);
        let r = ppow(q, (k - 1) as nat);
        lemma_pmul_scale(q, pscale(r, upow((k - 1) as nat)), u);
        lemma_pmul_scale(q, r, upow((k - 1) as nat));
        lemma_pscale_pscale(pmul(q, r), upow((k - 1) as nat), u);
        assert(upow(k) == u * upow((k - 1) as nat));
        assert(upow((k - 1) as nat) * u == u * upow((k - 1) as nat)) by (nonlinear_arith);
    } else {
        assert(upow(1) == u) by (nonlinear_arith)
            requires
                upow(1) == u * upow(0),
                upow(0) == 1,
        ;
    }
}

/// The power by squaring that `ComplexDyadic::powi` computes has the value of
/// `x` multiplied by itself `n` times: `unit()^(n-1) cv(x^n) == cv(x)^n`, and
/// `x^0` is one.
pub proof fn law_power_value(x: ComplexDyadic, n: nat)
    requires
        x.power_ok(n),
    ensures
        n == 0 ==> x.power(n) == complex_one(),
        n >= 1 ==> pscale(cv(x.power(n)), upow((n - 1) as nat)) == ppow(cv(x), n),
    decreases n,
{
    let u = unit();
    lemma_unit_pos();
    if n == 0 {
    } else if n % 2 == 0 {
        let y = x.product(x);
        let k = (n / 2) as nat;
        law_power_value(y, k);
        lemma_cv_product(x, x);
        // cv(y^k) u^(k-1) = cv(y)^k, and cv(y) u = cv(x)^2
        lemma_ppow_scale(cv(y), k);
        lemma_ppow_square(cv(x), k);
        lemma_upow_add((k - 1) as nat, k);
        lemma_pscale_pscale(cv(y.power(k)), upow((k - 1) as nat), upow(k));
        assert((k - 1) + k == n - 1);
    } else {
        let p = x.power((n - 1) as nat);
        law_power_value(x, (n - 1) as nat);
        lemma_cv_product(x, p);
        if n == 1 {
            assert(cv(complex_one()) == (u, 0int)) by {
                let c = crate::arith::p2(0 - i32::MIN);
                assert(complex_one().re.val() == 1 * c);
                assert(complex_one().im.val() == 0 * c);
                assert(1 * c == c && 0 * c == 0) by (nonlinear_arith);
            }
            assert(pmul(cv(x), (u, 0int)) == pscale(cv(x), u)) by (nonlinear_arith);
            lemma_pscale_cancel(cv(x.power(n)), cv(x), u);
            assert(upow(0) == 1);
            assert(pscale(cv(x.power(n)), 1) == cv(x.power(n))) by (nonlinear_arith);
        } else {
            // unit() cv(x^n) = cv(x) cv(x^(n-1)), then scale by unit()^(n-2)
            lemma_pmul_scale(cv(x), cv(p), upow((n - 2) as nat));
            lemma_pscale_pscale(cv(x.power(n)), u, upow((n - 2) as nat));
            assert(upow((n - 1) as nat) == u * upow((n - 2) as nat));
        }
    }
}


/// Term `k` of the power series `sum c_k z^k` at the point with values `p`,
/// in the units of `cv` times `unit()^(n - 1)`, for `n` coefficients: the
/// constant term `c_0`, then `c_k p^k`.
pub open spec fn series_term(c: Seq<ComplexDyadic>, p: (int, int), k: int) -> (int, int) {
    let n = c.len() as int;
    if k == 0 {
        pscale(cv(c[0]), upow((n - 1) as nat))
    } else {
        pscale(pmul(cv(c[k]), ppow(p, k as nat)), upow((n - 1 - k) as nat))
    }
}

/// The sum of the first `m` terms of the power series at `p`.
pub open spec fn series_sum(c: Seq<ComplexDyadic>, p: (int, int), m: int) -> (int, int)
    decreases m,
{
    if m <= 0 {
        (0, 0)
    } else {
        padd(series_sum(c, p, m - 1), series_term(c, p, m - 1))
    }
}

/// Splitting off the constant term: the rest of the series is `p` times the
/// series of the remaining coefficients.
proof fn lemma_series_split(c: Seq<ComplexDyadic>, p: (int, int), m: int)
    requires
        c.len() >= 2,
        1 <= m <= c.len(),
    ensures
        series_sum(c, p, m) == padd(series_term(c, p, 0), pmul(series_sum(c.drop_first(), p, m - 1), p)),
    decreases m,
{
    let d = c.drop_first();
    let n = c.len() as int;
    if m == 1 {
        assert(series_sum(d, p, 0) == (0int, 0int));
        lemma_pmul_zero(p);
        assert(series_sum(c, p, 1) == padd(series_sum(c, p, 0), series_term(c, p, 0)));
        assert(series_sum(c, p, 0) == (0int, 0int));
    } else {
        lemma_series_split(c, p, m - 1);
        let j = m - 2;
        let k = m - 1;
        lemma_pmul_distrib(series_sum(d, p, m - 2), series_term(d, p, j), p);
        assert(series_sum(c, p, m) == padd(series_sum(c, p, m - 1), series_term(c, p, k)));
        assert(series_sum(d, p, m - 1) == padd(series_sum(d, p, m - 2), series_term(d, p, j)));
        // p times term j of the rest is term k = j + 1 of the series
        if j == 0 {
            lemma_pmul_scale(cv(d[0]), p, upow((n - 2) as nat));
            assert(d[0] == c[1]);
            assert(ppow(p, 1) == p);
            assert(pmul(series_term(d, p, j), p) == series_term(c, p, k));
        } else {
            let a = cv(c[k]);
            let b = ppow(p, j as nat);
            lemma_pmul_scale(pmul(a, b), p, upow((n - 2 - j) as nat));
            lemma_pmul_assoc(a, b, p);
            lemma_pmul_comm(b, p);
            assert(ppow(p, k as nat) == pmul(p, b));
            assert(d[j] == c[k]);
            assert(pmul(series_term(d, p, j), p) == series_term(c, p, k));
        }
    }
}

/// Horner's rule evaluates the power series: for `n >= 1` coefficients,
/// `unit()^(n-1) cv(horner(c, z)) == sum_k c_k z^k` in the units of
/// `series_term`, so `eval` gives `sum c_k z^k` exactly.
pub proof fn law_horner_is_power_series(c: Seq<ComplexDyadic>, z: ComplexDyadic)
    requires
        c.len() >= 1,
        horner_ok(c, z),
    ensures
        pscale(cv(horner(c, z)), upow((c.len() - 1) as nat)) == series_sum(c, cv(z), c.len() as int),
    decreases c.len(),
{
    let u = unit();
    lemma_unit_pos();
    let d = c.drop_first();
    let p = cv(z);
    let hd = horner(d, z);
    let n = c.len() as int;
    lemma_cv_product(hd, z);
    lemma_cv_sum(hd.product(z), c[0]);
    assert(horner(c, z) == hd.product(z).sum(c[0]));
    assert(cv(horner(c, z)) == padd(cv(hd.product(z)), cv(c[0])));
    if n == 1 {
        assert(hd == crate::complex::complex_zero());
        assert(cv(hd) == (0int, 0int)) by {
            let e = crate::arith::p2(0 - i32::MIN);
            assert(hd.re.val() == 0 * e && hd.im.val() == 0 * e);
            assert(0 * e == 0) by (nonlinear_arith);
        }
        lemma_pmul_zero(p);
        assert(pscale((0int, 0int), u) == (0int, 0int)) by (nonlinear_arith);
        lemma_pscale_cancel(cv(hd.product(z)), (0int, 0int), u);
        assert(upow(0) == 1);
        assert(pscale(cv(horner(c, z)), 1) == cv(horner(c, z))) by (nonlinear_arith);
        assert(pscale(cv(c[0]), 1) == cv(c[0])) by (nonlinear_arith);
        assert(series_sum(c, p, 1) == padd(series_sum(c, p, 0), series_term(c, p, 0)));
        assert(series_sum(c, p, 0) == (0int, 0int));
        assert(series_term(c, p, 0) == pscale(cv(c[0]), upow(0)));
    } else {
        law_horner_is_power_series(d, z);
        lemma_series_split(c, p, n);
        let un2 = upow((n - 2) as nat);
        assert(upow((n - 1) as nat) == u * un2);
        lemma_pscale_padd(cv(hd.product(z)), cv(c[0]), upow((n - 1) as nat));
        lemma_pscale_pscale(cv(hd.product(z)), u, un2);
        lemma_pmul_scale(cv(hd), p, un2);
        let s1 = series_sum(d, p, n - 1);
        assert(pscale(cv(hd), un2) == s1);
        assert(pscale(cv(hd.product(z)), upow((n - 1) as nat)) == pmul(s1, p));
        assert(pscale(cv(horner(c, z)), upow((n - 1) as nat)) == padd(pmul(s1, p), series_term(c, p, 0)));
    }
}

/// Subtracting `b` entry by entry from the entry-wise sum `c` of `a` and `b`
/// gives back `a`, padded with zeros to the length of `c`, value for value.
pub proof fn law_sub_undoes_add(a: Seq<ComplexDyadic>, b: Seq<ComplexDyadic>, c: Seq<ComplexDyadic>)
    requires
        c.len() == max_len(a.len(), b.len()),
        forall|i: int|
            0 <= i < c.len() ==> #[trigger] padded_c(a, i).add_ok(padded_c(b, i)) && c[i] == padded_c(a, i).sum(
                padded_c(b, i),
            ),
        forall|i: int| 0 <= i < c.len() ==> #[trigger] padded_c(c, i).sub_ok(padded_c(b, i)),
    ensures
        max_len(c.len(), b.len()) == c.len(),
        forall|i: int|
            0 <= i < c.len() ==> #[trigger] padded_c(c, i).difference(padded_c(b, i)).same_value(padded_c(a, i)),
{
    assert forall|i: int| 0 <= i < c.len() implies #[trigger] padded_c(c, i).difference(padded_c(b, i)).same_value(
        padded_c(a, i),
    ) by {
        let x = padded_c(a, i);
        let y = padded_c(b, i);
        assert(x.add_ok(y));
        assert(padded_c(c, i) == x.sum(y));
        assert(x.sum(y).sub_ok(y));
        lemma_sum_val(x.re, y.re);
        lemma_sum_val(x.im, y.im);
        lemma_difference_val(x.sum(y).re, y.re);
        lemma_difference_val(x.sum(y).im, y.im);
        crate::dyadic_laws::lemma_same_value_iff(x.sum(y).difference(y).re, x.re);
        crate::dyadic_laws::lemma_same_value_iff(x.sum(y).difference(y).im, x.im);
    }
}

} // verus!
