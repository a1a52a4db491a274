//! Exact squared Euclidean distance transforms (Felzenszwalb & Huttenlocher,
//! "Distance Transforms of Sampled Functions", 2004) on integers.
use vstd::arithmetic::div_mod::{lemma_fundamental_div_mod, lemma_fundamental_div_mod_converse};
use crate::complex::ComplexDyadic;
use crate::covering_grids::{index_of, lemma_index_bounds, max_index, min_index, GridBitmap};
use crate::dyadic::Dyadic;
use vstd::prelude::*;

verus! {

/// The value that stands for "no source here" in a field.
pub const FAR: i128 = 100_000_000_000_000_000_000;

/// The largest value a field may hold: `2^80`.
pub open spec fn max_value() -> int {
    0x1_0000_0000_0000_0000_0000
}

/// The largest length of a row or column: `2^40`.
pub open spec fn max_len() -> int {
    0x100_0000_0000
}

/// The parabola of source `p` at `x`: `(x - p)^2 + f[p]`.
pub open spec fn parabola(f: Seq<i128>, p: int, x: int) -> int {
    (x - p) * (x - p) + f[p]
}

/// `min_{p < m} (x - p)^2 + f[p]`, for `m >= 1`.
pub open spec fn envelope(f: Seq<i128>, x: int, m: int) -> int
    decreases m,
{
    if m <= 1 {
        parabola(f, 0, x)
    } else {
        let a = envelope(f, x, m - 1);
        let b = parabola(f, m - 1, x);
        if b < a {
            b
        } else {
            a
        }
    }
}

/// A field that the transform handles: non-empty, at most `2^40` long, values
/// between zero and `2^80`.
pub open spec fn field_ok(f: Seq<i128>) -> bool {
    &&& 1 <= f.len() <= max_len()
    &&& f.len() <= usize::MAX
    &&& forall|p: int| 0 <= p < f.len() ==> 0 <= #[trigger] f[p] <= max_value()
}

/// `envelope` is the least parabola value, and one of them.
pub proof fn lemma_envelope_is_min(f: Seq<i128>, x: int, m: int)
    requires
        1 <= m,
    ensures
        forall|p: int| 0 <= p < m ==> envelope(f, x, m) <= #[trigger] parabola(f, p, x),
        exists|p: int| 0 <= p < m && envelope(f, x, m) == #[trigger] parabola(f, p, x),
    decreases m,
{
    if m > 1 {
        lemma_envelope_is_min(f, x, m - 1);
        let p = choose|p: int| 0 <= p < m - 1 && envelope(f, x, m - 1) == #[trigger] parabola(f, p, x);
        if parabola(f, m - 1, x) < envelope(f, x, m - 1) {
            assert(envelope(f, x, m) == parabola(f, m - 1, x));
        } else {
            assert(envelope(f, x, m) == parabola(f, p, x));
        }
    } else {
        assert(envelope(f, x, m) == parabola(f, 0, x));
    }
}

/// A value that is at most every parabola and equal to one of them is the envelope.
proof fn lemma_min_is_envelope(f: Seq<i128>, x: int, m: int, p0: int)
    requires
        1 <= m,
        0 <= p0 < m,
        forall|p: int| 0 <= p < m ==> parabola(f, p0, x) <= #[trigger] parabola(f, p, x),
    ensures
        envelope(f, x, m) == parabola(f, p0, x),
{
    lemma_envelope_is_min(f, x, m);
}

/// `f[p] + p^2`: the parabolas of `p < q` cross where `2 x (q - p) = key(q) - key(p)`.
pub open spec fn key(f: Seq<i128>, p: int) -> int {
    f[p] + p * p
}

/// For `p < q`, the parabola of `q` is at most that of `p` exactly right of
/// their crossing: `parabola(q, x) <= parabola(p, x)` iff `key(q) - key(p) <= 2 x (q - p)`.
proof fn lemma_crossing(f: Seq<i128>, p: int, q: int, x: int)
    ensures
        parabola(f, q, x) - parabola(f, p, x) == (key(f, q) - key(f, p)) - x * (2 * (q - p)),
{
    assert((x - q) * (x - q) - (x - p) * (x - p) == q * q - p * p - x * (2 * (q - p))) by (nonlinear_arith);
}

/// `n1 / d1 <= n2 / d2` for positive denominators.
pub open spec fn frac_le(n1: int, d1: int, n2: int, d2: int) -> bool {
    n1 * d2 <= n2 * d1
}

/// The mediant of two fractions lies between them.
proof fn lemma_mediant(n1: int, d1: int, n2: int, d2: int)
    requires
        d1 > 0,
        d2 > 0,
        frac_le(n2, d2, n1, d1),
    ensures
        frac_le(n2, d2, n1 + n2, d1 + d2),
        frac_le(n1 + n2, d1 + d2, n1, d1),
{
    assert(n2 * (d1 + d2) <= (n1 + n2) * d2) by (nonlinear_arith)
        requires
            n2 * d1 <= n1 * d2,
    ;
    assert((n1 + n2) * d1 <= n1 * (d1 + d2)) by (nonlinear_arith)
        requires
            n2 * d1 <= n1 * d2,
    ;
}

/// Comparing a fraction with an integer.
proof fn lemma_frac_int(n: int, d: int, x: int)
    requires
        d > 0,
    ensures
        frac_le(n, d, x, 1) <==> n <= x * d,
        frac_le(x, 1, n, d) <==> x * d <= n,
{
}

/// `frac_le` is transitive.
proof fn lemma_frac_trans(n1: int, d1: int, n2: int, d2: int, n3: int, d3: int)
    requires
        d1 > 0,
        d2 > 0,
        d3 > 0,
        frac_le(n1, d1, n2, d2),
        frac_le(n2, d2, n3, d3),
    ensures
        frac_le(n1, d1, n3, d3),
{
    assert(n1 * d3 <= n3 * d1) by (nonlinear_arith)
        requires
            n1 * d2 <= n2 * d1,
            n2 * d3 <= n3 * d2,
            d1 > 0,
            d2 > 0,
            d3 > 0,
    ;
}


/// `n1 / d1 < n2 / d2` for positive denominators.
pub open spec fn frac_lt(n1: int, d1: int, n2: int, d2: int) -> bool {
    n1 * d2 < n2 * d1
}

/// The numerator of the crossing of the parabolas of `p < q`.
pub open spec fn cross_num(f: Seq<i128>, p: int, q: int) -> int {
    key(f, q) - key(f, p)
}

/// The denominator of the crossing of the parabolas of `p < q`.
pub open spec fn cross_den(p: int, q: int) -> int {
    2 * (q - p)
}

/// `x` lies in the stretch of parabola `i` of an envelope with crossings
/// `zn / zd`: after crossing `i - 1` (if any) and before crossing `i` (if any).
pub open spec fn in_region(zn: Seq<i128>, zd: Seq<i128>, i: int, x: int) -> bool {
    &&& 0 <= i <= zn.len()
    &&& (i == 0 || zn[i - 1] <= x * zd[i - 1])
    &&& (i == zn.len() || x * zd[i] <= zn[i])
}

/// `(v, zn, zd)` is the lower envelope of the parabolas of the sources
/// `0 .. m`: increasing sources ending with `m - 1`, their crossings, strictly
/// increasing, and on the stretch of each its parabola is the lowest.
pub open spec fn is_envelope(f: Seq<i128>, v: Seq<usize>, zn: Seq<i128>, zd: Seq<i128>, m: int) -> bool {
    &&& 1 <= v.len()
    &&& zn.len() == v.len() - 1
    &&& zd.len() == v.len() - 1
    &&& v[v.len() - 1] == m - 1
    &&& forall|i: int, j: int| 0 <= i < j < v.len() ==> v[i] < v[j]
    &&& forall|i: int|
        0 <= i < zn.len() ==> zn[i] == cross_num(f, v[i] as int, v[i + 1] as int) && zd[i] == cross_den(
            v[i] as int,
            v[i + 1] as int,
        )
    &&& forall|i: int, j: int| 0 <= i < j < zn.len() ==> frac_lt(zn[i] as int, zd[i] as int, zn[j] as int, zd[j] as int)
    &&& forall|i: int, x: int, p: int|
        #![trigger in_region(zn, zd, i, x), parabola(f, p, x)]
        in_region(zn, zd, i, x) && 0 <= p < m ==> parabola(f, v[i] as int, x) <= parabola(f, p, x)
}

/// Every integer lies in the stretch of some parabola.
proof fn lemma_region_exists(zn: Seq<i128>, zd: Seq<i128>, x: int, i: int) -> (j: int)
    requires
        zd.len() == zn.len(),
        0 <= i <= zn.len(),
        i == 0 || zn[i - 1] <= x * zd[i - 1],
    ensures
        i <= j,
        in_region(zn, zd, j, x),
    decreases zn.len() - i,
{
    if i == zn.len() || x * zd[i] <= zn[i] {
        i
    } else {
        lemma_region_exists(zn, zd, x, i + 1)
    }
}


proof fn lemma_frac_le_lt(n1: int, d1: int, n2: int, d2: int, n3: int, d3: int)
    requires
        d1 > 0,
        d2 > 0,
        d3 > 0,
        frac_le(n1, d1, n2, d2),
        frac_lt(n2, d2, n3, d3),
    ensures
        frac_lt(n1, d1, n3, d3),
{
    assert(n1 * d3 < n3 * d1) by (nonlinear_arith)
        requires
            n1 * d2 <= n2 * d1,
            n2 * d3 < n3 * d2,
            d1 > 0,
            d2 > 0,
            d3 > 0,
    ;
}

proof fn lemma_frac_lt_le(n1: int, d1: int, n2: int, d2: int, n3: int, d3: int)
    requires
        d1 > 0,
        d2 > 0,
        d3 > 0,
        frac_lt(n1, d1, n2, d2),
        frac_le(n2, d2, n3, d3),
    ensures
        frac_lt(n1, d1, n3, d3),
{
    assert(n1 * d3 < n3 * d1) by (nonlinear_arith)
        requires
            n1 * d2 < n2 * d1,
            n2 * d3 <= n3 * d2,
            d1 > 0,
            d2 > 0,
            d3 > 0,
    ;
}

/// Which of two parabolas `p < q` is lower at `x`, by the side of their crossing.
proof fn lemma_side(f: Seq<i128>, p: int, q: int, x: int)
    requires
        p < q,
    ensures
        x * cross_den(p, q) <= cross_num(f, p, q) ==> parabola(f, p, x) <= parabola(f, q, x),
        cross_num(f, p, q) <= x * cross_den(p, q) ==> parabola(f, q, x) <= parabola(f, p, x),
{
    lemma_crossing(f, p, q, x);
}

/// Keys and crossings of a field that the transform handles fit in an `i128`.
proof fn lemma_bounds(f: Seq<i128>, p: int, q: int)
    requires
        field_ok(f),
        0 <= p < q < f.len(),
    ensures
        -0x4_0000_0000_0000_0000_0000 < cross_num(f, p, q) < 0x4_0000_0000_0000_0000_0000,
        0 < cross_den(p, q) <= 0x200_0000_0000,
{
    assert(0 <= f[p] <= max_value() && 0 <= f[q] <= max_value());
    assert(p * p <= 0x1_0000_0000_0000_0000_0000 && q * q <= 0x1_0000_0000_0000_0000_0000) by (nonlinear_arith)
        requires
            0 <= p < q < 0x100_0000_0000,
    ;
}

/// The parabola of `q` is lower than that of `v[j]` on the whole stretch of
/// `v[j]`: their crossing comes no later than the stretch begins.
pub open spec fn beaten(f: Seq<i128>, v: Seq<usize>, zn: Seq<i128>, zd: Seq<i128>, q: int, j: int) -> bool {
    frac_le(cross_num(f, v[j] as int, q), cross_den(v[j] as int, q), zn[j - 1] as int, zd[j - 1] as int)
}

/// Adding source `q` to the envelope of the sources `0 .. q`: drop the
/// parabolas from index `k + 1` on, which `q` beats from their stretch on,
/// and append `q` after the crossing of `v[k]` and `q`.
proof fn lemma_push(f: Seq<i128>, v0: Seq<usize>, zn0: Seq<i128>, zd0: Seq<i128>, q: int, k: int)
    requires
        field_ok(f),
        1 <= q < f.len(),
        is_envelope(f, v0, zn0, zd0, q),
        0 <= k < v0.len(),
        forall|j: int| k < j < v0.len() ==> #[trigger] beaten(f, v0, zn0, zd0, q, j),
        k == 0 || frac_lt(
            zn0[k - 1] as int,
            zd0[k - 1] as int,
            cross_num(f, v0[k] as int, q),
            cross_den(v0[k] as int, q),
        ),
    ensures
        is_envelope(
            f,
            v0.take(k + 1).push(q as usize),
            zn0.take(k).push(cross_num(f, v0[k] as int, q) as i128),
            zd0.take(k).push(cross_den(v0[k] as int, q) as i128),
            q + 1,
        ),
{
    let a = v0[k] as int;
    let l = v0.len() - 1;
    lemma_bounds(f, a, q);
    let ns = cross_num(f, a, q);
    let ds = cross_den(a, q);
    let v1 = v0.take(k + 1).push(q as usize);
    let zn1 = zn0.take(k).push(ns as i128);
    let zd1 = zd0.take(k).push(ds as i128);
    assert(zn1[k] == ns && zd1[k] == ds);
    assert forall|i: int| 0 <= i < zd0.len() implies zd0[i] > 0 by {
        assert(v0[i] < v0[i + 1]);
    }
    // the crossings stay strictly increasing
    assert forall|i: int, j: int| 0 <= i < j < zn1.len() implies frac_lt(
        zn1[i] as int,
        zd1[i] as int,
        zn1[j] as int,
        zd1[j] as int,
    ) by {
        if j == k {
            if i < k - 1 {
                lemma_frac_lt_le(zn0[i] as int, zd0[i] as int, zn0[k - 1] as int, zd0[k - 1] as int, ns, ds);
                assert(frac_lt(zn0[i] as int, zd0[i] as int, zn0[k - 1] as int, zd0[k - 1] as int));
                assert(frac_le(zn0[k - 1] as int, zd0[k - 1] as int, ns, ds));
            }
        } else {
            assert(zn1[i] == zn0[i] && zn1[j] == zn0[j] && zd1[i] == zd0[i] && zd1[j] == zd0[j]);
        }
    }
    // each parabola is the lowest on its stretch
    assert forall|i: int, x: int, p: int|
        #![trigger in_region(zn1, zd1, i, x), parabola(f, p, x)]
        in_region(zn1, zd1, i, x) && 0 <= p < q + 1 implies parabola(f, v1[i] as int, x) <= parabola(f, p, x) by {
        if i < k {
            assert(in_region(zn0, zd0, i, x));
            assert(v1[i] == v0[i]);
            if p < q {
                assert(parabola(f, v0[i] as int, x) <= parabola(f, p, x));
            } else {
                // below the crossing of v[k] and q
                assert(parabola(f, v0[i] as int, x) <= parabola(f, a, x));
                lemma_frac_int(zn0[i] as int, zd0[i] as int, x);
                if i < k - 1 {
                    assert(frac_lt(zn0[i] as int, zd0[i] as int, zn0[k - 1] as int, zd0[k - 1] as int));
                    lemma_frac_trans(x, 1, zn0[i] as int, zd0[i] as int, zn0[k - 1] as int, zd0[k - 1] as int);
                }
                lemma_frac_le_lt(x, 1, zn0[k - 1] as int, zd0[k - 1] as int, ns, ds);
                lemma_side(f, a, q, x);
            }
        } else if i == k {
            assert(v1[i] == a);
            lemma_frac_int(ns, ds, x);
            if p < q {
                if k < l {
                    // the crossing of v[k] and q comes no later than that of v[k] and v[k + 1]
                    let b = v0[k + 1] as int;
                    assert(beaten(f, v0, zn0, zd0, q, k + 1));
                    assert(frac_le(cross_num(f, b, q), cross_den(b, q), zn0[k] as int, zd0[k] as int));
                    lemma_bounds(f, b, q);
                    lemma_mediant(zn0[k] as int, zd0[k] as int, cross_num(f, b, q), cross_den(b, q));
                    assert(ns == zn0[k] + cross_num(f, b, q));
                    assert(ds == zd0[k] + cross_den(b, q));
                    lemma_frac_trans(x, 1, ns, ds, zn0[k] as int, zd0[k] as int);
                    lemma_frac_int(zn0[k] as int, zd0[k] as int, x);
                }
                assert(in_region(zn0, zd0, k, x));
                assert(parabola(f, a, x) <= parabola(f, p, x));
            } else {
                lemma_side(f, a, q, x);
            }
        } else {
            assert(i == k + 1);
            assert(v1[i] == q);
            lemma_frac_int(ns, ds, x);
            lemma_side(f, a, q, x);
            if p < q {
                let j = lemma_region_exists(zn0, zd0, x, 0);
                assert(parabola(f, v0[j] as int, x) <= parabola(f, p, x));
                if j < k {
                    lemma_frac_int(zn0[j] as int, zd0[j] as int, x);
                    if j < k - 1 {
                        assert(frac_lt(zn0[j] as int, zd0[j] as int, zn0[k - 1] as int, zd0[k - 1] as int));
                        lemma_frac_trans(x, 1, zn0[j] as int, zd0[j] as int, zn0[k - 1] as int, zd0[k - 1] as int);
                    }
                    lemma_frac_le_lt(x, 1, zn0[k - 1] as int, zd0[k - 1] as int, ns, ds);
                    assert(false);
                } else if j > k {
                    let b = v0[j] as int;
                    assert(beaten(f, v0, zn0, zd0, q, j));
                    lemma_bounds(f, b, q);
                    lemma_frac_int(zn0[j - 1] as int, zd0[j - 1] as int, x);
                    lemma_frac_trans(cross_num(f, b, q), cross_den(b, q), zn0[j - 1] as int, zd0[j - 1] as int, x, 1);
                    lemma_frac_int(cross_num(f, b, q), cross_den(b, q), x);
                    lemma_side(f, b, q, x);
                }
            }
        }
    }
    assert forall|i: int, j: int| 0 <= i < j < v1.len() implies v1[i] < v1[j] by {
        if j == k + 1 {
            assert(v0[i] <= v0[l]);
        }
    }
    assert forall|i: int| 0 <= i < zn1.len() implies zn1[i] == cross_num(f, v1[i] as int, v1[i + 1] as int)
        && zd1[i] == cross_den(v1[i] as int, v1[i + 1] as int) by {
        if i < k {
            assert(v1[i] == v0[i] && v1[i + 1] == v0[i + 1]);
        }
    }
}

/// The sources of an envelope lie below `m`, and its crossings fit the
/// bounds of `lemma_bounds`.
proof fn lemma_envelope_bounds(f: Seq<i128>, v: Seq<usize>, zn: Seq<i128>, zd: Seq<i128>, m: int)
    requires
        field_ok(f),
        1 <= m <= f.len(),
        is_envelope(f, v, zn, zd, m),
    ensures
        forall|i: int| 0 <= i < v.len() ==> #[trigger] v[i] < m,
        forall|i: int|
            0 <= i < zn.len() ==> -0x4_0000_0000_0000_0000_0000 < #[trigger] zn[i] < 0x4_0000_0000_0000_0000_0000
                && 0 < zd[i] <= 0x200_0000_0000,
{
    let l = v.len() - 1;
    assert forall|i: int| 0 <= i < v.len() implies #[trigger] v[i] < m by {
        if i < l {
            assert(v[i] < v[l]);
        }
    }
    assert forall|i: int| 0 <= i < zn.len() implies -0x4_0000_0000_0000_0000_0000 < #[trigger] zn[i]
        < 0x4_0000_0000_0000_0000_0000 && 0 < zd[i] <= 0x200_0000_0000 by {
        assert(v[i] < v[i + 1]);
        assert(v[i + 1] < m);
        lemma_bounds(f, v[i] as int, v[i + 1] as int);
    }
}

/// The exact squared distance transform of a row: `g[x]` is the least
/// `(x - p)^2 + f[p]` over all sources `p`.
pub fn edt_1d_squared(f: &[i128]) -> (g: Vec<i128>)
    requires
        field_ok(f@),
    ensures
        g@.len() == f@.len(),
        forall|x: int| 0 <= x < f@.len() ==> g@[x] == envelope(f@, x, f@.len() as int),
{
    let n = f.len();
    let mut v: Vec<usize> = Vec::new();
    v.push(0);
    let mut zn: Vec<i128> = Vec::new();
    let mut zd: Vec<i128> = Vec::new();
    proof {
        assert forall|i: int, x: int, p: int|
            #![trigger in_region(zn@, zd@, i, x), parabola(f@, p, x)]
            in_region(zn@, zd@, i, x) && 0 <= p < 1 implies parabola(f@, v@[i] as int, x) <= parabola(f@, p, x) by {
            assert(i == 0 && p == 0);
        }
    }
    let mut q: usize = 1;
    while q < n
        invariant
            field_ok(f@),
            n == f@.len(),
            1 <= q <= n,
            is_envelope(f@, v@, zn@, zd@, q as int),
        decreases n - q,
    {
        let ghost v0 = v@;
        let ghost zn0 = zn@;
        let ghost zd0 = zd@;
        proof {
            lemma_envelope_bounds(f@, v0, zn0, zd0, q as int);
        }
        assert(0 <= q * q <= 0x1_0000_0000_0000_0000_0000) by (nonlinear_arith)
            requires
                0 <= q < 0x100_0000_0000,
        ;
        let fq: i128 = f[q] + (q as i128) * (q as i128);
        let mut sn: i128 = 0;
        let mut sd: i128 = 1;
        loop
            invariant
                field_ok(f@),
                n == f@.len(),
                1 <= q < n,
                is_envelope(f@, v0, zn0, zd0, q as int),
                forall|i: int| 0 <= i < v0.len() ==> #[trigger] v0[i] < q,
                forall|i: int|
                    0 <= i < zn0.len() ==> -0x4_0000_0000_0000_0000_0000 < #[trigger] zn0[i]
                        < 0x4_0000_0000_0000_0000_0000 && 0 < zd0[i] <= 0x200_0000_0000,
                1 <= v@.len() <= v0.len(),
                v@ == v0.take(v@.len() as int),
                zn@ == zn0.take(v@.len() - 1),
                zd@ == zd0.take(v@.len() - 1),
                forall|j: int| v@.len() - 1 < j < v0.len() ==> #[trigger] beaten(f@, v0, zn0, zd0, q as int, j),
                fq == key(f@, q as int),
            ensures
                1 <= v@.len() <= v0.len(),
                v@ == v0.take(v@.len() as int),
                zn@ == zn0.take(v@.len() - 1),
                zd@ == zd0.take(v@.len() - 1),
                forall|j: int| v@.len() - 1 < j < v0.len() ==> #[trigger] beaten(f@, v0, zn0, zd0, q as int, j),
                sn == cross_num(f@, v0[v@.len() - 1] as int, q as int),
                sd == cross_den(v0[v@.len() - 1] as int, q as int),
                v@.len() == 1 || frac_lt(
                    zn0[v@.len() - 2] as int,
                    zd0[v@.len() - 2] as int,
                    sn as int,
                    sd as int,
                ),
            decreases v@.len(),
        {
            let k = v.len() - 1;
            let a = v[k];
            assert(v0[k as int] == a);
            proof {
                lemma_bounds(f@, a as int, q as int);
            }
            assert(0 <= a * a <= 0x1_0000_0000_0000_0000_0000) by (nonlinear_arith)
                requires
                    0 <= a < 0x100_0000_0000,
            ;
            sn = fq - (f[a] + (a as i128) * (a as i128));
            sd = 2 * ((q - a) as i128);
            if k == 0 {
                break;
            }
            let zn_k = zn[k - 1];
            let zd_k = zd[k - 1];
            assert(zn_k == zn0[k - 1] && zd_k == zd0[k - 1]);
            assert(-0x1000_0000_0000_0000_0000_0000_0000_0000 < sn * zd_k < 0x1000_0000_0000_0000_0000_0000_0000_0000)
                by (nonlinear_arith)
                requires
                    -0x4_0000_0000_0000_0000_0000 < sn < 0x4_0000_0000_0000_0000_0000,
                    0 < zd_k <= 0x200_0000_0000,
            ;
            assert(-0x1000_0000_0000_0000_0000_0000_0000_0000 < zn_k * sd < 0x1000_0000_0000_0000_0000_0000_0000_0000)
                by (nonlinear_arith)
                requires
                    -0x4_0000_0000_0000_0000_0000 < zn_k < 0x4_0000_0000_0000_0000_0000,
                    0 < sd <= 0x200_0000_0000,
            ;
            if sn * zd_k <= zn_k * sd {
                let _ = v.pop();
                let _ = zn.pop();
                let _ = zd.pop();
                proof {
                    assert(beaten(f@, v0, zn0, zd0, q as int, k as int));
                    assert(v@ =~= v0.take(v@.len() as int));
                    assert(zn@ =~= zn0.take(v@.len() - 1));
                    assert(zd@ =~= zd0.take(v@.len() - 1));
                }
            } else {
                break;
            }
        }
        let ghost k: int = v@.len() - 1;
        proof {
            lemma_push(f@, v0, zn0, zd0, q as int, k);
        }
        v.push(q);
        zn.push(sn);
        zd.push(sd);
        proof {
            assert(v@ =~= v0.take(k + 1).push(q as usize));
            assert(zn@ =~= zn0.take(k).push(cross_num(f@, v0[k] as int, q as int) as i128));
            assert(zd@ =~= zd0.take(k).push(cross_den(v0[k] as int, q as int) as i128));
        }
        q = q + 1;
    }
    proof {
        lemma_envelope_bounds(f@, v@, zn@, zd@, n as int);
    }
    let mut g: Vec<i128> = Vec::new();
    let mut k: usize = 0;
    let mut x: usize = 0;
    while x < n
        invariant
            field_ok(f@),
            n == f@.len(),
            x <= n,
            is_envelope(f@, v@, zn@, zd@, n as int),
            forall|i: int| 0 <= i < v@.len() ==> #[trigger] v@[i] < n,
            forall|i: int|
                0 <= i < zn@.len() ==> -0x4_0000_0000_0000_0000_0000 < #[trigger] zn@[i]
                    < 0x4_0000_0000_0000_0000_0000 && 0 < zd@[i] <= 0x200_0000_0000,
            k <= zn@.len(),
            k == 0 || zn@[k - 1] <= x * zd@[k - 1],
            g@.len() == x,
            forall|y: int| 0 <= y < x ==> g@[y] == envelope(f@, y, n as int),
        decreases n - x,
    {
        loop
            invariant
                x < n <= max_len(),
                zd@.len() == zn@.len(),
                forall|i: int|
                    0 <= i < zn@.len() ==> -0x4_0000_0000_0000_0000_0000 < #[trigger] zn@[i]
                        < 0x4_0000_0000_0000_0000_0000 && 0 < zd@[i] <= 0x200_0000_0000,
                k <= zn@.len(),
                k == 0 || zn@[k - 1] <= x * zd@[k - 1],
            ensures
                k <= zn@.len(),
                k == 0 || zn@[k - 1] <= x * zd@[k - 1],
                k == zn@.len() || x * zd@[k as int] <= zn@[k as int],
            decreases zn@.len() - k,
        {
            if k >= zn.len() {
                break;
            }
            let zd_k = zd[k];
            assert(-0x4_0000_0000_0000_0000_0000 < zn@[k as int] < 0x4_0000_0000_0000_0000_0000 && 0 < zd@[k as int] <= 0x200_0000_0000);
            assert(0 <= x * zd_k <= 0x100_0000_0000 * 0x200_0000_0000) by (nonlinear_arith)
                requires
                    0 <= x < 0x100_0000_0000,
                    0 < zd_k <= 0x200_0000_0000,
            ;
            if zn[k] < (x as i128) * zd_k {
                k = k + 1;
            } else {
                break;
            }
        }
        assert(in_region(zn@, zd@, k as int, x as int));
        let a = v[k];
        let d: i128 = (x as i128) - (a as i128);
        assert(0 <= d * d <= 0x100_0000_0000 * 0x100_0000_0000) by (nonlinear_arith)
            requires
                -0x100_0000_0000 < d < 0x100_0000_0000,
        ;
        let val = d * d + f[a];
        proof {
            assert forall|p: int| 0 <= p < n implies parabola(f@, a as int, x as int) <= #[trigger] parabola(
                f@,
                p,
                x as int,
            ) by {
                assert(in_region(zn@, zd@, k as int, x as int));
            }
            lemma_min_is_envelope(f@, x as int, n as int, a as int);
            if k > 0 {
                assert(x * zd@[k - 1] <= (x + 1) * zd@[k - 1]) by (nonlinear_arith)
                    requires
                        0 < zd@[k - 1],
                ;
            }
        }
        g.push(val);
        x = x + 1;
    }
    g
}

/// The transform of a row lies between zero and the row's own value.
proof fn lemma_envelope_range(f: Seq<i128>, x: int)
    requires
        field_ok(f),
        0 <= x < f.len(),
    ensures
        0 <= envelope(f, x, f.len() as int) <= f[x],
{
    lemma_envelope_is_min(f, x, f.len() as int);
    assert(parabola(f, x, x) == f[x]);
    let p = choose|p: int| 0 <= p < f.len() && envelope(f, x, f.len() as int) == #[trigger] parabola(f, p, x);
    assert((x - p) * (x - p) >= 0) by (nonlinear_arith);
}

/// Cell `(x, y)` of a row-major image of width `w` sits at index `y * w + x`.
proof fn lemma_cell(w: int, h: int, x: int, y: int)
    requires
        0 <= x < w,
        0 <= y < h,
    ensures
        0 <= y * w <= y * w + x < w * h,
        (y * w + x) / w == y,
        (y * w + x) % w == x,
{
    assert(0 <= y * w && y * w + x < w * h) by (nonlinear_arith)
        requires
            0 <= x < w,
            0 <= y < h,
    ;
    lemma_fundamental_div_mod_converse(y * w + x, w, y, x);
}

/// Index `i` of a row-major image of width `w` is cell `(i % w, i / w)`.
proof fn lemma_index(w: int, h: int, i: int)
    requires
        0 < w,
        0 <= i < w * h,
    ensures
        0 <= i % w < w,
        0 <= i / w < h,
        i == (i / w) * w + i % w,
{
    lemma_fundamental_div_mod(i, w);
    assert(0 <= i % w < w) by {
        vstd::arithmetic::div_mod::lemma_mod_pos_bound(i, w);
    }
    assert(0 <= i / w < h && i == (i / w) * w + i % w) by (nonlinear_arith)
        requires
            0 < w,
            0 <= i < w * h,
            i == w * (i / w) + i % w,
            0 <= i % w < w,
    ;
}

/// The value at cell `(x, y)` of a row-major image of width `w`.
pub open spec fn at(img: Seq<i128>, w: int, x: int, y: int) -> int {
    img[y * w + x] as int
}

/// Column `x` of a row-major image of width `w` and height `h`.
pub open spec fn column(img: Seq<i128>, w: int, h: int, x: int) -> Seq<i128> {
    Seq::new(h as nat, |y: int| img[y * w + x])
}

/// Row `y` of a row-major image of width `w`.
pub open spec fn row(img: Seq<i128>, w: int, y: int) -> Seq<i128> {
    Seq::new(w as nat, |x: int| img[y * w + x])
}

/// `(x - px)^2 + (y - py)^2`.
pub open spec fn sq_dist(x: int, y: int, px: int, py: int) -> int {
    (x - px) * (x - px) + (y - py) * (y - py)
}

/// An image that the two-dimensional transform handles: `w * h` values
/// between zero and `2^80`, both sides at most `2^40`, and either both
/// sides or neither zero.
pub open spec fn image_ok(img: Seq<i128>, w: int, h: int) -> bool {
    &&& img.len() == w * h
    &&& 0 <= w <= max_len()
    &&& 0 <= h <= max_len()
    &&& w <= usize::MAX
    &&& h <= usize::MAX
    &&& (w == 0) == (h == 0)
    &&& forall|i: int| 0 <= i < img.len() ==> 0 <= #[trigger] img[i] <= max_value()
}

/// The columns of a valid image are valid rows for the transform.
proof fn lemma_column_ok(img: Seq<i128>, w: int, h: int, x: int)
    requires
        image_ok(img, w, h),
        0 <= x < w,
    ensures
        field_ok(column(img, w, h, x)),
{
    assert forall|p: int| 0 <= p < h implies 0 <= #[trigger] column(img, w, h, x)[p] <= max_value() by {
        lemma_cell(w, h, x, p);
    }
}

/// The rows of a valid image are valid rows for the transform.
proof fn lemma_row_ok(img: Seq<i128>, w: int, h: int, y: int)
    requires
        image_ok(img, w, h),
        0 <= y < h,
    ensures
        field_ok(row(img, w, y)),
{
    assert forall|p: int| 0 <= p < w implies 0 <= #[trigger] row(img, w, y)[p] <= max_value() by {
        lemma_cell(w, h, p, y);
    }
}

/// `t` holds at each cell the least `sq_dist + img` over all cells: the exact
/// squared distance transform of `img`.
pub open spec fn is_distance_transform(img: Seq<i128>, t: Seq<i128>, w: int, h: int) -> bool {
    &&& t.len() == img.len()
    &&& forall|x: int, y: int| 0 <= x < w && 0 <= y < h ==> #[trigger] nearest(img, t, w, h, x, y)
}

/// The value of `t` at `(x, y)` is the least `sq_dist + img` over all cells.
pub open spec fn nearest(img: Seq<i128>, t: Seq<i128>, w: int, h: int, x: int, y: int) -> bool {
    &&& forall|px: int, py: int|
        0 <= px < w && 0 <= py < h ==> at(t, w, x, y) <= sq_dist(x, y, px, py) + #[trigger] at(img, w, px, py)
    &&& exists|px: int, py: int|
        0 <= px < w && 0 <= py < h && at(t, w, x, y) == sq_dist(x, y, px, py) + #[trigger] at(img, w, px, py)
}

/// What the column pass leaves at index `i`.
pub open spec fn column_value(img: Seq<i128>, w: int, h: int, i: int) -> int {
    envelope(column(img, w, h, i % w), i / w, h)
}

/// What the row pass leaves at index `i`.
pub open spec fn row_value(img: Seq<i128>, w: int, i: int) -> int {
    envelope(row(img, w, i / w), i % w, w)
}

/// A transform of the columns followed by one of the rows is the transform
/// of the image, at one cell.
proof fn lemma_separable_cell(img: Seq<i128>, c: Seq<i128>, t: Seq<i128>, w: int, h: int, x: int, y: int)
    requires
        image_ok(img, w, h),
        c.len() == w * h,
        t.len() == w * h,
        forall|i: int| 0 <= i < w * h ==> #[trigger] c[i] == column_value(img, w, h, i),
        forall|i: int| 0 <= i < w * h ==> #[trigger] t[i] == row_value(c, w, i),
        0 <= x < w,
        0 <= y < h,
    ensures
        nearest(img, t, w, h, x, y),
{
    lemma_cell(w, h, x, y);
    let r = row(c, w, y);
    assert(at(t, w, x, y) == envelope(r, x, w));
    lemma_envelope_is_min(r, x, w);
    assert forall|px: int, py: int| 0 <= px < w && 0 <= py < h implies at(t, w, x, y) <= sq_dist(x, y, px, py)
        + #[trigger] at(img, w, px, py) by {
        lemma_cell(w, h, px, y);
        let col = column(img, w, h, px);
        assert(parabola(r, px, x) == (x - px) * (x - px) + envelope(col, y, h));
        lemma_envelope_is_min(col, y, h);
        assert(parabola(col, py, y) == (y - py) * (y - py) + at(img, w, px, py));
    }
    let px = choose|p: int| 0 <= p < w && envelope(r, x, w) == #[trigger] parabola(r, p, x);
    lemma_cell(w, h, px, y);
    let col = column(img, w, h, px);
    lemma_envelope_is_min(col, y, h);
    let py = choose|p: int| 0 <= p < h && envelope(col, y, h) == #[trigger] parabola(col, p, y);
    assert(at(t, w, x, y) == sq_dist(x, y, px, py) + at(img, w, px, py));
}

/// The exact squared distance transform of a row-major image, in place:
/// the columns first, then the rows. Afterwards each cell holds the least
/// `(x - px)^2 + (y - py)^2 + img[py][px]` over all cells `(px, py)`.
pub fn edt_2d_squared(img: &mut [i128], width: usize, height: usize)
    requires
        image_ok(old(img)@, width as int, height as int),
    ensures
        is_distance_transform(old(img)@, final(img)@, width as int, height as int),
{
    let ghost img0 = img@;
    let w = width;
    let h = height;
    let n = img.len();
    let mut x: usize = 0;
    while x < w
        invariant
            image_ok(img0, w as int, h as int),
            img@.len() == w * h,
            n == w * h,
            x <= w,
            forall|i: int|
                0 <= i < w * h ==> #[trigger] img@[i] == (if i % (w as int) < x {
                    column_value(img0, w as int, h as int, i)
                } else {
                    img0[i] as int
                }),
        decreases w - x,
    {
        let mut col: Vec<i128> = Vec::new();
        let mut y: usize = 0;
        while y < h
            invariant
                image_ok(img0, w as int, h as int),
                img@.len() == w * h,
                n == w * h,
                x < w,
                y <= h,
                forall|i: int|
                    0 <= i < w * h ==> #[trigger] img@[i] == (if i % (w as int) < x {
                        column_value(img0, w as int, h as int, i)
                    } else {
                        img0[i] as int
                    }),
                col@.len() == y,
                forall|p: int| 0 <= p < y ==> #[trigger] col@[p] == column(img0, w as int, h as int, x as int)[p],
            decreases h - y,
        {
            proof {
                lemma_cell(w as int, h as int, x as int, y as int);
            }
            let value = img[y * w + x];
            col.push(value);
            y = y + 1;
        }
        proof {
            assert(col@ =~= column(img0, w as int, h as int, x as int));
            lemma_column_ok(img0, w as int, h as int, x as int);
        }
        let out = edt_1d_squared(col.as_slice());
        let mut y: usize = 0;
        while y < h
            invariant
                image_ok(img0, w as int, h as int),
                img@.len() == w * h,
                n == w * h,
                x < w,
                y <= h,
                out@.len() == h,
                forall|p: int| 0 <= p < h ==> #[trigger] out@[p] == envelope(column(img0, w as int, h as int, x as int), p, h as int),
                forall|i: int|
                    0 <= i < w * h ==> #[trigger] img@[i] == (if i % (w as int) < x || (i % (w as int) == x && i / (w as int) < y) {
                        column_value(img0, w as int, h as int, i)
                    } else {
                        img0[i] as int
                    }),
            decreases h - y,
        {
            proof {
                lemma_cell(w as int, h as int, x as int, y as int);
            }
            let j = y * w + x;
            img[j] = out[y];
            proof {
                assert forall|i: int| 0 <= i < w * h implies #[trigger] img@[i] == (if i % (w as int) < x || (i
                    % (w as int) == x && i / (w as int) < y + 1) {
                    column_value(img0, w as int, h as int, i)
                } else {
                    img0[i] as int
                }) by {
                    lemma_index(w as int, h as int, i);
                }
            }
            y = y + 1;
        }
        proof {
            assert forall|i: int| 0 <= i < w * h implies #[trigger] img@[i] == (if i % (w as int) < x + 1 {
                column_value(img0, w as int, h as int, i)
            } else {
                img0[i] as int
            }) by {
                lemma_index(w as int, h as int, i);
            }
        }
        x = x + 1;
    }
    let ghost c = img@;
    proof {
        assert forall|i: int| 0 <= i < w * h implies 0 <= #[trigger] c[i] <= max_value() by {
            lemma_index(w as int, h as int, i);
            lemma_column_ok(img0, w as int, h as int, i % (w as int));
            lemma_envelope_range(column(img0, w as int, h as int, i % (w as int)), i / (w as int));
            lemma_cell(w as int, h as int, i % (w as int), i / (w as int));
        }
        assert(image_ok(c, w as int, h as int));
    }
    let mut y: usize = 0;
    while y < h
        invariant
            image_ok(c, w as int, h as int),
            img@.len() == w * h,
            n == w * h,
            y <= h,
            forall|i: int|
                0 <= i < w * h ==> #[trigger] img@[i] == (if i / (w as int) < y {
                    row_value(c, w as int, i)
                } else {
                    c[i] as int
                }),
        decreases h - y,
    {
        let mut r: Vec<i128> = Vec::new();
        let mut x: usize = 0;
        while x < w
            invariant
                image_ok(c, w as int, h as int),
                img@.len() == w * h,
                n == w * h,
                y < h,
                x <= w,
                forall|i: int|
                    0 <= i < w * h ==> #[trigger] img@[i] == (if i / (w as int) < y {
                        row_value(c, w as int, i)
                    } else {
                        c[i] as int
                    }),
                r@.len() == x,
                forall|p: int| 0 <= p < x ==> #[trigger] r@[p] == row(c, w as int, y as int)[p],
            decreases w - x,
        {
            proof {
                lemma_cell(w as int, h as int, x as int, y as int);
            }
            let value = img[y * w + x];
            r.push(value);
            x = x + 1;
        }
        proof {
            assert(r@ =~= row(c, w as int, y as int));
            lemma_row_ok(c, w as int, h as int, y as int);
        }
        let out = edt_1d_squared(r.as_slice());
        let mut x: usize = 0;
        while x < w
            invariant
                image_ok(c, w as int, h as int),
                img@.len() == w * h,
                n == w * h,
                y < h,
                x <= w,
                out@.len() == w,
                forall|p: int| 0 <= p < w ==> #[trigger] out@[p] == envelope(row(c, w as int, y as int), p, w as int),
                forall|i: int|
                    0 <= i < w * h ==> #[trigger] img@[i] == (if i / (w as int) < y || (i / (w as int) == y && i % (w as int) < x) {
                        row_value(c, w as int, i)
                    } else {
                        c[i] as int
                    }),
            decreases w - x,
        {
            proof {
                lemma_cell(w as int, h as int, x as int, y as int);
            }
            let j = y * w + x;
            img[j] = out[x];
            proof {
                assert forall|i: int| 0 <= i < w * h implies #[trigger] img@[i] == (if i / (w as int) < y || (i
                    / (w as int) == y && i % (w as int) < x + 1) {
                    row_value(c, w as int, i)
                } else {
                    c[i] as int
                }) by {
                    lemma_index(w as int, h as int, i);
                }
            }
            x = x + 1;
        }
        proof {
            assert forall|i: int| 0 <= i < w * h implies #[trigger] img@[i] == (if i / (w as int) < y + 1 {
                row_value(c, w as int, i)
            } else {
                c[i] as int
            }) by {
                lemma_index(w as int, h as int, i);
            }
        }
        y = y + 1;
    }
    proof {
        assert forall|i: int| 0 <= i < w * h implies #[trigger] c[i] == column_value(img0, w as int, h as int, i) by {
            lemma_index(w as int, h as int, i);
        }
        assert forall|i: int| 0 <= i < w * h implies #[trigger] img@[i] == row_value(c, w as int, i) by {
            lemma_index(w as int, h as int, i);
        }
        assert forall|px: int, py: int| 0 <= px < w && 0 <= py < h implies #[trigger] nearest(
            img0,
            img@,
            w as int,
            h as int,
            px,
            py,
        ) by {
            lemma_separable_cell(img0, c, img@, w as int, h as int, px, py);
        }
    }
}

/// The field of a bitmap of `n` cells: `FAR` on the cells marked inside, zero
/// on the others (the complement, and the cells past the end of `data`).
pub open spec fn bitmap_field(data: Seq<u8>, n: int) -> Seq<i128> {
    Seq::new(n as nat, |i: int| if i < data.len() && data[i] != 0 { FAR } else { 0i128 })
}

/// `r` is the largest value of `t` on the cells marked inside, or zero where
/// there is none.
pub open spec fn is_inside_max(data: Seq<u8>, t: Seq<i128>, r: int) -> bool {
    &&& 0 <= r
    &&& forall|i: int| 0 <= i < data.len() && data[i] != 0 ==> #[trigger] t[i] <= r
    &&& (r == 0 || exists|i: int| 0 <= i < data.len() && data[i] != 0 && #[trigger] t[i] == r)
}

/// Cell `(x, y)` of a bitmap of width `w` is marked inside.
pub open spec fn inside_cell(data: Seq<u8>, w: int, x: int, y: int) -> bool {
    y * w + x < data.len() && data[y * w + x] != 0
}

/// Some cell of the `w` by `h` bitmap is not marked inside.
pub open spec fn has_outside_cell(data: Seq<u8>, w: int, h: int) -> bool {
    exists|px: int, py: int| 0 <= px < w && 0 <= py < h && !#[trigger] inside_cell(data, w, px, py)
}

/// `r` is the largest squared distance from an inside cell to the nearest
/// cell that is not inside: every inside cell has an outside cell within
/// `r`, and, unless `r` is zero, some inside cell has none nearer than `r`.
pub open spec fn is_largest_gap(data: Seq<u8>, w: int, h: int, r: int) -> bool {
    &&& forall|x: int, y: int|
        0 <= x < w && 0 <= y < h && #[trigger] inside_cell(data, w, x, y) ==> exists|px: int, py: int|
            0 <= px < w && 0 <= py < h && !#[trigger] inside_cell(data, w, px, py) && sq_dist(x, y, px, py) <= r
    &&& (r == 0 || exists|x: int, y: int|
        0 <= x < w && 0 <= y < h && #[trigger] inside_cell(data, w, x, y) && forall|px: int, py: int|
            0 <= px < w && 0 <= py < h && !#[trigger] inside_cell(data, w, px, py) ==> r <= sq_dist(x, y, px, py))
}

/// Squared distances between cells of an image with sides at most `2^32 + 2`
/// stay below `FAR`.
proof fn lemma_sq_dist_small(x: int, y: int, px: int, py: int, w: int, h: int)
    requires
        0 <= x < w <= 0x1_0000_0002,
        0 <= px < w,
        0 <= y < h <= 0x1_0000_0002,
        0 <= py < h,
    ensures
        0 <= sq_dist(x, y, px, py) < FAR,
{
    assert(0 <= (x - px) * (x - px) < 0x2_0000_0000_0000_0000) by (nonlinear_arith)
        requires
            -0x1_0000_0002 < x - px < 0x1_0000_0002,
    ;
    assert(0 <= (y - py) * (y - py) < 0x2_0000_0000_0000_0000) by (nonlinear_arith)
        requires
            -0x1_0000_0002 < y - py < 0x1_0000_0002,
    ;
}

/// On the field of a bitmap with an outside cell, the largest transform value
/// over the inside cells is the largest gap.
proof fn lemma_largest_gap(data: Seq<u8>, w: int, h: int, t: Seq<i128>, r: int)
    requires
        data.len() <= w * h,
        0 < w <= 0x1_0000_0002,
        0 < h <= 0x1_0000_0002,
        is_distance_transform(bitmap_field(data, w * h), t, w, h),
        is_inside_max(data, t, r),
        has_outside_cell(data, w, h),
    ensures
        is_largest_gap(data, w, h, r),
{
    let field = bitmap_field(data, w * h);
    let (ox, oy) = choose|px: int, py: int| 0 <= px < w && 0 <= py < h && !#[trigger] inside_cell(data, w, px, py);
    assert forall|x: int, y: int| 0 <= x < w && 0 <= y < h && #[trigger] inside_cell(data, w, x, y) implies exists|
        px: int,
        py: int,
    | 0 <= px < w && 0 <= py < h && !#[trigger] inside_cell(data, w, px, py) && sq_dist(x, y, px, py) <= r by {
        lemma_cell(w, h, x, y);
        lemma_cell(w, h, ox, oy);
        assert(nearest(field, t, w, h, x, y));
        assert(t[y * w + x] <= r);
        assert(at(field, w, ox, oy) == 0);
        lemma_sq_dist_small(x, y, ox, oy, w, h);
        assert(at(t, w, x, y) < FAR);
        let (px, py) = choose|px: int, py: int|
            0 <= px < w && 0 <= py < h && at(t, w, x, y) == sq_dist(x, y, px, py) + #[trigger] at(field, w, px, py);
        lemma_cell(w, h, px, py);
        lemma_sq_dist_small(x, y, px, py, w, h);
        if inside_cell(data, w, px, py) {
            assert(at(field, w, px, py) == FAR);
            assert(false);
        }
        assert(at(field, w, px, py) == 0);
    }
    if r != 0 {
        let i = choose|i: int| 0 <= i < data.len() && data[i] != 0 && #[trigger] t[i] == r;
        lemma_index(w, h, i);
        let x = i % w;
        let y = i / w;
        assert(inside_cell(data, w, x, y));
        assert(nearest(field, t, w, h, x, y));
        assert forall|px: int, py: int| 0 <= px < w && 0 <= py < h && !#[trigger] inside_cell(data, w, px, py) implies r
            <= sq_dist(x, y, px, py) by {
            lemma_cell(w, h, px, py);
            assert(at(field, w, px, py) == 0);
        }
    }
}

/// The largest squared distance, counted in cells, from a cell inside the
/// bitmap to the nearest cell outside it (`FAR` where no cell is outside),
/// or zero where no cell is inside.
pub fn max_inside_squared_distance(g: &GridBitmap) -> (r: i128)
    requires
        g.data@.len() <= g.width * g.height,
        g.width * g.height <= usize::MAX,
        g.width <= max_len(),
        g.height <= max_len(),
        (g.width == 0) == (g.height == 0),
    ensures
        exists|t: Seq<i128>|
            is_distance_transform(bitmap_field(g.data@, g.width * g.height), t, g.width as int, g.height as int)
                && is_inside_max(g.data@, t, r as int),
        has_outside_cell(g.data@, g.width as int, g.height as int) && g.width <= 0x1_0000_0002
            && g.height <= 0x1_0000_0002 ==> is_largest_gap(
            g.data@,
            g.width as int,
            g.height as int,
            r as int,
        ),
{
    let w = g.width;
    let h = g.height;
    let n = w * h;
    let mut field: Vec<i128> = Vec::new();
    let mut i: usize = 0;
    while i < n
        invariant
            n == w * h,
            g.data@.len() <= n,
            i <= n,
            field@.len() == i,
            forall|j: int| 0 <= j < i ==> #[trigger] field@[j] == bitmap_field(g.data@, n as int)[j],
        decreases n - i,
    {
        let value: i128 = if i < g.data.len() && g.data[i] != 0 {
            FAR
        } else {
            0
        };
        field.push(value);
        i = i + 1;
    }
    let ghost field0 = field@;
    proof {
        assert(field0 =~= bitmap_field(g.data@, n as int));
        assert forall|j: int| 0 <= j < field0.len() implies 0 <= #[trigger] field0[j] <= max_value() by {}
    }
    edt_2d_squared(field.as_mut_slice(), w, h);
    let mut r: i128 = 0;
    let mut i: usize = 0;
    while i < g.data.len()
        invariant
            g.data@.len() <= n,
            field@.len() == n,
            i <= g.data@.len(),
            0 <= r,
            forall|j: int| 0 <= j < i && g.data@[j] != 0 ==> #[trigger] field@[j] <= r,
            r == 0 || exists|j: int| 0 <= j < i && g.data@[j] != 0 && #[trigger] field@[j] == r,
        decreases g.data@.len() - i,
    {
        if g.data[i] != 0 && field[i] > r {
            r = field[i];
        }
        i = i + 1;
    }
    proof {
        assert(is_distance_transform(bitmap_field(g.data@, n as int), field@, w as int, h as int));
        assert(is_inside_max(g.data@, field@, r as int));
        if has_outside_cell(g.data@, w as int, h as int) && w <= 0x1_0000_0002 && h <= 0x1_0000_0002 {
            lemma_largest_gap(g.data@, w as int, h as int, field@, r as int);
        }
    }
    r
}

/// Some point of `points` has nearest lattice cell `(i, j)` on `delta Z^2`.
pub open spec fn snapped(points: Seq<ComplexDyadic>, delta: Dyadic, i: int, j: int) -> bool {
    exists|k: int|
        0 <= k < points.len() && #[trigger] index_of(points[k], delta, false) == i && index_of(points[k], delta, true)
            == j
}

/// The `w` by `h` bitmap with first cell `(oi, oj)` whose cells are marked
/// where some point of `points` snaps.
pub open spec fn snapped_data(points: Seq<ComplexDyadic>, delta: Dyadic, oi: int, oj: int, w: int, h: int) -> Seq<u8> {
    Seq::new((w * h) as nat, |c: int| if snapped(points, delta, oi + c % w, oj + c / w) { 1u8 } else { 0u8 })
}

/// The sides of the box of the lattice cells of `points`, padded by one cell
/// on each side.
pub open spec fn snapped_width(points: Seq<ComplexDyadic>, delta: Dyadic, im: bool) -> int {
    max_index(points, points.len() as int, delta, im) - min_index(points, points.len() as int, delta, im) + 3
}

/// The squared radius, in cells, of the largest disk inside the lattice cells
/// of `grid`: each point is snapped to its nearest cell of `delta Z^2`, the
/// box of those cells is padded by one cell, and `r` is the largest squared
/// distance from a marked cell to the nearest unmarked one.
pub fn max_inside_squared_distance_of_points(grid: &[ComplexDyadic], delta: Dyadic) -> (r: i128)
    requires
        grid@.len() > 0,
        delta.numerator > 0,
        forall|k: int|
            0 <= k < grid@.len() ==> crate::arith::fits_i32(#[trigger] index_of(grid@[k], delta, false))
                && crate::arith::fits_i32(index_of(grid@[k], delta, true)),
        i32::MIN < min_index(grid@, grid@.len() as int, delta, false),
        i32::MIN < min_index(grid@, grid@.len() as int, delta, true),
        max_index(grid@, grid@.len() as int, delta, false) < i32::MAX,
        max_index(grid@, grid@.len() as int, delta, true) < i32::MAX,
        snapped_width(grid@, delta, false) * snapped_width(grid@, delta, true) <= usize::MAX,
    ensures
        is_largest_gap(
            snapped_data(
                grid@,
                delta,
                min_index(grid@, grid@.len() as int, delta, false) - 1,
                min_index(grid@, grid@.len() as int, delta, true) - 1,
                snapped_width(grid@, delta, false),
                snapped_width(grid@, delta, true),
            ),
            snapped_width(grid@, delta, false),
            snapped_width(grid@, delta, true),
            r as int,
        ),
{
    let n = grid.len();
    let ghost ps = grid@;
    let mut cis: Vec<i64> = Vec::new();
    let mut cjs: Vec<i64> = Vec::new();
    let mut min_i: i64 = 0;
    let mut max_i: i64 = 0;
    let mut min_j: i64 = 0;
    let mut max_j: i64 = 0;
    let mut k: usize = 0;
    while k < n
        invariant
            k <= n,
            n == ps.len(),
            ps == grid@,
            delta.numerator > 0,
            forall|q: int|
                0 <= q < n ==> crate::arith::fits_i32(#[trigger] index_of(ps[q], delta, false))
                    && crate::arith::fits_i32(index_of(ps[q], delta, true)),
            cis@.len() == k,
            cjs@.len() == k,
            forall|q: int| 0 <= q < k ==> #[trigger] cis@[q] == index_of(ps[q], delta, false),
            forall|q: int| 0 <= q < k ==> #[trigger] cjs@[q] == index_of(ps[q], delta, true),
            k > 0 ==> min_i == min_index(ps, k as int, delta, false),
            k > 0 ==> max_i == max_index(ps, k as int, delta, false),
            k > 0 ==> min_j == min_index(ps, k as int, delta, true),
            k > 0 ==> max_j == max_index(ps, k as int, delta, true),
            crate::arith::fits_i32(min_i as int),
            crate::arith::fits_i32(max_i as int),
            crate::arith::fits_i32(min_j as int),
            crate::arith::fits_i32(max_j as int),
        decreases n - k,
    {
        let z = grid[k];
        assert(crate::arith::fits_i32(index_of(ps[k as int], delta, false)));
        let ci: i64 = match crate::lattice::nearest_lattice_index(z.re, delta) {
            Some(i) => i as i64,
            None => {
                proof {
                    assert(false);
                }
                0
            },
        };
        let cj: i64 = match crate::lattice::nearest_lattice_index(z.im, delta) {
            Some(j) => j as i64,
            None => {
                proof {
                    assert(false);
                }
                0
            },
        };
        if k == 0 || ci < min_i {
            min_i = ci;
        }
        if k == 0 || ci > max_i {
            max_i = ci;
        }
        if k == 0 || cj < min_j {
            min_j = cj;
        }
        if k == 0 || cj > max_j {
            max_j = cj;
        }
        cis.push(ci);
        cjs.push(cj);
        k = k + 1;
    }
    proof {
        assert forall|q: int| 0 <= q < n implies min_i <= #[trigger] cis@[q] <= max_i && min_j <= cjs@[q] <= max_j by {
            lemma_index_bounds(ps, n as int, delta, q);
        }
        lemma_index_bounds(ps, n as int, delta, 0);
        let sw = snapped_width(ps, delta, false);
        let sh = snapped_width(ps, delta, true);
        assert(sw == max_i - min_i + 3 && sh == max_j - min_j + 3);
        assert(sw <= usize::MAX && sh <= usize::MAX) by (nonlinear_arith)
            requires
                sw >= 3,
                sh >= 3,
                sw * sh <= usize::MAX,
        ;
    }
    let oi = min_i - 1;
    let oj = min_j - 1;
    let w = (max_i - min_i + 3) as usize;
    let h = (max_j - min_j + 3) as usize;
    let ghost wi = w as int;
    let ghost hi = h as int;
    proof {
        assert(wi == snapped_width(ps, delta, false));
        assert(hi == snapped_width(ps, delta, true));
    }
    let total = w * h;
    let mut data: Vec<u8> = Vec::new();
    let mut c: usize = 0;
    while c < total
        invariant
            c <= total,
            data@.len() == c,
            forall|t: int| 0 <= t < c ==> #[trigger] data@[t] == 0u8,
        decreases total - c,
    {
        data.push(0u8);
        c = c + 1;
    }
    k = 0;
    while k < n
        invariant
            k <= n,
            n == ps.len(),
            cis@.len() == n,
            cjs@.len() == n,
            forall|q: int| 0 <= q < n ==> #[trigger] cis@[q] == index_of(ps[q], delta, false),
            forall|q: int| 0 <= q < n ==> #[trigger] cjs@[q] == index_of(ps[q], delta, true),
            forall|q: int|
                0 <= q < n ==> min_i <= #[trigger] cis@[q] <= max_i && min_j <= cjs@[q] <= max_j,
            wi == w,
            hi == h,
            w == max_i - min_i + 3,
            h == max_j - min_j + 3,
            oi == min_i - 1,
            oj == min_j - 1,
            i32::MIN < min_i <= max_i < i32::MAX,
            i32::MIN < min_j <= max_j < i32::MAX,
            total == w * h,
            data@.len() == total,
            forall|t: int| 0 <= t < total ==> #[trigger] data@[t] == 0u8 || data@[t] == 1u8,
            forall|t: int|
                0 <= t < total ==> (#[trigger] data@[t] != 0u8 <==> exists|q: int|
                    0 <= q < k && cis@[q] == oi + t % wi && cjs@[q] == oj + t / wi),
        decreases n - k,
    {
        let x = (cis[k] - oi) as usize;
        let y = (cjs[k] - oj) as usize;
        proof {
            lemma_cell(wi, hi, x as int, y as int);
        }
        let idx = y * w + x;
        data.set(idx, 1u8);
        proof {
            assert forall|t: int|
                0 <= t < total implies (#[trigger] data@[t] != 0u8 <==> exists|q: int|
                    0 <= q < k + 1 && cis@[q] == oi + t % wi && cjs@[q] == oj + t / wi) by {
                lemma_index(wi, hi, t);
                if t == idx {
                    assert(cis@[k as int] == oi + t % wi && cjs@[k as int] == oj + t / wi);
                } else {
                    if cis@[k as int] == oi + t % wi && cjs@[k as int] == oj + t / wi {
                        assert(t == (t / wi) * wi + t % wi);
                        assert(false);
                    }
                }
            }
        }
        k = k + 1;
    }
    proof {
        assert forall|t: int| 0 <= t < total implies #[trigger] data@[t] == snapped_data(ps, delta, oi as int, oj as int, wi, hi)[t] by {
            lemma_index(wi, hi, t);
            if data@[t] != 0u8 {
                let q = choose|q: int| 0 <= q < n && cis@[q] == oi + t % wi && cjs@[q] == oj + t / wi;
                assert(index_of(ps[q], delta, false) == oi + t % wi);
                assert(snapped(ps, delta, oi + t % wi, oj + t / wi));
            }
            if snapped(ps, delta, oi + t % wi, oj + t / wi) {
                let q = choose|q: int|
                    0 <= q < ps.len() && #[trigger] index_of(ps[q], delta, false) == oi + t % wi && index_of(ps[q], delta, true)
                        == oj + t / wi;
                assert(cis@[q] == oi + t % wi);
            }
        }
        assert(data@ =~= snapped_data(ps, delta, oi as int, oj as int, wi, hi));
        // the corner cell lies outside: every lattice index is above the padding
        lemma_cell(wi, hi, 0, 0);
        assert(!inside_cell(data@, wi, 0, 0)) by {
            if data@[0] != 0u8 {
                let q = choose|q: int| 0 <= q < n && cis@[q] == oi + 0int % wi && cjs@[q] == oj + 0int / wi;
                assert(cis@[q] >= min_i);
            }
        }
        assert(has_outside_cell(data@, wi, hi));
    }
    let g = GridBitmap { width: w, height: h, origin_i: oi as i32, origin_j: oj as i32, data };
    max_inside_squared_distance(&g)
}

} // verus!
