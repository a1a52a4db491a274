//! Sampled disks, covering grids of an image set on a dyadic lattice, and
//! their complements.
use crate::arith::{
    ceil_div, ceil_q, div_round, fits_i128, floor_div, floor_q, lemma_ceil_div, lemma_p2_basics, lemma_p2_mono, lemma_round_half_away_close,
    lemma_round_half_away_scale, mag, p2, round_half_away, shl,
};
use crate::dyadic_laws::lemma_val_at;
use crate::complex::ComplexDyadic;
use crate::dyadic::Dyadic;
use crate::dyadic_laws::lemma_below_iff;
use vstd::prelude::*;

verus! {

/// The cell with row-major index `k` of the square `[-max, max]^2` of
/// integer points: `(k / (2 max + 1) - max, k % (2 max + 1) - max)`.
pub open spec fn square_cell(max: int, k: int) -> (int, int) {
    (k / (2 * max + 1) - max, k % (2 * max + 1) - max)
}

/// The cells among the first `k` cells of the square `[-max, max]^2`
/// (row-major, re_idx part outer) for which `keep` holds, in order.
pub open spec fn cells_where(max: int, k: int, keep: spec_fn(int, int) -> bool) -> Seq<(int, int)>
    decreases k,
{
    if k <= 0 {
        Seq::empty()
    } else {
        let prev = cells_where(max, k - 1, keep);
        let c = square_cell(max, k - 1);
        if keep(c.0, c.1) {
            prev.push(c)
        } else {
            prev
        }
    }
}

/// The point `(a * 2^e, b * 2^e)` for the integer pair `c = (a, b)`.
pub open spec fn lattice_point(c: (int, int), e: i32) -> ComplexDyadic {
    ComplexDyadic {
        re: Dyadic { numerator: c.0 as i128, exponent: e },
        im: Dyadic { numerator: c.1 as i128, exponent: e },
    }
}

/// The points `(a, b)` with `a^2 + b^2 <= max^2`: the closed unit disk once scaled by `1/max`.
pub open spec fn in_disk(max: int) -> spec_fn(int, int) -> bool {
    |a: int, b: int| a * a + b * b <= max * max
}

/// The points with `1 <= |(a, b)| / max <= 1 + 1/max`: the ring one lattice step
/// wide on and outside the unit circle.
pub open spec fn in_ring(max: int) -> spec_fn(int, int) -> bool {
    |a: int, b: int| max * max <= a * a + b * b && a * a + b * b <= (max + 1) * (max + 1)
}

/// `points` are the lattice points `2^disk_accuracy (a, b)` of the square
/// `[-1, 1]^2` with `keep(a, b)`, in the order of `cells_where`.
pub open spec fn lists_square_points(
    points: Seq<ComplexDyadic>,
    disk_accuracy: i32,
    keep: spec_fn(int, int) -> bool,
) -> bool {
    let max = p2(-disk_accuracy);
    let cells = cells_where(max, (2 * max + 1) * (2 * max + 1), keep);
    &&& points.len() == cells.len()
    &&& forall|i: int|
        0 <= i < cells.len() ==> points[i] == #[trigger] lattice_point(cells[i], disk_accuracy)
}

/// The lattice points of `2^disk_accuracy Z^2` in the square `[-1, 1]^2` in
/// the disk (`keep_disk`) or in the ring.
fn square_points(disk_accuracy: i32, keep_disk: bool) -> (points: Vec<ComplexDyadic>)
    requires
        -31 <= disk_accuracy <= 0,
    ensures
        keep_disk ==> lists_square_points(points@, disk_accuracy, in_disk(p2(-disk_accuracy))),
        !keep_disk ==> lists_square_points(points@, disk_accuracy, in_ring(p2(-disk_accuracy))),
{
    let ghost gmax = p2(-disk_accuracy);
    let ghost keep = if keep_disk {
        in_disk(gmax)
    } else {
        in_ring(gmax)
    };
    proof {
        lemma_p2_basics(-disk_accuracy);
        vstd::arithmetic::power2::lemma2_to64();
        crate::arith::lemma_p2_mono(-disk_accuracy, 31);
        assert(p2(31) == 0x8000_0000);
        assert(1 * gmax == gmax);
    }
    let max: i128 = shl(1, (-disk_accuracy) as u32);
    let w: i128 = 2 * max + 1;
    proof {
        assert(w * w <= 0x4_0000_0000_0000_0000 + 0x4_0000_0000 + 1) by (nonlinear_arith)
            requires
                1 <= w <= 0x1_0000_0001,
        ;
    }
    let total: i128 = w * w;
    let mut points: Vec<ComplexDyadic> = Vec::new();
    let mut k: i128 = 0;
    while k < total
        invariant
            0 <= k <= total,
            1 <= max <= 0x8000_0000,
            max == gmax,
            w == 2 * max + 1,
            total == w * w,
            keep == (if keep_disk {
                in_disk(gmax)
            } else {
                in_ring(gmax)
            }),
            points@.len() == cells_where(gmax, k as int, keep).len(),
            forall|i: int|
                0 <= i < points@.len() ==> points@[i] == #[trigger] lattice_point(
                    cells_where(gmax, k as int, keep)[i],
                    disk_accuracy,
                ),
        decreases total - k,
    {
        let re_idx = k / w - max;
        let im_idx = k % w - max;
        proof {
            assert(0 <= k / w < w) by (nonlinear_arith)
                requires
                    0 <= k < w * w,
                    w > 0,
            ;
            assert(0 <= k % w < w) by (nonlinear_arith)
                requires
                    w > 0,
            ;
            assert(0 <= re_idx * re_idx <= max * max) by (nonlinear_arith)
                requires
                    -max <= re_idx <= max,
            ;
            assert(0 <= im_idx * im_idx <= max * max) by (nonlinear_arith)
                requires
                    -max <= im_idx <= max,
            ;
            assert(max * max <= 0x4000_0000_0000_0000) by (nonlinear_arith)
                requires
                    1 <= max <= 0x8000_0000,
            ;
            assert(re_idx * re_idx + im_idx * im_idx <= 0x8000_0000_0000_0000);
            assert(square_cell(gmax, k as int) == (re_idx as int, im_idx as int));
        }
        assert(0 <= re_idx * re_idx <= 0x4000_0000_0000_0000);
        assert(0 <= im_idx * im_idx <= 0x4000_0000_0000_0000);
        let s = re_idx * re_idx + im_idx * im_idx;
        assert((max + 1) * (max + 1) <= 0x1_0000_0004_0000_0004) by (nonlinear_arith)
            requires
                1 <= max <= 0x8000_0000,
        ;
        let m2 = max * max;
        let inside = if keep_disk {
            s <= m2
        } else {
            m2 <= s && s <= (max + 1) * (max + 1)
        };
        proof {
            assert(inside == keep(re_idx as int, im_idx as int));
        }
        if inside {
            points.push(
                ComplexDyadic::new(Dyadic::new(re_idx, disk_accuracy), Dyadic::new(im_idx, disk_accuracy)),
            );
        }
        k = k + 1;
    }
    points
}

/// The lattice points of `2^disk_accuracy Z^2` in the closed unit disk,
/// ordered by re_idx part, then imaginary part; each written with exponent `disk_accuracy`.
pub fn unit_disk_n(disk_accuracy: i32) -> (points: Vec<ComplexDyadic>)
    requires
        -31 <= disk_accuracy <= 0,
    ensures
        lists_square_points(points@, disk_accuracy, in_disk(p2(-disk_accuracy))),
{
    square_points(disk_accuracy, true)
}

/// The lattice points `z` of `2^disk_accuracy Z^2` with `1 <= |z| <= 1 + 2^disk_accuracy`,
/// ordered by re_idx part, then imaginary part.
pub fn unit_disk_n_boundary(disk_accuracy: i32) -> (points: Vec<ComplexDyadic>)
    requires
        -31 <= disk_accuracy <= 0,
    ensures
        lists_square_points(points@, disk_accuracy, in_ring(p2(-disk_accuracy))),
{
    square_points(disk_accuracy, false)
}


/// `v[i]` has the smallest real part, and every earlier entry a larger one.
pub open spec fn first_lowest_re(v: Seq<ComplexDyadic>, i: int) -> bool {
    &&& 0 <= i < v.len()
    &&& forall|j: int| 0 <= j < v.len() ==> !(#[trigger] v[j].re).below(v[i].re)
    &&& forall|j: int| 0 <= j < i ==> v[i].re.below(#[trigger] v[j].re)
}

/// `v[i]` has the largest real part, and every earlier entry a smaller one.
pub open spec fn first_highest_re(v: Seq<ComplexDyadic>, i: int) -> bool {
    &&& 0 <= i < v.len()
    &&& forall|j: int| 0 <= j < v.len() ==> !v[i].re.below(#[trigger] v[j].re)
    &&& forall|j: int| 0 <= j < i ==> (#[trigger] v[j].re).below(v[i].re)
}

/// `v[i]` has the smallest imaginary part, and every earlier entry a larger one.
pub open spec fn first_lowest_im(v: Seq<ComplexDyadic>, i: int) -> bool {
    &&& 0 <= i < v.len()
    &&& forall|j: int| 0 <= j < v.len() ==> !(#[trigger] v[j].im).below(v[i].im)
    &&& forall|j: int| 0 <= j < i ==> v[i].im.below(#[trigger] v[j].im)
}

/// `v[i]` has the largest imaginary part, and every earlier entry a smaller one.
pub open spec fn first_highest_im(v: Seq<ComplexDyadic>, i: int) -> bool {
    &&& 0 <= i < v.len()
    &&& forall|j: int| 0 <= j < v.len() ==> !v[i].im.below(#[trigger] v[j].im)
    &&& forall|j: int| 0 <= j < i ==> (#[trigger] v[j].im).below(v[i].im)
}

/// The points with the lowest real part, highest real part, lowest imaginary
/// part and highest imaginary part (the first such point each time), or
/// `None` for an empty set.
pub fn extreme_points(vec: &Vec<ComplexDyadic>) -> (r: Option<Vec<ComplexDyadic>>)
    ensures
        vec@.len() == 0 <==> r is None,
        r matches Some(e) ==> e@.len() == 4 && exists|a: int, b: int, c: int, d: int|
            #![trigger first_lowest_re(vec@, a), first_highest_re(vec@, b), first_lowest_im(vec@, c), first_highest_im(vec@, d)]
            {
                &&& first_lowest_re(vec@, a) && e@[0] == vec@[a]
                &&& first_highest_re(vec@, b) && e@[1] == vec@[b]
                &&& first_lowest_im(vec@, c) && e@[2] == vec@[c]
                &&& first_highest_im(vec@, d) && e@[3] == vec@[d]
            },
{
    if vec.len() == 0 {
        return None;
    }
    let mut lr: usize = 0;
    let mut hr: usize = 0;
    let mut li: usize = 0;
    let mut hi: usize = 0;
    let mut k: usize = 0;
    while k < vec.len()
        invariant
            0 < vec@.len(),
            k <= vec@.len(),
            lr < vec@.len(),
            hr < vec@.len(),
            li < vec@.len(),
            hi < vec@.len(),
            lr <= k || (k == 0 && lr == 0),
            hr <= k || (k == 0 && hr == 0),
            li <= k || (k == 0 && li == 0),
            hi <= k || (k == 0 && hi == 0),
            forall|j: int| 0 <= j < k ==> vec@[lr as int].re.val() <= (#[trigger] vec@[j]).re.val(),
            forall|j: int| 0 <= j < lr ==> vec@[lr as int].re.val() < (#[trigger] vec@[j]).re.val(),
            forall|j: int| 0 <= j < k ==> vec@[hr as int].re.val() >= (#[trigger] vec@[j]).re.val(),
            forall|j: int| 0 <= j < hr ==> vec@[hr as int].re.val() > (#[trigger] vec@[j]).re.val(),
            forall|j: int| 0 <= j < k ==> vec@[li as int].im.val() <= (#[trigger] vec@[j]).im.val(),
            forall|j: int| 0 <= j < li ==> vec@[li as int].im.val() < (#[trigger] vec@[j]).im.val(),
            forall|j: int| 0 <= j < k ==> vec@[hi as int].im.val() >= (#[trigger] vec@[j]).im.val(),
            forall|j: int| 0 <= j < hi ==> vec@[hi as int].im.val() > (#[trigger] vec@[j]).im.val(),
            k == 0 ==> lr == 0 && hr == 0 && li == 0 && hi == 0,
            k > 0 ==> lr < k && hr < k && li < k && hi < k,
        decreases vec@.len() - k,
    {
        let point = vec[k];
        proof {
            lemma_below_iff(point.re, vec@[lr as int].re);
            lemma_below_iff(vec@[hr as int].re, point.re);
            lemma_below_iff(point.im, vec@[li as int].im);
            lemma_below_iff(vec@[hi as int].im, point.im);
        }
        if point.re < vec[lr].re {
            lr = k;
        }
        if point.re > vec[hr].re {
            hr = k;
        }
        if point.im < vec[li].im {
            li = k;
        }
        if point.im > vec[hi].im {
            hi = k;
        }
        k = k + 1;
    }
    proof {
        assert forall|j: int| 0 <= j < vec@.len() implies !(#[trigger] vec@[j].re).below(vec@[lr as int].re) && !vec@[hr as int].re.below(vec@[j].re) && !vec@[j].im.below(vec@[li as int].im) && !vec@[hi as int].im.below(vec@[j].im) by {
            lemma_below_iff(vec@[j].re, vec@[lr as int].re);
            lemma_below_iff(vec@[hr as int].re, vec@[j].re);
            lemma_below_iff(vec@[j].im, vec@[li as int].im);
            lemma_below_iff(vec@[hi as int].im, vec@[j].im);
        }
        assert forall|j: int| 0 <= j < lr implies vec@[lr as int].re.below(#[trigger] vec@[j].re) by {
            lemma_below_iff(vec@[lr as int].re, vec@[j].re);
        }
        assert forall|j: int| 0 <= j < hr implies (#[trigger] vec@[j].re).below(vec@[hr as int].re) by {
            lemma_below_iff(vec@[j].re, vec@[hr as int].re);
        }
        assert forall|j: int| 0 <= j < li implies vec@[li as int].im.below(#[trigger] vec@[j].im) by {
            lemma_below_iff(vec@[li as int].im, vec@[j].im);
        }
        assert forall|j: int| 0 <= j < hi implies (#[trigger] vec@[j].im).below(vec@[hi as int].im) by {
            lemma_below_iff(vec@[j].im, vec@[hi as int].im);
        }
        assert(first_lowest_re(vec@, lr as int));
        assert(first_highest_re(vec@, hr as int));
        assert(first_lowest_im(vec@, li as int));
        assert(first_highest_im(vec@, hi as int));
    }
    let mut e: Vec<ComplexDyadic> = Vec::new();
    e.push(vec[lr]);
    e.push(vec[hr]);
    e.push(vec[li]);
    e.push(vec[hi]);
    Some(e)
}


/// The cell `(i, j)` of the lattice `delta Z^2` is within `eps` of `z`:
/// `|(i delta, j delta) - z| <= eps`, exactly.
pub open spec fn covers(z: ComplexDyadic, i: int, j: int, eps: Dyadic, delta: Dyadic) -> bool {
    let dx = i * delta.val() - z.re.val();
    let dy = j * delta.val() - z.im.val();
    dx * dx + dy * dy <= eps.val() * eps.val()
}

/// Some point among the first `n` covers the cell `(i, j)`.
pub open spec fn covered(points: Seq<ComplexDyadic>, n: int, i: int, j: int, eps: Dyadic, delta: Dyadic) -> bool {
    exists|k: int| 0 <= k < n && #[trigger] covers(points[k], i, j, eps, delta)
}

/// The index of the lattice line of `delta Z` nearest to `x`, ties away from zero.
pub open spec fn lattice_index(x: Dyadic, delta: Dyadic) -> int {
    round_half_away(x.val(), delta.val())
}

/// How many lattice steps `eps` spans, rounded up: `ceil(eps / delta)`.
pub open spec fn reach(eps: Dyadic, delta: Dyadic) -> int {
    ceil_div(eps.val(), delta.val())
}

/// The nearest lattice index of the real (`im` false) or imaginary part of `z`.
pub open spec fn index_of(z: ComplexDyadic, delta: Dyadic, im: bool) -> int {
    if im {
        lattice_index(z.im, delta)
    } else {
        lattice_index(z.re, delta)
    }
}

/// The smallest `index_of` among the first `n >= 1` points.
pub open spec fn min_index(p: Seq<ComplexDyadic>, n: int, delta: Dyadic, im: bool) -> int
    decreases n,
{
    if n <= 1 {
        index_of(p[0], delta, im)
    } else {
        let a = min_index(p, n - 1, delta, im);
        let b = index_of(p[n - 1], delta, im);
        if b < a {
            b
        } else {
            a
        }
    }
}

/// The largest `index_of` among the first `n >= 1` points.
pub open spec fn max_index(p: Seq<ComplexDyadic>, n: int, delta: Dyadic, im: bool) -> int
    decreases n,
{
    if n <= 1 {
        index_of(p[0], delta, im)
    } else {
        let a = max_index(p, n - 1, delta, im);
        let b = index_of(p[n - 1], delta, im);
        if b > a {
            b
        } else {
            a
        }
    }
}

/// The finest (smallest) exponent among `eps`, `delta` and the parts of the first `n` points.
pub open spec fn finest_exponent(p: Seq<ComplexDyadic>, n: int, eps: Dyadic, delta: Dyadic) -> int
    decreases n,
{
    if n <= 0 {
        if eps.exponent <= delta.exponent {
            eps.exponent as int
        } else {
            delta.exponent as int
        }
    } else {
        let a = finest_exponent(p, n - 1, eps, delta);
        let b = if p[n - 1].re.exponent <= p[n - 1].im.exponent {
            p[n - 1].re.exponent as int
        } else {
            p[n - 1].im.exponent as int
        };
        if b < a {
            b
        } else {
            a
        }
    }
}

/// Written over the exponent `l`, the numerator of `d` is at most `2^60` in magnitude.
pub open spec fn small_at(d: Dyadic, l: int) -> bool {
    l <= d.exponent && mag(d.at(l)) <= 0x1000_0000_0000_0000
}

/// The inputs of a covering grid: a non-empty set, `delta > 0`, `eps >= 0`,
/// all numbers at most `2^60` in magnitude over their finest common exponent
/// (so that the squared distances of the exact test fit in an `i128`),
/// lattice indices of the padded bounding box within `i32`, and a bitmap
/// whose size fits in `usize`. `grid_input_fits` decides it, and
/// `covering_grid_bitmap_rounded` rounds the points where it fails.
pub open spec fn grid_input_ok(points: Seq<ComplexDyadic>, eps: Dyadic, delta: Dyadic) -> bool {
    let n = points.len() as int;
    let l = finest_exponent(points, n, eps, delta);
    let r = reach(eps, delta);
    let w = max_index(points, n, delta, false) - min_index(points, n, delta, false) + 2 * r + 3;
    let h = max_index(points, n, delta, true) - min_index(points, n, delta, true) + 2 * r + 3;
    &&& n > 0
    &&& delta.numerator > 0
    &&& eps.numerator >= 0
    &&& small_at(delta, l)
    &&& small_at(eps, l)
    &&& forall|k: int| 0 <= k < n ==> small_at(#[trigger] points[k].re, l) && small_at(points[k].im, l)
    &&& i32::MIN <= min_index(points, n, delta, false) - r - 1
    &&& i32::MIN <= min_index(points, n, delta, true) - r - 1
    &&& max_index(points, n, delta, false) + r + 1 <= i32::MAX
    &&& max_index(points, n, delta, true) + r + 1 <= i32::MAX
    &&& w * h <= usize::MAX
}

/// A dense bitmap of lattice cells: cell `(origin_i + x, origin_j + y)` is
/// `data[y * width + x]`, 1 inside and 0 in the complement.
pub struct GridBitmap {
    pub width: usize,
    pub height: usize,
    pub origin_i: i32,
    pub origin_j: i32,
    pub data: Vec<u8>,
}

/// The lattice column of entry `c` of a bitmap.
pub open spec fn cell_i(g: GridBitmap, c: int) -> int {
    g.origin_i + c % (g.width as int)
}

/// The lattice row of entry `c` of a bitmap.
pub open spec fn cell_j(g: GridBitmap, c: int) -> int {
    g.origin_j + c / (g.width as int)
}

/// `g` is the covering grid of `points`: its box is the bounding box of the
/// nearest lattice indices of the points, padded by `reach + 1` cells on each
/// side, and a cell is 1 exactly when it is within `eps` of some point.
pub open spec fn is_covering_bitmap(g: GridBitmap, points: Seq<ComplexDyadic>, eps: Dyadic, delta: Dyadic) -> bool {
    let n = points.len() as int;
    let r = reach(eps, delta);
    &&& g.origin_i == min_index(points, n, delta, false) - r - 1
    &&& g.origin_j == min_index(points, n, delta, true) - r - 1
    &&& g.width == max_index(points, n, delta, false) - min_index(points, n, delta, false) + 2 * r + 3
    &&& g.height == max_index(points, n, delta, true) - min_index(points, n, delta, true) + 2 * r + 3
    &&& g.data@.len() == g.width * g.height
    &&& forall|c: int|
        0 <= c < g.data@.len() ==> #[trigger] g.data@[c] == (if covered(
            points,
            n,
            cell_i(g, c),
            cell_j(g, c),
            eps,
            delta,
        ) {
            1u8
        } else {
            0u8
        })
}

/// `covers`, for numbers written as integers over a common exponent.
pub open spec fn covers_int(x: int, y: int, d: int, e: int, i: int, j: int) -> bool {
    (i * d - x) * (i * d - x) + (j * d - y) * (j * d - y) <= e * e
}

/// Over a common exponent, `covers` is `covers_int` of the numerators.
proof fn lemma_covers_scaled(z: ComplexDyadic, i: int, j: int, eps: Dyadic, delta: Dyadic, l: int)
    requires
        i32::MIN <= l,
        small_at(z.re, l),
        small_at(z.im, l),
        small_at(eps, l),
        small_at(delta, l),
    ensures
        covers(z, i, j, eps, delta) == covers_int(
            z.re.at(l),
            z.im.at(l),
            delta.at(l),
            eps.at(l),
            i,
            j,
        ),
{
    let c = p2(l - i32::MIN);
    lemma_p2_basics(l - i32::MIN);
    lemma_val_at(z.re, l);
    lemma_val_at(z.im, l);
    lemma_val_at(eps, l);
    lemma_val_at(delta, l);
    let x = z.re.at(l);
    let y = z.im.at(l);
    let d = delta.at(l);
    let e = eps.at(l);
    let u = i * d - x;
    let v = j * d - y;
    assert(i * (d * c) - x * c == c * u) by (nonlinear_arith)
        requires
            u == i * d - x,
    ;
    assert(j * (d * c) - y * c == c * v) by (nonlinear_arith)
        requires
            v == j * d - y,
    ;
    assert((c * u) * (c * u) + (c * v) * (c * v) == (c * c) * (u * u + v * v)) by (nonlinear_arith);
    assert((e * c) * (e * c) == (c * c) * (e * e)) by (nonlinear_arith);
    assert(c * c > 0) by (nonlinear_arith)
        requires
            c > 0,
    ;
    let cc = c * c;
    assert(((cc * (u * u + v * v)) <= (cc * (e * e))) == ((u * u + v * v) <= e * e)) by (nonlinear_arith)
        requires
            cc > 0,
    ;
}

/// Over a common exponent, the nearest lattice index and the reach are
/// computed from the numerators.
proof fn lemma_indices_scaled(x: Dyadic, eps: Dyadic, delta: Dyadic, l: int)
    requires
        i32::MIN <= l,
        small_at(x, l),
        small_at(eps, l),
        small_at(delta, l),
        delta.numerator > 0,
        eps.numerator >= 0,
    ensures
        lattice_index(x, delta) == round_half_away(x.at(l), delta.at(l)),
        reach(eps, delta) == ceil_div(eps.at(l), delta.at(l)),
        delta.at(l) > 0,
        eps.at(l) >= 0,
{
    let c = p2(l - i32::MIN);
    lemma_p2_basics(l - i32::MIN);
    lemma_val_at(x, l);
    lemma_val_at(eps, l);
    lemma_val_at(delta, l);
    crate::arith::lemma_mag_shift(delta.numerator as int, delta.exponent - l);
    crate::arith::lemma_mag_shift(eps.numerator as int, eps.exponent - l);
    let d = delta.at(l);
    let e = eps.at(l);
    assert(d > 0);
    assert(e >= 0);
    vstd::arithmetic::mul::lemma_mul_is_commutative(x.at(l), c);
    vstd::arithmetic::mul::lemma_mul_is_commutative(d, c);
    vstd::arithmetic::mul::lemma_mul_is_commutative(e, c);
    lemma_round_half_away_scale(x.at(l), d, c);
    lemma_ceil_div(e, d);
    vstd::arithmetic::mul::lemma_mul_strictly_positive(d, c);
    vstd::arithmetic::mul::lemma_mul_nonnegative(e, c);
    lemma_ceil_div(e * c, d * c);
    let q1 = ceil_div(e, d);
    let q2 = ceil_div(e * c, d * c);
    assert(q1 == q2) by (nonlinear_arith)
        requires
            c > 0,
            d > 0,
            e >= 0,
            q1 >= 0,
            q2 >= 0,
            e <= q1 * d,
            (q1 - 1) * d < e || q1 == 0,
            e * c <= q2 * (d * c),
            (q2 - 1) * (d * c) < e * c || q2 == 0,
    ;
}

/// A cell within `e` of `(x, y)` lies within `r = ceil(e / d)` cells of the
/// nearest lattice point `(cx, cy)`.
proof fn lemma_window(x: int, y: int, d: int, e: int, cx: int, cy: int, i: int, j: int)
    requires
        d > 0,
        e >= 0,
        cx == round_half_away(x, d),
        cy == round_half_away(y, d),
        covers_int(x, y, d, e, i, j),
    ensures
        mag(i - cx) <= ceil_div(e, d),
        mag(j - cy) <= ceil_div(e, d),
{
    lemma_round_half_away_close(x, d);
    lemma_round_half_away_close(y, d);
    lemma_ceil_div(e, d);
    let r = ceil_div(e, d);
    assert(mag(i - cx) <= r) by (nonlinear_arith)
        requires
            d > 0,
            e >= 0,
            r >= 0,
            e <= r * d,
            2 * mag(cx * d - x) <= d,
            (i * d - x) * (i * d - x) + (j * d - y) * (j * d - y) <= e * e,
    ;
    assert(mag(j - cy) <= r) by (nonlinear_arith)
        requires
            d > 0,
            e >= 0,
            r >= 0,
            e <= r * d,
            2 * mag(cy * d - y) <= d,
            (i * d - x) * (i * d - x) + (j * d - y) * (j * d - y) <= e * e,
    ;
}

/// Entry `b * w + a` of a row-major bitmap of width `w` is column `a` of row `b`.
proof fn lemma_cell_index(w: int, a: int, b: int)
    requires
        w > 0,
        0 <= a < w,
        b >= 0,
    ensures
        (b * w + a) % w == a,
        (b * w + a) / w == b,
{
    vstd::arithmetic::div_mod::lemma_fundamental_div_mod_converse(b * w + a, w, b, a);
}

/// An entry is determined by its column and row.
proof fn lemma_cell_unique(w: int, c: int, a: int, b: int)
    requires
        w > 0,
        c >= 0,
        c % w == a,
        c / w == b,
    ensures
        c == b * w + a,
{
    vstd::arithmetic::div_mod::lemma_fundamental_div_mod(c, w);
    vstd::arithmetic::mul::lemma_mul_is_commutative(w, b);
}

/// Sets to 1 every cell of the bitmap within `e` of `(x, y)` (numbers over a
/// common exponent, lattice step `d`), searching the `(2r + 1)^2` cells around
/// the nearest lattice point `(cx, cy)`.
fn mark_disk(
    data: &mut Vec<u8>,
    w: usize,
    h: usize,
    oi: i32,
    oj: i32,
    x: i128,
    y: i128,
    d: i128,
    e: i128,
    cx: i128,
    cy: i128,
    r: i128,
)
    requires
        old(data)@.len() == w * h,
        w * h <= usize::MAX,
        w > 0,
        h > 0,
        0 < d <= 0x1000_0000_0000_0000,
        0 <= e <= 0x1000_0000_0000_0000,
        mag(x as int) <= 0x1000_0000_0000_0000,
        mag(y as int) <= 0x1000_0000_0000_0000,
        cx == round_half_away(x as int, d as int),
        cy == round_half_away(y as int, d as int),
        r == ceil_div(e as int, d as int),
        oi <= cx - r,
        cx + r < oi + w,
        oj <= cy - r,
        cy + r < oj + h,
    ensures
        final(data)@.len() == old(data)@.len(),
        forall|c: int|
            0 <= c < final(data)@.len() ==> #[trigger] final(data)@[c] == (if covers_int(
                x as int,
                y as int,
                d as int,
                e as int,
                oi + c % (w as int),
                oj + c / (w as int),
            ) {
                1u8
            } else {
                old(data)@[c]
            }),
{
    let ghost old_data = data@;
    let ghost wi = w as int;
    proof {
        lemma_ceil_div(e as int, d as int);
        lemma_round_half_away_close(x as int, d as int);
        lemma_round_half_away_close(y as int, d as int);
        assert(r <= 0x1000_0000_0000_0001) by (nonlinear_arith)
            requires
                d > 0,
                e <= 0x1000_0000_0000_0000,
                (r - 1) * d < e || r == 0,
        ;
        assert(mag(cx as int) <= 0x1000_0000_0000_0001 && mag(cy as int) <= 0x1000_0000_0000_0001)
            by (nonlinear_arith)
            requires
                d >= 1,
                2 * mag(cx * d - x) <= d,
                2 * mag(cy * d - y) <= d,
                mag(x as int) <= 0x1000_0000_0000_0000,
                mag(y as int) <= 0x1000_0000_0000_0000,
        ;
    }
    let mut di: i128 = -r;
    proof {
        assert forall|c: int| 0 <= c < data@.len() implies #[trigger] data@[c] == (if covers_int(
            x as int,
            y as int,
            d as int,
            e as int,
            oi + c % wi,
            oj + c / wi,
        ) && oi + c % wi < cx + di {
            1u8
        } else {
            old_data[c]
        }) by {
            if covers_int(x as int, y as int, d as int, e as int, oi + c % wi, oj + c / wi) {
                lemma_window(
                    x as int,
                    y as int,
                    d as int,
                    e as int,
                    cx as int,
                    cy as int,
                    oi + c % wi,
                    oj + c / wi,
                );
            }
        }
    }
    while di <= r
        invariant
            -r <= di <= r + 1,
            0 <= r <= 0x1000_0000_0000_0001,
            mag(cx as int) <= 0x1000_0000_0000_0001,
            mag(cy as int) <= 0x1000_0000_0000_0001,
            data@.len() == w * h,
            w * h <= usize::MAX,
            old_data.len() == w * h,
            wi == w,
            w > 0,
            h > 0,
            0 < d <= 0x1000_0000_0000_0000,
            0 <= e <= 0x1000_0000_0000_0000,
            mag(x as int) <= 0x1000_0000_0000_0000,
            mag(y as int) <= 0x1000_0000_0000_0000,
            cx == round_half_away(x as int, d as int),
            cy == round_half_away(y as int, d as int),
            r == ceil_div(e as int, d as int),
            oi <= cx - r,
            cx + r < oi + w,
            oj <= cy - r,
            cy + r < oj + h,
            forall|c: int|
                0 <= c < data@.len() ==> #[trigger] data@[c] == (if covers_int(
                    x as int,
                    y as int,
                    d as int,
                    e as int,
                    oi + c % wi,
                    oj + c / wi,
                ) && oi + c % wi < cx + di {
                    1u8
                } else {
                    old_data[c]
                }),
        decreases r + 1 - di,
    {
        let mut dj: i128 = -r;
        proof {
            assert forall|c: int| 0 <= c < data@.len() implies #[trigger] data@[c] == (if covers_int(
                x as int,
                y as int,
                d as int,
                e as int,
                oi + c % wi,
                oj + c / wi,
            ) && (oi + c % wi < cx + di || (oi + c % wi == cx + di && oj + c / wi < cy + dj)) {
                1u8
            } else {
                old_data[c]
            }) by {
                if covers_int(x as int, y as int, d as int, e as int, oi + c % wi, oj + c / wi) {
                    lemma_window(
                        x as int,
                        y as int,
                        d as int,
                        e as int,
                        cx as int,
                        cy as int,
                        oi + c % wi,
                        oj + c / wi,
                    );
                }
            }
        }
        while dj <= r
            invariant
                -r <= di <= r,
                -r <= dj <= r + 1,
                0 <= r <= 0x1000_0000_0000_0001,
                mag(cx as int) <= 0x1000_0000_0000_0001,
                mag(cy as int) <= 0x1000_0000_0000_0001,
                data@.len() == w * h,
                w * h <= usize::MAX,
                old_data.len() == w * h,
                wi == w,
                w > 0,
                h > 0,
                0 < d <= 0x1000_0000_0000_0000,
                0 <= e <= 0x1000_0000_0000_0000,
                mag(x as int) <= 0x1000_0000_0000_0000,
                mag(y as int) <= 0x1000_0000_0000_0000,
                cx == round_half_away(x as int, d as int),
                cy == round_half_away(y as int, d as int),
                r == ceil_div(e as int, d as int),
                oi <= cx - r,
                cx + r < oi + w,
                oj <= cy - r,
                cy + r < oj + h,
                forall|c: int|
                    0 <= c < data@.len() ==> #[trigger] data@[c] == (if covers_int(
                        x as int,
                        y as int,
                        d as int,
                        e as int,
                        oi + c % wi,
                        oj + c / wi,
                    ) && (oi + c % wi < cx + di || (oi + c % wi == cx + di && oj + c / wi < cy
                        + dj)) {
                        1u8
                    } else {
                        old_data[c]
                    }),
            decreases r + 1 - dj,
        {
            let i = cx + di;
            let j = cy + dj;
            proof {
                lemma_ceil_div(e as int, d as int);
                lemma_round_half_away_close(x as int, d as int);
                lemma_round_half_away_close(y as int, d as int);
                assert(mag(i * d - x) <= 0x4000_0000_0000_0000 && mag(j * d - y)
                    <= 0x4000_0000_0000_0000) by (nonlinear_arith)
                    requires
                        d > 0,
                        d <= 0x1000_0000_0000_0000,
                        e <= 0x1000_0000_0000_0000,
                        0 <= r,
                        e <= r * d,
                        (r - 1) * d < e || r == 0,
                        2 * mag(cx * d - x) <= d,
                        2 * mag(cy * d - y) <= d,
                        i == cx + di,
                        j == cy + dj,
                        -r <= di <= r,
                        -r <= dj <= r,
                ;
                assert(mag(i * d) <= 0x5000_0000_0000_0000 && mag(j * d) <= 0x5000_0000_0000_0000);
                assert(0 <= (i * d - x) * (i * d - x) <= 0x1000_0000_0000_0000_0000_0000_0000_0000)
                    by (nonlinear_arith)
                    requires
                        mag(i * d - x) <= 0x4000_0000_0000_0000,
                ;
                assert(0 <= (j * d - y) * (j * d - y) <= 0x1000_0000_0000_0000_0000_0000_0000_0000)
                    by (nonlinear_arith)
                    requires
                        mag(j * d - y) <= 0x4000_0000_0000_0000,
                ;
                assert(0 <= e * e <= 0x100_0000_0000_0000_0000_0000_0000_0000) by (nonlinear_arith)
                    requires
                        0 <= e <= 0x1000_0000_0000_0000,
                ;
            }
            let dx = i * d - x;
            let dy = j * d - y;
            let inside = dx * dx + dy * dy <= e * e;
            let xi = (i - oi as i128) as usize;
            let yj = (j - oj as i128) as usize;
            proof {
                assert(yj * w + xi < w * h && yj * w <= w * h) by (nonlinear_arith)
                    requires
                        0 <= xi < w,
                        0 <= yj < h,
                ;
                lemma_cell_index(wi, xi as int, yj as int);
            }
            let idx = yj * w + xi;
            if inside {
                data.set(idx, 1u8);
            }
            proof {
                assert forall|c: int| 0 <= c < data@.len() implies #[trigger] data@[c] == (if covers_int(
                    x as int,
                    y as int,
                    d as int,
                    e as int,
                    oi + c % wi,
                    oj + c / wi,
                ) && (oi + c % wi < cx + di || (oi + c % wi == cx + di && oj + c / wi < cy + dj
                    + 1)) {
                    1u8
                } else {
                    old_data[c]
                }) by {
                    if c != idx as int {
                        if c % wi == xi && c / wi == yj {
                            lemma_cell_unique(wi, c, xi as int, yj as int);
                        }
                    }
                }
            }
            dj = dj + 1;
        }
        proof {
            assert forall|c: int| 0 <= c < data@.len() implies #[trigger] data@[c] == (if covers_int(
                x as int,
                y as int,
                d as int,
                e as int,
                oi + c % wi,
                oj + c / wi,
            ) && oi + c % wi < cx + di + 1 {
                1u8
            } else {
                old_data[c]
            }) by {
                if covers_int(x as int, y as int, d as int, e as int, oi + c % wi, oj + c / wi) {
                    lemma_window(
                        x as int,
                        y as int,
                        d as int,
                        e as int,
                        cx as int,
                        cy as int,
                        oi + c % wi,
                        oj + c / wi,
                    );
                }
            }
        }
        di = di + 1;
    }
    proof {
        assert forall|c: int| 0 <= c < data@.len() implies #[trigger] data@[c] == (if covers_int(
            x as int,
            y as int,
            d as int,
            e as int,
            oi + c % wi,
            oj + c / wi,
        ) {
            1u8
        } else {
            old_data[c]
        }) by {
            if covers_int(x as int, y as int, d as int, e as int, oi + c % wi, oj + c / wi) {
                lemma_window(
                    x as int,
                    y as int,
                    d as int,
                    e as int,
                    cx as int,
                    cy as int,
                    oi + c % wi,
                    oj + c / wi,
                );
            }
        }
    }
}

/// The numerator of `d` written over `l`.
fn numerator_at(d: Dyadic, l: i32) -> (r: i128)
    requires
        small_at(d, l as int),
    ensures
        r == d.at(l as int),
{
    if d.numerator == 0 {
        assert(d.at(l as int) == 0);
        return 0;
    }
    let k = Ghost(d.exponent - l);
    proof {
        crate::arith::lemma_mag_shift(d.numerator as int, k@);
        lemma_p2_basics(k@);
        assert(p2(k@) <= 0x1000_0000_0000_0000) by (nonlinear_arith)
            requires
                mag(d.numerator as int) * p2(k@) <= 0x1000_0000_0000_0000,
                mag(d.numerator as int) >= 1,
                p2(k@) > 0,
        ;
        if k@ > 60 {
            lemma_p2_mono(61, k@);
            vstd::arithmetic::power2::lemma2_to64_rest();
            assert(p2(61) == 0x2000_0000_0000_0000);
        }
        assert(k@ <= 60);
    }
    shl(d.numerator, (d.exponent - l) as u32)
}


/// `d` rounded down to a multiple of `2^l`: unchanged where its exponent is
/// at least `l`, and otherwise `floor(numerator / 2^(l - exponent)) * 2^l`.
pub fn floor_to_exponent(d: Dyadic, l: i32) -> (r: Dyadic)
    ensures
        d.exponent >= l ==> r == d,
        d.exponent < l ==> r.exponent == l && r.numerator == floor_q(
            d.numerator as int,
            p2(l - d.exponent),
        ),
{
    if d.exponent >= l {
        return d;
    }
    let k: i64 = l as i64 - d.exponent as i64;
    proof {
        lemma_p2_basics(k as int);
    }
    if k >= 127 {
        proof {
            crate::arith::lemma_p2_adds(63, 64);
            vstd::arithmetic::power2::lemma2_to64_rest();
            assert(p2(63) == 0x8000_0000_0000_0000);
            assert(p2(64) == 0x1_0000_0000_0000_0000);
            assert(p2(127) == 0x8000_0000_0000_0000 * 0x1_0000_0000_0000_0000);
            lemma_p2_mono(127, k as int);
            let b = p2(k as int);
            let a = d.numerator as int;
            assert(b >= 0x8000_0000_0000_0000_0000_0000_0000_0000);
            if a >= 0 {
                assert(a / b == 0) by (nonlinear_arith)
                    requires
                        0 <= a < b,
                ;
            } else {
                assert(a / b == -1) by (nonlinear_arith)
                    requires
                        -b <= a < 0,
                ;
            }
        }
        let q: i128 = if d.numerator < 0 {
            -1
        } else {
            0
        };
        return Dyadic { numerator: q, exponent: l };
    }
    let b = crate::arith::pow2_u128(k as u32) as i128;
    proof {
        assert(b == p2(k as int)) by {
            crate::arith::lemma_p2_adds(63, 63);
            vstd::arithmetic::power2::lemma2_to64_rest();
            assert(p2(63) == 0x8000_0000_0000_0000);
            assert(p2(126) == 0x8000_0000_0000_0000 * 0x8000_0000_0000_0000);
            lemma_p2_mono(k as int, 126);
        }
        let a = d.numerator as int;
        assert(i128::MIN <= a / (b as int) <= i128::MAX) by (nonlinear_arith)
            requires
                b >= 1,
                i128::MIN <= a <= i128::MAX,
        ;
    }
    let q = floor_div(d.numerator, b);
    Dyadic { numerator: q, exponent: l }
}

/// Each point with both parts rounded down to a multiple of `2^l` by
/// `floor_to_exponent`.
pub fn floor_points_to_exponent(points: &[ComplexDyadic], l: i32) -> (r: Vec<ComplexDyadic>)
    ensures
        r@.len() == points@.len(),
        forall|k: int|
            0 <= k < r@.len() ==> {
                let p = #[trigger] points@[k];
                &&& p.re.exponent >= l ==> r@[k].re == p.re
                &&& p.re.exponent < l ==> r@[k].re.exponent == l && r@[k].re.numerator == floor_q(
                    p.re.numerator as int,
                    p2(l - p.re.exponent),
                )
                &&& p.im.exponent >= l ==> r@[k].im == p.im
                &&& p.im.exponent < l ==> r@[k].im.exponent == l && r@[k].im.numerator == floor_q(
                    p.im.numerator as int,
                    p2(l - p.im.exponent),
                )
            },
{
    let mut r: Vec<ComplexDyadic> = Vec::new();
    let mut k: usize = 0;
    while k < points.len()
        invariant
            k <= points@.len(),
            r@.len() == k,
            forall|q: int|
                0 <= q < k ==> {
                    let p = #[trigger] points@[q];
                    &&& p.re.exponent >= l ==> r@[q].re == p.re
                    &&& p.re.exponent < l ==> r@[q].re.exponent == l && r@[q].re.numerator == floor_q(
                        p.re.numerator as int,
                        p2(l - p.re.exponent),
                    )
                    &&& p.im.exponent >= l ==> r@[q].im == p.im
                    &&& p.im.exponent < l ==> r@[q].im.exponent == l && r@[q].im.numerator == floor_q(
                        p.im.numerator as int,
                        p2(l - p.im.exponent),
                    )
                },
        decreases points@.len() - k,
    {
        let p = points[k];
        let re = floor_to_exponent(p.re, l);
        let im = floor_to_exponent(p.im, l);
        r.push(ComplexDyadic { re, im });
        k = k + 1;
    }
    r
}

/// `small_at(d, l)`, decided, for `l` at most the exponent of `d`.
fn fits_at(d: Dyadic, l: i32) -> (b: bool)
    requires
        l <= d.exponent,
    ensures
        b == small_at(d, l as int),
{
    let ghost k = d.exponent - l;
    proof {
        crate::arith::lemma_mag_shift(d.numerator as int, k);
        lemma_p2_basics(k);
    }
    if d.numerator == 0 {
        return true;
    }
    let s: i64 = d.exponent as i64 - l as i64;
    if s > 60 {
        proof {
            lemma_p2_mono(61, k);
            vstd::arithmetic::power2::lemma2_to64_rest();
            assert(mag(d.numerator as int) * p2(k) >= p2(k)) by (nonlinear_arith)
                requires
                    mag(d.numerator as int) >= 1,
                    p2(k) > 0,
            ;
        }
        return false;
    }
    let m = crate::arith::magnitude(d.numerator);
    let limit = crate::arith::pow2_u128((60 - s) as u32);
    proof {
        vstd::arithmetic::power2::lemma2_to64_rest();
        crate::arith::lemma_p2_adds(60 - k, k);
        let pm = p2(60 - k);
        let pk = p2(k);
        assert(pm * pk == 0x1000_0000_0000_0000);
        assert((m <= pm) == (m * pk <= pm * pk)) by (nonlinear_arith)
            requires
                pk > 0,
        ;
    }
    m <= limit
}

/// `grid_input_ok`, decided: whether `covering_grid_bitmap` takes these inputs.
pub fn grid_input_fits(points: &[ComplexDyadic], epsilon: Dyadic, delta: Dyadic) -> (b: bool)
    ensures
        b == grid_input_ok(points@, epsilon, delta),
{
    let n = points.len();
    let ghost ps = points@;
    if n == 0 || delta.numerator <= 0 || epsilon.numerator < 0 {
        return false;
    }
    let mut l: i32 = if epsilon.exponent <= delta.exponent {
        epsilon.exponent
    } else {
        delta.exponent
    };
    let mut k: usize = 0;
    while k < n
        invariant
            k <= n,
            n == ps.len(),
            ps == points@,
            l == finest_exponent(ps, k as int, epsilon, delta),
        decreases n - k,
    {
        let z = points[k];
        let b = if z.re.exponent <= z.im.exponent {
            z.re.exponent
        } else {
            z.im.exponent
        };
        if b < l {
            l = b;
        }
        k = k + 1;
    }
    let ghost lg = l as int;
    proof {
        lemma_finest_exponent_bound(ps, n as int, epsilon, delta);
        lemma_finest_exponent_below(ps, n as int, epsilon, delta);
    }
    if !fits_at(delta, l) || !fits_at(epsilon, l) {
        return false;
    }
    k = 0;
    while k < n
        invariant
            k <= n,
            n == ps.len(),
            ps == points@,
            lg == l,
            lg == finest_exponent(ps, n as int, epsilon, delta),
            forall|q: int| 0 <= q < n ==> lg <= (#[trigger] ps[q]).re.exponent && lg <= ps[q].im.exponent,
            forall|q: int| 0 <= q < k ==> small_at(#[trigger] ps[q].re, lg) && small_at(ps[q].im, lg),
        decreases n - k,
    {
        let z = points[k];
        assert(lg <= ps[k as int].re.exponent && lg <= ps[k as int].im.exponent);
        if !fits_at(z.re, l) || !fits_at(z.im, l) {
            return false;
        }
        k = k + 1;
    }
    let d = numerator_at(delta, l);
    let e = numerator_at(epsilon, l);
    proof {
        lemma_indices_scaled(delta, epsilon, delta, lg);
        lemma_ceil_div(e as int, d as int);
        assert(0 <= e + d - 1);
    }
    let r: i128 = (e + d - 1) / d;
    proof {
        assert(r <= 0x1000_0000_0000_0001) by (nonlinear_arith)
            requires
                d > 0,
                e <= 0x1000_0000_0000_0000,
                (r - 1) * d < e || r == 0,
        ;
    }
    let mut min_i: i128 = 0;
    let mut max_i: i128 = 0;
    let mut min_j: i128 = 0;
    let mut max_j: i128 = 0;
    k = 0;
    while k < n
        invariant
            k <= n,
            n == ps.len(),
            ps == points@,
            lg == l,
            i32::MIN <= lg,
            forall|q: int| 0 <= q < n ==> small_at(#[trigger] ps[q].re, lg) && small_at(ps[q].im, lg),
            small_at(delta, lg),
            small_at(epsilon, lg),
            delta.numerator > 0,
            epsilon.numerator >= 0,
            d == delta.at(lg),
            0 < d <= 0x1000_0000_0000_0000,
            k > 0 ==> min_i == min_index(ps, k as int, delta, false),
            k > 0 ==> max_i == max_index(ps, k as int, delta, false),
            k > 0 ==> min_j == min_index(ps, k as int, delta, true),
            k > 0 ==> max_j == max_index(ps, k as int, delta, true),
            mag(min_i as int) <= 0x1000_0000_0000_0001,
            mag(max_i as int) <= 0x1000_0000_0000_0001,
            mag(min_j as int) <= 0x1000_0000_0000_0001,
            mag(max_j as int) <= 0x1000_0000_0000_0001,
        decreases n - k,
    {
        let z = points[k];
        assert(small_at(ps[k as int].re, lg) && small_at(ps[k as int].im, lg));
        let x = numerator_at(z.re, l);
        let y = numerator_at(z.im, l);
        proof {
            lemma_indices_scaled(z.re, epsilon, delta, lg);
            lemma_indices_scaled(z.im, epsilon, delta, lg);
            lemma_round_half_away_close(x as int, d as int);
            lemma_round_half_away_close(y as int, d as int);
            let qx = round_half_away(x as int, d as int);
            let qy = round_half_away(y as int, d as int);
            assert(mag(qx) <= 0x1000_0000_0000_0001 && mag(qy) <= 0x1000_0000_0000_0001) by (nonlinear_arith)
                requires
                    d >= 1,
                    2 * mag(qx * d - x) <= d,
                    2 * mag(qy * d - y) <= d,
                    mag(x as int) <= 0x1000_0000_0000_0000,
                    mag(y as int) <= 0x1000_0000_0000_0000,
            ;
        }
        let cx = div_round(x, d, false);
        let cy = div_round(y, d, false);
        if k == 0 || cx < min_i {
            min_i = cx;
        }
        if k == 0 || cx > max_i {
            max_i = cx;
        }
        if k == 0 || cy < min_j {
            min_j = cy;
        }
        if k == 0 || cy > max_j {
            max_j = cy;
        }
        k = k + 1;
    }
    proof {
        assert(r == reach(epsilon, delta));
        assert(min_i == min_index(ps, n as int, delta, false));
        assert(min_j == min_index(ps, n as int, delta, true));
        assert(max_i == max_index(ps, n as int, delta, false));
        assert(max_j == max_index(ps, n as int, delta, true));
    }
    if min_i - r - 1 < i32::MIN as i128 || min_j - r - 1 < i32::MIN as i128 || max_i + r + 1 > i32::MAX as i128
        || max_j + r + 1 > i32::MAX as i128 {
        return false;
    }
    let w: i128 = max_i - min_i + 2 * r + 3;
    let h: i128 = max_j - min_j + 2 * r + 3;
    proof {
        lemma_index_bounds(ps, n as int, delta, 0);
        assert(0 < w <= 0x1_0000_0003 && 0 < h <= 0x1_0000_0003);
        assert(w * h <= 0x1_0000_0003 * 0x1_0000_0003) by (nonlinear_arith)
            requires
                0 < w <= 0x1_0000_0003,
                0 < h <= 0x1_0000_0003,
        ;
    }
    w * h <= usize::MAX as i128
}

/// The covering grid of a non-empty image set on the lattice `delta Z^2`: a
/// cell is 1 exactly when it lies within `epsilon` of some point. The bitmap
/// spans the nearest lattice indices of the points, padded by
/// `ceil(epsilon / delta) + 1` cells on each side, so its border is complement.
pub fn covering_grid_bitmap(points: &[ComplexDyadic], epsilon: Dyadic, delta: Dyadic) -> (g: GridBitmap)
    requires
        grid_input_ok(points@, epsilon, delta),
    ensures
        is_covering_bitmap(g, points@, epsilon, delta),
{
    let n = points.len();
    let ghost ps = points@;
    proof {
        lemma_grid_input(ps, epsilon, delta);
    }
    // The finest exponent of all inputs.
    let mut l: i32 = if epsilon.exponent <= delta.exponent {
        epsilon.exponent
    } else {
        delta.exponent
    };
    let mut k: usize = 0;
    while k < n
        invariant
            k <= n,
            n == ps.len(),
            ps == points@,
            l == finest_exponent(ps, k as int, epsilon, delta),
        decreases n - k,
    {
        let z = points[k];
        let b = if z.re.exponent <= z.im.exponent {
            z.re.exponent
        } else {
            z.im.exponent
        };
        if b < l {
            l = b;
        }
        k = k + 1;
    }
    let ghost lg = l as int;
    proof {
        assert(lg == finest_exponent(ps, n as int, epsilon, delta));
    }
    let d = numerator_at(delta, l);
    let e = numerator_at(epsilon, l);
    proof {
        lemma_indices_scaled(delta, epsilon, delta, lg);
        lemma_ceil_div(e as int, d as int);
        assert(0 <= e + d - 1);
    }
    let r: i128 = (e + d - 1) / d;
    proof {
        assert(r <= 0x1000_0000_0000_0001) by (nonlinear_arith)
            requires
                d > 0,
                e <= 0x1000_0000_0000_0000,
                (r - 1) * d < e || r == 0,
        ;
    }
    // Scaled coordinates and nearest lattice indices.
    let mut xs: Vec<i128> = Vec::new();
    let mut ys: Vec<i128> = Vec::new();
    let mut cxs: Vec<i128> = Vec::new();
    let mut cys: Vec<i128> = Vec::new();
    let mut min_i: i128 = 0;
    let mut max_i: i128 = 0;
    let mut min_j: i128 = 0;
    let mut max_j: i128 = 0;
    k = 0;
    while k < n
        invariant
            k <= n,
            n == ps.len(),
            ps == points@,
            grid_input_ok(ps, epsilon, delta),
            lg == finest_exponent(ps, n as int, epsilon, delta),
            lg == l,
            i32::MIN <= lg,
            forall|q: int| 0 <= q < n ==> small_at(#[trigger] ps[q].re, lg) && small_at(ps[q].im, lg),
            d == delta.at(lg),
            0 < d <= 0x1000_0000_0000_0000,
            xs@.len() == k,
            ys@.len() == k,
            cxs@.len() == k,
            cys@.len() == k,
            forall|q: int| 0 <= q < k ==> #[trigger] xs@[q] == ps[q].re.at(lg),
            forall|q: int| 0 <= q < k ==> #[trigger] ys@[q] == ps[q].im.at(lg),
            forall|q: int|
                0 <= q < k ==> #[trigger] cxs@[q] == index_of(ps[q], delta, false) && cxs@[q]
                    == round_half_away(xs@[q] as int, d as int),
            forall|q: int|
                0 <= q < k ==> #[trigger] cys@[q] == index_of(ps[q], delta, true) && cys@[q]
                    == round_half_away(ys@[q] as int, d as int),
            forall|q: int| 0 <= q < k ==> mag(#[trigger] cxs@[q] as int) <= 0x1000_0000_0000_0001,
            forall|q: int| 0 <= q < k ==> mag(#[trigger] cys@[q] as int) <= 0x1000_0000_0000_0001,
            k > 0 ==> min_i == min_index(ps, k as int, delta, false),
            k > 0 ==> max_i == max_index(ps, k as int, delta, false),
            k > 0 ==> min_j == min_index(ps, k as int, delta, true),
            k > 0 ==> max_j == max_index(ps, k as int, delta, true),
            mag(min_i as int) <= 0x1000_0000_0000_0001,
            mag(max_i as int) <= 0x1000_0000_0000_0001,
            mag(min_j as int) <= 0x1000_0000_0000_0001,
            mag(max_j as int) <= 0x1000_0000_0000_0001,
        decreases n - k,
    {
        let z = points[k];
        assert(small_at(ps[k as int].re, lg) && small_at(ps[k as int].im, lg));
        let x = numerator_at(z.re, l);
        let y = numerator_at(z.im, l);
        proof {
            lemma_indices_scaled(z.re, epsilon, delta, lg);
            lemma_indices_scaled(z.im, epsilon, delta, lg);
            lemma_round_half_away_close(x as int, d as int);
            lemma_round_half_away_close(y as int, d as int);
            let qx = round_half_away(x as int, d as int);
            let qy = round_half_away(y as int, d as int);
            assert(mag(qx) <= 0x1000_0000_0000_0001 && mag(qy) <= 0x1000_0000_0000_0001) by (nonlinear_arith)
                requires
                    d >= 1,
                    2 * mag(qx * d - x) <= d,
                    2 * mag(qy * d - y) <= d,
                    mag(x as int) <= 0x1000_0000_0000_0000,
                    mag(y as int) <= 0x1000_0000_0000_0000,
            ;
        }
        let cx = div_round(x, d, false);
        let cy = div_round(y, d, false);
        if k == 0 || cx < min_i {
            min_i = cx;
        }
        if k == 0 || cx > max_i {
            max_i = cx;
        }
        if k == 0 || cy < min_j {
            min_j = cy;
        }
        if k == 0 || cy > max_j {
            max_j = cy;
        }
        xs.push(x);
        ys.push(y);
        cxs.push(cx);
        cys.push(cy);
        k = k + 1;
    }
    let ghost nn = n as int;
    let ghost rr = reach(epsilon, delta);
    proof {
        assert(rr == r);
    }
    proof {
        lemma_index_bounds(ps, nn, delta, 0);
        assert(min_i == min_index(ps, nn, delta, false));
        assert(min_j == min_index(ps, nn, delta, true));
        assert(max_i == max_index(ps, nn, delta, false));
        assert(max_j == max_index(ps, nn, delta, true));
        let wv = max_i - min_i + 2 * r + 3;
        let hv = max_j - min_j + 2 * r + 3;
        assert(wv >= 3 && hv >= 3);
        assert(wv * hv <= usize::MAX);
        assert(wv <= usize::MAX && hv <= usize::MAX) by (nonlinear_arith)
            requires
                wv * hv <= usize::MAX,
                wv >= 1,
                hv >= 1,
        ;
    }
    let oi = (min_i - r - 1) as i32;
    let oj = (min_j - r - 1) as i32;
    let w = (max_i - min_i + 2 * r + 3) as usize;
    let h = (max_j - min_j + 2 * r + 3) as usize;
    proof {
        assert(w * h <= usize::MAX);
        assert(w > 0 && h > 0);
    }
    let total = w * h;
    let mut data: Vec<u8> = Vec::new();
    let mut t: usize = 0;
    while t < total
        invariant
            t <= total,
            data@.len() == t,
            forall|c: int| 0 <= c < t ==> #[trigger] data@[c] == 0u8,
        decreases total - t,
    {
        data.push(0u8);
        t = t + 1;
    }
    k = 0;
    while k < n
        invariant
            k <= n,
            n == ps.len(),
            nn == n,
            ps == points@,
            grid_input_ok(ps, epsilon, delta),
            lg == finest_exponent(ps, n as int, epsilon, delta),
            i32::MIN <= lg,
            forall|q: int| 0 <= q < n ==> small_at(#[trigger] ps[q].re, lg) && small_at(ps[q].im, lg),
            small_at(delta, lg),
            small_at(epsilon, lg),
            d == delta.at(lg),
            e == epsilon.at(lg),
            0 < d <= 0x1000_0000_0000_0000,
            0 <= e <= 0x1000_0000_0000_0000,
            r == ceil_div(e as int, d as int),
            rr == r,
            xs@.len() == n,
            ys@.len() == n,
            cxs@.len() == n,
            cys@.len() == n,
            forall|q: int| 0 <= q < n ==> #[trigger] xs@[q] == ps[q].re.at(lg),
            forall|q: int| 0 <= q < n ==> #[trigger] ys@[q] == ps[q].im.at(lg),
            forall|q: int|
                0 <= q < n ==> #[trigger] cxs@[q] == index_of(ps[q], delta, false) && cxs@[q]
                    == round_half_away(xs@[q] as int, d as int),
            forall|q: int|
                0 <= q < n ==> #[trigger] cys@[q] == index_of(ps[q], delta, true) && cys@[q]
                    == round_half_away(ys@[q] as int, d as int),
            min_i == min_index(ps, nn, delta, false),
            max_i == max_index(ps, nn, delta, false),
            min_j == min_index(ps, nn, delta, true),
            max_j == max_index(ps, nn, delta, true),
            oi == min_i - r - 1,
            oj == min_j - r - 1,
            w == max_i - min_i + 2 * r + 3,
            h == max_j - min_j + 2 * r + 3,
            w * h <= usize::MAX,
            w > 0,
            h > 0,
            data@.len() == w * h,
            forall|c: int|
                0 <= c < data@.len() ==> #[trigger] data@[c] == (if covered(
                    ps,
                    k as int,
                    oi + c % (w as int),
                    oj + c / (w as int),
                    epsilon,
                    delta,
                ) {
                    1u8
                } else {
                    0u8
                }),
        decreases n - k,
    {
        proof {
            lemma_index_bounds(ps, nn, delta, k as int);
            assert(small_at(ps[k as int].re, lg) && small_at(ps[k as int].im, lg));
            assert(mag(xs@[k as int] as int) <= 0x1000_0000_0000_0000);
            assert(mag(ys@[k as int] as int) <= 0x1000_0000_0000_0000);
        }
        let ghost before = data@;
        mark_disk(&mut data, w, h, oi, oj, xs[k], ys[k], d, e, cxs[k], cys[k], r);
        proof {
            assert forall|c: int| 0 <= c < data@.len() implies #[trigger] data@[c] == (if covered(
                ps,
                (k + 1) as int,
                oi + c % (w as int),
                oj + c / (w as int),
                epsilon,
                delta,
            ) {
                1u8
            } else {
                0u8
            }) by {
                let ci = oi + c % (w as int);
                let cj = oj + c / (w as int);
                lemma_covers_scaled(ps[k as int], ci, cj, epsilon, delta, lg);
                if covered(ps, (k + 1) as int, ci, cj, epsilon, delta) && !covers(
                    ps[k as int],
                    ci,
                    cj,
                    epsilon,
                    delta,
                ) {
                    let q = choose|q: int|
                        0 <= q < k + 1 && #[trigger] covers(ps[q], ci, cj, epsilon, delta);
                    assert(q < k);
                }
                if covers(ps[k as int], ci, cj, epsilon, delta) {
                    assert(covered(ps, (k + 1) as int, ci, cj, epsilon, delta));
                }
                if covered(ps, k as int, ci, cj, epsilon, delta) {
                    let q = choose|q: int| 0 <= q < k && #[trigger] covers(ps[q], ci, cj, epsilon, delta);
                    assert(covered(ps, (k + 1) as int, ci, cj, epsilon, delta));
                }
            }
        }
        k = k + 1;
    }
    GridBitmap { width: w, height: h, origin_i: oi, origin_j: oj, data }
}

/// What `grid_input_ok` gives, spelled out.
proof fn lemma_grid_input(ps: Seq<ComplexDyadic>, eps: Dyadic, delta: Dyadic)
    requires
        grid_input_ok(ps, eps, delta),
    ensures
        ({
            let n = ps.len() as int;
            let l = finest_exponent(ps, n, eps, delta);
            let r = reach(eps, delta);
            &&& n > 0
            &&& i32::MIN <= l
            &&& small_at(delta, l)
            &&& small_at(eps, l)
            &&& forall|k: int| 0 <= k < n ==> small_at(#[trigger] ps[k].re, l) && small_at(ps[k].im, l)
            &&& i32::MIN <= min_index(ps, n, delta, false) - r - 1
            &&& i32::MIN <= min_index(ps, n, delta, true) - r - 1
            &&& max_index(ps, n, delta, false) + r + 1 <= i32::MAX
            &&& max_index(ps, n, delta, true) + r + 1 <= i32::MAX
            &&& (max_index(ps, n, delta, false) - min_index(ps, n, delta, false) + 2 * r + 3) * (
            max_index(ps, n, delta, true) - min_index(ps, n, delta, true) + 2 * r + 3)
                <= usize::MAX
        }),
{
    lemma_finest_exponent_bound(ps, ps.len() as int, eps, delta);
}

proof fn lemma_finest_exponent_bound(ps: Seq<ComplexDyadic>, n: int, eps: Dyadic, delta: Dyadic)
    ensures
        i32::MIN <= finest_exponent(ps, n, eps, delta),
    decreases n,
{
    if n > 0 {
        lemma_finest_exponent_bound(ps, n - 1, eps, delta);
    }
}

/// The finest exponent is at most each exponent it is taken over.
proof fn lemma_finest_exponent_below(ps: Seq<ComplexDyadic>, n: int, eps: Dyadic, delta: Dyadic)
    requires
        0 <= n <= ps.len(),
    ensures
        finest_exponent(ps, n, eps, delta) <= eps.exponent,
        finest_exponent(ps, n, eps, delta) <= delta.exponent,
        forall|q: int|
            0 <= q < n ==> finest_exponent(ps, n, eps, delta) <= (#[trigger] ps[q]).re.exponent
                && finest_exponent(ps, n, eps, delta) <= ps[q].im.exponent,
    decreases n,
{
    if n > 0 {
        lemma_finest_exponent_below(ps, n - 1, eps, delta);
    }
}

/// Every point's nearest lattice indices lie between the minimum and the maximum.
pub proof fn lemma_index_bounds(p: Seq<ComplexDyadic>, n: int, delta: Dyadic, k: int)
    requires
        0 <= k < n,
    ensures
        min_index(p, n, delta, false) <= index_of(p[k], delta, false) <= max_index(p, n, delta, false),
        min_index(p, n, delta, true) <= index_of(p[k], delta, true) <= max_index(p, n, delta, true),
    decreases n,
{
    if n > 1 && k < n - 1 {
        lemma_index_bounds(p, n - 1, delta, k);
    }
}


/// The lattice point `(i delta, j delta)`, each coordinate the reduced product
/// of the integer and `delta`.
pub open spec fn grid_point(i: int, j: int, delta: Dyadic) -> ComplexDyadic {
    ComplexDyadic { re: coord_product(i, delta), im: coord_product(j, delta) }
}

/// The integer `i`, written `i * 2^0`, times `delta`, in reduced form.
pub open spec fn coord_product(i: int, delta: Dyadic) -> Dyadic {
    Dyadic { numerator: i as i128, exponent: 0 }.product(delta)
}

/// The product of the integer `i` and `delta` stays within `i128`/`i32`.
pub open spec fn coord_ok(i: int, delta: Dyadic) -> bool {
    Dyadic { numerator: i as i128, exponent: 0 }.mul_ok(delta)
}

/// Every lattice column and row of the bitmap's box, times `delta`, fits.
pub open spec fn box_products_ok(g: GridBitmap, delta: Dyadic) -> bool {
    lattice_box_ok(g.origin_i as int, g.width as int, g.origin_j as int, g.height as int, delta)
}

/// Every column `oi <= i < oi + w` and row `oj <= j < oj + h`, times `delta`, fits.
pub open spec fn lattice_box_ok(oi: int, w: int, oj: int, h: int, delta: Dyadic) -> bool {
    &&& forall|i: int| oi <= i < oi + w ==> #[trigger] coord_ok(i, delta)
    &&& forall|j: int| oj <= j < oj + h ==> #[trigger] coord_ok(j, delta)
}

/// Every column and row of the box of the covering grid of `points`, times `delta`, fits.
pub open spec fn covering_products_ok(points: Seq<ComplexDyadic>, eps: Dyadic, delta: Dyadic) -> bool {
    let n = points.len() as int;
    let r = reach(eps, delta);
    let lo_i = min_index(points, n, delta, false);
    let lo_j = min_index(points, n, delta, true);
    lattice_box_ok(
        lo_i - r - 1,
        max_index(points, n, delta, false) - lo_i + 2 * r + 3,
        lo_j - r - 1,
        max_index(points, n, delta, true) - lo_j + 2 * r + 3,
        delta,
    )
}

/// The lattice points of the set entries among the first `k` of `g`, in entry order.
pub open spec fn set_cell_points(g: GridBitmap, k: int, delta: Dyadic) -> Seq<ComplexDyadic>
    decreases k,
{
    if k <= 0 {
        Seq::empty()
    } else {
        let prev = set_cell_points(g, k - 1, delta);
        if g.data@[k - 1] != 0 {
            prev.push(grid_point(cell_i(g, k - 1), cell_j(g, k - 1), delta))
        } else {
            prev
        }
    }
}

/// The set of lattice points of the set cells of `g`, each once: in entry
/// order when `delta != 0`; when `delta == 0` every cell is the origin, so
/// the set is the origin alone or empty; empty when `g` has no data.
pub open spec fn bitmap_points(g: GridBitmap, delta: Dyadic) -> Seq<ComplexDyadic> {
    let all = set_cell_points(g, g.width * g.height, delta);
    if g.data@.len() == 0 {
        Seq::empty()
    } else if delta.numerator == 0 {
        if all.len() > 0 {
            seq![grid_point(0, 0, delta)]
        } else {
            Seq::empty()
        }
    } else {
        all
    }
}

/// A cell index below `w * h` has column below `w` and row below `h`.
proof fn lemma_cell_in_box(w: int, h: int, c: int)
    requires
        w > 0,
        0 <= c < w * h,
    ensures
        0 <= c % w < w,
        0 <= c / w < h,
{
    vstd::arithmetic::div_mod::lemma_fundamental_div_mod(c, w);
    vstd::arithmetic::div_mod::lemma_div_pos_is_pos(c, w);
    vstd::arithmetic::div_mod::lemma_div_is_ordered(c, w * h, w);
    vstd::arithmetic::div_mod::lemma_div_multiples_vanish(h, w);
    if c / w >= h {
        assert(false) by (nonlinear_arith)
            requires
                c == w * (c / w) + c % w,
                c % w >= 0,
                c / w >= h,
                w > 0,
                c < w * h,
        ;
    }
}

/// The lattice points `((origin_i + x) delta, (origin_j + y) delta)` of the
/// set cells of a bitmap, as a set: each point once, in entry order.
pub fn bitmap_to_complex_set(g: &GridBitmap, delta: Dyadic) -> (r: Vec<ComplexDyadic>)
    requires
        g.data@.len() == 0 || g.width * g.height <= g.data@.len(),
        box_products_ok(*g, delta),
    ensures
        r@ == bitmap_points(*g, delta),
{
    let mut out: Vec<ComplexDyadic> = Vec::new();
    if g.data.len() == 0 {
        return out;
    }
    let total = g.width * g.height;
    let mut c: usize = 0;
    let mut any = false;
    while c < total
        invariant
            c <= total,
            total == g.width * g.height,
            total <= g.data@.len(),
            box_products_ok(*g, delta),
            delta.numerator != 0 ==> out@ == set_cell_points(*g, c as int, delta),
            delta.numerator == 0 ==> out@.len() == 0,
            any == (set_cell_points(*g, c as int, delta).len() > 0),
        decreases total - c,
    {
        if g.data[c] != 0 {
            any = true;
            if delta.numerator != 0 {
                proof {
                    let (w, h) = (g.width as int, g.height as int);
                    assert(w > 0) by (nonlinear_arith)
                        requires
                            0 <= c < w * h,
                            w >= 0,
                            h >= 0,
                    ;
                    lemma_cell_in_box(w, h, c as int);
                }
                let x = c % g.width;
                let y = c / g.width;
                let i: i128 = g.origin_i as i128 + x as i128;
                let j: i128 = g.origin_j as i128 + y as i128;
                proof {
                    assert(coord_ok(i as int, delta));
                    assert(coord_ok(j as int, delta));
                }
                let re = Dyadic::new(i, 0) * delta;
                let im = Dyadic::new(j, 0) * delta;
                out.push(ComplexDyadic::new(re, im));
            }
        }
        c = c + 1;
    }
    if delta.numerator == 0 && any {
        out.push(ComplexDyadic::new(Dyadic::zero(), Dyadic::zero()));
    }
    out
}


/// A lattice coordinate times `delta` has the value of the integer times the value of `delta`.
proof fn lemma_coord_value(i: int, delta: Dyadic)
    requires
        coord_ok(i, delta),
        crate::arith::fits_i128(i),
    ensures
        coord_product(i, delta).val() == i * delta.val(),
{
    let a = Dyadic { numerator: i as i128, exponent: 0 };
    crate::dyadic_laws::lemma_product_val(a, delta);
    lemma_p2_basics(-(i32::MIN as int));
    let u = crate::dyadic_laws::unit();
    let pv = a.product(delta).val();
    let dv = delta.val();
    assert(a.val() == i * u);
    assert(pv == i * dv) by (nonlinear_arith)
        requires
            pv * u == (i * u) * dv,
            u > 0,
    ;
}

/// Distinct lattice coordinates give distinct products with a non-zero `delta`.
proof fn lemma_coord_injective(i1: int, i2: int, delta: Dyadic)
    requires
        coord_ok(i1, delta),
        coord_ok(i2, delta),
        crate::arith::fits_i128(i1),
        crate::arith::fits_i128(i2),
        delta.numerator != 0,
        i1 != i2,
    ensures
        coord_product(i1, delta) != coord_product(i2, delta),
{
    lemma_coord_value(i1, delta);
    lemma_coord_value(i2, delta);
    lemma_p2_basics(delta.exponent - i32::MIN);
    let dv = delta.val();
    assert(dv != 0) by (nonlinear_arith)
        requires
            dv == delta.numerator * p2(delta.exponent - i32::MIN),
            delta.numerator != 0,
            p2(delta.exponent - i32::MIN) > 0,
    ;
    assert(i1 * dv != i2 * dv) by (nonlinear_arith)
        requires
            dv != 0,
            i1 != i2,
    ;
}

/// Two distinct entries of a bitmap's box have distinct lattice points.
proof fn lemma_cells_distinct(g: GridBitmap, c1: int, c2: int, delta: Dyadic)
    requires
        g.width > 0,
        0 <= c1 < g.width * g.height,
        0 <= c2 < g.width * g.height,
        c1 != c2,
        box_products_ok(g, delta),
        delta.numerator != 0,
    ensures
        grid_point(cell_i(g, c1), cell_j(g, c1), delta) != grid_point(cell_i(g, c2), cell_j(g, c2), delta),
{
    let w = g.width as int;
    lemma_cell_in_box(w, g.height as int, c1);
    lemma_cell_in_box(w, g.height as int, c2);
    let (i1, j1, i2, j2) = (cell_i(g, c1), cell_j(g, c1), cell_i(g, c2), cell_j(g, c2));
    assert(coord_ok(i1, delta) && coord_ok(i2, delta));
    assert(coord_ok(j1, delta) && coord_ok(j2, delta));
    if i1 != i2 {
        lemma_coord_injective(i1, i2, delta);
    } else if j1 != j2 {
        lemma_coord_injective(j1, j2, delta);
    } else {
        lemma_cell_unique(w, c1, c1 % w, c1 / w);
        lemma_cell_unique(w, c2, c2 % w, c2 / w);
    }
}

/// Each listed point is the lattice point of a set entry before `k`.
proof fn lemma_listed_from_cell(g: GridBitmap, k: int, delta: Dyadic, t: int) -> (c: int)
    requires
        0 <= t < set_cell_points(g, k, delta).len(),
    ensures
        0 <= c < k,
        c == k - 1 ==> t == set_cell_points(g, k, delta).len() - 1,
        g.data@[c] != 0,
        set_cell_points(g, k, delta)[t] == grid_point(cell_i(g, c), cell_j(g, c), delta),
    decreases k,
{
    let prev = set_cell_points(g, k - 1, delta);
    if t < prev.len() {
        lemma_listed_from_cell(g, k - 1, delta, t)
    } else {
        k - 1
    }
}

/// The lattice point of every set entry before `k` is listed.
proof fn lemma_cell_listed(g: GridBitmap, k: int, delta: Dyadic, c: int)
    requires
        0 <= c < k,
        g.data@[c] != 0,
    ensures
        set_cell_points(g, k, delta).contains(grid_point(cell_i(g, c), cell_j(g, c), delta)),
    decreases k,
{
    let sp = set_cell_points(g, k, delta);
    let p = grid_point(cell_i(g, c), cell_j(g, c), delta);
    if c == k - 1 {
        assert(sp[sp.len() - 1] == p);
    } else {
        lemma_cell_listed(g, k - 1, delta, c);
        let prev = set_cell_points(g, k - 1, delta);
        let t = choose|t: int| 0 <= t < prev.len() && prev[t] == p;
        assert(sp[t] == p);
    }
}

/// With a non-zero `delta` no lattice point is listed twice.
proof fn lemma_listed_distinct(g: GridBitmap, k: int, delta: Dyadic)
    requires
        g.width > 0,
        k <= g.width * g.height,
        box_products_ok(g, delta),
        delta.numerator != 0,
    ensures
        forall|a: int, b: int|
            0 <= a < b < set_cell_points(g, k, delta).len() ==> set_cell_points(g, k, delta)[a]
                != set_cell_points(g, k, delta)[b],
    decreases k,
{
    if k > 0 {
        lemma_listed_distinct(g, k - 1, delta);
        let sp = set_cell_points(g, k, delta);
        let prev = set_cell_points(g, k - 1, delta);
        if g.data@[k - 1] != 0 {
            assert forall|a: int, b: int| 0 <= a < b < sp.len() implies sp[a] != sp[b] by {
                if b == sp.len() - 1 {
                    let ca = lemma_listed_from_cell(g, k - 1, delta, a);
                    lemma_cells_distinct(g, ca, k - 1, delta);
                } else {
                    assert(sp[a] == prev[a] && sp[b] == prev[b]);
                }
            }
        }
    }
}

/// The listed points of a bitmap with a non-zero `delta` are pairwise distinct.
pub proof fn law_bitmap_points_distinct(g: GridBitmap, delta: Dyadic)
    requires
        g.width * g.height <= g.data@.len(),
        box_products_ok(g, delta),
    ensures
        forall|a: int, b: int|
            0 <= a < b < bitmap_points(g, delta).len() ==> bitmap_points(g, delta)[a] != bitmap_points(
                g,
                delta,
            )[b],
{
    if g.data@.len() > 0 && delta.numerator != 0 && g.width > 0 {
        lemma_listed_distinct(g, g.width * g.height, delta);
    }
    if g.width == 0 {
        assert(set_cell_points(g, 0, delta).len() == 0);
    }
}


/// A cell within `eps` of one of the points lies inside the box of the
/// covering grid, and is set there.
proof fn lemma_covered_in_box(g: GridBitmap, points: Seq<ComplexDyadic>, eps: Dyadic, delta: Dyadic, i: int, j: int)
    requires
        grid_input_ok(points, eps, delta),
        is_covering_bitmap(g, points, eps, delta),
        covered(points, points.len() as int, i, j, eps, delta),
    ensures
        g.origin_i <= i < g.origin_i + g.width,
        g.origin_j <= j < g.origin_j + g.height,
        ({
            let c = (j - g.origin_j) * (g.width as int) + (i - g.origin_i);
            &&& 0 <= c < g.width * g.height
            &&& cell_i(g, c) == i
            &&& cell_j(g, c) == j
            &&& g.data@[c] != 0
        }),
{
    let n = points.len() as int;
    lemma_grid_input(points, eps, delta);
    let l = finest_exponent(points, n, eps, delta);
    let k = choose|k: int| 0 <= k < n && #[trigger] covers(points[k], i, j, eps, delta);
    let z = points[k];
    assert(small_at(z.re, l) && small_at(z.im, l));
    lemma_covers_scaled(z, i, j, eps, delta, l);
    lemma_indices_scaled(z.re, eps, delta, l);
    lemma_indices_scaled(z.im, eps, delta, l);
    lemma_window(z.re.at(l), z.im.at(l), delta.at(l), eps.at(l), index_of(z, delta, false), index_of(z, delta, true), i, j);
    lemma_index_bounds(points, n, delta, k);
    let w = g.width as int;
    let h = g.height as int;
    let a = i - g.origin_i;
    let b = j - g.origin_j;
    assert(0 <= a < w && 0 <= b < h);
    lemma_cell_index(w, a, b);
    assert(b * w + a < w * h) by (nonlinear_arith)
        requires
            0 <= a < w,
            0 <= b < h,
    ;
}

/// `r` lists exactly the lattice points `grid_point(i, j, delta)` of the cells
/// within `eps` of some point of `set`.
pub open spec fn lists_covered_points(set: Seq<ComplexDyadic>, eps: Dyadic, delta: Dyadic, r: Seq<ComplexDyadic>) -> bool {
    &&& forall|i: int, j: int|
        covered(set, set.len() as int, i, j, eps, delta) ==> r.contains(#[trigger] grid_point(i, j, delta))
    &&& forall|t: int|
        0 <= t < r.len() ==> exists|i: int, j: int|
            covered(set, set.len() as int, i, j, eps, delta) && #[trigger] r[t] == grid_point(i, j, delta)
}

/// The set entries of the covering bitmap of `points`, read as lattice points
/// by `bitmap_points`, are the covering grid of `points`: the bitmap path and
/// the point-set path give the same points.
pub proof fn law_bitmap_path_is_covering_grid(g: GridBitmap, points: Seq<ComplexDyadic>, eps: Dyadic, delta: Dyadic)
    requires
        grid_input_ok(points, eps, delta),
        is_covering_bitmap(g, points, eps, delta),
        box_products_ok(g, delta),
    ensures
        lists_covered_points(points, eps, delta, bitmap_points(g, delta)),
{
    let n = points.len() as int;
    let k = g.width * g.height;
    lemma_grid_input(points, eps, delta);
    let l = finest_exponent(points, n, eps, delta);
    assert(small_at(points[0].re, l));
    lemma_indices_scaled(points[0].re, eps, delta, l);
    lemma_ceil_div(eps.at(l), delta.at(l));
    lemma_index_bounds(points, n, delta, 0);
    assert(g.width > 0);
    assert(delta.numerator != 0);
    let r = bitmap_points(g, delta);
    assert(r == set_cell_points(g, k, delta));
    assert forall|i: int, j: int| covered(points, n, i, j, eps, delta) implies r.contains(
        #[trigger] grid_point(i, j, delta),
    ) by {
        lemma_covered_in_box(g, points, eps, delta, i, j);
        let c = (j - g.origin_j) * (g.width as int) + (i - g.origin_i);
        lemma_cell_listed(g, k, delta, c);
    }
    assert forall|t: int| 0 <= t < r.len() implies exists|i: int, j: int|
        covered(points, n, i, j, eps, delta) && #[trigger] r[t] == grid_point(i, j, delta) by {
        let c = lemma_listed_from_cell(g, k, delta, t);
        assert(g.data@[c] != 0);
        assert(covered(points, n, cell_i(g, c), cell_j(g, c), eps, delta));
    }
}

/// A cell is covered by `a` followed by `b` exactly when it is covered by `a` or by `b`.
proof fn lemma_covered_concat(a: Seq<ComplexDyadic>, b: Seq<ComplexDyadic>, i: int, j: int, eps: Dyadic, delta: Dyadic)
    ensures
        covered(a + b, (a + b).len() as int, i, j, eps, delta) == (covered(a, a.len() as int, i, j, eps, delta)
            || covered(b, b.len() as int, i, j, eps, delta)),
{
    let ab = a + b;
    if covered(ab, ab.len() as int, i, j, eps, delta) {
        let k = choose|k: int| 0 <= k < ab.len() && #[trigger] covers(ab[k], i, j, eps, delta);
        if k < a.len() {
            assert(ab[k] == a[k]);
            assert(covers(a[k], i, j, eps, delta));
        } else {
            assert(ab[k] == b[k - a.len()]);
            assert(covers(b[k - a.len()], i, j, eps, delta));
        }
    }
    if covered(a, a.len() as int, i, j, eps, delta) {
        let k = choose|k: int| 0 <= k < a.len() && #[trigger] covers(a[k], i, j, eps, delta);
        assert(ab[k] == a[k]);
        assert(covers(ab[k], i, j, eps, delta));
    }
    if covered(b, b.len() as int, i, j, eps, delta) {
        let k = choose|k: int| 0 <= k < b.len() && #[trigger] covers(b[k], i, j, eps, delta);
        assert(ab[a.len() + k] == b[k]);
        assert(covers(ab[a.len() + k], i, j, eps, delta));
    }
}

/// The covering grid of `a` followed by `b` is the union of the covering
/// grids of `a` and of `b`; so it depends only on the set of points, not on
/// their order or repetitions.
pub proof fn law_covering_grid_union(
    a: Seq<ComplexDyadic>,
    b: Seq<ComplexDyadic>,
    eps: Dyadic,
    delta: Dyadic,
    ra: Seq<ComplexDyadic>,
    rb: Seq<ComplexDyadic>,
    rab: Seq<ComplexDyadic>,
)
    requires
        lists_covered_points(a, eps, delta, ra),
        lists_covered_points(b, eps, delta, rb),
        lists_covered_points(a + b, eps, delta, rab),
    ensures
        forall|p: ComplexDyadic| rab.contains(p) <==> ra.contains(p) || rb.contains(p),
{
    assert forall|p: ComplexDyadic| rab.contains(p) <==> ra.contains(p) || rb.contains(p) by {
        if rab.contains(p) {
            let t = choose|t: int| 0 <= t < rab.len() && rab[t] == p;
            let (i, j) = choose|i: int, j: int|
                covered(a + b, (a + b).len() as int, i, j, eps, delta) && #[trigger] rab[t] == grid_point(i, j, delta);
            lemma_covered_concat(a, b, i, j, eps, delta);
            assert(ra.contains(grid_point(i, j, delta)) || rb.contains(grid_point(i, j, delta)));
        }
        if ra.contains(p) {
            let t = choose|t: int| 0 <= t < ra.len() && ra[t] == p;
            let (i, j) = choose|i: int, j: int|
                covered(a, a.len() as int, i, j, eps, delta) && #[trigger] ra[t] == grid_point(i, j, delta);
            lemma_covered_concat(a, b, i, j, eps, delta);
            assert(rab.contains(grid_point(i, j, delta)));
        }
        if rb.contains(p) {
            let t = choose|t: int| 0 <= t < rb.len() && rb[t] == p;
            let (i, j) = choose|i: int, j: int|
                covered(b, b.len() as int, i, j, eps, delta) && #[trigger] rb[t] == grid_point(i, j, delta);
            lemma_covered_concat(a, b, i, j, eps, delta);
            assert(rab.contains(grid_point(i, j, delta)));
        }
    }
}

/// The covering grid of an image set on the lattice `delta Z^2`: the lattice
/// points within `epsilon` of some point of the set, each once; empty for an
/// empty set.
pub fn create_covering_grid(set: &Vec<ComplexDyadic>, epsilon: Dyadic, delta: Dyadic) -> (r: Vec<ComplexDyadic>)
    requires
        set@.len() == 0 || (grid_input_ok(set@, epsilon, delta) && covering_products_ok(set@, epsilon, delta)),
    ensures
        set@.len() == 0 ==> r@.len() == 0,
        set@.len() > 0 ==> forall|i: int, j: int|
            covered(set@, set@.len() as int, i, j, epsilon, delta) ==> r@.contains(
                #[trigger] grid_point(i, j, delta),
            ),
        set@.len() > 0 ==> forall|t: int|
            0 <= t < r@.len() ==> exists|i: int, j: int|
                covered(set@, set@.len() as int, i, j, epsilon, delta) && #[trigger] r@[t]
                    == grid_point(i, j, delta),
        forall|a: int, b: int| 0 <= a < b < r@.len() ==> r@[a] != r@[b],
{
    if set.len() == 0 {
        return Vec::new();
    }
    let g = covering_grid_bitmap(set.as_slice(), epsilon, delta);
    let r = bitmap_to_complex_set(&g, delta);
    proof {
        let n = set@.len() as int;
        lemma_grid_input(set@, epsilon, delta);
        let l = finest_exponent(set@, n, epsilon, delta);
        assert(small_at(set@[0].re, l));
        lemma_indices_scaled(set@[0].re, epsilon, delta, l);
        lemma_ceil_div(epsilon.at(l), delta.at(l));
        lemma_index_bounds(set@, n, delta, 0);
        assert(g.width > 0);
        assert(delta.numerator != 0);
        law_bitmap_points_distinct(g, delta);
        law_bitmap_path_is_covering_grid(g, set@, epsilon, delta);
    }
    r
}


/// The lowest real part of a non-empty set of points.
pub open spec fn lowest_re(v: Seq<ComplexDyadic>) -> Dyadic {
    v[choose|a: int| first_lowest_re(v, a)].re
}

/// The highest real part of a non-empty set of points.
pub open spec fn highest_re(v: Seq<ComplexDyadic>) -> Dyadic {
    v[choose|a: int| first_highest_re(v, a)].re
}

/// The lowest imaginary part of a non-empty set of points.
pub open spec fn lowest_im(v: Seq<ComplexDyadic>) -> Dyadic {
    v[choose|a: int| first_lowest_im(v, a)].im
}

/// The highest imaginary part of a non-empty set of points.
pub open spec fn highest_im(v: Seq<ComplexDyadic>) -> Dyadic {
    v[choose|a: int| first_highest_im(v, a)].im
}

/// The first extreme entry is unique, so it is the chosen one.
proof fn lemma_extremes_chosen(v: Seq<ComplexDyadic>, a: int, b: int, c: int, d: int)
    requires
        first_lowest_re(v, a),
        first_highest_re(v, b),
        first_lowest_im(v, c),
        first_highest_im(v, d),
    ensures
        v[a].re == lowest_re(v),
        v[b].re == highest_re(v),
        v[c].im == lowest_im(v),
        v[d].im == highest_im(v),
{
    let a2 = choose|a: int| first_lowest_re(v, a);
    let b2 = choose|a: int| first_highest_re(v, a);
    let c2 = choose|a: int| first_lowest_im(v, a);
    let d2 = choose|a: int| first_highest_im(v, a);
    if a < a2 {
        assert(v[a2].re.below(v[a].re));
    } else if a2 < a {
        assert(v[a].re.below(v[a2].re));
    }
    if b < b2 {
        assert(v[b].re.below(v[b2].re));
    } else if b2 < b {
        assert(v[b2].re.below(v[b].re));
    }
    if c < c2 {
        assert(v[c2].im.below(v[c].im));
    } else if c2 < c {
        assert(v[c].im.below(v[c2].im));
    }
    if d < d2 {
        assert(v[d].im.below(v[d2].im));
    } else if d2 < d {
        assert(v[d2].im.below(v[d].im));
    }
}

/// Scaling numerator and denominator by the same positive factor keeps the floor of the quotient.
proof fn lemma_floor_q_scale(a: int, b: int, c: int)
    requires
        b != 0,
        c > 0,
    ensures
        floor_q(a * c, b * c) == floor_q(a, b),
{
    let (x, y) = if b > 0 {
        (a, b)
    } else {
        (-a, -b)
    };
    assert(y > 0);
    assert(b * c > 0 <==> b > 0) by (nonlinear_arith)
        requires
            c > 0,
            b != 0,
    ;
    assert(floor_q(a * c, b * c) == (x * c) / (y * c)) by (nonlinear_arith)
        requires
            c > 0,
            b != 0,
            y > 0,
            x == (if b > 0 {
                a
            } else {
                -a
            }),
            y == (if b > 0 {
                b
            } else {
                -b
            }),
            (b * c > 0 <==> b > 0),
            floor_q(a * c, b * c) == (if b * c > 0 {
                (a * c) / (b * c)
            } else {
                (-(a * c)) / (-(b * c))
            }),
    ;
    vstd::arithmetic::div_mod::lemma_fundamental_div_mod(x, y);
    vstd::arithmetic::div_mod::lemma_mod_bound(x, y);
    let q = x / y;
    let r = x % y;
    assert(x * c == (y * c) * q + r * c && 0 <= r * c < y * c) by (nonlinear_arith)
        requires
            x == y * q + r,
            0 <= r < y,
            c > 0,
    ;
    vstd::arithmetic::div_mod::lemma_fundamental_div_mod_converse(x * c, y * c, q, r * c);
}

/// The numerator of `d` written over `m <= d.exponent`, when it fits.
fn aligned_numerator(d: Dyadic, m: i32) -> (r: i128)
    requires
        m <= d.exponent,
        fits_i128(d.at(m as int)),
    ensures
        r == d.at(m as int),
{
    if d.numerator == 0 {
        assert(d.at(m as int) == 0);
        return 0;
    }
    let k = Ghost(d.exponent - m);
    proof {
        crate::arith::lemma_mag_shift(d.numerator as int, k@);
        lemma_p2_basics(k@);
        assert(p2(k@) <= 0x8000_0000_0000_0000_0000_0000_0000_0000) by (nonlinear_arith)
            requires
                mag(d.numerator as int) * p2(k@) <= 0x8000_0000_0000_0000_0000_0000_0000_0000,
                mag(d.numerator as int) >= 1,
                p2(k@) > 0,
        ;
        if k@ > 127 {
            lemma_p2_mono(128, k@);
            vstd::arithmetic::power2::lemma2_to64_rest();
            crate::arith::lemma_p2_adds(64, 64);
            assert(p2(128) == 0x1_0000_0000_0000_0000 * 0x1_0000_0000_0000_0000);
        }
        assert(k@ <= 127);
    }
    shl(d.numerator, (d.exponent - m) as u32)
}

/// `floor(x / d)` and `ceil(x / d)` can be computed: where `x` is at least as
/// coarse as `d`, its numerator written over the exponent of `d` fits (and is
/// not `i128::MIN`); where `x` is finer, its numerator is not `i128::MIN`.
pub open spec fn ratio_fits(x: Dyadic, d: Dyadic) -> bool {
    if x.exponent < d.exponent {
        x.numerator != i128::MIN
    } else {
        &&& fits_i128(x.at(d.exponent as int))
        &&& x.at(d.exponent as int) != i128::MIN
    }
}

/// Floors and ceilings of quotients of `i128`s other than `i128::MIN` fit.
proof fn lemma_quotient_fits(a: int, b: int)
    requires
        fits_i128(a),
        a != i128::MIN,
        b != 0,
    ensures
        fits_i128(floor_q(a, b)),
        fits_i128(floor_q(-a, b)),
        fits_i128(ceil_q(a, b)),
{
    let (y, s) = if b > 0 {
        (b, 1int)
    } else {
        (-b, -1int)
    };
    assert forall|u: int| -i128::MAX <= u <= i128::MAX implies -i128::MAX <= #[trigger] (u / y) <= i128::MAX by {
        vstd::arithmetic::div_mod::lemma_fundamental_div_mod(u, y);
        vstd::arithmetic::div_mod::lemma_mod_bound(u, y);
        let q = u / y;
        let r = u % y;
        assert(-i128::MAX <= q <= i128::MAX) by (nonlinear_arith)
            requires
                u == y * q + r,
                0 <= r < y,
                y >= 1,
                -i128::MAX <= u <= i128::MAX,
        ;
    }
    assert((a * s) / y == floor_q(a, b));
    assert((-a * s) / y == floor_q(-a, b));
    assert((-a) * s == -(a * s));
}

/// Dividing by `m` and then by `n` (both positive) is dividing by `m * n`.
proof fn lemma_div_div(u: int, m: int, n: int)
    requires
        m > 0,
        n > 0,
    ensures
        (u / m) / n == u / (m * n),
{
    vstd::arithmetic::div_mod::lemma_fundamental_div_mod(u, m);
    vstd::arithmetic::div_mod::lemma_mod_bound(u, m);
    let q1 = u / m;
    let r1 = u % m;
    vstd::arithmetic::div_mod::lemma_fundamental_div_mod(q1, n);
    vstd::arithmetic::div_mod::lemma_mod_bound(q1, n);
    let q2 = q1 / n;
    let r2 = q1 % n;
    assert(u == (m * n) * q2 + (m * r2 + r1) && 0 <= m * r2 + r1 < m * n) by (nonlinear_arith)
        requires
            u == m * q1 + r1,
            q1 == n * q2 + r2,
            0 <= r1 < m,
            0 <= r2 < n,
            m > 0,
            n > 0,
    ;
    vstd::arithmetic::div_mod::lemma_fundamental_div_mod_converse(u, m * n, q2, m * r2 + r1);
}

/// The floor and the ceiling of `a / D` where `|a| < |D|`: zero, or one step
/// away from zero on the side of the quotient's sign.
proof fn lemma_small_quotient(a: int, dd: int)
    requires
        dd != 0,
        -mag(dd) < a < mag(dd),
    ensures
        floor_q(a, dd) == (if a == 0 || (a > 0) == (dd > 0) {
            0int
        } else {
            -1int
        }),
        ceil_q(a, dd) == (if a == 0 || (a > 0) != (dd > 0) {
            0int
        } else {
            1int
        }),
{
    let y = mag(dd) as int;
    assert forall|u: int| -y < u < y implies #[trigger] (u / y) == (if u >= 0 {
        0int
    } else {
        -1int
    }) by {
        if u >= 0 {
            vstd::arithmetic::div_mod::lemma_basic_div(u, y);
        } else {
            vstd::arithmetic::div_mod::lemma_fundamental_div_mod_converse(u, y, -1, u + y);
        }
    }
    if dd > 0 {
        assert(floor_q(a, dd) == a / y);
        assert(floor_q(-a, dd) == (-a) / y);
    } else {
        assert(floor_q(a, dd) == (-a) / y);
        assert(floor_q(-a, dd) == a / y);
    }
}

/// `floor(x / d)` and `ceil(x / d)` of two dyadics, exactly.
fn floor_ceil_ratio(x: Dyadic, d: Dyadic) -> (r: (i128, i128))
    requires
        d.numerator != 0,
        ratio_fits(x, d),
    ensures
        r.0 == floor_q(x.val(), d.val()),
        r.1 == ceil_q(x.val(), d.val()),
{
    let b = d.numerator;
    if x.exponent >= d.exponent {
        let m = d.exponent;
        let a = aligned_numerator(x, m);
        proof {
            lemma_val_at(x, m as int);
            lemma_val_at(d, m as int);
            lemma_p2_basics(0);
            assert(d.exponent - m as int == 0);
            assert(p2(d.exponent - m as int) == 1);
            assert(d.at(m as int) == b * 1);
            assert(d.at(m as int) == b);
            lemma_p2_basics(m - i32::MIN);
            let c = p2(m - i32::MIN);
            lemma_floor_q_scale(a as int, b as int, c);
            lemma_floor_q_scale(-a, b as int, c);
            assert((-a) * c == -(a * c)) by (nonlinear_arith);
            lemma_quotient_fits(a as int, b as int);
        }
        return (floor_div(a, b), crate::arith::ceil_div_signed(a, b));
    }
    let a = x.numerator;
    let k: u32 = (d.exponent as i64 - x.exponent as i64) as u32;
    let ghost c = p2(x.exponent - i32::MIN);
    let ghost dd = b * p2(k as int);
    proof {
        lemma_val_at(x, x.exponent as int);
        lemma_val_at(d, x.exponent as int);
        lemma_p2_basics(0);
        lemma_p2_basics(k as int);
        lemma_p2_basics(x.exponent - i32::MIN);
        assert(p2(x.exponent - x.exponent as int) == 1);
        assert(x.at(x.exponent as int) == a * 1);
        assert(x.at(x.exponent as int) == a);
        assert(d.at(x.exponent as int) == dd);
        crate::arith::lemma_mag_shift(b as int, k as int);
        lemma_floor_q_scale(a as int, dd, c);
        lemma_floor_q_scale(-a, dd, c);
        assert((-a) * c == -(a * c)) by (nonlinear_arith);
        assert(x.val() == a * c);
        assert(d.val() == dd * c);
    }
    let mb = crate::arith::magnitude(b);
    if k < 127 {
        let pk = crate::arith::pow2_u128(k);
        let limit = 0x7fff_ffff_ffff_ffff_ffff_ffff_ffff_ffffu128 / pk;
        if mb <= limit {
            proof {
                assert(mb * pk <= 0x7fff_ffff_ffff_ffff_ffff_ffff_ffff_ffff) by (nonlinear_arith)
                    requires
                        pk > 0,
                        mb <= limit,
                        limit == 0x7fff_ffff_ffff_ffff_ffff_ffff_ffff_ffffu128 / pk,
                ;
                assert(fits_i128(dd));
            }
            let big = crate::arith::shl(b, k);
            proof {
                lemma_quotient_fits(a as int, big as int);
            }
            return (floor_div(a, big), crate::arith::ceil_div_signed(a, big));
        }
        proof {
            assert(mb * pk > 0x7fff_ffff_ffff_ffff_ffff_ffff_ffff_ffff) by (nonlinear_arith)
                requires
                    pk > 0,
                    mb > limit,
                    limit == 0x7fff_ffff_ffff_ffff_ffff_ffff_ffff_ffffu128 / pk,
            ;
        }
    } else {
        proof {
            lemma_p2_mono(127, k as int);
            crate::arith::lemma_p2_adds(63, 64);
            vstd::arithmetic::power2::lemma2_to64_rest();
            assert(p2(63) == 0x8000_0000_0000_0000);
            assert(p2(64) == 0x1_0000_0000_0000_0000);
            assert(mb * p2(k as int) >= p2(k as int)) by (nonlinear_arith)
                requires
                    mb >= 1,
                    p2(k as int) > 0,
            ;
        }
    }
    proof {
        assert(a != i128::MIN);
        assert(mag(a as int) <= 0x7fff_ffff_ffff_ffff_ffff_ffff_ffff_ffff);
        assert(mag(dd) == mb * p2(k as int));
        assert(mag(dd) > mag(a as int));
        lemma_small_quotient(a as int, dd);
        assert((dd > 0) == (b > 0));
    }
    let f: i128 = if a == 0 || (a > 0) == (b > 0) {
        0
    } else {
        -1
    };
    let g: i128 = if a == 0 || (a > 0) != (b > 0) {
        0
    } else {
        1
    };
    (f, g)
}

/// The lattice box of the complement of `v`: the indices from one below the
/// lowest to one above the highest part, divided by `delta` and rounded
/// outward, as `(first column, last column, first row, last row)`.
pub open spec fn complement_box(v: Seq<ComplexDyadic>, delta: Dyadic) -> (int, int, int, int) {
    let dv = delta.val();
    (
        floor_q(lowest_re(v).val(), dv) - 1,
        ceil_q(highest_re(v).val(), dv) + 1,
        floor_q(lowest_im(v).val(), dv) - 1,
        ceil_q(highest_im(v).val(), dv) + 1,
    )
}

/// The lattice points of the first `k` cells of the box with first column
/// `r0`, first row `i0` and `ni` rows (column-major: the row varies fastest)
/// that are not in `v`, in order.
pub open spec fn complement_points(v: Seq<ComplexDyadic>, delta: Dyadic, r0: int, i0: int, ni: int, k: int) -> Seq<ComplexDyadic>
    decreases k,
{
    if k <= 0 {
        Seq::empty()
    } else {
        let prev = complement_points(v, delta, r0, i0, ni, k - 1);
        let p = grid_point(r0 + (k - 1) / ni, i0 + (k - 1) % ni, delta);
        if v.contains(p) {
            prev
        } else {
            prev.push(p)
        }
    }
}

/// What `grid_complement` gives: the lattice points of the box around `v`
/// that are not points of `v`. With `delta == 0` every lattice point is the
/// origin.
pub open spec fn grid_complement_spec(v: Seq<ComplexDyadic>, delta: Dyadic) -> Seq<ComplexDyadic> {
    let (r0, r1, i0, i1) = complement_box(v, delta);
    if delta.numerator == 0 {
        if v.contains(grid_point(0, 0, delta)) {
            Seq::empty()
        } else {
            seq![grid_point(0, 0, delta)]
        }
    } else if r1 < r0 || i1 < i0 {
        Seq::empty()
    } else {
        complement_points(v, delta, r0, i0, i1 - i0 + 1, (r1 - r0 + 1) * (i1 - i0 + 1))
    }
}

/// The inputs of `grid_complement`: a non-empty set; with `delta == 0`
/// only points at the origin (any other part divided by zero is infinite);
/// otherwise quotients and box indices within `i64`, products of the box
/// indices and `delta` that fit, and a box size that fits in `usize`.
pub open spec fn complement_input_ok(v: Seq<ComplexDyadic>, delta: Dyadic) -> bool {
    let (r0, r1, i0, i1) = complement_box(v, delta);
    &&& v.len() > 0
    &&& delta.numerator == 0 ==> forall|t: int| 0 <= t < v.len() ==> (#[trigger] v[t]).re.val() == 0 && v[t].im.val() == 0
    &&& delta.numerator != 0 ==> {
        &&& ratio_fits(lowest_re(v), delta)
        &&& ratio_fits(highest_re(v), delta)
        &&& ratio_fits(lowest_im(v), delta)
        &&& ratio_fits(highest_im(v), delta)
        &&& i64::MIN <= r0 && r1 <= i64::MAX
        &&& i64::MIN <= i0 && i1 <= i64::MAX
        &&& lattice_box_ok(r0, r1 - r0 + 1, i0, i1 - i0 + 1, delta)
        &&& (r0 <= r1 && i0 <= i1) ==> (r1 - r0 + 1) * (i1 - i0 + 1) <= usize::MAX
    }
}

/// `v` holds `p`, compared field by field.
fn holds_point(v: &Vec<ComplexDyadic>, p: ComplexDyadic) -> (b: bool)
    ensures
        b == v@.contains(p),
{
    let mut k: usize = 0;
    while k < v.len()
        invariant
            k <= v@.len(),
            forall|t: int| 0 <= t < k ==> v@[t] != p,
        decreases v@.len() - k,
    {
        let q = v[k];
        if q.re.numerator == p.re.numerator && q.re.exponent == p.re.exponent && q.im.numerator
            == p.im.numerator && q.im.exponent == p.im.exponent {
            assert(v@[k as int] == p);
            return true;
        }
        k = k + 1;
    }
    false
}

/// The complement of a grid in the lattice `delta Z^2`, on the box from one
/// cell below its lowest to one cell above its highest parts.
pub fn grid_complement(grid: &Vec<ComplexDyadic>, delta: Dyadic) -> (r: Vec<ComplexDyadic>)
    requires
        complement_input_ok(grid@, delta),
    ensures
        r@ == grid_complement_spec(grid@, delta),
{
    let ghost v = grid@;
    let ext = extreme_points(grid);
    let e = ext.unwrap();
    proof {
        let (a, b, c, d) = choose|a: int, b: int, c: int, d: int|
            #![trigger first_lowest_re(v, a), first_highest_re(v, b), first_lowest_im(v, c), first_highest_im(v, d)]
            {
                &&& first_lowest_re(v, a) && e@[0] == v[a]
                &&& first_highest_re(v, b) && e@[1] == v[b]
                &&& first_lowest_im(v, c) && e@[2] == v[c]
                &&& first_highest_im(v, d) && e@[3] == v[d]
            };
        lemma_extremes_chosen(v, a, b, c, d);
    }
    if delta.numerator == 0 {
        let z = ComplexDyadic::new(Dyadic::zero(), Dyadic::zero());
        let mut out: Vec<ComplexDyadic> = Vec::new();
        if !holds_point(grid, z) {
            out.push(z);
        }
        return out;
    }
    let (lo_re, _) = floor_ceil_ratio(e[0].re, delta);
    let (_, hi_re) = floor_ceil_ratio(e[1].re, delta);
    let (lo_im, _) = floor_ceil_ratio(e[2].im, delta);
    let (_, hi_im) = floor_ceil_ratio(e[3].im, delta);
    let r_start = lo_re - 1;
    let r_end = hi_re + 1;
    let i_start = lo_im - 1;
    let i_end = hi_im + 1;
    let mut out: Vec<ComplexDyadic> = Vec::new();
    if r_end < r_start || i_end < i_start {
        return out;
    }
    let ghost (gr0, gr1, gi0, gi1) = complement_box(v, delta);
    proof {
        assert(gr0 == r_start && gr1 == r_end && gi0 == i_start && gi1 == i_end);
        assert((r_end - r_start + 1) * (i_end - i_start + 1) <= usize::MAX);
        assert(r_end - r_start + 1 <= usize::MAX && i_end - i_start + 1 <= usize::MAX) by (nonlinear_arith)
            requires
                (r_end - r_start + 1) * (i_end - i_start + 1) <= usize::MAX,
                r_end - r_start + 1 >= 1,
                i_end - i_start + 1 >= 1,
        ;
    }
    let nr = (r_end - r_start + 1) as usize;
    let ni = (i_end - i_start + 1) as usize;
    let total = nr * ni;
    let mut k: usize = 0;
    while k < total
        invariant
            k <= total,
            total == nr * ni,
            nr == r_end - r_start + 1,
            ni == i_end - i_start + 1,
            ni > 0,
            v == grid@,
            delta.numerator != 0,
            r_start == gr0,
            i_start == gi0,
            i64::MIN <= r_start,
            i64::MIN <= i_start,
            r_end <= i64::MAX,
            i_end <= i64::MAX,
            lattice_box_ok(r_start as int, nr as int, i_start as int, ni as int, delta),
            out@ == complement_points(v, delta, r_start as int, i_start as int, ni as int, k as int),
        decreases total - k,
    {
        proof {
            lemma_cell_in_box(ni as int, nr as int, k as int);
        }
        let dr: i128 = r_start + (k / ni) as i128;
        let di: i128 = i_start + (k % ni) as i128;
        proof {
            assert(coord_ok(dr as int, delta));
            assert(coord_ok(di as int, delta));
        }
        let p = ComplexDyadic::new(Dyadic::new(dr, 0) * delta, Dyadic::new(di, 0) * delta);
        if !holds_point(grid, p) {
            out.push(p);
        }
        k = k + 1;
    }
    out
}


/// The lattice point of cell `c` of the box with first column `r0`, first row `i0` and `ni` rows.
pub open spec fn box_point(r0: int, i0: int, ni: int, c: int, delta: Dyadic) -> ComplexDyadic {
    grid_point(r0 + c / ni, i0 + c % ni, delta)
}

/// Among the first `k` cells, none listed is in `v`, every cell is in `v`
/// or listed, and each listed point is the point of a cell before `k`.
proof fn lemma_complement_points(v: Seq<ComplexDyadic>, delta: Dyadic, r0: int, i0: int, ni: int, k: int)
    ensures
        forall|t: int|
            0 <= t < complement_points(v, delta, r0, i0, ni, k).len() ==> !v.contains(
                #[trigger] complement_points(v, delta, r0, i0, ni, k)[t],
            ),
        forall|c: int|
            0 <= c < k ==> v.contains(#[trigger] box_point(r0, i0, ni, c, delta)) || complement_points(
                v,
                delta,
                r0,
                i0,
                ni,
                k,
            ).contains(box_point(r0, i0, ni, c, delta)),
    decreases k,
{
    if k > 0 {
        lemma_complement_points(v, delta, r0, i0, ni, k - 1);
        let prev = complement_points(v, delta, r0, i0, ni, k - 1);
        let cp = complement_points(v, delta, r0, i0, ni, k);
        let p = box_point(r0, i0, ni, k - 1, delta);
        assert forall|c: int| 0 <= c < k implies v.contains(#[trigger] box_point(r0, i0, ni, c, delta))
            || cp.contains(box_point(r0, i0, ni, c, delta)) by {
            let q = box_point(r0, i0, ni, c, delta);
            if c < k - 1 && !v.contains(q) {
                assert(prev.contains(q));
                let t = choose|t: int| 0 <= t < prev.len() && prev[t] == q;
                assert(cp[t] == q);
            }
            if c == k - 1 && !v.contains(q) {
                assert(cp[cp.len() - 1] == q);
            }
        }
    }
}

/// Each listed complement point is the point of a cell before `k`, the
/// last listed one of the last cell if that cell is listed.
proof fn lemma_complement_from_cell(v: Seq<ComplexDyadic>, delta: Dyadic, r0: int, i0: int, ni: int, k: int, t: int) -> (c: int)
    requires
        0 <= t < complement_points(v, delta, r0, i0, ni, k).len(),
    ensures
        0 <= c < k,
        c == k - 1 ==> t == complement_points(v, delta, r0, i0, ni, k).len() - 1,
        complement_points(v, delta, r0, i0, ni, k)[t] == box_point(r0, i0, ni, c, delta),
    decreases k,
{
    let prev = complement_points(v, delta, r0, i0, ni, k - 1);
    if t < prev.len() {
        lemma_complement_from_cell(v, delta, r0, i0, ni, k - 1, t)
    } else {
        k - 1
    }
}

/// Distinct cells of a box whose products fit have distinct points.
proof fn lemma_box_cells_distinct(r0: int, nr: int, i0: int, ni: int, c1: int, c2: int, delta: Dyadic)
    requires
        ni > 0,
        0 <= c1 < nr * ni,
        0 <= c2 < nr * ni,
        c1 != c2,
        lattice_box_ok(r0, nr, i0, ni, delta),
        i64::MIN <= r0,
        i64::MIN <= i0,
        r0 + nr <= i64::MAX + 1,
        i0 + ni <= i64::MAX + 1,
        delta.numerator != 0,
    ensures
        box_point(r0, i0, ni, c1, delta) != box_point(r0, i0, ni, c2, delta),
{
    vstd::arithmetic::mul::lemma_mul_is_commutative(nr, ni);
    lemma_cell_in_box(ni, nr, c1);
    lemma_cell_in_box(ni, nr, c2);
    let (a1, b1, a2, b2) = (r0 + c1 / ni, i0 + c1 % ni, r0 + c2 / ni, i0 + c2 % ni);
    assert(coord_ok(a1, delta) && coord_ok(a2, delta));
    assert(coord_ok(b1, delta) && coord_ok(b2, delta));
    if a1 != a2 {
        lemma_coord_injective(a1, a2, delta);
    } else if b1 != b2 {
        lemma_coord_injective(b1, b2, delta);
    } else {
        lemma_cell_unique(ni, c1, c1 % ni, c1 / ni);
        lemma_cell_unique(ni, c2, c2 % ni, c2 / ni);
    }
}

/// No complement point is listed twice.
proof fn lemma_complement_distinct(v: Seq<ComplexDyadic>, delta: Dyadic, r0: int, nr: int, i0: int, ni: int, k: int)
    requires
        ni > 0,
        k <= nr * ni,
        lattice_box_ok(r0, nr, i0, ni, delta),
        i64::MIN <= r0,
        i64::MIN <= i0,
        r0 + nr <= i64::MAX + 1,
        i0 + ni <= i64::MAX + 1,
        delta.numerator != 0,
    ensures
        forall|a: int, b: int|
            0 <= a < b < complement_points(v, delta, r0, i0, ni, k).len() ==> complement_points(
                v,
                delta,
                r0,
                i0,
                ni,
                k,
            )[a] != complement_points(v, delta, r0, i0, ni, k)[b],
    decreases k,
{
    if k > 0 {
        lemma_complement_distinct(v, delta, r0, nr, i0, ni, k - 1);
        let cp = complement_points(v, delta, r0, i0, ni, k);
        let prev = complement_points(v, delta, r0, i0, ni, k - 1);
        assert forall|a: int, b: int| 0 <= a < b < cp.len() implies cp[a] != cp[b] by {
            if b == cp.len() - 1 && cp.len() > prev.len() {
                let ca = lemma_complement_from_cell(v, delta, r0, i0, ni, k - 1, a);
                lemma_box_cells_distinct(r0, nr, i0, ni, ca, k - 1, delta);
            } else {
                assert(cp[a] == prev[a] && cp[b] == prev[b]);
            }
        }
    }
}

/// The complement of a grid shares no point with the grid, holds every
/// lattice point of its box that the grid lacks, and holds each point once.
pub proof fn law_grid_complement(v: Seq<ComplexDyadic>, delta: Dyadic)
    requires
        complement_input_ok(v, delta),
    ensures
        forall|t: int|
            0 <= t < grid_complement_spec(v, delta).len() ==> !v.contains(
                #[trigger] grid_complement_spec(v, delta)[t],
            ),
        forall|a: int, b: int|
            0 <= a < b < grid_complement_spec(v, delta).len() ==> grid_complement_spec(v, delta)[a]
                != grid_complement_spec(v, delta)[b],
        delta.numerator != 0 ==> forall|i: int, j: int|
            complement_box(v, delta).0 <= i <= complement_box(v, delta).1 && complement_box(v, delta).2
                <= j <= complement_box(v, delta).3 ==> v.contains(#[trigger] grid_point(i, j, delta))
                || grid_complement_spec(v, delta).contains(grid_point(i, j, delta)),
{
    let (r0, r1, i0, i1) = complement_box(v, delta);
    if delta.numerator != 0 && r0 <= r1 && i0 <= i1 {
        let ni = i1 - i0 + 1;
        let nr = r1 - r0 + 1;
        lemma_complement_points(v, delta, r0, i0, ni, nr * ni);
        lemma_complement_distinct(v, delta, r0, nr, i0, ni, nr * ni);
        assert forall|i: int, j: int| r0 <= i <= r1 && i0 <= j <= i1 implies v.contains(
            #[trigger] grid_point(i, j, delta),
        ) || grid_complement_spec(v, delta).contains(grid_point(i, j, delta)) by {
            let c = (i - r0) * ni + (j - i0);
            lemma_cell_index(ni, j - i0, i - r0);
            assert(c < nr * ni) by (nonlinear_arith)
                requires
                    c == (i - r0) * ni + (j - i0),
                    0 <= i - r0 < nr,
                    0 <= j - i0 < ni,
            ;
            assert(box_point(r0, i0, ni, c, delta) == grid_point(i, j, delta));
        }
    }
}


/// The outermost rows and columns of a covering grid are complement: every
/// cell within `eps` of a point lies at least one cell inside the border.
pub proof fn law_bitmap_border_is_complement(g: GridBitmap, points: Seq<ComplexDyadic>, eps: Dyadic, delta: Dyadic)
    requires
        grid_input_ok(points, eps, delta),
        is_covering_bitmap(g, points, eps, delta),
    ensures
        forall|c: int|
            0 <= c < g.data@.len() && (cell_i(g, c) == g.origin_i || cell_i(g, c) == g.origin_i + g.width - 1
                || cell_j(g, c) == g.origin_j || cell_j(g, c) == g.origin_j + g.height - 1) ==> #[trigger] g.data@[c]
                == 0,
{
    let n = points.len() as int;
    lemma_grid_input(points, eps, delta);
    let l = finest_exponent(points, n, eps, delta);
    assert forall|c: int|
        0 <= c < g.data@.len() && (cell_i(g, c) == g.origin_i || cell_i(g, c) == g.origin_i + g.width - 1
            || cell_j(g, c) == g.origin_j || cell_j(g, c) == g.origin_j + g.height - 1) implies #[trigger] g.data@[c]
            == 0 by {
        let i = cell_i(g, c);
        let j = cell_j(g, c);
        if covered(points, n, i, j, eps, delta) {
            let k = choose|k: int| 0 <= k < n && #[trigger] covers(points[k], i, j, eps, delta);
            let z = points[k];
            assert(small_at(z.re, l) && small_at(z.im, l));
            lemma_covers_scaled(z, i, j, eps, delta, l);
            lemma_indices_scaled(z.re, eps, delta, l);
            lemma_indices_scaled(z.im, eps, delta, l);
            lemma_window(
                z.re.at(l),
                z.im.at(l),
                delta.at(l),
                eps.at(l),
                index_of(z, delta, false),
                index_of(z, delta, true),
                i,
                j,
            );
            lemma_index_bounds(points, n, delta, k);
        }
    }
}

} // verus!
