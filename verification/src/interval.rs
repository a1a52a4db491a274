//! Axis-parallel rectangles with dyadic corners, and their subdivision by words.
use crate::complex::ComplexDyadic;
use crate::arith::p2;
use crate::dyadic::{dyadic_half, Dyadic};
use vstd::prelude::*;

verus! {

/// `[x_lower, x_upper] x [y_lower, y_upper]`, or the empty set.
#[derive(Debug, Clone, Copy)]
pub enum Interval {
    Empty,
    Bounded(Dyadic, Dyadic, Dyadic, Dyadic),
}

/// The rectangle `Interval::new` builds: empty when a lower bound exceeds its upper bound.
pub open spec fn rect(x_lower: Dyadic, x_upper: Dyadic, y_lower: Dyadic, y_upper: Dyadic) -> Interval {
    if x_upper.below(x_lower) || y_upper.below(y_lower) {
        Interval::Empty
    } else {
        Interval::Bounded(x_lower, x_upper, y_lower, y_upper)
    }
}

/// `(lo + hi) / 2`, exactly, in reduced form.
pub open spec fn mid(lo: Dyadic, hi: Dyadic) -> Dyadic {
    lo.sum(hi).product(dyadic_half())
}

/// `(lo + hi) / 2` can be computed within `i128`/`i32`.
pub open spec fn mid_ok(lo: Dyadic, hi: Dyadic) -> bool {
    lo.add_ok(hi) && lo.sum(hi).mul_ok(dyadic_half())
}

impl Interval {
    /// The centre can be computed.
    pub open spec fn midpoint_ok(self) -> bool {
        match self {
            Interval::Empty => true,
            Interval::Bounded(xl, xu, yl, yu) => mid_ok(xl, xu) && mid_ok(yl, yu),
        }
    }

    /// The quarter of the rectangle that the letter `n` selects: 1 lower left,
    /// 2 lower right, 3 upper left, 4 upper right; any other letter, and the
    /// empty set, give the empty set.
    pub open spec fn quarter(self, n: u8) -> Interval {
        match self {
            Interval::Empty => Interval::Empty,
            Interval::Bounded(xl, xu, yl, yu) => {
                let xm = mid(xl, xu);
                let ym = mid(yl, yu);
                if n == 1 {
                    rect(xl, xm, yl, ym)
                } else if n == 2 {
                    rect(xm, xu, yl, ym)
                } else if n == 3 {
                    rect(xl, xm, ym, yu)
                } else if n == 4 {
                    rect(xm, xu, ym, yu)
                } else {
                    Interval::Empty
                }
            },
        }
    }

    /// The rectangle left after subdividing by every letter of `word` in turn.
    pub open spec fn subdivided(self, word: Seq<u8>) -> Interval
        decreases word.len(),
    {
        if word.len() == 0 {
            self
        } else {
            self.quarter(word[0]).subdivided(word.drop_first())
        }
    }

    /// Every subdivision of `subdivided` can be computed.
    pub open spec fn subdivision_ok(self, word: Seq<u8>) -> bool
        decreases word.len(),
    {
        if word.len() == 0 {
            true
        } else {
            self.midpoint_ok() && self.quarter(word[0]).subdivision_ok(word.drop_first())
        }
    }
}

impl Interval {
    /// The rectangle with the given bounds, or `Empty` when a lower bound is
    /// greater than its upper bound.
    pub fn new(x_lower: Dyadic, x_upper: Dyadic, y_lower: Dyadic, y_upper: Dyadic) -> (r: Interval)
        ensures
            r == rect(x_lower, x_upper, y_lower, y_upper),
    {
        if x_lower > x_upper || y_lower > y_upper {
            Interval::Empty
        } else {
            Interval::Bounded(x_lower, x_upper, y_lower, y_upper)
        }
    }

    /// The centre of the rectangle, `None` for the empty set.
    pub fn midpoint(&self) -> (r: Option<ComplexDyadic>)
        requires
            self.midpoint_ok(),
        ensures
            r == match *self {
                Interval::Empty => None,
                Interval::Bounded(xl, xu, yl, yu) => Some(ComplexDyadic { re: mid(xl, xu), im: mid(yl, yu) }),
            },
    {
        match self {
            Interval::Empty => None,
            Interval::Bounded(x_lower, x_upper, y_lower, y_upper) => Some(
                ComplexDyadic::new(
                    (*x_lower + *x_upper) * Dyadic::new(1, -1),
                    (*y_lower + *y_upper) * Dyadic::new(1, -1),
                ),
            ),
        }
    }
}

/// The quarter of `rect` that the letter `n` selects (see `Interval::quarter`).
pub fn split(rect: Interval, n: u8) -> (r: Interval)
    requires
        rect.midpoint_ok(),
    ensures
        r == rect.quarter(n),
{
    match rect {
        Interval::Empty => Interval::Empty,
        Interval::Bounded(x_lower, x_upper, y_lower, y_upper) => {
            let x_mid = (x_lower + x_upper) * Dyadic::new(1, -1);
            let y_mid = (y_lower + y_upper) * Dyadic::new(1, -1);
            match n {
                1 => Interval::new(x_lower, x_mid, y_lower, y_mid),
                2 => Interval::new(x_mid, x_upper, y_lower, y_mid),
                3 => Interval::new(x_lower, x_mid, y_mid, y_upper),
                4 => Interval::new(x_mid, x_upper, y_mid, y_upper),
                _ => Interval::Empty,
            }
        },
    }
}

/// Subdivides `int1` by every letter of `word`, first letter first.
pub fn psi(int1: Interval, word: &[u8]) -> (r: Interval)
    requires
        int1.subdivision_ok(word@),
    ensures
        r == int1.subdivided(word@),
{
    let mut cur = int1;
    let mut i: usize = 0;
    proof {
        assert(word@.skip(0) =~= word@);
    }
    while i < word.len()
        invariant
            i <= word@.len(),
            cur.subdivided(word@.skip(i as int)) == int1.subdivided(word@),
            cur.subdivision_ok(word@.skip(i as int)),
        decreases word@.len() - i,
    {
        proof {
            let rest = word@.skip(i as int);
            assert(rest[0] == word@[i as int]);
            assert(rest.drop_first() =~= word@.skip(i + 1));
        }
        cur = split(cur, word[i]);
        i = i + 1;
    }
    proof {
        assert(word@.skip(i as int).len() == 0);
    }
    cur
}


/// `inner` is a non-empty rectangle inside the non-empty rectangle `outer`,
/// comparing the values of the bounds.
pub open spec fn within(inner: Interval, outer: Interval) -> bool {
    match (inner, outer) {
        (Interval::Bounded(a, b, c, d), Interval::Bounded(oa, ob, oc, od)) => {
            &&& oa.val() <= a.val() <= b.val() <= ob.val()
            &&& oc.val() <= c.val() <= d.val() <= od.val()
        },
        _ => false,
    }
}

/// The midpoint of `lo <= hi` lies between them.
proof fn lemma_mid_between(lo: Dyadic, hi: Dyadic)
    requires
        mid_ok(lo, hi),
        lo.val() <= hi.val(),
    ensures
        lo.val() <= mid(lo, hi).val() <= hi.val(),
{
    lemma_mid_val(lo, hi);
}

/// Twice the midpoint is the sum of the ends.
proof fn lemma_mid_val(lo: Dyadic, hi: Dyadic)
    requires
        mid_ok(lo, hi),
    ensures
        2 * mid(lo, hi).val() == lo.val() + hi.val(),
{
    crate::dyadic_laws::lemma_sum_val(lo, hi);
    crate::dyadic_laws::lemma_product_val(lo.sum(hi), dyadic_half());
    crate::arith::lemma_p2_basics(-1 - i32::MIN);
    let u = crate::dyadic_laws::unit();
    assert(dyadic_half().val() * 2 == u) by {
        crate::arith::lemma_p2_basics(-1 - i32::MIN);
    }
    let m = mid(lo, hi).val();
    let s = lo.sum(hi).val();
    assert(2 * m == s) by (nonlinear_arith)
        requires
            m * u == s * dyadic_half().val(),
            dyadic_half().val() * 2 == u,
            u > 0,
    ;
}

/// A rectangle built by `rect` that is not empty has its bounds in order.
proof fn lemma_rect_ordered(xl: Dyadic, xu: Dyadic, yl: Dyadic, yu: Dyadic)
    ensures
        rect(xl, xu, yl, yu) is Bounded ==> xl.val() <= xu.val() && yl.val() <= yu.val(),
{
    crate::dyadic_laws::lemma_below_iff(xu, xl);
    crate::dyadic_laws::lemma_below_iff(yu, yl);
}

/// A quarter of a rectangle that is not empty lies inside it.
proof fn lemma_quarter_within(b: Interval, n: u8)
    requires
        b is Bounded,
        within(b, b),
        b.midpoint_ok(),
    ensures
        b.quarter(n) is Bounded ==> within(b.quarter(n), b),
{
    if let Interval::Bounded(xl, xu, yl, yu) = b {
        lemma_mid_between(xl, xu);
        lemma_mid_between(yl, yu);
        let xm = mid(xl, xu);
        let ym = mid(yl, yu);
        lemma_rect_ordered(xl, xm, yl, ym);
        lemma_rect_ordered(xm, xu, yl, ym);
        lemma_rect_ordered(xl, xm, ym, yu);
        lemma_rect_ordered(xm, xu, ym, yu);
    }
}

/// Subdividing a rectangle that is not empty by a word leaves the empty set
/// or a rectangle inside it.
pub proof fn law_subdivided_within(b: Interval, word: Seq<u8>)
    requires
        b is Bounded,
        within(b, b),
        b.subdivision_ok(word),
    ensures
        b.subdivided(word) is Bounded ==> within(b.subdivided(word), b),
    decreases word.len(),
{
    if word.len() > 0 {
        let q = b.quarter(word[0]);
        lemma_quarter_within(b, word[0]);
        if q is Bounded {
            law_subdivided_within(q, word.drop_first());
        } else {
            lemma_empty_subdivided(word.drop_first());
        }
    }
}

/// The empty set stays empty.
pub proof fn lemma_empty_subdivided(word: Seq<u8>)
    ensures
        Interval::Empty.subdivided(word) is Empty,
    decreases word.len(),
{
    if word.len() > 0 {
        lemma_empty_subdivided(word.drop_first());
    }
}

/// The centre of a rectangle that is not empty lies inside it.
pub proof fn law_midpoint_within(b: Interval)
    requires
        within(b, b),
        b.midpoint_ok(),
    ensures
        match b {
            Interval::Bounded(xl, xu, yl, yu) => {
                &&& xl.val() <= mid(xl, xu).val() <= xu.val()
                &&& yl.val() <= mid(yl, yu).val() <= yu.val()
            },
            Interval::Empty => true,
        },
{
    if let Interval::Bounded(xl, xu, yl, yu) = b {
        lemma_mid_between(xl, xu);
        lemma_mid_between(yl, yu);
    }
}

/// Subdividing by `u` and then by `v` is subdividing by `u` followed by `v`.
pub proof fn law_subdivided_concat(b: Interval, u: Seq<u8>, v: Seq<u8>)
    ensures
        b.subdivided(u + v) == b.subdivided(u).subdivided(v),
    decreases u.len(),
{
    if u.len() > 0 {
        assert((u + v).drop_first() =~= u.drop_first() + v);
        assert((u + v)[0] == u[0]);
        law_subdivided_concat(b.quarter(u[0]), u.drop_first(), v);
    } else {
        assert(u + v =~= v);
    }
}

/// Each letter 1 to 4 keeps a rectangle that is not empty and halves both its sides.
proof fn lemma_quarter_halves(b: Interval, n: u8)
    requires
        within(b, b),
        b.midpoint_ok(),
        1 <= n <= 4,
    ensures
        within(b.quarter(n), b.quarter(n)),
        match (b, b.quarter(n)) {
            (Interval::Bounded(xl, xu, yl, yu), Interval::Bounded(a, bb, c, d)) => {
                &&& 2 * (bb.val() - a.val()) == xu.val() - xl.val()
                &&& 2 * (d.val() - c.val()) == yu.val() - yl.val()
            },
            _ => false,
        },
{
    if let Interval::Bounded(xl, xu, yl, yu) = b {
        lemma_mid_between(xl, xu);
        lemma_mid_between(yl, yu);
        lemma_mid_val(xl, xu);
        lemma_mid_val(yl, yu);
        let xm = mid(xl, xu);
        let ym = mid(yl, yu);
        crate::dyadic_laws::lemma_below_iff(xm, xl);
        crate::dyadic_laws::lemma_below_iff(xu, xm);
        crate::dyadic_laws::lemma_below_iff(ym, yl);
        crate::dyadic_laws::lemma_below_iff(yu, ym);
    }
}

/// Subdividing a rectangle that is not empty by a word of `k` letters from
/// 1 to 4 leaves a rectangle whose sides are those of the first divided by `2^k`.
pub proof fn law_subdivided_halves(b: Interval, word: Seq<u8>)
    requires
        within(b, b),
        b.subdivision_ok(word),
        forall|i: int| 0 <= i < word.len() ==> 1 <= #[trigger] word[i] <= 4,
    ensures
        within(b.subdivided(word), b.subdivided(word)),
        match (b, b.subdivided(word)) {
            (Interval::Bounded(xl, xu, yl, yu), Interval::Bounded(a, bb, c, d)) => {
                &&& p2(word.len() as int) * (bb.val() - a.val()) == xu.val() - xl.val()
                &&& p2(word.len() as int) * (d.val() - c.val()) == yu.val() - yl.val()
            },
            _ => false,
        },
    decreases word.len(),
{
    crate::arith::lemma_p2_basics(0);
    if word.len() > 0 {
        let q = b.quarter(word[0]);
        let rest = word.drop_first();
        lemma_quarter_halves(b, word[0]);
        assert forall|i: int| 0 <= i < rest.len() implies 1 <= #[trigger] rest[i] <= 4 by {
            assert(rest[i] == word[i + 1]);
        }
        law_subdivided_halves(q, rest);
        crate::arith::lemma_p2_basics(rest.len() as int);
        if let (Interval::Bounded(xl, xu, yl, yu), Interval::Bounded(a, bb, c, d)) = (q, q.subdivided(rest)) {
            let k = p2(rest.len() as int);
            assert(p2(word.len() as int) == 2 * k);
            assert(2 * k * (bb.val() - a.val()) == 2 * (k * (bb.val() - a.val()))) by (nonlinear_arith);
            assert(2 * k * (d.val() - c.val()) == 2 * (k * (d.val() - c.val()))) by (nonlinear_arith);
        }
    }
}

} // verus!
