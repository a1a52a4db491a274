//! The lattice step of the sampled domain for a covering grid of accuracy `eps`.
use crate::arith::{ilog2, ilog2_u128, lemma_ilog2_bounds, lemma_p2_adds, lemma_p2_basics, mag, p2};
use crate::dyadic::{dyadic_zero, Dyadic};
use crate::dyadic_laws::lemma_below_iff;
use vstd::prelude::*;

verus! {

/// The power of two `2^k`, written `1 * 2^k`.
pub open spec fn pow2_dyadic(k: int) -> Dyadic {
    Dyadic { numerator: 1, exponent: k as i32 }
}

/// The largest power of two strictly below `eps > 0` is `2^-n`; the result is
/// `(-n - 1, 2^-n)`, the exponent one finer than that step and the step.
pub fn minimal_pow2_step_below(eps: Dyadic) -> (r: (i32, Dyadic))
    requires
        dyadic_zero().below(eps),
        i32::MIN + 2 <= eps.exponent + ilog2(mag(eps.numerator as int)) < i32::MAX,
    ensures
        r.1 == pow2_dyadic(r.1.exponent as int),
        r.0 == r.1.exponent - 1,
        r.1.below(eps),
        !pow2_dyadic(r.1.exponent + 1).below(eps),
{
    proof {
        lemma_below_iff(dyadic_zero(), eps);
        lemma_p2_basics(eps.exponent - i32::MIN);
        assert(eps.numerator > 0) by (nonlinear_arith)
            requires
                0 < eps.numerator * p2(eps.exponent - i32::MIN),
                p2(eps.exponent - i32::MIN) > 0,
        ;
    }
    let lg = ilog2_u128(eps.numerator as u128) as i32;
    // -n is floor(log2 eps)
    let mut n: i32 = -(eps.exponent + lg);
    let mut step = Dyadic::new(1, -n);
    let ghost num = eps.numerator as int;
    let ghost l = lg as int;
    let ghost c = p2(eps.exponent - i32::MIN);
    proof {
        lemma_ilog2_bounds(num as nat);
        lemma_p2_basics(l);
        lemma_p2_adds(l, eps.exponent - i32::MIN);
        lemma_p2_adds(l + 1, eps.exponent - i32::MIN);
        lemma_below_iff(step, eps);
        lemma_below_iff(pow2_dyadic(-n + 1), eps);
        assert(step.val() == p2(l) * c);
        assert(pow2_dyadic(-n + 1).val() == p2(l + 1) * c);
        assert(eps.val() == num * c);
        assert(p2(l) * c <= num * c && num * c < p2(l + 1) * c) by (nonlinear_arith)
            requires
                p2(l) <= num < p2(l + 1),
                c > 0,
        ;
    }
    if step >= eps {
        proof {
            let k = eps.exponent + l - 1 - i32::MIN;
            lemma_p2_basics(k);
            assert(p2(k + 1) == p2(l) * c);
        }
        n = n + 1;
        step = Dyadic::new(1, -n);
        proof {
            lemma_below_iff(step, eps);
            lemma_below_iff(pow2_dyadic(-n + 1), eps);
        }
    }
    (-n - 1, step)
}

} // verus!
