//! Dyadic rationals `numerator * 2^exponent` with exact arithmetic.
use crate::arith::{
    div_round, fits_i128, fits_i32, ilog2, ilog2_u128, ipow, pow_i128, lemma_mag_shift, lemma_p2_adds, lemma_p2_basics,
    lemma_round_half_away_scale, mag, magnitude, p2, round_half_away, round_half_even, sgn, shl,
    sign_of_shifted_diff, trailing_zeros,
};
use vstd::arithmetic::mul::{lemma_mul_is_associative, lemma_mul_is_commutative};
use core::cmp::Ordering;
use vstd::prelude::*;

verus! {

/// A dyadic rational `numerator * 2^exponent`.
#[derive(Debug, Clone, Copy, Hash)]
pub struct Dyadic {
    pub numerator: i128,
    pub exponent: i32,
}

/// Zero, written `0 * 2^0`.
pub open spec fn dyadic_zero() -> Dyadic {
    Dyadic { numerator: 0, exponent: 0 }
}

/// One half, written `1 * 2^-1`.
pub open spec fn dyadic_half() -> Dyadic {
    Dyadic { numerator: 1, exponent: -1i32 }
}

/// One, written `1 * 2^0`.
pub open spec fn dyadic_one() -> Dyadic {
    Dyadic { numerator: 1, exponent: 0 }
}

/// `n * 2^e` can be brought to reduced form without the exponent leaving `i32`.
pub open spec fn reducible(n: int, e: int) -> bool {
    n == 0 || e + trailing_zeros(n) <= i32::MAX
}

/// The reduced form of `n * 2^e`: every factor of two of the numerator moved
/// into the exponent, and zero written as `0 * 2^0`.
pub open spec fn reduced(n: int, e: int) -> Dyadic
    decreases mag(n),
{
    if n == 0 {
        Dyadic { numerator: 0, exponent: 0 }
    } else if n % 2 == 0 {
        reduced(n / 2, e + 1)
    } else {
        Dyadic { numerator: n as i128, exponent: e as i32 }
    }
}

impl Dyadic {
    /// The numerator of this number written over `2^m`, for `m <= self.exponent`.
    pub open spec fn at(self, m: int) -> int {
        self.numerator * p2(self.exponent - m)
    }

    /// The exact value, in units of `2^i32::MIN`, the finest step any `Dyadic` has.
    pub open spec fn val(self) -> int {
        self.at(i32::MIN as int)
    }

    /// The smaller of the two exponents: both numbers are whole multiples of `2^m`.
    pub open spec fn common_exp(self, other: Dyadic) -> int {
        if self.exponent <= other.exponent {
            self.exponent as int
        } else {
            other.exponent as int
        }
    }

    /// The numerator is odd, or the number is zero written as `0 * 2^0`.
    pub open spec fn is_reduced(self) -> bool {
        self.numerator % 2 != 0 || (self.numerator == 0 && self.exponent == 0)
    }

    /// The two numbers are equal as rationals.
    pub open spec fn same_value(self, other: Dyadic) -> bool {
        let m = self.common_exp(other);
        self.at(m) == other.at(m)
    }

    /// `self < other` as numbers.
    pub open spec fn below(self, other: Dyadic) -> bool {
        let m = self.common_exp(other);
        self.at(m) < other.at(m)
    }

    /// Reduced form of the exact sum.
    pub open spec fn sum(self, other: Dyadic) -> Dyadic {
        let m = self.common_exp(other);
        reduced(self.at(m) + other.at(m), m)
    }

    /// Reduced form of the exact difference.
    pub open spec fn difference(self, other: Dyadic) -> Dyadic {
        let m = self.common_exp(other);
        reduced(self.at(m) - other.at(m), m)
    }

    /// `self / denom` as `div_with_precision` gives it: the quotient of the
    /// numerators scaled by `2^bits`, rounded to the nearest integer (ties to
    /// even), over `2^(exponent - denom.exponent - bits)`, in reduced form.
    pub open spec fn rounded_quotient(self, denom: Dyadic, bits: u32) -> Dyadic {
        reduced(
            round_half_even(self.numerator * p2(bits as int), denom.numerator as int),
            self.exponent - denom.exponent - bits,
        )
    }

    /// Reduced form of the exact product.
    pub open spec fn product(self, other: Dyadic) -> Dyadic {
        reduced(self.numerator * other.numerator, self.exponent + other.exponent)
    }

    /// Aligning the two numbers on the smaller exponent and adding them stays
    /// within `i128`/`i32`, as does reducing the sum.
    pub open spec fn add_ok(self, other: Dyadic) -> bool {
        let m = self.common_exp(other);
        if other.numerator == 0 {
            reducible(self.numerator as int, self.exponent as int)
        } else if self.numerator == 0 {
            reducible(other.numerator as int, other.exponent as int)
        } else {
            &&& fits_i32(self.exponent - other.exponent)
            &&& mag(self.exponent - other.exponent) < 128
            &&& fits_i128(self.at(m))
            &&& fits_i128(other.at(m))
            &&& fits_i128(self.at(m) + other.at(m))
            &&& reducible(self.at(m) + other.at(m), m)
        }
    }

    /// Like `add_ok`, for the difference (the subtrahend is negated).
    pub open spec fn sub_ok(self, other: Dyadic) -> bool {
        let m = self.common_exp(other);
        if other.numerator == 0 {
            reducible(self.numerator as int, self.exponent as int)
        } else if self.numerator == 0 {
            &&& other.numerator != i128::MIN
            &&& reducible(-other.numerator, other.exponent as int)
        } else {
            &&& fits_i32(self.exponent - other.exponent)
            &&& mag(self.exponent - other.exponent) < 128
            &&& fits_i128(self.at(m))
            &&& fits_i128(other.at(m))
            &&& fits_i128(-other.at(m))
            &&& fits_i128(self.at(m) - other.at(m))
            &&& reducible(self.at(m) - other.at(m), m)
        }
    }

    /// The scaled numerator, the rounded quotient and the result exponent of
    /// `div_with_precision` stay within `i128`/`i32`.
    pub open spec fn div_with_precision_ok(self, denom: Dyadic, bits: u32) -> bool {
        let q = round_half_even(self.numerator * p2(bits as int), denom.numerator as int);
        &&& denom.numerator != 0
        &&& bits < 128
        &&& fits_i128(self.numerator * p2(bits as int))
        &&& fits_i32(self.exponent - denom.exponent)
        &&& fits_i32(self.exponent - denom.exponent - bits)
        &&& fits_i128(q)
        &&& reducible(q, self.exponent - denom.exponent - bits)
    }

    /// `self / other` rounded to the nearest multiple of `2^-30`, ties away from zero.
    pub open spec fn quotient(self, other: Dyadic) -> Dyadic {
        let m = self.common_exp(other);
        reduced(round_half_away(self.at(m) * p2(30), other.at(m)), -30)
    }

    /// The operands of the division, aligned for a result over `2^-30`, and
    /// the rounded quotient fit.
    pub open spec fn div_ok(self, other: Dyadic) -> bool {
        let k = self.exponent - other.exponent + 30;
        let m = self.common_exp(other);
        let q = round_half_away(self.at(m) * p2(30), other.at(m));
        &&& other.numerator != 0
        &&& (k >= 0 ==> k < 128 && fits_i128(self.numerator * p2(k)))
        &&& fits_i128(q)
        &&& reducible(q, -30)
    }

    /// The power's numerator and exponent stay within `i128`/`i32`; a negative
    /// power needs a non-zero numerator whose magnitude fits.
    pub open spec fn powi_ok(self, power: i32) -> bool {
        let n = self.numerator as int;
        let e = self.exponent as int;
        let p = power as int;
        &&& p > 0 ==> fits_i128(ipow(n, p as nat)) && fits_i32(e * p)
        &&& p < 0 ==> {
            &&& n != 0
            &&& n != i128::MIN
            &&& p != i32::MIN
            &&& fits_i32(e * p)
            &&& fits_i32(ilog2(mag(n)) * (-p))
            &&& fits_i32(e * p - ilog2(mag(n)) * (-p))
        }
    }

    /// The product of the numerators and the sum of the exponents fit, and
    /// the product can be reduced.
    pub open spec fn mul_ok(self, other: Dyadic) -> bool {
        &&& fits_i128(self.numerator * other.numerator)
        &&& fits_i32(self.exponent + other.exponent)
        &&& reducible(self.numerator * other.numerator, self.exponent + other.exponent)
    }
}

/// One step of reduction: an even non-zero numerator is halved.
proof fn lemma_reduced_step(n: int, e: int)
    requires
        n != 0,
        n % 2 == 0,
    ensures
        reduced(n, e) == reduced(n / 2, e + 1),
        trailing_zeros(n) == 1 + trailing_zeros(n / 2),
        n / 2 != 0,
        mag(n / 2) < mag(n),
{
}

/// Writing a number over a finer exponent does not change its reduced form.
pub proof fn lemma_reduced_rescale(n: int, e: int, k: nat)
    ensures
        reduced(n * p2(k as int), e - k) == reduced(n, e),
    decreases k,
{
    lemma_p2_basics(k as int);
    if k > 0 {
        lemma_p2_basics(k - 1);
        lemma_reduced_rescale(n, e, (k - 1) as nat);
        let m = n * p2(k - 1);
        assert(n * p2(k as int) == 2 * m) by (nonlinear_arith)
            requires
                p2(k as int) == 2 * p2(k - 1),
                m == n * p2(k - 1),
        ;
        if n != 0 {
            assert(m != 0) by (nonlinear_arith)
                requires
                    n != 0,
                    p2(k - 1) > 0,
                    m == n * p2(k - 1),
            ;
            assert((2 * m) % 2 == 0);
            assert((2 * m) / 2 == m);
            lemma_reduced_step(2 * m, e - k);
        } else {
            assert(n * p2(k as int) == 0);
        }
    } else {
        assert(n * p2(0) == n);
    }
}

impl Dyadic {
    /// Over its own exponent a dyadic's numerator is unchanged.
    pub proof fn lemma_at_own_exponent(self)
        ensures
            self.at(self.exponent as int) == self.numerator,
    {
        lemma_p2_basics(0);
        let n = self.numerator as int;
        assert(n * p2(0) == n) by (nonlinear_arith)
            requires
                p2(0) == 1,
        ;
    }

    /// The number `num * 2^exp`, as written (not reduced).
    pub fn new(num: i128, exp: i32) -> (r: Dyadic)
        ensures
            r.numerator == num,
            r.exponent == exp,
    {
        Dyadic { numerator: num, exponent: exp }
    }

    /// Zero, written as `0 * 2^0`.
    pub fn zero() -> (r: Dyadic)
        ensures
            r == dyadic_zero(),
    {
        Dyadic { numerator: 0, exponent: 0 }
    }

    /// The integer `n`, written as `n * 2^0`.
    pub fn from_i64(n: i64) -> (r: Dyadic)
        ensures
            r.numerator == n,
            r.exponent == 0,
    {
        Dyadic { numerator: n as i128, exponent: 0 }
    }

    /// `self / denom`, with `bits` more fractional bits than the exponents of
    /// the operands give: the quotient of the numerators, scaled by `2^bits`, is
    /// rounded to the nearest integer, ties to even.
    pub fn div_with_precision(&self, denom: Dyadic, bits: u32) -> (r: Dyadic)
        requires
            self.div_with_precision_ok(denom, bits),
        ensures
            r == self.rounded_quotient(denom, bits),
    {
        let scaled = shl(self.numerator, bits);
        let div = div_round(scaled, denom.numerator, true);
        let exponent = self.exponent - denom.exponent - (bits as i32);
        Dyadic::new(div, exponent).reduce()
    }

    /// `self^power`. A positive power raises the numerator and multiplies the
    /// exponent; a negative power gives `1 * 2^(exponent*power - ilog2|numerator| * |power|)`,
    /// which is exact when the numerator is a power of two.
    pub fn powi(self, power: i32) -> (r: Dyadic)
        requires
            self.powi_ok(power),
        ensures
            power == 0 ==> r.numerator == 1 && r.exponent == 0,
            power > 0 ==> r.numerator == ipow(self.numerator as int, power as nat) && r.exponent
                == self.exponent * power,
            power < 0 ==> r.numerator == 1 && r.exponent == self.exponent * power - ilog2(
                mag(self.numerator as int),
            ) * (-power),
    {
        if power == 0 {
            return Dyadic::new(1, 0);
        }
        if power > 0 {
            let n = pow_i128(self.numerator, power as u32);
            Dyadic { numerator: n, exponent: self.exponent * power }
        } else {
            let m = magnitude(self.numerator);
            let lg = ilog2_u128(m) as i32;
            Dyadic { numerator: 1, exponent: self.exponent * power - lg * (-power) }
        }
    }

    /// Moves every factor of two of the numerator into the exponent.
    /// Two dyadics with the same value have the same reduced form.
    pub fn reduce(self) -> (r: Dyadic)
        requires
            reducible(self.numerator as int, self.exponent as int),
        ensures
            r == reduced(self.numerator as int, self.exponent as int),
    {
        if self.numerator == 0 {
            return Dyadic::zero();
        }
        let mut n = self.numerator;
        let mut e = self.exponent;
        while n % 2 == 0
            invariant
                n != 0,
                reduced(n as int, e as int) == reduced(self.numerator as int, self.exponent as int),
                e + trailing_zeros(n as int) == self.exponent + trailing_zeros(
                    self.numerator as int,
                ),
                reducible(self.numerator as int, self.exponent as int),
            decreases mag(n as int),
        {
            proof {
                lemma_reduced_step(n as int, e as int);
            }
            n = n / 2;
            e = e + 1;
        }
        Dyadic { numerator: n, exponent: e }
    }
}


impl vstd::std_specs::ops::AddSpecImpl for Dyadic {
    open spec fn obeys_add_spec() -> bool {
        true
    }

    open spec fn add_req(self, rhs: Dyadic) -> bool {
        self.add_ok(rhs)
    }

    open spec fn add_spec(self, rhs: Dyadic) -> Dyadic {
        self.sum(rhs)
    }
}

impl core::ops::Add for Dyadic {
    type Output = Dyadic;

    /// Exact sum, in reduced form.
    fn add(self, other: Dyadic) -> (r: Dyadic) {
        proof {
            lemma_p2_basics(0);
            self.lemma_at_own_exponent();
            other.lemma_at_own_exponent();
        }
        if other.numerator == 0 || self.numerator == 0 {
            let x = if other.numerator == 0 {
                self
            } else {
                other
            };
            proof {
                let m = self.common_exp(other);
                assert(self.at(m) + other.at(m) == x.at(m));
                lemma_reduced_rescale(x.numerator as int, x.exponent as int, (x.exponent - m) as nat);
            }
            return x.reduce();
        }
        let exp_diff = self.exponent - other.exponent;
        if exp_diff > 0 {
            let shifted = shl(self.numerator, exp_diff as u32);
            Dyadic::new(other.numerator + shifted, other.exponent).reduce()
        } else {
            let shifted = shl(other.numerator, (-exp_diff) as u32);
            Dyadic::new(shifted + self.numerator, self.exponent).reduce()
        }
    }
}

impl vstd::std_specs::ops::SubSpecImpl for Dyadic {
    open spec fn obeys_sub_spec() -> bool {
        true
    }

    open spec fn sub_req(self, rhs: Dyadic) -> bool {
        self.sub_ok(rhs)
    }

    open spec fn sub_spec(self, rhs: Dyadic) -> Dyadic {
        self.difference(rhs)
    }
}

impl core::ops::Sub for Dyadic {
    type Output = Dyadic;

    /// Exact difference, in reduced form.
    fn sub(self, other: Dyadic) -> (r: Dyadic) {
        proof {
            lemma_p2_basics(0);
            self.lemma_at_own_exponent();
            other.lemma_at_own_exponent();
        }
        if other.numerator == 0 {
            proof {
                let m = self.common_exp(other);
                assert(self.at(m) - other.at(m) == self.at(m));
                lemma_reduced_rescale(self.numerator as int, self.exponent as int, (self.exponent - m) as nat);
            }
            return self.reduce();
        }
        if self.numerator == 0 {
            proof {
                let m = self.common_exp(other);
                let nn = -other.numerator;
                assert(self.at(m) - other.at(m) == nn * p2(other.exponent - m)) by (nonlinear_arith)
                    requires
                        self.at(m) == 0,
                        other.at(m) == other.numerator * p2(other.exponent - m),
                        nn == -other.numerator,
                ;
                lemma_reduced_rescale(nn, other.exponent as int, (other.exponent - m) as nat);
            }
            return Dyadic::new(-other.numerator, other.exponent).reduce();
        }
        let exp_diff = self.exponent - other.exponent;
        if exp_diff > 0 {
            let shifted = shl(self.numerator, exp_diff as u32);
            Dyadic::new(-other.numerator + shifted, other.exponent).reduce()
        } else {
            let shifted = shl(other.numerator, (-exp_diff) as u32);
            Dyadic::new(-shifted + self.numerator, self.exponent).reduce()
        }
    }
}

/// The numerator of `self / other` over `2^-30`, rounded to nearest with
/// ties away from zero, where it fits in an `i128`; `None` where it does not.
pub fn quotient_numerator(a: Dyadic, b: Dyadic) -> (r: Option<i128>)
    requires
        b.numerator != 0,
        a.exponent - b.exponent + 30 >= 0 ==> a.exponent - b.exponent + 30 < 128 && fits_i128(
            a.numerator * p2(a.exponent - b.exponent + 30),
        ),
    ensures
        ({
            let m = a.common_exp(b);
            let q = round_half_away(a.at(m) * p2(30), b.at(m));
            &&& r is Some <==> fits_i128(q)
            &&& r matches Some(x) ==> x == q
        }),
{
    let k: i64 = a.exponent as i64 - b.exponent as i64 + 30;
    let ghost m = a.common_exp(b);
    let ghost want_n = a.at(m) * p2(30);
    let ghost want_d = b.at(m);
    let mb = magnitude(b.numerator);
    // Whether the denominator, scaled for a result over 2^-30, fits.
    let mut scaled_fits: bool = true;
    let mut limit: u128 = 0;
    if k < 0 {
        if -k < 127 {
            let pk = crate::arith::pow2_u128((-k) as u32);
            proof {
                lemma_p2_basics(-k);
            }
            limit = 0x7fff_ffff_ffff_ffff_ffff_ffff_ffff_ffffu128 / pk;
            scaled_fits = mb <= limit;
        } else {
            scaled_fits = false;
        }
    }
    if !scaled_fits {
        // The scaled denominator exceeds every numerator: the quotient is
        // at most one in magnitude, and one exactly when it is at least a half.
        let s: i64 = -k;
        let ghost dd = b.numerator * p2(s as int);
        let ma = magnitude(a.numerator);
        let half: u128 = if s - 1 >= 128 {
            0
        } else {
            let ph = crate::arith::pow2_u128((s - 1) as u32);
            proof {
                lemma_p2_basics(s - 1);
            }
            ma / ph
        };
        proof {
            let na = a.numerator as int;
            let nb = b.numerator as int;
            let g = b.exponent - a.exponent;
            lemma_p2_basics(s as int);
            lemma_p2_basics(s - 1);
            lemma_mag_shift(nb, s as int);
            assert(p2(s as int) == 2 * p2(s - 1));
            // the scaled denominator is at least 2^127
            if s >= 127 {
                crate::arith::lemma_p2_mono(127, s as int);
                lemma_p2_adds(63, 64);
                vstd::arithmetic::power2::lemma2_to64_rest();
                assert(p2(63) == 0x8000_0000_0000_0000);
                assert(p2(64) == 0x1_0000_0000_0000_0000);
                assert(mb * p2(s as int) >= p2(s as int)) by (nonlinear_arith)
                    requires
                        mb >= 1,
                        p2(s as int) > 0,
                ;
            } else {
                let pk = p2(s as int);
                assert(mb * pk > 0x7fff_ffff_ffff_ffff_ffff_ffff_ffff_ffff) by (nonlinear_arith)
                    requires
                        pk > 0,
                        mb > limit,
                        limit == 0x7fff_ffff_ffff_ffff_ffff_ffff_ffff_ffffint / pk,
                ;
            }
            assert(mag(dd) >= 0x8000_0000_0000_0000_0000_0000_0000_0000);
            assert(mag(dd) == 2 * (mb * p2(s - 1))) by (nonlinear_arith)
                requires
                    mag(dd) == mb * p2(s as int),
                    p2(s as int) == 2 * p2(s - 1),
            ;
            assert(ma == mag(na));
            assert(mag(na) <= 0x8000_0000_0000_0000_0000_0000_0000_0000);
            // half >= mb exactly when twice the numerator reaches the denominator
            if s - 1 >= 128 {
                crate::arith::lemma_p2_mono(128, s - 1);
                lemma_p2_adds(64, 64);
                vstd::arithmetic::power2::lemma2_to64_rest();
                assert(p2(64) == 0x1_0000_0000_0000_0000);
                assert(mb * p2(s - 1) >= p2(s - 1)) by (nonlinear_arith)
                    requires
                        mb >= 1,
                        p2(s - 1) > 0,
                ;
                assert(2 * mag(na) < mag(dd));
            } else {
                let ph = p2(s - 1);
                assert((half >= mb) == (ma >= mb * ph)) by (nonlinear_arith)
                    requires
                        ph > 0,
                        mb >= 1,
                        half == (ma as int) / ph,
                ;
            }
            assert((half >= mb) == (2 * mag(na) >= mag(dd)));
            // the rounding of na quotient at most one in magnitude
            crate::arith::lemma_round_half_away_small(na, dd);
            // and the scaling by the common factor
            assert(a.exponent < b.exponent);
            lemma_p2_adds(s as int, 30);
            lemma_p2_adds(g, 0);
            assert(g == s + 30);
            lemma_mul_is_associative(nb, p2(s as int), p2(30));
            lemma_p2_basics(30);
            lemma_round_half_away_scale(na, dd, p2(30));
            a.lemma_at_own_exponent();
            assert(m == a.exponent);
            assert(want_n == na * p2(30));
            assert(want_d == nb * p2(g));
            assert(want_d == dd * p2(30));
        }
        let q: i128 = if half >= mb {
            if (a.numerator > 0) == (b.numerator > 0) {
                1
            } else {
                -1
            }
        } else {
            0
        };
        return Some(q);
    }
    let (n, d) = if k >= 0 {
        (shl(a.numerator, k as u32), b.numerator)
    } else {
        proof {
            let pk = p2(-k);
            lemma_p2_basics(-k);
            lemma_mag_shift(b.numerator as int, -k);
            assert(mb * pk <= 0x7fff_ffff_ffff_ffff_ffff_ffff_ffff_ffff) by (nonlinear_arith)
                requires
                    pk > 0,
                    mb <= limit,
                    limit == 0x7fff_ffff_ffff_ffff_ffff_ffff_ffff_ffffint / pk,
            ;
        }
        (a.numerator, shl(b.numerator, (-k) as u32))
    };
    proof {
        a.lemma_at_own_exponent();
        b.lemma_at_own_exponent();
        let na = a.numerator as int;
        let nb = b.numerator as int;
        if a.exponent >= b.exponent {
            // m is nb's exponent: no common factor.
            lemma_p2_adds(a.exponent - b.exponent, 30);
            lemma_mul_is_associative(na, p2(a.exponent - b.exponent), p2(30));
        } else {
            let g = b.exponent - a.exponent;
            if k >= 0 {
                // want = (na * 2^k * 2^g, nb * 2^g)
                lemma_p2_adds(k as int, g);
                lemma_mul_is_associative(na, p2(k as int), p2(g));
                lemma_p2_basics(g);
                lemma_round_half_away_scale(n as int, d as int, p2(g));
            } else {
                // want = (na * 2^30, nb * 2^-k * 2^30)
                lemma_p2_adds(-k, 30);
                lemma_mul_is_associative(nb, p2(-k), p2(30));
                lemma_p2_basics(30);
                lemma_mag_shift(nb, -k);
                lemma_round_half_away_scale(n as int, d as int, p2(30));
            }
        }
        assert(round_half_away(n as int, d as int) == round_half_away(want_n, want_d));
    }
    proof {
        crate::arith::lemma_round_half_away_fits(n as int, d as int);
    }
    if n == i128::MIN && d == -1 {
        return None;
    }
    Some(div_round(n, d, false))
}


impl vstd::std_specs::ops::DivSpecImpl for Dyadic {
    open spec fn obeys_div_spec() -> bool {
        true
    }

    open spec fn div_req(self, rhs: Dyadic) -> bool {
        self.div_ok(rhs)
    }

    open spec fn div_spec(self, rhs: Dyadic) -> Dyadic {
        self.quotient(rhs)
    }
}

impl core::ops::Div for Dyadic {
    type Output = Dyadic;

    /// The quotient rounded to the nearest multiple of `2^-30`, ties away from
    /// zero, in reduced form.
    fn div(self, other: Dyadic) -> (r: Dyadic) {
        match quotient_numerator(self, other) {
            Some(q) => Dyadic::new(q, -30).reduce(),
            None => {
                proof {
                    assert(false);
                }
                Dyadic::zero()
            },
        }
    }
}

impl vstd::std_specs::ops::MulSpecImpl for Dyadic {
    open spec fn obeys_mul_spec() -> bool {
        true
    }

    open spec fn mul_req(self, rhs: Dyadic) -> bool {
        self.mul_ok(rhs)
    }

    open spec fn mul_spec(self, rhs: Dyadic) -> Dyadic {
        self.product(rhs)
    }
}

impl core::ops::Mul for Dyadic {
    type Output = Dyadic;

    /// Exact product, in reduced form.
    fn mul(self, other: Dyadic) -> (r: Dyadic) {
        Dyadic::new(self.numerator * other.numerator, self.exponent + other.exponent).reduce()
    }
}


/// The `i`-th entry of `s`, or zero past its end.
pub open spec fn padded(s: Seq<Dyadic>, i: int) -> Dyadic {
    if 0 <= i < s.len() {
        s[i]
    } else {
        dyadic_zero()
    }
}

/// The longer of the two lengths.
pub open spec fn max_len(a: nat, b: nat) -> nat {
    if a >= b {
        a
    } else {
        b
    }
}

/// Entry-wise sum of two vectors, the shorter one padded with zeros.
pub fn add_vec(a: &[Dyadic], b: &[Dyadic]) -> (r: Vec<Dyadic>)
    requires
        forall|i: int| 0 <= i < max_len(a@.len(), b@.len()) ==> #[trigger] padded(a@, i).add_ok(padded(b@, i)),
    ensures
        r@.len() == max_len(a@.len(), b@.len()),
        forall|i: int| 0 <= i < r@.len() ==> r@[i] == #[trigger] padded(a@, i).sum(padded(b@, i)),
{
    let len = if a.len() >= b.len() {
        a.len()
    } else {
        b.len()
    };
    let mut result: Vec<Dyadic> = Vec::with_capacity(len);
    let mut i: usize = 0;
    while i < len
        invariant
            i <= len,
            len == max_len(a@.len(), b@.len()),
            result@.len() == i,
            forall|j: int| 0 <= j < len ==> #[trigger] padded(a@, j).add_ok(padded(b@, j)),
            forall|j: int| 0 <= j < i ==> result@[j] == #[trigger] padded(a@, j).sum(padded(b@, j)),
        decreases len - i,
    {
        let val_self = if i < a.len() {
            a[i]
        } else {
            Dyadic::zero()
        };
        let val_other = if i < b.len() {
            b[i]
        } else {
            Dyadic::zero()
        };
        assert(padded(a@, i as int).add_ok(padded(b@, i as int)));
        result.push(val_self + val_other);
        i = i + 1;
    }
    result
}

/// The sign of `a - b`, computed exactly for any two dyadics.
pub fn compare(a: Dyadic, b: Dyadic) -> (r: i8)
    ensures
        r == sgn(a.at(a.common_exp(b)) - b.at(a.common_exp(b))),
{
    let m = Ghost(a.common_exp(b));
    proof {
        lemma_mag_shift(a.numerator as int, a.exponent - m@);
        lemma_mag_shift(b.numerator as int, b.exponent - m@);
    }
    let sa: i8 = if a.numerator > 0 {
        1
    } else if a.numerator < 0 {
        -1
    } else {
        0
    };
    let sb: i8 = if b.numerator > 0 {
        1
    } else if b.numerator < 0 {
        -1
    } else {
        0
    };
    if sa != sb {
        return if sa > sb {
            1
        } else {
            -1
        };
    }
    if sa == 0 {
        return 0;
    }
    let ma = magnitude(a.numerator);
    let mb = magnitude(b.numerator);
    let d: i64 = a.exponent as i64 - b.exponent as i64;
    proof {
        a.lemma_at_own_exponent();
        b.lemma_at_own_exponent();
    }
    let c = if d >= 0 {
        sign_of_shifted_diff(ma, d as u64, mb)
    } else {
        -sign_of_shifted_diff(mb, (-d) as u64, ma)
    };
    if sa > 0 {
        c
    } else {
        -c
    }
}

impl vstd::std_specs::cmp::PartialEqSpecImpl for Dyadic {
    open spec fn obeys_eq_spec() -> bool {
        true
    }

    open spec fn eq_spec(&self, other: &Dyadic) -> bool {
        self.same_value(*other)
    }
}

impl PartialEq for Dyadic {
    /// Equality of the numbers, whatever their representations.
    fn eq(&self, other: &Dyadic) -> (r: bool) {
        compare(*self, *other) == 0
    }
}

impl Eq for Dyadic {
}

impl vstd::std_specs::cmp::PartialOrdSpecImpl for Dyadic {
    open spec fn obeys_partial_cmp_spec() -> bool {
        true
    }

    open spec fn partial_cmp_spec(&self, other: &Dyadic) -> Option<Ordering> {
        let m = self.common_exp(*other);
        if self.at(m) < other.at(m) {
            Some(Ordering::Less)
        } else if self.at(m) == other.at(m) {
            Some(Ordering::Equal)
        } else {
            Some(Ordering::Greater)
        }
    }
}

impl PartialOrd for Dyadic {
    /// Exact order of the numbers.
    fn partial_cmp(&self, other: &Dyadic) -> (r: Option<Ordering>) {
        let c = compare(*self, *other);
        if c < 0 {
            Some(Ordering::Less)
        } else if c == 0 {
            Some(Ordering::Equal)
        } else {
            Some(Ordering::Greater)
        }
    }
}

} // verus!
