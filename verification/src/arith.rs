//! Integer facts and small exact helpers shared by the dyadic arithmetic.
use vstd::arithmetic::div_mod::*;
use vstd::arithmetic::mul::*;
use vstd::arithmetic::power2::*;
use vstd::prelude::*;

verus! {

/// `x` fits in an `i128`.
pub open spec fn fits_i128(x: int) -> bool {
    i128::MIN <= x <= i128::MAX
}

/// `x` fits in an `i32`.
pub open spec fn fits_i32(x: int) -> bool {
    i32::MIN <= x <= i32::MAX
}

/// Absolute value.
pub open spec fn mag(x: int) -> nat {
    if x < 0 {
        (-x) as nat
    } else {
        x as nat
    }
}

/// Sign: -1, 0 or 1.
pub open spec fn sgn(x: int) -> int {
    if x < 0 {
        -1
    } else if x == 0 {
        0
    } else {
        1
    }
}

/// `2^e` for an integer exponent that is known to be non-negative.
pub open spec fn p2(e: int) -> int {
    pow2(e as nat) as int
}

/// The number of factors of two in `n` (zero for odd `n` and for zero).
pub open spec fn trailing_zeros(n: int) -> nat
    decreases mag(n),
{
    if n != 0 && n % 2 == 0 {
        1 + trailing_zeros(n / 2)
    } else {
        0
    }
}

/// `n / d` rounded to the nearest integer, ties to the even neighbour.
/// The magnitudes are rounded and the sign applied afterwards, which is the
/// same thing because the rule is symmetric about zero.
pub open spec fn round_half_even(n: int, d: int) -> int {
    let q = mag(n) / mag(d);
    let r = mag(n) % mag(d);
    let up = 2 * r > mag(d) || (2 * r == mag(d) && q % 2 == 1);
    let m: int = if up {
        (q + 1) as int
    } else {
        q as int
    };
    if (n < 0) == (d < 0) {
        m
    } else {
        -m
    }
}

/// `n / d` rounded to the nearest integer, ties away from zero.
pub open spec fn round_half_away(n: int, d: int) -> int {
    let q = mag(n) / mag(d);
    let r = mag(n) % mag(d);
    let m: int = if 2 * r >= mag(d) {
        (q + 1) as int
    } else {
        q as int
    };
    if (n < 0) == (d < 0) {
        m
    } else {
        -m
    }
}

pub proof fn lemma_p2_basics(e: int)
    requires
        e >= 0,
    ensures
        p2(e) > 0,
        p2(e + 1) == 2 * p2(e),
        p2(0) == 1,
{
    lemma_pow2_pos(e as nat);
    lemma_pow2_unfold((e + 1) as nat);
    lemma2_to64();
}

pub proof fn lemma_p2_adds(a: int, b: int)
    requires
        a >= 0,
        b >= 0,
    ensures
        p2(a) * p2(b) == p2(a + b),
{
    lemma_pow2_adds(a as nat, b as nat);
}

pub proof fn lemma_p2_mono(a: int, b: int)
    requires
        0 <= a <= b,
    ensures
        p2(a) <= p2(b),
{
    if a < b {
        lemma_pow2_strictly_increases(a as nat, b as nat);
    }
}

/// `|n * 2^a| <= |n * 2^b|` for `a <= b`, with the same sign.
pub proof fn lemma_shift_monotone(n: int, a: int, b: int)
    requires
        0 <= a <= b,
    ensures
        mag(n * p2(a)) <= mag(n * p2(b)),
        sgn(n * p2(a)) == sgn(n),
        sgn(n * p2(b)) == sgn(n),
{
    lemma_p2_mono(a, b);
    lemma_p2_basics(a);
    lemma_p2_basics(b);
    if n >= 0 {
        lemma_mul_inequality(p2(a), p2(b), n);
        lemma_mul_is_commutative(n, p2(a));
        lemma_mul_is_commutative(n, p2(b));
        lemma_mul_nonnegative(n, p2(a));
        if n > 0 {
            lemma_mul_strictly_positive(n, p2(a));
            lemma_mul_strictly_positive(n, p2(b));
        }
    } else {
        lemma_mul_inequality(p2(a), p2(b), -n);
        lemma_mul_is_commutative(-n, p2(a));
        lemma_mul_is_commutative(-n, p2(b));
        lemma_mul_unary_negation(n, p2(a));
        lemma_mul_unary_negation(n, p2(b));
        lemma_mul_strictly_positive(-n, p2(a));
        lemma_mul_strictly_positive(-n, p2(b));
    }
}

/// `n * 2^s`, computed by doubling.
pub fn shl(n: i128, s: u32) -> (r: i128)
    requires
        s < 128,
        fits_i128(n * p2(s as int)),
    ensures
        r == n * p2(s as int),
{
    let mut r = n;
    let mut i: u32 = 0;
    proof {
        lemma_p2_basics(0);
    }
    while i < s
        invariant
            i <= s,
            s < 128,
            r == n * p2(i as int),
            fits_i128(n * p2(s as int)),
        decreases s - i,
    {
        proof {
            lemma_p2_basics(i as int);
            lemma_shift_monotone(n as int, (i + 1) as int, s as int);
            lemma_mul_is_associative(n as int, p2(i as int), 2);
            lemma_mul_is_commutative(p2(i as int), 2);
        }
        r = r * 2;
        i = i + 1;
    }
    r
}

/// The absolute value of an `i128`, which always fits in a `u128`.
pub fn magnitude(n: i128) -> (r: u128)
    ensures
        r == mag(n as int),
{
    if n < 0 {
        ((-(n + 1)) as u128) + 1
    } else {
        n as u128
    }
}

/// Rounds `n / d` (both non-negative, `d > 0`) to the nearest integer,
/// ties to even when `even_ties`, ties up otherwise.
pub fn round_nonneg(n: u128, d: u128, even_ties: bool) -> (r: u128)
    requires
        d > 0,
    ensures
        even_ties ==> r == (if 2 * (n % d) > d || (2 * (n % d) == d && (n / d) % 2 == 1) {
            (n / d + 1) as int
        } else {
            (n / d) as int
        }),
        !even_ties ==> r == (if 2 * (n % d) >= d {
            (n / d + 1) as int
        } else {
            (n / d) as int
        }),
{
    let q = n / d;
    let rem = n % d;
    proof {
        lemma_fundamental_div_mod(n as int, d as int);
        lemma_mod_pos_bound(n as int, d as int);
        if q > 0 {
            lemma_mul_increases(d as int, q as int);
        }
    }
    assert(q <= n);
    // `2 * rem` compared with `d`, written without overflow.
    let rest = d - rem;
    let up = if even_ties {
        rem > rest || (rem == rest && q % 2 == 1)
    } else {
        rem >= rest
    };
    if up {
        assert(q < u128::MAX) by {
            if q == n {
                assert(rem == 0 || d == 1 || n == 0) by (nonlinear_arith)
                    requires
                        n == d * q + rem,
                        q == n,
                        d > 0,
                        0 <= rem < d,
                ;
            }
        }
        q + 1
    } else {
        q
    }
}

/// Gives the magnitude `m` the sign of `-1` when `negative`.
pub fn apply_sign(negative: bool, m: u128) -> (r: i128)
    requires
        negative ==> m <= 0x8000_0000_0000_0000_0000_0000_0000_0000,
        !negative ==> m <= i128::MAX,
    ensures
        r == (if negative {
            -(m as int)
        } else {
            m as int
        }),
{
    if negative {
        if m == 0 {
            0
        } else {
            -(((m - 1) as i128)) - 1
        }
    } else {
        m as i128
    }
}


/// Quotient and remainder are compatible with scaling both operands.
pub proof fn lemma_divmod_scale(a: int, d: int, x: int)
    requires
        0 < x,
        0 <= a,
        0 < d,
    ensures
        (x * a) / (x * d) == a / d,
        (x * a) % (x * d) == x * (a % d),
{
    lemma_fundamental_div_mod(a, d);
    lemma_mod_pos_bound(a, d);
    let q = a / d;
    let r = a % d;
    assert(x * a == q * (x * d) + x * r) by (nonlinear_arith)
        requires
            a == d * q + r,
    ;
    assert(0 <= x * r < x * d) by (nonlinear_arith)
        requires
            0 <= r < d,
            x > 0,
    ;
    lemma_fundamental_div_mod_converse(x * a, x * d, q, x * r);
}

/// Multiplying by a positive factor scales the magnitude and keeps the sign.
pub proof fn lemma_mag_sgn_scale(n: int, c: int)
    requires
        c > 0,
    ensures
        mag(n * c) == mag(n) * c,
        sgn(n * c) == sgn(n),
{
    if n > 0 {
        lemma_mul_strictly_positive(n, c);
    } else if n < 0 {
        lemma_mul_strictly_positive(-n, c);
        lemma_mul_unary_negation(n, c);
    } else {
        lemma_mul_basics(c);
    }
}

/// Rounding `n / d` does not depend on a common positive factor.
/// Rounding a quotient at most one in magnitude: one step toward the sign of
/// the quotient when it is at least a half, and zero otherwise.
pub proof fn lemma_round_half_away_small(n: int, d: int)
    requires
        d != 0,
        mag(n) <= mag(d),
    ensures
        round_half_away(n, d) == (if 2 * mag(n) >= mag(d) {
            if (n < 0) == (d < 0) {
                1int
            } else {
                -1int
            }
        } else {
            0int
        }),
{
    let nn = mag(n) as int;
    let dm = mag(d) as int;
    if nn < dm {
        lemma_basic_div(nn, dm);
        lemma_fundamental_div_mod(nn, dm);
    } else {
        lemma_fundamental_div_mod_converse(nn, dm, 1, 0);
    }
    if 2 * nn >= dm {
        assert(n != 0);
    }
}

/// The rounded quotient of two `i128`s fits in an `i128` except for
/// `i128::MIN / -1`.
pub proof fn lemma_round_half_away_fits(n: int, d: int)
    requires
        fits_i128(n),
        fits_i128(d),
        d != 0,
    ensures
        fits_i128(round_half_away(n, d)) <==> !(n == i128::MIN && d == -1),
{
    let nn = mag(n) as int;
    let dm = mag(d) as int;
    lemma_fundamental_div_mod(nn, dm);
    lemma_mod_pos_bound(nn, dm);
    let q = nn / dm;
    let r = nn % dm;
    if dm == 1 {
        lemma_fundamental_div_mod_converse(nn, 1, nn, 0);
    } else {
        assert(q <= 0x4000_0000_0000_0000_0000_0000_0000_0000) by (nonlinear_arith)
            requires
                nn == dm * q + r,
                0 <= r < dm,
                dm >= 2,
                nn <= 0x8000_0000_0000_0000_0000_0000_0000_0000,
        ;
    }
}

pub proof fn lemma_round_half_away_scale(n: int, d: int, c: int)
    requires
        c > 0,
        d != 0,
    ensures
        round_half_away(n * c, d * c) == round_half_away(n, d),
{
    lemma_mag_sgn_scale(n, c);
    lemma_mag_sgn_scale(d, c);
    lemma_mul_is_commutative(mag(n) as int, c);
    lemma_mul_is_commutative(mag(d) as int, c);
    lemma_divmod_scale(mag(n) as int, mag(d) as int, c);
    let r = mag(n) % mag(d);
    assert((2 * (c * r) >= c * mag(d)) == (2 * r >= mag(d))) by (nonlinear_arith)
        requires
            c > 0,
    ;
}

/// Scaling a number by a power of two scales its magnitude and keeps its sign.
pub proof fn lemma_mag_shift(n: int, k: int)
    requires
        k >= 0,
    ensures
        mag(n * p2(k)) == mag(n) * p2(k),
        sgn(n * p2(k)) == sgn(n),
{
    lemma_p2_basics(k);
    lemma_mag_sgn_scale(n, p2(k));
}


/// The sign of `x * 2^d - y` for non-negative `x` and `y`, computed without overflow.
pub fn sign_of_shifted_diff(x: u128, d: u64, y: u128) -> (r: i8)
    ensures
        r == sgn(x * p2(d as int) - y),
{
    let mut cur = x;
    let mut i: u64 = 0;
    proof {
        lemma_p2_basics(0);
        lemma_mul_basics(x as int);
    }
    while i < d
        invariant
            i <= d,
            cur == x * p2(i as int),
        decreases d - i,
    {
        proof {
            lemma_shift_monotone(x as int, i as int, d as int);
            lemma_mag_shift(x as int, i as int);
            lemma_mag_shift(x as int, d as int);
            lemma_p2_basics(i as int);
        }
        if cur > y {
            return 1;
        }
        if cur > y - cur {
            proof {
                lemma_shift_monotone(x as int, (i + 1) as int, d as int);
                lemma_mag_shift(x as int, (i + 1) as int);
                lemma_mul_is_associative(x as int, p2(i as int), 2);
                lemma_mul_is_commutative(p2(i as int), 2);
            }
            return 1;
        }
        proof {
            lemma_mul_is_associative(x as int, p2(i as int), 2);
            lemma_mul_is_commutative(p2(i as int), 2);
        }
        cur = cur + cur;
        i = i + 1;
    }
    if cur > y {
        1
    } else if cur == y {
        0
    } else {
        -1
    }
}


/// `n / d` rounded to the nearest integer: ties to even when `even_ties`,
/// away from zero otherwise.
pub fn div_round(n: i128, d: i128, even_ties: bool) -> (r: i128)
    requires
        d != 0,
        even_ties ==> fits_i128(round_half_even(n as int, d as int)),
        !even_ties ==> fits_i128(round_half_away(n as int, d as int)),
    ensures
        even_ties ==> r == round_half_even(n as int, d as int),
        !even_ties ==> r == round_half_away(n as int, d as int),
{
    let num = magnitude(n);
    let den = magnitude(d);
    let q = round_nonneg(num, den, even_ties);
    let negative = (n < 0) != (d < 0);
    proof {
        if n == 0 {
            assert(num / den == 0 && num % den == 0) by {
                lemma_small_div_converse(0, den as int);
                lemma_small_mod(0, den as nat);
            }
        }
    }
    apply_sign(negative && q != 0, q)
}


/// `b^e`.
pub open spec fn ipow(b: int, e: nat) -> int
    decreases e,
{
    if e == 0 {
        1
    } else {
        b * ipow(b, (e - 1) as nat)
    }
}

/// The integer part of the base-two logarithm (zero below two).
pub open spec fn ilog2(x: nat) -> nat
    decreases x,
{
    if x < 2 {
        0
    } else {
        1 + ilog2(x / 2)
    }
}

/// A power's magnitude is the power of the magnitude, and grows with the exponent.
pub proof fn lemma_ipow_mag(b: int, i: nat, j: nat)
    requires
        i <= j,
        b != 0,
    ensures
        mag(ipow(b, i)) <= mag(ipow(b, j)),
        mag(ipow(b, j)) >= 1,
    decreases j,
{
    if j > 0 {
        if i == j {
            lemma_ipow_mag(b, (i - 1) as nat, (j - 1) as nat);
        } else {
            lemma_ipow_mag(b, i, (j - 1) as nat);
        }
        let p = ipow(b, (j - 1) as nat);
        lemma_mag_mul(b, p);
        assert(mag(b) * mag(p) >= mag(p)) by (nonlinear_arith)
            requires
                mag(b) >= 1,
                mag(p) >= 1,
        ;
    }
}

pub proof fn lemma_mag_mul(a: int, b: int)
    ensures
        mag(a * b) == mag(a) * mag(b),
{
    assert(mag(a * b) == mag(a) * mag(b)) by (nonlinear_arith);
}

proof fn lemma_ipow_unit(b: int, i: nat)
    requires
        mag(b) == 1,
    ensures
        mag(ipow(b, i)) == 1,
    decreases i,
{
    if i > 0 {
        lemma_ipow_unit(b, (i - 1) as nat);
        lemma_mag_mul(b, ipow(b, (i - 1) as nat));
    }
}

/// `b^e` computed by repeated multiplication.
pub fn pow_i128(b: i128, e: u32) -> (r: i128)
    requires
        fits_i128(ipow(b as int, e as nat)),
    ensures
        r == ipow(b as int, e as nat),
{
    let mut r: i128 = 1;
    let mut i: u32 = 0;
    while i < e
        invariant
            i <= e,
            r == ipow(b as int, i as nat),
            fits_i128(ipow(b as int, e as nat)),
        decreases e - i,
    {
        proof {
            if b != 0 {
                lemma_ipow_mag(b as int, (i + 1) as nat, e as nat);
                if i + 1 < e {
                    let x = ipow(b as int, (i + 1) as nat);
                    let y1 = ipow(b as int, (e - 1) as nat);
                    lemma_ipow_mag(b as int, (i + 1) as nat, (e - 1) as nat);
                    lemma_mag_mul(b as int, y1);
                    assert(ipow(b as int, e as nat) == b * y1);
                    assert(mag(x) <= 0x4000_0000_0000_0000_0000_0000_0000_0000 || mag(b as int) == 1)
                        by (nonlinear_arith)
                        requires
                            mag(x) <= mag(y1),
                            mag(b as int) * mag(y1) <= 0x8000_0000_0000_0000_0000_0000_0000_0000,
                            mag(b as int) >= 1,
                    ;
                    if mag(b as int) == 1 {
                        lemma_ipow_unit(b as int, (i + 1) as nat);
                    }
                }
            } else {
                assert(ipow(0, (i + 1) as nat) == 0);
            }
            assert(ipow(b as int, (i + 1) as nat) == b * ipow(b as int, i as nat));
            lemma_mul_is_commutative(b as int, r as int);
        }
        r = r * b;
        i = i + 1;
    }
    r
}

/// The integer base-two logarithm of a positive `u128`.
pub fn ilog2_u128(x: u128) -> (r: u32)
    requires
        x > 0,
    ensures
        r == ilog2(x as nat),
        r < 128,
{
    let mut m = x;
    let mut k: u32 = 0;
    proof {
        lemma_p2_basics(0);
        lemma_pow2_adds(64, 64);
        lemma2_to64_rest();
    }
    while m >= 2
        invariant
            m >= 1,
            k + ilog2(m as nat) == ilog2(x as nat),
            m * p2(k as int) <= x,
            p2(128) > u128::MAX,
            k <= 127,
        decreases m,
    {
        proof {
            lemma_p2_basics(k as int);
            lemma_fundamental_div_mod(m as int, 2);
            assert((m / 2) * p2((k + 1) as int) <= m * p2(k as int)) by (nonlinear_arith)
                requires
                    p2((k + 1) as int) == 2 * p2(k as int),
                    p2(k as int) > 0,
                    m == 2 * (m / 2) + m % 2,
                    m % 2 >= 0,
            ;
            assert(m / 2 >= 1);
            if k + 1 >= 128 {
                lemma_p2_mono(128, (k + 1) as int);
                assert((m / 2) * p2((k + 1) as int) >= p2((k + 1) as int)) by (nonlinear_arith)
                    requires
                        m / 2 >= 1,
                        p2((k + 1) as int) > 0,
                ;
            }
        }
        m = m / 2;
        k = k + 1;
    }
    k
}


/// `a / b` rounded up, for `a >= 0` and `b > 0`.
pub open spec fn ceil_div(a: int, b: int) -> int {
    (a + b - 1) / b
}

/// `ceil_div(a, b)` is the least `q` with `a <= q * b`.
pub proof fn lemma_ceil_div(a: int, b: int)
    requires
        a >= 0,
        b > 0,
    ensures
        ceil_div(a, b) >= 0,
        a <= ceil_div(a, b) * b,
        (ceil_div(a, b) - 1) * b < a || ceil_div(a, b) == 0,
{
    let q = (a + b - 1) / b;
    lemma_fundamental_div_mod(a + b - 1, b);
    lemma_mod_pos_bound(a + b - 1, b);
    let r = (a + b - 1) % b;
    assert(a + b - 1 == b * q + r);
    assert(q >= 0) by (nonlinear_arith)
        requires
            a + b - 1 == b * q + r,
            0 <= r < b,
            a >= 0,
            b > 0,
    ;
    assert(a <= q * b) by (nonlinear_arith)
        requires
            a + b - 1 == b * q + r,
            0 <= r < b,
    ;
    assert((q - 1) * b < a || q == 0) by (nonlinear_arith)
        requires
            a + b - 1 == b * q + r,
            0 <= r < b,
            a >= 0,
    ;
}

/// Rounding to nearest lands within half a step: `2 |q d - n| <= d`.
pub proof fn lemma_round_half_away_close(n: int, d: int)
    requires
        d > 0,
    ensures
        2 * mag(round_half_away(n, d) * d - n) <= d,
{
    let m: int = mag(n) as int;
    lemma_fundamental_div_mod(m, d);
    lemma_mod_pos_bound(m, d);
    let q: int = m / d;
    let r: int = m % d;
    let up: int = if 2 * r >= d {
        q + 1
    } else {
        q
    };
    assert(2 * mag(up * d - m) <= d) by (nonlinear_arith)
        requires
            m == d * q + r,
            0 <= r < d,
            up == (if 2 * r >= d {
                q + 1
            } else {
                q
            }),
    ;
    if n < 0 {
        assert(round_half_away(n, d) == -up);
        assert(mag(-up * d - n) == mag(up * d - m)) by (nonlinear_arith)
            requires
                m == -n,
        ;
    } else {
        assert(round_half_away(n, d) == up);
    }
}


/// `a / b` rounded down (toward negative infinity), for `b != 0`.
pub open spec fn floor_q(a: int, b: int) -> int {
    if b > 0 {
        a / b
    } else {
        (-a) / (-b)
    }
}

/// `a / b` rounded up, for `b != 0`.
pub open spec fn ceil_q(a: int, b: int) -> int {
    -floor_q(-a, b)
}

/// `floor_q` from the quotient and remainder of the magnitudes.
proof fn lemma_floor_q_by_magnitudes(a: int, b: int)
    requires
        b != 0,
    ensures
        ((a < 0) == (b < 0) || a == 0) ==> floor_q(a, b) == mag(a) / mag(b),
        ((a < 0) != (b < 0) && a != 0) ==> floor_q(a, b) == -(mag(a) / mag(b) + (if mag(a) % mag(b)
            != 0 {
            1int
        } else {
            0int
        })),
{
    let na = mag(a) as int;
    let nb = mag(b) as int;
    lemma_fundamental_div_mod(na, nb);
    lemma_mod_pos_bound(na, nb);
    let q = na / nb;
    let r = na % nb;
    // The numerator and denominator of floor_q with the divisor made positive.
    let (x, y) = if b > 0 {
        (a, b)
    } else {
        (-a, -b)
    };
    assert(y == nb);
    if x >= 0 {
        assert(x == na);
    } else {
        assert(x == -na);
        if r == 0 {
            assert(x == y * (-q) + 0) by (nonlinear_arith)
                requires
                    na == nb * q + r,
                    r == 0,
                    x == -na,
                    y == nb,
            ;
            lemma_fundamental_div_mod_converse(x, y, -q, 0);
        } else {
            assert(x == y * (-(q + 1)) + (y - r)) by (nonlinear_arith)
                requires
                    na == nb * q + r,
                    x == -na,
                    y == nb,
            ;
            lemma_fundamental_div_mod_converse(x, y, -(q + 1), y - r);
        }
    }
}

/// `floor(a / b)`, for `b != 0` and a quotient that fits.
pub fn floor_div(a: i128, b: i128) -> (r: i128)
    requires
        b != 0,
        fits_i128(floor_q(a as int, b as int)),
    ensures
        r == floor_q(a as int, b as int),
{
    proof {
        lemma_floor_q_by_magnitudes(a as int, b as int);
    }
    let na = magnitude(a);
    let nb = magnitude(b);
    let q = na / nb;
    let rem = na % nb;
    let negative = (a < 0) != (b < 0) && a != 0;
    if !negative {
        q as i128
    } else if rem != 0 {
        apply_sign(true, q + 1)
    } else {
        apply_sign(true, q)
    }
}

/// `ceil(a / b)`, for `b != 0`, `a > i128::MIN` and a quotient that fits.
pub fn ceil_div_signed(a: i128, b: i128) -> (r: i128)
    requires
        b != 0,
        a != i128::MIN,
        fits_i128(ceil_q(a as int, b as int)),
        fits_i128(floor_q(-a, b as int)),
    ensures
        r == ceil_q(a as int, b as int),
{
    let f = floor_div(-a, b);
    -f
}


/// A non-zero number is divisible by `2^trailing_zeros`, so that power is at most its magnitude.
pub proof fn lemma_trailing_zeros_bound(n: int)
    requires
        n != 0,
    ensures
        p2(trailing_zeros(n) as int) <= mag(n),
    decreases mag(n),
{
    if n % 2 == 0 {
        lemma_trailing_zeros_bound(n / 2);
        let t = trailing_zeros(n / 2) as int;
        lemma_p2_basics(t);
        assert(mag(n) == 2 * mag(n / 2));
    } else {
        lemma_p2_basics(0);
    }
}

/// A non-zero `i128` has at most 127 trailing zeros.
pub proof fn lemma_trailing_zeros_fit(n: int)
    requires
        n != 0,
        fits_i128(n),
    ensures
        trailing_zeros(n) <= 127,
{
    lemma_trailing_zeros_bound(n);
    let t = trailing_zeros(n) as int;
    if t > 127 {
        lemma_p2_mono(128, t);
        lemma2_to64_rest();
        lemma_p2_adds(64, 64);
        assert(p2(128) == 0x1_0000_0000_0000_0000 * 0x1_0000_0000_0000_0000);
    }
}

/// `2^s` as a `u128`, for `s < 128`.
pub fn pow2_u128(s: u32) -> (r: u128)
    requires
        s < 128,
    ensures
        r == p2(s as int),
{
    let mut r: u128 = 1;
    let mut i: u32 = 0;
    proof {
        lemma_p2_basics(0);
    }
    while i < s
        invariant
            i <= s,
            s < 128,
            r == p2(i as int),
        decreases s - i,
    {
        proof {
            lemma_p2_basics(i as int);
            lemma_p2_mono(i as int + 1, 127);
            lemma2_to64_rest();
            lemma_p2_adds(63, 64);
            assert(p2(127) == 0x8000_0000_0000_0000 * 0x1_0000_0000_0000_0000);
        }
        r = r * 2;
        i = i + 1;
    }
    r
}


/// `2^ilog2(x) <= x < 2^(ilog2(x) + 1)` for `x >= 1`.
pub proof fn lemma_ilog2_bounds(x: nat)
    requires
        x >= 1,
    ensures
        p2(ilog2(x) as int) <= x < p2(ilog2(x) as int + 1),
    decreases x,
{
    lemma_p2_basics(ilog2(x) as int);
    if x >= 2 {
        lemma_ilog2_bounds(x / 2);
        lemma_p2_basics(ilog2(x / 2) as int);
        lemma_p2_basics(ilog2(x / 2) as int + 1);
        lemma_fundamental_div_mod(x as int, 2);
    } else {
        lemma_p2_basics(1);
    }
}


/// Rounding to nearest, ties to even, also lands within half a step: `2 |q d - n| <= d`.
pub proof fn lemma_round_half_even_close(n: int, d: int)
    requires
        d > 0,
    ensures
        2 * mag(round_half_even(n, d) * d - n) <= d,
{
    let m: int = mag(n) as int;
    lemma_fundamental_div_mod(m, d);
    lemma_mod_pos_bound(m, d);
    let q: int = m / d;
    let r: int = m % d;
    let up: int = if 2 * r > d || (2 * r == d && q % 2 == 1) {
        q + 1
    } else {
        q
    };
    assert(2 * mag(up * d - m) <= d) by (nonlinear_arith)
        requires
            m == d * q + r,
            0 <= r < d,
            up == q + 1 ==> 2 * r >= d,
            up == q ==> 2 * r <= d,
            up == q + 1 || up == q,
    ;
    if n < 0 {
        assert(round_half_even(n, d) == -up);
        assert(mag(-up * d - n) == mag(up * d - m)) by (nonlinear_arith)
            requires
                m == -n,
        ;
    } else {
        assert(round_half_even(n, d) == up);
    }
}

} // verus!
