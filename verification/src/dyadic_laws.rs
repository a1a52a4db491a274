//! What the dyadic operations mean as operations on numbers.
use crate::arith::{fits_i128, lemma_p2_adds, lemma_p2_basics, mag, p2, trailing_zeros};
use crate::dyadic::{reduced, reducible, Dyadic};
use vstd::arithmetic::mul::{
    lemma_mul_is_associative, lemma_mul_is_commutative, lemma_mul_is_distributive_add,
    lemma_mul_is_distributive_sub, lemma_mul_strictly_positive,
};
use vstd::prelude::*;

verus! {

/// The value of the number `1`, in the units of `Dyadic::val`.
pub open spec fn unit() -> int {
    p2(-(i32::MIN as int))
}

/// Reading a dyadic over a smaller exponent multiplies by the power of two in between.
pub proof fn lemma_at_rescale(d: Dyadic, m: int, k: int)
    requires
        k <= m <= d.exponent,
    ensures
        d.at(k) == d.at(m) * p2(m - k),
{
    lemma_p2_adds(d.exponent - m, m - k);
    lemma_mul_is_associative(d.numerator as int, p2(d.exponent - m), p2(m - k));
}

/// The value of a dyadic is its numerator over any exponent not above its own,
/// times the power of two between that exponent and `i32::MIN`.
pub proof fn lemma_val_at(d: Dyadic, m: int)
    requires
        i32::MIN <= m <= d.exponent,
    ensures
        d.val() == d.at(m) * p2(m - i32::MIN),
{
    lemma_at_rescale(d, m, i32::MIN as int);
}

/// Reduction keeps the value: the reduced form of `n * 2^e` has value `n * 2^(e - i32::MIN)`.
pub proof fn lemma_reduced_val(n: int, e: int)
    requires
        reducible(n, e),
        fits_i128(n),
        i32::MIN <= e,
    ensures
        reduced(n, e).val() == n * p2(e - i32::MIN),
        reduced(n, e).is_reduced(),
    decreases mag(n),
{
    if n == 0 {
        lemma_p2_basics(0 - i32::MIN);
        assert(0 * p2(0 - i32::MIN) == 0);
    } else if n % 2 == 0 {
        assert(trailing_zeros(n) == 1 + trailing_zeros(n / 2));
        lemma_reduced_val(n / 2, e + 1);
        lemma_p2_basics(e - i32::MIN);
        lemma_mul_is_associative(n / 2, 2, p2(e - i32::MIN));
    } else {
        assert(e <= i32::MAX);
    }
}

/// Two dyadics are equal as numbers exactly when their values are equal.
pub proof fn lemma_same_value_iff(a: Dyadic, b: Dyadic)
    ensures
        a.same_value(b) <==> a.val() == b.val(),
{
    let m = a.common_exp(b);
    lemma_val_at(a, m);
    lemma_val_at(b, m);
    let c = p2(m - i32::MIN);
    lemma_p2_basics(m - i32::MIN);
    if a.val() == b.val() {
        assert(a.at(m) == b.at(m)) by (nonlinear_arith)
            requires
                a.at(m) * c == b.at(m) * c,
                c > 0,
        ;
    }
}


/// The sum is reduced and its value is the sum of the values.
pub proof fn lemma_sum_val(a: Dyadic, b: Dyadic)
    requires
        a.add_ok(b),
    ensures
        a.sum(b).val() == a.val() + b.val(),
        a.sum(b).is_reduced(),
{
    let m = a.common_exp(b);
    lemma_val_at(a, m);
    lemma_val_at(b, m);
    if a.numerator == 0 || b.numerator == 0 {
        let (x, y) = if b.numerator == 0 {
            (a, b)
        } else {
            (b, a)
        };
        assert(y.at(m) == 0 && y.val() == 0) by (nonlinear_arith)
            requires
                y.numerator == 0,
                y.at(m) == y.numerator * p2(y.exponent - m),
                y.val() == y.at(i32::MIN as int),
                y.at(i32::MIN as int) == y.numerator * p2(y.exponent - i32::MIN),
        ;
        assert(a.at(m) + b.at(m) == x.at(m));
        crate::dyadic::lemma_reduced_rescale(x.numerator as int, x.exponent as int, (x.exponent - m) as nat);
        lemma_reduced_val(x.numerator as int, x.exponent as int);
        lemma_val_at(x, x.exponent as int);
        x.lemma_at_own_exponent();
        lemma_p2_basics(x.exponent - i32::MIN);
        assert(x.val() == x.numerator * p2(x.exponent - i32::MIN));
        return;
    }
    lemma_reduced_val(a.at(m) + b.at(m), m);
    lemma_mul_is_distributive_add(p2(m - i32::MIN), a.at(m), b.at(m));
    lemma_mul_is_commutative(p2(m - i32::MIN), a.at(m) + b.at(m));
    lemma_mul_is_commutative(p2(m - i32::MIN), a.at(m));
    lemma_mul_is_commutative(p2(m - i32::MIN), b.at(m));
}

/// The difference is reduced and its value is the difference of the values.
pub proof fn lemma_difference_val(a: Dyadic, b: Dyadic)
    requires
        a.sub_ok(b),
    ensures
        a.difference(b).val() == a.val() - b.val(),
        a.difference(b).is_reduced(),
{
    let m = a.common_exp(b);
    lemma_val_at(a, m);
    lemma_val_at(b, m);
    if b.numerator == 0 {
        assert(b.at(m) == 0 && b.val() == 0) by (nonlinear_arith)
            requires
                b.numerator == 0,
                b.at(m) == b.numerator * p2(b.exponent - m),
                b.val() == b.at(i32::MIN as int),
                b.at(i32::MIN as int) == b.numerator * p2(b.exponent - i32::MIN),
        ;
        assert(a.at(m) - b.at(m) == a.at(m));
        crate::dyadic::lemma_reduced_rescale(a.numerator as int, a.exponent as int, (a.exponent - m) as nat);
        lemma_reduced_val(a.numerator as int, a.exponent as int);
        a.lemma_at_own_exponent();
        lemma_val_at(a, a.exponent as int);
        return;
    }
    if a.numerator == 0 {
        assert(a.at(m) == 0 && a.val() == 0) by (nonlinear_arith)
            requires
                a.numerator == 0,
                a.at(m) == a.numerator * p2(a.exponent - m),
                a.val() == a.at(i32::MIN as int),
                a.at(i32::MIN as int) == a.numerator * p2(a.exponent - i32::MIN),
        ;
        let nn = -b.numerator;
        assert(a.at(m) - b.at(m) == nn * p2(b.exponent - m)) by (nonlinear_arith)
            requires
                a.at(m) == 0,
                b.at(m) == b.numerator * p2(b.exponent - m),
                nn == -b.numerator,
        ;
        crate::dyadic::lemma_reduced_rescale(nn, b.exponent as int, (b.exponent - m) as nat);
        lemma_reduced_val(nn, b.exponent as int);
        b.lemma_at_own_exponent();
        lemma_val_at(b, b.exponent as int);
        assert(nn * p2(b.exponent - i32::MIN) == -(b.numerator * p2(b.exponent - i32::MIN))) by (nonlinear_arith)
            requires
                nn == -b.numerator,
        ;
        return;
    }
    lemma_reduced_val(a.at(m) - b.at(m), m);
    lemma_mul_is_distributive_sub(p2(m - i32::MIN), a.at(m), b.at(m));
    lemma_mul_is_commutative(p2(m - i32::MIN), a.at(m) - b.at(m));
    lemma_mul_is_commutative(p2(m - i32::MIN), a.at(m));
    lemma_mul_is_commutative(p2(m - i32::MIN), b.at(m));
}

/// The product is reduced and its value, times the unit, is the product of the values.
pub proof fn lemma_product_val(a: Dyadic, b: Dyadic)
    requires
        a.mul_ok(b),
    ensures
        a.product(b).val() * unit() == a.val() * b.val(),
        a.product(b).is_reduced(),
{
    let na = a.numerator as int;
    let nb = b.numerator as int;
    let ea = a.exponent - i32::MIN;
    let eb = b.exponent - i32::MIN;
    lemma_reduced_val(na * nb, a.exponent + b.exponent);
    lemma_p2_adds(a.exponent + b.exponent - i32::MIN, -(i32::MIN as int));
    lemma_p2_adds(ea, eb);
    assert(na * nb * p2(a.exponent + b.exponent - i32::MIN) * unit() == na * p2(ea) * (nb * p2(
        eb,
    ))) by (nonlinear_arith)
        requires
            p2(a.exponent + b.exponent - i32::MIN) * unit() == p2(ea) * p2(eb),
    ;
}

/// A reduced form is determined by the value: two reduced dyadics with the
/// same value are the same pair of numerator and exponent.
pub proof fn lemma_reduced_unique(a: Dyadic, b: Dyadic)
    requires
        a.is_reduced(),
        b.is_reduced(),
        a.val() == b.val(),
    ensures
        a == b,
{
    lemma_same_value_iff(a, b);
    let m = a.common_exp(b);
    lemma_p2_basics(a.exponent - m);
    lemma_p2_basics(b.exponent - m);
    a.lemma_at_own_exponent();
    b.lemma_at_own_exponent();
    assert(a.at(m) == b.at(m));
    if a.numerator == 0 {
        vstd::arithmetic::mul::lemma_mul_basics(p2(a.exponent - m));
        assert(b.numerator == 0) by (nonlinear_arith)
            requires
                0 == b.at(m),
                b.at(m) == b.numerator * p2(b.exponent - m),
                p2(b.exponent - m) > 0,
        ;
    } else if b.numerator == 0 {
        vstd::arithmetic::mul::lemma_mul_basics(p2(b.exponent - m));
        assert(a.numerator == 0) by (nonlinear_arith)
            requires
                0 == a.at(m),
                a.at(m) == a.numerator * p2(a.exponent - m),
                p2(a.exponent - m) > 0,
        ;
    } else if a.exponent < b.exponent {
        // a's odd numerator would equal an even number.
        let k = b.exponent - a.exponent;
        lemma_p2_basics(k - 1);
        assert(a.numerator == b.numerator * (2 * p2(k - 1)));
        let x = b.numerator * p2(k - 1);
        lemma_mul_is_associative(b.numerator as int, p2(k - 1), 2);
        lemma_mul_is_commutative(p2(k - 1), 2);
        vstd::arithmetic::div_mod::lemma_mod_multiples_basic(x, 2);
    } else if b.exponent < a.exponent {
        let k = a.exponent - b.exponent;
        lemma_p2_basics(k - 1);
        assert(b.numerator == a.numerator * (2 * p2(k - 1)));
        let x = a.numerator * p2(k - 1);
        lemma_mul_is_associative(a.numerator as int, p2(k - 1), 2);
        lemma_mul_is_commutative(p2(k - 1), 2);
        vstd::arithmetic::div_mod::lemma_mod_multiples_basic(x, 2);
    }
}


/// Adding zero gives the reduced form of the number itself.
pub proof fn law_add_zero(a: Dyadic)
    requires
        a.add_ok(Dyadic { numerator: 0, exponent: 0 }),
    ensures
        a.sum(Dyadic { numerator: 0, exponent: 0 }).same_value(a),
{
    let z = Dyadic { numerator: 0, exponent: 0 };
    lemma_sum_val(a, z);
    lemma_p2_basics(0 - i32::MIN);
    assert(z.val() == 0);
    lemma_same_value_iff(a.sum(z), a);
}

/// Multiplying by one keeps the number.
pub proof fn law_mul_one(a: Dyadic)
    requires
        a.mul_ok(Dyadic { numerator: 1, exponent: 0 }),
    ensures
        a.product(Dyadic { numerator: 1, exponent: 0 }).same_value(a),
{
    let one = Dyadic { numerator: 1, exponent: 0 };
    lemma_product_val(a, one);
    lemma_p2_basics(0 - i32::MIN);
    assert(one.val() == unit());
    lemma_p2_basics(-(i32::MIN as int));
    let p = a.product(one).val();
    assert(p == a.val()) by (nonlinear_arith)
        requires
            p * unit() == a.val() * unit(),
            unit() > 0,
    ;
    lemma_same_value_iff(a.product(one), a);
}

/// Multiplying by zero gives zero, written `0 * 2^0`.
pub proof fn law_mul_zero(a: Dyadic)
    requires
        a.mul_ok(Dyadic { numerator: 0, exponent: 0 }),
    ensures
        a.product(Dyadic { numerator: 0, exponent: 0 }) == (Dyadic { numerator: 0, exponent: 0 }),
{
    assert(a.numerator * 0 == 0);
}

/// `(a + a) - a` is `a` again.
pub proof fn law_double_then_subtract(a: Dyadic)
    requires
        a.add_ok(a),
        a.sum(a).sub_ok(a),
    ensures
        a.sum(a).difference(a).same_value(a),
{
    lemma_sum_val(a, a);
    lemma_difference_val(a.sum(a), a);
    lemma_same_value_iff(a.sum(a).difference(a), a);
}

/// Addition is commutative, down to the representation.
pub proof fn law_add_commutative(a: Dyadic, b: Dyadic)
    requires
        a.add_ok(b),
        b.add_ok(a),
    ensures
        a.sum(b) == b.sum(a),
{
    lemma_sum_val(a, b);
    lemma_sum_val(b, a);
    lemma_reduced_unique(a.sum(b), b.sum(a));
}

/// Multiplication is commutative, down to the representation.
pub proof fn law_mul_commutative(a: Dyadic, b: Dyadic)
    requires
        a.mul_ok(b),
    ensures
        a.product(b) == b.product(a),
{
    assert(a.numerator * b.numerator == b.numerator * a.numerator) by (nonlinear_arith);
}

/// Addition is associative, down to the representation.
pub proof fn law_add_associative(a: Dyadic, b: Dyadic, c: Dyadic)
    requires
        a.add_ok(b),
        a.sum(b).add_ok(c),
        b.add_ok(c),
        a.add_ok(b.sum(c)),
    ensures
        a.sum(b).sum(c) == a.sum(b.sum(c)),
{
    lemma_sum_val(a, b);
    lemma_sum_val(a.sum(b), c);
    lemma_sum_val(b, c);
    lemma_sum_val(a, b.sum(c));
    lemma_reduced_unique(a.sum(b).sum(c), a.sum(b.sum(c)));
}

/// Multiplication distributes over addition, down to the representation.
pub proof fn law_distributive(a: Dyadic, b: Dyadic, c: Dyadic)
    requires
        b.add_ok(c),
        a.mul_ok(b.sum(c)),
        a.mul_ok(b),
        a.mul_ok(c),
        a.product(b).add_ok(a.product(c)),
    ensures
        a.product(b.sum(c)) == a.product(b).sum(a.product(c)),
{
    lemma_sum_val(b, c);
    lemma_product_val(a, b.sum(c));
    lemma_product_val(a, b);
    lemma_product_val(a, c);
    lemma_sum_val(a.product(b), a.product(c));
    lemma_p2_basics(-(i32::MIN as int));
    let l = a.product(b.sum(c)).val();
    let r = a.product(b).sum(a.product(c)).val();
    assert(l == r) by (nonlinear_arith)
        requires
            l * unit() == a.val() * (b.val() + c.val()),
            r == a.product(b).val() + a.product(c).val(),
            a.product(b).val() * unit() == a.val() * b.val(),
            a.product(c).val() * unit() == a.val() * c.val(),
            unit() > 0,
    ;
    lemma_reduced_unique(a.product(b.sum(c)), a.product(b).sum(a.product(c)));
}


/// `below` compares the values.
pub proof fn lemma_below_iff(a: Dyadic, b: Dyadic)
    ensures
        a.below(b) <==> a.val() < b.val(),
{
    let m = a.common_exp(b);
    lemma_val_at(a, m);
    lemma_val_at(b, m);
    let c = p2(m - i32::MIN);
    lemma_p2_basics(m - i32::MIN);
    assert((a.at(m) < b.at(m)) <==> (a.at(m) * c < b.at(m) * c)) by (nonlinear_arith)
        requires
            c > 0,
    ;
}


/// Reducing is canonical: two dyadics have the same reduced form exactly
/// when they are the same number.
pub proof fn law_reduce_canonical(a: Dyadic, b: Dyadic)
    requires
        reducible(a.numerator as int, a.exponent as int),
        reducible(b.numerator as int, b.exponent as int),
    ensures
        reduced(a.numerator as int, a.exponent as int) == reduced(b.numerator as int, b.exponent as int)
            <==> a.same_value(b),
{
    lemma_reduced_val(a.numerator as int, a.exponent as int);
    lemma_reduced_val(b.numerator as int, b.exponent as int);
    lemma_same_value_iff(a, b);
    if a.same_value(b) {
        lemma_reduced_unique(
            reduced(a.numerator as int, a.exponent as int),
            reduced(b.numerator as int, b.exponent as int),
        );
    }
}


/// `div_with_precision` rounds to the nearest step: the quotient `q` of
/// `a / b` is within half a step `2^(a.exponent - b.exponent - bits)` of the
/// exact quotient, that is `2 |q b - a| <= |b| 2^(a.exponent - b.exponent - bits)`
/// (in the units of `val`).
pub proof fn law_div_with_precision_nearest(a: Dyadic, b: Dyadic, bits: u32)
    requires
        a.div_with_precision_ok(b, bits),
    ensures
        2 * mag(a.rounded_quotient(b, bits).val() * b.val() - a.val() * unit()) <= mag(b.val()) * p2(
            a.exponent - b.exponent - bits - i32::MIN,
        ),
{
    let na = a.numerator as int;
    let nb = b.numerator as int;
    let n = na * p2(bits as int);
    let q = crate::arith::round_half_even(n, nb);
    let e = a.exponent - b.exponent - bits;
    lemma_reduced_val(q, e);
    // the rounding is symmetric in the signs of numerator and divisor
    let (n2, d2) = if nb > 0 {
        (n, nb)
    } else {
        (-n, -nb)
    };
    assert(mag(n2) == mag(n) && mag(d2) == mag(nb));
    assert(crate::arith::round_half_even(n2, d2) == q);
    crate::arith::lemma_round_half_even_close(n2, d2);
    assert(2 * mag(q * nb - n) <= mag(nb)) by (nonlinear_arith)
        requires
            2 * mag(q * d2 - n2) <= d2,
            (n2 == n && d2 == nb) || (n2 == -n && d2 == -nb),
            d2 == mag(nb),
    ;
    lemma_p2_basics(e - i32::MIN);
    lemma_p2_basics(b.exponent - i32::MIN);
    lemma_p2_basics(-(i32::MIN as int));
    lemma_p2_adds(e - i32::MIN, b.exponent - i32::MIN);
    lemma_p2_adds(bits as int, e + b.exponent - 2 * i32::MIN);
    lemma_p2_adds(a.exponent - i32::MIN, -(i32::MIN as int));
    let pe = p2(e - i32::MIN);
    let pb = p2(b.exponent - i32::MIN);
    let w = p2(e + b.exponent - 2 * i32::MIN);
    assert(a.exponent - i32::MIN + (-(i32::MIN as int)) == bits + (e + b.exponent - 2 * i32::MIN));
    let qv = a.rounded_quotient(b, bits).val();
    assert(qv == q * pe);
    assert(b.val() == nb * pb);
    assert(a.val() * unit() == n * w) by (nonlinear_arith)
        requires
            a.val() == na * p2(a.exponent - i32::MIN),
            p2(a.exponent - i32::MIN) * unit() == p2(bits as int) * w,
            n == na * p2(bits as int),
    ;
    assert(2 * mag(qv * b.val() - a.val() * unit()) <= mag(b.val()) * pe) by (nonlinear_arith)
        requires
            qv == q * pe,
            b.val() == nb * pb,
            a.val() * unit() == n * w,
            w == pe * pb,
            2 * mag(q * nb - n) <= mag(nb),
            pe > 0,
            pb > 0,
    ;
}

} // verus!
