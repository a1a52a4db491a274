use landau::checked::{add_fits, mul_fits, shl_fits, sub_fits};
use landau::complex::{add_complex_vec, sub_complex_vec, ComplexDyadic};
use landau::dyadic::{add_vec, compare, Dyadic};

fn d(n: i128, e: i32) -> Dyadic {
    Dyadic::new(n, e)
}

fn c(re: Dyadic, im: Dyadic) -> ComplexDyadic {
    ComplexDyadic::new(re, im)
}

fn fields(x: Dyadic) -> (i128, i32) {
    (x.numerator, x.exponent)
}

#[test]
fn reduce_moves_factors_of_two_into_the_exponent() {
    assert_eq!(fields(d(12, 0).reduce()), (3, 2));
    assert_eq!(fields(d(-40, -5).reduce()), (-5, -2));
    assert_eq!(fields(d(7, 3).reduce()), (7, 3));
    assert_eq!(fields(d(0, 9).reduce()), (0, 0));
}

#[test]
fn operations_give_reduced_forms() {
    assert_eq!(fields(d(1, 1) + d(1, 1)), (1, 2));
    assert_eq!(fields(d(3, -2) - d(1, -2)), (1, -1));
    assert_eq!(fields(d(6, 0) * d(2, -3)), (3, -1));
    assert_eq!(fields(d(5, 0) - d(5, 0)), (0, 0));
}

#[test]
fn equality_is_equality_of_numbers() {
    assert_eq!(d(2, 0), d(1, 1));
    assert_eq!(d(0, 7), Dyadic::zero());
    assert_ne!(d(3, -1), d(1, 0));
    assert_eq!(Dyadic::from_i64(-6), d(-3, 1));
}

#[test]
fn order_is_exact() {
    assert!(d(1, -1) < d(3, -2));
    assert!(d(-1, 5) < d(1, -100));
    assert!(d(4, 0) > d(7, -1));
    assert!(d(2, 0) <= d(1, 1));
    assert_eq!(compare(d(1, -1), d(3, -2)), -1);
    assert_eq!(compare(d(3, 0), d(3, 0)), 0);
    assert_eq!(compare(d(1, 0), d(-1, 10)), 1);
}

#[test]
fn powers() {
    assert_eq!(fields(d(3, 1).powi(2)), (9, 2));
    assert_eq!(fields(d(3, 1).powi(0)), (1, 0));
    // a negative power keeps the numerator 1 and moves log2 of the numerator into the exponent
    assert_eq!(fields(d(4, 0).powi(-1)), (1, -2));
    assert_eq!(fields(d(1, 3).powi(-2)), (1, -6));
}

#[test]
fn div_with_precision_exact_value() {
    // 3/32 / (5/4): 3 * 2^30 / 5 = 644245094.4 rounds to 644245094 over 2^-33
    let q = d(3, -5).div_with_precision(d(5, -2), 30);
    assert_eq!(fields(q), (322122547, -32));
}

#[test]
fn div_with_precision_rounds_to_nearest_ties_to_even() {
    assert_eq!(fields(d(1, 0).div_with_precision(d(2, 0), 0)), (0, 0));
    assert_eq!(fields(d(3, 0).div_with_precision(d(2, 0), 0)), (1, 1));
    assert_eq!(fields(d(5, 0).div_with_precision(d(2, 0), 0)), (1, 1));
    // 2/3 is nearer to 1 than to 0
    assert_eq!(fields(d(2, 0).div_with_precision(d(3, 0), 0)), (1, 0));
    assert_eq!(fields(d(-2, 0).div_with_precision(d(3, 0), 0)), (-1, 0));
}

#[test]
fn division_operator_rounds_to_two_to_the_minus_thirty() {
    let q = d(1, 0) / d(3, 0);
    assert_eq!(fields(q), (357913941, -30));
    assert_eq!(fields(d(3, 0) / d(4, 0)), (3, -2));
    assert_eq!(fields(d(-1, 0) / d(3, 0)), (-357913941, -30));
}

#[test]
fn add_vec_pads_with_zeros() {
    let r = add_vec(&[d(1, 0), d(2, 0)], &[d(3, 0)]);
    assert_eq!(r, vec![d(4, 0), d(2, 0)]);
    let r = add_vec(&[], &[d(1, -1)]);
    assert_eq!(r, vec![d(1, -1)]);
}

#[test]
fn complex_power_by_squaring() {
    let z = c(d(1, 0), d(1, 0));
    assert_eq!(z.powi(2), c(d(0, 0), d(2, 0)));
    assert_eq!(z.powi(0), ComplexDyadic::one());
    assert_eq!(z.powi(3), c(d(-2, 0), d(2, 0)));
}

#[test]
fn complex_division() {
    // 1 / i = -i
    let q = ComplexDyadic::one() / c(d(0, 0), d(1, 0));
    assert_eq!(q, c(d(0, 0), d(-1, 0)));
    // (3 + 5i) / 2 with four extra bits
    let h = c(d(3, 0), d(5, 0)).div_i64(2, 4);
    assert_eq!(h, c(d(3, -1), d(5, -1)));
    // (1 + i) / (1 - i) = i
    let q = c(d(1, 0), d(1, 0)).div_with_precision(c(d(1, 0), d(-1, 0)), 8);
    assert_eq!(q, c(d(0, 0), d(1, 0)));
}

#[test]
fn complex_vectors_pad_with_zeros() {
    let a = vec![c(d(1, 0), d(1, 0)), c(d(2, 0), d(0, 0))];
    let b = vec![c(d(1, 0), d(-1, 0))];
    assert_eq!(add_complex_vec(&a, &b), vec![c(d(2, 0), d(0, 0)), c(d(2, 0), d(0, 0))]);
    assert_eq!(sub_complex_vec(&b, &a), vec![c(d(0, 0), d(-2, 0)), c(d(-2, 0), d(0, 0))]);
    assert_eq!(ComplexDyadic::from_i64(7), c(d(7, 0), d(0, 0)));
    assert_eq!(ComplexDyadic::zero(), c(d(0, 3), d(0, -3)));
}

#[test]
fn law_ring_identities_hold_on_samples() {
    let xs = [d(3, -2), d(-5, 1), d(0, 0), d(7, -9)];
    for &a in &xs {
        for &b in &xs {
            // commutativity
            assert_eq!(fields(a + b), fields(b + a));
            assert_eq!(fields(a * b), fields(b * a));
            for &cc in &xs {
                // associativity of the sum, exactly as pairs
                assert_eq!(fields((a + b) + cc), fields(a + (b + cc)));
                assert_eq!(a * (b + cc), a * b + a * cc);
            }
        }
    }
}

#[test]
fn law_reduce_is_canonical_on_samples() {
    let xs = [d(6, -1), d(3, 0), d(12, -2), d(-3, 0), d(0, 4), d(0, 0), d(5, 1), d(10, 0)];
    for &a in &xs {
        for &b in &xs {
            assert_eq!(fields(a.reduce()) == fields(b.reduce()), a == b);
        }
    }
}

#[test]
fn law_power_by_squaring_is_repeated_multiplication() {
    let zs = [c(d(1, 0), d(1, 0)), c(d(3, -2), d(-5, -3)), c(d(0, 0), d(7, 1)), c(d(-1, 0), d(0, 0))];
    for z in zs {
        let mut acc = ComplexDyadic::one();
        for n in 0..9 {
            assert_eq!(z.powi(n), acc, "power {n}");
            acc = acc * z;
        }
    }
}

#[test]
fn subtracting_b_undoes_adding_b() {
    let a = vec![c(d(3, -2), d(-1, 0)), c(d(5, 1), d(7, -3)), c(d(0, 0), d(1, 0))];
    let b = vec![c(d(1, 4), d(3, -1)), c(d(-9, -2), d(2, 0))];
    let sum = add_complex_vec(&a, &b);
    let back = sub_complex_vec(&sum, &b);
    assert_eq!(back.len(), 3);
    for i in 0..3 {
        assert!(back[i].re == a[i].re && back[i].im == a[i].im);
    }
}

#[test]
fn zero_adds_to_numbers_of_any_exponent() {
    assert_eq!(fields(d(0, 0) + d(3, -200)), (3, -200));
    assert_eq!(fields(d(6, 150) + d(0, -150)), (3, 151));
    assert_eq!(fields(d(0, 0) - d(3, -200)), (-3, -200));
    assert_eq!(fields(d(3, -200) - d(0, 0)), (3, -200));
}

#[test]
fn division_far_below_the_precision_rounds_to_zero() {
    assert_eq!(fields(d(1, -200) / d(1, 0)), (0, 0));
    assert_eq!(fields(d(-1, -200) / d(3, 0)), (0, 0));
    // exactly a half of 2^-30 rounds away from zero
    assert_eq!(fields(d(1, -31) / d(1, 0)), (1, -30));
    assert_eq!(fields(d(-1, -31) / d(1, 0)), (-1, -30));
    // a quotient of 2^-170 and 2^-200 is exact
    assert_eq!(fields(d(1, -170) / d(1, -200)), (1, 30));
}

#[test]
fn overflow_tests_decide_the_conditions() {
    assert!(shl_fits(1, 126));
    assert!(!shl_fits(1, 127));
    assert!(shl_fits(-1, 127));
    assert!(!shl_fits(3, 126));
    assert!(mul_fits(d(1 << 62, 0), d(1 << 62, 0)));
    assert!(!mul_fits(d(1 << 64, 0), d(1 << 64, 0)));
    assert!(add_fits(d(1, 0), d(1, -100)));
    assert!(!add_fits(d(1, 0), d(1, -130)));
    assert!(add_fits(d(0, 0), d(1, -130)));
    assert!(!sub_fits(d(0, 0), d(i128::MIN, 0)));
    assert!(sub_fits(d(5, 3), d(1, 1)));
}
