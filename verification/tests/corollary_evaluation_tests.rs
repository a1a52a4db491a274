use landau::complex::ComplexDyadic;
use landau::corollary_2::{certify_r_hat_rho, pick_r_hat};
use landau::dyadic::Dyadic;
use landau::evaluation::minimal_pow2_step_below;
use landau::holomorphic::{BoundingSequence, ComplexFunction, ExpansionCoefficients};

fn d(n: i128, e: i32) -> Dyadic {
    Dyadic::new(n, e)
}

fn fields(x: Dyadic) -> (i128, i32) {
    (x.numerator, x.exponent)
}

fn function(coeffs: Vec<ComplexDyadic>) -> ComplexFunction {
    ComplexFunction::new(BoundingSequence::new(vec![d(1, 0); 4]), ExpansionCoefficients::new(coeffs))
}

fn axes() -> Vec<ComplexDyadic> {
    vec![
        ComplexDyadic::new(d(1, 0), d(0, 0)),
        ComplexDyadic::new(d(0, 0), d(1, 0)),
        ComplexDyadic::new(d(-1, 0), d(0, 0)),
        ComplexDyadic::new(d(0, 0), d(-1, 0)),
    ]
}

#[test]
fn r_hat_just_above_r() {
    // 1/2 + min((1 - 1/2) / 8, 1/64) = 33/64
    assert_eq!(fields(pick_r_hat(d(1, -1))), (33, -6));
    // 63/64 + (1/64) / 8 = 505/512
    assert_eq!(fields(pick_r_hat(d(63, -6))), (505, -9));
}

#[test]
fn rho_of_a_constant_derivative() {
    let fp = function(vec![ComplexDyadic::one()]);
    let (r_hat, rho) = certify_r_hat_rho(d(1, -1), &fp, &axes(), 10, 8);
    assert_eq!(fields(r_hat), (33, -6));
    assert_eq!(fields(rho), (1, 0));
}

#[test]
fn rho_is_the_smallest_sample_rounded_down() {
    // f'(z) = 1 + z on |z| = 33/64: smallest at -33/64, |f'| = 31/64, and
    // 31/64 rounded down to 4 bits is 7/16
    let fp = function(vec![ComplexDyadic::one(), ComplexDyadic::one()]);
    let dirs = vec![ComplexDyadic::new(d(1, 0), d(0, 0)), ComplexDyadic::new(d(-1, 0), d(0, 0))];
    let (_, rho) = certify_r_hat_rho(d(1, -1), &fp, &dirs, 10, 4);
    assert_eq!(fields(rho), (7, -4));
    let (_, rho) = certify_r_hat_rho(d(1, -1), &fp, &dirs, 10, 8);
    assert_eq!(fields(rho), (31, -6));
    // without samples rho is zero
    let (_, rho) = certify_r_hat_rho(d(1, -1), &fp, &[], 10, 8);
    assert_eq!(fields(rho), (0, 0));
}

#[test]
fn samples_are_rounded_toward_zero() {
    // direction (1/3 in 2^-10 steps): r_hat * d = 33/64 * 341/1024, rounded to 2^-4
    let fp = function(vec![ComplexDyadic::zero(), ComplexDyadic::one()]);
    let dirs = vec![ComplexDyadic::new(d(341, -10), d(-341, -10))];
    let (_, rho) = certify_r_hat_rho(d(1, -1), &fp, &dirs, 4, 10);
    // 33 * 341 / 65536 = 0.1717..., toward zero on 2^-4 steps: 2/16 = 1/8 for both parts;
    // |z| = sqrt(2)/8 = 0.17677..., rounded down to 2^-10: 181/1024
    assert_eq!(fields(rho), (181, -10));
}

#[test]
fn largest_power_of_two_below() {
    // 1/16 is the largest power of two below 1/8
    let (n, step) = minimal_pow2_step_below(d(1, -3));
    assert_eq!((n, fields(step)), (-5, (1, -4)));
    // 1/8 is the largest power of two below 3/16
    let (n, step) = minimal_pow2_step_below(d(3, -4));
    assert_eq!((n, fields(step)), (-4, (1, -3)));
    let (n, step) = minimal_pow2_step_below(d(1, 0));
    assert_eq!((n, fields(step)), (-2, (1, -1)));
    let (n, step) = minimal_pow2_step_below(d(5, 2));
    assert_eq!((n, fields(step)), (3, (1, 4)));
}

#[test]
fn law_r_hat_between_r_and_one() {
    for r in [d(1, -10), d(1, -1), d(3, -2), d(63, -6), d(1023, -10), d(999, -10)] {
        let rh = pick_r_hat(r);
        assert!(r < rh && rh < d(1, 0));
    }
}

#[test]
fn law_rho_is_below_every_sample() {
    // f'(z) = 1 + z + z^2 / 2 on |z| = 33/64, eight directions with 2^-10 steps
    let fp = function(vec![ComplexDyadic::one(), ComplexDyadic::one(), ComplexDyadic::new(d(1, -1), d(0, 0))]);
    let dirs: Vec<ComplexDyadic> = (0..8)
        .map(|j| {
            let t = std::f64::consts::TAU * (j as f64) / 8.0;
            ComplexDyadic::new(d((t.cos() * 1024.0).round() as i128, -10), d((t.sin() * 1024.0).round() as i128, -10))
        })
        .collect();
    let (r_hat, rho) = certify_r_hat_rho(d(1, -1), &fp, &dirs, 12, 16);
    let rho_f = (rho.numerator as f64) * 2f64.powi(rho.exponent);
    assert!(rho_f > 0.0);
    let rh = (r_hat.numerator as f64) * 2f64.powi(r_hat.exponent);
    for dir in &dirs {
        let (cx, cy) = (
            (dir.re.numerator as f64) * 2f64.powi(dir.re.exponent) * rh,
            (dir.im.numerator as f64) * 2f64.powi(dir.im.exponent) * rh,
        );
        // |f'| at the sample, computed in floating point from the unrounded point
        let (zr, zi) = (cx, cy);
        let re = 1.0 + zr + 0.5 * (zr * zr - zi * zi);
        let im = zi + 0.5 * (2.0 * zr * zi);
        assert!(rho_f <= (re * re + im * im).sqrt() + 1e-3);
    }
}
