use landau::complex::ComplexDyadic;
use landau::dyadic::Dyadic;
use landau::interval::{psi, split, Interval};
use landau::psi::{generate_all_words, generate_word, psi_infinity, t_vector, try_psi, try_psi_infinity};

fn d(n: i128, e: i32) -> Dyadic {
    Dyadic::new(n, e)
}

fn bounds(i: Interval) -> Option<(Dyadic, Dyadic, Dyadic, Dyadic)> {
    match i {
        Interval::Empty => None,
        Interval::Bounded(a, b, c, e) => Some((a, b, c, e)),
    }
}

#[test]
fn interval_new_is_empty_when_bounds_cross() {
    assert!(bounds(Interval::new(d(1, 0), d(0, 0), d(0, 0), d(1, 0))).is_none());
    assert!(bounds(Interval::new(d(0, 0), d(1, 0), d(1, 0), d(0, 0))).is_none());
    assert_eq!(
        bounds(Interval::new(d(0, 0), d(0, 0), d(-1, 0), d(1, 0))),
        Some((d(0, 0), d(0, 0), d(-1, 0), d(1, 0)))
    );
}

#[test]
fn midpoint_of_a_rectangle() {
    let r = Interval::new(d(0, 0), d(2, 0), d(-2, 0), d(2, 0));
    assert_eq!(r.midpoint(), Some(ComplexDyadic::new(d(1, 0), d(0, 0))));
    assert_eq!(Interval::Empty.midpoint(), None);
}

#[test]
fn split_gives_the_quarters() {
    let r = Interval::new(d(0, 0), d(2, 0), d(0, 0), d(2, 0));
    assert_eq!(bounds(split(r, 1)), Some((d(0, 0), d(1, 0), d(0, 0), d(1, 0))));
    assert_eq!(bounds(split(r, 2)), Some((d(1, 0), d(2, 0), d(0, 0), d(1, 0))));
    assert_eq!(bounds(split(r, 3)), Some((d(0, 0), d(1, 0), d(1, 0), d(2, 0))));
    assert_eq!(bounds(split(r, 4)), Some((d(1, 0), d(2, 0), d(1, 0), d(2, 0))));
    assert!(bounds(split(r, 5)).is_none());
    assert!(bounds(split(Interval::Empty, 1)).is_none());
}

#[test]
fn psi_subdivides_letter_by_letter() {
    let square = Interval::new(d(-1, 0), d(1, 0), d(-1, 0), d(1, 0));
    assert_eq!(
        bounds(psi(square, &[4, 1])),
        Some((d(0, 0), d(1, -1), d(0, 0), d(1, -1)))
    );
    assert_eq!(bounds(psi(square, &[])), bounds(square));
    assert!(bounds(psi(square, &[2, 0, 1])).is_none());
}

#[test]
fn all_words_in_order() {
    let w = generate_all_words(2);
    assert_eq!(w.len(), 16);
    assert_eq!(w[0], vec![1, 1]);
    assert_eq!(w[1], vec![1, 2]);
    assert_eq!(w[4], vec![2, 1]);
    assert_eq!(w[15], vec![4, 4]);
    assert_eq!(generate_all_words(0), vec![Vec::<u8>::new()]);
    let w3 = generate_all_words(3);
    assert_eq!(w3.len(), 64);
    // every word appears once
    for i in 0..w3.len() {
        for j in (i + 1)..w3.len() {
            assert_ne!(w3[i], w3[j]);
        }
    }
}

#[test]
fn random_words_use_the_four_letters() {
    for len in [0, 1, 7, 40] {
        let w = generate_word(len);
        assert_eq!(w.len(), len as usize);
        assert!(w.iter().all(|&l| (1..=4).contains(&l)));
    }
}

#[test]
fn t_vector_counts_up_repeatedly() {
    assert_eq!(t_vector(10), vec![0, 1, 0, 1, 2, 0, 1, 2, 3, 0]);
    assert_eq!(t_vector(0), Vec::<usize>::new());
}

#[test]
fn psi_infinity_takes_the_centres() {
    let out = psi_infinity(&vec![d(1, 0)], &vec![0], &vec![4]);
    assert_eq!(out, vec![ComplexDyadic::one(), ComplexDyadic::new(d(1, -1), d(1, -1))]);

    let m = vec![d(1, 0), d(1, -1)];
    let t = vec![0, 1, 0];
    let word = vec![1, 2, 3];
    let out = psi_infinity(&m, &t, &word);
    assert_eq!(
        out,
        vec![
            ComplexDyadic::one(),
            ComplexDyadic::new(d(-3, -2), d(-1, -2)),
            ComplexDyadic::new(d(1, -2), d(-1, -2)),
        ]
    );
}

#[test]
fn law_psi_infinity_stays_in_the_bounding_box() {
    let m = vec![d(1, 0), d(1, -1), d(1, -2)];
    let t = t_vector(12);
    for word in generate_all_words(3) {
        let out = psi_infinity(&m, &t, &word);
        for n in 0..m.len() {
            let z = out[n + 1];
            let lo = m[n] * d(-1, 0);
            assert!(lo <= z.re && z.re <= m[n]);
            assert!(lo <= z.im && z.im <= m[n]);
        }
    }
}

#[test]
fn psi_halves_the_sides_per_letter() {
    let unit = Interval::new(d(0, 0), d(1, 0), d(0, 0), d(1, 0));
    let (a, b, c, e) = bounds(psi(unit, &[1, 4, 2])).unwrap();
    assert!(b - a == d(1, -3));
    assert!(e - c == d(1, -3));
}

#[test]
fn psi_of_a_concatenation_is_psi_twice() {
    let unit = Interval::new(d(0, 0), d(1, 0), d(0, 0), d(1, 0));
    let once = bounds(psi(unit, &[3, 2, 4, 1])).unwrap();
    let twice = bounds(psi(psi(unit, &[3, 2]), &[4, 1])).unwrap();
    assert!(once.0 == twice.0 && once.1 == twice.1 && once.2 == twice.2 && once.3 == twice.3);
}

#[test]
fn try_psi_infinity_reports_empty_boxes() {
    let m = vec![d(1, -1), d(1, -1)];
    let t = t_vector(10);
    let ok = try_psi_infinity(&m, &t, &vec![1, 2, 3, 4]).unwrap();
    assert_eq!(ok, psi_infinity(&m, &t, &vec![1, 2, 3, 4]));
    // a letter outside 1..4 selected for a step empties its box
    assert!(try_psi_infinity(&m, &t, &vec![5, 2, 3, 4]).is_none());
    let unit = Interval::new(d(0, 0), d(1, 0), d(0, 0), d(1, 0));
    assert!(bounds(try_psi(unit, &[1, 4]).unwrap()).is_some());
}
