use landau::complex::ComplexDyadic;
use landau::covering_grids::{
    bitmap_to_complex_set, covering_grid_bitmap, create_covering_grid, extreme_points,
    floor_points_to_exponent, floor_to_exponent, grid_complement, grid_input_fits, unit_disk_n,
    unit_disk_n_boundary, GridBitmap,
};
use landau::dyadic::Dyadic;

fn d(n: i128, e: i32) -> Dyadic {
    Dyadic::new(n, e)
}

fn c(re: Dyadic, im: Dyadic) -> ComplexDyadic {
    ComplexDyadic::new(re, im)
}

fn ci(a: i128, b: i128) -> ComplexDyadic {
    c(d(a, 0), d(b, 0))
}

/// The two parts as integers over `2^e`, for parts that are exact multiples of it.
fn at(x: Dyadic, e: i32) -> i128 {
    if x.exponent >= e {
        x.numerator << (x.exponent - e)
    } else {
        let s = e - x.exponent;
        assert_eq!(x.numerator % (1 << s), 0);
        x.numerator >> s
    }
}

#[test]
fn unit_disk_points_in_order() {
    let p = unit_disk_n(0);
    assert_eq!(p, vec![ci(-1, 0), ci(0, -1), ci(0, 0), ci(0, 1), ci(1, 0)]);
    assert_eq!(unit_disk_n(-1).len(), 13);
    let q = unit_disk_n(-1);
    assert!(q.iter().all(|z| z.re.exponent == -1 && z.im.exponent == -1));
    assert_eq!(q[0], c(d(-1, 0), d(0, 0)));
}

#[test]
fn unit_disk_boundary_ring() {
    let p = unit_disk_n_boundary(0);
    assert_eq!(p.len(), 8);
    assert!(!p.contains(&ci(0, 0)));
    // with step 1/2 the ring holds the points with 4 <= a^2 + b^2 <= 9 (in half steps)
    let q = unit_disk_n_boundary(-1);
    for z in &q {
        let (a, b) = (at(z.re, -1), at(z.im, -1));
        assert!(4 <= a * a + b * b && a * a + b * b <= 9);
    }
    assert_eq!(q.len(), 16);
}

#[test]
fn extreme_points_first_of_each() {
    let v = vec![ci(0, 0), ci(1, -1), ci(-1, 2), ci(1, 3)];
    let e = extreme_points(&v).unwrap();
    assert_eq!(e, vec![ci(-1, 2), ci(1, -1), ci(1, -1), ci(1, 3)]);
    assert_eq!(extreme_points(&vec![]), None);
}

#[test]
fn covering_bitmap_of_one_point() {
    let g = covering_grid_bitmap(&[ci(0, 0)], d(1, 0), d(1, 0));
    assert_eq!((g.width, g.height, g.origin_i, g.origin_j), (5, 5, -2, -2));
    let ones: Vec<usize> = (0..g.data.len()).filter(|&k| g.data[k] != 0).collect();
    assert_eq!(ones, vec![7, 11, 12, 13, 17]);
}

#[test]
fn bitmap_points_in_entry_order() {
    let g = covering_grid_bitmap(&[ci(0, 0)], d(1, 0), d(1, 0));
    let pts = bitmap_to_complex_set(&g, d(1, 0));
    assert_eq!(pts, vec![ci(0, -1), ci(-1, 0), ci(0, 0), ci(1, 0), ci(0, 1)]);
    let half = bitmap_to_complex_set(&g, d(1, -1));
    assert_eq!(half[0], c(d(0, 0), d(-1, -1)));
    // with a zero step every cell is the origin, listed once
    let zero = bitmap_to_complex_set(&g, d(0, 0));
    assert_eq!(zero, vec![ci(0, 0)]);
    let empty = GridBitmap { width: 2, height: 1, origin_i: 0, origin_j: 0, data: vec![] };
    assert!(bitmap_to_complex_set(&empty, d(1, 0)).is_empty());
}

#[test]
fn covering_grid_of_one_point() {
    let pts = create_covering_grid(&vec![ci(0, 0)], d(1, 0), d(1, 0));
    assert_eq!(pts, vec![ci(0, -1), ci(-1, 0), ci(0, 0), ci(1, 0), ci(0, 1)]);
    assert!(create_covering_grid(&vec![], d(1, 0), d(1, 0)).is_empty());
}

#[test]
fn law_covering_grid_is_the_eps_neighbourhood() {
    // points 0 and 3/2 + i/2, eps = 1, delta = 1/2: in half steps the points are
    // (0, 0) and (3, 1), and a cell is covered within 2 half steps
    let set = vec![ci(0, 0), c(d(3, -1), d(1, -1))];
    let grid = create_covering_grid(&set, d(1, 0), d(1, -1));
    let cells: Vec<(i128, i128)> = grid.iter().map(|z| (at(z.re, -1), at(z.im, -1))).collect();
    for i in -8..=8i128 {
        for j in -8..=8i128 {
            let near = (i * i + j * j <= 4) || ((i - 3) * (i - 3) + (j - 1) * (j - 1) <= 4);
            assert_eq!(cells.contains(&(i, j)), near, "cell ({i}, {j})");
        }
    }
    // each point once
    for a in 0..cells.len() {
        for b in (a + 1)..cells.len() {
            assert_ne!(cells[a], cells[b]);
        }
    }
}

#[test]
fn law_grid_complement_fills_the_box() {
    let set = create_covering_grid(&vec![ci(0, 0)], d(1, 0), d(1, 0));
    let comp = grid_complement(&set, d(1, 0));
    assert_eq!(comp.len(), 20);
    for z in &comp {
        assert!(!set.contains(z));
    }
    for i in -2..=2i128 {
        for j in -2..=2i128 {
            let p = ci(i, j);
            assert!(set.contains(&p) != comp.contains(&p), "cell ({i}, {j})");
        }
    }
    // a point off the lattice: its box is rounded outward
    let odd = vec![c(d(1, -2), d(-3, -2))];
    let comp = grid_complement(&odd, d(1, -1));
    // re: floor(1/2) - 1 = -1 .. ceil(1/2) + 1 = 2; im: floor(-3/2) - 1 = -3 .. ceil(-3/2) + 1 = 0
    assert_eq!(comp.len(), 4 * 4);
    assert_eq!(comp[0], c(d(-1, -1), d(-3, -1)));
}

#[test]
fn grid_complement_with_zero_step() {
    let zeros = vec![c(d(0, 3), d(0, 0))];
    // the stored origin is not written as (0, 0) over 2^0, so it is not removed
    assert_eq!(grid_complement(&zeros, d(0, 0)), vec![ci(0, 0)]);
    assert!(grid_complement(&vec![ci(0, 0)], d(0, 0)).is_empty());
}

#[test]
fn law_bitmap_border_is_complement_on_samples() {
    let sets = vec![
        vec![ci(0, 0)],
        vec![c(d(3, -1), d(-5, -2)), ci(1, 1), c(d(-7, -3), d(1, -1))],
    ];
    for set in sets {
        for (eps, delta) in [(d(1, 0), d(1, 0)), (d(1, -1), d(1, -2)), (d(3, -2), d(1, -1))] {
            let g = covering_grid_bitmap(&set, eps, delta);
            for y in 0..g.height {
                for x in 0..g.width {
                    if x == 0 || y == 0 || x == g.width - 1 || y == g.height - 1 {
                        assert_eq!(g.data[y * g.width + x], 0);
                    }
                }
            }
        }
    }
}

#[test]
fn floor_to_exponent_rounds_down() {
    // 5/8 down to a multiple of 1/2 is 1/2; -5/8 is -1
    let r = floor_to_exponent(d(5, -3), -1);
    assert_eq!((r.numerator, r.exponent), (1, -1));
    let r = floor_to_exponent(d(-5, -3), -1);
    assert_eq!((r.numerator, r.exponent), (-2, -1));
    // already a multiple: unchanged
    let r = floor_to_exponent(d(3, 2), 0);
    assert_eq!((r.numerator, r.exponent), (3, 2));
    // far below the step
    let r = floor_to_exponent(d(7, -200), 0);
    assert_eq!((r.numerator, r.exponent), (0, 0));
    let r = floor_to_exponent(d(-7, -200), 0);
    assert_eq!((r.numerator, r.exponent), (-1, 0));
}

#[test]
fn grid_input_fits_decides_the_bound() {
    assert!(grid_input_fits(&[ci(0, 0), ci(3, -2)], d(1, 0), d(1, 0)));
    // 1 + 2^-61 i: over the finest exponent the real part needs 62 bits
    let fine = c(d(1, 0), d(1, -61));
    assert!(!grid_input_fits(&[fine], d(1, 0), d(1, 0)));
    // rounded to 2^-40 it fits
    let rounded = floor_points_to_exponent(&[fine], -40);
    assert!(grid_input_fits(&rounded, d(1, 0), d(1, 0)));
    assert!(!grid_input_fits(&[], d(1, 0), d(1, 0)));
    assert!(!grid_input_fits(&[ci(0, 0)], d(1, 0), d(0, 0)));
}

#[test]
fn grid_complement_of_a_point_far_finer_than_delta() {
    // the box of {2^-130} on the unit lattice is 4 columns by 3 rows, and
    // the point itself is no lattice point
    let comp = grid_complement(&vec![c(d(1, -130), d(0, 0))], d(1, 0));
    assert_eq!(comp.len(), 12);
    assert!(comp.contains(&ci(-1, -1)) && comp.contains(&ci(2, 1)) && comp.contains(&ci(0, 0)));
}

#[test]
fn covering_grid_bitmap_rounded_takes_fine_points() {
    use_rounded();
}

fn use_rounded() {
    let pts = vec![ci(0, 0), ci(2, 1)];
    let exact = covering_grid_bitmap(&pts, d(1, 0), d(1, 0));
    let r = landau::lattice::covering_grid_bitmap_rounded(&pts, d(1, 0), d(1, 0)).unwrap();
    assert_eq!((r.width, r.height, r.origin_i, r.origin_j), (exact.width, exact.height, exact.origin_i, exact.origin_j));
    assert_eq!(r.data, exact.data);
    // a point at 2^-100 with delta = epsilon = 2^-9 is rounded to 2^-41 first
    let fine = vec![c(d(1, -100), d(0, 0))];
    assert!(!grid_input_fits(&fine, d(1, -9), d(1, -9)));
    let g = landau::lattice::covering_grid_bitmap_rounded(&fine, d(1, -9), d(1, -9)).unwrap();
    let direct = covering_grid_bitmap(&[c(d(0, 0), d(0, 0))], d(1, -9), d(1, -9));
    assert_eq!(g.data, direct.data);
}
