use landau::covering_grids::GridBitmap;
use landau::complex::ComplexDyadic;
use landau::dyadic::Dyadic;
use landau::edt::{
    edt_1d_squared, edt_2d_squared, max_inside_squared_distance, max_inside_squared_distance_of_points, FAR,
};
use landau::lattice::nearest_lattice_index;

#[test]
fn single_source_parabola() {
    // f has a single zero (source) at index k
    let n = 11usize;
    let k = 4usize;
    let mut f = vec![FAR; n];
    f[k] = 0;

    let g = edt_1d_squared(&f);
    for i in 0..n {
        let ref_val = (i as i128 - k as i128).pow(2);
        assert_eq!(g[i], ref_val, "i={i}");
    }
}

#[test]
fn row_with_two_sources_takes_the_nearer() {
    let f = vec![0, FAR, FAR, FAR, FAR, 0, FAR];
    assert_eq!(edt_1d_squared(&f), vec![0, 1, 4, 4, 1, 0, 1]);
}

#[test]
fn row_values_are_added_to_the_distances() {
    // g[x] = min_p (x - p)^2 + f[p]
    let f = vec![5, 0, 7, 3];
    assert_eq!(edt_1d_squared(&f), vec![1, 0, 1, 3]);
}

#[test]
fn row_of_one_cell_is_unchanged() {
    assert_eq!(edt_1d_squared(&[9]), vec![9]);
}

#[test]
fn row_without_sources_stays_far() {
    assert_eq!(edt_1d_squared(&[FAR, FAR, FAR]), vec![FAR, FAR, FAR]);
}

#[test]
fn image_with_one_source_in_the_middle() {
    let mut img = vec![FAR; 9];
    img[4] = 0;
    edt_2d_squared(&mut img, 3, 3);
    assert_eq!(img, vec![2, 1, 2, 1, 0, 1, 2, 1, 2]);
}

#[test]
fn image_of_one_row_is_a_row_transform() {
    let mut img = vec![0, FAR, FAR, FAR];
    edt_2d_squared(&mut img, 4, 1);
    assert_eq!(img, vec![0, 1, 4, 9]);
}

#[test]
fn empty_image_is_left_alone() {
    let mut img: Vec<i128> = vec![];
    edt_2d_squared(&mut img, 0, 0);
    assert!(img.is_empty());
}

#[test]
fn inside_distance_of_a_filled_square() {
    // a 3x3 block inside a 5x5 bitmap: the centre is two cells from the outside
    let mut data = vec![0u8; 25];
    for y in 1..4 {
        for x in 1..4 {
            data[y * 5 + x] = 1;
        }
    }
    let g = GridBitmap { width: 5, height: 5, origin_i: 0, origin_j: 0, data };
    assert_eq!(max_inside_squared_distance(&g), 4);
}

#[test]
fn inside_distance_without_outside_cells_is_far() {
    let g = GridBitmap { width: 2, height: 2, origin_i: 0, origin_j: 0, data: vec![1, 1, 1, 1] };
    assert_eq!(max_inside_squared_distance(&g), FAR);
}

#[test]
fn inside_distance_without_inside_cells_is_zero() {
    let g = GridBitmap { width: 3, height: 2, origin_i: 0, origin_j: 0, data: vec![0; 6] };
    assert_eq!(max_inside_squared_distance(&g), 0);
}

#[test]
fn inside_distance_with_short_data() {
    // cells past the end of the data count as outside
    let g = GridBitmap { width: 3, height: 1, origin_i: 0, origin_j: 0, data: vec![1, 1] };
    assert_eq!(max_inside_squared_distance(&g), 4);
}

fn pt(a: i128, ea: i32, b: i128, eb: i32) -> ComplexDyadic {
    ComplexDyadic::new(Dyadic::new(a, ea), Dyadic::new(b, eb))
}

#[test]
fn nearest_lattice_index_at_any_exponents() {
    let one = Dyadic::new(1, 0);
    assert_eq!(nearest_lattice_index(Dyadic::new(5, -1), one), Some(3)); // 2.5 rounds away
    assert_eq!(nearest_lattice_index(Dyadic::new(-5, -1), one), Some(-3));
    assert_eq!(nearest_lattice_index(Dyadic::new(7, -2), one), Some(2)); // 1.75
    assert_eq!(nearest_lattice_index(Dyadic::new(1, -100), Dyadic::new(1, -9)), Some(0));
    assert_eq!(nearest_lattice_index(Dyadic::new(1, -200), one), Some(0));
    assert_eq!(nearest_lattice_index(Dyadic::new(1, -1), one), Some(1)); // 0.5 rounds away
    assert_eq!(nearest_lattice_index(Dyadic::new(3, 10), Dyadic::new(3, 0)), Some(1024));
    assert_eq!(nearest_lattice_index(Dyadic::new(1, 40), one), None);
    assert_eq!(nearest_lattice_index(Dyadic::new(i128::MAX, 0), Dyadic::new(i128::MAX, -20)), Some(1 << 20));
}

#[test]
fn largest_disk_of_a_point_set() {
    let delta = Dyadic::new(1, 0);
    // a 3 by 3 block of lattice points: the centre is two cells from the outside
    let mut block = Vec::new();
    for a in 0..3 {
        for b in 0..3 {
            block.push(pt(a, 0, b, 0));
        }
    }
    assert_eq!(max_inside_squared_distance_of_points(&block, delta), 4);
    // one point, far finer than the lattice
    assert_eq!(max_inside_squared_distance_of_points(&[pt(1, -100, 3, -1)], Dyadic::new(1, -9)), 1);
    // duplicates snap to the same cell
    let twice = vec![pt(1, 0, 1, 0), pt(9, -3, 7, -3)];
    assert_eq!(max_inside_squared_distance_of_points(&twice, delta), 1);
}
