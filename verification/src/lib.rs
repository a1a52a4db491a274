//! Verified building blocks for approximating Landau's constant: exact
//! dyadic arithmetic, power series selected by words over {1, 2, 3, 4},
//! covering grids of image sets, and the choices of Lemma 6 of Rettinger's
//! algorithm.
pub mod arith;
pub mod dyadic;
pub mod dyadic_laws;
pub mod complex;
pub mod interval;
pub mod holomorphic;
pub mod holomorphic_laws;
pub mod complex_laws;
pub mod psi;
pub mod covering_grids;
pub mod corollary_2;
pub mod evaluation;
pub mod ui;
pub mod edt;
pub mod checked;
pub mod lattice;
