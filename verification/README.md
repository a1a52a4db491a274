# landau

Approximation of Landau's constant after R. Rettinger, *On Computable
Approximations of Landau's Constant* (LMCS 8(4:15), 2012). A word over
{1, 2, 3, 4} selects nested squares whose centres are the power-series
coefficients of `f'`; `f` is evaluated on a sampled unit disk, its image is
covered by an epsilon-covering grid, and the radius of the largest disk inside
the grid estimates `lambda_f`. Landau's constant is approximated by the
smallest estimate over many words.

## Layout

- `src/` — the library, verified with Verus:
  - `arith` — integer facts and helpers (powers of two, rounding, floors, square roots);
  - `dyadic`, `dyadic_laws` — exact dyadic rationals `n * 2^e` and the ring laws they obey;
  - `complex` — complex dyadics;
  - `interval`, `psi` — rectangles subdivided by words, all words of a length, and the coefficients `psi_infinity` selects;
  - `holomorphic`, `holomorphic_laws` — power series, derivatives, antiderivatives and Horner evaluation;
  - `covering_grids` — sampled disks, covering grids (bitmap and point set) and grid complements;
  - `corollary_2`, `evaluation` — `r_hat`, `rho` and the lattice step of Lemma 6;
  - `edt` — exact squared Euclidean distance transforms (lower envelopes of
    parabolas) of rows and images, and the largest squared gap inside a
    bitmap or inside the lattice cells of a point set;
  - `lattice` — the nearest lattice index of a dyadic, exactly, at any exponents;
  - `checked` — tests that decide the overflow conditions of the exact
    arithmetic, used by `try_eval`, `try_antiderivative`, `try_psi_infinity`
    and `grid_input_fits`;
  - `ui` — reading words typed by the user and escaping HTML.
- `app/` — the program: the web server (axum), the plots (plotters), the
  searches over words (tokio), and the parts computed in floating point:
  square roots of distances, `epsilon` of Lemma 6, samples of circles.
- `tests/` — tests of the library.

All dyadic arithmetic in the library is exact; comparisons and roundings
that are made with `f64` elsewhere are made on integers here.
