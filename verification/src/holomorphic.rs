//! Holomorphic functions given by the coefficients of their power series.
use crate::complex::{add_complex_vec, complex_zero, padded_c, sub_complex_vec, ComplexDyadic};
use crate::dyadic::{add_vec, dyadic_zero, max_len, padded, Dyadic};
use vstd::prelude::*;

verus! {

/// `k + 0i`, written `k * 2^0 + (0 * 2^0) i`.
pub open spec fn int_c(k: int) -> ComplexDyadic {
    ComplexDyadic { re: Dyadic { numerator: k as i128, exponent: 0 }, im: dyadic_zero() }
}

/// The sequence `n -> vec[n]`, zero past the end of `vec`.
pub fn vec_to_sequence(vec: &Vec<Dyadic>) -> (f: impl Fn(u32) -> Dyadic + '_)
    ensures
        forall|n: u32| #[trigger] f.requires((n,)),
        forall|n: u32, d: Dyadic| f.ensures((n,), d) ==> d == padded(vec@, n as int),
{
    move |n: u32| -> (d: Dyadic)
        ensures
            d == padded(vec@, n as int),
        {
            if (n as usize) < vec.len() {
                vec[n as usize]
            } else {
                Dyadic::zero()
            }
        }
}

/// The sequence `n -> vec[n]`, zero past the end of `vec`.
pub fn comp_vec_to_sequence(vec: Vec<ComplexDyadic>) -> (f: impl Fn(u32) -> ComplexDyadic)
    ensures
        forall|n: u32| #[trigger] f.requires((n,)),
        forall|n: u32, c: ComplexDyadic| f.ensures((n,), c) ==> c == padded_c(vec@, n as int),
{
    let ghost v = vec@;
    move |n: u32| -> (c: ComplexDyadic)
        ensures
            c == padded_c(v, n as int),
        {
            if (n as usize) < vec.len() {
                vec[n as usize]
            } else {
                ComplexDyadic::zero()
            }
        }
}


/// A bounding sequence `m_i`: the coefficients of the functions considered
/// have real and imaginary parts bounded by `m_i`.
pub struct BoundingSequence {
    vector: Vec<Dyadic>,
}

impl View for BoundingSequence {
    type V = Seq<Dyadic>;

    closed spec fn view(&self) -> Seq<Dyadic> {
        self.vector@
    }
}

impl Clone for BoundingSequence {
    /// A copy with the same entries.
    fn clone(&self) -> (r: BoundingSequence)
        ensures
            r@ == self@,
    {
        BoundingSequence { vector: self.vector.clone() }
    }
}

impl BoundingSequence {
    /// The bounding sequence with the given entries.
    pub fn new(vector: Vec<Dyadic>) -> (r: BoundingSequence)
        ensures
            r@ == vector@,
    {
        BoundingSequence { vector }
    }
}

/// Entry-wise sums of two sequences of dyadics, the shorter padded with zeros, can be computed.
pub open spec fn add_seq_ok(a: Seq<Dyadic>, b: Seq<Dyadic>) -> bool {
    forall|i: int| 0 <= i < max_len(a.len(), b.len()) ==> #[trigger] padded(a, i).add_ok(padded(b, i))
}

/// Entry-wise sums of two coefficient sequences, the shorter padded with zeros, can be computed.
pub open spec fn add_coeffs_ok(a: Seq<ComplexDyadic>, b: Seq<ComplexDyadic>) -> bool {
    forall|i: int|
        0 <= i < max_len(a.len(), b.len()) ==> #[trigger] padded_c(a, i).add_ok(padded_c(b, i))
}

/// Entry-wise differences of two coefficient sequences can be computed.
pub open spec fn sub_coeffs_ok(a: Seq<ComplexDyadic>, b: Seq<ComplexDyadic>) -> bool {
    forall|i: int|
        0 <= i < max_len(a.len(), b.len()) ==> #[trigger] padded_c(a, i).sub_ok(padded_c(b, i))
}

impl vstd::std_specs::ops::AddSpecImpl for BoundingSequence {
    open spec fn obeys_add_spec() -> bool {
        false
    }

    open spec fn add_req(self, rhs: BoundingSequence) -> bool {
        add_seq_ok(self@, rhs@)
    }

    // Not used, since `obeys_add_spec` is false: the entries of a sum cannot
    // be written as a `Vec` in a specification, so `add` states them itself.
    open spec fn add_spec(self, rhs: BoundingSequence) -> BoundingSequence {
        self
    }
}

impl core::ops::Add for BoundingSequence {
    type Output = BoundingSequence;

    /// Entry-wise sum, the shorter sequence padded with zeros.
    fn add(self, other: BoundingSequence) -> (r: BoundingSequence)
        ensures
            r@.len() == max_len(self@.len(), other@.len()),
            forall|i: int|
                0 <= i < r@.len() ==> r@[i] == #[trigger] padded(self@, i).sum(padded(other@, i)),
    {
        BoundingSequence { vector: add_vec(&self.vector, &other.vector) }
    }
}


/// The coefficients `c_0, c_1, ...` of a power series `sum c_k z^k`.
pub struct ExpansionCoefficients {
    pub vector: Vec<ComplexDyadic>,
}

impl Clone for ExpansionCoefficients {
    /// A copy with the same coefficients.
    fn clone(&self) -> (r: ExpansionCoefficients)
        ensures
            r.vector@ == self.vector@,
    {
        ExpansionCoefficients { vector: self.vector.clone() }
    }
}

/// The coefficients of the derivative: `k c_k` moved down to index `k - 1`;
/// a constant (or empty) series gives the single coefficient zero.
pub open spec fn derivative_coeffs(c: Seq<ComplexDyadic>) -> Seq<ComplexDyadic> {
    if c.len() <= 1 {
        seq![complex_zero()]
    } else {
        Seq::new((c.len() - 1) as nat, |j: int| c[j + 1].product(int_c(j + 1)))
    }
}

/// Every product `k c_k` of the derivative can be computed.
pub open spec fn derivative_ok(c: Seq<ComplexDyadic>) -> bool {
    &&& c.len() <= i64::MAX
    &&& forall|k: int| 1 <= k < c.len() ==> #[trigger] c[k].mul_ok(int_c(k))
}

/// The coefficients of the antiderivative with constant term zero: `c_k / (k + 1)`
/// at index `k + 1`, each part divided with `div_with_precision` and `bits` extra bits.
pub open spec fn antiderivative_coeffs(c: Seq<ComplexDyadic>, bits: u32) -> Seq<ComplexDyadic> {
    Seq::new(
        c.len() + 1,
        |j: int|
            if j == 0 {
                complex_zero()
            } else {
                ComplexDyadic {
                    re: c[j - 1].re.rounded_quotient(Dyadic { numerator: j as i128, exponent: 0 }, bits),
                    im: c[j - 1].im.rounded_quotient(Dyadic { numerator: j as i128, exponent: 0 }, bits),
                }
            },
    )
}

/// The coefficients of the antiderivative with constant term zero that
/// `ComplexFunction::antiderivative` gives: `c_k / (k + 1)` at index `k + 1`,
/// each divided with the `/` of `ComplexDyadic` (to the nearest `2^-30`).
pub open spec fn quotient_antiderivative_coeffs(c: Seq<ComplexDyadic>) -> Seq<ComplexDyadic> {
    Seq::new(
        c.len() + 1,
        |j: int|
            if j == 0 {
                complex_zero()
            } else {
                c[j - 1].quotient(int_c(j))
            },
    )
}

/// Every division of the antiderivative can be computed.
pub open spec fn antiderivative_ok(c: Seq<ComplexDyadic>, bits: u32) -> bool {
    &&& c.len() < i64::MAX
    &&& c.len() < usize::MAX
    &&& forall|k: int| 0 <= k < c.len() ==> #[trigger] c[k].div_i64_ok((k + 1) as i64, bits)
}

/// The value of `sum c_k z^k` by Horner's rule, `c_0 + z (c_1 + z (c_2 + ...))`,
/// with exact operations; the empty series is zero.
pub open spec fn horner(c: Seq<ComplexDyadic>, z: ComplexDyadic) -> ComplexDyadic
    decreases c.len(),
{
    if c.len() == 0 {
        complex_zero()
    } else {
        horner(c.drop_first(), z).product(z).sum(c[0])
    }
}

/// Every step of `horner` stays within `i128`/`i32`.
pub open spec fn horner_ok(c: Seq<ComplexDyadic>, z: ComplexDyadic) -> bool
    decreases c.len(),
{
    if c.len() == 0 {
        true
    } else {
        &&& horner_ok(c.drop_first(), z)
        &&& horner(c.drop_first(), z).mul_ok(z)
        &&& horner(c.drop_first(), z).product(z).add_ok(c[0])
    }
}

/// Horner evaluation of the coefficient sequence at `z`.
fn eval_coeffs(c: &Vec<ComplexDyadic>, z: &ComplexDyadic) -> (r: ComplexDyadic)
    requires
        horner_ok(c@, *z),
    ensures
        r == horner(c@, *z),
{
    let mut acc = ComplexDyadic::zero();
    let mut i = c.len();
    proof {
        assert(c@.skip(i as int) =~= Seq::<ComplexDyadic>::empty());
        assert forall|j: int| 0 <= j <= c@.len() implies #[trigger] horner_ok(c@.skip(j), *z) by {
            lemma_horner_ok_tails(c@, *z, j);
        }
    }
    while i > 0
        invariant
            i <= c@.len(),
            acc == horner(c@.skip(i as int), *z),
            forall|j: int| 0 <= j <= c@.len() ==> #[trigger] horner_ok(c@.skip(j), *z),
        decreases i,
    {
        proof {
            let s = c@.skip(i - 1);
            assert(s.drop_first() =~= c@.skip(i as int));
            assert(s[0] == c@[i - 1]);
            assert(horner_ok(s, *z));
        }
        acc = acc * *z + c[i - 1];
        i = i - 1;
    }
    proof {
        assert(c@.skip(0) =~= c@);
    }
    acc
}

/// `horner_ok` for a sequence holds for each of its tails.
pub proof fn lemma_horner_ok_tails(c: Seq<ComplexDyadic>, z: ComplexDyadic, j: int)
    requires
        horner_ok(c, z),
        0 <= j <= c.len(),
    ensures
        horner_ok(c.skip(j), z),
    decreases j,
{
    if j > 0 {
        lemma_horner_ok_tails(c.drop_first(), z, j - 1);
        assert(c.drop_first().skip(j - 1) =~= c.skip(j));
    } else {
        assert(c.skip(0) =~= c);
    }
}

impl ExpansionCoefficients {
    /// The series with the given coefficients.
    pub fn new(vector: Vec<ComplexDyadic>) -> (r: ExpansionCoefficients)
        ensures
            r.vector@ == vector@,
    {
        ExpansionCoefficients { vector }
    }

    /// The coefficients of `f'` for `f(z) = sum c_k z^k`.
    pub fn derivative(&self) -> (r: ExpansionCoefficients)
        requires
            derivative_ok(self.vector@),
        ensures
            r.vector@ == derivative_coeffs(self.vector@),
    {
        let n = self.vector.len();
        if n <= 1 {
            let r = ExpansionCoefficients { vector: vec![ComplexDyadic::zero()] };
            assert(r.vector@ =~= derivative_coeffs(self.vector@));
            return r;
        }
        let mut out: Vec<ComplexDyadic> = Vec::with_capacity(n - 1);
        let mut k: usize = 1;
        while k < n
            invariant
                1 <= k <= n,
                n == self.vector@.len(),
                out@.len() == k - 1,
                derivative_ok(self.vector@),
                forall|j: int|
                    0 <= j < k - 1 ==> out@[j] == #[trigger] self.vector@[j + 1].product(
                        int_c(j + 1),
                    ),
            decreases n - k,
        {
            let factor = ComplexDyadic::from_i64(k as i64);
            assert(factor == int_c(k as int));
            assert(self.vector@[k as int].mul_ok(int_c(k as int)));
            out.push(self.vector[k] * factor);
            k = k + 1;
        }
        let r = ExpansionCoefficients { vector: out };
        assert(r.vector@ =~= derivative_coeffs(self.vector@));
        r
    }

    /// The coefficients of the antiderivative `F` with `F(0) = 0`: `c_k / (k + 1)`
    /// at index `k + 1`, divided with `bits` extra fractional bits.
    pub fn antiderivative(&self, bits: u32) -> (r: ExpansionCoefficients)
        requires
            antiderivative_ok(self.vector@, bits),
        ensures
            r.vector@ == antiderivative_coeffs(self.vector@, bits),
    {
        let n = self.vector.len();
        let mut out: Vec<ComplexDyadic> = Vec::with_capacity(n + 1);
        out.push(ComplexDyadic::zero());
        let mut k: usize = 0;
        while k < n
            invariant
                k <= n,
                n == self.vector@.len(),
                out@.len() == k + 1,
                antiderivative_ok(self.vector@, bits),
                forall|j: int|
                    0 <= j < k + 1 ==> out@[j] == #[trigger] antiderivative_coeffs(
                        self.vector@,
                        bits,
                    )[j],
            decreases n - k,
        {
            assert(self.vector@[k as int].div_i64_ok((k + 1) as i64, bits));
            out.push(self.vector[k].div_i64((k as i64) + 1, bits));
            k = k + 1;
        }
        let r = ExpansionCoefficients { vector: out };
        assert(r.vector@ =~= antiderivative_coeffs(self.vector@, bits));
        r
    }

    /// `sum c_k z^k`, evaluated exactly by Horner's rule.
    pub fn eval(&self, z: &ComplexDyadic) -> (r: ComplexDyadic)
        requires
            horner_ok(self.vector@, *z),
        ensures
            r == horner(self.vector@, *z),
    {
        eval_coeffs(&self.vector, z)
    }
}

impl vstd::std_specs::ops::AddSpecImpl for ExpansionCoefficients {
    open spec fn obeys_add_spec() -> bool {
        false
    }

    open spec fn add_req(self, rhs: ExpansionCoefficients) -> bool {
        add_coeffs_ok(self.vector@, rhs.vector@)
    }

    // Not used, since `obeys_add_spec` is false: `add` states its result itself.
    open spec fn add_spec(self, rhs: ExpansionCoefficients) -> ExpansionCoefficients {
        self
    }
}

impl core::ops::Add for ExpansionCoefficients {
    type Output = ExpansionCoefficients;

    /// Coefficient-wise sum, the shorter series padded with zeros.
    fn add(self, other: ExpansionCoefficients) -> (r: ExpansionCoefficients)
        ensures
            r.vector@.len() == max_len(self.vector@.len(), other.vector@.len()),
            forall|i: int|
                0 <= i < r.vector@.len() ==> r.vector@[i] == #[trigger] padded_c(self.vector@, i).sum(
                    padded_c(other.vector@, i),
                ),
    {
        ExpansionCoefficients { vector: add_complex_vec(&self.vector, &other.vector) }
    }
}

impl vstd::std_specs::ops::SubSpecImpl for ExpansionCoefficients {
    open spec fn obeys_sub_spec() -> bool {
        false
    }

    open spec fn sub_req(self, rhs: ExpansionCoefficients) -> bool {
        sub_coeffs_ok(self.vector@, rhs.vector@)
    }

    // Not used, since `obeys_sub_spec` is false: `sub` states its result itself.
    open spec fn sub_spec(self, rhs: ExpansionCoefficients) -> ExpansionCoefficients {
        self
    }
}

impl core::ops::Sub for ExpansionCoefficients {
    type Output = ExpansionCoefficients;

    /// Coefficient-wise difference, the shorter series padded with zeros.
    fn sub(self, other: ExpansionCoefficients) -> (r: ExpansionCoefficients)
        ensures
            r.vector@.len() == max_len(self.vector@.len(), other.vector@.len()),
            forall|i: int|
                0 <= i < r.vector@.len() ==> r.vector@[i] == #[trigger] padded_c(
                    self.vector@,
                    i,
                ).difference(padded_c(other.vector@, i)),
    {
        ExpansionCoefficients { vector: sub_complex_vec(&self.vector, &other.vector) }
    }
}


/// The number of terms a function is built with by default.
pub const DEFAULT_TERMS: u32 = 1000;

/// A holomorphic function: its bounding sequence and the power-series
/// coefficients, with the number of terms it was built with.
pub struct ComplexFunction {
    bounding_sequence: BoundingSequence,
    pub expansion_coefficients: ExpansionCoefficients,
    upper_limit_of_summation: u32,
}

impl ComplexFunction {
    /// The bounding sequence the function carries.
    pub closed spec fn bounds(self) -> Seq<Dyadic> {
        self.bounding_sequence@
    }

    /// The power-series coefficients.
    pub closed spec fn coefficients(self) -> Seq<ComplexDyadic> {
        self.expansion_coefficients.vector@
    }

    /// The number of terms recorded for summation.
    pub closed spec fn upper_limit(self) -> u32 {
        self.upper_limit_of_summation
    }

    /// A function with the given bounds and coefficients, and the default
    /// number of terms, `DEFAULT_TERMS`.
    pub fn new(
        bounding_sequence: BoundingSequence,
        expansion_coefficients: ExpansionCoefficients,
    ) -> (r: ComplexFunction)
        ensures
            r.bounds() == bounding_sequence@,
            r.coefficients() == expansion_coefficients.vector@,
            r.upper_limit() == DEFAULT_TERMS,
    {
        ComplexFunction { bounding_sequence, expansion_coefficients, upper_limit_of_summation: DEFAULT_TERMS }
    }

    /// `f(z)` by Horner's rule where every step stays within `i128`/`i32`,
    /// and `None` where some step would not.
    pub fn try_eval(&self, z: &ComplexDyadic) -> (r: Option<ComplexDyadic>)
        ensures
            r is Some <==> horner_ok(self.coefficients(), *z),
            r matches Some(x) ==> x == horner(self.coefficients(), *z),
    {
        let c = &self.expansion_coefficients.vector;
        let ghost cs = self.coefficients();
        assert(c@ == cs);
        let mut acc = ComplexDyadic::zero();
        let mut i = c.len();
        proof {
            assert(cs.skip(i as int) =~= Seq::<ComplexDyadic>::empty());
        }
        while i > 0
            invariant
                i <= cs.len(),
                c@ == cs,
                cs == self.coefficients(),
                acc == horner(cs.skip(i as int), *z),
                horner_ok(cs.skip(i as int), *z),
            decreases i,
        {
            let ghost s = cs.skip(i - 1);
            proof {
                assert(s.drop_first() =~= cs.skip(i as int));
                assert(s[0] == cs[i - 1]);
                assert(horner_ok(s, *z) ==> acc.mul_ok(*z) && acc.product(*z).add_ok(cs[i - 1]));
            }
            if !crate::checked::complex_mul_fits(acc, *z) {
                proof {
                    assert(!horner_ok(s, *z));
                    if horner_ok(cs, *z) {
                        lemma_horner_ok_tails(cs, *z, i - 1);
                        assert(false);
                    }
                }
                return None;
            }
            let p = acc * *z;
            if !crate::checked::complex_add_fits(p, c[i - 1]) {
                proof {
                    if horner_ok(cs, *z) {
                        lemma_horner_ok_tails(cs, *z, i - 1);
                    }
                }
                return None;
            }
            acc = p + c[i - 1];
            i = i - 1;
        }
        proof {
            assert(cs.skip(0) =~= cs);
        }
        Some(acc)
    }

    /// `f(z) = sum c_k z^k`, evaluated exactly by Horner's rule.
    pub fn eval(&self, z: &ComplexDyadic) -> (r: ComplexDyadic)
        requires
            horner_ok(self.coefficients(), *z),
        ensures
            r == horner(self.coefficients(), *z),
    {
        eval_coeffs(&self.expansion_coefficients.vector, z)
    }

    /// `f'`: coefficients `k c_k` at index `k - 1`, the same bounds, and one
    /// term fewer. The function must have at least one coefficient.
    pub fn derivative(&self) -> (r: ComplexFunction)
        requires
            self.coefficients().len() >= 1,
            derivative_ok(self.coefficients()),
        ensures
            r.bounds() == self.bounds(),
            r.coefficients() == Seq::new(
                (self.coefficients().len() - 1) as nat,
                |j: int| self.coefficients()[j + 1].product(int_c(j + 1)),
            ),
            r.upper_limit() == DEFAULT_TERMS,
    {
        let coefficients = &self.expansion_coefficients.vector;
        let length = coefficients.len();
        let mut derivative_coefficients: Vec<ComplexDyadic> = Vec::with_capacity(length - 1);
        let mut i: usize = 1;
        while i < length
            invariant
                1 <= i <= length,
                length == coefficients@.len(),
                derivative_coefficients@.len() == i - 1,
                derivative_ok(coefficients@),
                forall|j: int|
                    0 <= j < i - 1 ==> derivative_coefficients@[j] == #[trigger] coefficients@[j
                        + 1].product(int_c(j + 1)),
            decreases length - i,
        {
            assert(coefficients@[i as int].mul_ok(int_c(i as int)));
            derivative_coefficients.push(
                coefficients[i] * ComplexDyadic::new(Dyadic::new(i as i128, 0), Dyadic::zero()),
            );
            i = i + 1;
        }
        let r = ComplexFunction::new(
            self.bounding_sequence.clone(),
            ExpansionCoefficients::new(derivative_coefficients),
        );
        assert(r.coefficients() =~= Seq::new(
            (length - 1) as nat,
            |j: int| coefficients@[j + 1].product(int_c(j + 1)),
        ));
        r
    }

    /// What `antiderivative` asks: room for one more term, and every division
    /// `c_k / (k + 1)` within `i128`/`i32`.
    pub open spec fn antiderivative_fits(self) -> bool {
        &&& self.upper_limit() < u32::MAX
        &&& self.coefficients().len() < usize::MAX
        &&& self.coefficients().len() < i128::MAX
        &&& forall|k: int|
            0 <= k < self.coefficients().len() ==> #[trigger] self.coefficients()[k].div_ok(int_c(k + 1))
    }

    /// `antiderivative` where it can be computed, and `None` where it cannot.
    pub fn try_antiderivative(&self) -> (r: Option<ComplexFunction>)
        ensures
            r is Some <==> self.antiderivative_fits(),
            r matches Some(f) ==> f.bounds() == self.bounds() && f.coefficients()
                == quotient_antiderivative_coeffs(self.coefficients()) && f.upper_limit() == self.upper_limit()
                + 1,
    {
        let c = &self.expansion_coefficients.vector;
        let n = c.len();
        if self.upper_limit_of_summation == u32::MAX || n == usize::MAX || n as u128 >= i128::MAX as u128 {
            return None;
        }
        let mut k: usize = 0;
        while k < n
            invariant
                k <= n,
                n == c@.len(),
                c@ == self.coefficients(),
                n < i128::MAX,
                forall|j: int| 0 <= j < k ==> #[trigger] c@[j].div_ok(int_c(j + 1)),
            decreases n - k,
        {
            let d = ComplexDyadic::new(Dyadic::new(k as i128 + 1, 0), Dyadic::zero());
            assert(d == int_c(k + 1));
            if !crate::checked::complex_div_fits(c[k], d) {
                return None;
            }
            k = k + 1;
        }
        Some(self.antiderivative())
    }

    /// The antiderivative with constant term zero: `c_k / (k + 1)` at index
    /// `k + 1`, each divided with the `/` of `ComplexDyadic`; one term more.
    pub fn antiderivative(&self) -> (r: ComplexFunction)
        requires
            self.upper_limit() < u32::MAX,
            self.coefficients().len() < usize::MAX,
            self.coefficients().len() < i128::MAX,
            forall|k: int|
                0 <= k < self.coefficients().len() ==> #[trigger] self.coefficients()[k].div_ok(
                    int_c(k + 1),
                ),
        ensures
            r.bounds() == self.bounds(),
            r.coefficients() == quotient_antiderivative_coeffs(self.coefficients()),
            r.upper_limit() == self.upper_limit() + 1,
    {
        let sequence = &self.expansion_coefficients.vector;
        let n = sequence.len();
        let mut antiderivative_sequence: Vec<ComplexDyadic> = Vec::with_capacity(n + 1);
        antiderivative_sequence.push(ComplexDyadic::zero());
        let ghost want = Seq::new(
            (n + 1) as nat,
            |j: int|
                if j == 0 {
                    complex_zero()
                } else {
                    sequence@[j - 1].quotient(int_c(j))
                },
        );
        let mut i: usize = 0;
        while i < n
            invariant
                i <= n,
                n == sequence@.len(),
                n < i128::MAX,
                antiderivative_sequence@.len() == i + 1,
                forall|k: int| 0 <= k < n ==> #[trigger] sequence@[k].div_ok(int_c(k + 1)),
                want == Seq::new(
                    (n + 1) as nat,
                    |j: int|
                        if j == 0 {
                            complex_zero()
                        } else {
                            sequence@[j - 1].quotient(int_c(j))
                        },
                ),
                forall|j: int| 0 <= j < i + 1 ==> antiderivative_sequence@[j] == #[trigger] want[j],
            decreases n - i,
        {
            assert(sequence@[i as int].div_ok(int_c(i + 1)));
            antiderivative_sequence.push(
                sequence[i] / ComplexDyadic::new(Dyadic::new(i as i128 + 1, 0), Dyadic::zero()),
            );
            i = i + 1;
        }
        assert(antiderivative_sequence@ =~= want);
        ComplexFunction {
            bounding_sequence: self.bounding_sequence.clone(),
            expansion_coefficients: ExpansionCoefficients::new(antiderivative_sequence),
            upper_limit_of_summation: self.upper_limit_of_summation + 1,
        }
    }
}

impl vstd::std_specs::ops::AddSpecImpl for ComplexFunction {
    open spec fn obeys_add_spec() -> bool {
        false
    }

    open spec fn add_req(self, rhs: ComplexFunction) -> bool {
        add_seq_ok(self.bounds(), rhs.bounds()) && add_coeffs_ok(
            self.coefficients(),
            rhs.coefficients(),
        )
    }

    // Not used, since `obeys_add_spec` is false: `add` states its result itself.
    open spec fn add_spec(self, rhs: ComplexFunction) -> ComplexFunction {
        self
    }
}

impl core::ops::Add for ComplexFunction {
    type Output = ComplexFunction;

    /// The sum `f + g`: bounds and coefficients added entry-wise.
    fn add(self, other: ComplexFunction) -> (r: ComplexFunction)
        ensures
            r.bounds().len() == max_len(self.bounds().len(), other.bounds().len()),
            forall|i: int|
                0 <= i < r.bounds().len() ==> r.bounds()[i] == #[trigger] padded(
                    self.bounds(),
                    i,
                ).sum(padded(other.bounds(), i)),
            r.coefficients().len() == max_len(
                self.coefficients().len(),
                other.coefficients().len(),
            ),
            forall|i: int|
                0 <= i < r.coefficients().len()
                    ==> r.coefficients()[i] == #[trigger] padded_c(
                    self.coefficients(),
                    i,
                ).sum(padded_c(other.coefficients(), i)),
    {
        ComplexFunction::new(
            self.bounding_sequence + other.bounding_sequence,
            self.expansion_coefficients + other.expansion_coefficients,
        )
    }
}

impl vstd::std_specs::ops::SubSpecImpl for ComplexFunction {
    open spec fn obeys_sub_spec() -> bool {
        false
    }

    open spec fn sub_req(self, rhs: ComplexFunction) -> bool {
        add_seq_ok(self.bounds(), rhs.bounds()) && sub_coeffs_ok(
            self.coefficients(),
            rhs.coefficients(),
        )
    }

    // Not used, since `obeys_sub_spec` is false: `sub` states its result itself.
    open spec fn sub_spec(self, rhs: ComplexFunction) -> ComplexFunction {
        self
    }
}

impl core::ops::Sub for ComplexFunction {
    type Output = ComplexFunction;

    /// The difference `f - g`: coefficients subtracted, bounds added.
    fn sub(self, other: ComplexFunction) -> (r: ComplexFunction)
        ensures
            r.bounds().len() == max_len(self.bounds().len(), other.bounds().len()),
            forall|i: int|
                0 <= i < r.bounds().len() ==> r.bounds()[i] == #[trigger] padded(
                    self.bounds(),
                    i,
                ).sum(padded(other.bounds(), i)),
            r.coefficients().len() == max_len(
                self.coefficients().len(),
                other.coefficients().len(),
            ),
            forall|i: int|
                0 <= i < r.coefficients().len()
                    ==> r.coefficients()[i] == #[trigger] padded_c(
                    self.coefficients(),
                    i,
                ).difference(padded_c(other.coefficients(), i)),
    {
        ComplexFunction::new(
            self.bounding_sequence + other.bounding_sequence,
            self.expansion_coefficients - other.expansion_coefficients,
        )
    }
}

} // verus!
