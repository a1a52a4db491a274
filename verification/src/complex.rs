//! Complex numbers with dyadic real and imaginary parts.
use crate::dyadic::{dyadic_one, dyadic_zero, max_len, Dyadic};
use vstd::prelude::*;

verus! {

/// A complex number `re + im * i` with dyadic parts.
#[derive(Debug, Clone, Copy, Hash)]
pub struct ComplexDyadic {
    pub re: Dyadic,
    pub im: Dyadic,
}

/// Zero, with both parts written `0 * 2^0`.
pub open spec fn complex_zero() -> ComplexDyadic {
    ComplexDyadic { re: dyadic_zero(), im: dyadic_zero() }
}

/// One, written `(1 * 2^0) + (0 * 2^0) i`.
pub open spec fn complex_one() -> ComplexDyadic {
    ComplexDyadic { re: dyadic_one(), im: dyadic_zero() }
}

impl ComplexDyadic {
    /// Both parts are equal as numbers.
    pub open spec fn same_value(self, other: ComplexDyadic) -> bool {
        self.re.same_value(other.re) && self.im.same_value(other.im)
    }

    /// Exact sum, each part in reduced form.
    pub open spec fn sum(self, other: ComplexDyadic) -> ComplexDyadic {
        ComplexDyadic { re: self.re.sum(other.re), im: self.im.sum(other.im) }
    }

    /// Exact difference, each part in reduced form.
    pub open spec fn difference(self, other: ComplexDyadic) -> ComplexDyadic {
        ComplexDyadic { re: self.re.difference(other.re), im: self.im.difference(other.im) }
    }

    /// Exact product `(ac - bd) + (ad + bc) i`, each part in reduced form.
    pub open spec fn product(self, other: ComplexDyadic) -> ComplexDyadic {
        ComplexDyadic {
            re: self.re.product(other.re).difference(self.im.product(other.im)),
            im: self.re.product(other.im).sum(self.im.product(other.re)),
        }
    }

    pub open spec fn add_ok(self, other: ComplexDyadic) -> bool {
        self.re.add_ok(other.re) && self.im.add_ok(other.im)
    }

    pub open spec fn sub_ok(self, other: ComplexDyadic) -> bool {
        self.re.sub_ok(other.re) && self.im.sub_ok(other.im)
    }

    /// Every step of the product stays within `i128`/`i32`.
    pub open spec fn mul_ok(self, other: ComplexDyadic) -> bool {
        &&& self.re.mul_ok(other.re)
        &&& self.im.mul_ok(other.im)
        &&& self.re.mul_ok(other.im)
        &&& self.im.mul_ok(other.re)
        &&& self.re.product(other.re).sub_ok(self.im.product(other.im))
        &&& self.re.product(other.im).add_ok(self.im.product(other.re))
    }
}

impl ComplexDyadic {
    /// `|self|^2 = re^2 + im^2`, exactly, in reduced form.
    pub open spec fn norm_sq(self) -> Dyadic {
        self.re.product(self.re).sum(self.im.product(self.im))
    }

    /// The numerator of the real part of `self / other`: `ac + bd`.
    pub open spec fn quotient_re_num(self, other: ComplexDyadic) -> Dyadic {
        self.re.product(other.re).sum(self.im.product(other.im))
    }

    /// The numerator of the imaginary part of `self / other`: `bc - ad`.
    pub open spec fn quotient_im_num(self, other: ComplexDyadic) -> Dyadic {
        self.im.product(other.re).difference(self.re.product(other.im))
    }

    /// The exact numerators and the squared norm of `other` can be computed.
    pub open spec fn quotient_parts_ok(self, other: ComplexDyadic) -> bool {
        &&& other.re.mul_ok(other.re)
        &&& other.im.mul_ok(other.im)
        &&& other.re.product(other.re).add_ok(other.im.product(other.im))
        &&& self.re.mul_ok(other.re)
        &&& self.im.mul_ok(other.im)
        &&& self.re.product(other.re).add_ok(self.im.product(other.im))
        &&& self.im.mul_ok(other.re)
        &&& self.re.mul_ok(other.im)
        &&& self.im.product(other.re).sub_ok(self.re.product(other.im))
    }

    /// `self / other` as `div_with_precision` gives it: both parts
    /// `(ac + bd) / (c^2 + d^2)` and `(bc - ad) / (c^2 + d^2)` rounded with
    /// `Dyadic::div_with_precision`.
    pub open spec fn rounded_quotient(self, other: ComplexDyadic, bits: u32) -> ComplexDyadic {
        ComplexDyadic {
            re: self.quotient_re_num(other).rounded_quotient(other.norm_sq(), bits),
            im: self.quotient_im_num(other).rounded_quotient(other.norm_sq(), bits),
        }
    }

    pub open spec fn div_with_precision_ok(self, other: ComplexDyadic, bits: u32) -> bool {
        &&& self.quotient_parts_ok(other)
        &&& self.quotient_re_num(other).div_with_precision_ok(other.norm_sq(), bits)
        &&& self.quotient_im_num(other).div_with_precision_ok(other.norm_sq(), bits)
    }

    /// `self / other` as the `/` operator gives it: both parts divided by
    /// `c^2 + d^2` with `Dyadic`'s `/`, to the nearest multiple of `2^-30`.
    pub open spec fn quotient(self, other: ComplexDyadic) -> ComplexDyadic {
        ComplexDyadic {
            re: self.quotient_re_num(other).quotient(other.norm_sq()),
            im: self.quotient_im_num(other).quotient(other.norm_sq()),
        }
    }

    pub open spec fn div_ok(self, other: ComplexDyadic) -> bool {
        &&& !other.same_value(complex_zero())
        &&& self.quotient_parts_ok(other)
        &&& self.quotient_re_num(other).div_ok(other.norm_sq())
        &&& self.quotient_im_num(other).div_ok(other.norm_sq())
    }

    /// Both parts divided by the integer `n` with `div_with_precision`.
    pub open spec fn div_i64_ok(self, n: i64, bits: u32) -> bool {
        let d = Dyadic { numerator: n as i128, exponent: 0 };
        self.re.div_with_precision_ok(d, bits) && self.im.div_with_precision_ok(d, bits)
    }

    /// `base^exp` by repeated squaring: `x^0 = 1`, `x^(2k) = (x x)^k`,
    /// `x^(2k+1) = x x^(2k)`.
    pub open spec fn power(self, exp: nat) -> ComplexDyadic
        decreases exp,
    {
        if exp == 0 {
            complex_one()
        } else if exp % 2 == 0 {
            self.product(self).power(exp / 2)
        } else {
            self.product(self.power((exp - 1) as nat))
        }
    }

    /// Every multiplication of `power` stays within `i128`/`i32`.
    pub open spec fn power_ok(self, exp: nat) -> bool
        decreases exp,
    {
        if exp == 0 {
            true
        } else if exp % 2 == 0 {
            self.mul_ok(self) && self.product(self).power_ok(exp / 2)
        } else {
            self.power_ok((exp - 1) as nat) && self.mul_ok(self.power((exp - 1) as nat))
        }
    }
}

/// The `i`-th entry of `s`, or zero past its end.
pub open spec fn padded_c(s: Seq<ComplexDyadic>, i: int) -> ComplexDyadic {
    if 0 <= i < s.len() {
        s[i]
    } else {
        complex_zero()
    }
}

/// Entry-wise sum of two coefficient vectors, the shorter padded with zeros.
pub fn add_complex_vec(a: &[ComplexDyadic], b: &[ComplexDyadic]) -> (r: Vec<ComplexDyadic>)
    requires
        forall|i: int|
            0 <= i < max_len(a@.len(), b@.len()) ==> #[trigger] padded_c(a@, i).add_ok(
                padded_c(b@, i),
            ),
    ensures
        r@.len() == max_len(a@.len(), b@.len()),
        forall|i: int| 0 <= i < r@.len() ==> r@[i] == #[trigger] padded_c(a@, i).sum(padded_c(b@, i)),
{
    let len = if a.len() >= b.len() {
        a.len()
    } else {
        b.len()
    };
    let mut result: Vec<ComplexDyadic> = Vec::with_capacity(len);
    let mut i: usize = 0;
    while i < len
        invariant
            i <= len,
            len == max_len(a@.len(), b@.len()),
            result@.len() == i,
            forall|j: int|
                0 <= j < len ==> #[trigger] padded_c(a@, j).add_ok(padded_c(b@, j)),
            forall|j: int|
                0 <= j < i ==> result@[j] == #[trigger] padded_c(a@, j).sum(padded_c(b@, j)),
        decreases len - i,
    {
        let val_self = if i < a.len() {
            a[i]
        } else {
            ComplexDyadic::zero()
        };
        let val_other = if i < b.len() {
            b[i]
        } else {
            ComplexDyadic::zero()
        };
        assert(padded_c(a@, i as int).add_ok(padded_c(b@, i as int)));
        result.push(val_self + val_other);
        i = i + 1;
    }
    result
}

/// Entry-wise difference of two coefficient vectors, the shorter padded with zeros.
pub fn sub_complex_vec(a: &[ComplexDyadic], b: &[ComplexDyadic]) -> (r: Vec<ComplexDyadic>)
    requires
        forall|i: int|
            0 <= i < max_len(a@.len(), b@.len()) ==> #[trigger] padded_c(a@, i).sub_ok(
                padded_c(b@, i),
            ),
    ensures
        r@.len() == max_len(a@.len(), b@.len()),
        forall|i: int|
            0 <= i < r@.len() ==> r@[i] == #[trigger] padded_c(a@, i).difference(padded_c(b@, i)),
{
    let len = if a.len() >= b.len() {
        a.len()
    } else {
        b.len()
    };
    let mut result: Vec<ComplexDyadic> = Vec::with_capacity(len);
    let mut i: usize = 0;
    while i < len
        invariant
            i <= len,
            len == max_len(a@.len(), b@.len()),
            result@.len() == i,
            forall|j: int|
                0 <= j < len ==> #[trigger] padded_c(a@, j).sub_ok(padded_c(b@, j)),
            forall|j: int|
                0 <= j < i ==> result@[j] == #[trigger] padded_c(a@, j).difference(
                    padded_c(b@, j),
                ),
        decreases len - i,
    {
        let val_self = if i < a.len() {
            a[i]
        } else {
            ComplexDyadic::zero()
        };
        let val_other = if i < b.len() {
            b[i]
        } else {
            ComplexDyadic::zero()
        };
        assert(padded_c(a@, i as int).sub_ok(padded_c(b@, i as int)));
        result.push(val_self - val_other);
        i = i + 1;
    }
    result
}

/// Exponentiation by squaring.
fn fast_pow(base: ComplexDyadic, exp: i32) -> (r: ComplexDyadic)
    requires
        exp >= 0,
        base.power_ok(exp as nat),
    ensures
        r == base.power(exp as nat),
    decreases exp,
{
    if exp == 0 {
        ComplexDyadic::one()
    } else if exp % 2 == 0 {
        fast_pow(base * base, exp / 2)
    } else {
        base * fast_pow(base, exp - 1)
    }
}

impl ComplexDyadic {
    /// `self^power` for `power >= 0`, by repeated squaring; exact.
    pub fn powi(self, power: i32) -> (r: ComplexDyadic)
        requires
            power >= 0,
            self.power_ok(power as nat),
        ensures
            r == self.power(power as nat),
    {
        if power == 0 {
            return ComplexDyadic::one();
        }
        fast_pow(self, power)
    }

    /// Both parts divided by the integer `n`, with `bits` extra fractional bits
    /// and rounding to nearest, ties to even.
    pub fn div_i64(self, n: i64, bits: u32) -> (r: ComplexDyadic)
        requires
            self.div_i64_ok(n, bits),
        ensures
            r.re == self.re.rounded_quotient(Dyadic { numerator: n as i128, exponent: 0 }, bits),
            r.im == self.im.rounded_quotient(Dyadic { numerator: n as i128, exponent: 0 }, bits),
    {
        let denom = Dyadic::from_i64(n);
        ComplexDyadic {
            re: self.re.div_with_precision(denom, bits),
            im: self.im.div_with_precision(denom, bits),
        }
    }

    /// `self / other`: the exact numerators `ac + bd`, `bc - ad` and the exact
    /// `c^2 + d^2`, then each part rounded with `Dyadic::div_with_precision`.
    pub fn div_with_precision(&self, other: ComplexDyadic, bits: u32) -> (r: ComplexDyadic)
        requires
            self.div_with_precision_ok(other, bits),
        ensures
            r == self.rounded_quotient(other, bits),
    {
        let denom = other.re * other.re + other.im * other.im;
        let num_re = self.re * other.re + self.im * other.im;
        let re = num_re.div_with_precision(denom, bits);
        let num_im = self.im * other.re - self.re * other.im;
        let im = num_im.div_with_precision(denom, bits);
        ComplexDyadic { re, im }
    }

    /// The number `re + im i`.
    pub fn new(re: Dyadic, im: Dyadic) -> (r: ComplexDyadic)
        ensures
            r.re == re,
            r.im == im,
    {
        ComplexDyadic { re, im }
    }

    /// `1 + 0i`.
    pub fn one() -> (r: ComplexDyadic)
        ensures
            r == complex_one(),
    {
        ComplexDyadic::new(Dyadic::new(1, 0), Dyadic::new(0, 0))
    }

    /// `0 + 0i`.
    pub fn zero() -> (r: ComplexDyadic)
        ensures
            r == complex_zero(),
    {
        ComplexDyadic::new(Dyadic::zero(), Dyadic::zero())
    }

    /// The integer `n`, as `n * 2^0 + 0i`.
    pub fn from_i64(n: i64) -> (r: ComplexDyadic)
        ensures
            r.re.numerator == n,
            r.re.exponent == 0,
            r.im == dyadic_zero(),
    {
        let d = Dyadic::from_i64(n);
        ComplexDyadic { re: d, im: Dyadic::zero() }
    }
}

impl vstd::std_specs::ops::AddSpecImpl for ComplexDyadic {
    open spec fn obeys_add_spec() -> bool {
        true
    }

    open spec fn add_req(self, rhs: ComplexDyadic) -> bool {
        self.add_ok(rhs)
    }

    open spec fn add_spec(self, rhs: ComplexDyadic) -> ComplexDyadic {
        self.sum(rhs)
    }
}

impl core::ops::Add for ComplexDyadic {
    type Output = ComplexDyadic;

    /// Exact sum, part by part.
    fn add(self, other: ComplexDyadic) -> (r: ComplexDyadic) {
        ComplexDyadic::new(self.re + other.re, self.im + other.im)
    }
}

impl vstd::std_specs::ops::SubSpecImpl for ComplexDyadic {
    open spec fn obeys_sub_spec() -> bool {
        true
    }

    open spec fn sub_req(self, rhs: ComplexDyadic) -> bool {
        self.sub_ok(rhs)
    }

    open spec fn sub_spec(self, rhs: ComplexDyadic) -> ComplexDyadic {
        self.difference(rhs)
    }
}

impl core::ops::Sub for ComplexDyadic {
    type Output = ComplexDyadic;

    /// Exact difference, part by part.
    fn sub(self, other: ComplexDyadic) -> (r: ComplexDyadic) {
        ComplexDyadic::new(self.re - other.re, self.im - other.im)
    }
}

impl vstd::std_specs::ops::MulSpecImpl for ComplexDyadic {
    open spec fn obeys_mul_spec() -> bool {
        true
    }

    open spec fn mul_req(self, rhs: ComplexDyadic) -> bool {
        self.mul_ok(rhs)
    }

    open spec fn mul_spec(self, rhs: ComplexDyadic) -> ComplexDyadic {
        self.product(rhs)
    }
}

impl core::ops::Mul for ComplexDyadic {
    type Output = ComplexDyadic;

    /// Exact complex product.
    fn mul(self, other: ComplexDyadic) -> (r: ComplexDyadic) {
        ComplexDyadic::new(
            self.re * other.re - self.im * other.im,
            self.re * other.im + self.im * other.re,
        )
    }
}

impl vstd::std_specs::ops::DivSpecImpl for ComplexDyadic {
    open spec fn obeys_div_spec() -> bool {
        true
    }

    open spec fn div_req(self, rhs: ComplexDyadic) -> bool {
        self.div_ok(rhs)
    }

    open spec fn div_spec(self, rhs: ComplexDyadic) -> ComplexDyadic {
        self.quotient(rhs)
    }
}

impl core::ops::Div for ComplexDyadic {
    type Output = ComplexDyadic;

    /// Complex division, each part rounded with `Dyadic`'s `/`; the divisor
    /// must not be zero.
    fn div(self, other: ComplexDyadic) -> (r: ComplexDyadic) {
        let denom = other.re * other.re + other.im * other.im;
        ComplexDyadic::new(
            (self.re * other.re + self.im * other.im) / denom,
            (self.im * other.re - self.re * other.im) / denom,
        )
    }
}

impl vstd::std_specs::cmp::PartialEqSpecImpl for ComplexDyadic {
    open spec fn obeys_eq_spec() -> bool {
        true
    }

    open spec fn eq_spec(&self, other: &ComplexDyadic) -> bool {
        self.same_value(*other)
    }
}

impl PartialEq for ComplexDyadic {
    /// Both parts are equal as numbers.
    fn eq(&self, other: &ComplexDyadic) -> (r: bool) {
        self.re == other.re && self.im == other.im
    }
}

impl Eq for ComplexDyadic {
}

} // verus!
