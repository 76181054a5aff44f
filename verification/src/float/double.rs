//! Numbers in the 64-bit format, with the operators on them.
use super::{arith, encoding};
use super::encoding::Format;
use super::single::Single;
use vstd::prelude::*;
use vstd::std_specs::ops::{AddSpecImpl, DivSpecImpl, MulSpecImpl, SubSpecImpl};

verus! {

/// A number in the 64-bit format, held as its encoding. `==` compares encodings, so that a
/// value equals itself even where it is not a number, and the two zeros differ.
#[derive(Clone, Copy, PartialEq, Eq, Structural, Debug)]
pub struct Double {
    pub bits: u64,
}

impl Double {
    pub open spec fn of(bits: int) -> Double {
        Double { bits: bits as u64 }
    }

    /// What `+` means in contracts.
    #[verifier::opaque]
    pub open spec fn spec_add(self, rhs: Double) -> Double {
        Double::of(encoding::sum(Format::Double, self.bits as int, rhs.bits as int))
    }

    /// What `-` means in contracts: the sum with the negated number.
    pub open spec fn spec_sub(self, rhs: Double) -> Double {
        self.spec_add(rhs.negated_spec())
    }

    /// What `*` means in contracts.
    #[verifier::opaque]
    pub open spec fn spec_mul(self, rhs: Double) -> Double {
        Double::of(encoding::product(Format::Double, self.bits as int, rhs.bits as int))
    }

    /// What `/` means in contracts: the quotient, rounded once.
    #[verifier::opaque]
    pub open spec fn spec_euclidean_or_real_div(self, rhs: Double) -> Double {
        Double::of(encoding::quotient(Format::Double, self.bits as int, rhs.bits as int))
    }

    #[verifier::opaque]
    pub open spec fn negated_spec(self) -> Double {
        Double::of(encoding::negated(Format::Double, self.bits as int))
    }

    #[verifier::opaque]
    pub open spec fn lt_spec(self, rhs: Double) -> bool {
        encoding::less(Format::Double, self.bits as int, rhs.bits as int)
    }

    pub open spec fn le_spec(self, rhs: Double) -> bool {
        !self.is_nan_spec() && !rhs.is_nan_spec() && !rhs.lt_spec(self)
    }

    pub open spec fn gt_spec(self, rhs: Double) -> bool {
        rhs.lt_spec(self)
    }

    pub open spec fn ge_spec(self, rhs: Double) -> bool {
        rhs.le_spec(self)
    }

    #[verifier::opaque]
    pub open spec fn is_nan_spec(self) -> bool {
        Format::Double.decode(self.bits as int) is NotANumber
    }

    #[verifier::opaque]
    pub open spec fn abs_spec(self) -> Double {
        if self.bits as int >= Format::Double.sign() {
            Double::of(self.bits as int - Format::Double.sign())
        } else {
            self
        }
    }

    #[verifier::opaque]
    pub open spec fn sqrt_spec(self) -> Double {
        Double::of(encoding::square_root(Format::Double, self.bits as int))
    }

    pub open spec fn min_spec(self, rhs: Double) -> Double {
        if self.is_nan_spec() || rhs.lt_spec(self) { rhs } else { self }
    }

    pub open spec fn max_spec(self, rhs: Double) -> Double {
        if self.is_nan_spec() || self.lt_spec(rhs) { rhs } else { self }
    }

    pub open spec fn clamp_spec(self, low: Double, high: Double) -> Double {
        if self.lt_spec(low) { low } else if high.lt_spec(self) { high } else { self }
    }

    #[verifier::opaque]
    pub open spec fn narrow_spec(self) -> Single {
        Single::of(encoding::converted(Format::Double, Format::Single, self.bits as int))
    }

    /// Whether the number is below `rhs`.
    #[verifier::when_used_as_spec(lt_spec)]
    pub fn lt(self, rhs: Double) -> (r: bool)
        ensures
            r == self.lt_spec(rhs),
    {
        reveal(Double::lt_spec);
        arith::is_less(Format::Double, self.bits, rhs.bits)
    }

    #[verifier::when_used_as_spec(le_spec)]
    pub fn le(self, rhs: Double) -> (r: bool)
        ensures
            r == self.le_spec(rhs),
    {
        !self.is_nan() && !rhs.is_nan() && !rhs.lt(self)
    }

    #[verifier::when_used_as_spec(gt_spec)]
    pub fn gt(self, rhs: Double) -> (r: bool)
        ensures
            r == self.gt_spec(rhs),
    {
        rhs.lt(self)
    }

    #[verifier::when_used_as_spec(ge_spec)]
    pub fn ge(self, rhs: Double) -> (r: bool)
        ensures
            r == self.ge_spec(rhs),
    {
        rhs.le(self)
    }

    /// Whether this encodes no number.
    #[verifier::when_used_as_spec(is_nan_spec)]
    pub fn is_nan(self) -> (r: bool)
        ensures
            r == self.is_nan_spec(),
    {
        reveal(Double::is_nan_spec);
        match arith::decode(Format::Double, self.bits) {
            arith::Decoded::NotANumber => true,
            _ => false,
        }
    }

    /// The number without its sign.
    #[verifier::when_used_as_spec(abs_spec)]
    pub fn abs(self) -> (r: Double)
        ensures
            r == self.abs_spec(),
    {
        reveal(Double::abs_spec);
        if self.bits >= 0x8000_0000_0000_0000 {
            Double { bits: self.bits - 0x8000_0000_0000_0000 }
        } else {
            self
        }
    }

    /// The number with the other sign.
    #[verifier::when_used_as_spec(negated_spec)]
    pub fn negated(self) -> (r: Double)
        ensures
            r == self.negated_spec(),
    {
        reveal(Double::negated_spec);
        Double { bits: arith::negate(Format::Double, self.bits) }
    }

    /// The square root, rounded once.
    #[verifier::when_used_as_spec(sqrt_spec)]
    pub fn sqrt(self) -> (r: Double)
        ensures
            r == self.sqrt_spec(),
    {
        reveal(Double::sqrt_spec);
        Double { bits: arith::root_of(Format::Double, self.bits) }
    }

    /// The lesser of two numbers; the other one where one is not a number.
    #[verifier::when_used_as_spec(min_spec)]
    pub fn min(self, rhs: Double) -> (r: Double)
        ensures
            r == self.min_spec(rhs),
    {
        if self.is_nan() || rhs.lt(self) { rhs } else { self }
    }

    /// The greater of two numbers; the other one where one is not a number.
    #[verifier::when_used_as_spec(max_spec)]
    pub fn max(self, rhs: Double) -> (r: Double)
        ensures
            r == self.max_spec(rhs),
    {
        if self.is_nan() || self.lt(rhs) { rhs } else { self }
    }

    /// The number, or the bound that it is beyond.
    #[verifier::when_used_as_spec(clamp_spec)]
    pub fn clamp(self, low: Double, high: Double) -> (r: Double)
        ensures
            r == self.clamp_spec(low, high),
    {
        if self.lt(low) { low } else if high.lt(self) { high } else { self }
    }

    /// The closest number of the 32-bit format.
    #[verifier::when_used_as_spec(narrow_spec)]
    pub fn narrow(self) -> (r: Single)
        ensures
            r == self.narrow_spec(),
    {
        reveal(Double::narrow_spec);
        Single { bits: arith::convert(Format::Double, Format::Single, self.bits) as u32 }
    }
}

/// The number with the encoding `bits`.
#[verifier::when_used_as_spec(wide_spec)]
pub fn wide(bits: u64) -> (r: Double)
    ensures
        r == wide_spec(bits),
{
    Double { bits }
}

pub open spec fn wide_spec(bits: u64) -> Double {
    Double { bits }
}

impl core::ops::Add for Double {
    type Output = Double;

    fn add(self, rhs: Double) -> (r: Double) {
        reveal(Double::spec_add);
        Double { bits: arith::add(Format::Double, self.bits, rhs.bits) }
    }
}

impl AddSpecImpl for Double {
    open spec fn obeys_add_spec() -> bool {
        true
    }

    open spec fn add_req(self, rhs: Double) -> bool {
        true
    }

    open spec fn add_spec(self, rhs: Double) -> Double {
        self.spec_add(rhs)
    }
}

impl core::ops::Sub for Double {
    type Output = Double;

    fn sub(self, rhs: Double) -> (r: Double) {
        self + rhs.negated()
    }
}

impl SubSpecImpl for Double {
    open spec fn obeys_sub_spec() -> bool {
        true
    }

    open spec fn sub_req(self, rhs: Double) -> bool {
        true
    }

    open spec fn sub_spec(self, rhs: Double) -> Double {
        self.spec_sub(rhs)
    }
}

impl core::ops::Mul for Double {
    type Output = Double;

    fn mul(self, rhs: Double) -> (r: Double) {
        reveal(Double::spec_mul);
        Double { bits: arith::multiply(Format::Double, self.bits, rhs.bits) }
    }
}

impl MulSpecImpl for Double {
    open spec fn obeys_mul_spec() -> bool {
        true
    }

    open spec fn mul_req(self, rhs: Double) -> bool {
        true
    }

    open spec fn mul_spec(self, rhs: Double) -> Double {
        self.spec_mul(rhs)
    }
}

impl core::ops::Div for Double {
    type Output = Double;

    fn div(self, rhs: Double) -> (r: Double) {
        reveal(Double::spec_euclidean_or_real_div);
        Double { bits: arith::divide(Format::Double, self.bits, rhs.bits) }
    }
}

impl DivSpecImpl for Double {
    open spec fn obeys_div_spec() -> bool {
        true
    }

    open spec fn div_req(self, rhs: Double) -> bool {
        true
    }

    open spec fn div_spec(self, rhs: Double) -> Double {
        self.spec_euclidean_or_real_div(rhs)
    }
}

/// A product with one is the number itself.
pub proof fn lemma_times_one(x: Double)
    requires
        !x.is_nan(),
    ensures
        x * wide(0x3ff0_0000_0000_0000) == x,
        wide(0x3ff0_0000_0000_0000) * x == x,
{
    reveal(Double::spec_mul);
    reveal(Double::is_nan_spec);
    super::order::lemma_product_one(Format::Double, x.bits as int);
}

/// Sums do not depend on the order of the terms.
pub proof fn law_add_commutes(x: Double, y: Double)
    ensures
        x + y == y + x,
{
    reveal(Double::spec_add);
    super::order::lemma_sum_commutes(Format::Double, x.bits as int, y.bits as int);
}

/// A sum with zero is the number itself, a zero aside.
pub proof fn lemma_zero_plus(x: Double)
    requires
        !x.is_nan(),
        x.bits != 0x8000_0000_0000_0000,
    ensures
        wide(0) + x == x,
{
    reveal(Double::spec_add);
    reveal(Double::is_nan_spec);
    super::order::lemma_zero_plus(Format::Double, x.bits as int);
}

} // verus!
