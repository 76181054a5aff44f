//! Numbers in the 32-bit format, with the operators on them.
use super::{arith, encoding};
use super::double::Double;
use super::encoding::Format;
use vstd::prelude::*;
use vstd::std_specs::ops::{AddSpecImpl, DivSpecImpl, MulSpecImpl, SubSpecImpl};

verus! {

/// A number in the 32-bit format, held as its encoding. `==` compares encodings, so that a
/// value equals itself even where it is not a number, and the two zeros differ.
#[derive(Clone, Copy, PartialEq, Eq, Structural, Debug)]
pub struct Single {
    pub bits: u32,
}

impl Single {
    pub open spec fn of(bits: int) -> Single {
        Single { bits: bits as u32 }
    }

    /// What `+` means in contracts.
    #[verifier::opaque]
    pub open spec fn spec_add(self, rhs: Single) -> Single {
        Single::of(encoding::sum(Format::Single, self.bits as int, rhs.bits as int))
    }

    /// What `-` means in contracts: the sum with the negated number.
    pub open spec fn spec_sub(self, rhs: Single) -> Single {
        self.spec_add(rhs.negated_spec())
    }

    /// What `*` means in contracts.
    #[verifier::opaque]
    pub open spec fn spec_mul(self, rhs: Single) -> Single {
        Single::of(encoding::product(Format::Single, self.bits as int, rhs.bits as int))
    }

    /// What `/` means in contracts: the quotient, rounded once.
    #[verifier::opaque]
    pub open spec fn spec_euclidean_or_real_div(self, rhs: Single) -> Single {
        Single::of(encoding::quotient(Format::Single, self.bits as int, rhs.bits as int))
    }

    #[verifier::opaque]
    pub open spec fn negated_spec(self) -> Single {
        Single::of(encoding::negated(Format::Single, self.bits as int))
    }

    #[verifier::opaque]
    pub open spec fn lt_spec(self, rhs: Single) -> bool {
        encoding::less(Format::Single, self.bits as int, rhs.bits as int)
    }

    pub open spec fn le_spec(self, rhs: Single) -> bool {
        !self.is_nan_spec() && !rhs.is_nan_spec() && !rhs.lt_spec(self)
    }

    pub open spec fn gt_spec(self, rhs: Single) -> bool {
        rhs.lt_spec(self)
    }

    pub open spec fn ge_spec(self, rhs: Single) -> bool {
        rhs.le_spec(self)
    }

    #[verifier::opaque]
    pub open spec fn is_nan_spec(self) -> bool {
        Format::Single.decode(self.bits as int) is NotANumber
    }

    #[verifier::opaque]
    pub open spec fn abs_spec(self) -> Single {
        if self.bits as int >= Format::Single.sign() {
            Single::of(self.bits as int - Format::Single.sign())
        } else {
            self
        }
    }

    #[verifier::opaque]
    pub open spec fn sqrt_spec(self) -> Single {
        Single::of(encoding::square_root(Format::Single, self.bits as int))
    }

    pub open spec fn min_spec(self, rhs: Single) -> Single {
        if self.is_nan_spec() || rhs.lt_spec(self) { rhs } else { self }
    }

    pub open spec fn max_spec(self, rhs: Single) -> Single {
        if self.is_nan_spec() || self.lt_spec(rhs) { rhs } else { self }
    }

    pub open spec fn clamp_spec(self, low: Single, high: Single) -> Single {
        if self.lt_spec(low) { low } else if high.lt_spec(self) { high } else { self }
    }

    #[verifier::opaque]
    pub open spec fn floor_spec(self) -> Single {
        Single::of(encoding::integer_below(Format::Single, self.bits as int))
    }

    #[verifier::opaque]
    pub open spec fn round_spec(self) -> Single {
        Single::of(encoding::integer_nearest(Format::Single, self.bits as int))
    }

    #[verifier::opaque]
    pub open spec fn remainder_spec(self, rhs: Single) -> Single {
        Single::of(encoding::remainder(Format::Single, self.bits as int, rhs.bits as int))
    }

    pub open spec fn rem_euclid_spec(self, rhs: Single) -> Single {
        let r = self.remainder_spec(rhs);
        if r.lt_spec(num(0)) { r + rhs.abs_spec() } else { r }
    }

    pub open spec fn is_zero_spec(self) -> bool {
        self.bits == 0 || self.bits == 0x8000_0000
    }

    #[verifier::opaque]
    pub open spec fn to_usize_spec(self) -> usize {
        encoding::truncated(Format::Single, self.bits as int, usize::MAX as nat) as usize
    }

    #[verifier::opaque]
    pub open spec fn from_usize_spec(n: usize) -> Single {
        Single::of(encoding::rounded(Format::Single, false, n as nat, 1, 0))
    }

    #[verifier::opaque]
    pub open spec fn widen_spec(self) -> Double {
        Double::of(encoding::converted(Format::Single, Format::Double, self.bits as int))
    }

    /// Whether the number is below `rhs`.
    #[verifier::when_used_as_spec(lt_spec)]
    pub fn lt(self, rhs: Single) -> (r: bool)
        ensures
            r == self.lt_spec(rhs),
    {
        reveal(Single::lt_spec);
        arith::is_less(Format::Single, self.bits as u64, rhs.bits as u64)
    }

    #[verifier::when_used_as_spec(le_spec)]
    pub fn le(self, rhs: Single) -> (r: bool)
        ensures
            r == self.le_spec(rhs),
    {
        !self.is_nan() && !rhs.is_nan() && !rhs.lt(self)
    }

    #[verifier::when_used_as_spec(gt_spec)]
    pub fn gt(self, rhs: Single) -> (r: bool)
        ensures
            r == self.gt_spec(rhs),
    {
        rhs.lt(self)
    }

    #[verifier::when_used_as_spec(ge_spec)]
    pub fn ge(self, rhs: Single) -> (r: bool)
        ensures
            r == self.ge_spec(rhs),
    {
        rhs.le(self)
    }

    /// Whether this encodes no number.
    #[verifier::when_used_as_spec(is_nan_spec)]
    pub fn is_nan(self) -> (r: bool)
        ensures
            r == self.is_nan_spec(),
    {
        reveal(Single::is_nan_spec);
        match arith::decode(Format::Single, self.bits as u64) {
            arith::Decoded::NotANumber => true,
            _ => false,
        }
    }

    /// The number without its sign.
    #[verifier::when_used_as_spec(abs_spec)]
    pub fn abs(self) -> (r: Single)
        ensures
            r == self.abs_spec(),
    {
        reveal(Single::abs_spec);
        if self.bits >= 0x8000_0000 { Single { bits: self.bits - 0x8000_0000 } } else { self }
    }

    /// The number with the other sign.
    #[verifier::when_used_as_spec(negated_spec)]
    pub fn negated(self) -> (r: Single)
        ensures
            r == self.negated_spec(),
    {
        reveal(Single::negated_spec);
        Single { bits: arith::negate(Format::Single, self.bits as u64) as u32 }
    }

    /// The square root, rounded once.
    #[verifier::when_used_as_spec(sqrt_spec)]
    pub fn sqrt(self) -> (r: Single)
        ensures
            r == self.sqrt_spec(),
    {
        reveal(Single::sqrt_spec);
        Single { bits: arith::root_of(Format::Single, self.bits as u64) as u32 }
    }

    /// The lesser of two numbers; the other one where one is not a number.
    #[verifier::when_used_as_spec(min_spec)]
    pub fn min(self, rhs: Single) -> (r: Single)
        ensures
            r == self.min_spec(rhs),
    {
        if self.is_nan() || rhs.lt(self) { rhs } else { self }
    }

    /// The greater of two numbers; the other one where one is not a number.
    #[verifier::when_used_as_spec(max_spec)]
    pub fn max(self, rhs: Single) -> (r: Single)
        ensures
            r == self.max_spec(rhs),
    {
        if self.is_nan() || self.lt(rhs) { rhs } else { self }
    }

    /// The number, or the bound that it is beyond.
    #[verifier::when_used_as_spec(clamp_spec)]
    pub fn clamp(self, low: Single, high: Single) -> (r: Single)
        ensures
            r == self.clamp_spec(low, high),
    {
        if self.lt(low) { low } else if high.lt(self) { high } else { self }
    }

    /// The greatest integer that is not above the number.
    #[verifier::when_used_as_spec(floor_spec)]
    pub fn floor(self) -> (r: Single)
        ensures
            r == self.floor_spec(),
    {
        reveal(Single::floor_spec);
        Single { bits: arith::floor(Format::Single, self.bits as u64) as u32 }
    }

    /// The closest integer; halfway cases go away from zero.
    #[verifier::when_used_as_spec(round_spec)]
    pub fn round(self) -> (r: Single)
        ensures
            r == self.round_spec(),
    {
        reveal(Single::round_spec);
        Single { bits: arith::round_half_away(Format::Single, self.bits as u64) as u32 }
    }

    /// What is left after taking `rhs` away as often as it fits; it has the sign of `self`.
    #[verifier::when_used_as_spec(remainder_spec)]
    pub fn remainder(self, rhs: Single) -> (r: Single)
        ensures
            r == self.remainder_spec(rhs),
    {
        reveal(Single::remainder_spec);
        Single { bits: arith::remain(Format::Single, self.bits as u64, rhs.bits as u64) as u32 }
    }

    /// The remainder, with `rhs` added where it is negative.
    #[verifier::when_used_as_spec(rem_euclid_spec)]
    pub fn rem_euclid(self, rhs: Single) -> (r: Single)
        ensures
            r == self.rem_euclid_spec(rhs),
    {
        let r = self.remainder(rhs);
        if r.lt(num(0)) { r + rhs.abs() } else { r }
    }

    /// Whether this is zero, of either sign.
    #[verifier::when_used_as_spec(is_zero_spec)]
    pub fn is_zero(self) -> (r: bool)
        ensures
            r == self.is_zero_spec(),
    {
        self.bits == 0 || self.bits == 0x8000_0000
    }

    /// The number cut off to an integer; 0 below zero and for what is not a number, the largest
    /// `usize` above that.
    #[verifier::when_used_as_spec(to_usize_spec)]
    pub fn to_usize(self) -> (r: usize)
        ensures
            r == self.to_usize_spec(),
    {
        reveal(Single::to_usize_spec);
        arith::truncate(Format::Single, self.bits as u64, usize::MAX)
    }

    /// The number closest to `n`.
    #[verifier::when_used_as_spec(from_usize_spec)]
    pub fn from_usize(n: usize) -> (r: Single)
        ensures
            r == Single::from_usize_spec(n),
    {
        reveal(Single::from_usize_spec);
        proof {
            arith::lemma_wide_bound();
        }
        Single { bits: arith::encode(Format::Single, false, n as u128, 0) as u32 }
    }

    /// The same number in the 64-bit format.
    #[verifier::when_used_as_spec(widen_spec)]
    pub fn widen(self) -> (r: Double)
        ensures
            r == self.widen_spec(),
    {
        reveal(Single::widen_spec);
        Double { bits: arith::convert(Format::Single, Format::Double, self.bits as u64) }
    }
}

/// The number with the encoding `bits`.
#[verifier::when_used_as_spec(num_spec)]
pub fn num(bits: u32) -> (r: Single)
    ensures
        r == num_spec(bits),
{
    Single { bits }
}

pub open spec fn num_spec(bits: u32) -> Single {
    Single { bits }
}

impl core::ops::Add for Single {
    type Output = Single;

    fn add(self, rhs: Single) -> (r: Single) {
        reveal(Single::spec_add);
        Single { bits: arith::add(Format::Single, self.bits as u64, rhs.bits as u64) as u32 }
    }
}

impl AddSpecImpl for Single {
    open spec fn obeys_add_spec() -> bool {
        true
    }

    open spec fn add_req(self, rhs: Single) -> bool {
        true
    }

    open spec fn add_spec(self, rhs: Single) -> Single {
        self.spec_add(rhs)
    }
}

impl core::ops::Sub for Single {
    type Output = Single;

    fn sub(self, rhs: Single) -> (r: Single) {
        self + rhs.negated()
    }
}

impl SubSpecImpl for Single {
    open spec fn obeys_sub_spec() -> bool {
        true
    }

    open spec fn sub_req(self, rhs: Single) -> bool {
        true
    }

    open spec fn sub_spec(self, rhs: Single) -> Single {
        self.spec_sub(rhs)
    }
}

impl core::ops::Mul for Single {
    type Output = Single;

    fn mul(self, rhs: Single) -> (r: Single) {
        reveal(Single::spec_mul);
        Single { bits: arith::multiply(Format::Single, self.bits as u64, rhs.bits as u64) as u32 }
    }
}

impl MulSpecImpl for Single {
    open spec fn obeys_mul_spec() -> bool {
        true
    }

    open spec fn mul_req(self, rhs: Single) -> bool {
        true
    }

    open spec fn mul_spec(self, rhs: Single) -> Single {
        self.spec_mul(rhs)
    }
}

impl core::ops::Div for Single {
    type Output = Single;

    fn div(self, rhs: Single) -> (r: Single) {
        reveal(Single::spec_euclidean_or_real_div);
        Single { bits: arith::divide(Format::Single, self.bits as u64, rhs.bits as u64) as u32 }
    }
}

impl DivSpecImpl for Single {
    open spec fn obeys_div_spec() -> bool {
        true
    }

    open spec fn div_req(self, rhs: Single) -> bool {
        true
    }

    open spec fn div_spec(self, rhs: Single) -> Single {
        self.spec_euclidean_or_real_div(rhs)
    }
}

} // verus!
