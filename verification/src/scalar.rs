//! The scalar arithmetic that every simulation and matrix kernel of this crate is written over.
use vstd::prelude::*;

verus! {

/// A scalar type with the arithmetic that a physics kernel needs.
///
/// Every operation is deterministic: its result is a function of its arguments alone, and the
/// specification function of the same name stands for that function. The kernels of this crate
/// fix which operations run on which operands and in which order, so two runs over the same
/// scalar type from the same state end in the same state, to the last bit.
///
/// Nothing is said about rounding: a binary floating-point type and the fixed-point type
/// [`Fixed`](crate::fixed::Fixed) both meet this contract. The few algebraic facts that the
/// kernels do rest on are the proof functions at the end of the trait.
pub trait Real: Copy {
    spec fn spec_zero() -> Self;

    /// The additive identity.
    #[verifier::when_used_as_spec(spec_zero)]
    fn zero() -> (r: Self)
        ensures
            r == Self::spec_zero(),
    ;

    spec fn spec_one() -> Self;

    /// The multiplicative identity.
    #[verifier::when_used_as_spec(spec_one)]
    fn one() -> (r: Self)
        ensures
            r == Self::spec_one(),
    ;

    spec fn spec_pi() -> Self;

    /// The ratio of a circle's circumference to its diameter, in this type's precision.
    #[verifier::when_used_as_spec(spec_pi)]
    fn pi() -> (r: Self)
        ensures
            r == Self::spec_pi(),
    ;

    spec fn spec_infinity() -> Self;

    /// The largest value of the type, which no finite value exceeds.
    #[verifier::when_used_as_spec(spec_infinity)]
    fn infinity() -> (r: Self)
        ensures
            r == Self::spec_infinity(),
    ;

    spec fn spec_neg_infinity() -> Self;

    /// The smallest value of the type.
    #[verifier::when_used_as_spec(spec_neg_infinity)]
    fn neg_infinity() -> (r: Self)
        ensures
            r == Self::spec_neg_infinity(),
    ;

    spec fn spec_decimal(mantissa: i64, digits: u32) -> Self;

    /// The value of the decimal literal whose last `digits` digits stand behind the point:
    /// `mantissa / 10^digits`.
    #[verifier::when_used_as_spec(spec_decimal)]
    fn decimal(mantissa: i64, digits: u32) -> (r: Self)
        ensures
            r == Self::spec_decimal(mantissa, digits),
    ;

    spec fn spec_from_usize(n: usize) -> Self;

    /// The value closest to the count `n`.
    #[verifier::when_used_as_spec(spec_from_usize)]
    fn from_usize(n: usize) -> (r: Self)
        ensures
            r == Self::spec_from_usize(n),
    ;

    spec fn spec_add(self, rhs: Self) -> Self;

    /// Sum.
    #[verifier::when_used_as_spec(spec_add)]
    fn add(self, rhs: Self) -> (r: Self)
        ensures
            r == self.spec_add(rhs),
    ;

    spec fn spec_sub(self, rhs: Self) -> Self;

    /// Difference.
    #[verifier::when_used_as_spec(spec_sub)]
    fn sub(self, rhs: Self) -> (r: Self)
        ensures
            r == self.spec_sub(rhs),
    ;

    spec fn spec_mul(self, rhs: Self) -> Self;

    /// Product.
    #[verifier::when_used_as_spec(spec_mul)]
    fn mul(self, rhs: Self) -> (r: Self)
        ensures
            r == self.spec_mul(rhs),
    ;

    spec fn spec_div(self, rhs: Self) -> Self;

    /// Quotient. Total: a zero divisor has a result too.
    #[verifier::when_used_as_spec(spec_div)]
    fn div(self, rhs: Self) -> (r: Self)
        ensures
            r == self.spec_div(rhs),
    ;

    spec fn spec_neg(self) -> Self;

    /// Opposite.
    #[verifier::when_used_as_spec(spec_neg)]
    fn neg(self) -> (r: Self)
        ensures
            r == self.spec_neg(),
    ;

    spec fn spec_inv(self) -> Self;

    /// Reciprocal, with zero standing for the reciprocal of zero.
    #[verifier::when_used_as_spec(spec_inv)]
    fn inv(self) -> (r: Self)
        ensures
            r == self.spec_inv(),
    ;

    spec fn spec_powi(self, n: i32) -> Self;

    /// Integer power.
    #[verifier::when_used_as_spec(spec_powi)]
    fn powi(self, n: i32) -> (r: Self)
        ensures
            r == self.spec_powi(n),
    ;

    spec fn spec_sqrt(self) -> Self;

    /// Square root.
    #[verifier::when_used_as_spec(spec_sqrt)]
    fn sqrt(self) -> (r: Self)
        ensures
            r == self.spec_sqrt(),
    ;

    spec fn spec_abs(self) -> Self;

    /// Magnitude.
    #[verifier::when_used_as_spec(spec_abs)]
    fn abs(self) -> (r: Self)
        ensures
            r == self.spec_abs(),
    ;

    spec fn spec_min(self, rhs: Self) -> Self;

    /// The smaller of two values.
    #[verifier::when_used_as_spec(spec_min)]
    fn min(self, rhs: Self) -> (r: Self)
        ensures
            r == self.spec_min(rhs),
    ;

    spec fn spec_max(self, rhs: Self) -> Self;

    /// The larger of two values.
    #[verifier::when_used_as_spec(spec_max)]
    fn max(self, rhs: Self) -> (r: Self)
        ensures
            r == self.spec_max(rhs),
    ;

    spec fn spec_floor(self) -> i64;

    /// The largest integer that is no greater than the value, limited to the range of `i64`.
    #[verifier::when_used_as_spec(spec_floor)]
    fn floor(self) -> (r: i64)
        ensures
            r == self.spec_floor(),
    ;

    spec fn spec_lt(self, rhs: Self) -> bool;

    /// Strictly smaller.
    #[verifier::when_used_as_spec(spec_lt)]
    fn lt(self, rhs: Self) -> (r: bool)
        ensures
            r == self.spec_lt(rhs),
    ;

    spec fn spec_le(self, rhs: Self) -> bool;

    /// Smaller or equal.
    #[verifier::when_used_as_spec(spec_le)]
    fn le(self, rhs: Self) -> (r: bool)
        ensures
            r == self.spec_le(rhs),
    ;

    spec fn spec_equals(self, rhs: Self) -> bool;

    /// Numerically equal. Two values that differ as bits can be equal as numbers.
    #[verifier::when_used_as_spec(spec_equals)]
    fn equals(self, rhs: Self) -> (r: bool)
        ensures
            r == self.spec_equals(rhs),
    ;

    spec fn spec_is_finite(self) -> bool;

    /// Whether the value is an ordinary number.
    #[verifier::when_used_as_spec(spec_is_finite)]
    fn is_finite(self) -> (r: bool)
        ensures
            r == self.spec_is_finite(),
    ;

    spec fn spec_is_nan(self) -> bool;

    /// Whether the value is the result of an undefined operation.
    #[verifier::when_used_as_spec(spec_is_nan)]
    fn is_nan(self) -> (r: bool)
        ensures
            r == self.spec_is_nan(),
    ;

    spec fn spec_total_le(self, rhs: Self) -> bool;

    /// The total order of the type, in which undefined values have a place too.
    #[verifier::when_used_as_spec(spec_total_le)]
    fn total_le(self, rhs: Self) -> (r: bool)
        ensures
            r == self.spec_total_le(rhs),
    ;

    /// The smaller of two values is below everything that either of them is below.
    proof fn law_min_le(x: Self, other: Self, bound: Self)
        requires
            x.spec_le(bound),
        ensures
            x.spec_min(other).spec_le(bound),
            other.spec_min(x).spec_le(bound),
    ;

    /// The larger of two values is above everything that either of them is above.
    proof fn law_le_max(x: Self, other: Self, bound: Self)
        requires
            bound.spec_le(x),
        ensures
            bound.spec_le(x.spec_max(other)),
            bound.spec_le(other.spec_max(x)),
    ;

    /// Any two values are comparable in the total order.
    proof fn law_total_le_total(x: Self, y: Self)
        ensures
            x.spec_total_le(y) || y.spec_total_le(x),
    ;

    /// The total order is transitive.
    proof fn law_total_le_transitive(x: Self, y: Self, z: Self)
        requires
            x.spec_total_le(y),
            y.spec_total_le(z),
        ensures
            x.spec_total_le(z),
    ;

    /// Zero is numerically equal to itself, and one is not zero.
    proof fn law_zero_one()
        ensures
            Self::spec_zero().spec_equals(Self::spec_zero()),
            !Self::spec_one().spec_equals(Self::spec_zero()),
    ;

    /// Taking zero away from one leaves one, and one is not smaller than itself.
    proof fn law_nothing_taken()
        ensures
            Self::spec_one().spec_sub(Self::spec_zero()) == Self::spec_one(),
            !Self::spec_one().spec_lt(Self::spec_one()),
    ;

    /// An ordinary number is at most itself.
    proof fn law_le_itself(x: Self)
        requires
            x.spec_is_finite(),
        ensures
            x.spec_le(x),
    ;

    /// A bound that is an ordinary number still bounds what it did once it is given some room.
    proof fn law_room(bound: Self, x: Self, mantissa: i64, digits: u32)
        requires
            bound.spec_is_finite(),
            mantissa >= 0,
        ensures
            bound.spec_le(x) ==> bound.spec_sub(Self::spec_decimal(mantissa, digits)).spec_le(x),
            x.spec_le(bound) ==> x.spec_le(bound.spec_add(Self::spec_decimal(mantissa, digits))),
    ;
}

/// The value limited to `[lo, hi]`.
pub open spec fn spec_clamp<R: Real>(x: R, lo: R, hi: R) -> R {
    let raised = if x.lt(lo) {
        lo
    } else {
        x
    };
    if hi.lt(raised) {
        hi
    } else {
        raised
    }
}

/// Limits `x` to `[lo, hi]`; a value that is in no order with the limits is kept.
#[verifier::when_used_as_spec(spec_clamp)]
pub fn clamp<R: Real>(x: R, lo: R, hi: R) -> (r: R)
    ensures
        r == spec_clamp(x, lo, hi),
{
    let raised = if x.lt(lo) {
        lo
    } else {
        x
    };
    if hi.lt(raised) {
        hi
    } else {
        raised
    }
}

} // verus!
