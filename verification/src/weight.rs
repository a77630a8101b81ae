//! Semirings: what an arc can weigh.
use vstd::prelude::*;

verus! {

/// Multiplication distributes over addition from the left.
pub const LEFT_SEMIRING: u64 = 0x01;

/// Multiplication distributes over addition from the right.
pub const RIGHT_SEMIRING: u64 = 0x02;

/// Multiplication commutes.
pub const COMMUTATIVE: u64 = 0x04;

/// Adding a weight to itself changes nothing.
pub const IDEMPOTENT: u64 = 0x08;

/// The sum of two weights is one of the two.
pub const PATH: u64 = 0x10;

/// An element of a semiring.
///
/// Two weights are the same when they are the same value; the mathematical
/// reading of each operation is the `spec_` function of its name.
pub trait Weight: Sized {
    /// How far apart two weights may be and still count as alike.
    type Delta: Copy;

    /// The sum of nothing.
    spec fn spec_zero() -> Self;

    /// The product of nothing.
    spec fn spec_one() -> Self;

    /// A value that is not in the semiring.
    spec fn spec_no_weight() -> Self;

    /// The sum.
    spec fn spec_plus(self, other: Self) -> Self;

    /// The product.
    spec fn spec_times(self, other: Self) -> Self;

    /// Whether the value is in the semiring at all.
    spec fn spec_member(self) -> bool;

    /// Whether the two are within `delta` of each other.
    spec fn spec_approx(self, other: Self, delta: Self::Delta) -> bool;

    /// The value rounded to the grid that `delta` lays.
    spec fn spec_quantize(self, delta: Self::Delta) -> Self;

    /// A word that depends on the value alone.
    spec fn spec_hash_word(self) -> u64;

    /// Which laws the semiring keeps, as bits.
    spec fn spec_properties() -> u64;

    /// How far apart two weights may usually be and still count as alike.
    spec fn spec_default_delta() -> Self::Delta;

    /// The sum of nothing.
    fn zero() -> (w: Self)
        ensures
            w == Self::spec_zero(),
    ;

    /// The product of nothing.
    fn one() -> (w: Self)
        ensures
            w == Self::spec_one(),
    ;

    /// A value that is not in the semiring.
    fn no_weight() -> (w: Self)
        ensures
            w == Self::spec_no_weight(),
    ;

    /// The sum.
    fn plus(&self, other: &Self) -> (w: Self)
        ensures
            w == self.spec_plus(*other),
    ;

    /// The product.
    fn times(&self, other: &Self) -> (w: Self)
        ensures
            w == self.spec_times(*other),
    ;

    /// A copy of the value.
    fn duplicate(&self) -> (w: Self)
        ensures
            w == *self,
    ;

    /// Whether the two are the same value.
    fn same(&self, other: &Self) -> (b: bool)
        ensures
            b == (*self == *other),
    ;

    /// Whether the value is in the semiring at all.
    fn is_member(&self) -> (b: bool)
        ensures
            b == self.spec_member(),
    ;

    /// Whether the two are within `delta` of each other.
    fn approx_equal(&self, other: &Self, delta: &Self::Delta) -> (b: bool)
        ensures
            b == self.spec_approx(*other, *delta),
    ;

    /// The value rounded to the grid that `delta` lays.
    fn quantize(&self, delta: &Self::Delta) -> (w: Self)
        ensures
            w == self.spec_quantize(*delta),
    ;

    /// A word that depends on the value alone.
    fn hash_word(&self) -> (h: u64)
        ensures
            h == self.spec_hash_word(),
    ;

    /// Which laws the semiring keeps, as bits.
    fn properties() -> (p: u64)
        ensures
            p == Self::spec_properties(),
    ;

    /// How far apart two weights may usually be and still count as alike.
    fn default_delta() -> (delta: Self::Delta)
        ensures
            delta == Self::spec_default_delta(),
    ;
}

/// Which side a divisor stands on.
#[derive(Debug, Clone, Copy, PartialEq, Eq, Structural)]
pub enum DivideType {
    /// The divisor is on the left of what is found.
    Left,
    /// The divisor is on the right of what is found.
    Right,
    /// The side does not matter.
    Any,
}

/// A semiring whose products can be taken apart again.
pub trait Divide: Weight {
    /// What `divisor` has to be multiplied by to give the value back.
    spec fn spec_divide(self, divisor: Self, side: DivideType) -> Self;

    /// What `divisor` has to be multiplied by to give the value back.
    fn divide(&self, divisor: &Self, side: DivideType) -> (w: Self)
        ensures
            w == self.spec_divide(*divisor, side),
    ;
}

/// A semiring whose elements can be read from the other end.
pub trait Reversible: Weight {
    /// What a weight becomes.
    type ReverseWeight: Weight;

    /// The weight read from the other end.
    spec fn spec_reverse(self) -> Self::ReverseWeight;

    /// The weight read from the other end.
    fn reverse(&self) -> (w: Self::ReverseWeight)
        ensures
            w == self.spec_reverse(),
    ;
}

/// Whether `a` comes before `b` in the order that the sum picks from.
pub open spec fn spec_natural_less<W: Weight>(a: W, b: W) -> bool {
    a.spec_plus(b) == a && a != b
}

/// Whether `a` comes before `b` in the order that the sum picks from.
pub fn natural_less<W: Weight>(a: &W, b: &W) -> (less: bool)
    ensures
        less == spec_natural_less(*a, *b),
{
    let sum = a.plus(b);
    sum.same(a) && !a.same(b)
}

/// Whether a state that weighs `w` is one where a path may end.
pub open spec fn spec_is_final<W: Weight>(w: W) -> bool {
    w.spec_member() && w != W::spec_zero()
}

/// Whether a state that weighs `w` is one where a path may end.
pub fn is_final<W: Weight>(w: &W) -> (b: bool)
    ensures
        b == spec_is_final(*w),
{
    let zero = W::zero();
    w.is_member() && !w.same(&zero)
}

} // verus!
