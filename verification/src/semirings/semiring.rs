//! The weight contract every semiring instance implements, together with the
//! algebraic laws each instance must prove.

use vstd::prelude::*;
use crate::FstError;

verus! {

/// Advertised algebraic properties of a semiring. Algorithm preconditions are
/// stated in terms of these flags.
#[derive(Clone, Copy, Debug, PartialEq, Eq, Structural)]
pub struct SemiringProperties {
    /// Times distributes over plus on the left: `a (*) (b (+) c) = a(*)b (+) a(*)c`.
    pub left_semiring: bool,
    /// Times distributes over plus on the right: `(a (+) b) (*) c = a(*)c (+) b(*)c`.
    pub right_semiring: bool,
    /// Times is commutative.
    pub commutative: bool,
    /// Plus is idempotent: `a (+) a = a`.
    pub idempotent: bool,
    /// Plus always selects one of its operands.
    pub path: bool,
}

/// The side on which weak division is performed.
#[derive(Clone, Copy, Debug, PartialEq, Eq, Structural)]
pub enum DivideType {
    /// Divide on the left.
    DivideLeft,
    /// Divide on the right.
    DivideRight,
    /// Either side (commutative semirings).
    DivideAny,
}

/// An algebraic weight. `sp_plus`, `sp_times`, `sp_zero` and `sp_one` give the
/// mathematical operations; the executable operations realize them and fail
/// exactly where `plus_defined` / `times_defined` say the combination is
/// rejected (for instance by a machine-arithmetic bound). The proof functions
/// are the semiring laws; every instance discharges them.
pub trait Semiring: Sized + Clone + Copy {
    /// The carrier type a weight wraps.
    type Type;

    /// The mathematical sum `a (+) b`.
    spec fn sp_plus(a: Self, b: Self) -> Self;

    /// The mathematical product `a (*) b`.
    spec fn sp_times(a: Self, b: Self) -> Self;

    /// The additive identity.
    spec fn sp_zero() -> Self;

    /// The multiplicative identity.
    spec fn sp_one() -> Self;

    /// Whether the executable plus accepts this combination.
    spec fn plus_defined(a: Self, b: Self) -> bool;

    /// Whether the executable times accepts this combination.
    spec fn times_defined(a: Self, b: Self) -> bool;

    /// The advertised property set.
    spec fn sp_properties() -> SemiringProperties;

    /// Structural validity of a weight value.
    spec fn wf(self) -> bool;

    /// The weight wrapping a carrier value.
    spec fn sp_new(value: Self::Type) -> Self;

    /// The carrier value a weight wraps.
    spec fn sp_value(self) -> Self::Type;

    /// Structural validity of a carrier value.
    spec fn carrier_wf(value: Self::Type) -> bool;

    /// Builds a weight from a carrier value.
    fn new(value: Self::Type) -> (r: Self)
        requires
            Self::carrier_wf(value),
        ensures
            r == Self::sp_new(value),
            r.wf(),
    ;

    /// The additive identity.
    fn zero() -> (r: Self)
        ensures
            r == Self::sp_zero(),
            r.wf(),
    ;

    /// The multiplicative identity.
    fn one() -> (r: Self)
        ensures
            r == Self::sp_one(),
            r.wf(),
    ;

    /// The advertised property set.
    fn properties() -> (r: SemiringProperties)
        ensures
            r == Self::sp_properties(),
    ;

    /// The carrier value.
    fn value(&self) -> (r: Self::Type)
        ensures
            r == self.sp_value(),
            self.wf() ==> Self::carrier_wf(r),
    ;

    /// The carrier value, by move.
    fn take_value(self) -> (r: Self::Type)
        ensures
            r == self.sp_value(),
            self.wf() ==> Self::carrier_wf(r),
    ;

    /// Replaces the carrier value.
    fn set_value(&mut self, value: Self::Type)
        requires
            Self::carrier_wf(value),
        ensures
            *final(self) == Self::sp_new(value),
            final(self).wf(),
    ;

    /// Sums `rhs` into `self`; fails, with the incompatible-weights error,
    /// iff the semiring rejects the combination.
    fn plus_assign(&mut self, rhs: &Self) -> (r: Result<(), FstError>)
        requires
            old(self).wf(),
            rhs.wf(),
        ensures
            r is Ok <==> Self::plus_defined(*old(self), *rhs),
            r is Ok ==> *final(self) == Self::sp_plus(*old(self), *rhs) && final(self).wf(),
            r is Err ==> *final(self) == *old(self) && r == Err::<(), FstError>(
                FstError::IncompatibleWeights,
            ),
    ;

    /// Multiplies `rhs` into `self`; fails, with the incompatible-weights
    /// error, iff the semiring rejects the combination.
    fn times_assign(&mut self, rhs: &Self) -> (r: Result<(), FstError>)
        requires
            old(self).wf(),
            rhs.wf(),
        ensures
            r is Ok <==> Self::times_defined(*old(self), *rhs),
            r is Ok ==> *final(self) == Self::sp_times(*old(self), *rhs) && final(self).wf(),
            r is Err ==> *final(self) == *old(self) && r == Err::<(), FstError>(
                FstError::IncompatibleWeights,
            ),
    ;

    /// Whether this weight is the additive identity.
    fn is_zero(&self) -> (r: bool)
        ensures
            r <==> (*self == Self::sp_zero()),
    ;

    /// Whether this weight is the multiplicative identity.
    fn is_one(&self) -> (r: bool)
        ensures
            r <==> (*self == Self::sp_one()),
    ;

    /// Structural equality of weights.
    fn weight_eq(&self, other: &Self) -> (r: bool)
        ensures
            r <==> (*self == *other),
    ;

    /// The identities are well formed.
    proof fn lemma_identities_wf()
        ensures
            Self::sp_zero().wf(),
            Self::sp_one().wf(),
    ;

    /// Plus preserves well-formedness.
    proof fn lemma_plus_wf(a: Self, b: Self)
        requires
            a.wf(),
            b.wf(),
            Self::plus_defined(a, b),
        ensures
            Self::sp_plus(a, b).wf(),
    ;

    /// Times preserves well-formedness.
    proof fn lemma_times_wf(a: Self, b: Self)
        requires
            a.wf(),
            b.wf(),
            Self::times_defined(a, b),
        ensures
            Self::sp_times(a, b).wf(),
    ;

    /// The additive identity is neutral: `a (+) zero = a`.
    proof fn lemma_plus_zero(a: Self)
        requires
            a.wf(),
        ensures
            Self::plus_defined(a, Self::sp_zero()),
            Self::plus_defined(Self::sp_zero(), a),
            Self::sp_plus(a, Self::sp_zero()) == a,
            Self::sp_plus(Self::sp_zero(), a) == a,
    ;

    /// Plus is commutative: `a (+) b = b (+) a`.
    proof fn lemma_plus_commutative(a: Self, b: Self)
        requires
            a.wf(),
            b.wf(),
        ensures
            Self::plus_defined(a, b) == Self::plus_defined(b, a),
            Self::plus_defined(a, b) ==> Self::sp_plus(a, b) == Self::sp_plus(b, a),
    ;

    /// Plus is associative: `a (+) (b (+) c) = (a (+) b) (+) c`.
    proof fn lemma_plus_associative(a: Self, b: Self, c: Self)
        requires
            a.wf(),
            b.wf(),
            c.wf(),
            Self::plus_defined(b, c),
            Self::plus_defined(a, Self::sp_plus(b, c)),
            Self::plus_defined(a, b),
            Self::plus_defined(Self::sp_plus(a, b), c),
        ensures
            Self::sp_plus(a, Self::sp_plus(b, c)) == Self::sp_plus(Self::sp_plus(a, b), c),
    ;

    /// The multiplicative identity is neutral on both sides:
    /// `a (*) one = one (*) a = a`.
    proof fn lemma_times_one(a: Self)
        requires
            a.wf(),
        ensures
            Self::times_defined(a, Self::sp_one()),
            Self::times_defined(Self::sp_one(), a),
            Self::sp_times(a, Self::sp_one()) == a,
            Self::sp_times(Self::sp_one(), a) == a,
    ;

    /// The additive identity annihilates on both sides:
    /// `a (*) zero = zero (*) a = zero`.
    proof fn lemma_times_zero(a: Self)
        requires
            a.wf(),
        ensures
            Self::times_defined(a, Self::sp_zero()),
            Self::times_defined(Self::sp_zero(), a),
            Self::sp_times(a, Self::sp_zero()) == Self::sp_zero(),
            Self::sp_times(Self::sp_zero(), a) == Self::sp_zero(),
    ;

    /// Times is associative: `a (*) (b (*) c) = (a (*) b) (*) c`.
    proof fn lemma_times_associative(a: Self, b: Self, c: Self)
        requires
            a.wf(),
            b.wf(),
            c.wf(),
            Self::times_defined(b, c),
            Self::times_defined(a, Self::sp_times(b, c)),
            Self::times_defined(a, b),
            Self::times_defined(Self::sp_times(a, b), c),
        ensures
            Self::sp_times(a, Self::sp_times(b, c)) == Self::sp_times(Self::sp_times(a, b), c),
    ;

    /// Right distributivity, owed where `right_semiring` is advertised:
    /// `(a (+) b) (*) c = a(*)c (+) b(*)c`.
    proof fn lemma_right_distributive(a: Self, b: Self, c: Self)
        requires
            Self::sp_properties().right_semiring,
            a.wf(),
            b.wf(),
            c.wf(),
            Self::plus_defined(a, b),
            Self::times_defined(Self::sp_plus(a, b), c),
            Self::times_defined(a, c),
            Self::times_defined(b, c),
            Self::plus_defined(Self::sp_times(a, c), Self::sp_times(b, c)),
        ensures
            Self::sp_times(Self::sp_plus(a, b), c)
                == Self::sp_plus(Self::sp_times(a, c), Self::sp_times(b, c)),
    ;

    /// Left distributivity, owed where `left_semiring` is advertised:
    /// `a (*) (b (+) c) = a(*)b (+) a(*)c`.
    proof fn lemma_left_distributive(a: Self, b: Self, c: Self)
        requires
            Self::sp_properties().left_semiring,
            a.wf(),
            b.wf(),
            c.wf(),
            Self::plus_defined(b, c),
            Self::times_defined(a, Self::sp_plus(b, c)),
            Self::times_defined(a, b),
            Self::times_defined(a, c),
            Self::plus_defined(Self::sp_times(a, b), Self::sp_times(a, c)),
        ensures
            Self::sp_times(a, Self::sp_plus(b, c))
                == Self::sp_plus(Self::sp_times(a, b), Self::sp_times(a, c)),
    ;

    /// Plus is idempotent where `idempotent` is advertised: `a (+) a = a`.
    proof fn lemma_idempotent(a: Self)
        requires
            Self::sp_properties().idempotent,
            a.wf(),
        ensures
            Self::plus_defined(a, a),
            Self::sp_plus(a, a) == a,
    ;

    /// Plus selects an operand where `path` is advertised: `a (+) b` is `a` or `b`.
    proof fn lemma_path(a: Self, b: Self)
        requires
            Self::sp_properties().path,
            a.wf(),
            b.wf(),
            Self::plus_defined(a, b),
        ensures
            Self::sp_plus(a, b) == a || Self::sp_plus(a, b) == b,
    ;
}

/// Quantization: a deterministic rounding of a weight onto a fixed grid, so
/// that equality and hashing of nearly-equal weights agree.
pub trait WeightQuantize: Semiring {
    /// The quantized image of a weight.
    spec fn sp_quantize(self) -> Self;

    /// Rounds this weight onto the quantization grid.
    fn quantize(&self) -> (r: Self)
        requires
            self.wf(),
        ensures
            r == self.sp_quantize(),
            r.wf(),
    ;

    /// Quantization is idempotent: `Q(Q(w)) = Q(w)`.
    proof fn lemma_quantize_idempotent(a: Self)
        requires
            a.wf(),
        ensures
            a.sp_quantize().sp_quantize() == a.sp_quantize(),
            a.sp_quantize().wf(),
    ;
}

/// Weak division: where defined, `divide` undoes `times` on the stated side.
pub trait WeaklyDivisibleSemiring: Semiring {
    /// Whether division of `a` by `b` on the given side is defined.
    spec fn divide_defined(a: Self, b: Self, divide_type: DivideType) -> bool;

    /// The quotient of `a` by `b`.
    spec fn sp_divide(a: Self, b: Self, divide_type: DivideType) -> Self;

    /// Divides `rhs` out of `self`; fails iff no divisor representative exists.
    fn divide_assign(&mut self, rhs: &Self, divide_type: DivideType) -> (r: Result<
        (),
        FstError,
    >)
        requires
            old(self).wf(),
            rhs.wf(),
        ensures
            r is Ok <==> Self::divide_defined(*old(self), *rhs, divide_type),
            r is Ok ==> *final(self) == Self::sp_divide(*old(self), *rhs, divide_type)
                && final(self).wf(),
            r is Err ==> *final(self) == *old(self),
    ;
}

} // verus!
