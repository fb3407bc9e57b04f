//! Integer semiring: (non-negative integers, +, *, 0, 1). The executable
//! operations are checked: a sum or product that exceeds the machine bound is
//! rejected with an error rather than wrapped.

use vstd::prelude::*;
use crate::FstError;
use crate::semirings::semiring::{Semiring, SemiringProperties, WeightQuantize};

verus! {

/// A weight in the integer semiring.
#[derive(Clone, Copy, Debug, PartialEq, Eq, Structural, Hash)]
pub struct IntegerWeight {
    /// The carrier value.
    pub value: u64,
}

impl Semiring for IntegerWeight {
    type Type = u64;

    open spec fn sp_plus(a: Self, b: Self) -> Self {
        IntegerWeight { value: (a.value + b.value) as u64 }
    }

    open spec fn sp_times(a: Self, b: Self) -> Self {
        IntegerWeight { value: (a.value * b.value) as u64 }
    }

    open spec fn sp_zero() -> Self {
        IntegerWeight { value: 0 }
    }

    open spec fn sp_one() -> Self {
        IntegerWeight { value: 1 }
    }

    open spec fn plus_defined(a: Self, b: Self) -> bool {
        a.value + b.value <= u64::MAX
    }

    open spec fn times_defined(a: Self, b: Self) -> bool {
        a.value * b.value <= u64::MAX
    }

    open spec fn sp_properties() -> SemiringProperties {
        SemiringProperties {
            left_semiring: true,
            right_semiring: true,
            commutative: true,
            idempotent: false,
            path: false,
        }
    }

    open spec fn wf(self) -> bool {
        true
    }

    open spec fn sp_new(value: u64) -> Self {
        IntegerWeight { value }
    }

    open spec fn carrier_wf(value: u64) -> bool {
        true
    }

    open spec fn sp_value(self) -> u64 {
        self.value
    }

    fn new(value: u64) -> Self {
        IntegerWeight { value }
    }

    fn zero() -> Self {
        IntegerWeight { value: 0 }
    }

    fn one() -> Self {
        IntegerWeight { value: 1 }
    }

    fn properties() -> SemiringProperties {
        SemiringProperties {
            left_semiring: true,
            right_semiring: true,
            commutative: true,
            idempotent: false,
            path: false,
        }
    }

    fn value(&self) -> u64 {
        self.value
    }

    fn take_value(self) -> u64 {
        self.value
    }

    fn set_value(&mut self, value: u64) {
        self.value = value;
    }

    fn plus_assign(&mut self, rhs: &Self) -> Result<(), FstError> {
        match self.value.checked_add(rhs.value) {
            Some(v) => {
                self.value = v;
                Ok(())
            },
            None => Err(FstError::IncompatibleWeights),
        }
    }

    fn times_assign(&mut self, rhs: &Self) -> Result<(), FstError> {
        match self.value.checked_mul(rhs.value) {
            Some(v) => {
                self.value = v;
                Ok(())
            },
            None => Err(FstError::IncompatibleWeights),
        }
    }

    fn is_zero(&self) -> bool {
        self.value == 0
    }

    fn is_one(&self) -> bool {
        self.value == 1
    }

    fn weight_eq(&self, other: &Self) -> bool {
        self.value == other.value
    }

    proof fn lemma_identities_wf() {
    }

    proof fn lemma_plus_wf(a: Self, b: Self) {
    }

    proof fn lemma_times_wf(a: Self, b: Self) {
    }

    proof fn lemma_plus_zero(a: Self) {
    }

    proof fn lemma_plus_commutative(a: Self, b: Self) {
    }

    proof fn lemma_plus_associative(a: Self, b: Self, c: Self) {
    }

    proof fn lemma_times_one(a: Self) {
    }

    proof fn lemma_times_zero(a: Self) {
    }

    proof fn lemma_times_associative(a: Self, b: Self, c: Self) {
        assert(a.value * (b.value * c.value) == (a.value * b.value) * c.value)
            by (nonlinear_arith);
    }

    proof fn lemma_right_distributive(a: Self, b: Self, c: Self) {
        assert((a.value + b.value) * c.value == a.value * c.value + b.value * c.value)
            by (nonlinear_arith);
    }

    proof fn lemma_left_distributive(a: Self, b: Self, c: Self) {
        assert(a.value * (b.value + c.value) == a.value * b.value + a.value * c.value)
            by (nonlinear_arith);
    }

    proof fn lemma_idempotent(a: Self) {
    }

    proof fn lemma_path(a: Self, b: Self) {
    }
}

impl WeightQuantize for IntegerWeight {
    open spec fn sp_quantize(self) -> Self {
        self
    }

    fn quantize(&self) -> Self {
        *self
    }

    proof fn lemma_quantize_idempotent(a: Self) {
    }
}

} // verus!
