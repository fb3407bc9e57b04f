//! Tropical semiring: (non-negative integers with infinity, min, +, inf, 0).
//! The carrier is a fixed grid of non-negative values; the largest
//! representable value is reserved as the point at infinity, and the product
//! saturates there, which keeps every operation total and exact.

use vstd::prelude::*;
use crate::FstError;
use crate::semirings::semiring::{
    DivideType, Semiring, SemiringProperties, WeaklyDivisibleSemiring, WeightQuantize,
};

verus! {

/// The carrier value reserved as the point at infinity.
pub const TROPICAL_INFINITY: u64 = u64::MAX;

/// A weight in the tropical semiring.
#[derive(Clone, Copy, Debug, PartialEq, Eq, Structural, Hash)]
pub struct TropicalWeight {
    /// The carrier value; `TROPICAL_INFINITY` is the point at infinity.
    pub value: u64,
}

impl Semiring for TropicalWeight {
    type Type = u64;

    open spec fn sp_plus(a: Self, b: Self) -> Self {
        if a.value <= b.value {
            a
        } else {
            b
        }
    }

    open spec fn sp_times(a: Self, b: Self) -> Self {
        if a.value + b.value >= TROPICAL_INFINITY {
            TropicalWeight { value: TROPICAL_INFINITY }
        } else {
            TropicalWeight { value: (a.value + b.value) as u64 }
        }
    }

    open spec fn sp_zero() -> Self {
        TropicalWeight { value: TROPICAL_INFINITY }
    }

    open spec fn sp_one() -> Self {
        TropicalWeight { value: 0 }
    }

    open spec fn plus_defined(a: Self, b: Self) -> bool {
        true
    }

    open spec fn times_defined(a: Self, b: Self) -> bool {
        true
    }

    open spec fn sp_properties() -> SemiringProperties {
        SemiringProperties {
            left_semiring: true,
            right_semiring: true,
            commutative: true,
            idempotent: true,
            path: true,
        }
    }

    open spec fn wf(self) -> bool {
        true
    }

    open spec fn sp_new(value: u64) -> Self {
        TropicalWeight { value }
    }

    open spec fn carrier_wf(value: u64) -> bool {
        true
    }

    open spec fn sp_value(self) -> u64 {
        self.value
    }

    fn new(value: u64) -> Self {
        TropicalWeight { value }
    }

    fn zero() -> Self {
        TropicalWeight { value: TROPICAL_INFINITY }
    }

    fn one() -> Self {
        TropicalWeight { value: 0 }
    }

    fn properties() -> SemiringProperties {
        SemiringProperties {
            left_semiring: true,
            right_semiring: true,
            commutative: true,
            idempotent: true,
            path: true,
        }
    }

    fn value(&self) -> u64 {
        self.value
    }

    fn take_value(self) -> u64 {
        self.value
    }

    fn set_value(&mut self, value: u64) {
        self.value = value;
    }

    fn plus_assign(&mut self, rhs: &Self) -> Result<(), FstError> {
        if rhs.value < self.value {
            self.value = rhs.value;
        }
        Ok(())
    }

    fn times_assign(&mut self, rhs: &Self) -> Result<(), FstError> {
        match self.value.checked_add(rhs.value) {
            Some(v) => {
                self.value = v;
            },
            None => {
                self.value = TROPICAL_INFINITY;
            },
        }
        Ok(())
    }

    fn is_zero(&self) -> bool {
        self.value == TROPICAL_INFINITY
    }

    fn is_one(&self) -> bool {
        self.value == 0
    }

    fn weight_eq(&self, other: &Self) -> bool {
        self.value == other.value
    }

    proof fn lemma_identities_wf() {
    }

    proof fn lemma_plus_wf(a: Self, b: Self) {
    }

    proof fn lemma_times_wf(a: Self, b: Self) {
    }

    proof fn lemma_plus_zero(a: Self) {
    }

    proof fn lemma_plus_commutative(a: Self, b: Self) {
    }

    proof fn lemma_plus_associative(a: Self, b: Self, c: Self) {
    }

    proof fn lemma_times_one(a: Self) {
    }

    proof fn lemma_times_zero(a: Self) {
    }

    proof fn lemma_times_associative(a: Self, b: Self, c: Self) {
    }

    proof fn lemma_right_distributive(a: Self, b: Self, c: Self) {
    }

    proof fn lemma_left_distributive(a: Self, b: Self, c: Self) {
    }

    proof fn lemma_idempotent(a: Self) {
    }

    proof fn lemma_path(a: Self, b: Self) {
    }
}

impl WeightQuantize for TropicalWeight {
    open spec fn sp_quantize(self) -> Self {
        self
    }

    fn quantize(&self) -> Self {
        *self
    }

    proof fn lemma_quantize_idempotent(a: Self) {
    }
}

impl WeaklyDivisibleSemiring for TropicalWeight {
    open spec fn divide_defined(a: Self, b: Self, divide_type: DivideType) -> bool {
        b.value != TROPICAL_INFINITY && (a.value == TROPICAL_INFINITY || a.value >= b.value)
    }

    open spec fn sp_divide(a: Self, b: Self, divide_type: DivideType) -> Self {
        if a.value == TROPICAL_INFINITY {
            a
        } else {
            TropicalWeight { value: (a.value - b.value) as u64 }
        }
    }

    fn divide_assign(&mut self, rhs: &Self, divide_type: DivideType) -> Result<(), FstError> {
        if rhs.value == TROPICAL_INFINITY {
            Err(FstError::DivideUndefined)
        } else if self.value == TROPICAL_INFINITY {
            Ok(())
        } else if self.value >= rhs.value {
            self.value = self.value - rhs.value;
            Ok(())
        } else {
            Err(FstError::DivideUndefined)
        }
    }
}

} // verus!
