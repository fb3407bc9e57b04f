//! Boolean semiring: ({false, true}, or, and, false, true).

use vstd::prelude::*;
use crate::FstError;
use crate::semirings::semiring::{Semiring, SemiringProperties, WeightQuantize};

verus! {

/// A weight in the Boolean semiring.
#[derive(Clone, Copy, Debug, PartialEq, Eq, Structural, Hash)]
pub struct BooleanWeight {
    /// The carrier value.
    pub value: bool,
}

impl Semiring for BooleanWeight {
    type Type = bool;

    open spec fn sp_plus(a: Self, b: Self) -> Self {
        BooleanWeight { value: a.value || b.value }
    }

    open spec fn sp_times(a: Self, b: Self) -> Self {
        BooleanWeight { value: a.value && b.value }
    }

    open spec fn sp_zero() -> Self {
        BooleanWeight { value: false }
    }

    open spec fn sp_one() -> Self {
        BooleanWeight { value: true }
    }

    open spec fn plus_defined(a: Self, b: Self) -> bool {
        true
    }

    open spec fn times_defined(a: Self, b: Self) -> bool {
        true
    }

    open spec fn sp_properties() -> SemiringProperties {
        SemiringProperties {
            left_semiring: true,
            right_semiring: true,
            commutative: true,
            idempotent: true,
            path: true,
        }
    }

    open spec fn wf(self) -> bool {
        true
    }

    open spec fn sp_new(value: bool) -> Self {
        BooleanWeight { value }
    }

    open spec fn carrier_wf(value: bool) -> bool {
        true
    }

    open spec fn sp_value(self) -> bool {
        self.value
    }

    fn new(value: bool) -> Self {
        BooleanWeight { value }
    }

    fn zero() -> Self {
        BooleanWeight { value: false }
    }

    fn one() -> Self {
        BooleanWeight { value: true }
    }

    fn properties() -> SemiringProperties {
        SemiringProperties {
            left_semiring: true,
            right_semiring: true,
            commutative: true,
            idempotent: true,
            path: true,
        }
    }

    fn value(&self) -> bool {
        self.value
    }

    fn take_value(self) -> bool {
        self.value
    }

    fn set_value(&mut self, value: bool) {
        self.value = value;
    }

    fn plus_assign(&mut self, rhs: &Self) -> Result<(), FstError> {
        self.value = self.value || rhs.value;
        Ok(())
    }

    fn times_assign(&mut self, rhs: &Self) -> Result<(), FstError> {
        self.value = self.value && rhs.value;
        Ok(())
    }

    fn is_zero(&self) -> bool {
        !self.value
    }

    fn is_one(&self) -> bool {
        self.value
    }

    fn weight_eq(&self, other: &Self) -> bool {
        self.value == other.value
    }

    proof fn lemma_identities_wf() {
    }

    proof fn lemma_plus_wf(a: Self, b: Self) {
    }

    proof fn lemma_times_wf(a: Self, b: Self) {
    }

    proof fn lemma_plus_zero(a: Self) {
    }

    proof fn lemma_plus_commutative(a: Self, b: Self) {
    }

    proof fn lemma_plus_associative(a: Self, b: Self, c: Self) {
    }

    proof fn lemma_times_one(a: Self) {
    }

    proof fn lemma_times_zero(a: Self) {
    }

    proof fn lemma_times_associative(a: Self, b: Self, c: Self) {
    }

    proof fn lemma_right_distributive(a: Self, b: Self, c: Self) {
    }

    proof fn lemma_left_distributive(a: Self, b: Self, c: Self) {
    }

    proof fn lemma_idempotent(a: Self) {
    }

    proof fn lemma_path(a: Self, b: Self) {
    }
}

impl WeightQuantize for BooleanWeight {
    open spec fn sp_quantize(self) -> Self {
        self
    }

    fn quantize(&self) -> Self {
        *self
    }

    proof fn lemma_quantize_idempotent(a: Self) {
    }
}

} // verus!
