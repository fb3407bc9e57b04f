//! Product semiring: pairs of weights combined pointwise.

use vstd::prelude::*;
use crate::FstError;
use crate::semirings::semiring::{Semiring, SemiringProperties};

verus! {

/// A weight in the product semiring over `W1` and `W2`.
#[derive(Clone, Copy, Debug)]
pub struct ProductWeight<W1, W2> {
    /// The first component.
    pub w1: W1,
    /// The second component.
    pub w2: W2,
}

impl<W1: Semiring, W2: Semiring> Semiring for ProductWeight<W1, W2> {
    type Type = (W1, W2);

    open spec fn sp_plus(a: Self, b: Self) -> Self {
        ProductWeight { w1: W1::sp_plus(a.w1, b.w1), w2: W2::sp_plus(a.w2, b.w2) }
    }

    open spec fn sp_times(a: Self, b: Self) -> Self {
        ProductWeight { w1: W1::sp_times(a.w1, b.w1), w2: W2::sp_times(a.w2, b.w2) }
    }

    open spec fn sp_zero() -> Self {
        ProductWeight { w1: W1::sp_zero(), w2: W2::sp_zero() }
    }

    open spec fn sp_one() -> Self {
        ProductWeight { w1: W1::sp_one(), w2: W2::sp_one() }
    }

    open spec fn plus_defined(a: Self, b: Self) -> bool {
        W1::plus_defined(a.w1, b.w1) && W2::plus_defined(a.w2, b.w2)
    }

    open spec fn times_defined(a: Self, b: Self) -> bool {
        W1::times_defined(a.w1, b.w1) && W2::times_defined(a.w2, b.w2)
    }

    open spec fn sp_properties() -> SemiringProperties {
        SemiringProperties {
            left_semiring: W1::sp_properties().left_semiring
                && W2::sp_properties().left_semiring,
            right_semiring: W1::sp_properties().right_semiring
                && W2::sp_properties().right_semiring,
            commutative: W1::sp_properties().commutative && W2::sp_properties().commutative,
            idempotent: W1::sp_properties().idempotent && W2::sp_properties().idempotent,
            path: false,
        }
    }

    open spec fn wf(self) -> bool {
        self.w1.wf() && self.w2.wf()
    }

    open spec fn sp_new(value: (W1, W2)) -> Self {
        ProductWeight { w1: value.0, w2: value.1 }
    }

    open spec fn sp_value(self) -> (W1, W2) {
        (self.w1, self.w2)
    }

    open spec fn carrier_wf(value: (W1, W2)) -> bool {
        value.0.wf() && value.1.wf()
    }

    fn new(value: (W1, W2)) -> Self {
        ProductWeight { w1: value.0, w2: value.1 }
    }

    fn zero() -> Self {
        ProductWeight { w1: W1::zero(), w2: W2::zero() }
    }

    fn one() -> Self {
        ProductWeight { w1: W1::one(), w2: W2::one() }
    }

    fn properties() -> SemiringProperties {
        let p1 = W1::properties();
        let p2 = W2::properties();
        SemiringProperties {
            left_semiring: p1.left_semiring && p2.left_semiring,
            right_semiring: p1.right_semiring && p2.right_semiring,
            commutative: p1.commutative && p2.commutative,
            idempotent: p1.idempotent && p2.idempotent,
            path: false,
        }
    }

    fn value(&self) -> (W1, W2) {
        (self.w1, self.w2)
    }

    fn take_value(self) -> (W1, W2) {
        (self.w1, self.w2)
    }

    fn set_value(&mut self, value: (W1, W2)) {
        self.w1 = value.0;
        self.w2 = value.1;
    }

    fn plus_assign(&mut self, rhs: &Self) -> Result<(), FstError> {
        let mut a = self.w1;
        match a.plus_assign(&rhs.w1) {
            Ok(()) => {},
            Err(e) => {
                return Err(e);
            },
        }
        let mut b = self.w2;
        match b.plus_assign(&rhs.w2) {
            Ok(()) => {},
            Err(e) => {
                return Err(e);
            },
        }
        self.w1 = a;
        self.w2 = b;
        Ok(())
    }

    fn times_assign(&mut self, rhs: &Self) -> Result<(), FstError> {
        let mut a = self.w1;
        match a.times_assign(&rhs.w1) {
            Ok(()) => {},
            Err(e) => {
                return Err(e);
            },
        }
        let mut b = self.w2;
        match b.times_assign(&rhs.w2) {
            Ok(()) => {},
            Err(e) => {
                return Err(e);
            },
        }
        self.w1 = a;
        self.w2 = b;
        Ok(())
    }

    fn is_zero(&self) -> bool {
        let z1 = W1::zero();
        let z2 = W2::zero();
        self.w1.weight_eq(&z1) && self.w2.weight_eq(&z2)
    }

    fn is_one(&self) -> bool {
        let o1 = W1::one();
        let o2 = W2::one();
        self.w1.weight_eq(&o1) && self.w2.weight_eq(&o2)
    }

    fn weight_eq(&self, other: &Self) -> bool {
        self.w1.weight_eq(&other.w1) && self.w2.weight_eq(&other.w2)
    }

    proof fn lemma_identities_wf() {
        W1::lemma_identities_wf();
        W2::lemma_identities_wf();
    }

    proof fn lemma_plus_wf(a: Self, b: Self) {
        W1::lemma_plus_wf(a.w1, b.w1);
        W2::lemma_plus_wf(a.w2, b.w2);
    }

    proof fn lemma_times_wf(a: Self, b: Self) {
        W1::lemma_times_wf(a.w1, b.w1);
        W2::lemma_times_wf(a.w2, b.w2);
    }

    proof fn lemma_plus_zero(a: Self) {
        W1::lemma_plus_zero(a.w1);
        W2::lemma_plus_zero(a.w2);
    }

    proof fn lemma_plus_commutative(a: Self, b: Self) {
        W1::lemma_plus_commutative(a.w1, b.w1);
        W2::lemma_plus_commutative(a.w2, b.w2);
    }

    proof fn lemma_plus_associative(a: Self, b: Self, c: Self) {
        W1::lemma_plus_associative(a.w1, b.w1, c.w1);
        W2::lemma_plus_associative(a.w2, b.w2, c.w2);
    }

    proof fn lemma_times_one(a: Self) {
        W1::lemma_times_one(a.w1);
        W2::lemma_times_one(a.w2);
    }

    proof fn lemma_times_zero(a: Self) {
        W1::lemma_times_zero(a.w1);
        W2::lemma_times_zero(a.w2);
    }

    proof fn lemma_times_associative(a: Self, b: Self, c: Self) {
        W1::lemma_times_associative(a.w1, b.w1, c.w1);
        W2::lemma_times_associative(a.w2, b.w2, c.w2);
    }

    proof fn lemma_right_distributive(a: Self, b: Self, c: Self) {
        W1::lemma_right_distributive(a.w1, b.w1, c.w1);
        W2::lemma_right_distributive(a.w2, b.w2, c.w2);
    }

    proof fn lemma_left_distributive(a: Self, b: Self, c: Self) {
        W1::lemma_left_distributive(a.w1, b.w1, c.w1);
        W2::lemma_left_distributive(a.w2, b.w2, c.w2);
    }

    proof fn lemma_idempotent(a: Self) {
        W1::lemma_idempotent(a.w1);
        W2::lemma_idempotent(a.w2);
    }

    proof fn lemma_path(a: Self, b: Self) {
    }
}

} // verus!
