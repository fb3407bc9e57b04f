//! Weighted finite-state transducers over algebraic semirings.
//!
//! A transducer maps input symbol sequences to output symbol sequences; every
//! path carries a weight drawn from a semiring. This crate provides the
//! semiring algebra, a vector-backed transducer container, graph algorithms
//! (trimming, projection, inversion, label encoding, sorting and
//! deduplication of transitions), and the matching and label-reachability
//! machinery used by composition.

pub mod semirings;
pub mod vector_fst;
pub mod reachability;
pub mod algorithms;
pub mod compose;

use vstd::prelude::*;

verus! {

/// A transition label: a non-negative integer symbol identifier.
pub type Label = usize;

/// A state identifier, dense in `[0, num_states)`.
pub type StateId = usize;

/// The empty-symbol marker.
pub const EPS_LABEL: Label = 0;

/// Sentinel label meaning "no actual symbol traversed" (matchers, filters).
pub const NO_LABEL: Label = usize::MAX;

/// Sentinel state identifier meaning "no state".
pub const NO_STATE_ID: StateId = usize::MAX;

/// Sentinel index meaning "not yet assigned".
pub const UNASSIGNED: usize = usize::MAX;

/// Errors surfaced by fallible operations. Errors are values: no algorithm
/// signals failure out of band, and none silently recovers.
#[derive(Clone, Copy, Debug, PartialEq, Eq, Structural)]
pub enum FstError {
    /// A state identifier at or above `num_states` was supplied.
    StateOutOfRange(StateId),
    /// A matcher or reachability query was invoked on a transducer that does
    /// not carry the required label-sort property.
    UnsortedFst,
    /// An operation required a semiring property (LEFT/RIGHT/IDEMPOTENT/PATH)
    /// that the weight type does not advertise.
    SemiringMismatch,
    /// The semiring rejected a weight combination, for instance because a
    /// machine-arithmetic bound was exceeded.
    IncompatibleWeights,
    /// Weak division was requested where no divisor representative exists.
    DivideUndefined,
    /// An algorithm restricted to acyclic graphs met a cycle.
    CycleInAcyclicAlgorithm,
    /// A shortest-distance accumulation failed to converge.
    ShortestDistanceDiverges,
}

/// A transition: input label, output label, weight, and destination state.
#[derive(Clone, Copy, Debug)]
pub struct Tr<W> {
    /// Input label (`EPS_LABEL` marks an epsilon input).
    pub ilabel: Label,
    /// Output label (`EPS_LABEL` marks an epsilon output).
    pub olabel: Label,
    /// Transition weight.
    pub weight: W,
    /// Destination state.
    pub nextstate: StateId,
}

impl<W> Tr<W> {
    /// Builds a transition from its four components.
    pub fn new(ilabel: Label, olabel: Label, weight: W, nextstate: StateId) -> (r: Tr<W>)
        ensures
            r.ilabel == ilabel,
            r.olabel == olabel,
            r.weight == weight,
            r.nextstate == nextstate,
    {
        Tr { ilabel, olabel, weight, nextstate }
    }

    /// The input label.
    pub fn ilabel(&self) -> (r: Label)
        ensures
            r == self.ilabel,
    {
        self.ilabel
    }

    /// The output label.
    pub fn olabel(&self) -> (r: Label)
        ensures
            r == self.olabel,
    {
        self.olabel
    }

    /// The destination state.
    pub fn nextstate(&self) -> (r: StateId)
        ensures
            r == self.nextstate,
    {
        self.nextstate
    }
}

impl<W: Copy> Tr<W> {
    /// The transition weight.
    pub fn weight(&self) -> (r: W)
        ensures
            r == self.weight,
    {
        self.weight
    }
}

} // verus!
