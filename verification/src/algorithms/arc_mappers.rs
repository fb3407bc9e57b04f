//! Label mappers: stateless rewrites applied to every transition of a
//! transducer.

use vstd::prelude::*;
use crate::semirings::Semiring;
use crate::{Tr, EPS_LABEL};

verus! {

/// A stateless per-transition rewrite: the spec functions say what the
/// executable methods do, and a mapper may change labels but neither targets
/// nor well-formedness.
pub trait ArcMapper<S: Semiring>: Sized {
    /// What `arc_map` does to a transition.
    spec fn arc_map_spec(self, arc: Tr<S>) -> Tr<S>;

    /// What `final_weight_map` does to a final weight.
    spec fn final_weight_map_spec(self, weight: S) -> S;

    /// The rewrite keeps the target and keeps weights well formed.
    proof fn arc_map_preserves(self, arc: Tr<S>)
        ensures
            self.arc_map_spec(arc).nextstate == arc.nextstate,
            arc.weight.wf() ==> self.arc_map_spec(arc).weight.wf(),
            self.final_weight_map_spec(arc.weight).wf() || !arc.weight.wf(),
    ;

    /// Rewrites one transition in place.
    fn arc_map(&mut self, arc: &mut Tr<S>)
        ensures
            *final(self) == *old(self),
            *final(arc) == old(self).arc_map_spec(*old(arc)),
    ;

    /// Rewrites one final weight in place.
    fn final_weight_map(&mut self, weight: &mut S)
        ensures
            *final(self) == *old(self),
            *final(weight) == old(self).final_weight_map_spec(*old(weight)),
    ;
}

/// Replaces every input label by epsilon.
pub struct InputEpsilonMapper {}

impl<S: Semiring> ArcMapper<S> for InputEpsilonMapper {
    open spec fn arc_map_spec(self, arc: Tr<S>) -> Tr<S> {
        Tr { ilabel: EPS_LABEL, olabel: arc.olabel, weight: arc.weight, nextstate: arc.nextstate }
    }

    open spec fn final_weight_map_spec(self, weight: S) -> S {
        weight
    }

    proof fn arc_map_preserves(self, arc: Tr<S>) {
    }

    fn arc_map(&mut self, arc: &mut Tr<S>) {
        arc.ilabel = EPS_LABEL;
    }

    fn final_weight_map(&mut self, _weight: &mut S) {
    }
}

} // verus!
