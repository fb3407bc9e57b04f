//! State mapping: transforms each state of a transducer in place, without
//! changing the number of states.

use vstd::prelude::*;
use crate::semirings::Semiring;
use crate::vector_fst::VectorFst;
use crate::{StateId, Tr, FstError};

verus! {

/// Determines how each state is mapped: how its final weight changes and how
/// its outgoing transitions change. A mapper touches one state at a time and
/// keeps the transducer well formed.
pub trait StateMapper<W: Semiring>: Sized {
    /// What `map_final_weight` does to a final weight.
    spec fn map_final_weight_spec(self, weight: Option<W>) -> Option<W>;

    /// The relation `map_arcs` establishes between a state's old and new
    /// transitions.
    spec fn map_arcs_rel(self, old_trs: Seq<Tr<W>>, new_trs: Seq<Tr<W>>) -> bool;

    /// Final-weight mapping keeps weights well formed.
    proof fn map_final_weight_preserves(self, weight: Option<W>)
        ensures
            (weight is Some ==> weight->0.wf()) ==> (self.map_final_weight_spec(weight) is Some
                ==> self.map_final_weight_spec(weight)->0.wf()),
    ;

    /// Maps a final weight.
    fn map_final_weight(&self, weight: Option<W>) -> (r: Option<W>)
        ensures
            r == self.map_final_weight_spec(weight),
    ;

    /// Rewrites the transitions of one state in place; only that state's
    /// transitions change, and the transducer stays well formed.
    fn map_arcs(&self, fst: &mut VectorFst<W>, state: StateId)
        requires
            old(fst).wf(),
            state < old(fst).num_states_sp(),
        ensures
            final(fst).wf(),
            final(fst).num_states_sp() == old(fst).num_states_sp(),
            final(fst).start_state == old(fst).start_state,
            forall|s: int|
                0 <= s < old(fst).num_states_sp() && s != state ==> final(fst).states@[s] == old(
                    fst,
                ).states@[s],
            final(fst).final_sp(state as int) == old(fst).final_sp(state as int),
            self.map_arcs_rel(
                old(fst).trs_sp(state as int),
                final(fst).trs_sp(state as int),
            ),
    ;
}

/// Transforms every state of the transducer with the mapper: first its
/// transitions, then its final weight. A transducer without a start state is
/// left untouched.
pub fn state_map<W: Semiring, M: StateMapper<W>>(ifst: &mut VectorFst<W>, mapper: &mut M) -> (r:
    Result<(), FstError>)
    requires
        old(ifst).wf(),
    ensures
        r is Ok,
        *final(mapper) == *old(mapper),
        final(ifst).wf(),
        old(ifst).start_state is None ==> *final(ifst) == *old(ifst),
        old(ifst).start_state is Some ==> {
            &&& final(ifst).num_states_sp() == old(ifst).num_states_sp()
            &&& final(ifst).start_state == old(ifst).start_state
            &&& (forall|s: int|
                0 <= s < old(ifst).num_states_sp() ==> #[trigger] final(ifst).final_sp(s) == old(
                    mapper,
                ).map_final_weight_spec(old(ifst).final_sp(s)))
            &&& (forall|s: int|
                0 <= s < old(ifst).num_states_sp() ==> old(mapper).map_arcs_rel(
                    old(ifst).trs_sp(s),
                    #[trigger] final(ifst).trs_sp(s),
                ))
        },
{
    match ifst.start() {
        Option::None => {
            return Ok(());
        },
        Option::Some(_) => {},
    }
    let n = ifst.num_states();
    let mut s: usize = 0;
    while s < n
        invariant
            ifst.wf(),
            n == ifst.num_states_sp(),
            n == old(ifst).num_states_sp(),
            s <= n,
            *mapper == *old(mapper),
            ifst.start_state == old(ifst).start_state,
            forall|x: int| s <= x < n ==> ifst.states@[x] == old(ifst).states@[x],
            forall|x: int|
                0 <= x < s ==> #[trigger] ifst.final_sp(x) == old(mapper).map_final_weight_spec(
                    old(ifst).final_sp(x),
                ),
            forall|x: int|
                0 <= x < s ==> old(mapper).map_arcs_rel(
                    old(ifst).trs_sp(x),
                    #[trigger] ifst.trs_sp(x),
                ),
        decreases n - s,
    {
        let ghost fst0 = *ifst;
        mapper.map_arcs(ifst, s);
        let ghost fmid = *ifst;
        let fw = ifst.states[s].final_weight;
        let nfw = mapper.map_final_weight(fw);
        proof {
            mapper.map_final_weight_preserves(fw);
            assert(fst0.states@[s as int].weights_wf());
        }
        let ghost prev = ifst.states@;
        let row = &mut ifst.states[s];
        row.final_weight = nfw;
        proof {
            assert(forall|x: int| 0 <= x < n && x != s ==> ifst.states@[x] == prev[x]);
            assert(ifst.states@[s as int].trs@ == prev[s as int].trs@);
            assert(ifst.states@[s as int].targets_below(n as int)) by {
                assert(prev[s as int].targets_below(n as int));
            }
            assert(ifst.states@[s as int].weights_wf()) by {
                assert(prev[s as int].weights_wf());
            }
            assert forall|x: int|
                0 <= x < s + 1 implies #[trigger] ifst.final_sp(x) == old(
                mapper,
            ).map_final_weight_spec(old(ifst).final_sp(x)) by {
                if x == s {
                    assert(fw == fst0.final_sp(s as int));
                    assert(fst0.final_sp(s as int) == old(ifst).final_sp(s as int));
                } else {
                    assert(ifst.states@[x] == prev[x]);
                    assert(prev[x] == fst0.states@[x]);
                    assert(fst0.final_sp(x) == old(mapper).map_final_weight_spec(
                        old(ifst).final_sp(x),
                    ));
                }
            }
            assert forall|x: int|
                0 <= x < s + 1 implies old(mapper).map_arcs_rel(
                old(ifst).trs_sp(x),
                #[trigger] ifst.trs_sp(x),
            ) by {
                if x == s {
                    assert(ifst.trs_sp(x) == fmid.trs_sp(x));
                    assert(fst0.trs_sp(x) == old(ifst).trs_sp(x));
                    assert(old(mapper).map_arcs_rel(fst0.trs_sp(x), fmid.trs_sp(x)));
                } else {
                    assert(ifst.states@[x] == prev[x]);
                    assert(prev[x] == fst0.states@[x]);
                    assert(old(mapper).map_arcs_rel(old(ifst).trs_sp(x), fst0.trs_sp(x)));
                }
            }
        }
        s = s + 1;
    }
    Ok(())
}

} // verus!
