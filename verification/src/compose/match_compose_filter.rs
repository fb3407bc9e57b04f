//! The composition filter that prevents epsilon paths from being enumerated
//! twice: a three-state machine over the epsilon structure of the two
//! composed transducers.

use vstd::prelude::*;
use std::sync::Arc;
use crate::compose::matchers::{MatchType, SortedMatcher};
use crate::semirings::Semiring;
use crate::vector_fst::VectorFst;
use crate::{FstError, Label, StateId, Tr, EPS_LABEL, NO_LABEL, NO_STATE_ID};

verus! {

/// A filter state: a small integer tag, with a distinguished dead state.
#[derive(Clone, Copy, Debug, PartialEq, Eq, Structural, Hash)]
pub struct IntegerFilterState {
    /// The tag; `NO_STATE_ID` is the dead state that prunes an edge.
    pub state: StateId,
}

impl IntegerFilterState {
    /// The filter state with the given tag.
    pub fn new(state: StateId) -> (r: Self)
        ensures
            r.state == state,
    {
        IntegerFilterState { state }
    }

    /// The dead filter state.
    pub fn new_no_state() -> (r: Self)
        ensures
            r.state == NO_STATE_ID,
    {
        IntegerFilterState { state: NO_STATE_ID }
    }

    /// The tag.
    pub fn state(&self) -> (r: StateId)
        ensures
            r == self.state,
    {
        self.state
    }
}

/// The number of transitions in `trs` whose chosen-side label is epsilon.
pub open spec fn count_side_eps_sp<W>(trs: Seq<Tr<W>>, input: bool) -> int
    decreases trs.len(),
{
    if trs.len() == 0 {
        0
    } else {
        count_side_eps_sp(trs.drop_last(), input) + (if (if input {
            trs.last().ilabel
        } else {
            trs.last().olabel
        }) == EPS_LABEL {
            1int
        } else {
            0int
        })
    }
}

/// Counts the transitions with an epsilon label on the chosen side.
fn count_side_eps<W: Semiring>(trs: &Vec<Tr<W>>, input: bool) -> (r: usize)
    ensures
        r == count_side_eps_sp(trs@, input),
{
    let mut c: usize = 0;
    let mut i: usize = 0;
    while i < trs.len()
        invariant
            i <= trs@.len(),
            c == count_side_eps_sp(trs@.subrange(0, i as int), input),
            c <= i,
        decreases trs@.len() - i,
    {
        let l = if input {
            trs[i].ilabel
        } else {
            trs[i].olabel
        };
        proof {
            assert(trs@.subrange(0, i + 1).drop_last() =~= trs@.subrange(0, i as int));
            assert(trs@.subrange(0, i + 1).last() == trs@[i as int]);
        }
        if l == EPS_LABEL {
            c = c + 1;
        }
        i = i + 1;
    }
    proof {
        assert(trs@.subrange(0, trs@.len() as int) =~= trs@);
    }
    c
}

/// The transition rule of the filter: given the current filter state, the
/// epsilon summary of the two current states, and the labels of a candidate
/// transition pair, the next filter state (dead where the pair is pruned).
pub open spec fn filter_tr_sp(
    fs: StateId,
    noeps1: bool,
    noeps2: bool,
    alleps1: bool,
    alleps2: bool,
    olabel1: Label,
    ilabel2: Label,
) -> StateId {
    if ilabel2 == NO_LABEL {
        if fs == 0 {
            if noeps2 {
                0
            } else if alleps2 {
                NO_STATE_ID
            } else {
                1
            }
        } else if fs == 1 {
            1
        } else {
            NO_STATE_ID
        }
    } else if olabel1 == NO_LABEL {
        if fs == 0 {
            if noeps1 {
                0
            } else if alleps1 {
                NO_STATE_ID
            } else {
                2
            }
        } else if fs == 2 {
            2
        } else {
            NO_STATE_ID
        }
    } else if olabel1 == EPS_LABEL {
        if fs == 0 {
            0
        } else {
            NO_STATE_ID
        }
    } else {
        0
    }
}

/// The composition filter that admits each interleaving of epsilon moves of
/// the two transducers exactly once.
pub struct MatchComposeFilter<W> {
    /// The matcher of the first transducer (on its output side).
    pub matcher1: Arc<SortedMatcher<W>>,
    /// The matcher of the second transducer (on its input side).
    pub matcher2: Arc<SortedMatcher<W>>,
    /// Current state of the first transducer.
    pub s1: StateId,
    /// Current state of the second transducer.
    pub s2: StateId,
    /// Current filter state.
    pub fs: IntegerFilterState,
    /// Only output-epsilon transitions (and no finality) leave `s1`.
    pub alleps1: bool,
    /// Only input-epsilon transitions (and no finality) leave `s2`.
    pub alleps2: bool,
    /// No output-epsilon transition leaves `s1`.
    pub noeps1: bool,
    /// No input-epsilon transition leaves `s2`.
    pub noeps2: bool,
}

/// Builds filter instances sharing a pair of matchers.
pub struct MatchComposeFilterBuilder<W> {
    /// The matcher of the first transducer.
    pub matcher1: Arc<SortedMatcher<W>>,
    /// The matcher of the second transducer.
    pub matcher2: Arc<SortedMatcher<W>>,
}

impl<W: Semiring> MatchComposeFilterBuilder<W> {
    /// A builder over the two transducers, with the given matchers or the
    /// default sorted matchers (first on output, second on input).
    pub fn new(
        fst1: Arc<VectorFst<W>>,
        fst2: Arc<VectorFst<W>>,
        matcher1: Option<SortedMatcher<W>>,
        matcher2: Option<SortedMatcher<W>>,
    ) -> (r: Result<Self, FstError>)
        ensures
            r is Ok,
            matcher1 is None ==> r->Ok_0.matcher1.fst == fst1 && r->Ok_0.matcher1.match_type
                == MatchType::MatchOutput,
            matcher2 is None ==> r->Ok_0.matcher2.fst == fst2 && r->Ok_0.matcher2.match_type
                == MatchType::MatchInput,
            matcher1 is Some ==> *r->Ok_0.matcher1 == matcher1->0,
            matcher2 is Some ==> *r->Ok_0.matcher2 == matcher2->0,
    {
        let m1 = match matcher1 {
            Some(m) => m,
            None => SortedMatcher::new(fst1, MatchType::MatchOutput),
        };
        let m2 = match matcher2 {
            Some(m) => m,
            None => SortedMatcher::new(fst2, MatchType::MatchInput),
        };
        Ok(MatchComposeFilterBuilder { matcher1: Arc::new(m1), matcher2: Arc::new(m2) })
    }

    /// A fresh filter over the shared matchers, in the not-yet-positioned
    /// state.
    pub fn build(&self) -> (r: Result<MatchComposeFilter<W>, FstError>)
        ensures
            r is Ok,
            r->Ok_0.matcher1 == self.matcher1,
            r->Ok_0.matcher2 == self.matcher2,
            r->Ok_0.s1 == NO_STATE_ID,
            r->Ok_0.s2 == NO_STATE_ID,
            r->Ok_0.fs.state == NO_STATE_ID,
            !r->Ok_0.alleps1 && !r->Ok_0.alleps2 && !r->Ok_0.noeps1 && !r->Ok_0.noeps2,
    {
        Ok(
            MatchComposeFilter {
                matcher1: Arc::clone(&self.matcher1),
                matcher2: Arc::clone(&self.matcher2),
                s1: NO_STATE_ID,
                s2: NO_STATE_ID,
                fs: IntegerFilterState::new_no_state(),
                alleps1: false,
                alleps2: false,
                noeps1: false,
                noeps2: false,
            },
        )
    }
}

impl<W: Semiring> MatchComposeFilter<W> {
    /// The initial filter state.
    pub fn start(&self) -> (r: IntegerFilterState)
        ensures
            r.state == 0,
    {
        IntegerFilterState::new(0)
    }

    /// Positions the filter on a pair of states and recomputes the epsilon
    /// summary of both: whether each state has no epsilon (on the relevant
    /// side), or only epsilons and no final weight.
    pub fn set_state(&mut self, s1: StateId, s2: StateId, filter_state: &IntegerFilterState) -> (r:
        Result<(), FstError>)
        requires
            (*old(self).matcher1.fst).wf(),
            (*old(self).matcher2.fst).wf(),
        ensures
            r is Ok <==> (s1 < (*old(self).matcher1.fst).num_states_sp() && s2 < (*old(
                self,
            ).matcher2.fst).num_states_sp()),
            r is Err ==> *final(self) == *old(self),
            r is Ok ==> {
                let f1 = *old(self).matcher1.fst;
                let f2 = *old(self).matcher2.fst;
                let na1 = f1.trs_sp(s1 as int).len();
                let na2 = f2.trs_sp(s2 as int).len();
                let ne1 = count_side_eps_sp(f1.trs_sp(s1 as int), false);
                let ne2 = count_side_eps_sp(f2.trs_sp(s2 as int), true);
                &&& final(self).matcher1 == old(self).matcher1
                &&& final(self).matcher2 == old(self).matcher2
                &&& final(self).s1 == s1
                &&& final(self).s2 == s2
                &&& final(self).fs == *filter_state
                &&& final(self).alleps1 == (na1 == ne1 && f1.final_sp(s1 as int) is None)
                &&& final(self).alleps2 == (na2 == ne2 && f2.final_sp(s2 as int) is None)
                &&& final(self).noeps1 == (ne1 == 0)
                &&& final(self).noeps2 == (ne2 == 0)
            },
    {
        let n1 = self.matcher1.fst.num_states();
        let n2 = self.matcher2.fst.num_states();
        if s1 >= n1 {
            return Err(FstError::StateOutOfRange(s1));
        }
        if s2 >= n2 {
            return Err(FstError::StateOutOfRange(s2));
        }
        let na1 = self.matcher1.fst.states[s1].trs.len();
        let na2 = self.matcher2.fst.states[s2].trs.len();
        let ne1 = count_side_eps(&self.matcher1.fst.states[s1].trs, false);
        let ne2 = count_side_eps(&self.matcher2.fst.states[s2].trs, true);
        let f1 = self.matcher1.fst.is_final(s1);
        let f2 = self.matcher2.fst.is_final(s2);
        self.s1 = s1;
        self.s2 = s2;
        self.fs = IntegerFilterState::new(filter_state.state);
        self.alleps1 = na1 == ne1 && !f1;
        self.alleps2 = na2 == ne2 && !f2;
        self.noeps1 = ne1 == 0;
        self.noeps2 = ne2 == 0;
        Ok(())
    }

    /// Applies the filter's transition rule to a candidate transition pair;
    /// the dead state prunes the edge. The pair is read, never changed.
    pub fn filter_tr(&mut self, arc1: &mut Tr<W>, arc2: &mut Tr<W>) -> (r: Result<
        IntegerFilterState,
        FstError,
    >)
        ensures
            r is Ok,
            *final(arc1) == *old(arc1),
            *final(arc2) == *old(arc2),
            *final(self) == *old(self),
            r->Ok_0.state == filter_tr_sp(
                old(self).fs.state,
                old(self).noeps1,
                old(self).noeps2,
                old(self).alleps1,
                old(self).alleps2,
                old(arc1).olabel,
                old(arc2).ilabel,
            ),
    {
        let res = if arc2.ilabel == NO_LABEL {
            if self.fs.state == 0 {
                if self.noeps2 {
                    IntegerFilterState::new(0)
                } else if self.alleps2 {
                    IntegerFilterState::new_no_state()
                } else {
                    IntegerFilterState::new(1)
                }
            } else {
                if self.fs.state == 1 {
                    IntegerFilterState::new(1)
                } else {
                    IntegerFilterState::new_no_state()
                }
            }
        } else if arc1.olabel == NO_LABEL {
            if self.fs.state == 0 {
                if self.noeps1 {
                    IntegerFilterState::new(0)
                } else if self.alleps1 {
                    IntegerFilterState::new_no_state()
                } else {
                    IntegerFilterState::new(2)
                }
            } else {
                if self.fs.state == 2 {
                    IntegerFilterState::new(2)
                } else {
                    IntegerFilterState::new_no_state()
                }
            }
        } else if arc1.olabel == EPS_LABEL {
            if self.fs.state == 0 {
                IntegerFilterState::new(0)
            } else {
                IntegerFilterState::new_no_state()
            }
        } else {
            IntegerFilterState::new(0)
        };
        Ok(res)
    }

    /// The trivial final-weight adjustment: both weights stay as they are.
    pub fn filter_final(&self, w1: &mut W, w2: &mut W) -> (r: Result<(), FstError>)
        ensures
            r is Ok,
            *final(w1) == *old(w1),
            *final(w2) == *old(w2),
    {
        Ok(())
    }

    /// The first matcher.
    pub fn matcher1(&self) -> (r: &SortedMatcher<W>)
        ensures
            r == &*self.matcher1,
    {
        &self.matcher1
    }

    /// The second matcher.
    pub fn matcher2(&self) -> (r: &SortedMatcher<W>)
        ensures
            r == &*self.matcher2,
    {
        &self.matcher2
    }

    /// The first matcher, as a shared handle.
    pub fn matcher1_shared(&self) -> (r: &Arc<SortedMatcher<W>>)
        ensures
            r == &self.matcher1,
    {
        &self.matcher1
    }

    /// The second matcher, as a shared handle.
    pub fn matcher2_shared(&self) -> (r: &Arc<SortedMatcher<W>>)
        ensures
            r == &self.matcher2,
    {
        &self.matcher2
    }
}

} // verus!
