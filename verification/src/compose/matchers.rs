//! Matchers: lookup of the transitions of a state that carry a given label on
//! a chosen side, by binary search over label-sorted transitions.

use vstd::prelude::*;
use std::sync::Arc;
use crate::algorithms::tr_sort::{side_label_sp, sorted_by_side};
use crate::semirings::Semiring;
use crate::vector_fst::VectorFst;
use crate::{FstError, Label, StateId, NO_LABEL};

verus! {

/// Which side of a transition a matcher matches.
#[derive(Clone, Copy, Debug, PartialEq, Eq, Structural)]
pub enum MatchType {
    /// Match the input labels.
    MatchInput,
    /// Match the output labels.
    MatchOutput,
}

/// A matcher over a label-sorted transducer: finds, for `(state, label)`, the
/// range of transitions of `state` carrying `label` on the matched side.
pub struct SortedMatcher<W> {
    /// The shared transducer.
    pub fst: Arc<VectorFst<W>>,
    /// The matched side.
    pub match_type: MatchType,
}

impl<W: Semiring> SortedMatcher<W> {
    /// Whether the input side is matched.
    pub open spec fn input_side(self) -> bool {
        self.match_type == MatchType::MatchInput
    }

    /// A matcher over the given transducer and side.
    pub fn new(fst: Arc<VectorFst<W>>, match_type: MatchType) -> (r: Self)
        ensures
            r.fst == fst,
            r.match_type == match_type,
    {
        SortedMatcher { fst, match_type }
    }

    /// The matched transducer.
    pub fn fst(&self) -> (r: &Arc<VectorFst<W>>)
        ensures
            r == &self.fst,
    {
        &self.fst
    }

    /// The positions of the transitions of `state` matching `label` on the
    /// matched side: a half-open range of the state's sorted transitions.
    /// The sentinel `NO_LABEL` matches every transition; the epsilon label
    /// matches exactly the strict-epsilon transitions.
    pub fn match_range(&self, state: StateId, label: Label) -> (r: Result<
        (usize, usize),
        FstError,
    >)
        requires
            (*self.fst).wf(),
            state < (*self.fst).num_states_sp() ==> sorted_by_side(
                (*self.fst).trs_sp(state as int),
                self.input_side(),
            ),
        ensures
            r is Ok <==> state < (*self.fst).num_states_sp(),
            r is Err ==> r == Err::<(usize, usize), FstError>(FstError::StateOutOfRange(state)),
            r is Ok ==> {
                let (b, e) = r->Ok_0;
                let trs = (*self.fst).trs_sp(state as int);
                &&& b <= e <= trs.len()
                &&& (label == NO_LABEL ==> b == 0 && e == trs.len())
                &&& (label != NO_LABEL ==> (forall|i: int|
                    b <= i < e ==> side_label_sp(#[trigger] trs[i], self.input_side()) == label))
                &&& (label != NO_LABEL ==> (forall|i: int|
                    0 <= i < trs.len() && side_label_sp(#[trigger] trs[i], self.input_side())
                        == label ==> b <= i < e))
            },
    {
        let n = self.fst.num_states();
        if state >= n {
            return Err(FstError::StateOutOfRange(state));
        }
        let trs = &self.fst.states[state].trs;
        let len = trs.len();
        if label == NO_LABEL {
            return Ok((0, len));
        }
        let input = match self.match_type {
            MatchType::MatchInput => true,
            MatchType::MatchOutput => false,
        };
        let ghost tv = trs@;
        let mut lo: usize = 0;
        let mut hi: usize = len;
        while lo < hi
            invariant
                tv == (*self.fst).trs_sp(state as int),
                trs@ == tv,
                input == self.input_side(),
                sorted_by_side(tv, input),
                lo <= hi <= tv.len(),
                forall|i: int| 0 <= i < lo ==> side_label_sp(#[trigger] tv[i], input) < label,
                forall|i: int| hi <= i < tv.len() ==> side_label_sp(#[trigger] tv[i], input) >= label,
            decreases hi - lo,
        {
            let mid = lo + (hi - lo) / 2;
            let ml = if input {
                trs[mid].ilabel
            } else {
                trs[mid].olabel
            };
            if ml < label {
                proof {
                    assert forall|i: int|
                        0 <= i < mid + 1 implies side_label_sp(#[trigger] tv[i], input) < label by {
                        if i < mid {
                            assert(side_label_sp(tv[i], input) <= side_label_sp(
                                tv[mid as int],
                                input,
                            ));
                        }
                    }
                }
                lo = mid + 1;
            } else {
                proof {
                    assert forall|i: int|
                        mid <= i < tv.len() implies side_label_sp(#[trigger] tv[i], input)
                        >= label by {
                        if i > mid {
                            assert(side_label_sp(tv[mid as int], input) <= side_label_sp(
                                tv[i],
                                input,
                            ));
                        }
                    }
                }
                hi = mid;
            }
        }
        let begin = lo;
        let mut lo2: usize = begin;
        let mut hi2: usize = len;
        while lo2 < hi2
            invariant
                tv == (*self.fst).trs_sp(state as int),
                trs@ == tv,
                input == self.input_side(),
                sorted_by_side(tv, input),
                begin <= lo2 <= hi2 <= tv.len(),
                forall|i: int| begin <= i < lo2 ==> side_label_sp(#[trigger] tv[i], input) <= label,
                forall|i: int|
                    hi2 <= i < tv.len() ==> side_label_sp(#[trigger] tv[i], input) > label,
            decreases hi2 - lo2,
        {
            let mid = lo2 + (hi2 - lo2) / 2;
            let ml = if input {
                trs[mid].ilabel
            } else {
                trs[mid].olabel
            };
            if ml <= label {
                proof {
                    assert forall|i: int|
                        begin <= i < mid + 1 implies side_label_sp(#[trigger] tv[i], input)
                        <= label by {
                        if i < mid {
                            assert(side_label_sp(tv[i], input) <= side_label_sp(
                                tv[mid as int],
                                input,
                            ));
                        }
                    }
                }
                lo2 = mid + 1;
            } else {
                proof {
                    assert forall|i: int|
                        mid <= i < tv.len() implies side_label_sp(#[trigger] tv[i], input)
                        > label by {
                        if i > mid {
                            assert(side_label_sp(tv[mid as int], input) <= side_label_sp(
                                tv[i],
                                input,
                            ));
                        }
                    }
                }
                hi2 = mid;
            }
        }
        let e = lo2;
        proof {
            assert forall|i: int|
                begin <= i < e implies side_label_sp(#[trigger] tv[i], input) == label by {}
            assert forall|i: int|
                0 <= i < tv.len() && side_label_sp(#[trigger] tv[i], input) == label implies begin
                <= i < e by {}
        }
        Ok((begin, e))
    }
}

} // verus!
