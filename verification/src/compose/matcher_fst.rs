//! A transducer packaged with its precomputed label-reachability data for
//! lookahead composition, relabeled into the dense index space.

use vstd::prelude::*;
use std::sync::Arc;
use crate::compose::label_reachable::{
    final_reachable_sp, label_reachable_sp, relabel_trs_sp, relabel_tr_sp, some_tr_has_label,
    has_side_label, LabelReachable, LabelReachableData,
};
use crate::compose::matchers::MatchType;
use crate::algorithms::tr_sort::{side_label_sp, sorted_by_side};
use crate::semirings::Semiring;
use crate::vector_fst::VectorFst;
use crate::{FstError, Label, EPS_LABEL, NO_LABEL};

verus! {

/// A transducer together with the reachability data of each side. The
/// transducer is stored relabeled into the input-side data's dense index
/// space, so the data and the labels agree.
pub struct MatcherFst<W> {
    /// The relabeled transducer.
    pub fst: VectorFst<W>,
    /// The input-side and output-side reachability data.
    pub addon: (Option<Arc<LabelReachableData>>, Option<Arc<LabelReachableData>>),
}

impl<W: Semiring> MatcherFst<W> {
    /// The wrapped transducer.
    pub fn fst(&self) -> (r: &VectorFst<W>)
        ensures
            r == &self.fst,
    {
        &self.fst
    }

    /// Both reachability data.
    pub fn addon(&self) -> (r: &(Option<Arc<LabelReachableData>>, Option<Arc<LabelReachableData>>))
        ensures
            r == &self.addon,
    {
        &self.addon
    }

    /// The reachability data of the requested match side.
    pub fn data(&self, match_type: MatchType) -> (r: Option<&Arc<LabelReachableData>>)
        ensures
            match_type == MatchType::MatchInput ==> (r is Some <==> self.addon.0 is Some) && (r
                is Some ==> *r->0 == self.addon.0->0),
            match_type == MatchType::MatchOutput ==> (r is Some <==> self.addon.1 is Some) && (r
                is Some ==> *r->0 == self.addon.1->0),
    {
        match match_type {
            MatchType::MatchInput => self.addon.0.as_ref(),
            MatchType::MatchOutput => self.addon.1.as_ref(),
        }
    }

    /// Packages a transducer for lookahead composition: computes the
    /// reachability data of both sides against the given transducer, and
    /// relabels the transducer's input side into the input data's dense
    /// index space (sorting it on that side), so that the stored data and
    /// the stored labels agree.
    pub fn new(fst: VectorFst<W>) -> (r: Result<Self, FstError>)
        requires
            fst.wf(),
            2 * fst.total_trs_sp() + 2 <= usize::MAX,
            forall|s: int, i: int|
                0 <= s < fst.num_states_sp() && 0 <= i < fst.trs_sp(s).len() ==> (
                #[trigger] fst.trs_sp(s)[i]).ilabel != NO_LABEL && fst.trs_sp(s)[i].olabel
                    != NO_LABEL,
        ensures
            r is Ok,
            r->Ok_0.addon.0 is Some,
            r->Ok_0.addon.1 is Some,
            ({
                let d = r->Ok_0.addon.0->0;
                &&& d.wf()
                &&& d.reach_input == true
                &&& d.interval_sets@.len() == fst.num_states_sp()
                &&& (forall|l: Label|
                    l != NO_LABEL ==> (#[trigger] d.label2index@.contains_key(l) <==> (l
                        != EPS_LABEL && some_tr_has_label(fst, true, l))))
                &&& (forall|s: int, l: Label|
                    #![trigger d.interval_sets@[s].member_sp(d.label2index@[l] as int)]
                    0 <= s < fst.num_states_sp() && d.label2index@.contains_key(l) && l
                        != NO_LABEL ==> (d.interval_sets@[s].member_sp(d.label2index@[l] as int)
                        <==> label_reachable_sp(fst, true, s, l)))
                &&& (forall|s: int|
                    0 <= s < fst.num_states_sp() ==> ((#[trigger] d.interval_sets@[s]).member_sp(
                        d.final_label as int,
                    ) <==> final_reachable_sp(fst, true, s)))
            }),
            ({
                let d = r->Ok_0.addon.1->0;
                &&& d.wf()
                &&& d.reach_input == false
                &&& d.interval_sets@.len() == fst.num_states_sp()
                &&& (forall|l: Label|
                    l != NO_LABEL ==> (#[trigger] d.label2index@.contains_key(l) <==> (l
                        != EPS_LABEL && some_tr_has_label(fst, false, l))))
                &&& (forall|s: int, l: Label|
                    #![trigger d.interval_sets@[s].member_sp(d.label2index@[l] as int)]
                    0 <= s < fst.num_states_sp() && d.label2index@.contains_key(l) && l
                        != NO_LABEL ==> (d.interval_sets@[s].member_sp(d.label2index@[l] as int)
                        <==> label_reachable_sp(fst, false, s, l)))
                &&& (forall|s: int|
                    0 <= s < fst.num_states_sp() ==> ((#[trigger] d.interval_sets@[s]).member_sp(
                        d.final_label as int,
                    ) <==> final_reachable_sp(fst, false, s)))
            }),
            ({
                let m = r->Ok_0;
                &&& m.fst.wf()
                &&& m.fst.num_states_sp() == fst.num_states_sp()
                &&& m.fst.start_state == fst.start_state
                &&& (forall|s: int|
                    0 <= s < fst.num_states_sp() ==> m.fst.final_sp(s) == fst.final_sp(s))
                &&& (forall|s: int|
                    0 <= s < fst.num_states_sp() ==> sorted_by_side(
                        #[trigger] m.fst.trs_sp(s),
                        true,
                    ))
                &&& (forall|s: int|
                    0 <= s < fst.num_states_sp() ==> (#[trigger] m.fst.trs_sp(s)).to_multiset()
                        == relabel_trs_sp(
                        fst.trs_sp(s),
                        m.addon.0->0.label2index@,
                        true,
                    ).to_multiset())
            }),
    {
        proof {
            crate::vector_fst::lemma_total_trs_nonneg(fst, fst.num_states_sp());
        }
        let imatcher_data = match LabelReachable::compute_data(&fst, true) {
            Ok(d) => d,
            Err(e) => {
                return Err(e);
            },
        };
        let omatcher_data = match LabelReachable::compute_data(&fst, false) {
            Ok(d) => d,
            Err(e) => {
                return Err(e);
            },
        };
        let ghost orig = fst;
        let mut fst = fst;
        let mut idata = imatcher_data;
        let ghost idata0 = idata;
        proof {
            assert(idata.label2index@.len() + fst.total_trs_sp() <= usize::MAX);
            assert forall|s: int, j: int|
                0 <= s < orig.num_states_sp() && 0 <= j < orig.trs_sp(s).len() implies
                side_label_sp(#[trigger] orig.trs_sp(s)[j], true) == EPS_LABEL
                    || idata.label2index@.contains_key(
                    side_label_sp(orig.trs_sp(s)[j], true),
                ) by {
                let l = side_label_sp(orig.trs_sp(s)[j], true);
                if l != EPS_LABEL {
                    assert(some_tr_has_label(orig, true, l)) by {
                        reveal(some_tr_has_label);
                        reveal(has_side_label);
                        assert(has_side_label(orig, s, l, true));
                    }
                    assert(l != NO_LABEL);
                }
            }
        }
        match idata.relabel_fst(&mut fst, true) {
            Ok(()) => {},
            Err(e) => {
                return Err(e);
            },
        }
        proof {
            assert(idata.label2index@ == idata0.label2index@);
        }
        Ok(
            MatcherFst {
                fst,
                addon: (Some(Arc::new(idata)), Some(Arc::new(omatcher_data))),
            },
        )
    }

    /// Like `new`, and additionally relabels a second transducer's chosen
    /// side into the same dense index space, so the two can be composed over
    /// the shared labels. Labels of the second transducer unseen in the
    /// first receive fresh indices; the indices of the first transducer's
    /// labels never change.
    pub fn new_with_relabeling(fst: VectorFst<W>, fst2: &mut VectorFst<W>, relabel_input: bool) -> (
        r: Result<Self, FstError>)
        requires
            fst.wf(),
            old(fst2).wf(),
            old(fst2).total_trs_sp() + 2 * fst.total_trs_sp() + 2 <= usize::MAX,
            forall|s: int, i: int|
                0 <= s < fst.num_states_sp() && 0 <= i < fst.trs_sp(s).len() ==> (
                #[trigger] fst.trs_sp(s)[i]).ilabel != NO_LABEL && fst.trs_sp(s)[i].olabel
                    != NO_LABEL,
        ensures
            r is Ok,
            final(fst2).wf(),
            r->Ok_0.addon.0 is Some,
            r->Ok_0.addon.1 is Some,
            ({
                let d = r->Ok_0.addon.0->0;
                &&& d.wf()
                &&& d.reach_input == true
                &&& d.interval_sets@.len() == fst.num_states_sp()
                &&& (forall|l: Label|
                    l != EPS_LABEL && l != NO_LABEL && some_tr_has_label(fst, true, l)
                        ==> #[trigger] d.label2index@.contains_key(l))
                &&& (forall|s: int, l: Label|
                    #![trigger d.interval_sets@[s].member_sp(d.label2index@[l] as int)]
                    0 <= s < fst.num_states_sp() && l != EPS_LABEL && l != NO_LABEL
                        && some_tr_has_label(fst, true, l) ==> (d.interval_sets@[s].member_sp(
                        d.label2index@[l] as int,
                    ) <==> label_reachable_sp(fst, true, s, l)))
                &&& (forall|s: int|
                    0 <= s < fst.num_states_sp() ==> ((#[trigger] d.interval_sets@[s]).member_sp(
                        d.final_label as int,
                    ) <==> final_reachable_sp(fst, true, s)))
            }),
            ({
                let d = r->Ok_0.addon.1->0;
                &&& d.wf()
                &&& d.reach_input == false
                &&& d.interval_sets@.len() == fst.num_states_sp()
                &&& (forall|l: Label|
                    l != NO_LABEL ==> (#[trigger] d.label2index@.contains_key(l) <==> (l
                        != EPS_LABEL && some_tr_has_label(fst, false, l))))
                &&& (forall|s: int, l: Label|
                    #![trigger d.interval_sets@[s].member_sp(d.label2index@[l] as int)]
                    0 <= s < fst.num_states_sp() && d.label2index@.contains_key(l) && l
                        != NO_LABEL ==> (d.interval_sets@[s].member_sp(d.label2index@[l] as int)
                        <==> label_reachable_sp(fst, false, s, l)))
                &&& (forall|s: int|
                    0 <= s < fst.num_states_sp() ==> ((#[trigger] d.interval_sets@[s]).member_sp(
                        d.final_label as int,
                    ) <==> final_reachable_sp(fst, false, s)))
            }),
            ({
                let m = r->Ok_0;
                &&& m.fst.wf()
                &&& m.fst.num_states_sp() == fst.num_states_sp()
                &&& m.fst.start_state == fst.start_state
                &&& (forall|s: int|
                    0 <= s < fst.num_states_sp() ==> m.fst.final_sp(s) == fst.final_sp(s))
                &&& (forall|s: int|
                    0 <= s < fst.num_states_sp() ==> sorted_by_side(
                        #[trigger] m.fst.trs_sp(s),
                        true,
                    ))
                &&& (forall|s: int|
                    0 <= s < fst.num_states_sp() ==> (#[trigger] m.fst.trs_sp(s)).to_multiset()
                        == relabel_trs_sp(
                        fst.trs_sp(s),
                        m.addon.0->0.label2index@,
                        true,
                    ).to_multiset())
            }),
            ({
                let dmap = r->Ok_0.addon.0->0.label2index@;
                &&& final(fst2).num_states_sp() == old(fst2).num_states_sp()
                &&& final(fst2).start_state == old(fst2).start_state
                &&& (forall|s: int|
                    0 <= s < old(fst2).num_states_sp() ==> final(fst2).final_sp(s) == old(
                        fst2,
                    ).final_sp(s))
                &&& (forall|s: int|
                    0 <= s < old(fst2).num_states_sp() ==> sorted_by_side(
                        #[trigger] final(fst2).trs_sp(s),
                        relabel_input,
                    ))
                &&& (forall|s: int|
                    0 <= s < old(fst2).num_states_sp() ==> (#[trigger] final(fst2).trs_sp(
                        s,
                    )).to_multiset() == relabel_trs_sp(
                        old(fst2).trs_sp(s),
                        dmap,
                        relabel_input,
                    ).to_multiset())
            }),
    {
        proof {
            crate::vector_fst::lemma_total_trs_nonneg(fst, fst.num_states_sp());
            crate::vector_fst::lemma_total_trs_nonneg(*old(fst2), old(fst2).num_states_sp());
        }
        let imatcher_data = match LabelReachable::compute_data(&fst, true) {
            Ok(d) => d,
            Err(e) => {
                return Err(e);
            },
        };
        let omatcher_data = match LabelReachable::compute_data(&fst, false) {
            Ok(d) => d,
            Err(e) => {
                return Err(e);
            },
        };
        let ghost orig = fst;
        let mut fst = fst;
        let mut idata = imatcher_data;
        let ghost idata0 = idata;
        proof {
            assert(idata.label2index@.len() + fst.total_trs_sp() <= usize::MAX);
            assert forall|s: int, j: int|
                0 <= s < orig.num_states_sp() && 0 <= j < orig.trs_sp(s).len() implies
                side_label_sp(#[trigger] orig.trs_sp(s)[j], true) == EPS_LABEL
                    || idata.label2index@.contains_key(
                    side_label_sp(orig.trs_sp(s)[j], true),
                ) by {
                let l = side_label_sp(orig.trs_sp(s)[j], true);
                if l != EPS_LABEL {
                    assert(some_tr_has_label(orig, true, l)) by {
                        reveal(some_tr_has_label);
                        reveal(has_side_label);
                        assert(has_side_label(orig, s, l, true));
                    }
                    assert(l != NO_LABEL);
                }
            }
        }
        match idata.relabel_fst(&mut fst, true) {
            Ok(()) => {},
            Err(e) => {
                return Err(e);
            },
        }
        proof {
            assert(idata.label2index@ == idata0.label2index@);
            crate::vector_fst::lemma_total_trs_nonneg(*old(fst2), old(fst2).num_states_sp());
            assert(idata.label2index@.len() + old(fst2).total_trs_sp() <= usize::MAX);
        }
        let ghost idata1 = idata;
        match idata.relabel_fst(fst2, relabel_input) {
            Ok(()) => {},
            Err(e) => {
                return Err(e);
            },
        }
        proof {
            // The second relabeling may extend the map, but every key of the
            // first transducer's map keeps its index, so the relabeled first
            // transducer is equally described by the extended map.
            let m0 = idata1.label2index@;
            let m1 = idata.label2index@;
            assert forall|s: int|
                0 <= s < orig.num_states_sp() implies relabel_trs_sp(orig.trs_sp(s), m0, true)
                =~= relabel_trs_sp(orig.trs_sp(s), m1, true) by {
                assert forall|j: int|
                    0 <= j < orig.trs_sp(s).len() implies #[trigger] relabel_trs_sp(
                    orig.trs_sp(s),
                    m0,
                    true,
                )[j] == relabel_trs_sp(orig.trs_sp(s), m1, true)[j] by {
                    let t = orig.trs_sp(s)[j];
                    assert(relabel_trs_sp(orig.trs_sp(s), m0, true)[j] == relabel_tr_sp(
                        t,
                        m0,
                        true,
                    ));
                    assert(relabel_trs_sp(orig.trs_sp(s), m1, true)[j] == relabel_tr_sp(
                        t,
                        m1,
                        true,
                    ));
                    if t.ilabel != EPS_LABEL {
                        assert(m0.contains_key(t.ilabel)) by {
                            assert(side_label_sp(t, true) == t.ilabel);
                        }
                        assert(m1[t.ilabel] == m0[t.ilabel]);
                    }
                }
            }
            assert forall|s: int|
                0 <= s < orig.num_states_sp() implies (#[trigger] fst.trs_sp(s)).to_multiset()
                == relabel_trs_sp(orig.trs_sp(s), m1, true).to_multiset() by {
                assert(fst.trs_sp(s).to_multiset() == relabel_trs_sp(
                    orig.trs_sp(s),
                    m0,
                    true,
                ).to_multiset());
                assert(relabel_trs_sp(orig.trs_sp(s), m0, true) == relabel_trs_sp(
                    orig.trs_sp(s),
                    m1,
                    true,
                ));
            }
            assert(idata.interval_sets@ == idata0.interval_sets@);
            assert(idata.final_label == idata0.final_label);
            assert(idata.reach_input == idata0.reach_input);
        }
        let result = MatcherFst {
            fst,
            addon: (Some(Arc::new(idata)), Some(Arc::new(omatcher_data))),
        };
        proof {
            let d = result.addon.0->0;
            assert(d == idata);
            assert forall|l: Label|
                l != EPS_LABEL && l != NO_LABEL && some_tr_has_label(orig, true, l) implies
                #[trigger] d.label2index@.contains_key(l) by {
                assert(idata0.label2index@.contains_key(l));
                assert(idata.label2index@.contains_key(l));
            }
            assert forall|s: int, l: Label|
                #![trigger d.interval_sets@[s].member_sp(d.label2index@[l] as int)]
                0 <= s < orig.num_states_sp() && l != EPS_LABEL && l != NO_LABEL
                    && some_tr_has_label(orig, true, l) implies (d.interval_sets@[s].member_sp(
                d.label2index@[l] as int,
            ) <==> label_reachable_sp(orig, true, s, l)) by {
                assert(idata0.label2index@.contains_key(l));
                assert(idata.label2index@.contains_key(l) && idata.label2index@[l]
                    == idata0.label2index@[l]);
                assert(idata0.interval_sets@[s].member_sp(idata0.label2index@[l] as int)
                    <==> label_reachable_sp(orig, true, s, l));
            }
            assert forall|s: int|
                0 <= s < orig.num_states_sp() implies ((#[trigger] d.interval_sets@[s]).member_sp(
                d.final_label as int,
            ) <==> final_reachable_sp(orig, true, s)) by {
                assert(idata0.interval_sets@[s].member_sp(idata0.final_label as int)
                    <==> final_reachable_sp(orig, true, s));
            }
        }
        Ok(result)
    }
}

} // verus!
