//! Label reachability: for every state, the set of dense label indices that
//! some path from it can reach as its first non-epsilon label on the chosen
//! side. Used by lookahead matching to prune composition.

use vstd::prelude::*;
use vstd::std_specs::hash::group_hash_axioms;
use std::collections::HashMap;
use crate::algorithms::tr_sort::{check_label_sorted, side_label_sp, sorted_by_side, tr_sort};
use crate::compose::interval_set::IntervalSet;
use crate::reachability::{
    adj_view, edge, eps_edge, eps_reaches, from_roots, lemma_rav_eps_reaches, mark_reachable,
    reaches, reverse_adjacency_eps,
};
use crate::semirings::Semiring;
use crate::vector_fst::VectorFst;
use crate::{FstError, Label, StateId, Tr, EPS_LABEL, NO_LABEL, UNASSIGNED};

verus! {

broadcast use group_hash_axioms;

/// Some transition leaving `s` carries label `l` on the chosen side.
#[verifier::opaque]
pub open spec fn has_side_label<W: Semiring>(
    fst: VectorFst<W>,
    s: int,
    l: Label,
    input: bool,
) -> bool {
    exists|i: int|
        0 <= i < fst.trs_sp(s).len() && side_label_sp(#[trigger] fst.trs_sp(s)[i], input) == l
}

/// Some state has an outgoing transition labelled `l` on the chosen side.
#[verifier::opaque]
pub open spec fn some_tr_has_label<W: Semiring>(fst: VectorFst<W>, input: bool, l: Label) -> bool {
    exists|s: int| 0 <= s < fst.num_states_sp() && has_side_label(fst, s, l, input)
}

/// Label `l` is reachable from `s`: some epsilon-side path from `s` ends in a
/// state with an outgoing transition labelled `l` on the chosen side.
pub open spec fn label_reachable_sp<W: Semiring>(
    fst: VectorFst<W>,
    input: bool,
    s: int,
    l: Label,
) -> bool {
    exists|b: int|
        0 <= b < fst.num_states_sp() && eps_reaches(fst, input, s, b) && has_side_label(
            fst,
            b,
            l,
            input,
        )
}

/// A final state with a non-zero final weight is reachable from `s` along
/// epsilon-side transitions.
pub open spec fn final_reachable_sp<W: Semiring>(fst: VectorFst<W>, input: bool, s: int) -> bool {
    exists|b: int|
        0 <= b < fst.num_states_sp() && eps_reaches(fst, input, s, b) && fst.final_sp(b) is Some
            && fst.final_sp(b)->0 != W::sp_zero()
}

/// The precomputed reachability data: the dense relabeling of the side labels
/// and, for each state, the interval set of reachable dense indices.
pub struct LabelReachableData {
    /// Whether the input side (rather than the output side) was analysed.
    pub reach_input: bool,
    /// The dense index standing for "a final state is reachable".
    pub final_label: Label,
    /// The relabeling: original label to dense index.
    pub label2index: HashMap<Label, Label>,
    /// The keys of `label2index` in insertion order.
    pub label_log: Vec<Label>,
    /// Per state, the interval set of reachable dense indices.
    pub interval_sets: Vec<IntervalSet>,
}

impl LabelReachableData {
    /// The relabeling map and its key log agree: the log lists exactly the
    /// keys, once each, and every interval set is well formed.
    pub open spec fn wf(self) -> bool {
        &&& (forall|k: int|
            0 <= k < self.label_log@.len() ==> self.label2index@.contains_key(
                #[trigger] self.label_log@[k],
            ))
        &&& (forall|l: Label|
            #[trigger] self.label2index@.contains_key(l) ==> self.label_log@.contains(l))
        &&& (forall|k1: int, k2: int|
            0 <= k1 < k2 < self.label_log@.len() ==> self.label_log@[k1] != self.label_log@[k2])
        &&& (forall|i: int|
            0 <= i < self.interval_sets@.len() ==> (#[trigger] self.interval_sets@[i]).wf())
        &&& (forall|i: int|
            0 <= i < self.interval_sets@.len() ==> !(#[trigger] self.interval_sets@[i]).member_sp(
                EPS_LABEL as int,
            ))
    }

    /// Fresh, empty reachability data for the chosen side.
    pub fn new(reach_input: bool) -> (r: Self)
        ensures
            r.wf(),
            r.reach_input == reach_input,
            r.final_label == NO_LABEL,
            r.label2index@ == Map::<Label, Label>::empty(),
            r.label_log@.len() == 0,
            r.interval_sets@.len() == 0,
    {
        LabelReachableData {
            reach_input,
            final_label: NO_LABEL,
            label2index: HashMap::new(),
            label_log: Vec::new(),
            interval_sets: Vec::new(),
        }
    }

    /// The interval set of a state; rejects an identifier out of range.
    pub fn interval_set(&self, s: StateId) -> (r: Result<&IntervalSet, FstError>)
        ensures
            r is Ok <==> s < self.interval_sets@.len(),
            r is Ok ==> *r->Ok_0 == self.interval_sets@[s as int],
            r is Err ==> r == Err::<&IntervalSet, FstError>(FstError::StateOutOfRange(s)),
    {
        if s < self.interval_sets.len() {
            Ok(&self.interval_sets[s])
        } else {
            Err(FstError::StateOutOfRange(s))
        }
    }

    /// The dense index standing for final-state reachability.
    pub fn final_label(&self) -> (r: Label)
        ensures
            r == self.final_label,
    {
        self.final_label
    }

    /// The relabeling map.
    pub fn label2index(&self) -> (r: &HashMap<Label, Label>)
        ensures
            r@ == self.label2index@,
    {
        &self.label2index
    }

    /// Whether the input side was analysed.
    pub fn reach_input(&self) -> (r: bool)
        ensures
            r == self.reach_input,
    {
        self.reach_input
    }

    /// The dense index of `label`, assigning the next free index to a label
    /// not seen before. Epsilon always stays epsilon.
    pub fn relabel(&mut self, label: Label) -> (r: Label)
        requires
            old(self).wf(),
            old(self).label2index@.len() < usize::MAX,
        ensures
            final(self).wf(),
            final(self).reach_input == old(self).reach_input,
            final(self).final_label == old(self).final_label,
            final(self).interval_sets@ == old(self).interval_sets@,
            label == EPS_LABEL ==> r == EPS_LABEL && *final(self) == *old(self),
            label != EPS_LABEL && old(self).label2index@.contains_key(label) ==> r == old(self).label2index@[label] && *final(self) == *old(self),
            label != EPS_LABEL && !old(self).label2index@.contains_key(label) ==> {
                &&& r == old(self).label2index@.len() + 1
                &&& final(self).label2index@ == old(self).label2index@.insert(label, r)
                &&& final(self).label_log@ == old(self).label_log@.push(label)
            },
            final(self).label2index@.contains_key(label) || label == EPS_LABEL,
    {
        if label == EPS_LABEL {
            return EPS_LABEL;
        }
        let n = self.label2index.len();
        match self.label2index.get(&label) {
            Some(v) => *v,
            None => {
                let idx = n + 1;
                self.label2index.insert(label, idx);
                let ghost log0 = self.label_log@;
                self.label_log.push(label);
                proof {
                    assert(self.label_log@.last() == label);
                    assert(self.label_log@.contains(label));
                    assert forall|l: Label|
                        #[trigger] self.label2index@.contains_key(l) implies self.label_log@
                        .contains(l) by {
                        if l != label {
                            assert(old(self).label2index@.contains_key(l));
                            assert(log0.contains(l));
                            let k = choose|k: int| 0 <= k < log0.len() && log0[k] == l;
                            assert(self.label_log@[k] == l);
                        }
                    }
                    assert forall|k1: int, k2: int|
                        0 <= k1 < k2 < self.label_log@.len() implies self.label_log@[k1]
                        != self.label_log@[k2] by {
                        if k2 == self.label_log@.len() - 1 {
                            assert(old(self).label2index@.contains_key(log0[k1]));
                        }
                    }
                }
                idx
            },
        }
    }

    /// The pairs of the sequence built from the key log: each key whose index
    /// is not the final index, paired with its index.
    pub open spec fn base_pairs(
        log: Seq<Label>,
        m: Map<Label, Label>,
        fl: Label,
    ) -> Seq<(Label, Label)>
        decreases log.len(),
    {
        if log.len() == 0 {
            Seq::empty()
        } else {
            let rest = Self::base_pairs(log.drop_last(), m, fl);
            if m[log.last()] != fl {
                rest.push((log.last(), m[log.last()]))
            } else {
                rest
            }
        }
    }

    /// The collision-avoidance pairs for the labels `1..=k`: each such label
    /// that is unseen or maps to the final index is sent to `fresh`.
    pub open spec fn extra_pairs(
        k: int,
        m: Map<Label, Label>,
        fl: Label,
        fresh: Label,
    ) -> Seq<(Label, Label)>
        decreases k,
    {
        if k <= 0 {
            Seq::empty()
        } else {
            let rest = Self::extra_pairs(k - 1, m, fl, fresh);
            if !m.contains_key(k as Label) || m[k as Label] == fl {
                rest.push((k as Label, fresh))
            } else {
                rest
            }
        }
    }

    /// The relabeling pairs: every key with its index, except the final
    /// index. With `avoid_collisions`, each label in `1..=len` that is unseen
    /// here or taken by the final index is additionally sent to `len + 1`, so
    /// that relabeling an automaton with labels unseen here cannot collide;
    /// the added pairs deliberately share the one target index.
    pub fn relabel_pairs(&self, avoid_collisions: bool) -> (r: Vec<(Label, Label)>)
        requires
            self.wf(),
            self.label2index@.len() < usize::MAX,
        ensures
            r@ == Self::base_pairs(self.label_log@, self.label2index@, self.final_label) + (
            if avoid_collisions {
                Self::extra_pairs(
                    self.label2index@.len() as int,
                    self.label2index@,
                    self.final_label,
                    (self.label2index@.len() + 1) as Label,
                )
            } else {
                Seq::<(Label, Label)>::empty()
            }),
    {
        let mut pairs: Vec<(Label, Label)> = Vec::new();
        let mut k: usize = 0;
        while k < self.label_log.len()
            invariant
                self.wf(),
                k <= self.label_log@.len(),
                pairs@ == Self::base_pairs(
                    self.label_log@.subrange(0, k as int),
                    self.label2index@,
                    self.final_label,
                ),
            decreases self.label_log@.len() - k,
        {
            let key = self.label_log[k];
            proof {
                assert(self.label2index@.contains_key(key));
                assert(self.label_log@.subrange(0, k + 1).drop_last() =~= self.label_log@.subrange(
                    0,
                    k as int,
                ));
                assert(self.label_log@.subrange(0, k + 1).last() == key);
            }
            match self.label2index.get(&key) {
                Some(v) => {
                    let val = *v;
                    if val != self.final_label {
                        pairs.push((key, val));
                    }
                },
                None => {
                    proof {
                        assert(false);
                    }
                },
            }
            k = k + 1;
        }
        proof {
            assert(self.label_log@.subrange(0, self.label_log@.len() as int) =~= self.label_log@);
        }
        if avoid_collisions {
            let n = self.label2index.len();
            let fresh = n + 1;
            let mut i: usize = 1;
            let ghost base = pairs@;
            while i <= n
                invariant
                    self.wf(),
                    n == self.label2index@.len(),
                    n < usize::MAX,
                    1 <= i <= n + 1,
                    fresh == n + 1,
                    pairs@ == base + Self::extra_pairs(
                        i - 1,
                        self.label2index@,
                        self.final_label,
                        fresh as Label,
                    ),
                decreases n + 1 - i,
            {
                let mut push_it = false;
                match self.label2index.get(&i) {
                    Some(v) => {
                        if *v == self.final_label {
                            push_it = true;
                        }
                    },
                    None => {
                        push_it = true;
                    },
                }
                if push_it {
                    pairs.push((i, fresh));
                }
                i = i + 1;
            }
            proof {
                assert(pairs@ == base + Self::extra_pairs(
                    n as int,
                    self.label2index@,
                    self.final_label,
                    fresh as Label,
                ));
            }
        }
        pairs
    }
}

/// Whether some transition leaving `state` carries `l` on the chosen side.
fn state_has_label<W: Semiring>(fst: &VectorFst<W>, state: StateId, l: Label, input: bool) -> (r:
    bool)
    requires
        fst.wf(),
        state < fst.num_states_sp(),
    ensures
        r <==> has_side_label(*fst, state as int, l, input),
{
    let trs = &fst.states[state].trs;
    let mut i: usize = 0;
    while i < trs.len()
        invariant
            trs@ == fst.trs_sp(state as int),
            i <= trs@.len(),
            forall|k: int| 0 <= k < i ==> side_label_sp(#[trigger] trs@[k], input) != l,
        decreases trs@.len() - i,
    {
        let li = if input {
            trs[i].ilabel
        } else {
            trs[i].olabel
        };
        if li == l {
            proof {
                reveal(has_side_label);
                assert(side_label_sp(fst.trs_sp(state as int)[i as int], input) == l);
            }
            return true;
        }
        i = i + 1;
    }
    proof {
        reveal(has_side_label);
    }
    false
}

/// The states with an outgoing transition labelled `l` on the chosen side.
fn collect_label_roots<W: Semiring>(fst: &VectorFst<W>, l: Label, input: bool) -> (roots: Vec<
    usize,
>)
    requires
        fst.wf(),
    ensures
        forall|k: int| 0 <= k < roots@.len() ==> (#[trigger] roots@[k]) < fst.num_states_sp(),
        forall|k: int|
            0 <= k < roots@.len() ==> has_side_label(*fst, #[trigger] roots@[k] as int, l, input),
        forall|s: int|
            0 <= s < fst.num_states_sp() && has_side_label(*fst, s, l, input) ==> roots@.contains(
                s as usize,
            ),
{
    let n = fst.num_states();
    let mut roots: Vec<usize> = Vec::new();
    let mut s: usize = 0;
    while s < n
        invariant
            fst.wf(),
            n == fst.num_states_sp(),
            s <= n,
            forall|k: int| 0 <= k < roots@.len() ==> (#[trigger] roots@[k]) < n,
            forall|k: int|
                0 <= k < roots@.len() ==> has_side_label(*fst, #[trigger] roots@[k] as int, l, input),
            forall|x: int|
                0 <= x < s && has_side_label(*fst, x, l, input) ==> roots@.contains(x as usize),
        decreases n - s,
    {
        let here = state_has_label(fst, s, l, input);
        if here {
            let ghost r0 = roots@;
            roots.push(s);
            proof {
                assert(roots@.last() == s);
                assert forall|x: int|
                    0 <= x < s + 1 && has_side_label(*fst, x, l, input) implies roots@.contains(
                    x as usize,
                ) by {
                    if x < s {
                        let k = choose|k: int| 0 <= k < r0.len() && r0[k] == x as usize;
                        assert(roots@[k] == x as usize);
                    } else {
                        assert(roots@[roots@.len() - 1] == x as usize);
                    }
                }
            }
        }
        s = s + 1;
    }
    roots
}

/// The states carrying a non-zero final weight.
fn collect_final_roots<W: Semiring>(fst: &VectorFst<W>) -> (roots: Vec<usize>)
    requires
        fst.wf(),
    ensures
        forall|k: int| 0 <= k < roots@.len() ==> (#[trigger] roots@[k]) < fst.num_states_sp(),
        forall|k: int|
            0 <= k < roots@.len() ==> fst.final_sp(#[trigger] roots@[k] as int) is Some
                && fst.final_sp(roots@[k] as int)->0 != W::sp_zero(),
        forall|s: int|
            0 <= s < fst.num_states_sp() && fst.final_sp(s) is Some && fst.final_sp(s)->0
                != W::sp_zero() ==> roots@.contains(s as usize),
{
    let n = fst.num_states();
    let mut roots: Vec<usize> = Vec::new();
    let mut s: usize = 0;
    while s < n
        invariant
            fst.wf(),
            n == fst.num_states_sp(),
            s <= n,
            forall|k: int| 0 <= k < roots@.len() ==> (#[trigger] roots@[k]) < n,
            forall|k: int|
                0 <= k < roots@.len() ==> fst.final_sp(#[trigger] roots@[k] as int) is Some
                    && fst.final_sp(roots@[k] as int)->0 != W::sp_zero(),
            forall|x: int|
                0 <= x < s && fst.final_sp(x) is Some && fst.final_sp(x)->0 != W::sp_zero()
                    ==> roots@.contains(x as usize),
        decreases n - s,
    {
        let mut nonzero_final = false;
        match &fst.states[s].final_weight {
            Option::Some(w) => {
                if !w.is_zero() {
                    nonzero_final = true;
                }
            },
            Option::None => {},
        }
        if nonzero_final {
            let ghost r0 = roots@;
            roots.push(s);
            proof {
                assert(roots@.last() == s);
                assert forall|x: int|
                    0 <= x < s + 1 && fst.final_sp(x) is Some && fst.final_sp(x)->0
                        != W::sp_zero() implies roots@.contains(x as usize) by {
                    if x < s {
                        let k = choose|k: int| 0 <= k < r0.len() && r0[k] == x as usize;
                        assert(roots@[k] == x as usize);
                    } else {
                        assert(roots@[roots@.len() - 1] == x as usize);
                    }
                }
            }
        }
        s = s + 1;
    }
    roots
}

/// The side labels of all transitions, in state-then-position order.
fn collect_all_labels<W: Semiring>(fst: &VectorFst<W>, input: bool) -> (labels: Vec<Label>)
    requires
        fst.wf(),
        fst.total_trs_sp() <= usize::MAX,
    ensures
        labels@.len() == fst.total_trs_sp(),
        forall|k: int|
            0 <= k < labels@.len() ==> some_tr_has_label(*fst, input, #[trigger] labels@[k]),
        forall|s: int, i: int|
            0 <= s < fst.num_states_sp() && 0 <= i < fst.trs_sp(s).len() ==> labels@.contains(
                side_label_sp(#[trigger] fst.trs_sp(s)[i], input),
            ),
{
    let n = fst.num_states();
    let mut labels: Vec<Label> = Vec::new();
    let mut s: usize = 0;
    while s < n
        invariant
            fst.wf(),
            fst.total_trs_sp() <= usize::MAX,
            n == fst.num_states_sp(),
            s <= n,
            labels@.len() == fst.total_trs_upto(s as int),
            forall|k: int|
                0 <= k < labels@.len() ==> some_tr_has_label(*fst, input, #[trigger] labels@[k]),
            forall|x: int, i: int|
                0 <= x < s && 0 <= i < fst.trs_sp(x).len() ==> labels@.contains(
                    side_label_sp(#[trigger] fst.trs_sp(x)[i], input),
                ),
        decreases n - s,
    {
        let deg = fst.states[s].trs.len();
        let mut j: usize = 0;
        proof {
            crate::vector_fst::lemma_total_trs_mono(*fst, s + 1, n as int);
            crate::vector_fst::lemma_total_trs_nonneg(*fst, s as int);
        }
        while j < deg
            invariant
                fst.wf(),
                fst.total_trs_sp() <= usize::MAX,
                n == fst.num_states_sp(),
                s < n,
                deg == fst.trs_sp(s as int).len(),
                j <= deg,
                fst.total_trs_upto(s + 1) <= fst.total_trs_sp(),
                fst.total_trs_upto(s as int) >= 0,
                labels@.len() == fst.total_trs_upto(s as int) + j,
                forall|k: int|
                    0 <= k < labels@.len() ==> some_tr_has_label(
                        *fst,
                        input,
                        #[trigger] labels@[k],
                    ),
                forall|x: int, i: int|
                    0 <= x < s && 0 <= i < fst.trs_sp(x).len() ==> labels@.contains(
                        side_label_sp(#[trigger] fst.trs_sp(x)[i], input),
                    ),
                forall|i: int|
                    0 <= i < j ==> labels@.contains(
                        side_label_sp(#[trigger] fst.trs_sp(s as int)[i], input),
                    ),
            decreases deg - j,
        {
            let l = if input {
                fst.states[s].trs[j].ilabel
            } else {
                fst.states[s].trs[j].olabel
            };
            let ghost l0 = labels@;
            labels.push(l);
            proof {
                assert(l == side_label_sp(fst.trs_sp(s as int)[j as int], input));
                assert(labels@.last() == l);
                assert(some_tr_has_label(*fst, input, l)) by {
                    reveal(some_tr_has_label);
                    reveal(has_side_label);
                    assert(has_side_label(*fst, s as int, l, input));
                }
                assert forall|x: int, i: int|
                    0 <= x < s && 0 <= i < fst.trs_sp(x).len() implies labels@.contains(
                    side_label_sp(#[trigger] fst.trs_sp(x)[i], input),
                ) by {
                    let ll = side_label_sp(fst.trs_sp(x)[i], input);
                    assert(l0.contains(ll));
                    let k = choose|k: int| 0 <= k < l0.len() && l0[k] == ll;
                    assert(labels@[k] == ll);
                }
                assert forall|i: int|
                    0 <= i < j + 1 implies labels@.contains(
                    side_label_sp(#[trigger] fst.trs_sp(s as int)[i], input),
                ) by {
                    let ll = side_label_sp(fst.trs_sp(s as int)[i], input);
                    if i < j {
                        assert(l0.contains(ll));
                        let k = choose|k: int| 0 <= k < l0.len() && l0[k] == ll;
                        assert(labels@[k] == ll);
                    } else {
                        assert(labels@[labels@.len() - 1] == ll);
                    }
                }
            }
            j = j + 1;
        }
        s = s + 1;
    }
    labels
}

/// Builds the dense relabeling from the collected side labels: each distinct
/// non-epsilon label receives the next free index, starting at 1.
fn build_label_index(labels: &Vec<Label>) -> (r: (HashMap<Label, Label>, Vec<Label>))
    requires
        labels@.len() < usize::MAX,
    ensures
        forall|l: Label|
            #[trigger] r.0@.contains_key(l) <==> (l != EPS_LABEL && labels@.contains(l)),
        forall|k: int|
            0 <= k < r.1@.len() ==> r.0@.contains_key(#[trigger] r.1@[k]) && r.0@[r.1@[k]] == k
                + 1,
        forall|l: Label| #[trigger] r.0@.contains_key(l) ==> r.1@.contains(l),
        forall|k1: int, k2: int| 0 <= k1 < k2 < r.1@.len() ==> r.1@[k1] != r.1@[k2],
        r.1@.len() <= labels@.len(),
        r.0@.len() == r.1@.len(),
{
    let mut m: HashMap<Label, Label> = HashMap::new();
    let mut log: Vec<Label> = Vec::new();
    let mut i: usize = 0;
    while i < labels.len()
        invariant
            labels@.len() < usize::MAX,
            i <= labels@.len(),
            forall|l: Label|
                #[trigger] m@.contains_key(l) <==> (l != EPS_LABEL && labels@.subrange(
                    0,
                    i as int,
                ).contains(l)),
            forall|k: int|
                0 <= k < log@.len() ==> m@.contains_key(#[trigger] log@[k]) && m@[log@[k]] == k
                    + 1,
            forall|l: Label| #[trigger] m@.contains_key(l) ==> log@.contains(l),
            forall|k1: int, k2: int| 0 <= k1 < k2 < log@.len() ==> log@[k1] != log@[k2],
            log@.len() <= i,
            m@.len() == log@.len(),
        decreases labels@.len() - i,
    {
        let l = labels[i];
        proof {
            assert(labels@.subrange(0, i + 1) =~= labels@.subrange(0, i as int).push(l));
        }
        if l != EPS_LABEL && !m.contains_key(&l) {
            let idx = log.len() + 1;
            let ghost m0 = m@;
            m.insert(l, idx);
            let ghost log0 = log@;
            log.push(l);
            proof {
                assert(m@ == m0.insert(l, idx));
                assert(m@.dom().finite());
                assert(m@.remove(l) =~= m0);
                m@.lemma_remove_key_len(l);
                assert(m@.len() == m0.len() + 1);
                assert(log@.last() == l);
                assert(log@.contains(l));
                assert forall|l2: Label|
                    #[trigger] m@.contains_key(l2) implies log@.contains(l2) by {
                    if l2 != l {
                        assert(log0.contains(l2));
                        let k = choose|k: int| 0 <= k < log0.len() && log0[k] == l2;
                        assert(log@[k] == l2);
                    }
                }
                assert forall|l2: Label|
                    #[trigger] m@.contains_key(l2) implies (l2 != EPS_LABEL && labels@.subrange(
                    0,
                    i + 1,
                ).contains(l2)) by {
                    if l2 == l {
                        assert(labels@.subrange(0, i + 1).last() == l);
                    } else {
                        let pre = labels@.subrange(0, i as int);
                        assert(pre.contains(l2));
                        let k = choose|k: int| 0 <= k < pre.len() && pre[k] == l2;
                        assert(labels@.subrange(0, i + 1)[k] == l2);
                    }
                }
                assert forall|l2: Label|
                    #![trigger m@.contains_key(l2)]
                    (l2 != EPS_LABEL && labels@.subrange(0, i + 1).contains(l2)) implies m@
                    .contains_key(l2) by {
                    if l2 != l {
                        let pre1 = labels@.subrange(0, i + 1);
                        let k = choose|k: int| 0 <= k < pre1.len() && pre1[k] == l2;
                        assert(k < i);
                        assert(labels@.subrange(0, i as int)[k] == l2);
                    }
                }
            }
        } else {
            proof {
                assert forall|l2: Label|
                    #[trigger] m@.contains_key(l2) <==> (l2 != EPS_LABEL && labels@.subrange(
                    0,
                    i + 1,
                ).contains(l2)) by {
                    if m@.contains_key(l2) {
                        let pre = labels@.subrange(0, i as int);
                        assert(pre.contains(l2));
                        let k = choose|k: int| 0 <= k < pre.len() && pre[k] == l2;
                        assert(labels@.subrange(0, i + 1)[k] == l2);
                    }
                    if l2 != EPS_LABEL && labels@.subrange(0, i + 1).contains(l2) {
                        let pre1 = labels@.subrange(0, i + 1);
                        let k = choose|k: int| 0 <= k < pre1.len() && pre1[k] == l2;
                        if k < i {
                            assert(labels@.subrange(0, i as int)[k] == l2);
                        } else {
                            assert(l2 == l);
                        }
                    }
                }
            }
        }
        i = i + 1;
    }
    proof {
        assert(labels@.subrange(0, labels@.len() as int) =~= labels@);
    }
    (m, log)
}

/// A shared handle on the reachability data, with the match side chosen at
/// initialization time.
pub struct LabelReachable {
    /// The precomputed data.
    pub data: std::sync::Arc<LabelReachableData>,
    /// Whether queries match the input side of the queried transducer.
    pub reach_fst_input: bool,
}

impl LabelReachable {
    /// Precomputes the reachability data of a transducer: the dense
    /// relabeling of its side labels, and one interval set per state whose
    /// members are exactly the dense indices of the labels reachable from
    /// that state; the final index is a member exactly where a non-zero
    /// final state is reachable along epsilon-side transitions.
    pub fn compute_data<W: Semiring>(fst: &VectorFst<W>, reach_input: bool) -> (r: Result<
        LabelReachableData,
        FstError,
    >)
        requires
            fst.wf(),
            fst.total_trs_sp() + 2 <= usize::MAX,
            forall|s: int, i: int|
                0 <= s < fst.num_states_sp() && 0 <= i < fst.trs_sp(s).len() ==> side_label_sp(
                    #[trigger] fst.trs_sp(s)[i],
                    reach_input,
                ) != NO_LABEL,
        ensures
            r is Ok,
            r->Ok_0.wf(),
            r->Ok_0.reach_input == reach_input,
            r->Ok_0.interval_sets@.len() == fst.num_states_sp(),
            forall|l: Label|
                l != NO_LABEL ==> (#[trigger] r->Ok_0.label2index@.contains_key(l) <==> (l
                    != EPS_LABEL && some_tr_has_label(*fst, reach_input, l))),
            forall|l1: Label, l2: Label|
                r->Ok_0.label2index@.contains_key(l1) && r->Ok_0.label2index@.contains_key(l2)
                    && #[trigger] r->Ok_0.label2index@[l1] == #[trigger] r->Ok_0.label2index@[l2]
                    ==> l1 == l2,
            forall|s: int, l: Label|
                #![trigger r->Ok_0.interval_sets@[s].member_sp(r->Ok_0.label2index@[l] as int)]
                0 <= s < fst.num_states_sp() && r->Ok_0.label2index@.contains_key(l) && l
                    != NO_LABEL ==> (r->Ok_0.interval_sets@[s].member_sp(
                    r->Ok_0.label2index@[l] as int,
                ) <==> label_reachable_sp(*fst, reach_input, s, l)),
            forall|s: int|
                0 <= s < fst.num_states_sp() ==> ((#[trigger] r->Ok_0.interval_sets@[s]).member_sp(
                    r->Ok_0.final_label as int,
                ) <==> final_reachable_sp(*fst, reach_input, s)),
            r->Ok_0.label2index@.len() == r->Ok_0.label_log@.len(),
            r->Ok_0.label2index@.len() <= fst.total_trs_sp() + 1,
            forall|s: int, y: int|
                0 <= s < fst.num_states_sp() && #[trigger] r->Ok_0.interval_sets@[s].member_sp(y)
                    ==> 1 <= y <= r->Ok_0.label2index@.len(),
    {
        let n = fst.num_states();
        let radj = reverse_adjacency_eps(fst, reach_input);
        let ghost rav = adj_view(radj@);
        let all_labels = collect_all_labels(fst, reach_input);
        let (mut m, log) = build_label_index(&all_labels);
        let nlabels = log.len();
        proof {
            assert forall|k: int|
                0 <= k < log@.len() implies some_tr_has_label(
                *fst,
                reach_input,
                #[trigger] log@[k],
            ) by {
                assert(all_labels@.contains(log@[k]));
                let kk = choose|kk: int|
                    0 <= kk < all_labels@.len() && all_labels@[kk] == log@[k];
            }
        }
        let mut marks: Vec<Vec<bool>> = Vec::new();
        let mut k: usize = 0;
        while k < nlabels
            invariant
                fst.wf(),
                n == fst.num_states_sp(),
                nlabels == log@.len(),
                k <= nlabels,
                rav == adj_view(radj@),
                rav.len() == n,
                crate::reachability::adj_wf(rav),
                forall|a: int, b: int|
                    #[trigger] edge(rav, a, b) <==> (0 <= a < n && 0 <= b < n && eps_edge(
                        *fst,
                        reach_input,
                        b,
                        a,
                    )),
                marks@.len() == k,
                forall|k2: int| 0 <= k2 < k ==> (#[trigger] marks@[k2])@.len() == n,
                forall|k2: int, st: int|
                    0 <= k2 < k && 0 <= st < n ==> ((#[trigger] marks@[k2]@[st])
                        <==> label_reachable_sp(*fst, reach_input, st, log@[k2])),
            decreases nlabels - k,
        {
            let l = log[k];
            let roots = collect_label_roots(fst, l, reach_input);
            let marked = mark_reachable(&radj, &roots);
            proof {
                assert forall|st: int|
                    0 <= st < n implies (marked@[st] <==> label_reachable_sp(
                    *fst,
                    reach_input,
                    st,
                    l,
                )) by {
                    reveal(from_roots);
                    if marked@[st] {
                        assert(from_roots(rav, roots@, st));
                        let r0 = choose|r2: int|
                            0 <= r2 < roots@.len() && reaches(rav, roots@[r2] as int, st);
                        let b = roots@[r0];
                        lemma_rav_eps_reaches(*fst, reach_input, rav, st, b as int);
                        assert(eps_reaches(*fst, reach_input, st, b as int));
                        assert(has_side_label(*fst, b as int, l, reach_input));
                        assert(0 <= b < fst.num_states_sp());
                        assert(label_reachable_sp(*fst, reach_input, st, l));
                    }
                    if label_reachable_sp(*fst, reach_input, st, l) {
                        let b = choose|b: int|
                            0 <= b < fst.num_states_sp() && eps_reaches(*fst, reach_input, st, b)
                                && has_side_label(*fst, b, l, reach_input);
                        assert(roots@.contains(b as usize));
                        let r0 = choose|r2: int|
                            0 <= r2 < roots@.len() && roots@[r2] == b as usize;
                        lemma_rav_eps_reaches(*fst, reach_input, rav, st, b);
                        assert(reaches(rav, roots@[r0] as int, st));
                        assert(from_roots(rav, roots@, st));
                    }
                }
            }
            let ghost marks0 = marks@;
            marks.push(marked);
            proof {
                assert forall|k2: int, st: int|
                    0 <= k2 < k + 1 && 0 <= st < n implies ((#[trigger] marks@[k2]@[st])
                    <==> label_reachable_sp(*fst, reach_input, st, log@[k2])) by {
                    if k2 < k {
                        assert(marks@[k2] == marks0[k2]);
                    } else {
                        assert(marks@[k2] == marked);
                    }
                }
            }
            k = k + 1;
        }
        let froots = collect_final_roots(fst);
        let fmarked = mark_reachable(&radj, &froots);
        let has_finals = froots.len() > 0;
        proof {
            assert forall|st: int|
                0 <= st < n implies (fmarked@[st] <==> final_reachable_sp(
                *fst,
                reach_input,
                st,
            )) by {
                reveal(from_roots);
                if fmarked@[st] {
                    assert(from_roots(rav, froots@, st));
                    let r0 = choose|r2: int|
                        0 <= r2 < froots@.len() && reaches(rav, froots@[r2] as int, st);
                    let b = froots@[r0];
                    lemma_rav_eps_reaches(*fst, reach_input, rav, st, b as int);
                    assert(eps_reaches(*fst, reach_input, st, b as int));
                    assert(0 <= b < fst.num_states_sp());
                    assert(final_reachable_sp(*fst, reach_input, st));
                }
                if final_reachable_sp(*fst, reach_input, st) {
                    let b = choose|b: int|
                        0 <= b < fst.num_states_sp() && eps_reaches(*fst, reach_input, st, b)
                            && fst.final_sp(b) is Some && fst.final_sp(b)->0 != W::sp_zero();
                    assert(froots@.contains(b as usize));
                    let r0 = choose|r2: int|
                        0 <= r2 < froots@.len() && froots@[r2] == b as usize;
                    lemma_rav_eps_reaches(*fst, reach_input, rav, st, b);
                    assert(reaches(rav, froots@[r0] as int, st));
                    assert(from_roots(rav, froots@, st));
                }
            }
            if !has_finals {
                assert forall|st: int| 0 <= st < n implies !final_reachable_sp(
                    *fst,
                    reach_input,
                    st,
                ) by {
                    if final_reachable_sp(*fst, reach_input, st) {
                        let b = choose|b: int|
                            0 <= b < fst.num_states_sp() && eps_reaches(*fst, reach_input, st, b)
                                && fst.final_sp(b) is Some && fst.final_sp(b)->0
                                != W::sp_zero();
                        assert(froots@.contains(b as usize));
                    }
                }
            }
        }
        let ghost log_pre = log@;
        let ghost m_pre = m@;
        let mut log = log;
        let final_label: Label;
        if has_finals {
            proof {
                assert(all_labels@.len() == fst.total_trs_sp());
                assert(nlabels < usize::MAX - 1);
                if m@.contains_key(NO_LABEL) {
                    assert(some_tr_has_label(*fst, reach_input, NO_LABEL));
                    assert(false) by {
                        reveal(some_tr_has_label);
                        reveal(has_side_label);
                    }
                }
            }
            final_label = nlabels + 1;
            m.insert(NO_LABEL, final_label);
            let ghost log0 = log@;
            log.push(NO_LABEL);
            proof {
                assert(m@ == m_pre.insert(NO_LABEL, final_label));
                assert(m@.dom().finite());
                assert(m@.remove(NO_LABEL) =~= m_pre);
                m@.lemma_remove_key_len(NO_LABEL);
                assert(m@.len() == m_pre.len() + 1);
                assert(log@.last() == NO_LABEL);
                assert(log@.contains(NO_LABEL));
                assert forall|l2: Label|
                    #[trigger] m@.contains_key(l2) implies log@.contains(l2) by {
                    if l2 != NO_LABEL {
                        assert(log0.contains(l2));
                        let kk = choose|kk: int| 0 <= kk < log0.len() && log0[kk] == l2;
                        assert(log@[kk] == l2);
                    }
                }
            }
        } else {
            final_label = NO_LABEL;
        }
        let mut isets: Vec<IntervalSet> = Vec::new();
        let mut st: usize = 0;
        while st < n
            invariant
                n == fst.num_states_sp(),
                nlabels < usize::MAX - 1,
                st <= n,
                marks@.len() == nlabels,
                forall|k2: int| 0 <= k2 < nlabels ==> (#[trigger] marks@[k2])@.len() == n,
                fmarked@.len() == n,
                isets@.len() == st,
                forall|x: int| 0 <= x < st ==> (#[trigger] isets@[x]).wf(),
                forall|x: int, y: int|
                    0 <= x < st ==> (#[trigger] isets@[x].member_sp(y) <==> ((1 <= y <= nlabels
                        && marks@[y - 1]@[x]) || (y == nlabels + 1 && has_finals
                        && fmarked@[x]))),
            decreases n - st,
        {
            let mut iset = IntervalSet::new();
            let mut k: usize = 0;
            while k < nlabels
                invariant
                    nlabels < usize::MAX - 1,
                    st < n,
                    k <= nlabels,
                    marks@.len() == nlabels,
                    forall|k2: int| 0 <= k2 < nlabels ==> (#[trigger] marks@[k2])@.len() == n,
                    iset.wf(),
                    iset.intervals@.len() > 0 ==> iset.intervals@.last().end <= k + 1,
                    forall|y: int|
                        iset.member_sp(y) <==> (1 <= y <= k && marks@[y - 1]@[st as int]),
                decreases nlabels - k,
            {
                if marks[k][st] {
                    iset.push_value(k + 1);
                }
                k = k + 1;
            }
            if has_finals && fmarked[st] {
                iset.push_value(nlabels + 1);
            }
            isets.push(iset);
            st = st + 1;
        }
        let data = LabelReachableData {
            reach_input,
            final_label,
            label2index: m,
            label_log: log,
            interval_sets: isets,
        };
        proof {
            assert(data.wf());
            assert forall|l: Label|
                l != NO_LABEL implies (#[trigger] data.label2index@.contains_key(l) <==> (l
                    != EPS_LABEL && some_tr_has_label(*fst, reach_input, l))) by {
                assert(data.label2index@.contains_key(l) <==> m_pre.contains_key(l));
                if m_pre.contains_key(l) {
                    assert(all_labels@.contains(l));
                    let kk = choose|kk: int|
                        0 <= kk < all_labels@.len() && all_labels@[kk] == l;
                    assert(some_tr_has_label(*fst, reach_input, all_labels@[kk]));
                }
                if l != EPS_LABEL && some_tr_has_label(*fst, reach_input, l) {
                    assert(m_pre.contains_key(l)) by {
                        reveal(some_tr_has_label);
                        let s0 = choose|s0: int|
                            0 <= s0 < fst.num_states_sp() && has_side_label(
                                *fst,
                                s0,
                                l,
                                reach_input,
                            );
                        assert(has_side_label(*fst, s0, l, reach_input));
                        reveal(has_side_label);
                        let i0 = choose|i0: int|
                            0 <= i0 < fst.trs_sp(s0).len() && side_label_sp(
                                fst.trs_sp(s0)[i0],
                                reach_input,
                            ) == l;
                        assert(all_labels@.contains(
                            side_label_sp(fst.trs_sp(s0)[i0], reach_input),
                        ));
                    }
                }
            }
            assert forall|l1: Label, l2: Label|
                data.label2index@.contains_key(l1) && data.label2index@.contains_key(l2)
                    && #[trigger] data.label2index@[l1] == #[trigger] data.label2index@[l2] implies
                l1 == l2 by {
                assert(data.label_log@.contains(l1));
                assert(data.label_log@.contains(l2));
                let k1 = choose|kk: int|
                    0 <= kk < data.label_log@.len() && data.label_log@[kk] == l1;
                let k2 = choose|kk: int|
                    0 <= kk < data.label_log@.len() && data.label_log@[kk] == l2;
                assert(data.label2index@[l1] == k1 + 1);
                assert(data.label2index@[l2] == k2 + 1);
            }
            assert forall|s: int, l: Label|
                #![trigger data.interval_sets@[s].member_sp(data.label2index@[l] as int)]
                0 <= s < fst.num_states_sp() && data.label2index@.contains_key(l) && l
                    != NO_LABEL implies (data.interval_sets@[s].member_sp(
                data.label2index@[l] as int,
            ) <==> label_reachable_sp(*fst, reach_input, s, l)) by {
                assert(data.label_log@.contains(l));
                let kk = choose|kk: int|
                    0 <= kk < data.label_log@.len() && data.label_log@[kk] == l;
                assert(data.label2index@[l] == kk + 1);
                assert(kk < nlabels) by {
                    if has_finals && kk == data.label_log@.len() - 1 {
                        assert(data.label_log@[kk] == NO_LABEL);
                    }
                }
                assert(log_pre[kk] == l);
                assert(data.interval_sets@[s].member_sp(kk + 1) <==> marks@[kk]@[s]);
            }
            assert forall|s: int|
                0 <= s < fst.num_states_sp() implies ((
            #[trigger] data.interval_sets@[s]).member_sp(data.final_label as int)
                <==> final_reachable_sp(*fst, reach_input, s)) by {
                if has_finals {
                    assert(data.final_label == nlabels + 1);
                } else {
                    assert(data.final_label == NO_LABEL);
                    assert(NO_LABEL > nlabels + 1);
                }
            }
            assert forall|s: int, y: int|
                0 <= s < fst.num_states_sp() && #[trigger] data.interval_sets@[s].member_sp(
                    y,
                ) implies 1 <= y <= data.label2index@.len() by {
                if has_finals {
                    assert(data.label2index@.len() == nlabels + 1);
                } else {
                    assert(data.label2index@.len() == nlabels);
                }
            }
        }
        Ok(data)
    }
}

/// A transition's side label is a member of the interval set.
pub open spec fn tr_matched<W: Semiring>(iset: IntervalSet, t: Tr<W>, input: bool) -> bool {
    iset.member_sp(side_label_sp(t, input) as int)
}

/// No transition in `[a, b)` matches the interval set.
pub open spec fn no_match<W: Semiring>(
    iset: IntervalSet,
    trs: Seq<Tr<W>>,
    input: bool,
    a: int,
    b: int,
) -> bool {
    forall|i: int| a <= i < b ==> !tr_matched(iset, #[trigger] trs[i], input)
}

/// The plus-fold, from zero, of the weights of the matching transitions in
/// `[from, upto)`, in order.
pub open spec fn matched_fold<W: Semiring>(
    iset: IntervalSet,
    trs: Seq<Tr<W>>,
    input: bool,
    from: int,
    upto: int,
) -> W
    decreases upto - from,
{
    if upto <= from {
        W::sp_zero()
    } else if tr_matched(iset, trs[upto - 1], input) {
        W::sp_plus(matched_fold(iset, trs, input, from, upto - 1), trs[upto - 1].weight)
    } else {
        matched_fold(iset, trs, input, from, upto - 1)
    }
}

/// Whether every combination taken by `matched_fold` is accepted.
pub open spec fn matched_fold_defined<W: Semiring>(
    iset: IntervalSet,
    trs: Seq<Tr<W>>,
    input: bool,
    from: int,
    upto: int,
) -> bool
    decreases upto - from,
{
    if upto <= from {
        true
    } else if tr_matched(iset, trs[upto - 1], input) {
        matched_fold_defined::<W>(iset, trs, input, from, upto - 1) && W::plus_defined(
            matched_fold(iset, trs, input, from, upto - 1),
            trs[upto - 1].weight,
        )
    } else {
        matched_fold_defined::<W>(iset, trs, input, from, upto - 1)
    }
}

/// A fold that fails on a prefix fails on every extension.
proof fn lemma_fold_undefined_extends<W: Semiring>(
    iset: IntervalSet,
    trs: Seq<Tr<W>>,
    input: bool,
    from: int,
    k: int,
    upto: int,
)
    requires
        k <= upto,
        !matched_fold_defined::<W>(iset, trs, input, from, k),
    ensures
        !matched_fold_defined::<W>(iset, trs, input, from, upto),
    decreases upto - k,
{
    if k < upto {
        lemma_fold_undefined_extends::<W>(iset, trs, input, from, k + 1, upto);
    }
}

/// Unmatched positions contribute nothing to the fold.
proof fn lemma_fold_skip<W: Semiring>(
    iset: IntervalSet,
    trs: Seq<Tr<W>>,
    input: bool,
    from: int,
    a: int,
    b: int,
)
    requires
        from <= a <= b,
        no_match(iset, trs, input, a, b),
    ensures
        matched_fold(iset, trs, input, from, b) == matched_fold(iset, trs, input, from, a),
        matched_fold_defined::<W>(iset, trs, input, from, b) == matched_fold_defined::<W>(
            iset,
            trs,
            input,
            from,
            a,
        ),
    decreases b - a,
{
    if a < b {
        assert(!tr_matched(iset, trs[b - 1], input));
        lemma_fold_skip::<W>(iset, trs, input, from, a, b - 1);
    }
}

impl LabelReachable {
    /// The handle is backed by well-formed data.
    pub open spec fn wf(self) -> bool {
        self.data.wf()
    }

    /// Precomputes the reachability data of `fst` and wraps it in a handle.
    pub fn new<W: Semiring>(fst: &VectorFst<W>, reach_input: bool) -> (r: Result<
        Self,
        FstError,
    >)
        requires
            fst.wf(),
            fst.total_trs_sp() + 2 <= usize::MAX,
            forall|s: int, i: int|
                0 <= s < fst.num_states_sp() && 0 <= i < fst.trs_sp(s).len() ==> side_label_sp(
                    #[trigger] fst.trs_sp(s)[i],
                    reach_input,
                ) != NO_LABEL,
        ensures
            r is Ok,
            r->Ok_0.wf(),
            r->Ok_0.reach_fst_input == false,
            r->Ok_0.data.reach_input == reach_input,
            r->Ok_0.data.interval_sets@.len() == fst.num_states_sp(),
            forall|s: int, l: Label|
                #![trigger r->Ok_0.data.interval_sets@[s].member_sp(r->Ok_0.data.label2index@[l] as int)]
                0 <= s < fst.num_states_sp() && r->Ok_0.data.label2index@.contains_key(l) && l
                    != NO_LABEL ==> (r->Ok_0.data.interval_sets@[s].member_sp(
                    r->Ok_0.data.label2index@[l] as int,
                ) <==> label_reachable_sp(*fst, reach_input, s, l)),
            forall|s: int|
                0 <= s < fst.num_states_sp() ==> ((
                #[trigger] r->Ok_0.data.interval_sets@[s]).member_sp(
                    r->Ok_0.data.final_label as int,
                ) <==> final_reachable_sp(*fst, reach_input, s)),
    {
        let data = match Self::compute_data(fst, reach_input) {
            Ok(d) => d,
            Err(e) => {
                return Err(e);
            },
        };
        Ok(LabelReachable { data: std::sync::Arc::new(data), reach_fst_input: false })
    }

    /// Wraps already-computed data in a handle.
    pub fn new_from_data(data: std::sync::Arc<LabelReachableData>) -> (r: Self)
        ensures
            r.data == data,
            r.reach_fst_input == false,
    {
        LabelReachable { data, reach_fst_input: false }
    }

    /// The shared data.
    pub fn data(&self) -> (r: &std::sync::Arc<LabelReachableData>)
        ensures
            r == &self.data,
    {
        &self.data
    }

    /// The side that was analysed when the data was computed.
    pub fn reach_input(&self) -> (r: bool)
        ensures
            r == self.data.reach_input,
    {
        self.data.reach_input
    }

    /// Prepares queries against a transducer: records which of its sides is
    /// matched and demands that its transitions be sorted on that side.
    pub fn reach_init<W: Semiring>(&mut self, fst: &VectorFst<W>, reach_input: bool) -> (r:
        Result<(), FstError>)
        requires
            fst.wf(),
        ensures
            final(self).data == old(self).data,
            final(self).reach_fst_input == reach_input,
            r is Ok <==> (forall|s: int|
                0 <= s < fst.num_states_sp() ==> sorted_by_side(
                    #[trigger] fst.trs_sp(s),
                    reach_input,
                )),
            r is Err ==> r == Err::<(), FstError>(FstError::UnsortedFst),
    {
        self.reach_fst_input = reach_input;
        if check_label_sorted(fst, reach_input) {
            Ok(())
        } else {
            Err(FstError::UnsortedFst)
        }
    }

    /// Whether the (already relabeled) label is reachable from the state.
    /// Epsilon is never reachable by this query.
    pub fn reach_label(&self, current_state: StateId, label: Label) -> (r: Result<
        bool,
        FstError,
    >)
        requires
            self.wf(),
        ensures
            r is Ok <==> (label == EPS_LABEL || current_state
                < self.data.interval_sets@.len()),
            label == EPS_LABEL ==> r == Ok::<bool, FstError>(false),
            r is Ok && label != EPS_LABEL ==> (r->Ok_0
                <==> self.data.interval_sets@[current_state as int].member_sp(label as int)),
            r is Err ==> r == Err::<bool, FstError>(FstError::StateOutOfRange(current_state)),
    {
        if label == EPS_LABEL {
            return Ok(false);
        }
        let iset = match self.data.interval_set(current_state) {
            Ok(i) => i,
            Err(e) => {
                return Err(e);
            },
        };
        Ok(iset.member(label))
    }

    /// Whether a final state is reachable from the state along epsilon-side
    /// transitions.
    pub fn reach_final(&self, current_state: StateId) -> (r: Result<bool, FstError>)
        requires
            self.wf(),
        ensures
            r is Ok <==> current_state < self.data.interval_sets@.len(),
            r is Ok ==> (r->Ok_0 <==> self.data.interval_sets@[current_state as int].member_sp(
                self.data.final_label as int,
            )),
            r is Err ==> r == Err::<bool, FstError>(FstError::StateOutOfRange(current_state)),
    {
        let iset = match self.data.interval_set(current_state) {
            Ok(i) => i,
            Err(e) => {
                return Err(e);
            },
        };
        Ok(iset.member(self.data.final_label))
    }

    /// The first position in `[aiter_begin, aiter_end)` whose side label is
    /// at least `match_label`, in a range sorted on the matched side.
    pub fn lower_bound<W: Semiring>(
        &self,
        trs: &Vec<Tr<W>>,
        aiter_begin: usize,
        aiter_end: usize,
        match_label: Label,
    ) -> (r: usize)
        requires
            aiter_begin <= aiter_end <= trs@.len(),
            forall|a: int, b: int|
                aiter_begin <= a < b < aiter_end ==> side_label_sp(
                    #[trigger] trs@[a],
                    self.reach_fst_input,
                ) <= side_label_sp(#[trigger] trs@[b], self.reach_fst_input),
        ensures
            aiter_begin <= r <= aiter_end,
            forall|i: int|
                aiter_begin <= i < r ==> side_label_sp(#[trigger] trs@[i], self.reach_fst_input)
                    < match_label,
            forall|i: int|
                r <= i < aiter_end ==> side_label_sp(#[trigger] trs@[i], self.reach_fst_input)
                    >= match_label,
    {
        let mut low = aiter_begin;
        let mut high = aiter_end;
        while low < high
            invariant
                aiter_begin <= low <= high <= aiter_end <= trs@.len(),
                forall|a: int, b: int|
                    aiter_begin <= a < b < aiter_end ==> side_label_sp(
                        #[trigger] trs@[a],
                        self.reach_fst_input,
                    ) <= side_label_sp(#[trigger] trs@[b], self.reach_fst_input),
                forall|i: int|
                    aiter_begin <= i < low ==> side_label_sp(
                        #[trigger] trs@[i],
                        self.reach_fst_input,
                    ) < match_label,
                forall|i: int|
                    high <= i < aiter_end ==> side_label_sp(
                        #[trigger] trs@[i],
                        self.reach_fst_input,
                    ) >= match_label,
            decreases high - low,
        {
            let mid = low + (high - low) / 2;
            let label = if self.reach_fst_input {
                trs[mid].ilabel
            } else {
                trs[mid].olabel
            };
            if label < match_label {
                proof {
                    assert forall|i: int|
                        aiter_begin <= i < mid + 1 implies side_label_sp(
                        #[trigger] trs@[i],
                        self.reach_fst_input,
                    ) < match_label by {
                        if i < mid {
                            assert(side_label_sp(trs@[i], self.reach_fst_input) <= side_label_sp(
                                trs@[mid as int],
                                self.reach_fst_input,
                            ));
                        }
                    }
                }
                low = mid + 1;
            } else {
                proof {
                    assert forall|i: int|
                        mid <= i < aiter_end implies side_label_sp(
                        #[trigger] trs@[i],
                        self.reach_fst_input,
                    ) >= match_label by {
                        if i > mid {
                            assert(side_label_sp(trs@[mid as int], self.reach_fst_input)
                                <= side_label_sp(trs@[i], self.reach_fst_input));
                        }
                    }
                }
                high = mid;
            }
        }
        low
    }
}

/// The ordered intervals of a well-formed set do not cross: an earlier
/// interval ends before a later one begins.
proof fn lemma_interval_order(iset: IntervalSet, a: int, b: int)
    requires
        iset.wf(),
        0 <= a < b < iset.intervals@.len(),
    ensures
        iset.intervals@[a].end < iset.intervals@[b].begin || a + 1 == b,
        iset.intervals@[a].end <= iset.intervals@[b].begin,
        iset.intervals@[a].end <= iset.intervals@[b].end,
    decreases b - a,
{
    if a + 1 < b {
        lemma_interval_order(iset, a, b - 1);
        assert(iset.intervals@[b - 1].end < iset.intervals@[b].begin);
        assert(iset.intervals@[b - 1].begin < iset.intervals@[b - 1].end);
    } else {
        assert(iset.intervals@[a].end < iset.intervals@[a + 1].begin);
        assert(iset.intervals@[b].begin < iset.intervals@[b].end);
    }
}

/// The common precondition of the two reach strategies: a well-formed
/// interval set without epsilon, over a range sorted on the matched side,
/// with real labels and well-formed weights.
pub open spec fn reach_pre<W: Semiring>(
    iset: IntervalSet,
    trs: Seq<Tr<W>>,
    input: bool,
    begin: int,
    end: int,
) -> bool {
    &&& iset.wf()
    &&& !iset.member_sp(EPS_LABEL as int)
    &&& 0 <= begin <= end <= trs.len()
    &&& end < usize::MAX
    &&& (forall|a: int, b: int|
        begin <= a < b < end ==> side_label_sp(#[trigger] trs[a], input) <= side_label_sp(
            #[trigger] trs[b],
            input,
        ))
    &&& (forall|i: int| begin <= i < end ==> side_label_sp(#[trigger] trs[i], input) != NO_LABEL)
    &&& (forall|i: int| begin <= i < end ==> (#[trigger] trs[i]).weight.wf())
}

/// The exact result relation of a reach lookup: success is owed exactly when
/// no weight combination is rejected; `None` means nothing in the range
/// matches; and a triple gives the first match, one past the last match, and
/// the plus-sum of the matching weights (zero where no sum was asked).
pub open spec fn reach_post<W: Semiring>(
    iset: IntervalSet,
    trs: Seq<Tr<W>>,
    input: bool,
    begin: int,
    end: int,
    compute_weight: bool,
    r: Result<Option<(usize, usize, W)>, FstError>,
) -> bool {
    &&& (r is Ok <==> (!compute_weight || matched_fold_defined::<W>(
        iset,
        trs,
        input,
        begin,
        end,
    )))
    &&& (r is Err ==> r == Err::<Option<(usize, usize, W)>, FstError>(
        FstError::IncompatibleWeights,
    ))
    &&& (r is Ok ==> (r->Ok_0 is None <==> no_match(iset, trs, input, begin, end)))
    &&& (r is Ok && r->Ok_0 is Some ==> {
        let t = r->Ok_0->0;
        &&& begin <= t.0 < t.1 <= end
        &&& tr_matched(iset, trs[t.0 as int], input)
        &&& tr_matched(iset, trs[t.1 - 1], input)
        &&& no_match(iset, trs, input, begin, t.0 as int)
        &&& no_match(iset, trs, input, t.1 as int, end)
        &&& t.2 == (if compute_weight {
            matched_fold(iset, trs, input, begin, end)
        } else {
            W::sp_zero()
        })
    })
}

/// The linear reach strategy: one pass over the transitions, caching the last
/// matched label.
fn reach_linear<W: Semiring>(
    iset: &IntervalSet,
    input: bool,
    trs: &Vec<Tr<W>>,
    aiter_begin: usize,
    aiter_end: usize,
    compute_weight: bool,
) -> (r: Result<Option<(usize, usize, W)>, FstError>)
    requires
        reach_pre(*iset, trs@, input, aiter_begin as int, aiter_end as int),
    ensures
        reach_post(*iset, trs@, input, aiter_begin as int, aiter_end as int, compute_weight, r),
{
    let ghost isv = *iset;
    let mut reach_begin: usize = UNASSIGNED;
    let mut reach_end: usize = UNASSIGNED;
    let mut reach_weight: W = W::zero();
    let mut reach_label: Label = NO_LABEL;
    let mut pos = aiter_begin;
    while pos < aiter_end
        invariant
            reach_pre(isv, trs@, input, aiter_begin as int, aiter_end as int),
            isv == *iset,
            aiter_begin <= pos <= aiter_end,
            (reach_begin == UNASSIGNED) == (reach_end == UNASSIGNED),
            reach_begin == UNASSIGNED ==> no_match(
                isv,
                trs@,
                input,
                aiter_begin as int,
                pos as int,
            ) && reach_label == NO_LABEL,
            reach_begin != UNASSIGNED ==> {
                &&& aiter_begin <= reach_begin < reach_end <= pos
                &&& tr_matched(isv, trs@[reach_begin as int], input)
                &&& tr_matched(isv, trs@[reach_end - 1], input)
                &&& no_match(isv, trs@, input, aiter_begin as int, reach_begin as int)
                &&& no_match(isv, trs@, input, reach_end as int, pos as int)
                &&& reach_label == side_label_sp(trs@[reach_end - 1], input)
            },
            reach_label != NO_LABEL ==> isv.member_sp(reach_label as int),
            compute_weight ==> matched_fold_defined::<W>(
                isv,
                trs@,
                input,
                aiter_begin as int,
                pos as int,
            ) && reach_weight == matched_fold(isv, trs@, input, aiter_begin as int, pos as int),
            !compute_weight ==> reach_weight == W::sp_zero(),
            reach_weight.wf(),
        decreases aiter_end - pos,
    {
        let tr = trs[pos];
        let label = if input {
            tr.ilabel
        } else {
            tr.olabel
        };
        proof {
            assert(side_label_sp(trs@[pos as int], input) == label);
            assert(label != NO_LABEL);
        }
        let mut matched_now = false;
        if label == reach_label {
            matched_now = true;
        } else {
            matched_now = iset.member(label);
        }
        proof {
            assert(matched_now == tr_matched(isv, trs@[pos as int], input));
        }
        if matched_now {
            if reach_begin == UNASSIGNED {
                reach_begin = pos;
            }
            reach_end = pos + 1;
            reach_label = label;
            if compute_weight {
                match reach_weight.plus_assign(&tr.weight) {
                    Ok(()) => {},
                    Err(e) => {
                        proof {
                            assert(!matched_fold_defined::<W>(
                                isv,
                                trs@,
                                input,
                                aiter_begin as int,
                                pos + 1,
                            ));
                            lemma_fold_undefined_extends::<W>(
                                isv,
                                trs@,
                                input,
                                aiter_begin as int,
                                pos + 1,
                                aiter_end as int,
                            );
                        }
                        return Err(e);
                    },
                }
            }
        }
        pos = pos + 1;
    }
    if reach_begin != UNASSIGNED {
        Ok(Some((reach_begin, reach_end, reach_weight)))
    } else {
        Ok(None)
    }
}

/// The interval-driven reach strategy: per interval, binary search for the
/// covered sub-range.
#[verifier::rlimit(60)]
fn reach_by_intervals<W: Semiring>(
    iset: &IntervalSet,
    input: bool,
    trs: &Vec<Tr<W>>,
    aiter_begin: usize,
    aiter_end: usize,
    compute_weight: bool,
) -> (r: Result<Option<(usize, usize, W)>, FstError>)
    requires
        reach_pre(*iset, trs@, input, aiter_begin as int, aiter_end as int),
    ensures
        reach_post(*iset, trs@, input, aiter_begin as int, aiter_end as int, compute_weight, r),
{
    let ghost isv = *iset;
    let mut reach_begin: usize = UNASSIGNED;
    let mut reach_end: usize = UNASSIGNED;
    let mut reach_weight: W = W::zero();
    let m = iset.len();
    let mut end_low = aiter_begin;
    let mut k: usize = 0;
    while k < m
        invariant
            reach_pre(isv, trs@, input, aiter_begin as int, aiter_end as int),
            isv == *iset,
            m == isv.intervals@.len(),
            k <= m,
            aiter_begin <= end_low <= aiter_end,
            k > 0 ==> forall|i: int|
                end_low <= i < aiter_end ==> side_label_sp(#[trigger] trs@[i], input)
                    >= isv.intervals@[k - 1].end,
            k == 0 ==> end_low == aiter_begin,
            (reach_begin == UNASSIGNED) == (reach_end == UNASSIGNED),
            reach_begin == UNASSIGNED ==> no_match(
                isv,
                trs@,
                input,
                aiter_begin as int,
                end_low as int,
            ),
            reach_begin != UNASSIGNED ==> {
                &&& aiter_begin <= reach_begin < reach_end <= end_low
                &&& tr_matched(isv, trs@[reach_begin as int], input)
                &&& tr_matched(isv, trs@[reach_end - 1], input)
                &&& no_match(isv, trs@, input, aiter_begin as int, reach_begin as int)
                &&& no_match(isv, trs@, input, reach_end as int, end_low as int)
            },
            compute_weight ==> matched_fold_defined::<W>(
                isv,
                trs@,
                input,
                aiter_begin as int,
                end_low as int,
            ) && reach_weight == matched_fold(
                isv,
                trs@,
                input,
                aiter_begin as int,
                end_low as int,
            ),
            !compute_weight ==> reach_weight == W::sp_zero(),
            reach_weight.wf(),
        decreases m - k,
    {
        let ivl = iset.intervals[k];
        let begin_low = interval_lower_bound(trs, end_low, aiter_end, ivl.begin, input);
        let el = interval_lower_bound(trs, begin_low, aiter_end, ivl.end, input);
        proof {
            assert forall|i: int|
                end_low <= i < begin_low implies !tr_matched(isv, #[trigger] trs@[i], input) by {
                let lab = side_label_sp(trs@[i], input) as int;
                if isv.member_sp(lab) {
                    let j = choose|j: int|
                        0 <= j < isv.intervals@.len() && (#[trigger] isv.intervals@[j]).begin
                            <= lab < isv.intervals@[j].end;
                    assert(lab < ivl.begin);
                    if j < k {
                        if j < k - 1 {
                            lemma_interval_order(isv, j, k - 1);
                        }
                        assert(lab >= isv.intervals@[k - 1].end);
                    } else if j > k {
                        lemma_interval_order(isv, k as int, j);
                    }
                }
            }
            assert(no_match(isv, trs@, input, end_low as int, begin_low as int));
            if compute_weight {
                lemma_fold_skip::<W>(
                    isv,
                    trs@,
                    input,
                    aiter_begin as int,
                    end_low as int,
                    begin_low as int,
                );
            }
            assert forall|i: int|
                begin_low <= i < el implies tr_matched(isv, #[trigger] trs@[i], input) by {
                let lab = side_label_sp(trs@[i], input) as int;
                assert(isv.intervals@[k as int].begin <= lab < isv.intervals@[k as int].end);
            }
        }
        if el > begin_low {
            if reach_begin == UNASSIGNED {
                reach_begin = begin_low;
            }
            reach_end = el;
            if compute_weight {
                let mut i = begin_low;
                while i < el
                    invariant
                        compute_weight,
                        reach_pre(isv, trs@, input, aiter_begin as int, aiter_end as int),
                        isv == *iset,
                        aiter_begin <= begin_low <= i <= el <= aiter_end,
                        forall|x: int|
                            begin_low <= x < el ==> tr_matched(isv, #[trigger] trs@[x], input),
                        matched_fold_defined::<W>(
                            isv,
                            trs@,
                            input,
                            aiter_begin as int,
                            i as int,
                        ),
                        reach_weight == matched_fold(
                            isv,
                            trs@,
                            input,
                            aiter_begin as int,
                            i as int,
                        ),
                        reach_weight.wf(),
                    decreases el - i,
                {
                    let tr = trs[i];
                    match reach_weight.plus_assign(&tr.weight) {
                        Ok(()) => {},
                        Err(e) => {
                            proof {
                                assert(!matched_fold_defined::<W>(
                                    isv,
                                    trs@,
                                    input,
                                    aiter_begin as int,
                                    i + 1,
                                ));
                                lemma_fold_undefined_extends::<W>(
                                    isv,
                                    trs@,
                                    input,
                                    aiter_begin as int,
                                    i + 1,
                                    aiter_end as int,
                                );
                            }
                            return Err(e);
                        },
                    }
                    i = i + 1;
                }
            }
        } else {
            proof {
                if compute_weight {
                    lemma_fold_skip::<W>(
                        isv,
                        trs@,
                        input,
                        aiter_begin as int,
                        end_low as int,
                        el as int,
                    );
                }
            }
        }
        end_low = el;
        k = k + 1;
    }
    proof {
        assert forall|i: int|
            end_low <= i < aiter_end implies !tr_matched(isv, #[trigger] trs@[i], input) by {
            let lab = side_label_sp(trs@[i], input) as int;
            if isv.member_sp(lab) {
                let j = choose|j: int|
                    0 <= j < isv.intervals@.len() && (#[trigger] isv.intervals@[j]).begin <= lab
                        < isv.intervals@[j].end;
                if m > 0 {
                    if j < m - 1 {
                        lemma_interval_order(isv, j, m - 1);
                    }
                    assert(lab >= isv.intervals@[m - 1].end);
                }
            }
        }
        if compute_weight {
            lemma_fold_skip::<W>(
                isv,
                trs@,
                input,
                aiter_begin as int,
                end_low as int,
                aiter_end as int,
            );
        }
        if reach_begin == UNASSIGNED {
            assert(no_match(isv, trs@, input, aiter_begin as int, aiter_end as int));
        } else {
            assert(no_match(isv, trs@, input, reach_end as int, aiter_end as int));
        }
    }
    if reach_begin != UNASSIGNED {
        Ok(Some((reach_begin, reach_end, reach_weight)))
    } else {
        Ok(None)
    }
}

/// The first position in `[lo, hi)` whose side label is at least
/// `match_label`, in a range sorted on that side.
fn interval_lower_bound<W: Semiring>(
    trs: &Vec<Tr<W>>,
    lo: usize,
    hi: usize,
    match_label: Label,
    input: bool,
) -> (r: usize)
    requires
        lo <= hi <= trs@.len(),
        forall|a: int, b: int|
            lo <= a < b < hi ==> side_label_sp(#[trigger] trs@[a], input) <= side_label_sp(
                #[trigger] trs@[b],
                input,
            ),
    ensures
        lo <= r <= hi,
        forall|i: int| lo <= i < r ==> side_label_sp(#[trigger] trs@[i], input) < match_label,
        forall|i: int| r <= i < hi ==> side_label_sp(#[trigger] trs@[i], input) >= match_label,
{
    let mut low = lo;
    let mut high = hi;
    while low < high
        invariant
            lo <= low <= high <= hi <= trs@.len(),
            forall|a: int, b: int|
                lo <= a < b < hi ==> side_label_sp(#[trigger] trs@[a], input) <= side_label_sp(
                    #[trigger] trs@[b],
                    input,
                ),
            forall|i: int| lo <= i < low ==> side_label_sp(#[trigger] trs@[i], input) < match_label,
            forall|i: int|
                high <= i < hi ==> side_label_sp(#[trigger] trs@[i], input) >= match_label,
        decreases high - low,
    {
        let mid = low + (high - low) / 2;
        let label = if input {
            trs[mid].ilabel
        } else {
            trs[mid].olabel
        };
        if label < match_label {
            proof {
                assert forall|i: int|
                    lo <= i < mid + 1 implies side_label_sp(#[trigger] trs@[i], input)
                    < match_label by {
                    if i < mid {
                        assert(side_label_sp(trs@[i], input) <= side_label_sp(
                            trs@[mid as int],
                            input,
                        ));
                    }
                }
            }
            low = mid + 1;
        } else {
            proof {
                assert forall|i: int|
                    mid <= i < hi implies side_label_sp(#[trigger] trs@[i], input)
                    >= match_label by {
                    if i > mid {
                        assert(side_label_sp(trs@[mid as int], input) <= side_label_sp(
                            trs@[i],
                            input,
                        ));
                    }
                }
            }
            high = mid;
        }
    }
    low
}

impl LabelReachable {
    /// The sub-range of a sorted transition range whose side labels are
    /// reachable, with (where asked) the plus-sum of the matching weights.
    /// Two strategies realize one exact contract: a linear scan of the
    /// transitions, or a binary search per interval, chosen by the size
    /// ratio; `reach_post` pins the result either way.
    pub fn reach<W: Semiring>(
        &self,
        current_state: StateId,
        trs: &Vec<Tr<W>>,
        aiter_begin: usize,
        aiter_end: usize,
        compute_weight: bool,
    ) -> (r: Result<Option<(usize, usize, W)>, FstError>)
        requires
            self.wf(),
            aiter_begin <= aiter_end <= trs@.len(),
            aiter_end < usize::MAX,
            forall|a: int, b: int|
                aiter_begin <= a < b < aiter_end ==> side_label_sp(
                    #[trigger] trs@[a],
                    self.reach_fst_input,
                ) <= side_label_sp(#[trigger] trs@[b], self.reach_fst_input),
            forall|i: int|
                aiter_begin <= i < aiter_end ==> side_label_sp(
                    #[trigger] trs@[i],
                    self.reach_fst_input,
                ) != NO_LABEL,
            forall|i: int| aiter_begin <= i < aiter_end ==> (#[trigger] trs@[i]).weight.wf(),
        ensures
            current_state >= self.data.interval_sets@.len() ==> r == Err::<
                Option<(usize, usize, W)>,
                FstError,
            >(FstError::StateOutOfRange(current_state)),
            current_state < self.data.interval_sets@.len() ==> reach_post(
                self.data.interval_sets@[current_state as int],
                trs@,
                self.reach_fst_input,
                aiter_begin as int,
                aiter_end as int,
                compute_weight,
                r,
            ),
    {
        let input = self.reach_fst_input;
        let iset = match self.data.interval_set(current_state) {
            Ok(i) => i,
            Err(e) => {
                return Err(e);
            },
        };
        proof {
            assert(iset.wf());
            assert(!iset.member_sp(EPS_LABEL as int));
        }
        let range = aiter_end - aiter_begin;
        if range < usize::MAX / 2 && 2 * range < iset.len() {
            reach_linear(iset, input, trs, aiter_begin, aiter_end, compute_weight)
        } else {
            reach_by_intervals(iset, input, trs, aiter_begin, aiter_end, compute_weight)
        }
    }
}

/// Any two results that meet the reach contract on the same inputs are the
/// same triple: the two lookup strategies cannot disagree.
pub proof fn lemma_reach_deterministic<W: Semiring>(
    iset: IntervalSet,
    trs: Seq<Tr<W>>,
    input: bool,
    begin: int,
    end: int,
    b1: int,
    e1: int,
    w1: W,
    b2: int,
    e2: int,
    w2: W,
)
    requires
        begin <= b1 < e1 <= end,
        tr_matched(iset, trs[b1], input),
        tr_matched(iset, trs[e1 - 1], input),
        no_match(iset, trs, input, begin, b1),
        no_match(iset, trs, input, e1, end),
        w1 == matched_fold(iset, trs, input, begin, end),
        begin <= b2 < e2 <= end,
        tr_matched(iset, trs[b2], input),
        tr_matched(iset, trs[e2 - 1], input),
        no_match(iset, trs, input, begin, b2),
        no_match(iset, trs, input, e2, end),
        w2 == matched_fold(iset, trs, input, begin, end),
    ensures
        b1 == b2,
        e1 == e2,
        w1 == w2,
{
    if b1 < b2 {
        assert(!tr_matched(iset, trs[b1], input));
    }
    if b2 < b1 {
        assert(!tr_matched(iset, trs[b2], input));
    }
    if e1 < e2 {
        assert(!tr_matched(iset, trs[e2 - 1], input));
    }
    if e2 < e1 {
        assert(!tr_matched(iset, trs[e1 - 1], input));
    }
}

/// A label rewritten under the dense relabeling: epsilon stays epsilon.
pub open spec fn relabel_label_sp(l: Label, m: Map<Label, Label>) -> Label {
    if l == EPS_LABEL {
        EPS_LABEL
    } else {
        m[l]
    }
}

/// A transition with its chosen-side label rewritten under the relabeling.
pub open spec fn relabel_tr_sp<W: Semiring>(t: Tr<W>, m: Map<Label, Label>, input: bool) -> Tr<
    W,
> {
    if input {
        Tr { ilabel: relabel_label_sp(t.ilabel, m), olabel: t.olabel, weight: t.weight, nextstate: t.nextstate }
    } else {
        Tr { ilabel: t.ilabel, olabel: relabel_label_sp(t.olabel, m), weight: t.weight, nextstate: t.nextstate }
    }
}

/// A transition sequence with every chosen-side label rewritten.
pub open spec fn relabel_trs_sp<W: Semiring>(
    trs: Seq<Tr<W>>,
    m: Map<Label, Label>,
    input: bool,
) -> Seq<Tr<W>> {
    trs.map_values(|t: Tr<W>| relabel_tr_sp(t, m, input))
}

impl LabelReachableData {
    /// Rewrites the chosen-side label of every transition to its dense index,
    /// assigning fresh indices to labels unseen here, then sorts each state's
    /// transitions on that side. Indices already assigned never change.
    pub fn relabel_fst<W: Semiring>(
        &mut self,
        fst: &mut VectorFst<W>,
        relabel_input: bool,
    ) -> (r: Result<(), FstError>)
        requires
            old(self).wf(),
            old(fst).wf(),
            old(self).label2index@.len() + old(fst).total_trs_sp() <= usize::MAX,
        ensures
            r is Ok,
            final(self).wf(),
            final(self).reach_input == old(self).reach_input,
            final(self).final_label == old(self).final_label,
            final(self).interval_sets@ == old(self).interval_sets@,
            forall|l: Label|
                #[trigger] old(self).label2index@.contains_key(l) ==> final(self).label2index@.contains_key(l) && final(self).label2index@[l] == old(self).label2index@[l],
            final(self).label2index@.len() <= old(self).label2index@.len() + old(fst).total_trs_sp(),
            (forall|s: int, j: int|
                0 <= s < old(fst).num_states_sp() && 0 <= j < old(fst).trs_sp(s).len()
                    ==> side_label_sp(#[trigger] old(fst).trs_sp(s)[j], relabel_input)
                    == EPS_LABEL || old(self).label2index@.contains_key(
                    side_label_sp(old(fst).trs_sp(s)[j], relabel_input),
                )) ==> final(self).label2index@ == old(self).label2index@ && final(self).label_log@ == old(self).label_log@,
            final(fst).num_states_sp() == old(fst).num_states_sp(),
            final(fst).start_state == old(fst).start_state,
            forall|s: int|
                0 <= s < old(fst).num_states_sp() ==> final(fst).final_sp(s) == old(fst).final_sp(
                    s,
                ),
            forall|s: int|
                0 <= s < old(fst).num_states_sp() ==> sorted_by_side(
                    #[trigger] final(fst).trs_sp(s),
                    relabel_input,
                ),
            forall|s: int|
                0 <= s < old(fst).num_states_sp() ==> (#[trigger] final(fst).trs_sp(
                    s,
                )).to_multiset() == relabel_trs_sp(
                    old(fst).trs_sp(s),
                    final(self).label2index@,
                    relabel_input,
                ).to_multiset(),
            final(fst).wf(),
    {
        let n = fst.num_states();
        let mut s: usize = 0;
        while s < n
            invariant
                self.wf(),
                fst.wf(),
                n == fst.num_states_sp(),
                n == old(fst).num_states_sp(),
                s <= n,
                self.reach_input == old(self).reach_input,
                self.final_label == old(self).final_label,
                self.interval_sets@ == old(self).interval_sets@,
                forall|l: Label|
                    #[trigger] old(self).label2index@.contains_key(l) ==> self.label2index@
                        .contains_key(l) && self.label2index@[l] == old(self).label2index@[l],
                self.label2index@.len() <= old(self).label2index@.len() + old(fst).total_trs_upto(s as int),
                old(self).label2index@.len() + old(fst).total_trs_sp() <= usize::MAX,
                (forall|s2: int, j2: int|
                    0 <= s2 < old(fst).num_states_sp() && 0 <= j2 < old(fst).trs_sp(s2).len()
                        ==> side_label_sp(#[trigger] old(fst).trs_sp(s2)[j2], relabel_input)
                        == EPS_LABEL || old(self).label2index@.contains_key(
                        side_label_sp(old(fst).trs_sp(s2)[j2], relabel_input),
                    )) ==> self.label2index@ == old(self).label2index@ && self.label_log@
                    == old(self).label_log@,
                fst.start_state == old(fst).start_state,
                forall|x: int| s <= x < n ==> fst.states@[x] == old(fst).states@[x],
                forall|x: int| 0 <= x < n ==> fst.final_sp(x) == old(fst).final_sp(x),
                forall|x: int|
                    0 <= x < n ==> (#[trigger] fst.trs_sp(x)).len() == old(fst).trs_sp(x).len(),
                forall|x: int, j: int|
                    0 <= x < s && 0 <= j < old(fst).trs_sp(x).len() ==> {
                        let t0 = old(fst).trs_sp(x)[j];
                        let t1 = #[trigger] fst.trs_sp(x)[j];
                        let l0 = side_label_sp(t0, relabel_input);
                        &&& t1.weight == t0.weight
                        &&& t1.nextstate == t0.nextstate
                        &&& side_label_sp(t1, relabel_input) == (if l0 == EPS_LABEL {
                            EPS_LABEL
                        } else {
                            self.label2index@[l0]
                        })
                        &&& (l0 != EPS_LABEL ==> self.label2index@.contains_key(l0))
                        &&& (if relabel_input {
                            t1.olabel == t0.olabel
                        } else {
                            t1.ilabel == t0.ilabel
                        })
                    },
            decreases n - s,
        {
            let ghost fst0 = *fst;
            let deg = fst.states[s].trs.len();
            let mut j: usize = 0;
            proof {
                crate::vector_fst::lemma_total_trs_mono(*old(fst), s + 1, n as int);
                crate::vector_fst::lemma_total_trs_nonneg(*old(fst), s as int);
            }
            while j < deg
                invariant
                    self.wf(),
                    fst.wf(),
                    n == fst.num_states_sp(),
                    n == old(fst).num_states_sp(),
                    s < n,
                    j <= deg,
                    deg == old(fst).trs_sp(s as int).len(),
                    old(fst).total_trs_upto(s + 1) <= old(fst).total_trs_sp(),
                    old(fst).total_trs_upto(s as int) >= 0,
                    self.reach_input == old(self).reach_input,
                    self.final_label == old(self).final_label,
                    self.interval_sets@ == old(self).interval_sets@,
                    forall|l: Label|
                        #[trigger] old(self).label2index@.contains_key(l) ==> self.label2index@
                            .contains_key(l) && self.label2index@[l] == old(self).label2index@[l],
                    self.label2index@.len() <= old(self).label2index@.len() + old(fst).total_trs_upto(s as int) + j,
                    old(self).label2index@.len() + old(fst).total_trs_sp() <= usize::MAX,
                    (forall|s2: int, j2: int|
                        0 <= s2 < old(fst).num_states_sp() && 0 <= j2 < old(fst).trs_sp(
                            s2,
                        ).len() ==> side_label_sp(
                            #[trigger] old(fst).trs_sp(s2)[j2],
                            relabel_input,
                        ) == EPS_LABEL || old(self).label2index@.contains_key(
                            side_label_sp(old(fst).trs_sp(s2)[j2], relabel_input),
                        )) ==> self.label2index@ == old(self).label2index@ && self.label_log@
                        == old(self).label_log@,
                    fst.start_state == old(fst).start_state,
                    fst0.states@.len() == n,
                    forall|x: int| 0 <= x < n && x != s ==> fst.states@[x] == fst0.states@[x],
                    fst0.states@[s as int] == old(fst).states@[s as int],
                    forall|x: int| 0 <= x < n ==> fst.final_sp(x) == old(fst).final_sp(x),
                    forall|x: int|
                        0 <= x < n ==> (#[trigger] fst.trs_sp(x)).len() == old(fst).trs_sp(
                            x,
                        ).len(),
                    forall|x: int, j2: int|
                        0 <= x < s && 0 <= j2 < old(fst).trs_sp(x).len() ==> {
                            let t0 = old(fst).trs_sp(x)[j2];
                            let t1 = #[trigger] fst.trs_sp(x)[j2];
                            let l0 = side_label_sp(t0, relabel_input);
                            &&& t1.weight == t0.weight
                            &&& t1.nextstate == t0.nextstate
                            &&& side_label_sp(t1, relabel_input) == (if l0 == EPS_LABEL {
                                EPS_LABEL
                            } else {
                                self.label2index@[l0]
                            })
                            &&& (l0 != EPS_LABEL ==> self.label2index@.contains_key(l0))
                            &&& (if relabel_input {
                                t1.olabel == t0.olabel
                            } else {
                                t1.ilabel == t0.ilabel
                            })
                        },
                    forall|j2: int|
                        0 <= j2 < j ==> {
                            let t0 = old(fst).trs_sp(s as int)[j2];
                            let t1 = #[trigger] fst.trs_sp(s as int)[j2];
                            let l0 = side_label_sp(t0, relabel_input);
                            &&& t1.weight == t0.weight
                            &&& t1.nextstate == t0.nextstate
                            &&& side_label_sp(t1, relabel_input) == (if l0 == EPS_LABEL {
                                EPS_LABEL
                            } else {
                                self.label2index@[l0]
                            })
                            &&& (l0 != EPS_LABEL ==> self.label2index@.contains_key(l0))
                            &&& (if relabel_input {
                                t1.olabel == t0.olabel
                            } else {
                                t1.ilabel == t0.ilabel
                            })
                        },
                    forall|j2: int|
                        j <= j2 < deg ==> #[trigger] fst.trs_sp(s as int)[j2] == old(fst).trs_sp(s as int)[j2],
            decreases deg - j,
            {
                let ghost fsth = *fst;
                proof {
                    assert(fst.trs_sp(s as int).len() == old(fst).trs_sp(s as int).len());
                }
                let tr = fst.states[s].trs[j];
                let l = if relabel_input {
                    tr.ilabel
                } else {
                    tr.olabel
                };
                let ghost m0 = self.label2index@;
                proof {
                    assert(self.label2index@.len() < usize::MAX);
                }
                let nl = self.relabel(l);
                proof {
                    if l != EPS_LABEL && !m0.contains_key(l) {
                        let m1 = self.label2index@;
                        assert(m1 == m0.insert(l, nl));
                        assert(m1.dom().finite());
                        assert(m1.remove(l) =~= m0);
                        m1.lemma_remove_key_len(l);
                        assert(m1.len() == m0.len() + 1);
                    }
                }
                let nt = if relabel_input {
                    Tr { ilabel: nl, olabel: tr.olabel, weight: tr.weight, nextstate: tr.nextstate }
                } else {
                    Tr { ilabel: tr.ilabel, olabel: nl, weight: tr.weight, nextstate: tr.nextstate }
                };
                let ghost prev = fst.states@;
                let row = &mut fst.states[s];
                row.trs.set(j, nt);
                proof {
                    assert(fst.states@[s as int].trs@ == prev[s as int].trs@.update(j as int, nt));
                    assert(forall|x: int| 0 <= x < n && x != s ==> fst.states@[x] == prev[x]);
                    assert(fst.states@[s as int].targets_below(n as int)) by {
                        assert(prev[s as int].targets_below(n as int));
                        assert forall|k: int|
                            0 <= k < fst.trs_sp(s as int).len() implies (#[trigger] fst.trs_sp(
                            s as int,
                        )[k]).nextstate < n by {
                            if k != j {
                                assert(fst.trs_sp(s as int)[k] == prev[s as int].trs@[k]);
                            }
                        }
                    }
                    assert(fst.states@[s as int].weights_wf()) by {
                        assert(prev[s as int].weights_wf());
                        assert forall|k: int|
                            0 <= k < fst.trs_sp(s as int).len() implies (#[trigger] fst.trs_sp(
                            s as int,
                        )[k]).weight.wf() by {
                            if k != j {
                                assert(fst.trs_sp(s as int)[k] == prev[s as int].trs@[k]);
                            } else {
                                assert(prev[s as int].trs@[j as int].weight.wf());
                            }
                        }
                    }
                    assert forall|x: int|
                        0 <= x < n implies fst.final_sp(x) == old(fst).final_sp(x) by {
                        assert(fsth.final_sp(x) == old(fst).final_sp(x));
                        if x != s {
                            assert(fst.states@[x] == fsth.states@[x]);
                        } else {
                            assert(fst.states@[s as int].final_weight
                                == fsth.states@[s as int].final_weight);
                        }
                    }
                    assert forall|x: int|
                        0 <= x < n implies (#[trigger] fst.trs_sp(x)).len() == old(fst).trs_sp(
                        x,
                    ).len() by {
                        assert(fsth.trs_sp(x).len() == old(fst).trs_sp(x).len());
                        if x != s {
                            assert(fst.states@[x] == fsth.states@[x]);
                        } else {
                            assert(fst.trs_sp(s as int).len() == fsth.trs_sp(s as int).len());
                        }
                    }
                    assert forall|x: int, j2: int|
                        0 <= x < s && 0 <= j2 < old(fst).trs_sp(x).len() implies {
                            let t0 = old(fst).trs_sp(x)[j2];
                            let t1 = #[trigger] fst.trs_sp(x)[j2];
                            let l0 = side_label_sp(t0, relabel_input);
                            &&& t1.weight == t0.weight
                            &&& t1.nextstate == t0.nextstate
                            &&& side_label_sp(t1, relabel_input) == (if l0 == EPS_LABEL {
                                EPS_LABEL
                            } else {
                                self.label2index@[l0]
                            })
                            &&& (l0 != EPS_LABEL ==> self.label2index@.contains_key(l0))
                            &&& (if relabel_input {
                                t1.olabel == t0.olabel
                            } else {
                                t1.ilabel == t0.ilabel
                            })
                        } by {
                        assert(fst.states@[x] == fsth.states@[x]);
                        let t0 = old(fst).trs_sp(x)[j2];
                        let t1 = fsth.trs_sp(x)[j2];
                        let l0 = side_label_sp(t0, relabel_input);
                        assert(t1.weight == t0.weight && t1.nextstate == t0.nextstate);
                        assert(side_label_sp(t1, relabel_input) == (if l0 == EPS_LABEL {
                            EPS_LABEL
                        } else {
                            m0[l0]
                        }));
                        assert(l0 != EPS_LABEL ==> m0.contains_key(l0));
                        if l0 != EPS_LABEL {
                            assert(self.label2index@.contains_key(l0) && self.label2index@[l0]
                                == m0[l0]);
                        }
                    }
                }
                j = j + 1;
            }
            proof {
                assert forall|x: int, j2: int|
                    0 <= x < s + 1 && 0 <= j2 < old(fst).trs_sp(x).len() implies {
                        let t0 = old(fst).trs_sp(x)[j2];
                        let t1 = #[trigger] fst.trs_sp(x)[j2];
                        let l0 = side_label_sp(t0, relabel_input);
                        &&& t1.weight == t0.weight
                        &&& t1.nextstate == t0.nextstate
                        &&& side_label_sp(t1, relabel_input) == (if l0 == EPS_LABEL {
                            EPS_LABEL
                        } else {
                            self.label2index@[l0]
                        })
                        &&& (l0 != EPS_LABEL ==> self.label2index@.contains_key(l0))
                        &&& (if relabel_input {
                            t1.olabel == t0.olabel
                        } else {
                            t1.ilabel == t0.ilabel
                        })
                    } by {}
                crate::vector_fst::lemma_total_trs_nonneg(*old(fst), s as int);
            }
            s = s + 1;
        }
        let ghost mid_fst = *fst;
        let ghost m_final = self.label2index@;
        tr_sort(fst, relabel_input);
        proof {
            assert forall|x: int|
                0 <= x < n implies (#[trigger] fst.trs_sp(x)).to_multiset() == relabel_trs_sp(
                old(fst).trs_sp(x),
                m_final,
                relabel_input,
            ).to_multiset() by {
                assert(fst.trs_sp(x).to_multiset() == mid_fst.trs_sp(x).to_multiset());
                assert(mid_fst.trs_sp(x) =~= relabel_trs_sp(
                    old(fst).trs_sp(x),
                    m_final,
                    relabel_input,
                )) by {
                    assert forall|j2: int|
                        0 <= j2 < old(fst).trs_sp(x).len() implies #[trigger] mid_fst.trs_sp(
                        x,
                    )[j2] == relabel_tr_sp(
                        old(fst).trs_sp(x)[j2],
                        m_final,
                        relabel_input,
                    ) by {}
                }
            }
        }
        Ok(())
    }
}

} // verus!
