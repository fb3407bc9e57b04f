//! A vector-backed weighted transducer: a dense vector of states, each with an
//! ordered sequence of outgoing transitions and an optional final weight.

use vstd::prelude::*;
use crate::semirings::Semiring;
use crate::{FstError, Label, StateId, Tr};

verus! {

/// One state: its optional final weight and its outgoing transitions.
#[derive(Clone, Debug)]
#[verifier::ext_equal]
pub struct VectorFstState<W> {
    /// The final weight; `None` means the state is not final.
    pub final_weight: Option<W>,
    /// Outgoing transitions, in insertion (or sorted) order.
    pub trs: Vec<Tr<W>>,
}

/// A weighted transducer held in memory as a vector of states.
#[derive(Clone, Debug)]
#[verifier::ext_equal]
pub struct VectorFst<W> {
    /// The states, identified by their dense index.
    pub states: Vec<VectorFstState<W>>,
    /// The optional start state.
    pub start_state: Option<StateId>,
}

impl<W: Semiring> VectorFstState<W> {
    /// A fresh state: no final weight, no transitions.
    pub fn new() -> (r: Self)
        ensures
            r.final_weight is None,
            r.trs@.len() == 0,
    {
        VectorFstState { final_weight: None, trs: Vec::new() }
    }

    /// The number of outgoing transitions.
    pub fn num_arcs(&self) -> (r: usize)
        ensures
            r == self.trs@.len(),
    {
        self.trs.len()
    }

    /// All transition weights and the final weight are well formed.
    pub open spec fn weights_wf(self) -> bool {
        &&& (forall|i: int| 0 <= i < self.trs@.len() ==> (#[trigger] self.trs@[i]).weight.wf())
        &&& (self.final_weight is Some ==> self.final_weight->0.wf())
    }

    /// All transition targets lie below `n`.
    pub open spec fn targets_below(self, n: int) -> bool {
        forall|i: int| 0 <= i < self.trs@.len() ==> (#[trigger] self.trs@[i]).nextstate < n
    }
}

impl<W: Semiring> VectorFst<W> {
    /// The number of states, as a mathematical integer.
    pub open spec fn num_states_sp(self) -> int {
        self.states@.len() as int
    }

    /// The transitions leaving state `s`.
    pub open spec fn trs_sp(self, s: int) -> Seq<Tr<W>> {
        self.states@[s].trs@
    }

    /// The final weight of state `s`.
    pub open spec fn final_sp(self, s: int) -> Option<W> {
        self.states@[s].final_weight
    }

    /// Structural well-formedness: the start state (if any) and every
    /// transition target are valid identifiers, and all weights are well
    /// formed.
    pub open spec fn wf(self) -> bool {
        &&& (self.start_state is Some ==> self.start_state->0 < self.num_states_sp())
        &&& (forall|s: int| 0 <= s < self.num_states_sp()
            ==> (#[trigger] self.states@[s]).targets_below(self.num_states_sp()))
        &&& (forall|s: int| 0 <= s < self.num_states_sp()
            ==> (#[trigger] self.states@[s]).weights_wf())
    }

    /// An empty transducer.
    pub fn new() -> (r: Self)
        ensures
            r.num_states_sp() == 0,
            r.start_state is None,
            r.wf(),
    {
        VectorFst { states: Vec::new(), start_state: None }
    }

    /// The number of states.
    pub fn num_states(&self) -> (r: usize)
        ensures
            r == self.num_states_sp(),
    {
        self.states.len()
    }

    /// The start state, if one was set.
    pub fn start(&self) -> (r: Option<StateId>)
        ensures
            r == self.start_state,
    {
        self.start_state
    }

    /// The number of transitions leaving states `0..s`.
    pub open spec fn total_trs_upto(self, s: int) -> int
        decreases s,
    {
        if s <= 0 {
            0
        } else {
            self.total_trs_upto(s - 1) + self.trs_sp(s - 1).len()
        }
    }

    /// The total number of transitions.
    pub open spec fn total_trs_sp(self) -> int {
        self.total_trs_upto(self.num_states_sp())
    }

    /// The total number of transitions, summed over the states.
    pub fn num_arcs(&self) -> (r: usize)
        requires
            self.wf(),
            self.total_trs_sp() <= usize::MAX,
        ensures
            r == self.total_trs_sp(),
    {
        let n = self.states.len();
        let mut acc: usize = 0;
        let mut s: usize = 0;
        while s < n
            invariant
                self.wf(),
                self.total_trs_sp() <= usize::MAX,
                n == self.num_states_sp(),
                s <= n,
                acc == self.total_trs_upto(s as int),
            decreases n - s,
        {
            proof {
                lemma_total_trs_mono(*self, s + 1, n as int);
            }
            acc = acc + self.states[s].trs.len();
            s = s + 1;
        }
        acc
    }

    /// The total number of transitions, or `None` where the sum exceeds the
    /// machine bound.
    pub fn num_arcs_checked(&self) -> (r: Option<usize>)
        requires
            self.wf(),
        ensures
            r is Some <==> self.total_trs_sp() <= usize::MAX,
            r is Some ==> r->0 == self.total_trs_sp(),
    {
        let n = self.states.len();
        let mut acc: usize = 0;
        let mut s: usize = 0;
        while s < n
            invariant
                self.wf(),
                n == self.num_states_sp(),
                s <= n,
                acc == self.total_trs_upto(s as int),
            decreases n - s,
        {
            match acc.checked_add(self.states[s].trs.len()) {
                Some(v) => {
                    acc = v;
                },
                None => {
                    proof {
                        lemma_total_trs_mono(*self, s + 1, self.num_states_sp());
                    }
                    return None;
                },
            }
            s = s + 1;
        }
        Some(acc)
    }

    /// Appends a fresh state and returns its identifier.
    pub fn add_state(&mut self) -> (r: StateId)
        requires
            old(self).wf(),
        ensures
            r == old(self).num_states_sp(),
            final(self).num_states_sp() == old(self).num_states_sp() + 1,
            final(self).start_state == old(self).start_state,
            forall|s: int| 0 <= s < old(self).num_states_sp()
                ==> final(self).states@[s] == old(self).states@[s],
            final(self).final_sp(r as int) is None,
            final(self).trs_sp(r as int).len() == 0,
            final(self).wf(),
    {
        let id = self.states.len();
        self.states.push(VectorFstState::new());
        id
    }

    /// Sets the start state; rejects an identifier out of range.
    pub fn set_start(&mut self, state_id: StateId) -> (r: Result<(), FstError>)
        requires
            old(self).wf(),
        ensures
            r is Ok <==> state_id < old(self).num_states_sp(),
            r is Ok ==> final(self).start_state == Some(state_id) && final(self).states@ == old(self).states@,
            r is Err ==> *final(self) == *old(self) && r == Err::<(), FstError>(
                FstError::StateOutOfRange(state_id),
            ),
            final(self).wf(),
    {
        if state_id < self.states.len() {
            self.start_state = Some(state_id);
            Ok(())
        } else {
            Err(FstError::StateOutOfRange(state_id))
        }
    }

    /// Sets the final weight of a state; rejects an identifier out of range.
    pub fn set_final(&mut self, state_id: StateId, final_weight: W) -> (r: Result<(), FstError>)
        requires
            old(self).wf(),
            final_weight.wf(),
        ensures
            r is Ok <==> state_id < old(self).num_states_sp(),
            r is Ok ==> {
                &&& final(self).num_states_sp() == old(self).num_states_sp()
                &&& final(self).start_state == old(self).start_state
                &&& final(self).final_sp(state_id as int) == Some(final_weight)
                &&& final(self).trs_sp(state_id as int) == old(self).trs_sp(state_id as int)
                &&& forall|s: int|
                    0 <= s < old(self).num_states_sp() && s != state_id ==> final(self).states@[s] == old(self).states@[s]
            },
            r is Err ==> *final(self) == *old(self) && r == Err::<(), FstError>(
                FstError::StateOutOfRange(state_id),
            ),
            final(self).wf(),
    {
        if state_id < self.states.len() {
            let st = &mut self.states[state_id];
            st.final_weight = Some(final_weight);
            Ok(())
        } else {
            Err(FstError::StateOutOfRange(state_id))
        }
    }

    /// Removes the final weight of a state; rejects an identifier out of range.
    pub fn delete_final_weight(&mut self, state_id: StateId) -> (r: Result<(), FstError>)
        requires
            old(self).wf(),
        ensures
            r is Ok <==> state_id < old(self).num_states_sp(),
            r is Ok ==> {
                &&& final(self).num_states_sp() == old(self).num_states_sp()
                &&& final(self).start_state == old(self).start_state
                &&& final(self).final_sp(state_id as int) is None
                &&& final(self).trs_sp(state_id as int) == old(self).trs_sp(state_id as int)
                &&& forall|s: int|
                    0 <= s < old(self).num_states_sp() && s != state_id ==> final(self).states@[s] == old(self).states@[s]
            },
            r is Err ==> *final(self) == *old(self),
            final(self).wf(),
    {
        if state_id < self.states.len() {
            let st = &mut self.states[state_id];
            st.final_weight = None;
            Ok(())
        } else {
            Err(FstError::StateOutOfRange(state_id))
        }
    }

    /// The final weight of a state; rejects an identifier out of range.
    pub fn final_weight(&self, state_id: StateId) -> (r: Result<Option<W>, FstError>)
        ensures
            r is Ok <==> state_id < self.num_states_sp(),
            r is Ok ==> r->Ok_0 == self.final_sp(state_id as int),
            r is Err ==> r == Err::<Option<W>, FstError>(FstError::StateOutOfRange(state_id)),
    {
        if state_id < self.states.len() {
            Ok(self.states[state_id].final_weight)
        } else {
            Err(FstError::StateOutOfRange(state_id))
        }
    }

    /// Whether a state carries a final weight. A state out of range is not final.
    pub fn is_final(&self, state_id: StateId) -> (r: bool)
        ensures
            r <==> (state_id < self.num_states_sp() && self.final_sp(state_id as int) is Some),
    {
        if state_id < self.states.len() {
            self.states[state_id].final_weight.is_some()
        } else {
            false
        }
    }

    /// The number of transitions leaving a state.
    pub fn num_trs(&self, s: StateId) -> (r: Result<usize, FstError>)
        ensures
            r is Ok <==> s < self.num_states_sp(),
            r is Ok ==> r->Ok_0 == self.trs_sp(s as int).len(),
            r is Err ==> r == Err::<usize, FstError>(FstError::StateOutOfRange(s)),
    {
        if s < self.states.len() {
            Ok(self.states[s].trs.len())
        } else {
            Err(FstError::StateOutOfRange(s))
        }
    }

    /// The transitions leaving a state.
    pub fn get_trs(&self, state_id: StateId) -> (r: Result<&Vec<Tr<W>>, FstError>)
        ensures
            r is Ok <==> state_id < self.num_states_sp(),
            r is Ok ==> r->Ok_0@ == self.trs_sp(state_id as int),
            r is Err ==> r == Err::<&Vec<Tr<W>>, FstError>(FstError::StateOutOfRange(state_id)),
    {
        if state_id < self.states.len() {
            Ok(&self.states[state_id].trs)
        } else {
            Err(FstError::StateOutOfRange(state_id))
        }
    }

    /// Appends a transition to a state. Both the source and the target must be
    /// valid identifiers, so that every stored transition keeps a valid target.
    pub fn add_tr(&mut self, state: StateId, tr: Tr<W>) -> (r: Result<(), FstError>)
        requires
            old(self).wf(),
            tr.weight.wf(),
        ensures
            r is Ok <==> (state < old(self).num_states_sp() && tr.nextstate < old(self).num_states_sp()),
            r is Ok ==> {
                &&& final(self).num_states_sp() == old(self).num_states_sp()
                &&& final(self).start_state == old(self).start_state
                &&& final(self).trs_sp(state as int) == old(self).trs_sp(state as int).push(tr)
                &&& final(self).final_sp(state as int) == old(self).final_sp(state as int)
                &&& forall|s: int|
                    0 <= s < old(self).num_states_sp() && s != state ==> final(self).states@[s]
                        == old(self).states@[s]
            },
            r is Err ==> *final(self) == *old(self),
            final(self).wf(),
    {
        if state < self.states.len() && tr.nextstate < self.states.len() {
            let st = &mut self.states[state];
            st.trs.push(tr);
            Ok(())
        } else {
            Err(FstError::StateOutOfRange(if state < self.states.len() {
                tr.nextstate
            } else {
                state
            }))
        }
    }
}

/// The running transition count is never negative.
pub proof fn lemma_total_trs_nonneg<W: Semiring>(fst: VectorFst<W>, a: int)
    ensures
        fst.total_trs_upto(a) >= 0,
    decreases a,
{
    if a > 0 {
        lemma_total_trs_nonneg(fst, a - 1);
    }
}

/// The running transition count is monotone in the state prefix.
pub proof fn lemma_total_trs_mono<W: Semiring>(fst: VectorFst<W>, a: int, b: int)
    requires
        a <= b,
    ensures
        fst.total_trs_upto(a) <= fst.total_trs_upto(b),
    decreases b - a,
{
    if a < b {
        lemma_total_trs_mono(fst, a, b - 1);
    }
}

/// The number of kept entries of `keep` strictly below `upto`: the new
/// identifier of a surviving state under deletion-renumbering.
pub open spec fn count_kept(keep: Seq<bool>, upto: int) -> int
    decreases upto,
{
    if upto <= 0 {
        0
    } else {
        count_kept(keep, upto - 1) + if keep[upto - 1] {
            1int
        } else {
            0int
        }
    }
}

/// `count_kept` stays between 0 and `upto`.
pub proof fn lemma_count_kept_le(keep: Seq<bool>, upto: int)
    requires
        0 <= upto <= keep.len(),
    ensures
        0 <= count_kept(keep, upto) <= upto,
    decreases upto,
{
    if upto > 0 {
        lemma_count_kept_le(keep, upto - 1);
    }
}

/// `count_kept` is monotone, strictly so from a kept position.
pub proof fn lemma_count_kept_mono(keep: Seq<bool>, a: int, b: int)
    requires
        0 <= a <= b <= keep.len(),
    ensures
        count_kept(keep, a) <= count_kept(keep, b),
        a < b && keep[a] ==> count_kept(keep, a) < count_kept(keep, b),
    decreases b - a,
{
    if a < b {
        lemma_count_kept_mono(keep, a + 1, b);
    }
}

/// Where every entry below `upto` is kept, ranks are identities.
pub proof fn lemma_count_kept_prefix_true(keep: Seq<bool>, upto: int)
    requires
        0 <= upto <= keep.len(),
        forall|i: int| 0 <= i < upto ==> keep[i],
    ensures
        count_kept(keep, upto) == upto,
    decreases upto,
{
    if upto > 0 {
        lemma_count_kept_prefix_true(keep, upto - 1);
    }
}

/// The transitions that survive deletion-renumbering under `keep`: those with
/// a kept target, their targets replaced by the targets' new identifiers.
pub open spec fn map_trs_spec<W: Semiring>(trs: Seq<Tr<W>>, keep: Seq<bool>) -> Seq<Tr<W>>
    decreases trs.len(),
{
    if trs.len() == 0 {
        Seq::empty()
    } else {
        let rest = map_trs_spec(trs.drop_last(), keep);
        let t = trs.last();
        if 0 <= t.nextstate < keep.len() && keep[t.nextstate as int] {
            rest.push(
                Tr {
                    ilabel: t.ilabel,
                    olabel: t.olabel,
                    weight: t.weight,
                    nextstate: count_kept(keep, t.nextstate as int) as usize,
                },
            )
        } else {
            rest
        }
    }
}

/// Where every transition's target is kept with an identity rank, the
/// filtered-renumbered transitions are the transitions themselves.
pub proof fn lemma_map_trs_identity<W: Semiring>(trs: Seq<Tr<W>>, keep: Seq<bool>)
    requires
        forall|i: int|
            0 <= i < trs.len() ==> 0 <= (#[trigger] trs[i]).nextstate < keep.len() && keep[trs[i].nextstate as int] && count_kept(keep, trs[i].nextstate as int) == trs[i].nextstate,
    ensures
        map_trs_spec(trs, keep) =~= trs,
    decreases trs.len(),
{
    if trs.len() > 0 {
        lemma_map_trs_identity(trs.drop_last(), keep);
        let t = trs.last();
        assert(map_trs_spec(trs, keep) == map_trs_spec(trs.drop_last(), keep).push(
            (Tr {
                ilabel: t.ilabel,
                olabel: t.olabel,
                weight: t.weight,
                nextstate: count_kept(keep, t.nextstate as int) as usize,
            }),
        ));
        assert(count_kept(keep, t.nextstate as int) as usize == t.nextstate);
    }
}

impl<W: Semiring> VectorFst<W> {
    /// The deletion-renumbering relation between this transducer and a prior
    /// value of it: exactly the states picked by `keep` survive, in order,
    /// with their transitions filtered to kept targets and renumbered, and
    /// the start state renumbered or cleared.
    pub open spec fn is_deletion_of(self, orig: Self, keep: Seq<bool>) -> bool {
        &&& keep.len() == orig.num_states_sp()
        &&& self.num_states_sp() == count_kept(keep, orig.num_states_sp())
        &&& (forall|s: int|
            0 <= s < orig.num_states_sp() && keep[s] ==> {
                &&& self.final_sp(#[trigger] count_kept(keep, s)) == orig.final_sp(s)
                &&& self.trs_sp(count_kept(keep, s)) == map_trs_spec(orig.trs_sp(s), keep)
            })
        &&& self.start_state == (match orig.start_state {
            Option::None => Option::<StateId>::None,
            Option::Some(s0) => if keep[s0 as int] {
                Option::Some(count_kept(keep, s0 as int) as usize)
            } else {
                Option::<StateId>::None
            },
        })
    }

    /// Deletes the listed states, renumbering the survivors monotonically.
    /// Transitions into a deleted state are dropped. Fails, without changing
    /// anything, iff some listed state is out of range.
    pub fn del_states(&mut self, dstates: Vec<StateId>) -> (r: Result<(), FstError>)
        requires
            old(self).wf(),
        ensures
            r is Ok <==> (forall|i: int|
                0 <= i < dstates@.len() ==> (#[trigger] dstates@[i]) < old(self).num_states_sp()),
            r is Ok ==> final(self).is_deletion_of(
                *old(self),
                Seq::new(
                    old(self).num_states_sp() as nat,
                    |i: int| !dstates@.contains(i as usize),
                ),
            ),
            r is Err ==> *final(self) == *old(self),
            final(self).wf(),
    {
        let n = self.states.len();
        let ghost keep_sp = Seq::new(
            old(self).num_states_sp() as nat,
            |i: int| !dstates@.contains(i as usize),
        );
        let mut di: usize = 0;
        while di < dstates.len()
            invariant
                *self == *old(self),
                self.wf(),
                n == old(self).num_states_sp(),
                di <= dstates@.len(),
                forall|i: int| 0 <= i < di ==> (#[trigger] dstates@[i]) < n,
            decreases dstates@.len() - di,
        {
            if dstates[di] >= n {
                return Err(FstError::StateOutOfRange(dstates[di]));
            }
            di = di + 1;
        }
        let mut keep: Vec<bool> = Vec::new();
        while keep.len() < n
            invariant
                keep@.len() <= n,
                forall|i: int| 0 <= i < keep@.len() ==> keep@[i],
            decreases n - keep@.len(),
        {
            keep.push(true);
        }
        let mut di: usize = 0;
        while di < dstates.len()
            invariant
                n == old(self).num_states_sp(),
                di <= dstates@.len(),
                keep@.len() == n,
                forall|i: int| 0 <= i < dstates@.len() ==> (#[trigger] dstates@[i]) < n,
                forall|i: int|
                    0 <= i < n ==> (keep@[i] <==> !dstates@.subrange(0, di as int).contains(
                        i as usize,
                    )),
            decreases dstates@.len() - di,
        {
            let d = dstates[di];
            keep.set(d, false);
            proof {
                assert(dstates@.subrange(0, di + 1) =~= dstates@.subrange(0, di as int).push(
                    dstates@[di as int],
                ));
                assert forall|i: int| 0 <= i < n implies (keep@[i] <==> !dstates@.subrange(
                    0,
                    di + 1,
                ).contains(i as usize)) by {
                    let pre = dstates@.subrange(0, di as int);
                    if i == d {
                        assert(dstates@.subrange(0, di + 1).last() == i as usize);
                        assert(dstates@.subrange(0, di + 1).contains(i as usize));
                    } else {
                        assert forall|x: usize| pre.push(d).contains(x) && x != d implies
                            pre.contains(x) by {
                            let k = choose|k: int|
                                0 <= k < pre.push(d).len() && pre.push(d)[k] == x;
                            assert(pre[k] == x);
                        }
                        assert forall|x: usize| pre.contains(x) implies pre.push(d).contains(
                            x,
                        ) by {
                            let k = choose|k: int| 0 <= k < pre.len() && pre[k] == x;
                            assert(pre.push(d)[k] == x);
                        }
                    }
                }
            }
            di = di + 1;
        }
        proof {
            assert(dstates@.subrange(0, dstates@.len() as int) =~= dstates@);
            assert(keep@ =~= keep_sp);
        }
        let mut newid: Vec<usize> = Vec::new();
        let mut cnt: usize = 0;
        let mut i: usize = 0;
        while i < n
            invariant
                keep@.len() == n,
                i <= n,
                newid@.len() == i,
                cnt == count_kept(keep@, i as int),
                cnt <= i,
                forall|x: int| 0 <= x < i ==> (#[trigger] newid@[x]) == count_kept(keep@, x),
            decreases n - i,
        {
            newid.push(cnt);
            if keep[i] {
                cnt = cnt + 1;
            }
            i = i + 1;
        }
        let total = cnt;
        let mut new_states: Vec<VectorFstState<W>> = Vec::new();
        let mut s: usize = 0;
        while s < n
            invariant
                self.wf(),
                *self == *old(self),
                n == old(self).num_states_sp(),
                keep@.len() == n,
                keep@ == keep_sp,
                s <= n,
                total == count_kept(keep@, n as int),
                newid@.len() == n,
                forall|x: int| 0 <= x < n ==> (#[trigger] newid@[x]) == count_kept(keep@, x),
                new_states@.len() == count_kept(keep@, s as int),
                forall|x: int|
                    0 <= x < s && keep@[x] ==> {
                        &&& 0 <= count_kept(keep@, x) < new_states@.len()
                        &&& (#[trigger] new_states@[count_kept(keep@, x)]).final_weight
                            == old(self).final_sp(x)
                        &&& new_states@[count_kept(keep@, x)].trs@ == map_trs_spec(
                            old(self).trs_sp(x),
                            keep@,
                        )
                    },
                forall|x: int, k: int|
                    0 <= x < new_states@.len() && 0 <= k < new_states@[x].trs@.len() ==> (
                    #[trigger] new_states@[x].trs@[k]).nextstate < total
                        && new_states@[x].trs@[k].weight.wf(),
                forall|x: int|
                    0 <= x < new_states@.len() ==> ((#[trigger] new_states@[x]).final_weight
                        is Some ==> new_states@[x].final_weight->0.wf()),
            decreases n - s,
        {
            proof {
                lemma_count_kept_le(keep@, s as int);
            }
            if keep[s] {
                let deg = self.states[s].trs.len();
                let mut new_trs: Vec<Tr<W>> = Vec::new();
                let mut j: usize = 0;
                while j < deg
                    invariant
                        self.wf(),
                        *self == *old(self),
                        n == old(self).num_states_sp(),
                        keep@.len() == n,
                        s < n,
                        deg == self.trs_sp(s as int).len(),
                        j <= deg,
                        total == count_kept(keep@, n as int),
                        newid@.len() == n,
                        forall|x: int|
                            0 <= x < n ==> (#[trigger] newid@[x]) == count_kept(keep@, x),
                        new_trs@ == map_trs_spec(
                            self.trs_sp(s as int).subrange(0, j as int),
                            keep@,
                        ),
                        forall|k: int|
                            0 <= k < new_trs@.len() ==> (#[trigger] new_trs@[k]).nextstate < total
                                && new_trs@[k].weight.wf(),
                    decreases deg - j,
                {
                    let tr = self.states[s].trs[j];
                    let ghost prefix = self.trs_sp(s as int).subrange(0, j as int);
                    proof {
                        assert(self.trs_sp(s as int).subrange(0, j + 1).drop_last() =~= prefix);
                        assert(self.trs_sp(s as int).subrange(0, j + 1).last() == tr);
                        assert(self.states@[s as int].targets_below(n as int));
                        assert(self.states@[s as int].weights_wf());
                        assert(tr.nextstate < n);
                        assert(tr.weight.wf());
                    }
                    if keep[tr.nextstate] {
                        proof {
                            lemma_count_kept_mono(keep@, tr.nextstate as int, n as int);
                        }
                        let nt = Tr {
                            ilabel: tr.ilabel,
                            olabel: tr.olabel,
                            weight: tr.weight,
                            nextstate: newid[tr.nextstate],
                        };
                        new_trs.push(nt);
                    }
                    j = j + 1;
                }
                proof {
                    assert(self.trs_sp(s as int).subrange(0, deg as int) =~= self.trs_sp(
                        s as int,
                    ));
                    lemma_count_kept_mono(keep@, s as int, n as int);
                }
                let fw = self.states[s].final_weight;
                let ghost prev_states = new_states@;
                new_states.push(VectorFstState { final_weight: fw, trs: new_trs });
                proof {
                    assert forall|x: int| 0 <= x < s + 1 && keep@[x] implies {
                        &&& 0 <= count_kept(keep@, x) < new_states@.len()
                        &&& (#[trigger] new_states@[count_kept(keep@, x)]).final_weight == old(
                            self,
                        ).final_sp(x)
                        &&& new_states@[count_kept(keep@, x)].trs@ == map_trs_spec(
                            old(self).trs_sp(x),
                            keep@,
                        )
                    } by {
                        if x < s {
                            lemma_count_kept_mono(keep@, x, s as int);
                            assert(new_states@[count_kept(keep@, x)] == prev_states[count_kept(
                                keep@,
                                x,
                            )]);
                        } else {
                            assert(count_kept(keep@, s + 1) == count_kept(keep@, s as int) + 1);
                            assert(new_states@[count_kept(keep@, x)] == new_states@.last());
                        }
                    }
                }
            }
            s = s + 1;
        }
        proof {
            lemma_count_kept_le(keep@, n as int);
        }
        let new_start: Option<StateId> = match self.start_state {
            Option::None => Option::None,
            Option::Some(s0) => {
                if keep[s0] {
                    Option::Some(newid[s0])
                } else {
                    Option::None
                }
            },
        };
        proof {
            if self.start_state is Some {
                let s0 = self.start_state->0;
                if keep@[s0 as int] {
                    lemma_count_kept_mono(keep@, s0 as int, n as int);
                }
            }
        }
        self.states = new_states;
        self.start_state = new_start;
        Ok(())
    }

    /// Deletes one state; transitions into it are dropped and the later
    /// states are renumbered down by one.
    pub fn del_state(&mut self, state_to_remove: StateId)
        requires
            old(self).wf(),
            state_to_remove < old(self).num_states_sp(),
        ensures
            final(self).is_deletion_of(
                *old(self),
                Seq::new(old(self).num_states_sp() as nat, |i: int| i != state_to_remove),
            ),
            final(self).wf(),
    {
        let nn = self.states.len();
        let ghost n = old(self).num_states_sp();
        proof {
            assert(n == nn as int);
        }
        let mut ds: Vec<StateId> = Vec::new();
        ds.push(state_to_remove);
        let ghost dv = ds@;
        let r = self.del_states(ds);
        proof {
            assert(r is Ok);
            assert(dv.len() == 1);
            assert(dv[0] == state_to_remove);
            let k1 = Seq::new(n as nat, |i: int| !dv.contains(i as usize));
            let k2 = Seq::new(n as nat, |i: int| i != state_to_remove);
            assert forall|i: int| 0 <= i < n implies #[trigger] k1[i] == k2[i] by {
                assert(k1[i] == !dv.contains(i as usize));
                assert(k2[i] == (i != state_to_remove));
                if i == state_to_remove {
                    assert(dv[0] == i as usize);
                    assert(dv.contains(i as usize));
                } else {
                    assert(!dv.contains(i as usize)) by {
                        if dv.contains(i as usize) {
                            let kk = choose|kk: int| 0 <= kk < dv.len() && dv[kk] == i as usize;
                            assert(dv[kk] == i as usize);
                            assert(kk == 0);
                            assert(i as usize == state_to_remove);
                            assert(false);
                        }
                    }
                }
            }
            assert(k1 =~= k2);
        }
    }
}

/// An iterator-style cursor over the transitions of one state, by copy.
pub struct VectorArcIterator<W> {
    /// A copy of the iterated state.
    pub state: VectorFstState<W>,
    /// The position of the next transition.
    pub arcindex: usize,
}

impl<W: Semiring> VectorArcIterator<W> {
    /// The next transition, if any.
    pub fn next(&mut self) -> (r: Option<Tr<W>>)
        ensures
            final(self).state == old(self).state,
            old(self).arcindex < old(self).state.trs@.len() ==> r == Some(
                old(self).state.trs@[old(self).arcindex as int],
            ) && final(self).arcindex == old(self).arcindex + 1,
            old(self).arcindex >= old(self).state.trs@.len() ==> r is None,
    {
        let i = self.arcindex;
        if i < self.state.trs.len() {
            let tr = self.state.trs[i];
            self.arcindex = i + 1;
            Some(tr)
        } else {
            if i < usize::MAX {
                self.arcindex = i + 1;
            }
            None
        }
    }

    /// How many transitions remain.
    pub fn count(self) -> (r: usize)
        ensures
            self.arcindex <= self.state.trs@.len() ==> r == self.state.trs@.len()
                - self.arcindex,
            self.arcindex > self.state.trs@.len() ==> r == 0,
    {
        let len = self.state.trs.len();
        if self.arcindex <= len {
            len - self.arcindex
        } else {
            0
        }
    }
}

impl<W: Semiring> VectorFst<W> {
    /// A cursor over the transitions of a state.
    pub fn arc_iter(&self, state_id: StateId) -> (r: Result<VectorArcIterator<W>, FstError>)
        requires
            self.wf(),
        ensures
            r is Ok <==> state_id < self.num_states_sp(),
            r is Ok ==> r->Ok_0.state.trs@ == self.trs_sp(state_id as int) && r->Ok_0.arcindex
                == 0,
    {
        if state_id < self.states.len() {
            let st = &self.states[state_id];
            let mut trs: Vec<Tr<W>> = Vec::new();
            let mut j: usize = 0;
            while j < st.trs.len()
                invariant
                    st.trs@ == self.trs_sp(state_id as int),
                    state_id < self.num_states_sp(),
                    j <= st.trs@.len(),
                    trs@ =~= st.trs@.subrange(0, j as int),
                decreases st.trs@.len() - j,
            {
                trs.push(st.trs[j]);
                proof {
                    assert(trs@ =~= st.trs@.subrange(0, j + 1));
                }
                j = j + 1;
            }
            proof {
                assert(st.trs@.subrange(0, st.trs@.len() as int) =~= st.trs@);
            }
            let fw = st.final_weight;
            Ok(VectorArcIterator { state: VectorFstState { final_weight: fw, trs }, arcindex: 0 })
        } else {
            Err(FstError::StateOutOfRange(state_id))
        }
    }

    /// Appends a transition built from its four components (the older call
    /// shape).
    pub fn add_arc(
        &mut self,
        source: StateId,
        target: StateId,
        ilabel: Label,
        olabel: Label,
        weight: W,
    ) -> (r: Result<(), FstError>)
        requires
            old(self).wf(),
            weight.wf(),
        ensures
            r is Ok <==> (source < old(self).num_states_sp() && target < old(
                self,
            ).num_states_sp()),
            r is Ok ==> {
                &&& final(self).num_states_sp() == old(self).num_states_sp()
                &&& final(self).start_state == old(self).start_state
                &&& final(self).trs_sp(source as int) == old(self).trs_sp(source as int).push(
                    (Tr { ilabel, olabel, weight, nextstate: target }),
                )
                &&& final(self).final_sp(source as int) == old(self).final_sp(source as int)
                &&& forall|s: int|
                    0 <= s < old(self).num_states_sp() && s != source ==> final(self).states@[s]
                        == old(self).states@[s]
            },
            r is Err ==> *final(self) == *old(self),
            final(self).wf(),
    {
        self.add_tr(source, Tr { ilabel, olabel, weight, nextstate: target })
    }

    /// Two transducers are equal when they have the same start state and the
    /// same states: equal final weights and equal transition sequences.
    pub open spec fn fst_eq_sp(self, other: Self) -> bool {
        &&& self.start_state == other.start_state
        &&& self.num_states_sp() == other.num_states_sp()
        &&& (forall|s: int|
            0 <= s < self.num_states_sp() ==> self.final_sp(s) == other.final_sp(s))
        &&& (forall|s: int| 0 <= s < self.num_states_sp() ==> self.trs_sp(s) == other.trs_sp(s))
    }
}

impl<W: Semiring> PartialEq for VectorFst<W> {
    fn eq(&self, other: &Self) -> (r: bool) {
        let sa = self.start();
        let sb = other.start();
        let starts_equal = match (sa, sb) {
            (Option::None, Option::None) => true,
            (Option::Some(a), Option::Some(b)) => a == b,
            _ => false,
        };
        if !starts_equal {
            return false;
        }
        let n = self.states.len();
        if n != other.states.len() {
            return false;
        }
        let mut s: usize = 0;
        while s < n
            invariant
                n == self.num_states_sp(),
                n == other.num_states_sp(),
                s <= n,
                forall|x: int| 0 <= x < s ==> #[trigger] self.final_sp(x) == other.final_sp(x),
                forall|x: int| 0 <= x < s ==> #[trigger] self.trs_sp(x) == other.trs_sp(x),
            decreases n - s,
        {
            let fa = &self.states[s].final_weight;
            let fb = &other.states[s].final_weight;
            let finals_equal = match (fa, fb) {
                (Option::None, Option::None) => true,
                (Option::Some(a), Option::Some(b)) => a.weight_eq(b),
                _ => false,
            };
            if !finals_equal {
                proof {
                    assert(self.final_sp(s as int) != other.final_sp(s as int));
                }
                return false;
            }
            proof {
                assert(self.final_sp(s as int) == other.final_sp(s as int));
            }
            let ta = &self.states[s].trs;
            let tb = &other.states[s].trs;
            if ta.len() != tb.len() {
                proof {
                    assert(self.trs_sp(s as int).len() != other.trs_sp(s as int).len());
                }
                return false;
            }
            let mut j: usize = 0;
            while j < ta.len()
                invariant
                    ta@ == self.trs_sp(s as int),
                    tb@ == other.trs_sp(s as int),
                    s < self.num_states_sp(),
                    s < other.num_states_sp(),
                    ta@.len() == tb@.len(),
                    j <= ta@.len(),
                    forall|k: int| 0 <= k < j ==> #[trigger] ta@[k] == tb@[k],
                decreases ta@.len() - j,
            {
                let x = ta[j];
                let y = tb[j];
                if x.ilabel != y.ilabel || x.olabel != y.olabel || x.nextstate != y.nextstate
                    || !x.weight.weight_eq(&y.weight) {
                    proof {
                        assert(self.trs_sp(s as int)[j as int] != other.trs_sp(
                            s as int,
                        )[j as int]);
                        assert(self.trs_sp(s as int) != other.trs_sp(s as int));
                    }
                    return false;
                }
                j = j + 1;
            }
            proof {
                assert(ta@ =~= tb@);
                assert(self.trs_sp(s as int) == other.trs_sp(s as int));
                assert forall|x: int|
                    0 <= x < s + 1 implies #[trigger] self.final_sp(x) == other.final_sp(
                    x,
                ) by {
                    if x == s {
                        assert(self.final_sp(s as int) == other.final_sp(s as int));
                    }
                }
                assert forall|x: int|
                    0 <= x < s + 1 implies #[trigger] self.trs_sp(x) == other.trs_sp(x) by {
                    if x == s {
                        assert(self.trs_sp(s as int) == other.trs_sp(s as int));
                    }
                }
            }
            s = s + 1;
        }
        true
    }
}

impl<W: Semiring> vstd::std_specs::cmp::PartialEqSpecImpl for VectorFst<W> {
    open spec fn obeys_eq_spec() -> bool {
        true
    }

    open spec fn eq_spec(&self, other: &Self) -> bool {
        self.fst_eq_sp(*other)
    }
}

} // verus!


