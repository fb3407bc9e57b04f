//! Deduplication of transitions: orders the transitions of a state by
//! `(ilabel, olabel, nextstate)` and collapses equal-key runs, combining their
//! weights with the semiring plus.

use vstd::prelude::*;
use vstd::seq_lib::group_to_multiset_ensures;
use std::cmp::Ordering;
use crate::algorithms::tr_sort::{lemma_insert_multiset, lemma_perm_trs_wf};
use crate::semirings::Semiring;
use crate::vector_fst::VectorFst;
use crate::{FstError, StateId, Tr};

verus! {

/// Two transitions agree on input label, output label and target.
pub open spec fn tr_key_eq<W>(a: Tr<W>, b: Tr<W>) -> bool {
    a.ilabel == b.ilabel && a.olabel == b.olabel && a.nextstate == b.nextstate
}

/// Lexicographic order on `(ilabel, olabel, nextstate)`.
pub open spec fn tr_key_le<W>(a: Tr<W>, b: Tr<W>) -> bool {
    ||| a.ilabel < b.ilabel
    ||| (a.ilabel == b.ilabel && a.olabel < b.olabel)
    ||| (a.ilabel == b.ilabel && a.olabel == b.olabel && a.nextstate <= b.nextstate)
}

/// Strict lexicographic order on the key.
pub open spec fn tr_key_lt<W>(a: Tr<W>, b: Tr<W>) -> bool {
    tr_key_le(a, b) && !tr_key_eq(a, b)
}

/// The transitions are non-decreasing in the full key.
pub open spec fn sorted_by_key<W>(s: Seq<Tr<W>>) -> bool {
    forall|i: int, j: int| 0 <= i < j < s.len() ==> tr_key_le(#[trigger] s[i], #[trigger] s[j])
}

/// No two transitions share a key.
pub open spec fn unique_keys<W>(s: Seq<Tr<W>>) -> bool {
    forall|i: int, j: int| 0 <= i < j < s.len() ==> !tr_key_eq(#[trigger] s[i], #[trigger] s[j])
}

/// Compares two transitions by `(ilabel, olabel, nextstate)`, ignoring the
/// weight.
pub fn tr_compare<W: Semiring>(tr_1: &Tr<W>, tr_2: &Tr<W>) -> (r: Ordering)
    ensures
        r == Ordering::Equal <==> tr_key_eq(*tr_1, *tr_2),
        r == Ordering::Less <==> tr_key_lt(*tr_1, *tr_2),
        r == Ordering::Greater <==> !tr_key_le(*tr_1, *tr_2),
{
    if tr_1.ilabel < tr_2.ilabel {
        return Ordering::Less;
    }
    if tr_1.ilabel > tr_2.ilabel {
        return Ordering::Greater;
    }
    if tr_1.olabel < tr_2.olabel {
        return Ordering::Less;
    }
    if tr_1.olabel > tr_2.olabel {
        return Ordering::Greater;
    }
    if tr_1.nextstate < tr_2.nextstate {
        return Ordering::Less;
    }
    if tr_1.nextstate > tr_2.nextstate {
        return Ordering::Greater;
    }
    Ordering::Equal
}

/// Stable insertion into a key-sorted sequence: the new entry lands after
/// every entry whose key is at most its own.
pub open spec fn insert_sorted<W: Semiring>(acc: Seq<Tr<W>>, t: Tr<W>) -> Seq<Tr<W>>
    decreases acc.len(),
{
    if acc.len() > 0 && !tr_key_le(acc.last(), t) {
        insert_sorted(acc.drop_last(), t).push(acc.last())
    } else {
        acc.push(t)
    }
}

/// The stable key-sort of a transition sequence: each entry, in order,
/// inserted at its stable position.
pub open spec fn sort_by_key_sp<W: Semiring>(s: Seq<Tr<W>>) -> Seq<Tr<W>>
    decreases s.len(),
{
    if s.len() == 0 {
        Seq::empty()
    } else {
        insert_sorted(sort_by_key_sp(s.drop_last()), s.last())
    }
}

/// On a sorted sequence, stable insertion is insertion at the first position
/// whose key exceeds the new entry's.
proof fn lemma_insert_sorted_at<W: Semiring>(acc: Seq<Tr<W>>, t: Tr<W>, p: int)
    requires
        sorted_by_key(acc),
        0 <= p <= acc.len(),
        forall|k: int| 0 <= k < p ==> tr_key_le(#[trigger] acc[k], t),
        forall|k: int| p <= k < acc.len() ==> !tr_key_le(#[trigger] acc[k], t),
    ensures
        insert_sorted(acc, t) == acc.subrange(0, p) + seq![t] + acc.subrange(
            p,
            acc.len() as int,
        ),
    decreases acc.len(),
{
    if acc.len() > 0 && !tr_key_le(acc.last(), t) {
        assert(p <= acc.len() - 1);
        assert(sorted_by_key(acc.drop_last()));
        lemma_insert_sorted_at(acc.drop_last(), t, p);
        assert(insert_sorted(acc, t) =~= acc.subrange(0, p) + seq![t] + acc.subrange(
            p,
            acc.len() as int,
        )) by {
            assert(acc.drop_last().subrange(0, p) =~= acc.subrange(0, p));
            assert(acc.drop_last().subrange(p, acc.len() - 1) =~= acc.subrange(
                p,
                acc.len() - 1,
            ));
        }
    } else {
        assert(p == acc.len()) by {
            if p < acc.len() {
                assert(!tr_key_le(acc[acc.len() - 1], t));
            }
        }
        assert(insert_sorted(acc, t) == acc.push(t));
        assert(acc.push(t) =~= acc.subrange(0, p) + seq![t] + acc.subrange(
            p,
            acc.len() as int,
        ));
    }
}

/// The stable key-sort is key-sorted and a permutation of its input.
pub proof fn lemma_sort_by_key_sp_props<W: Semiring>(s: Seq<Tr<W>>)
    ensures
        sorted_by_key(sort_by_key_sp(s)),
        sort_by_key_sp(s).to_multiset() == s.to_multiset(),
        sort_by_key_sp(s).len() == s.len(),
    decreases s.len(),
{
    broadcast use group_to_multiset_ensures;

    if s.len() > 0 {
        lemma_sort_by_key_sp_props(s.drop_last());
        let acc = sort_by_key_sp(s.drop_last());
        let t = s.last();
        lemma_insert_sorted_props(acc, t);
        assert(s.drop_last().push(t) =~= s);
    }
}

/// Stable insertion keeps sortedness, adds one entry to the multiset, and
/// grows the length by one.
proof fn lemma_insert_sorted_props<W: Semiring>(acc: Seq<Tr<W>>, t: Tr<W>)
    requires
        sorted_by_key(acc),
    ensures
        sorted_by_key(insert_sorted(acc, t)),
        insert_sorted(acc, t).to_multiset() == acc.to_multiset().insert(t),
        insert_sorted(acc, t).len() == acc.len() + 1,
    decreases acc.len(),
{
    broadcast use group_to_multiset_ensures;

    if acc.len() > 0 && !tr_key_le(acc.last(), t) {
        assert(sorted_by_key(acc.drop_last()));
        lemma_insert_sorted_props(acc.drop_last(), t);
        let pre = insert_sorted(acc.drop_last(), t);
        let m = insert_sorted(acc, t);
        assert(m == pre.push(acc.last()));
        assert(m.to_multiset() =~= pre.to_multiset().insert(acc.last()));
        assert(acc.drop_last().push(acc.last()) =~= acc);
        assert(acc.drop_last().to_multiset().insert(acc.last()) =~= acc.to_multiset());
        assert(m.to_multiset() =~= acc.to_multiset().insert(t));
        assert forall|a: int, b: int|
            0 <= a < b < m.len() implies tr_key_le(#[trigger] m[a], #[trigger] m[b]) by {
            if b < m.len() - 1 {
                assert(tr_key_le(pre[a], pre[b]));
            } else {
                assert(m[b] == acc.last());
                lemma_insert_sorted_member(acc.drop_last(), t, a);
                assert(!tr_key_le(acc.last(), t));
                if a < pre.len() {
                    assert(tr_key_le(m[a], acc.last()));
                }
            }
        }
    } else {
        assert(insert_sorted(acc, t) == acc.push(t));
        assert forall|a: int, b: int|
            0 <= a < b < acc.push(t).len() implies tr_key_le(
            #[trigger] acc.push(t)[a],
            #[trigger] acc.push(t)[b],
        ) by {
            if b < acc.len() {
                assert(tr_key_le(acc[a], acc[b]));
            } else {
                if acc.len() > 0 {
                    assert(tr_key_le(acc[a], acc.last()));
                    assert(tr_key_le(acc.last(), t));
                }
            }
        }
    }
}

/// Every entry of a stable insertion is the inserted entry or below the
/// displaced tail in key order.
proof fn lemma_insert_sorted_member<W: Semiring>(acc: Seq<Tr<W>>, t: Tr<W>, a: int)
    requires
        sorted_by_key(acc),
        0 <= a < insert_sorted(acc, t).len(),
    ensures
        tr_key_le(insert_sorted(acc, t)[a], t) || (exists|k: int|
            0 <= k < acc.len() && insert_sorted(acc, t)[a] == acc[k]),
    decreases acc.len(),
{
    if acc.len() > 0 && !tr_key_le(acc.last(), t) {
        assert(sorted_by_key(acc.drop_last()));
        let pre = insert_sorted(acc.drop_last(), t);
        if a < pre.len() {
            lemma_insert_sorted_member(acc.drop_last(), t, a);
            if !tr_key_le(pre[a], t) {
                let k = choose|k: int|
                    0 <= k < acc.drop_last().len() && pre[a] == acc.drop_last()[k];
                assert(insert_sorted(acc, t)[a] == acc[k]);
            }
        } else {
            assert(insert_sorted(acc, t)[a] == acc[acc.len() - 1]);
        }
    } else {
        if a < acc.len() {
            assert(insert_sorted(acc, t)[a] == acc[a]);
        } else {
            assert(insert_sorted(acc, t)[a] == t);
            assert(tr_key_le(t, t));
        }
    }
}

/// One step of run merging: a transition whose key equals the last merged
/// key is folded into it by plus; any other transition starts a new entry.
pub open spec fn merge_step<W: Semiring>(acc: Seq<Tr<W>>, t: Tr<W>) -> Seq<Tr<W>> {
    if acc.len() > 0 && tr_key_eq(acc.last(), t) {
        acc.update(
            acc.len() - 1,
            Tr {
                ilabel: acc.last().ilabel,
                olabel: acc.last().olabel,
                weight: W::sp_plus(acc.last().weight, t.weight),
                nextstate: acc.last().nextstate,
            },
        )
    } else {
        acc.push(t)
    }
}

/// The result of merging all equal-key runs of a key-sorted sequence.
pub open spec fn merge_runs<W: Semiring>(s: Seq<Tr<W>>) -> Seq<Tr<W>>
    decreases s.len(),
{
    if s.len() == 0 {
        Seq::empty()
    } else {
        merge_step(merge_runs(s.drop_last()), s.last())
    }
}

/// Whether every weight combination taken while merging is accepted by the
/// semiring.
pub open spec fn merge_defined<W: Semiring>(s: Seq<Tr<W>>) -> bool
    decreases s.len(),
{
    if s.len() == 0 {
        true
    } else {
        let acc = merge_runs(s.drop_last());
        merge_defined(s.drop_last()) && (acc.len() > 0 && tr_key_eq(acc.last(), s.last())
            ==> W::plus_defined(acc.last().weight, s.last().weight))
    }
}

/// Merging a key-sorted sequence yields strictly key-increasing transitions,
/// so no two share a key; the last merged key is the last input key.
pub proof fn lemma_merge_runs_unique<W: Semiring>(s: Seq<Tr<W>>)
    requires
        sorted_by_key(s),
    ensures
        sorted_by_key(merge_runs(s)),
        unique_keys(merge_runs(s)),
        merge_runs(s).len() == 0 <==> s.len() == 0,
        s.len() > 0 ==> tr_key_eq(merge_runs(s).last(), s.last()),
    decreases s.len(),
{
    if s.len() > 0 {
        let t = s.drop_last();
        assert(sorted_by_key(t));
        lemma_merge_runs_unique(t);
        let m = merge_runs(t);
        let x = s.last();
        if m.len() > 0 && tr_key_eq(m.last(), x) {
            let m2 = merge_runs(s);
            assert(m2 == m.update(m.len() - 1, Tr {
                ilabel: m.last().ilabel,
                olabel: m.last().olabel,
                weight: W::sp_plus(m.last().weight, x.weight),
                nextstate: m.last().nextstate,
            }));
            assert forall|i: int, j: int|
                0 <= i < j < m2.len() implies tr_key_le(#[trigger] m2[i], #[trigger] m2[j])
                && !tr_key_eq(m2[i], m2[j]) by {
                assert(tr_key_le(m[i], m[j]) && !tr_key_eq(m[i], m[j]));
                assert(tr_key_eq(m2[j], m[j]));
                assert(m2[i] == m[i]);
            }
        } else {
            if m.len() > 0 {
                assert(tr_key_eq(m.last(), t.last()));
                assert(tr_key_le(t.last(), x)) by {
                    assert(tr_key_le(s[s.len() - 2], s[s.len() - 1]));
                }
                assert(tr_key_lt(m.last(), x));
            }
            let m2 = m.push(x);
            assert forall|i: int, j: int|
                0 <= i < j < m2.len() implies tr_key_le(#[trigger] m2[i], #[trigger] m2[j])
                && !tr_key_eq(m2[i], m2[j]) by {
                if j < m2.len() - 1 {
                    assert(m2[i] == m[i] && m2[j] == m[j]);
                } else {
                    assert(m2[j] == x);
                    assert(m2[i] == m[i]);
                    if i < m.len() - 1 {
                        assert(tr_key_le(m[i], m[m.len() - 1]));
                        assert(tr_key_lt(m[m.len() - 1], x));
                    } else {
                        assert(m2[i] == m.last());
                    }
                }
            }
        }
    }
}

/// Merges the equal-key runs of a key-sorted transition sequence, combining
/// run weights with plus. Fails iff the semiring rejects some combination.
fn merge_sorted_trs<W: Semiring>(v: &Vec<Tr<W>>) -> (r: Result<Vec<Tr<W>>, FstError>)
    requires
        sorted_by_key(v@),
        forall|i: int| 0 <= i < v@.len() ==> (#[trigger] v@[i]).weight.wf(),
    ensures
        r is Ok <==> merge_defined::<W>(v@),
        r is Err ==> r == Err::<Vec<Tr<W>>, FstError>(FstError::IncompatibleWeights),
        r is Ok ==> r->Ok_0@ == merge_runs(v@),
        r is Ok ==> forall|i: int|
            0 <= i < r->Ok_0@.len() ==> (#[trigger] r->Ok_0@[i]).weight.wf() && (exists|j: int|
                0 <= j < v@.len() && r->Ok_0@[i].nextstate == v@[j].nextstate),
{
    let mut out: Vec<Tr<W>> = Vec::new();
    let mut i: usize = 0;
    while i < v.len()
        invariant
            sorted_by_key(v@),
            forall|k: int| 0 <= k < v@.len() ==> (#[trigger] v@[k]).weight.wf(),
            i <= v@.len(),
            out@ == merge_runs(v@.subrange(0, i as int)),
            merge_defined::<W>(v@.subrange(0, i as int)),
            forall|k: int|
                0 <= k < out@.len() ==> (#[trigger] out@[k]).weight.wf() && (exists|j: int|
                    0 <= j < v@.len() && out@[k].nextstate == v@[j].nextstate),
        decreases v@.len() - i,
    {
        let tr = v[i];
        let ghost pre = v@.subrange(0, i as int);
        proof {
            assert(v@.subrange(0, i + 1).drop_last() =~= pre);
            assert(v@.subrange(0, i + 1).last() == tr);
            assert(sorted_by_key(v@.subrange(0, i + 1)));
        }
        let olen = out.len();
        let mut same = false;
        if olen > 0 {
            match tr_compare(&out[olen - 1], &tr) {
                Ordering::Equal => {
                    same = true;
                },
                _ => {},
            }
        }
        if same {
            let mut w = out[olen - 1].weight;
            match w.plus_assign(&tr.weight) {
                Ok(()) => {},
                Err(e) => {
                    proof {
                        assert(!merge_defined::<W>(v@.subrange(0, i + 1)));
                        assert(!merge_defined::<W>(v@)) by {
                            lemma_merge_defined_prefix::<W>(v@, i + 1);
                        }
                    }
                    return Err(e);
                },
            }
            let last = out[olen - 1];
            let merged = Tr {
                ilabel: last.ilabel,
                olabel: last.olabel,
                weight: w,
                nextstate: last.nextstate,
            };
            out.set(olen - 1, merged);
        } else {
            out.push(tr);
        }
        proof {
            assert(out@ == merge_step(merge_runs(pre), tr));
            assert(v@.subrange(0, i + 1) =~= pre.push(tr));
        }
        i = i + 1;
    }
    proof {
        assert(v@.subrange(0, v@.len() as int) =~= v@);
    }
    Ok(out)
}

/// A sequence whose merge fails at some prefix fails as a whole.
proof fn lemma_merge_defined_prefix<W: Semiring>(s: Seq<Tr<W>>, k: int)
    requires
        0 <= k <= s.len(),
        !merge_defined::<W>(s.subrange(0, k)),
    ensures
        !merge_defined::<W>(s),
    decreases s.len() - k,
{
    if k < s.len() {
        assert(s.subrange(0, k + 1).drop_last() =~= s.subrange(0, k));
        assert(!merge_defined::<W>(s.subrange(0, k + 1)));
        lemma_merge_defined_prefix::<W>(s, k + 1);
    } else {
        assert(s.subrange(0, k) =~= s);
    }
}

impl<W: Semiring> VectorFst<W> {
    /// Sorts the transitions of one state by `(ilabel, olabel, nextstate)`
    /// and collapses equal-key runs, combining their weights with plus; the
    /// combined transition stands where the run begins.
    pub fn unique_trs(&mut self, state: StateId) -> (r: Result<(), FstError>)
        requires
            old(self).wf(),
        ensures
            r is Err ==> *final(self) == *old(self),
            state >= old(self).num_states_sp() ==> r == Err::<(), FstError>(
                FstError::StateOutOfRange(state),
            ),
            state < old(self).num_states_sp() ==> (r is Ok <==> merge_defined::<W>(
                sort_by_key_sp(old(self).trs_sp(state as int)),
            )),
            state < old(self).num_states_sp() && r is Err ==> r == Err::<(), FstError>(
                FstError::IncompatibleWeights,
            ),
            r is Ok ==> final(self).trs_sp(state as int) == merge_runs(
                sort_by_key_sp(old(self).trs_sp(state as int)),
            ),
            r is Ok ==> {
                &&& final(self).num_states_sp() == old(self).num_states_sp()
                &&& final(self).start_state == old(self).start_state
                &&& final(self).final_sp(state as int) == old(self).final_sp(state as int)
                &&& forall|s: int|
                    0 <= s < old(self).num_states_sp() && s != state ==> final(self).states@[s]
                        == old(self).states@[s]
            },
            final(self).wf(),
    {
        broadcast use group_to_multiset_ensures;

        let n = self.states.len();
        if state >= n {
            return Err(FstError::StateOutOfRange(state));
        }
        let sorted = sort_trs_by_key(&self.states[state].trs);
        proof {
            assert(self.states@[state as int].targets_below(n as int));
            assert(self.states@[state as int].weights_wf());
            lemma_perm_trs_wf(self.trs_sp(state as int), sorted@, n as int);
        }
        let merged = match merge_sorted_trs(&sorted) {
            Ok(m) => m,
            Err(e) => {
                return Err(e);
            },
        };
        let ghost prev = self.states@;
        proof {
            assert forall|k: int|
                0 <= k < merged@.len() implies (#[trigger] merged@[k]).nextstate < n by {
                let j = choose|j: int|
                    0 <= j < sorted@.len() && merged@[k].nextstate == sorted@[j].nextstate;
            }
        }
        let row = &mut self.states[state];
        row.trs = merged;
        proof {
            assert(self.states@[state as int].trs@ =~= merge_runs(sorted@));
            assert(forall|x: int| 0 <= x < n && x != state ==> self.states@[x] == prev[x]);
            assert(self.states@[state as int].targets_below(n as int));
            assert(self.states@[state as int].weights_wf());
        }
        Ok(())
    }
}

/// Sorts a transition sequence by the full `(ilabel, olabel, nextstate)` key,
/// stably, returning a permutation of the input.
fn sort_trs_by_key<W: Semiring>(v: &Vec<Tr<W>>) -> (out: Vec<Tr<W>>)
    ensures
        out@ == sort_by_key_sp(v@),
        sorted_by_key(out@),
        out@.to_multiset() == v@.to_multiset(),
        out@.len() == v@.len(),
{
    broadcast use group_to_multiset_ensures;

    let mut out: Vec<Tr<W>> = Vec::new();
    let mut i: usize = 0;
    while i < v.len()
        invariant
            i <= v@.len(),
            out@ == sort_by_key_sp(v@.subrange(0, i as int)),
            sorted_by_key(out@),
            out@.to_multiset() == v@.subrange(0, i as int).to_multiset(),
            out@.len() == i,
        decreases v@.len() - i,
    {
        broadcast use group_to_multiset_ensures;

        let tr = v[i];
        let mut lo: usize = 0;
        let mut hi: usize = out.len();
        while lo < hi
            invariant
                sorted_by_key(out@),
                lo <= hi <= out@.len(),
                forall|k: int| 0 <= k < lo ==> tr_key_le(#[trigger] out@[k], tr),
                forall|k: int| hi <= k < out@.len() ==> !tr_key_le(#[trigger] out@[k], tr),
            decreases hi - lo,
        {
            let mid = lo + (hi - lo) / 2;
            match tr_compare(&out[mid], &tr) {
                Ordering::Greater => {
                    proof {
                        assert forall|k: int|
                            mid <= k < out@.len() implies !tr_key_le(#[trigger] out@[k], tr) by {
                            if k > mid {
                                assert(tr_key_le(out@[mid as int], out@[k]));
                            }
                        }
                    }
                    hi = mid;
                },
                _ => {
                    proof {
                        assert forall|k: int|
                            0 <= k < mid + 1 implies tr_key_le(#[trigger] out@[k], tr) by {
                            if k < mid {
                                assert(tr_key_le(out@[k], out@[mid as int]));
                            }
                        }
                    }
                    lo = mid + 1;
                },
            }
        }
        let p = lo;
        let ghost out0 = out@;
        out.insert(p, tr);
        proof {
            lemma_insert_multiset(out0, p as int, tr);
            assert(v@.subrange(0, i + 1) =~= v@.subrange(0, i as int).push(tr));
            assert(out@ == sort_by_key_sp(v@.subrange(0, i + 1))) by {
                lemma_insert_sorted_at(out0, tr, p as int);
                assert(out@ =~= out0.subrange(0, p as int) + seq![tr] + out0.subrange(
                    p as int,
                    out0.len() as int,
                ));
                assert(v@.subrange(0, i + 1).drop_last() =~= v@.subrange(0, i as int));
                assert(v@.subrange(0, i + 1).last() == tr);
            }
            assert forall|a: int, b: int|
                0 <= a < b < out@.len() implies tr_key_le(#[trigger] out@[a], #[trigger] out@[b]) by {
                if b < p {
                    assert(out@[a] == out0[a] && out@[b] == out0[b]);
                } else if b == p {
                    assert(out@[a] == out0[a]);
                    assert(tr_key_le(out0[a], tr));
                } else {
                    assert(out@[b] == out0[b - 1]);
                    assert(!tr_key_le(out0[b - 1], tr));
                    assert(tr_key_le(tr, out0[b - 1]));
                    if a < p {
                        assert(out@[a] == out0[a]);
                        assert(tr_key_le(out0[a], tr));
                    } else if a == p {
                        assert(out@[a] == tr);
                    } else {
                        assert(out@[a] == out0[a - 1]);
                    }
                }
            }
        }
        i = i + 1;
    }
    proof {
        assert(v@.subrange(0, v@.len() as int) =~= v@);
    }
    out
}

/// Keeps a single transition for each `(ilabel, olabel, nextstate)` key of
/// each state, combining the weights of collapsed duplicates with plus.
/// Succeeds exactly when every such combination is accepted; each state then
/// carries the run-merge of the stable key-sort of its transitions.
pub fn tr_unique<W: Semiring>(ifst: &mut VectorFst<W>) -> (r: Result<(), FstError>)
    requires
        old(ifst).wf(),
    ensures
        final(ifst).num_states_sp() == old(ifst).num_states_sp(),
        final(ifst).start_state == old(ifst).start_state,
        final(ifst).wf(),
        forall|s: int|
            0 <= s < old(ifst).num_states_sp() ==> final(ifst).final_sp(s) == old(
                ifst,
            ).final_sp(s),
        r is Ok <==> (forall|s: int|
            0 <= s < old(ifst).num_states_sp() ==> merge_defined::<W>(
                sort_by_key_sp(#[trigger] old(ifst).trs_sp(s)),
            )),
        r is Err ==> r == Err::<(), FstError>(FstError::IncompatibleWeights),
        r is Ok ==> forall|s: int|
            0 <= s < old(ifst).num_states_sp() ==> #[trigger] final(ifst).trs_sp(s) == merge_runs(
                sort_by_key_sp(old(ifst).trs_sp(s)),
            ),
{
    let n = ifst.num_states();
    let mut s: usize = 0;
    while s < n
        invariant
            ifst.wf(),
            n == ifst.num_states_sp(),
            n == old(ifst).num_states_sp(),
            ifst.start_state == old(ifst).start_state,
            s <= n,
            forall|x: int| s <= x < n ==> ifst.states@[x] == old(ifst).states@[x],
            forall|x: int| 0 <= x < n ==> ifst.final_sp(x) == old(ifst).final_sp(x),
            forall|x: int|
                #![trigger old(ifst).trs_sp(x)]
                0 <= x < s ==> merge_defined::<W>(sort_by_key_sp(old(ifst).trs_sp(x)))
                    && ifst.trs_sp(x) == merge_runs(sort_by_key_sp(old(ifst).trs_sp(x))),
        decreases n - s,
    {
        let ghost fst0 = *ifst;
        let r = ifst.unique_trs(s);
        match r {
            Ok(()) => {},
            Err(e) => {
                proof {
                    assert(fst0.trs_sp(s as int) == old(ifst).trs_sp(s as int));
                    assert(!merge_defined::<W>(sort_by_key_sp(old(ifst).trs_sp(s as int))));
                }
                return Err(e);
            },
        }
        proof {
            assert forall|x: int|
                #![trigger old(ifst).trs_sp(x)]
                0 <= x < s + 1 implies merge_defined::<W>(
                sort_by_key_sp(old(ifst).trs_sp(x)),
            ) && ifst.trs_sp(x) == merge_runs(sort_by_key_sp(old(ifst).trs_sp(x))) by {
                if x == s {
                    assert(fst0.trs_sp(x) == old(ifst).trs_sp(x));
                } else {
                    assert(ifst.states@[x] == fst0.states@[x]);
                    assert(ifst.trs_sp(x) == fst0.trs_sp(x));
                }
            }
        }
        s = s + 1;
    }
    Ok(())
}

/// After deduplication, no two transitions leaving a state share
/// `(ilabel, olabel, nextstate)`: the merged sequence of a key-sorted run is
/// strictly key-increasing.
pub proof fn lemma_tr_unique_no_duplicates<W: Semiring>(sorted: Seq<Tr<W>>)
    requires
        sorted_by_key(sorted),
    ensures
        unique_keys(merge_runs(sorted)),
        sorted_by_key(merge_runs(sorted)),
{
    lemma_merge_runs_unique(sorted);
}

/// Some entry of `s` shares the key of `key`.
pub open spec fn has_key<W>(s: Seq<Tr<W>>, key: Tr<W>) -> bool
    decreases s.len(),
{
    if s.len() == 0 {
        false
    } else {
        has_key(s.drop_last(), key) || tr_key_eq(s.last(), key)
    }
}

/// The plus-fold, in order, of the weights of the entries of `s` sharing the
/// key of `key`; the first such weight seeds the fold.
pub open spec fn run_weight<W: Semiring>(s: Seq<Tr<W>>, key: Tr<W>) -> W
    decreases s.len(),
{
    if s.len() == 0 {
        W::sp_zero()
    } else if tr_key_eq(s.last(), key) {
        if has_key(s.drop_last(), key) {
            W::sp_plus(run_weight(s.drop_last(), key), s.last().weight)
        } else {
            s.last().weight
        }
    } else {
        run_weight(s.drop_last(), key)
    }
}

/// The run weight depends on the key alone, not on the carrying transition.
proof fn lemma_run_weight_congr<W: Semiring>(s: Seq<Tr<W>>, k1: Tr<W>, k2: Tr<W>)
    requires
        tr_key_eq(k1, k2),
    ensures
        has_key(s, k1) == has_key(s, k2),
        run_weight(s, k1) == run_weight(s, k2),
    decreases s.len(),
{
    if s.len() > 0 {
        lemma_run_weight_congr(s.drop_last(), k1, k2);
    }
}

/// Each merged transition carries the plus-fold of the weights of its
/// equal-key run: deduplication preserves the weight sum of every
/// equivalence class of the key-sorted input.
pub proof fn lemma_tr_unique_weight_sums<W: Semiring>(s: Seq<Tr<W>>)
    requires
        sorted_by_key(s),
    ensures
        forall|i: int|
            0 <= i < merge_runs(s).len() ==> (#[trigger] merge_runs(s)[i]).weight == run_weight(
                s,
                merge_runs(s)[i],
            ),
    decreases s.len(),
{
    if s.len() > 0 {
        let t = s.drop_last();
        let x = s.last();
        assert(sorted_by_key(t));
        lemma_tr_unique_weight_sums(t);
        lemma_merge_runs_unique(t);
        let m = merge_runs(t);
        let m2 = merge_runs(s);
        assert(m2 == merge_step(m, x));
        assert forall|i: int|
            0 <= i < m2.len() implies (#[trigger] m2[i]).weight == run_weight(s, m2[i]) by {
            if m.len() > 0 && tr_key_eq(m.last(), x) {
                assert(m2 == m.update(m.len() - 1, Tr {
                    ilabel: m.last().ilabel,
                    olabel: m.last().olabel,
                    weight: W::sp_plus(m.last().weight, x.weight),
                    nextstate: m.last().nextstate,
                }));
                if i < m.len() - 1 {
                    assert(m2[i] == m[i]);
                    assert(m[i].weight == run_weight(t, m[i]));
                    assert(!tr_key_eq(x, m[i])) by {
                        assert(tr_key_le(m[i], m.last()) && !tr_key_eq(m[i], m.last()));
                        assert(tr_key_eq(m.last(), x));
                    }
                    assert(run_weight(s, m[i]) == run_weight(t, m[i])) by {
                        assert(s.drop_last() == t && s.last() == x);
                        assert(!tr_key_eq(s.last(), m[i]));
                    }
                } else {
                    let nl = m2[m.len() - 1];
                    assert(tr_key_eq(nl, m.last()));
                    assert(tr_key_eq(nl, x));
                    assert(tr_key_eq(s.last(), nl));
                    assert(has_key(t, nl)) by {
                        assert(t.len() > 0) by {
                            lemma_merge_runs_unique(t);
                        }
                        assert(tr_key_eq(m.last(), t.last()));
                        assert(tr_key_eq(t.last(), nl));
                    }
                    assert(run_weight(s, nl) == W::sp_plus(run_weight(t, nl), x.weight));
                    assert(m.last().weight == run_weight(t, m.last()));
                    lemma_run_weight_congr(t, m.last(), nl);
                    assert(nl.weight == W::sp_plus(m.last().weight, x.weight));
                }
            } else {
                assert(m2 == m.push(x));
                if i < m.len() {
                    assert(m2[i] == m[i]);
                    assert(m[i].weight == run_weight(t, m[i]));
                    assert(!tr_key_eq(x, m[i])) by {
                        if m.len() > 0 {
                            assert(tr_key_le(m[i], m.last()));
                            assert(tr_key_eq(m.last(), t.last()));
                            if tr_key_eq(x, m[i]) {
                                assert(tr_key_le(t.last(), x)) by {
                                    assert(tr_key_le(s[s.len() - 2], s[s.len() - 1]));
                                }
                                assert(!tr_key_eq(m.last(), x));
                            }
                        }
                    }
                    assert(run_weight(s, m[i]) == run_weight(t, m[i])) by {
                        assert(s.drop_last() == t && s.last() == x);
                        assert(!tr_key_eq(s.last(), m[i]));
                    }
                } else {
                    assert(m2[i] == x);
                    assert(tr_key_eq(s.last(), x));
                    assert(!has_key(t, x)) by {
                        lemma_no_key_before::<W>(t, x);
                    }
                    assert(run_weight(s, x) == x.weight);
                }
            }
        }
    }
}

/// In a key-sorted sequence whose merge would push a fresh entry, no earlier
/// entry shares the new entry's key.
proof fn lemma_no_key_before<W: Semiring>(t: Seq<Tr<W>>, x: Tr<W>)
    requires
        sorted_by_key(t.push(x)),
        merge_runs(t).len() == 0 || !tr_key_eq(merge_runs(t).last(), x),
    ensures
        !has_key(t, x),
    decreases t.len(),
{
    if t.len() > 0 {
        assert(sorted_by_key(t)) by {
            assert forall|i: int, j: int|
                0 <= i < j < t.len() implies tr_key_le(#[trigger] t[i], #[trigger] t[j]) by {
                assert(t.push(x)[i] == t[i] && t.push(x)[j] == t[j]);
                assert(tr_key_le(t.push(x)[i], t.push(x)[j]));
            }
        }
        lemma_merge_runs_unique(t);
        let m = merge_runs(t);
        assert(m.len() > 0);
        assert(tr_key_eq(m.last(), t.last()));
        assert(!tr_key_eq(t.last(), x));
        if has_key(t, x) {
            lemma_has_key_index(t, x);
            let i = choose|i: int| 0 <= i < t.len() && tr_key_eq(#[trigger] t[i], x);
            assert(tr_key_le(t.push(x)[i], t.push(x)[t.len() - 1]) || i == t.len() - 1) by {
                if i < t.len() - 1 {
                    assert(tr_key_le(t.push(x)[i], t.push(x)[t.len() - 1]));
                }
            }
            assert(tr_key_le(t.push(x)[t.len() - 1], t.push(x)[t.len() as int]));
            assert(t.push(x)[t.len() as int] == x);
            assert(t.push(x)[t.len() - 1] == t.last());
            assert(t.push(x)[i] == t[i]);
            assert(false);
        }
    } else {
        assert(!has_key(t, x));
    }
}

/// A sequence with the key somewhere has an index carrying it.
proof fn lemma_has_key_index<W: Semiring>(t: Seq<Tr<W>>, x: Tr<W>)
    requires
        has_key(t, x),
    ensures
        exists|i: int| 0 <= i < t.len() && tr_key_eq(#[trigger] t[i], x),
    decreases t.len(),
{
    if t.len() > 0 {
        if tr_key_eq(t.last(), x) {
            assert(tr_key_eq(t[t.len() - 1], x));
        } else {
            lemma_has_key_index(t.drop_last(), x);
            let i = choose|i: int|
                0 <= i < t.drop_last().len() && tr_key_eq(#[trigger] t.drop_last()[i], x);
            assert(tr_key_eq(t[i], x));
        }
    }
}

} // verus!
