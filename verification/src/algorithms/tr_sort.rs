//! Sorting the transitions of each state by input or output label, and
//! checking the label-sort property.

use vstd::prelude::*;
use vstd::seq_lib::group_to_multiset_ensures;
use crate::semirings::Semiring;
use crate::vector_fst::VectorFst;
use crate::{Label, Tr};

verus! {

/// The label of a transition on the chosen side.
pub open spec fn side_label_sp<W>(t: Tr<W>, input: bool) -> Label {
    if input {
        t.ilabel
    } else {
        t.olabel
    }
}

/// The transitions are non-decreasing in the chosen label.
pub open spec fn sorted_by_side<W>(s: Seq<Tr<W>>, input: bool) -> bool {
    forall|i: int, j: int|
        0 <= i < j < s.len() ==> side_label_sp(#[trigger] s[i], input) <= side_label_sp(
            #[trigger] s[j],
            input,
        )
}

/// Inserting an element anywhere adds it to the sequence's multiset.
pub proof fn lemma_insert_multiset<A>(s: Seq<A>, p: int, x: A)
    requires
        0 <= p <= s.len(),
    ensures
        s.insert(p, x).to_multiset() == s.to_multiset().insert(x),
{
    broadcast use group_to_multiset_ensures;

    let t = s.insert(p, x);
    assert(t.remove(p) =~= s);
    assert(t[p] == x);
    assert(t.remove(p).to_multiset() =~= t.to_multiset().remove(x));
    assert(t.to_multiset().contains(x)) by {
        assert(t.contains(x));
    }
    assert(t.to_multiset() =~= s.to_multiset().insert(x));
}

/// The position in a sorted transition sequence before which every label is
/// at most `lbl` and from which every label exceeds `lbl`.
fn sorted_insert_pos<W: Semiring>(v: &Vec<Tr<W>>, lbl: Label, input: bool) -> (p: usize)
    requires
        sorted_by_side(v@, input),
    ensures
        p <= v@.len(),
        forall|i: int| 0 <= i < p ==> side_label_sp(#[trigger] v@[i], input) <= lbl,
        forall|i: int| p <= i < v@.len() ==> side_label_sp(#[trigger] v@[i], input) > lbl,
{
    let mut lo: usize = 0;
    let mut hi: usize = v.len();
    while lo < hi
        invariant
            sorted_by_side(v@, input),
            lo <= hi <= v@.len(),
            forall|i: int| 0 <= i < lo ==> side_label_sp(#[trigger] v@[i], input) <= lbl,
            forall|i: int| hi <= i < v@.len() ==> side_label_sp(#[trigger] v@[i], input) > lbl,
        decreases hi - lo,
    {
        let mid = lo + (hi - lo) / 2;
        let ml = if input {
            v[mid].ilabel
        } else {
            v[mid].olabel
        };
        if ml <= lbl {
            proof {
                assert forall|i: int|
                    0 <= i < mid + 1 implies side_label_sp(#[trigger] v@[i], input) <= lbl by {
                    if i < mid {
                        assert(side_label_sp(v@[i], input) <= side_label_sp(
                            v@[mid as int],
                            input,
                        ));
                    }
                }
            }
            lo = mid + 1;
        } else {
            proof {
                assert forall|i: int|
                    mid <= i < v@.len() implies side_label_sp(#[trigger] v@[i], input) > lbl by {
                    if i > mid {
                        assert(side_label_sp(v@[mid as int], input) <= side_label_sp(
                            v@[i],
                            input,
                        ));
                    }
                }
            }
            hi = mid;
        }
    }
    lo
}

/// Sorts a transition sequence by the chosen label, stably, returning a
/// permutation of the input.
pub fn sort_trs_by_label<W: Semiring>(v: &Vec<Tr<W>>, input: bool) -> (out: Vec<Tr<W>>)
    ensures
        sorted_by_side(out@, input),
        out@.to_multiset() == v@.to_multiset(),
        out@.len() == v@.len(),
{
    broadcast use group_to_multiset_ensures;

    let mut out: Vec<Tr<W>> = Vec::new();
    let mut i: usize = 0;
    while i < v.len()
        invariant
            i <= v@.len(),
            sorted_by_side(out@, input),
            out@.to_multiset() == v@.subrange(0, i as int).to_multiset(),
            out@.len() == i,
        decreases v@.len() - i,
    {
        broadcast use group_to_multiset_ensures;

        let tr = v[i];
        let lbl = if input {
            tr.ilabel
        } else {
            tr.olabel
        };
        let p = sorted_insert_pos(&out, lbl, input);
        let ghost out0 = out@;
        out.insert(p, tr);
        proof {
            lemma_insert_multiset(out0, p as int, tr);
            assert(v@.subrange(0, i + 1).drop_last() =~= v@.subrange(0, i as int));
            assert(v@.subrange(0, i + 1).to_multiset() =~= v@.subrange(
                0,
                i as int,
            ).to_multiset().insert(tr)) by {
                assert(v@.subrange(0, i + 1) =~= v@.subrange(0, i as int).push(tr));
            }
            assert forall|a: int, b: int|
                0 <= a < b < out@.len() implies side_label_sp(#[trigger] out@[a], input)
                <= side_label_sp(#[trigger] out@[b], input) by {
                if b < p {
                    assert(out@[a] == out0[a] && out@[b] == out0[b]);
                } else if b == p {
                    assert(out@[a] == out0[a]);
                    assert(side_label_sp(out0[a], input) <= lbl);
                } else {
                    assert(out@[b] == out0[b - 1]);
                    assert(side_label_sp(out0[b - 1], input) > lbl);
                    if a < p {
                        assert(out@[a] == out0[a]);
                        assert(side_label_sp(out0[a], input) <= lbl);
                    } else if a == p {
                        assert(side_label_sp(out@[a], input) == lbl);
                    } else {
                        assert(out@[a] == out0[a - 1]);
                    }
                }
            }
        }
        i = i + 1;
    }
    proof {
        assert(v@.subrange(0, v@.len() as int) =~= v@);
    }
    out
}

/// A permutation of well-formed transitions is well formed: targets stay
/// below `n` and weights stay well formed.
pub proof fn lemma_perm_trs_wf<W: Semiring>(a: Seq<Tr<W>>, b: Seq<Tr<W>>, n: int)
    requires
        a.to_multiset() == b.to_multiset(),
        forall|i: int| 0 <= i < a.len() ==> (#[trigger] a[i]).nextstate < n,
        forall|i: int| 0 <= i < a.len() ==> (#[trigger] a[i]).weight.wf(),
    ensures
        forall|i: int| 0 <= i < b.len() ==> (#[trigger] b[i]).nextstate < n,
        forall|i: int| 0 <= i < b.len() ==> (#[trigger] b[i]).weight.wf(),
{
    broadcast use group_to_multiset_ensures;

    assert forall|i: int|
        0 <= i < b.len() implies (#[trigger] b[i]).nextstate < n && b[i].weight.wf() by {
        assert(b.contains(b[i]));
        assert(b.to_multiset().count(b[i]) > 0);
        assert(a.to_multiset().count(b[i]) > 0);
        assert(a.contains(b[i]));
        let k = choose|k: int| 0 <= k < a.len() && a[k] == b[i];
        assert(a[k].nextstate < n && a[k].weight.wf());
    }
}

/// Sorts the transitions of every state by the chosen label (input where
/// `ilabel` is set, output otherwise). Stable per state; nothing else of the
/// transducer changes.
pub fn tr_sort<W: Semiring>(fst: &mut VectorFst<W>, ilabel: bool)
    requires
        old(fst).wf(),
    ensures
        final(fst).num_states_sp() == old(fst).num_states_sp(),
        final(fst).start_state == old(fst).start_state,
        forall|s: int|
            0 <= s < old(fst).num_states_sp() ==> final(fst).final_sp(s) == old(fst).final_sp(s),
        forall|s: int|
            0 <= s < old(fst).num_states_sp() ==> sorted_by_side(
                #[trigger] final(fst).trs_sp(s),
                ilabel,
            ),
        forall|s: int|
            0 <= s < old(fst).num_states_sp() ==> (#[trigger] final(fst).trs_sp(s)).to_multiset()
                == old(fst).trs_sp(s).to_multiset(),
        final(fst).wf(),
{
    let n = fst.num_states();
    let mut s: usize = 0;
    while s < n
        invariant
            n == fst.num_states_sp(),
            n == old(fst).num_states_sp(),
            s <= n,
            fst.start_state == old(fst).start_state,
            fst.wf(),
            forall|x: int| s <= x < n ==> fst.states@[x] == old(fst).states@[x],
            forall|x: int| 0 <= x < n ==> fst.final_sp(x) == old(fst).final_sp(x),
            forall|x: int| 0 <= x < s ==> sorted_by_side(#[trigger] fst.trs_sp(x), ilabel),
            forall|x: int|
                0 <= x < s ==> (#[trigger] fst.trs_sp(x)).to_multiset() == old(fst).trs_sp(
                    x,
                ).to_multiset(),
        decreases n - s,
    {
        let ghost fst0 = *fst;
        let sorted = sort_trs_by_label(&fst.states[s].trs, ilabel);
        let ghost prev = fst.states@;
        proof {
            assert(fst.states@[s as int].targets_below(n as int));
            assert(fst.states@[s as int].weights_wf());
            lemma_perm_trs_wf(fst.trs_sp(s as int), sorted@, n as int);
        }
        let row = &mut fst.states[s];
        row.trs = sorted;
        proof {
            assert(fst.states@[s as int].trs@ =~= sorted@);
            assert(fst.states@[s as int].final_weight == prev[s as int].final_weight);
            assert(forall|x: int| 0 <= x < n && x != s ==> fst.states@[x] == prev[x]);
            assert(fst.states@[s as int].targets_below(n as int));
            assert(fst.states@[s as int].weights_wf());
            assert forall|x: int|
                0 <= x < s + 1 implies sorted_by_side(#[trigger] fst.trs_sp(x), ilabel) && fst
                .trs_sp(x).to_multiset() == old(fst).trs_sp(x).to_multiset() by {
                if x == s {
                    assert(fst.trs_sp(x) == sorted@);
                    assert(prev[x] == old(fst).states@[x]);
                    assert(sorted@.to_multiset() == prev[x].trs@.to_multiset());
                } else {
                    assert(fst.states@[x] == prev[x]);
                    assert(prev == fst0.states@);
                    assert(sorted_by_side(fst0.trs_sp(x), ilabel));
                    assert(fst0.trs_sp(x).to_multiset() == old(fst).trs_sp(x).to_multiset());
                    assert(fst.trs_sp(x) == fst0.trs_sp(x));
                }
            }
        }
        s = s + 1;
    }
}

/// Whether every state's transitions are non-decreasing in the chosen label.
pub fn check_label_sorted<W: Semiring>(fst: &VectorFst<W>, input: bool) -> (r: bool)
    requires
        fst.wf(),
    ensures
        r <==> (forall|s: int|
            0 <= s < fst.num_states_sp() ==> sorted_by_side(#[trigger] fst.trs_sp(s), input)),
{
    let n = fst.num_states();
    let mut s: usize = 0;
    while s < n
        invariant
            fst.wf(),
            n == fst.num_states_sp(),
            s <= n,
            forall|x: int| 0 <= x < s ==> sorted_by_side(#[trigger] fst.trs_sp(x), input),
        decreases n - s,
    {
        let trs = &fst.states[s].trs;
        let mut j: usize = 1;
        while j < trs.len()
            invariant
                fst.wf(),
                s < fst.num_states_sp(),
                trs@ == fst.trs_sp(s as int),
                1 <= j,
                j <= trs@.len() || trs@.len() == 0,
                forall|a: int, b: int|
                    0 <= a < b < j && b < trs@.len() ==> side_label_sp(#[trigger] trs@[a], input)
                        <= side_label_sp(#[trigger] trs@[b], input),
            decreases trs@.len() - j,
        {
            let l1 = if input {
                trs[j - 1].ilabel
            } else {
                trs[j - 1].olabel
            };
            let l2 = if input {
                trs[j].ilabel
            } else {
                trs[j].olabel
            };
            if l1 > l2 {
                return false;
            }
            proof {
                assert forall|a: int, b: int|
                    0 <= a < b < j + 1 && b < trs@.len() implies side_label_sp(
                    #[trigger] trs@[a],
                    input,
                ) <= side_label_sp(#[trigger] trs@[b], input) by {
                    if b == j {
                        if a < j - 1 {
                            assert(side_label_sp(trs@[a], input) <= side_label_sp(
                                trs@[j - 1],
                                input,
                            ));
                        }
                    }
                }
            }
            j = j + 1;
        }
        s = s + 1;
    }
    true
}

} // verus!
