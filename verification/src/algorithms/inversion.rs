//! Inversion: swaps the input and output label of every transition, so that
//! the transducer computes the inverse relation.

use vstd::prelude::*;
use crate::semirings::Semiring;
use crate::vector_fst::VectorFst;
use crate::Tr;

verus! {

/// `f2` is `f1` with the two label sides of every transition swapped and
/// everything else unchanged.
pub open spec fn inverted<W: Semiring>(f1: VectorFst<W>, f2: VectorFst<W>) -> bool {
    &&& f2.num_states_sp() == f1.num_states_sp()
    &&& f2.start_state == f1.start_state
    &&& (forall|s: int| 0 <= s < f1.num_states_sp() ==> f2.final_sp(s) == f1.final_sp(s))
    &&& (forall|s: int|
        0 <= s < f1.num_states_sp() ==> (#[trigger] f2.trs_sp(s)).len() == f1.trs_sp(s).len())
    &&& (forall|s: int, j: int|
        0 <= s < f1.num_states_sp() && 0 <= j < f1.trs_sp(s).len() ==> {
            let t0 = f1.trs_sp(s)[j];
            let t1 = #[trigger] f2.trs_sp(s)[j];
            &&& t1.ilabel == t0.olabel
            &&& t1.olabel == t0.ilabel
            &&& t1.weight == t0.weight
            &&& t1.nextstate == t0.nextstate
        })
}

/// Swaps the input and output label of every transition.
pub fn invert<W: Semiring>(fst: &mut VectorFst<W>)
    requires
        old(fst).wf(),
    ensures
        inverted(*old(fst), *final(fst)),
        final(fst).wf(),
{
    let n = fst.num_states();
    let mut s: usize = 0;
    while s < n
        invariant
            fst.wf(),
            n == fst.num_states_sp(),
            n == old(fst).num_states_sp(),
            fst.start_state == old(fst).start_state,
            s <= n,
            forall|x: int| s <= x < n ==> fst.states@[x] == old(fst).states@[x],
            forall|x: int| 0 <= x < n ==> fst.final_sp(x) == old(fst).final_sp(x),
            forall|x: int|
                0 <= x < s ==> (#[trigger] fst.trs_sp(x)).len() == old(fst).trs_sp(x).len(),
            forall|x: int, j: int|
                0 <= x < s && 0 <= j < old(fst).trs_sp(x).len() ==> {
                    let t0 = old(fst).trs_sp(x)[j];
                    let t1 = #[trigger] fst.trs_sp(x)[j];
                    &&& t1.ilabel == t0.olabel
                    &&& t1.olabel == t0.ilabel
                    &&& t1.weight == t0.weight
                    &&& t1.nextstate == t0.nextstate
                },
        decreases n - s,
    {
        let ghost fst0 = *fst;
        let deg = fst.states[s].trs.len();
        let mut j: usize = 0;
        while j < deg
            invariant
                fst.wf(),
                n == fst.num_states_sp(),
                s < n,
                j <= deg,
                deg == old(fst).trs_sp(s as int).len(),
                fst.start_state == fst0.start_state,
                forall|x: int| 0 <= x < n && x != s ==> fst.states@[x] == fst0.states@[x],
                fst.final_sp(s as int) == fst0.final_sp(s as int),
                fst.trs_sp(s as int).len() == deg,
                fst0.states@[s as int] == old(fst).states@[s as int],
                forall|k: int|
                    j <= k < deg ==> #[trigger] fst.trs_sp(s as int)[k] == old(fst).trs_sp(
                        s as int,
                    )[k],
                forall|k: int|
                    0 <= k < j ==> {
                        let t0 = old(fst).trs_sp(s as int)[k];
                        let t1 = #[trigger] fst.trs_sp(s as int)[k];
                        &&& t1.ilabel == t0.olabel
                        &&& t1.olabel == t0.ilabel
                        &&& t1.weight == t0.weight
                        &&& t1.nextstate == t0.nextstate
                    },
            decreases deg - j,
        {
            let tr = fst.states[s].trs[j];
            let nt = Tr {
                ilabel: tr.olabel,
                olabel: tr.ilabel,
                weight: tr.weight,
                nextstate: tr.nextstate,
            };
            let ghost prev = fst.states@;
            let row = &mut fst.states[s];
            row.trs.set(j, nt);
            proof {
                assert(fst.states@[s as int].trs@ == prev[s as int].trs@.update(j as int, nt));
                assert(forall|x: int| 0 <= x < n && x != s ==> fst.states@[x] == prev[x]);
                assert(fst.states@[s as int].targets_below(n as int)) by {
                    assert(prev[s as int].targets_below(n as int));
                    assert forall|k: int|
                        0 <= k < fst.trs_sp(s as int).len() implies (#[trigger] fst.trs_sp(
                        s as int,
                    )[k]).nextstate < n by {
                        if k != j {
                            assert(fst.trs_sp(s as int)[k] == prev[s as int].trs@[k]);
                        }
                    }
                }
                assert(fst.states@[s as int].weights_wf()) by {
                    assert(prev[s as int].weights_wf());
                    assert forall|k: int|
                        0 <= k < fst.trs_sp(s as int).len() implies (#[trigger] fst.trs_sp(
                        s as int,
                    )[k]).weight.wf() by {
                        if k != j {
                            assert(fst.trs_sp(s as int)[k] == prev[s as int].trs@[k]);
                        } else {
                            assert(prev[s as int].trs@[j as int].weight.wf());
                        }
                    }
                }
            }
            j = j + 1;
        }
        proof {
            assert forall|x: int|
                0 <= x < s + 1 implies (#[trigger] fst.trs_sp(x)).len() == old(fst).trs_sp(
                x,
            ).len() by {
                if x < s {
                    assert(fst.states@[x] == fst0.states@[x]);
                    assert(fst0.trs_sp(x).len() == old(fst).trs_sp(x).len());
                }
            }
            assert forall|x: int, j2: int|
                0 <= x < s + 1 && 0 <= j2 < old(fst).trs_sp(x).len() implies {
                    let t0 = old(fst).trs_sp(x)[j2];
                    let t1 = #[trigger] fst.trs_sp(x)[j2];
                    &&& t1.ilabel == t0.olabel
                    &&& t1.olabel == t0.ilabel
                    &&& t1.weight == t0.weight
                    &&& t1.nextstate == t0.nextstate
                } by {
                if x < s {
                    assert(fst.states@[x] == fst0.states@[x]);
                    let t0 = old(fst).trs_sp(x)[j2];
                    let t1 = fst0.trs_sp(x)[j2];
                    assert(t1.ilabel == t0.olabel && t1.olabel == t0.ilabel && t1.weight
                        == t0.weight && t1.nextstate == t0.nextstate);
                }
            }
            assert forall|x: int| 0 <= x < n implies fst.final_sp(x) == old(fst).final_sp(x) by {
                if x < s {
                    assert(fst.states@[x] == fst0.states@[x]);
                    assert(fst0.final_sp(x) == old(fst).final_sp(x));
                } else if x > s {
                    assert(fst.states@[x] == fst0.states@[x]);
                    assert(fst0.states@[x] == old(fst).states@[x]);
                }
            }
        }
        s = s + 1;
    }
}

/// Inverting twice restores the transducer: every observation of the result
/// of two inversions equals the corresponding observation of the original.
pub proof fn lemma_invert_involutive<W: Semiring>(
    f0: VectorFst<W>,
    f1: VectorFst<W>,
    f2: VectorFst<W>,
)
    requires
        inverted(f0, f1),
        inverted(f1, f2),
    ensures
        f2.num_states_sp() == f0.num_states_sp(),
        f2.start_state == f0.start_state,
        forall|s: int| 0 <= s < f0.num_states_sp() ==> f2.final_sp(s) == f0.final_sp(s),
        forall|s: int|
            0 <= s < f0.num_states_sp() ==> #[trigger] f2.trs_sp(s) == f0.trs_sp(s),
{
    assert forall|s: int|
        0 <= s < f0.num_states_sp() implies #[trigger] f2.trs_sp(s) == f0.trs_sp(s) by {
        assert(f2.trs_sp(s) =~= f0.trs_sp(s)) by {
            assert forall|j: int|
                0 <= j < f0.trs_sp(s).len() implies #[trigger] f2.trs_sp(s)[j] == f0.trs_sp(
                s,
            )[j] by {
                let t0 = f0.trs_sp(s)[j];
                let t1 = f1.trs_sp(s)[j];
                let t2 = f2.trs_sp(s)[j];
                assert(t1.ilabel == t0.olabel && t1.olabel == t0.ilabel);
                assert(t2.ilabel == t1.olabel && t2.olabel == t1.ilabel);
            }
        }
    }
}

} // verus!
