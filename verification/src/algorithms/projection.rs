//! Projection: turns a transducer into an acceptor by copying one label side
//! onto the other.

use vstd::prelude::*;
use crate::semirings::Semiring;
use crate::vector_fst::VectorFst;
use crate::Tr;

verus! {

/// Copies the input label of every transition onto its output label (where
/// `project_input` is set) or the output label onto the input label
/// (otherwise). Afterwards every transition carries the same label on both
/// sides: the result is an acceptor.
pub fn project<W: Semiring>(fst: &mut VectorFst<W>, project_input: bool)
    requires
        old(fst).wf(),
    ensures
        final(fst).num_states_sp() == old(fst).num_states_sp(),
        final(fst).start_state == old(fst).start_state,
        forall|s: int|
            0 <= s < old(fst).num_states_sp() ==> final(fst).final_sp(s) == old(fst).final_sp(s),
        forall|s: int|
            0 <= s < old(fst).num_states_sp() ==> (#[trigger] final(fst).trs_sp(s)).len() == old(
                fst,
            ).trs_sp(s).len(),
        forall|s: int, j: int|
            0 <= s < old(fst).num_states_sp() && 0 <= j < old(fst).trs_sp(s).len() ==> {
                let t0 = old(fst).trs_sp(s)[j];
                let t1 = #[trigger] final(fst).trs_sp(s)[j];
                &&& t1.weight == t0.weight
                &&& t1.nextstate == t0.nextstate
                &&& t1.ilabel == (if project_input {
                    t0.ilabel
                } else {
                    t0.olabel
                })
                &&& t1.olabel == t1.ilabel
            },
        forall|s: int, j: int|
            0 <= s < final(fst).num_states_sp() && 0 <= j < final(fst).trs_sp(s).len() ==> (
            #[trigger] final(fst).trs_sp(s)[j]).ilabel == final(fst).trs_sp(s)[j].olabel,
        final(fst).wf(),
{
    let n = fst.num_states();
    let mut s: usize = 0;
    while s < n
        invariant
            fst.wf(),
            n == fst.num_states_sp(),
            n == old(fst).num_states_sp(),
            fst.start_state == old(fst).start_state,
            s <= n,
            forall|x: int| s <= x < n ==> fst.states@[x] == old(fst).states@[x],
            forall|x: int| 0 <= x < n ==> fst.final_sp(x) == old(fst).final_sp(x),
            forall|x: int|
                0 <= x < s ==> (#[trigger] fst.trs_sp(x)).len() == old(fst).trs_sp(x).len(),
            forall|x: int, j: int|
                0 <= x < s && 0 <= j < old(fst).trs_sp(x).len() ==> {
                    let t0 = old(fst).trs_sp(x)[j];
                    let t1 = #[trigger] fst.trs_sp(x)[j];
                    &&& t1.weight == t0.weight
                    &&& t1.nextstate == t0.nextstate
                    &&& t1.ilabel == (if project_input {
                        t0.ilabel
                    } else {
                        t0.olabel
                    })
                    &&& t1.olabel == t1.ilabel
                },
        decreases n - s,
    {
        let ghost fst0 = *fst;
        let deg = fst.states[s].trs.len();
        let mut j: usize = 0;
        while j < deg
            invariant
                fst.wf(),
                n == fst.num_states_sp(),
                s < n,
                j <= deg,
                deg == old(fst).trs_sp(s as int).len(),
                fst.start_state == fst0.start_state,
                forall|x: int| 0 <= x < n && x != s ==> fst.states@[x] == fst0.states@[x],
                fst.final_sp(s as int) == fst0.final_sp(s as int),
                fst.trs_sp(s as int).len() == deg,
                fst0.states@[s as int] == old(fst).states@[s as int],
                forall|k: int|
                    j <= k < deg ==> #[trigger] fst.trs_sp(s as int)[k] == old(fst).trs_sp(
                        s as int,
                    )[k],
                forall|k: int|
                    0 <= k < j ==> {
                        let t0 = old(fst).trs_sp(s as int)[k];
                        let t1 = #[trigger] fst.trs_sp(s as int)[k];
                        &&& t1.weight == t0.weight
                        &&& t1.nextstate == t0.nextstate
                        &&& t1.ilabel == (if project_input {
                            t0.ilabel
                        } else {
                            t0.olabel
                        })
                        &&& t1.olabel == t1.ilabel
                    },
            decreases deg - j,
        {
            let tr = fst.states[s].trs[j];
            let lbl = if project_input {
                tr.ilabel
            } else {
                tr.olabel
            };
            let nt = Tr { ilabel: lbl, olabel: lbl, weight: tr.weight, nextstate: tr.nextstate };
            let ghost prev = fst.states@;
            let row = &mut fst.states[s];
            row.trs.set(j, nt);
            proof {
                assert(fst.states@[s as int].trs@ == prev[s as int].trs@.update(j as int, nt));
                assert(forall|x: int| 0 <= x < n && x != s ==> fst.states@[x] == prev[x]);
                assert(fst.states@[s as int].targets_below(n as int)) by {
                    assert(prev[s as int].targets_below(n as int));
                    assert forall|k: int|
                        0 <= k < fst.trs_sp(s as int).len() implies (#[trigger] fst.trs_sp(
                        s as int,
                    )[k]).nextstate < n by {
                        if k != j {
                            assert(fst.trs_sp(s as int)[k] == prev[s as int].trs@[k]);
                        }
                    }
                }
                assert(fst.states@[s as int].weights_wf()) by {
                    assert(prev[s as int].weights_wf());
                    assert forall|k: int|
                        0 <= k < fst.trs_sp(s as int).len() implies (#[trigger] fst.trs_sp(
                        s as int,
                    )[k]).weight.wf() by {
                        if k != j {
                            assert(fst.trs_sp(s as int)[k] == prev[s as int].trs@[k]);
                        } else {
                            assert(prev[s as int].trs@[j as int].weight.wf());
                        }
                    }
                }
            }
            j = j + 1;
        }
        proof {
            assert forall|x: int|
                0 <= x < s + 1 implies (#[trigger] fst.trs_sp(x)).len() == old(fst).trs_sp(
                x,
            ).len() by {
                if x < s {
                    assert(fst.states@[x] == fst0.states@[x]);
                    assert(fst0.trs_sp(x).len() == old(fst).trs_sp(x).len());
                }
            }
            assert forall|x: int, j2: int|
                0 <= x < s + 1 && 0 <= j2 < old(fst).trs_sp(x).len() implies {
                    let t0 = old(fst).trs_sp(x)[j2];
                    let t1 = #[trigger] fst.trs_sp(x)[j2];
                    &&& t1.weight == t0.weight
                    &&& t1.nextstate == t0.nextstate
                    &&& t1.ilabel == (if project_input {
                        t0.ilabel
                    } else {
                        t0.olabel
                    })
                    &&& t1.olabel == t1.ilabel
                } by {
                if x < s {
                    assert(fst.states@[x] == fst0.states@[x]);
                    let t0 = old(fst).trs_sp(x)[j2];
                    let t1 = fst0.trs_sp(x)[j2];
                    assert(t1.weight == t0.weight && t1.nextstate == t0.nextstate && t1.ilabel
                        == (if project_input {
                        t0.ilabel
                    } else {
                        t0.olabel
                    }) && t1.olabel == t1.ilabel);
                }
            }
            assert forall|x: int| 0 <= x < n implies fst.final_sp(x) == old(fst).final_sp(x) by {
                if x < s {
                    assert(fst.states@[x] == fst0.states@[x]);
                    assert(fst0.final_sp(x) == old(fst).final_sp(x));
                } else if x > s {
                    assert(fst.states@[x] == fst0.states@[x]);
                    assert(fst0.states@[x] == old(fst).states@[x]);
                }
            }
        }
        s = s + 1;
    }
}

/// Projection onto the input side.
pub fn project_input<W: Semiring>(fst: &mut VectorFst<W>)
    requires
        old(fst).wf(),
    ensures
        final(fst).wf(),
        forall|s: int, j: int|
            0 <= s < final(fst).num_states_sp() && 0 <= j < final(fst).trs_sp(s).len() ==> (
            #[trigger] final(fst).trs_sp(s)[j]).ilabel == final(fst).trs_sp(s)[j].olabel,
{
    project(fst, true);
}

/// Projection onto the output side.
pub fn project_output<W: Semiring>(fst: &mut VectorFst<W>)
    requires
        old(fst).wf(),
    ensures
        final(fst).wf(),
        forall|s: int, j: int|
            0 <= s < final(fst).num_states_sp() && 0 <= j < final(fst).trs_sp(s).len() ==> (
            #[trigger] final(fst).trs_sp(s)[j]).ilabel == final(fst).trs_sp(s)[j].olabel,
{
    project(fst, false);
}

} // verus!
