//! Trimming: removes every state that does not lie on a successful path,
//! that is, every state that is not both accessible from the start state and
//! co-accessible to a final state.

use vstd::prelude::*;
use crate::reachability::{
    adj_view, adj_wf, edge, from_roots, has_tr_to, is_path, mark_reachable, reaches,
    reverse_adjacency, forward_adjacency, lemma_reaches_refl,
};
use crate::semirings::Semiring;
use crate::vector_fst::{count_kept, map_trs_spec, VectorFst};
use crate::{FstError, StateId, Tr};

verus! {

/// The adjacency structure of a transducer: entry `s` lists the target of
/// each transition leaving `s`, in order.
pub open spec fn fst_adj<W: Semiring>(fst: VectorFst<W>) -> Seq<Seq<usize>> {
    Seq::new(
        fst.num_states_sp() as nat,
        |s: int| Seq::new(fst.trs_sp(s).len(), |j: int| fst.trs_sp(s)[j].nextstate),
    )
}

/// State `s` is reachable from the start state.
pub open spec fn accessible<W: Semiring>(fst: VectorFst<W>, s: int) -> bool {
    &&& fst.start_state is Some
    &&& reaches(fst_adj(fst), fst.start_state->0 as int, s)
}

/// Some final state is reachable from state `s`.
pub open spec fn coaccessible<W: Semiring>(fst: VectorFst<W>, s: int) -> bool {
    exists|t: int|
        0 <= t < fst.num_states_sp() && fst.final_sp(t) is Some && reaches(fst_adj(fst), s, t)
}

/// An edge of `fst_adj` is exactly a transition of the transducer.
proof fn lemma_fst_adj_edge<W: Semiring>(fst: VectorFst<W>, a: int, b: int)
    requires
        fst.wf(),
    ensures
        edge(fst_adj(fst), a, b) <==> (0 <= a < fst.num_states_sp() && has_tr_to(fst, a, b)),
{
    reveal(has_tr_to);
    if edge(fst_adj(fst), a, b) {
        let j = choose|j: int| 0 <= j < fst_adj(fst)[a].len() && fst_adj(fst)[a][j] == b;
        assert(fst.trs_sp(a)[j].nextstate == b);
    }
    if 0 <= a < fst.num_states_sp() && has_tr_to(fst, a, b) {
        let i = choose|i: int| 0 <= i < fst.trs_sp(a).len() && fst.trs_sp(a)[i].nextstate == b;
        assert(fst_adj(fst)[a][i] == b);
    }
}

/// `fst_adj` is a well-formed adjacency structure.
proof fn lemma_fst_adj_wf<W: Semiring>(fst: VectorFst<W>, n: usize)
    requires
        fst.wf(),
        fst.num_states_sp() == n,
    ensures
        adj_wf(fst_adj(fst)),
        fst_adj(fst).len() == fst.num_states_sp(),
{
    assert forall|s: int, j: int|
        0 <= s < fst_adj(fst).len() && 0 <= j < fst_adj(fst)[s].len() implies (
    #[trigger] fst_adj(fst)[s][j]) < fst_adj(fst).len() by {
        assert(fst.states@[s].targets_below(fst.num_states_sp()));
        assert(fst_adj(fst)[s][j] == fst.trs_sp(s)[j].nextstate);
    }
}

/// Reachability along reversed edges is reversed reachability.
proof fn lemma_reaches_reverse(adj1: Seq<Seq<usize>>, adj2: Seq<Seq<usize>>, a: int, b: int)
    requires
        adj1.len() == adj2.len(),
        forall|x: int, y: int| #[trigger] edge(adj1, x, y) <==> edge(adj2, y, x),
        reaches(adj1, a, b),
    ensures
        reaches(adj2, b, a),
{
    let p = choose|p: Seq<usize>| is_path(adj1, p) && p[0] == a && p.last() == b;
    let q = Seq::new(p.len(), |i: int| p[p.len() - 1 - i]);
    assert(q[0] == p.last());
    assert(q.last() == p[0]);
    assert forall|i: int| 0 <= i < q.len() - 1 implies edge(
        adj2,
        #[trigger] q[i] as int,
        q[i + 1] as int,
    ) by {
        let k = p.len() - 2 - i;
        assert(q[i] == p[k + 1] && q[i + 1] == p[k]);
        assert(edge(adj1, p[k] as int, p[k + 1] as int));
    }
    assert(is_path(adj2, q) && q[0] == b && q.last() == a);
}

/// The result of the trimming traversals: for each state, whether it is
/// accessible and whether it is co-accessible.
pub struct ConnectVisitor {
    /// `access[s]` holds iff state `s` is reachable from the start state.
    pub access: Vec<bool>,
    /// `coaccess[s]` holds iff a final state is reachable from state `s`.
    pub coaccess: Vec<bool>,
}

impl ConnectVisitor {
    /// Runs the two reachability traversals over the transducer.
    pub fn new<W: Semiring>(fst: &VectorFst<W>) -> (r: Self)
        requires
            fst.wf(),
        ensures
            r.access@.len() == fst.num_states_sp(),
            r.coaccess@.len() == fst.num_states_sp(),
            forall|s: int|
                0 <= s < fst.num_states_sp() ==> (r.access@[s] <==> accessible(*fst, s)),
            forall|s: int|
                0 <= s < fst.num_states_sp() ==> (r.coaccess@[s] <==> coaccessible(*fst, s)),
    {
        let n = fst.num_states();
        proof {
            lemma_fst_adj_wf(*fst, n);
        }
        let fadj = forward_adjacency(fst);
        proof {
            assert(adj_view(fadj@) =~~= fst_adj(*fst)) by {
                assert forall|s: int| 0 <= s < n implies adj_view(fadj@)[s] =~= fst_adj(
                    *fst,
                )[s] by {
                    assert(fadj@[s]@.len() == fst.trs_sp(s).len());
                    assert forall|j: int|
                        0 <= j < fadj@[s]@.len() implies fadj@[s]@[j] == fst_adj(*fst)[s][j] by {
                        assert(fadj@[s]@[j] == fst.trs_sp(s)[j].nextstate);
                    }
                }
            }
        }
        let mut start_roots: Vec<usize> = Vec::new();
        match fst.start() {
            Option::Some(s0) => {
                start_roots.push(s0);
            },
            Option::None => {},
        }
        let access = mark_reachable(&fadj, &start_roots);
        proof {
            assert forall|s: int| 0 <= s < n implies (access@[s] <==> accessible(*fst, s)) by {
                reveal(from_roots);
                if fst.start_state is Some {
                    assert(start_roots@.len() == 1);
                    assert(start_roots@[0] == fst.start_state->0);
                } else {
                    assert(start_roots@.len() == 0);
                }
            }
        }
        let radj = reverse_adjacency(fst);
        let mut finals: Vec<usize> = Vec::new();
        let mut t: usize = 0;
        while t < n
            invariant
                fst.wf(),
                n == fst.num_states_sp(),
                t <= n,
                forall|k: int| 0 <= k < finals@.len() ==> (#[trigger] finals@[k]) < n,
                forall|k: int|
                    0 <= k < finals@.len() ==> fst.final_sp(#[trigger] finals@[k] as int) is Some,
                forall|x: int|
                    0 <= x < t && fst.final_sp(x) is Some ==> finals@.contains(x as usize),
            decreases n - t,
        {
            if fst.is_final(t) {
                let ghost f0 = finals@;
                finals.push(t);
                proof {
                    assert(finals@.last() == t);
                    assert forall|x: int|
                        0 <= x < t + 1 && fst.final_sp(x) is Some implies finals@.contains(
                        x as usize,
                    ) by {
                        if x < t {
                            let k = choose|k: int| 0 <= k < f0.len() && f0[k] == x as usize;
                            assert(finals@[k] == x as usize);
                        } else {
                            assert(finals@[finals@.len() - 1] == x as usize);
                        }
                    }
                }
            }
            t = t + 1;
        }
        let coaccess = mark_reachable(&radj, &finals);
        proof {
            let rav = adj_view(radj@);
            assert forall|x: int, y: int| #[trigger] edge(rav, x, y) <==> edge(
                fst_adj(*fst),
                y,
                x,
            ) by {
                lemma_fst_adj_edge(*fst, y, x);
                if edge(rav, x, y) {
                    assert(0 <= y < fst.num_states_sp() && has_tr_to(*fst, y, x));
                }
                if edge(fst_adj(*fst), y, x) {
                    assert(0 <= x < fst.num_states_sp()) by {
                        reveal(has_tr_to);
                        let i = choose|i: int|
                            0 <= i < fst.trs_sp(y).len() && fst.trs_sp(y)[i].nextstate == x;
                        assert(fst.states@[y].targets_below(fst.num_states_sp()));
                    }
                }
            }
            assert forall|s: int| 0 <= s < n implies (coaccess@[s] <==> coaccessible(
                *fst,
                s,
            )) by {
                reveal(from_roots);
                if coaccess@[s] {
                    let r0 = choose|r: int|
                        0 <= r < finals@.len() && reaches(rav, finals@[r] as int, s);
                    lemma_reaches_reverse(rav, fst_adj(*fst), finals@[r0] as int, s);
                    assert(fst.final_sp(finals@[r0] as int) is Some);
                    assert(reaches(fst_adj(*fst), s, finals@[r0] as int));
                }
                if coaccessible(*fst, s) {
                    let t0 = choose|t0: int|
                        0 <= t0 < fst.num_states_sp() && fst.final_sp(t0) is Some && reaches(
                            fst_adj(*fst),
                            s,
                            t0,
                        );
                    lemma_reaches_reverse(fst_adj(*fst), rav, s, t0);
                    assert(finals@.contains(t0 as usize));
                    let r0 = choose|r: int| 0 <= r < finals@.len() && finals@[r] == t0 as usize;
                    assert(reaches(rav, finals@[r0] as int, s));
                }
            }
        }
        ConnectVisitor { access, coaccess }
    }
}

/// Trims the transducer: removes every state that is not on a successful
/// path, renumbering the survivors monotonically. The surviving states are
/// exactly those that were both accessible and co-accessible.
pub fn connect<W: Semiring>(fst: &mut VectorFst<W>) -> (r: Result<(), FstError>)
    requires
        old(fst).wf(),
    ensures
        r is Ok,
        final(fst).is_deletion_of(
            *old(fst),
            Seq::new(
                old(fst).num_states_sp() as nat,
                |s: int| accessible(*old(fst), s) && coaccessible(*old(fst), s),
            ),
        ),
        final(fst).wf(),
{
    let visitor = ConnectVisitor::new(fst);
    let n = fst.num_states();
    let mut dstates: Vec<StateId> = Vec::new();
    let mut s: usize = 0;
    while s < n
        invariant
            fst.wf(),
            *fst == *old(fst),
            n == fst.num_states_sp(),
            s <= n,
            visitor.access@.len() == n,
            visitor.coaccess@.len() == n,
            forall|x: int| 0 <= x < n ==> (visitor.access@[x] <==> accessible(*fst, x)),
            forall|x: int| 0 <= x < n ==> (visitor.coaccess@[x] <==> coaccessible(*fst, x)),
            forall|k: int| 0 <= k < dstates@.len() ==> (#[trigger] dstates@[k]) < n,
            forall|k: int|
                0 <= k < dstates@.len() ==> !(accessible(*fst, #[trigger] dstates@[k] as int)
                    && coaccessible(*fst, dstates@[k] as int)),
            forall|x: int|
                0 <= x < s && !(accessible(*fst, x) && coaccessible(*fst, x))
                    ==> dstates@.contains(x as usize),
        decreases n - s,
    {
        if !visitor.access[s] || !visitor.coaccess[s] {
            let ghost d0 = dstates@;
            dstates.push(s);
            proof {
                assert(dstates@.last() == s);
                assert forall|x: int|
                    0 <= x < s + 1 && !(accessible(*fst, x) && coaccessible(*fst, x)) implies
                    dstates@.contains(x as usize) by {
                    if x < s {
                        let k = choose|k: int| 0 <= k < d0.len() && d0[k] == x as usize;
                        assert(dstates@[k] == x as usize);
                    } else {
                        assert(dstates@[dstates@.len() - 1] == x as usize);
                    }
                }
            }
        }
        s = s + 1;
    }
    let ghost dv = dstates@;
    let r = fst.del_states(dstates);
    proof {
        assert(r is Ok);
        let k1 = Seq::new(old(fst).num_states_sp() as nat, |i: int| !dv.contains(i as usize));
        let k2 = Seq::new(
            old(fst).num_states_sp() as nat,
            |s: int| accessible(*old(fst), s) && coaccessible(*old(fst), s),
        );
        assert forall|i: int| 0 <= i < old(fst).num_states_sp() implies #[trigger] k1[i]
            == k2[i] by {
            if dv.contains(i as usize) {
                let k = choose|k: int| 0 <= k < dv.len() && dv[k] == i as usize;
                assert(!(accessible(*old(fst), dv[k] as int) && coaccessible(
                    *old(fst),
                    dv[k] as int,
                )));
            }
        }
        assert(k1 =~= k2);
    }
    Ok(())
}

/// Every new identifier below the kept count is the rank of some kept state.
proof fn lemma_count_kept_surjective(keep: Seq<bool>, upto: int, t: int)
    requires
        0 <= upto <= keep.len(),
        0 <= t < count_kept(keep, upto),
    ensures
        exists|s: int| 0 <= s < upto && keep[s] && count_kept(keep, s) == t,
    decreases upto,
{
    crate::vector_fst::lemma_count_kept_le(keep, upto);
    if upto > 0 {
        if keep[upto - 1] && t == count_kept(keep, upto - 1) {
            assert(0 <= upto - 1 < upto && keep[upto - 1] && count_kept(keep, upto - 1) == t);
        } else {
            lemma_count_kept_surjective(keep, upto - 1, t);
            let s0 = choose|s0: int|
                0 <= s0 < upto - 1 && keep[s0] && count_kept(keep, s0) == t;
            assert(0 <= s0 < upto && keep[s0] && count_kept(keep, s0) == t);
        }
    }
}

/// The filtered-renumbered transitions keep an entry for every transition
/// with a kept target.
proof fn lemma_map_trs_index<W: Semiring>(trs: Seq<Tr<W>>, keep: Seq<bool>, i: int)
    requires
        0 <= i < trs.len(),
        0 <= trs[i].nextstate < keep.len(),
        keep[trs[i].nextstate as int],
    ensures
        exists|j: int|
            0 <= j < map_trs_spec(trs, keep).len() && (#[trigger] map_trs_spec(
                trs,
                keep,
            )[j]).nextstate == count_kept(keep, trs[i].nextstate as int),
    decreases trs.len(),
{
    if i == trs.len() - 1 {
        let m = map_trs_spec(trs, keep);
        let t = trs.last();
        assert(m == map_trs_spec(trs.drop_last(), keep).push(
            (Tr {
                ilabel: t.ilabel,
                olabel: t.olabel,
                weight: t.weight,
                nextstate: count_kept(keep, t.nextstate as int) as usize,
            }),
        ));
        crate::vector_fst::lemma_count_kept_le(keep, t.nextstate as int);
        assert(m.last().nextstate == count_kept(keep, trs[i].nextstate as int));
    } else {
        lemma_map_trs_index(trs.drop_last(), keep, i);
        let pre = map_trs_spec(trs.drop_last(), keep);
        let j = choose|j: int|
            0 <= j < pre.len() && (#[trigger] pre[j]).nextstate == count_kept(
                keep,
                trs.drop_last()[i].nextstate as int,
            );
        assert(map_trs_spec(trs, keep)[j].nextstate == count_kept(
            keep,
            trs[i].nextstate as int,
        ));
    }
}

/// A prefix and a suffix of a path witness reachability to and from each of
/// its vertices.
proof fn lemma_path_split(adj: Seq<Seq<usize>>, p: Seq<usize>, i: int)
    requires
        is_path(adj, p),
        0 <= i < p.len(),
    ensures
        reaches(adj, p[0] as int, p[i] as int),
        reaches(adj, p[i] as int, p.last() as int),
{
    let q1 = p.subrange(0, i + 1);
    assert(is_path(adj, q1)) by {
        assert forall|k: int| 0 <= k < q1.len() - 1 implies edge(
            adj,
            #[trigger] q1[k] as int,
            q1[k + 1] as int,
        ) by {
            assert(q1[k] == p[k] && q1[k + 1] == p[k + 1]);
            assert(edge(adj, p[k] as int, p[k + 1] as int));
        }
    }
    assert(q1[0] == p[0] && q1.last() == p[i]);
    let q2 = p.subrange(i, p.len() as int);
    assert(is_path(adj, q2)) by {
        assert forall|k: int| 0 <= k < q2.len() - 1 implies edge(
            adj,
            #[trigger] q2[k] as int,
            q2[k + 1] as int,
        ) by {
            assert(q2[k] == p[k + i] && q2[k + 1] == p[k + i + 1]);
            assert(edge(adj, p[k + i] as int, p[k + i + 1] as int));
        }
    }
    assert(q2[0] == p[i] && q2.last() == p.last());
}

/// A path of the original transducer that stays inside the kept states maps,
/// rank by rank, to a path of the trimmed transducer.
proof fn lemma_mapped_path<W: Semiring>(
    f0: VectorFst<W>,
    f1: VectorFst<W>,
    keep: Seq<bool>,
    p: Seq<usize>,
)
    requires
        f0.wf(),
        f0.num_states_sp() <= usize::MAX,
        keep.len() == f0.num_states_sp(),
        f1.is_deletion_of(f0, keep),
        is_path(fst_adj(f0), p),
        forall|i: int| 0 <= i < p.len() ==> keep[#[trigger] p[i] as int],
    ensures
        reaches(
            fst_adj(f1),
            count_kept(keep, p[0] as int),
            count_kept(keep, p.last() as int),
        ),
{
    let a0 = fst_adj(f0);
    let a1 = fst_adj(f1);
    let n = f0.num_states_sp();
    let q = Seq::new(p.len(), |i: int| count_kept(keep, p[i] as int) as usize);
    assert forall|i: int| 0 <= i < q.len() implies (#[trigger] q[i]) < a1.len() by {
        crate::vector_fst::lemma_count_kept_mono(keep, p[i] as int, n);
        crate::vector_fst::lemma_count_kept_le(keep, p[i] as int);
    }
    assert forall|i: int| 0 <= i < q.len() - 1 implies edge(
        a1,
        #[trigger] q[i] as int,
        q[i + 1] as int,
    ) by {
        assert(edge(a0, p[i] as int, p[i + 1] as int));
        let j = choose|j: int| 0 <= j < a0[p[i] as int].len() && a0[p[i] as int][j] == p[i + 1];
        assert(f0.trs_sp(p[i] as int)[j].nextstate == p[i + 1]);
        assert(f0.states@[p[i] as int].targets_below(n));
        lemma_map_trs_index(f0.trs_sp(p[i] as int), keep, j);
        let r = count_kept(keep, p[i] as int);
        assert(f1.trs_sp(r) == map_trs_spec(f0.trs_sp(p[i] as int), keep));
        let j2 = choose|j2: int|
            0 <= j2 < map_trs_spec(f0.trs_sp(p[i] as int), keep).len() && (
            #[trigger] map_trs_spec(f0.trs_sp(p[i] as int), keep)[j2]).nextstate == count_kept(
                keep,
                f0.trs_sp(p[i] as int)[j].nextstate as int,
            );
        crate::vector_fst::lemma_count_kept_mono(keep, p[i] as int, n);
        crate::vector_fst::lemma_count_kept_le(keep, p[i] as int);
        assert(a1[q[i] as int][j2] == q[i + 1]);
    }
    assert(is_path(a1, q));
    crate::vector_fst::lemma_count_kept_le(keep, p[0] as int);
    crate::vector_fst::lemma_count_kept_le(keep, p.last() as int);
    assert(q[0] == count_kept(keep, p[0] as int));
    assert(q.last() == count_kept(keep, p.last() as int));
}

/// The trimming mask of a transducer: a state is kept exactly where it lies
/// on a successful path.
pub open spec fn connect_keep<W: Semiring>(fst: VectorFst<W>) -> Seq<bool> {
    Seq::new(fst.num_states_sp() as nat, |s: int| accessible(fst, s) && coaccessible(fst, s))
}

/// The state lies on a successful path: it is both accessible and
/// co-accessible.
pub open spec fn on_successful_path<W: Semiring>(fst: VectorFst<W>, t: int) -> bool {
    accessible(fst, t) && coaccessible(fst, t)
}

/// After trimming, every state of the result lies on a successful path: it
/// is both accessible and co-accessible.
pub proof fn lemma_connect_trim<W: Semiring>(f0: VectorFst<W>, f1: VectorFst<W>)
    requires
        f0.wf(),
        f0.num_states_sp() <= usize::MAX,
        f1.is_deletion_of(f0, connect_keep(f0)),
    ensures
        forall|t: int| 0 <= t < f1.num_states_sp() ==> #[trigger] on_successful_path(f1, t),
{
    let keep = connect_keep(f0);
    let n = f0.num_states_sp();
    let a0 = fst_adj(f0);
    assert forall|t: int|
        0 <= t < f1.num_states_sp() implies #[trigger] on_successful_path(f1, t) by {
        lemma_count_kept_surjective(keep, n, t);
        let s = choose|s: int| 0 <= s < n && keep[s] && count_kept(keep, s) == t;
        assert(accessible(f0, s) && coaccessible(f0, s));
        let s0 = f0.start_state->0;
        let pa = choose|pa: Seq<usize>|
            is_path(a0, pa) && pa[0] == s0 as int && pa.last() == s;
        let tfin = choose|tf: int|
            0 <= tf < n && f0.final_sp(tf) is Some && reaches(a0, s, tf);
        // Every vertex of the access path is kept: accessible by its prefix,
        // co-accessible through the rest of the path and onwards to the
        // chosen final state.
        let pcc = choose|pcc: Seq<usize>| is_path(a0, pcc) && pcc[0] == s && pcc.last() == tfin;
        assert forall|i: int| 0 <= i < pa.len() implies keep[#[trigger] pa[i] as int] by {
            lemma_path_split(a0, pa, i);
            assert(reaches(a0, s0 as int, pa[i] as int));
            assert(accessible(f0, pa[i] as int));
            crate::reachability::lemma_reaches_trans(a0, pa[i] as int, s, tfin);
            assert(coaccessible(f0, pa[i] as int));
            assert(0 <= pa[i] < n);
        }
        assert forall|i: int| 0 <= i < pcc.len() implies keep[#[trigger] pcc[i] as int] by {
            lemma_path_split(a0, pcc, i);
            assert(reaches(a0, s, pcc[i] as int));
            crate::reachability::lemma_reaches_trans(a0, s0 as int, s, pcc[i] as int);
            assert(accessible(f0, pcc[i] as int));
            assert(reaches(a0, pcc[i] as int, tfin));
            assert(coaccessible(f0, pcc[i] as int));
            assert(0 <= pcc[i] < n);
        }
        lemma_mapped_path(f0, f1, keep, pa);
        lemma_mapped_path(f0, f1, keep, pcc);
        assert(keep[s0 as int]) by {
            assert(s0 < f0.num_states_sp());
            crate::reachability::lemma_reaches_refl(a0, s0);
            assert(accessible(f0, s0 as int));
            crate::reachability::lemma_reaches_trans(a0, s0 as int, s, tfin);
            assert(coaccessible(f0, s0 as int));
        }
        assert(keep[tfin]) by {
            assert(keep[pcc.last() as int]);
        }
        assert(f1.start_state == Some(count_kept(keep, s0 as int) as usize));
        crate::vector_fst::lemma_count_kept_le(keep, s0 as int);
        crate::vector_fst::lemma_count_kept_le(keep, s);
        assert(accessible(f1, t)) by {
            assert(count_kept(keep, pa[0] as int) == count_kept(keep, s0 as int));
            assert(count_kept(keep, pa.last() as int) == count_kept(keep, s));
            assert(reaches(fst_adj(f1), count_kept(keep, s0 as int), count_kept(keep, s)));
            assert(f1.start_state->0 as int == count_kept(keep, s0 as int));
        }
        assert(coaccessible(f1, t)) by {
            let rt = count_kept(keep, tfin);
            assert(f1.final_sp(rt) == f0.final_sp(tfin));
            assert(count_kept(keep, pcc[0] as int) == count_kept(keep, s));
            assert(count_kept(keep, pcc.last() as int) == rt);
            assert(reaches(fst_adj(f1), count_kept(keep, s), rt));
            crate::vector_fst::lemma_count_kept_mono(keep, tfin, n);
            crate::vector_fst::lemma_count_kept_le(keep, tfin);
            assert(0 <= rt < f1.num_states_sp());
        }
    }
}

} // verus!
