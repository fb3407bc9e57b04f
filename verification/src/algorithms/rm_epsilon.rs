//! Epsilon removal: eliminates the transitions whose both labels are
//! epsilon. Each state's transitions become its direct non-epsilon
//! transitions joined with the non-epsilon transitions of the states its
//! epsilon closure reaches, scaled by the closure weight; final weights
//! absorb the closure-to-final contribution. The epsilon subgraph must be
//! acyclic, so that the closure is a finite sum.

use vstd::prelude::*;
use crate::reachability::{adj_view, adj_wf, edge, from_roots, mark_reachable, reaches};
use crate::semirings::Semiring;
use crate::vector_fst::{VectorFst, VectorFstState};
use crate::{FstError, Tr, EPS_LABEL};

verus! {

/// A transition that is an epsilon on both sides.
pub open spec fn is_full_eps<W>(t: Tr<W>) -> bool {
    t.ilabel == EPS_LABEL && t.olabel == EPS_LABEL
}

/// The targets of the full-epsilon transitions of a state, in order.
pub open spec fn eps_targets<W>(trs: Seq<Tr<W>>) -> Seq<usize>
    decreases trs.len(),
{
    if trs.len() == 0 {
        Seq::empty()
    } else if is_full_eps(trs.last()) {
        eps_targets(trs.drop_last()).push(trs.last().nextstate)
    } else {
        eps_targets(trs.drop_last())
    }
}

/// The adjacency structure of the epsilon subgraph.
pub open spec fn eps_adj<W: Semiring>(fst: VectorFst<W>) -> Seq<Seq<usize>> {
    Seq::new(fst.num_states_sp() as nat, |v: int| eps_targets(fst.trs_sp(v)))
}

/// The epsilon subgraph has a cycle.
pub open spec fn eps_cyclic<W: Semiring>(fst: VectorFst<W>) -> bool {
    exists|x: int, y: int| #[trigger] edge(eps_adj(fst), x, y) && reaches(eps_adj(fst), y, x)
}

/// Membership in the epsilon targets is having a full-epsilon transition.
proof fn lemma_eps_targets_member<W>(trs: Seq<Tr<W>>, y: usize)
    ensures
        eps_targets(trs).contains(y) <==> (exists|i: int|
            0 <= i < trs.len() && is_full_eps(#[trigger] trs[i]) && trs[i].nextstate == y),
    decreases trs.len(),
{
    if trs.len() > 0 {
        lemma_eps_targets_member(trs.drop_last(), y);
        if eps_targets(trs).contains(y) {
            if is_full_eps(trs.last()) && trs.last().nextstate == y {
                assert(is_full_eps(trs[trs.len() - 1]) && trs[trs.len() - 1].nextstate == y);
            } else {
                let k = choose|k: int|
                    0 <= k < eps_targets(trs).len() && eps_targets(trs)[k] == y;
                if is_full_eps(trs.last()) {
                    assert(k < eps_targets(trs).len() - 1);
                    assert(eps_targets(trs.drop_last())[k] == y);
                    assert(eps_targets(trs.drop_last()).contains(y));
                } else {
                    assert(eps_targets(trs.drop_last()).contains(y));
                }
                let i = choose|i: int|
                    0 <= i < trs.drop_last().len() && is_full_eps(
                        #[trigger] trs.drop_last()[i],
                    ) && trs.drop_last()[i].nextstate == y;
                assert(is_full_eps(trs[i]) && trs[i].nextstate == y);
            }
        }
        if exists|i: int|
            0 <= i < trs.len() && is_full_eps(#[trigger] trs[i]) && trs[i].nextstate == y {
            let i = choose|i: int|
                0 <= i < trs.len() && is_full_eps(#[trigger] trs[i]) && trs[i].nextstate == y;
            if i == trs.len() - 1 {
                assert(eps_targets(trs).last() == y);
            } else {
                assert(is_full_eps(trs.drop_last()[i]) && trs.drop_last()[i].nextstate == y);
                assert(eps_targets(trs.drop_last()).contains(y));
                let k = choose|k: int|
                    0 <= k < eps_targets(trs.drop_last()).len() && eps_targets(
                        trs.drop_last(),
                    )[k] == y;
                if is_full_eps(trs.last()) {
                    assert(eps_targets(trs)[k] == y);
                } else {
                    assert(eps_targets(trs)[k] == y);
                }
            }
        }
    }
}

/// Builds the epsilon-subgraph adjacency of a transducer.
fn build_eps_adj<W: Semiring>(fst: &VectorFst<W>) -> (adj: Vec<Vec<usize>>)
    requires
        fst.wf(),
    ensures
        adj_view(adj@) =~~= eps_adj(*fst),
        adj@.len() == fst.num_states_sp(),
        adj_wf(adj_view(adj@)),
{
    let n = fst.num_states();
    let mut adj: Vec<Vec<usize>> = Vec::new();
    let mut v: usize = 0;
    while v < n
        invariant
            fst.wf(),
            n == fst.num_states_sp(),
            v <= n,
            adj@.len() == v,
            forall|x: int| 0 <= x < v ==> (#[trigger] adj@[x])@ == eps_targets(fst.trs_sp(x)),
        decreases n - v,
    {
        let trs = &fst.states[v].trs;
        let mut row: Vec<usize> = Vec::new();
        let mut j: usize = 0;
        while j < trs.len()
            invariant
                fst.wf(),
                v < fst.num_states_sp(),
                trs@ == fst.trs_sp(v as int),
                j <= trs@.len(),
                row@ == eps_targets(trs@.subrange(0, j as int)),
            decreases trs@.len() - j,
        {
            let t = trs[j];
            proof {
                assert(trs@.subrange(0, j + 1).drop_last() =~= trs@.subrange(0, j as int));
                assert(trs@.subrange(0, j + 1).last() == t);
            }
            if t.ilabel == EPS_LABEL && t.olabel == EPS_LABEL {
                row.push(t.nextstate);
            }
            j = j + 1;
        }
        proof {
            assert(trs@.subrange(0, trs@.len() as int) =~= trs@);
        }
        adj.push(row);
        v = v + 1;
    }
    proof {
        assert(adj_view(adj@) =~~= eps_adj(*fst)) by {
            assert forall|x: int| 0 <= x < n implies adj_view(adj@)[x] =~= eps_adj(*fst)[x] by {
                assert(adj@[x]@ == eps_targets(fst.trs_sp(x)));
            }
        }
        assert forall|x: int, j: int|
            0 <= x < adj_view(adj@).len() && 0 <= j < adj_view(adj@)[x].len() implies (
        #[trigger] adj_view(adj@)[x][j]) < adj_view(adj@).len() by {
            assert(adj@[x]@ == eps_targets(fst.trs_sp(x)));
            assert(eps_targets(fst.trs_sp(x)).contains(eps_targets(fst.trs_sp(x))[j]));
            lemma_eps_targets_member(fst.trs_sp(x), eps_targets(fst.trs_sp(x))[j]);
            let i = choose|i: int|
                0 <= i < fst.trs_sp(x).len() && is_full_eps(#[trigger] fst.trs_sp(x)[i])
                    && fst.trs_sp(x)[i].nextstate == eps_targets(fst.trs_sp(x))[j];
            assert(fst.states@[x].targets_below(fst.num_states_sp()));
        }
    }
    adj
}

/// Whether the epsilon subgraph has a cycle, by one reverse-reachability
/// query per epsilon transition.
fn check_eps_cyclic<W: Semiring>(fst: &VectorFst<W>) -> (r: bool)
    requires
        fst.wf(),
    ensures
        r <==> eps_cyclic(*fst),
{
    let adj = build_eps_adj(fst);
    let n = adj.len();
    let ghost av = adj_view(adj@);
    let mut x: usize = 0;
    while x < n
        invariant
            fst.wf(),
            av == adj_view(adj@),
            av =~~= eps_adj(*fst),
            adj_wf(av),
            n == av.len(),
            n == fst.num_states_sp(),
            x <= n,
            forall|a: int, j: int|
                0 <= a < x && 0 <= j < av[a].len() ==> !reaches(av, #[trigger] av[a][j] as int, a),
        decreases n - x,
    {
        let deg = adj[x].len();
        let mut j: usize = 0;
        while j < deg
            invariant
                fst.wf(),
                av == adj_view(adj@),
                av =~~= eps_adj(*fst),
                adj_wf(av),
                n == av.len(),
                n == fst.num_states_sp(),
                x < n,
                deg == av[x as int].len(),
                j <= deg,
                forall|a: int, j2: int|
                    0 <= a < x && 0 <= j2 < av[a].len() ==> !reaches(
                        av,
                        #[trigger] av[a][j2] as int,
                        a,
                    ),
                forall|j2: int| 0 <= j2 < j ==> !reaches(av, #[trigger] av[x as int][j2] as int, x as int),
            decreases deg - j,
        {
            let y = adj[x][j];
            let mut roots: Vec<usize> = Vec::new();
            roots.push(y);
            let marked = mark_reachable(&adj, &roots);
            if marked[x] {
                proof {
                    assert(from_roots(av, roots@, x as int));
                    reveal(from_roots);
                    assert(reaches(av, y as int, x as int));
                    assert(edge(av, x as int, y as int)) by {
                        assert(av[x as int][j as int] == y);
                    }
                    assert(eps_cyclic(*fst)) by {
                        assert(edge(eps_adj(*fst), x as int, y as int) && reaches(
                            eps_adj(*fst),
                            y as int,
                            x as int,
                        ));
                    }
                }
                return true;
            }
            proof {
                assert(!from_roots(av, roots@, x as int));
                assert(!reaches(av, av[x as int][j as int] as int, x as int)) by {
                    reveal(from_roots);
                    if reaches(av, y as int, x as int) {
                        assert(roots@[0] == y);
                        assert(from_roots(av, roots@, x as int));
                    }
                }
            }
            j = j + 1;
        }
        x = x + 1;
    }
    proof {
        assert(!eps_cyclic(*fst)) by {
            if eps_cyclic(*fst) {
                let (a, b) = choose|a: int, b: int|
                    #[trigger] edge(eps_adj(*fst), a, b) && reaches(eps_adj(*fst), b, a);
                assert(edge(av, a, b));
                let jw = choose|jw: int| 0 <= jw < av[a].len() && av[a][jw] == b;
                assert(!reaches(av, av[a][jw] as int, a));
            }
        }
    }
    false
}

/// The contribution of the first `j` transitions of a state to the closure
/// weight of target `u`: the plus-fold of `pv (*) w` over its full-epsilon
/// transitions into `u`.
pub open spec fn tr_sum<W: Semiring>(trs: Seq<Tr<W>>, pv: W, u: int, j: int) -> W
    decreases j,
{
    if j <= 0 {
        W::sp_zero()
    } else {
        let rest = tr_sum(trs, pv, u, j - 1);
        if is_full_eps(trs[j - 1]) && trs[j - 1].nextstate == u {
            W::sp_plus(rest, W::sp_times(pv, trs[j - 1].weight))
        } else {
            rest
        }
    }
}

/// Whether every combination taken by `tr_sum` is accepted.
pub open spec fn tr_sum_def<W: Semiring>(trs: Seq<Tr<W>>, pv: W, u: int, j: int) -> bool
    decreases j,
{
    if j <= 0 {
        true
    } else {
        tr_sum_def(trs, pv, u, j - 1) && (is_full_eps(trs[j - 1]) && trs[j - 1].nextstate == u
            ==> W::times_defined(pv, trs[j - 1].weight) && W::plus_defined(
            tr_sum(trs, pv, u, j - 1),
            W::sp_times(pv, trs[j - 1].weight),
        ))
    }
}

/// The contribution of the first `v` states to the closure weight of `u`.
pub open spec fn state_sum<W: Semiring>(fst: VectorFst<W>, prev: Seq<W>, u: int, v: int) -> W
    decreases v,
{
    if v <= 0 {
        W::sp_zero()
    } else {
        W::sp_plus(
            state_sum(fst, prev, u, v - 1),
            tr_sum(fst.trs_sp(v - 1), prev[v - 1], u, fst.trs_sp(v - 1).len() as int),
        )
    }
}

/// Whether every combination taken by `state_sum` is accepted.
pub open spec fn state_sum_def<W: Semiring>(
    fst: VectorFst<W>,
    prev: Seq<W>,
    u: int,
    v: int,
) -> bool
    decreases v,
{
    if v <= 0 {
        true
    } else {
        &&& state_sum_def(fst, prev, u, v - 1)
        &&& tr_sum_def(fst.trs_sp(v - 1), prev[v - 1], u, fst.trs_sp(v - 1).len() as int)
        &&& W::plus_defined(
            state_sum(fst, prev, u, v - 1),
            tr_sum(fst.trs_sp(v - 1), prev[v - 1], u, fst.trs_sp(v - 1).len() as int),
        )
    }
}

/// The seed of the closure: one at the source, zero elsewhere.
pub open spec fn closure_base<W: Semiring>(s: int, u: int) -> W {
    if u == s {
        W::sp_one()
    } else {
        W::sp_zero()
    }
}

/// The sums, over epsilon paths of length at most `k`, of the path weights
/// from `s` to each state: one relaxation round per length step.
pub open spec fn closure_vec<W: Semiring>(fst: VectorFst<W>, s: int, k: nat) -> Seq<W>
    decreases k,
{
    if k == 0 {
        Seq::new(fst.num_states_sp() as nat, |u: int| closure_base::<W>(s, u))
    } else {
        let prev = closure_vec(fst, s, (k - 1) as nat);
        Seq::new(
            fst.num_states_sp() as nat,
            |u: int|
                W::sp_plus(
                    closure_base::<W>(s, u),
                    state_sum(fst, prev, u, fst.num_states_sp()),
                ),
        )
    }
}

/// Whether every combination taken by the closure rounds is accepted.
pub open spec fn closure_vec_def<W: Semiring>(fst: VectorFst<W>, s: int, k: nat) -> bool
    decreases k,
{
    if k == 0 {
        true
    } else {
        let prev = closure_vec(fst, s, (k - 1) as nat);
        &&& closure_vec_def(fst, s, (k - 1) as nat)
        &&& (forall|u: int|
            0 <= u < fst.num_states_sp() ==> #[trigger] state_sum_def(
                fst,
                prev,
                u,
                fst.num_states_sp(),
            ) && W::plus_defined(
                closure_base::<W>(s, u),
                state_sum(fst, prev, u, fst.num_states_sp()),
            ))
    }
}

/// The epsilon-closure weights of a source state: the path sums over epsilon
/// paths of length at most the state count. On an epsilon-acyclic transducer
/// every epsilon path is shorter than that, so this is the whole closure.
pub open spec fn eps_closure_row_sp<W: Semiring>(fst: VectorFst<W>, s: int) -> Seq<W> {
    closure_vec(fst, s, fst.num_states_sp() as nat)
}

/// An undefined closure round stays undefined in every later round.
proof fn lemma_closure_def_mono<W: Semiring>(fst: VectorFst<W>, s: int, k1: nat, k2: nat)
    requires
        k1 <= k2,
        !closure_vec_def(fst, s, k1),
    ensures
        !closure_vec_def(fst, s, k2),
    decreases k2,
{
    if k1 < k2 {
        lemma_closure_def_mono(fst, s, k1, (k2 - 1) as nat);
    }
}

/// A state's non-epsilon transitions, scaled on the left by a closure weight.
pub open spec fn scaled_non_eps<W: Semiring>(trs: Seq<Tr<W>>, d: W) -> Seq<Tr<W>>
    decreases trs.len(),
{
    if trs.len() == 0 {
        Seq::empty()
    } else if is_full_eps(trs.last()) {
        scaled_non_eps(trs.drop_last(), d)
    } else {
        scaled_non_eps(trs.drop_last(), d).push(
            (Tr {
                ilabel: trs.last().ilabel,
                olabel: trs.last().olabel,
                weight: W::sp_times(d, trs.last().weight),
                nextstate: trs.last().nextstate,
            }),
        )
    }
}

/// Whether every product taken by the scaling is accepted.
pub open spec fn scaled_def<W: Semiring>(trs: Seq<Tr<W>>, d: W) -> bool
    decreases trs.len(),
{
    if trs.len() == 0 {
        true
    } else {
        scaled_def(trs.drop_last(), d) && (!is_full_eps(trs.last()) ==> W::times_defined(
            d,
            trs.last().weight,
        ))
    }
}

/// The epsilon-free transitions of a state after removal: the scaled
/// non-epsilon transitions of every state its closure reaches with a
/// non-zero weight, in state order.
pub open spec fn rm_row<W: Semiring>(fst: VectorFst<W>, dist: Seq<W>, t: int) -> Seq<Tr<W>>
    decreases t,
{
    if t <= 0 {
        Seq::empty()
    } else {
        rm_row(fst, dist, t - 1) + (if dist[t - 1] == W::sp_zero() {
            Seq::empty()
        } else {
            scaled_non_eps(fst.trs_sp(t - 1), dist[t - 1])
        })
    }
}

/// Whether every product taken by the row construction is accepted.
pub open spec fn rm_row_def<W: Semiring>(fst: VectorFst<W>, dist: Seq<W>, t: int) -> bool
    decreases t,
{
    if t <= 0 {
        true
    } else {
        rm_row_def(fst, dist, t - 1) && (dist[t - 1] != W::sp_zero() ==> scaled_def(
            fst.trs_sp(t - 1),
            dist[t - 1],
        ))
    }
}

/// The closure-to-final contribution of a state: the plus-fold of
/// `closure (*) final` over the final states.
pub open spec fn final_sum<W: Semiring>(fst: VectorFst<W>, dist: Seq<W>, t: int) -> W
    decreases t,
{
    if t <= 0 {
        W::sp_zero()
    } else {
        let rest = final_sum(fst, dist, t - 1);
        if fst.final_sp(t - 1) is Some {
            W::sp_plus(rest, W::sp_times(dist[t - 1], fst.final_sp(t - 1)->0))
        } else {
            rest
        }
    }
}

/// Whether every combination taken by the final fold is accepted.
pub open spec fn final_sum_def<W: Semiring>(fst: VectorFst<W>, dist: Seq<W>, t: int) -> bool
    decreases t,
{
    if t <= 0 {
        true
    } else {
        final_sum_def(fst, dist, t - 1) && (fst.final_sp(t - 1) is Some ==> W::times_defined(
            dist[t - 1],
            fst.final_sp(t - 1)->0,
        ) && W::plus_defined(
            final_sum(fst, dist, t - 1),
            W::sp_times(dist[t - 1], fst.final_sp(t - 1)->0),
        ))
    }
}

/// Whether every weight combination of the whole removal is accepted.
pub open spec fn rm_all_defined<W: Semiring>(fst: VectorFst<W>) -> bool {
    forall|s: int|
        0 <= s < fst.num_states_sp() ==> #[trigger] closure_vec_def(
            fst,
            s,
            fst.num_states_sp() as nat,
        ) && rm_row_def(fst, eps_closure_row_sp(fst, s), fst.num_states_sp())
            && final_sum_def(fst, eps_closure_row_sp(fst, s), fst.num_states_sp())
}

/// Computes the epsilon-closure weights of one source state by running the
/// relaxation recurrence for as many rounds as there are states.
fn eps_closure_row<W: Semiring>(fst: &VectorFst<W>, s: usize) -> (r: Result<Vec<W>, FstError>)
    requires
        fst.wf(),
        s < fst.num_states_sp(),
    ensures
        r is Ok <==> closure_vec_def(*fst, s as int, fst.num_states_sp() as nat),
        r is Err ==> r == Err::<Vec<W>, FstError>(FstError::IncompatibleWeights),
        r is Ok ==> r->Ok_0@ == eps_closure_row_sp(*fst, s as int),
        r is Ok ==> forall|u: int| 0 <= u < r->Ok_0@.len() ==> (#[trigger] r->Ok_0@[u]).wf(),
{
    let n = fst.num_states();
    let mut vec: Vec<W> = Vec::new();
    let mut u: usize = 0;
    while u < n
        invariant
            fst.wf(),
            n == fst.num_states_sp(),
            s < n,
            u <= n,
            vec@.len() == u,
            forall|x: int| 0 <= x < u ==> #[trigger] vec@[x] == closure_base::<W>(s as int, x),
            forall|x: int| 0 <= x < u ==> (#[trigger] vec@[x]).wf(),
        decreases n - u,
    {
        proof {
            W::lemma_identities_wf();
        }
        if u == s {
            vec.push(W::one());
        } else {
            vec.push(W::zero());
        }
        u = u + 1;
    }
    proof {
        assert(vec@ =~= closure_vec(*fst, s as int, 0));
    }
    let mut k: usize = 0;
    while k < n
        invariant
            fst.wf(),
            n == fst.num_states_sp(),
            s < n,
            k <= n,
            closure_vec_def(*fst, s as int, k as nat),
            vec@ == closure_vec(*fst, s as int, k as nat),
            vec@.len() == n,
            forall|x: int| 0 <= x < n ==> (#[trigger] vec@[x]).wf(),
        decreases n - k,
    {
        let mut new_vec: Vec<W> = Vec::new();
        let mut u: usize = 0;
        while u < n
            invariant
                fst.wf(),
                n == fst.num_states_sp(),
                s < n,
                k < n,
                u <= n,
                closure_vec_def(*fst, s as int, k as nat),
                vec@ == closure_vec(*fst, s as int, k as nat),
                vec@.len() == n,
                forall|x: int| 0 <= x < n ==> (#[trigger] vec@[x]).wf(),
                new_vec@.len() == u,
                forall|x: int|
                    0 <= x < u ==> #[trigger] new_vec@[x] == W::sp_plus(
                        closure_base::<W>(s as int, x),
                        state_sum(*fst, vec@, x, n as int),
                    ),
                forall|x: int| 0 <= x < u ==> (#[trigger] new_vec@[x]).wf(),
                forall|x: int|
                    0 <= x < u ==> #[trigger] state_sum_def(*fst, vec@, x, n as int),
                forall|x: int|
                    0 <= x < u ==> W::plus_defined(
                        closure_base::<W>(s as int, x),
                        #[trigger] state_sum(*fst, vec@, x, n as int),
                    ),
            decreases n - u,
        {
            let mut sum = W::zero();
            proof {
                W::lemma_identities_wf();
            }
            let mut v: usize = 0;
            while v < n
                invariant
                    fst.wf(),
                    n == fst.num_states_sp(),
                    s < n,
                    u < n,
                    v <= n,
                    k < n,
                    closure_vec_def(*fst, s as int, k as nat),
                    vec@ == closure_vec(*fst, s as int, k as nat),
                    vec@.len() == n,
                    forall|x: int| 0 <= x < n ==> (#[trigger] vec@[x]).wf(),
                    sum == state_sum(*fst, vec@, u as int, v as int),
                    state_sum_def(*fst, vec@, u as int, v as int),
                    sum.wf(),
                decreases n - v,
            {
                let trs = &fst.states[v].trs;
                let mut term = W::zero();
                proof {
                    W::lemma_identities_wf();
                }
                let mut j: usize = 0;
                while j < trs.len()
                    invariant
                        fst.wf(),
                        n == fst.num_states_sp(),
                        s < n,
                        u < n,
                        v < n,
                        k < n,
                        closure_vec_def(*fst, s as int, k as nat),
                        vec@ == closure_vec(*fst, s as int, k as nat),
                        vec@.len() == n,
                        forall|x: int| 0 <= x < n ==> (#[trigger] vec@[x]).wf(),
                        trs@ == fst.trs_sp(v as int),
                        j <= trs@.len(),
                        term == tr_sum(trs@, vec@[v as int], u as int, j as int),
                        tr_sum_def(trs@, vec@[v as int], u as int, j as int),
                        term.wf(),
                        sum == state_sum(*fst, vec@, u as int, v as int),
                        state_sum_def(*fst, vec@, u as int, v as int),
                        sum.wf(),
                    decreases trs@.len() - j,
                {
                    let t = trs[j];
                    if t.ilabel == EPS_LABEL && t.olabel == EPS_LABEL && t.nextstate == u {
                        proof {
                            assert(fst.states@[v as int].weights_wf());
                            assert(t.weight.wf());
                        }
                        let mut prod = vec[v];
                        match prod.times_assign(&t.weight) {
                            Ok(()) => {},
                            Err(e) => {
                                proof {
                                    assert(!tr_sum_def(trs@, vec@[v as int], u as int, j + 1));
                                    lemma_tr_sum_def_mono(
                                        trs@,
                                        vec@[v as int],
                                        u as int,
                                        j + 1,
                                        trs@.len() as int,
                                    );
                                    assert(!state_sum_def(*fst, vec@, u as int, v + 1));
                                    lemma_state_sum_def_mono(
                                        *fst,
                                        vec@,
                                        u as int,
                                        v + 1,
                                        n as int,
                                    );
                                    assert(!closure_vec_def(*fst, s as int, (k + 1) as nat));
                                    lemma_closure_def_mono(
                                        *fst,
                                        s as int,
                                        (k + 1) as nat,
                                        n as nat,
                                    );
                                }
                                return Err(e);
                            },
                        }
                        match term.plus_assign(&prod) {
                            Ok(()) => {},
                            Err(e) => {
                                proof {
                                    assert(!tr_sum_def(trs@, vec@[v as int], u as int, j + 1));
                                    lemma_tr_sum_def_mono(
                                        trs@,
                                        vec@[v as int],
                                        u as int,
                                        j + 1,
                                        trs@.len() as int,
                                    );
                                    assert(!state_sum_def(*fst, vec@, u as int, v + 1));
                                    lemma_state_sum_def_mono(
                                        *fst,
                                        vec@,
                                        u as int,
                                        v + 1,
                                        n as int,
                                    );
                                    assert(!closure_vec_def(*fst, s as int, (k + 1) as nat));
                                    lemma_closure_def_mono(
                                        *fst,
                                        s as int,
                                        (k + 1) as nat,
                                        n as nat,
                                    );
                                }
                                return Err(e);
                            },
                        }
                    }
                    j = j + 1;
                }
                match sum.plus_assign(&term) {
                    Ok(()) => {},
                    Err(e) => {
                        proof {
                            assert(!state_sum_def(*fst, vec@, u as int, v + 1));
                            lemma_state_sum_def_mono(*fst, vec@, u as int, v + 1, n as int);
                            assert(!closure_vec_def(*fst, s as int, (k + 1) as nat));
                            lemma_closure_def_mono(*fst, s as int, (k + 1) as nat, n as nat);
                        }
                        return Err(e);
                    },
                }
                v = v + 1;
            }
            let mut acc = if u == s {
                W::one()
            } else {
                W::zero()
            };
            proof {
                W::lemma_identities_wf();
                assert(acc == closure_base::<W>(s as int, u as int));
            }
            match acc.plus_assign(&sum) {
                Ok(()) => {},
                Err(e) => {
                    proof {
                        assert(!closure_vec_def(*fst, s as int, (k + 1) as nat));
                        lemma_closure_def_mono(*fst, s as int, (k + 1) as nat, n as nat);
                    }
                    return Err(e);
                },
            }
            new_vec.push(acc);
            u = u + 1;
        }
        proof {
            assert forall|x: int|
                0 <= x < n implies #[trigger] new_vec@[x] == closure_vec(
                *fst,
                s as int,
                (k + 1) as nat,
            )[x] by {
                assert(new_vec@[x] == W::sp_plus(
                    closure_base::<W>(s as int, x),
                    state_sum(*fst, vec@, x, n as int),
                ));
            }
            assert(new_vec@ =~= closure_vec(*fst, s as int, (k + 1) as nat));
            assert(closure_vec_def(*fst, s as int, (k + 1) as nat));
        }
        vec = new_vec;
        k = k + 1;
    }
    Ok(vec)
}

/// An undefined transition fold stays undefined when extended.
proof fn lemma_tr_sum_def_mono<W: Semiring>(trs: Seq<Tr<W>>, pv: W, u: int, j1: int, j2: int)
    requires
        j1 <= j2,
        !tr_sum_def(trs, pv, u, j1),
    ensures
        !tr_sum_def(trs, pv, u, j2),
    decreases j2,
{
    if j1 < j2 {
        lemma_tr_sum_def_mono(trs, pv, u, j1, j2 - 1);
    }
}

/// An undefined state fold stays undefined when extended.
proof fn lemma_state_sum_def_mono<W: Semiring>(
    fst: VectorFst<W>,
    prev: Seq<W>,
    u: int,
    v1: int,
    v2: int,
)
    requires
        v1 <= v2,
        !state_sum_def(fst, prev, u, v1),
    ensures
        !state_sum_def(fst, prev, u, v2),
    decreases v2,
{
    if v1 < v2 {
        lemma_state_sum_def_mono(fst, prev, u, v1, v2 - 1);
    }
}

/// An undefined scaling stays undefined when the sequence is extended.
proof fn lemma_scaled_def_prefix<W: Semiring>(trs: Seq<Tr<W>>, d: W, j: int)
    requires
        0 <= j <= trs.len(),
        !scaled_def(trs.subrange(0, j), d),
    ensures
        !scaled_def(trs, d),
    decreases trs.len() - j,
{
    if j < trs.len() {
        assert(trs.subrange(0, j + 1).drop_last() =~= trs.subrange(0, j));
        lemma_scaled_def_prefix(trs, d, j + 1);
    } else {
        assert(trs.subrange(0, j) =~= trs);
    }
}

/// An undefined row stays undefined when extended.
proof fn lemma_rm_row_def_mono<W: Semiring>(fst: VectorFst<W>, dist: Seq<W>, t1: int, t2: int)
    requires
        t1 <= t2,
        !rm_row_def(fst, dist, t1),
    ensures
        !rm_row_def(fst, dist, t2),
    decreases t2,
{
    if t1 < t2 {
        lemma_rm_row_def_mono(fst, dist, t1, t2 - 1);
    }
}

/// An undefined final fold stays undefined when extended.
proof fn lemma_final_sum_def_mono<W: Semiring>(fst: VectorFst<W>, dist: Seq<W>, t1: int, t2: int)
    requires
        t1 <= t2,
        !final_sum_def(fst, dist, t1),
    ensures
        !final_sum_def(fst, dist, t2),
    decreases t2,
{
    if t1 < t2 {
        lemma_final_sum_def_mono(fst, dist, t1, t2 - 1);
    }
}

/// Every scaled transition is epsilon-free, keeps its target, and carries a
/// well-formed weight.
proof fn lemma_scaled_props<W: Semiring>(trs: Seq<Tr<W>>, d: W, n: int)
    requires
        d.wf(),
        scaled_def(trs, d),
        forall|i: int| 0 <= i < trs.len() ==> (#[trigger] trs[i]).nextstate < n,
        forall|i: int| 0 <= i < trs.len() ==> (#[trigger] trs[i]).weight.wf(),
    ensures
        forall|i: int|
            0 <= i < scaled_non_eps(trs, d).len() ==> !is_full_eps(
                #[trigger] scaled_non_eps(trs, d)[i],
            ) && scaled_non_eps(trs, d)[i].nextstate < n && scaled_non_eps(trs, d)[i].weight.wf(),
    decreases trs.len(),
{
    if trs.len() > 0 {
        lemma_scaled_props(trs.drop_last(), d, n);
        if !is_full_eps(trs.last()) {
            W::lemma_times_wf(d, trs.last().weight);
        }
        assert forall|i: int|
            0 <= i < scaled_non_eps(trs, d).len() implies !is_full_eps(
            #[trigger] scaled_non_eps(trs, d)[i],
        ) && scaled_non_eps(trs, d)[i].nextstate < n && scaled_non_eps(
            trs,
            d,
        )[i].weight.wf() by {
            if is_full_eps(trs.last()) || i < scaled_non_eps(trs, d).len() - 1 {
                assert(scaled_non_eps(trs, d)[i] == scaled_non_eps(trs.drop_last(), d)[i]);
            } else {
                assert(trs[trs.len() - 1].nextstate < n);
                assert(trs[trs.len() - 1].weight.wf());
            }
        }
    }
}

/// Every row transition is epsilon-free, keeps a valid target, and carries a
/// well-formed weight.
proof fn lemma_rm_row_props<W: Semiring>(fst: VectorFst<W>, dist: Seq<W>, t: int)
    requires
        fst.wf(),
        0 <= t <= fst.num_states_sp(),
        t <= dist.len(),
        rm_row_def(fst, dist, t),
        forall|i: int| 0 <= i < dist.len() ==> (#[trigger] dist[i]).wf(),
    ensures
        forall|i: int|
            0 <= i < rm_row(fst, dist, t).len() ==> !is_full_eps(#[trigger] rm_row(fst, dist, t)[i])
                && rm_row(fst, dist, t)[i].nextstate < fst.num_states_sp() && rm_row(
                fst,
                dist,
                t,
            )[i].weight.wf(),
    decreases t,
{
    if t > 0 {
        lemma_rm_row_props(fst, dist, t - 1);
        if dist[t - 1] != W::sp_zero() {
            assert(fst.states@[t - 1].targets_below(fst.num_states_sp()));
            assert(fst.states@[t - 1].weights_wf());
            lemma_scaled_props(fst.trs_sp(t - 1), dist[t - 1], fst.num_states_sp());
            assert forall|i: int|
                0 <= i < rm_row(fst, dist, t).len() implies !is_full_eps(
                #[trigger] rm_row(fst, dist, t)[i],
            ) && rm_row(fst, dist, t)[i].nextstate < fst.num_states_sp() && rm_row(
                fst,
                dist,
                t,
            )[i].weight.wf() by {
                if i < rm_row(fst, dist, t - 1).len() {
                    assert(rm_row(fst, dist, t)[i] == rm_row(fst, dist, t - 1)[i]);
                } else {
                    assert(rm_row(fst, dist, t)[i] == scaled_non_eps(
                        fst.trs_sp(t - 1),
                        dist[t - 1],
                    )[i - rm_row(fst, dist, t - 1).len()]);
                }
            }
        }
    }
}

/// Removes the full-epsilon transitions: every state's transitions become
/// its closure-scaled non-epsilon transitions, its final weight the
/// closure-to-final sum. The epsilon subgraph must be acyclic; a cycle is
/// reported as such, and a rejected weight combination as incompatible
/// weights, exactly when one occurs.
pub fn rm_epsilon<W: Semiring>(fst: &VectorFst<W>) -> (r: Result<VectorFst<W>, FstError>)
    requires
        fst.wf(),
    ensures
        eps_cyclic(*fst) ==> r == Err::<VectorFst<W>, FstError>(
            FstError::CycleInAcyclicAlgorithm,
        ),
        !eps_cyclic(*fst) ==> (r is Ok <==> rm_all_defined(*fst)),
        !eps_cyclic(*fst) && r is Err ==> r == Err::<VectorFst<W>, FstError>(
            FstError::IncompatibleWeights,
        ),
        r is Ok ==> {
            let out = r->Ok_0;
            let n = fst.num_states_sp();
            &&& out.num_states_sp() == n
            &&& out.start_state == fst.start_state
            &&& (forall|s: int|
                0 <= s < n ==> #[trigger] out.trs_sp(s) == rm_row(
                    *fst,
                    eps_closure_row_sp(*fst, s),
                    n,
                ))
            &&& (forall|s: int|
                0 <= s < n ==> #[trigger] out.final_sp(s) == (if final_sum(
                    *fst,
                    eps_closure_row_sp(*fst, s),
                    n,
                ) == W::sp_zero() {
                    Option::<W>::None
                } else {
                    Some(final_sum(*fst, eps_closure_row_sp(*fst, s), n))
                }))
            &&& (forall|s: int, j: int|
                0 <= s < n && 0 <= j < out.trs_sp(s).len() ==> !is_full_eps(
                    #[trigger] out.trs_sp(s)[j],
                ))
        },
        r is Ok ==> r->Ok_0.wf(),
{
    if check_eps_cyclic(fst) {
        return Err(FstError::CycleInAcyclicAlgorithm);
    }
    let n = fst.num_states();
    let mut states: Vec<VectorFstState<W>> = Vec::new();
    let mut s: usize = 0;
    while s < n
        invariant
            fst.wf(),
            !eps_cyclic(*fst),
            n == fst.num_states_sp(),
            s <= n,
            states@.len() == s,
            forall|x: int|
                0 <= x < s ==> #[trigger] closure_vec_def(*fst, x, fst.num_states_sp() as nat),
            forall|x: int|
                0 <= x < s ==> #[trigger] rm_row_def(*fst, eps_closure_row_sp(*fst, x), n as int),
            forall|x: int|
                0 <= x < s ==> #[trigger] final_sum_def(
                    *fst,
                    eps_closure_row_sp(*fst, x),
                    n as int,
                ),
            forall|x: int|
                0 <= x < s ==> (#[trigger] states@[x]).trs@ == rm_row(
                    *fst,
                    eps_closure_row_sp(*fst, x),
                    n as int,
                ),
            forall|x: int|
                0 <= x < s ==> (#[trigger] states@[x]).final_weight == (if final_sum(
                    *fst,
                    eps_closure_row_sp(*fst, x),
                    n as int,
                ) == W::sp_zero() {
                    Option::<W>::None
                } else {
                    Some(final_sum(*fst, eps_closure_row_sp(*fst, x), n as int))
                }),
        decreases n - s,
    {
        let dist = match eps_closure_row(fst, s) {
            Ok(d) => d,
            Err(e) => {
                proof {
                    assert(!rm_all_defined(*fst));
                }
                return Err(e);
            },
        };
        let ghost dv = dist@;
        let mut row: Vec<Tr<W>> = Vec::new();
        let mut t: usize = 0;
        while t < n
            invariant
                fst.wf(),
                !eps_cyclic(*fst),
                closure_vec_def(*fst, s as int, fst.num_states_sp() as nat),
                n == fst.num_states_sp(),
                s < n,
                t <= n,
                dist@ == dv,
                dv == eps_closure_row_sp(*fst, s as int),
                dv.len() == n,
                forall|x: int| 0 <= x < n ==> (#[trigger] dv[x]).wf(),
                row@ == rm_row(*fst, dv, t as int),
                rm_row_def(*fst, dv, t as int),
            decreases n - t,
        {
            let d = dist[t];
            if !d.is_zero() {
                let trs = &fst.states[t].trs;
                let mut j: usize = 0;
                while j < trs.len()
                    invariant
                        fst.wf(),
                        !eps_cyclic(*fst),
                        closure_vec_def(*fst, s as int, fst.num_states_sp() as nat),
                        n == fst.num_states_sp(),
                        s < n,
                        t < n,
                        dist@ == dv,
                        dv == eps_closure_row_sp(*fst, s as int),
                        dv.len() == n,
                        forall|x: int| 0 <= x < n ==> (#[trigger] dv[x]).wf(),
                        d == dv[t as int],
                        d != W::sp_zero(),
                        d.wf(),
                        trs@ == fst.trs_sp(t as int),
                        j <= trs@.len(),
                        row@ == rm_row(*fst, dv, t as int) + scaled_non_eps(
                            trs@.subrange(0, j as int),
                            d,
                        ),
                        rm_row_def(*fst, dv, t as int),
                        scaled_def(trs@.subrange(0, j as int), d),
                    decreases trs@.len() - j,
                {
                    let tr = trs[j];
                    proof {
                        assert(trs@.subrange(0, j + 1).drop_last() =~= trs@.subrange(
                            0,
                            j as int,
                        ));
                        assert(trs@.subrange(0, j + 1).last() == tr);
                        assert(fst.states@[t as int].weights_wf());
                        assert(tr.weight.wf());
                    }
                    if !(tr.ilabel == EPS_LABEL && tr.olabel == EPS_LABEL) {
                        let mut prod = d;
                        match prod.times_assign(&tr.weight) {
                            Ok(()) => {},
                            Err(e) => {
                                proof {
                                    assert(!scaled_def(trs@.subrange(0, j + 1), d));
                                    lemma_scaled_def_prefix(trs@, d, j + 1);
                                    assert(!rm_row_def(*fst, dv, t + 1));
                                    lemma_rm_row_def_mono(*fst, dv, t + 1, n as int);
                                    assert(!rm_all_defined(*fst));
                                }
                                return Err(e);
                            },
                        }
                        row.push(
                            Tr {
                                ilabel: tr.ilabel,
                                olabel: tr.olabel,
                                weight: prod,
                                nextstate: tr.nextstate,
                            },
                        );
                    }
                    j = j + 1;
                }
                proof {
                    assert(trs@.subrange(0, trs@.len() as int) =~= trs@);
                    assert(row@ == rm_row(*fst, dv, t + 1));
                }
            } else {
                proof {
                    assert(row@ == rm_row(*fst, dv, t + 1));
                }
            }
            t = t + 1;
        }
        let mut facc = W::zero();
        proof {
            W::lemma_identities_wf();
        }
        let mut t: usize = 0;
        while t < n
            invariant
                fst.wf(),
                !eps_cyclic(*fst),
                closure_vec_def(*fst, s as int, fst.num_states_sp() as nat),
                n == fst.num_states_sp(),
                s < n,
                t <= n,
                dist@ == dv,
                dv == eps_closure_row_sp(*fst, s as int),
                dv.len() == n,
                forall|x: int| 0 <= x < n ==> (#[trigger] dv[x]).wf(),
                facc == final_sum(*fst, dv, t as int),
                final_sum_def(*fst, dv, t as int),
                facc.wf(),
            decreases n - t,
        {
            let fw = fst.states[t].final_weight;
            match fw {
                Option::Some(w) => {
                    proof {
                        assert(fst.states@[t as int].weights_wf());
                        assert(w.wf());
                    }
                    let mut prod = dist[t];
                    match prod.times_assign(&w) {
                        Ok(()) => {},
                        Err(e) => {
                            proof {
                                assert(!final_sum_def(*fst, dv, t + 1));
                                lemma_final_sum_def_mono(*fst, dv, t + 1, n as int);
                                assert(!rm_all_defined(*fst));
                            }
                            return Err(e);
                        },
                    }
                    match facc.plus_assign(&prod) {
                        Ok(()) => {},
                        Err(e) => {
                            proof {
                                assert(!final_sum_def(*fst, dv, t + 1));
                                lemma_final_sum_def_mono(*fst, dv, t + 1, n as int);
                                assert(!rm_all_defined(*fst));
                            }
                            return Err(e);
                        },
                    }
                },
                Option::None => {},
            }
            t = t + 1;
        }
        let fw = if facc.is_zero() {
            None
        } else {
            Some(facc)
        };
        states.push(VectorFstState { final_weight: fw, trs: row });
        s = s + 1;
    }
    let out = VectorFst { states, start_state: fst.start_state };
    proof {
        assert(rm_all_defined(*fst));
        assert forall|x: int|
            0 <= x < out.num_states_sp() implies (#[trigger] out.states@[x]).targets_below(
            out.num_states_sp(),
        ) && out.states@[x].weights_wf() by {
            assert(closure_vec_def(*fst, x, fst.num_states_sp() as nat));
            assert(rm_row_def(*fst, eps_closure_row_sp(*fst, x), n as int));
            lemma_closure_row_wf(*fst, x);
            lemma_rm_row_props(*fst, eps_closure_row_sp(*fst, x), n as int);
            assert(out.states@[x].trs@ == rm_row(*fst, eps_closure_row_sp(*fst, x), n as int));
            if out.states@[x].final_weight is Some {
                assert(out.states@[x].final_weight->0 == final_sum(
                    *fst,
                    eps_closure_row_sp(*fst, x),
                    n as int,
                ));
                lemma_final_sum_wf(*fst, eps_closure_row_sp(*fst, x), n as int);
            }
        }
        assert(out.wf());
        assert forall|s2: int, j: int|
            0 <= s2 < n && 0 <= j < out.trs_sp(s2).len() implies !is_full_eps(
            #[trigger] out.trs_sp(s2)[j],
        ) by {
            lemma_closure_row_wf(*fst, s2);
            lemma_rm_row_props(*fst, eps_closure_row_sp(*fst, s2), n as int);
            assert(out.trs_sp(s2) == rm_row(*fst, eps_closure_row_sp(*fst, s2), n as int));
        }
    }
    Ok(out)
}

/// The closure weights of a source state are well formed where the rounds
/// are accepted.
proof fn lemma_closure_row_wf<W: Semiring>(fst: VectorFst<W>, s: int)
    requires
        fst.wf(),
        0 <= s < fst.num_states_sp(),
        closure_vec_def(fst, s, fst.num_states_sp() as nat),
    ensures
        eps_closure_row_sp(fst, s).len() == fst.num_states_sp(),
        forall|u: int|
            0 <= u < eps_closure_row_sp(fst, s).len() ==> (
            #[trigger] eps_closure_row_sp(fst, s)[u]).wf(),
{
    lemma_closure_vec_wf(fst, s, fst.num_states_sp() as nat);
}

/// Each closure round produces well-formed weights while it is accepted.
proof fn lemma_closure_vec_wf<W: Semiring>(fst: VectorFst<W>, s: int, k: nat)
    requires
        fst.wf(),
        closure_vec_def(fst, s, k),
    ensures
        closure_vec(fst, s, k).len() == fst.num_states_sp(),
        forall|u: int|
            0 <= u < closure_vec(fst, s, k).len() ==> (#[trigger] closure_vec(fst, s, k)[u]).wf(),
    decreases k,
{
    W::lemma_identities_wf();
    if k > 0 {
        lemma_closure_vec_wf(fst, s, (k - 1) as nat);
        let prev = closure_vec(fst, s, (k - 1) as nat);
        assert forall|u: int|
            0 <= u < closure_vec(fst, s, k).len() implies (
        #[trigger] closure_vec(fst, s, k)[u]).wf() by {
            assert(closure_vec_def(fst, s, k));
            assert(state_sum_def(fst, prev, u, fst.num_states_sp()));
            lemma_state_sum_wf(fst, prev, u, fst.num_states_sp());
            W::lemma_plus_wf(
                closure_base::<W>(s, u),
                state_sum(fst, prev, u, fst.num_states_sp()),
            );
        }
    }
}

/// The state fold produces a well-formed weight while it is accepted.
proof fn lemma_state_sum_wf<W: Semiring>(fst: VectorFst<W>, prev: Seq<W>, u: int, v: int)
    requires
        fst.wf(),
        v <= fst.num_states_sp(),
        v <= prev.len(),
        state_sum_def(fst, prev, u, v),
        forall|x: int| 0 <= x < prev.len() ==> (#[trigger] prev[x]).wf(),
    ensures
        state_sum(fst, prev, u, v).wf(),
    decreases v,
{
    W::lemma_identities_wf();
    if v > 0 {
        lemma_state_sum_wf(fst, prev, u, v - 1);
        assert(fst.states@[v - 1].weights_wf());
        lemma_tr_sum_wf(fst.trs_sp(v - 1), prev[v - 1], u, fst.trs_sp(v - 1).len() as int);
        W::lemma_plus_wf(
            state_sum(fst, prev, u, v - 1),
            tr_sum(fst.trs_sp(v - 1), prev[v - 1], u, fst.trs_sp(v - 1).len() as int),
        );
    }
}

/// The transition fold produces a well-formed weight while it is accepted.
proof fn lemma_tr_sum_wf<W: Semiring>(trs: Seq<Tr<W>>, pv: W, u: int, j: int)
    requires
        pv.wf(),
        j <= trs.len(),
        tr_sum_def(trs, pv, u, j),
        forall|i: int| 0 <= i < trs.len() ==> (#[trigger] trs[i]).weight.wf(),
    ensures
        tr_sum(trs, pv, u, j).wf(),
    decreases j,
{
    W::lemma_identities_wf();
    if j > 0 {
        lemma_tr_sum_wf(trs, pv, u, j - 1);
        if is_full_eps(trs[j - 1]) && trs[j - 1].nextstate == u {
            W::lemma_times_wf(pv, trs[j - 1].weight);
            W::lemma_plus_wf(tr_sum(trs, pv, u, j - 1), W::sp_times(pv, trs[j - 1].weight));
        }
    }
}

/// The final fold produces a well-formed weight while it is accepted.
proof fn lemma_final_sum_wf<W: Semiring>(fst: VectorFst<W>, dist: Seq<W>, t: int)
    requires
        fst.wf(),
        t <= fst.num_states_sp(),
        t <= dist.len(),
        final_sum_def(fst, dist, t),
        forall|x: int| 0 <= x < dist.len() ==> (#[trigger] dist[x]).wf(),
    ensures
        final_sum(fst, dist, t).wf(),
    decreases t,
{
    W::lemma_identities_wf();
    if t > 0 {
        lemma_final_sum_wf(fst, dist, t - 1);
        if fst.final_sp(t - 1) is Some {
            assert(fst.states@[t - 1].weights_wf());
            W::lemma_times_wf(dist[t - 1], fst.final_sp(t - 1)->0);
            W::lemma_plus_wf(
                final_sum(fst, dist, t - 1),
                W::sp_times(dist[t - 1], fst.final_sp(t - 1)->0),
            );
        }
    }
}

} // verus!
