//! Directed-graph reachability over adjacency lists, with a verified worklist
//! marker. Trimming and label reachability are built on this module.

use vstd::prelude::*;
use crate::algorithms::tr_sort::side_label_sp;
use crate::semirings::Semiring;
use crate::vector_fst::VectorFst;
use crate::EPS_LABEL;

verus! {

/// The mathematical view of an adjacency list.
pub open spec fn adj_view(adj: Seq<Vec<usize>>) -> Seq<Seq<usize>> {
    adj.map_values(|v: Vec<usize>| v@)
}

/// A machine-representable graph: every listed neighbour is a valid vertex.
pub open spec fn adj_wf(adj: Seq<Seq<usize>>) -> bool {
    &&& adj.len() <= usize::MAX
    &&& forall|s: int, j: int|
        0 <= s < adj.len() && 0 <= j < adj[s].len() ==> (#[trigger] adj[s][j]) < adj.len()
}

/// There is an edge from `a` to `b`.
pub open spec fn edge(adj: Seq<Seq<usize>>, a: int, b: int) -> bool {
    &&& 0 <= a < adj.len()
    &&& exists|j: int| 0 <= j < adj[a].len() && adj[a][j] == b
}

/// `p` is a non-empty walk along edges of `adj`.
pub open spec fn is_path(adj: Seq<Seq<usize>>, p: Seq<usize>) -> bool {
    &&& p.len() >= 1
    &&& (forall|i: int| 0 <= i < p.len() ==> (#[trigger] p[i]) < adj.len())
    &&& (forall|i: int| 0 <= i < p.len() - 1 ==> edge(adj, #[trigger] p[i] as int, p[i + 1] as int))
}

/// Vertex `b` is reachable from vertex `a` (in zero or more steps).
pub open spec fn reaches(adj: Seq<Seq<usize>>, a: int, b: int) -> bool {
    exists|p: Seq<usize>| is_path(adj, p) && p[0] == a && p.last() == b
}

/// Vertex `s` is reachable from one of the `roots`.
#[verifier::opaque]
pub open spec fn from_roots(adj: Seq<Seq<usize>>, roots: Seq<usize>, s: int) -> bool {
    exists|r: int| 0 <= r < roots.len() && reaches(adj, roots[r] as int, s)
}

/// The transducer has a transition from `src` to `dst`.
#[verifier::opaque]
pub open spec fn has_tr_to<W: Semiring>(fst: VectorFst<W>, src: int, dst: int) -> bool {
    exists|i: int| 0 <= i < fst.trs_sp(src).len() && fst.trs_sp(src)[i].nextstate == dst
}

/// Reachability is reflexive on valid vertices.
pub proof fn lemma_reaches_refl(adj: Seq<Seq<usize>>, a: usize)
    requires
        a < adj.len(),
    ensures
        reaches(adj, a as int, a as int),
{
    let p = seq![a];
    assert(is_path(adj, p) && p[0] == a && p.last() == a);
}

/// Reachability extends along an edge.
pub proof fn lemma_reaches_step(adj: Seq<Seq<usize>>, a: int, b: int, c: usize)
    requires
        adj_wf(adj),
        reaches(adj, a, b),
        edge(adj, b, c as int),
    ensures
        reaches(adj, a, c as int),
{
    let p = choose|p: Seq<usize>| is_path(adj, p) && p[0] == a && p.last() == b;
    let q = p.push(c);
    assert(adj_wf(adj));
    assert(0 <= b < adj.len());
    let jw = choose|j: int| 0 <= j < adj[b].len() && adj[b][j] == c as int;
    assert(adj[b][jw] < adj.len());
    assert forall|i: int| 0 <= i < q.len() - 1 implies edge(
        adj,
        #[trigger] q[i] as int,
        q[i + 1] as int,
    ) by {
        if i < p.len() - 1 {
            assert(edge(adj, p[i] as int, p[i + 1] as int));
        } else {
            assert(q[i] == p.last());
        }
    }
    assert(is_path(adj, q) && q[0] == a && q.last() == c);
}

/// Reachability is transitive.
pub proof fn lemma_reaches_trans(adj: Seq<Seq<usize>>, a: int, b: int, c: int)
    requires
        reaches(adj, a, b),
        reaches(adj, b, c),
    ensures
        reaches(adj, a, c),
{
    let p = choose|p: Seq<usize>| is_path(adj, p) && p[0] == a && p.last() == b;
    let q = choose|q: Seq<usize>| is_path(adj, q) && q[0] == b && q.last() == c;
    let r = p + q.subrange(1, q.len() as int);
    assert(r.len() == p.len() + q.len() - 1);
    assert(r[0] == a);
    if q.len() == 1 {
        assert(r =~= p);
        assert(r.last() == c);
    } else {
        assert(r.last() == q.last());
    }
    assert forall|i: int| 0 <= i < r.len() implies (#[trigger] r[i]) < adj.len() by {
        if i < p.len() {
            assert(p[i] < adj.len());
        } else {
            assert(r[i] == q[i - p.len() + 1]);
        }
    }
    assert forall|i: int| 0 <= i < r.len() - 1 implies edge(
        adj,
        #[trigger] r[i] as int,
        r[i + 1] as int,
    ) by {
        if i < p.len() - 1 {
            assert(r[i] == p[i] && r[i + 1] == p[i + 1]);
            assert(edge(adj, p[i] as int, p[i + 1] as int));
        } else if i == p.len() - 1 {
            assert(r[i] == p.last() && p.last() == b && q[0] == b);
            assert(r[i + 1] == q[1]);
            assert(edge(adj, q[0] as int, q[1] as int));
        } else {
            let k = i - p.len() + 1;
            assert(r[i] == q[k] && r[i + 1] == q[k + 1]);
            assert(edge(adj, q[k] as int, q[k + 1] as int));
        }
    }
    assert(is_path(adj, r) && r[0] == a && r.last() == c);
}

/// A marked set that contains the head of a path and is closed under edges
/// contains the path's tail.
proof fn lemma_path_marked(adj: Seq<Seq<usize>>, marked: Seq<bool>, p: Seq<usize>)
    requires
        marked.len() == adj.len(),
        forall|x: int, y: int|
            0 <= x < adj.len() && marked[x] && #[trigger] edge(adj, x, y) ==> 0 <= y < adj.len()
                && marked[y],
        is_path(adj, p),
        marked[p[0] as int],
    ensures
        marked[p.last() as int],
    decreases p.len(),
{
    if p.len() > 1 {
        let q = p.drop_last();
        assert(is_path(adj, q));
        lemma_path_marked(adj, marked, q);
        assert(edge(adj, p[p.len() - 2] as int, p[p.len() - 1] as int));
    }
}

/// A marked set closed under edges contains everything reachable from any
/// marked vertex.
pub proof fn lemma_closed_reachable(adj: Seq<Seq<usize>>, marked: Seq<bool>, a: int, b: int)
    requires
        marked.len() == adj.len(),
        forall|x: int, y: int|
            0 <= x < adj.len() && marked[x] && #[trigger] edge(adj, x, y) ==> 0 <= y < adj.len()
                && marked[y],
        0 <= a < adj.len(),
        marked[a],
        reaches(adj, a, b),
    ensures
        0 <= b < adj.len(),
        marked[b],
{
    let p = choose|p: Seq<usize>| is_path(adj, p) && p[0] == a && p.last() == b;
    lemma_path_marked(adj, marked, p);
}

/// The number of unmarked entries; the termination measure of the marker.
pub open spec fn count_false(s: Seq<bool>) -> int
    decreases s.len(),
{
    if s.len() == 0 {
        0
    } else {
        count_false(s.drop_last()) + if s.last() {
            0int
        } else {
            1int
        }
    }
}

proof fn lemma_count_false_nonneg(s: Seq<bool>)
    ensures
        count_false(s) >= 0,
    decreases s.len(),
{
    if s.len() > 0 {
        lemma_count_false_nonneg(s.drop_last());
    }
}

proof fn lemma_count_false_update(s: Seq<bool>, i: int)
    requires
        0 <= i < s.len(),
        !s[i],
    ensures
        count_false(s.update(i, true)) == count_false(s) - 1,
    decreases s.len(),
{
    if i == s.len() - 1 {
        assert(s.update(i, true).drop_last() =~= s.drop_last());
    } else {
        assert(s.update(i, true).drop_last() =~= s.drop_last().update(i, true));
        assert(s.update(i, true).last() == s.last());
        lemma_count_false_update(s.drop_last(), i);
    }
}

/// Appending to a sequence keeps every element it already contains.
proof fn lemma_contains_push(s: Seq<usize>, v: usize, x: usize)
    requires
        s.contains(x),
    ensures
        s.push(v).contains(x),
{
    let k = choose|k: int| 0 <= k < s.len() && s[k] == x;
    assert(s.push(v)[k] == x);
}

/// Marks every vertex reachable from one of the `roots`, by a worklist
/// traversal. The result says, for each vertex, exactly whether some root
/// reaches it.
pub fn mark_reachable(adj: &Vec<Vec<usize>>, roots: &Vec<usize>) -> (marked: Vec<bool>)
    requires
        adj_wf(adj_view(adj@)),
        forall|r: int| 0 <= r < roots@.len() ==> (#[trigger] roots@[r]) < adj@.len(),
    ensures
        marked@.len() == adj@.len(),
        forall|s: int|
            0 <= s < adj@.len() ==> (marked@[s] <==> from_roots(adj_view(adj@), roots@, s)),
{
    let ghost av = adj_view(adj@);
    let n = adj.len();
    let mut marked: Vec<bool> = Vec::new();
    while marked.len() < n
        invariant
            marked@.len() <= n,
            forall|s: int| 0 <= s < marked@.len() ==> !marked@[s],
        decreases n - marked@.len(),
    {
        marked.push(false);
    }
    let mut work: Vec<usize> = Vec::new();
    let mut ri: usize = 0;
    while ri < roots.len()
        invariant
            av == adj_view(adj@),
            adj_wf(av),
            av.len() == n,
            forall|r: int| 0 <= r < roots@.len() ==> (#[trigger] roots@[r]) < n,
            ri <= roots@.len(),
            marked@.len() == n,
            forall|k: int| 0 <= k < work@.len() ==> (#[trigger] work@[k]) < n,
            forall|k: int| 0 <= k < work@.len() ==> marked@[#[trigger] work@[k] as int],
            forall|k: int|
                0 <= k < work@.len() ==> from_roots(av, roots@, #[trigger] work@[k] as int),
            forall|x: int| 0 <= x < n && #[trigger] marked@[x] ==> work@.contains(x as usize),
            forall|r: int| 0 <= r < ri ==> marked@[#[trigger] roots@[r] as int],
        decreases roots@.len() - ri,
    {
        let r = roots[ri];
        if !marked[r] {
            let ghost work0 = work@;
            marked.set(r, true);
            work.push(r);
            proof {
                assert(from_roots(av, roots@, r as int)) by {
                    reveal(from_roots);
                    lemma_reaches_refl(av, r);
                    assert(roots@[ri as int] == r);
                }
                assert(work@.last() == r);
                assert(work@.contains(r));
                assert forall|x: int|
                    0 <= x < n && #[trigger] marked@[x] implies work@.contains(x as usize) by {
                    if x != r {
                        lemma_contains_push(work0, r, x as usize);
                    }
                }
            }
        }
        ri = ri + 1;
    }
    let mut head: usize = 0;
    while head < work.len()
        invariant
            av == adj_view(adj@),
            adj_wf(av),
            av.len() == n,
            marked@.len() == n,
            head <= work@.len(),
            forall|r: int| 0 <= r < roots@.len() ==> (#[trigger] roots@[r]) < n,
            forall|k: int| 0 <= k < work@.len() ==> (#[trigger] work@[k]) < n,
            forall|k: int| 0 <= k < work@.len() ==> marked@[#[trigger] work@[k] as int],
            forall|k: int|
                0 <= k < work@.len() ==> from_roots(av, roots@, #[trigger] work@[k] as int),
            forall|x: int| 0 <= x < n && #[trigger] marked@[x] ==> work@.contains(x as usize),
            forall|r: int| 0 <= r < roots@.len() ==> marked@[#[trigger] roots@[r] as int],
            forall|k: int, j: int|
                0 <= k < head && 0 <= j < av[work@[k] as int].len() ==> marked@[#[trigger] av[work@[k] as int][j] as int],
        decreases count_false(marked@), work@.len() - head,
    {
        proof {
            lemma_count_false_nonneg(marked@);
        }
        let ghost marked0 = marked@;
        let ghost len0 = work@.len();
        let s = work[head];
        let mut j: usize = 0;
        let deg = adj[s].len();
        while j < deg
            invariant
                av == adj_view(adj@),
                adj_wf(av),
                av.len() == n,
                marked@.len() == n,
                head < work@.len(),
                forall|r: int| 0 <= r < roots@.len() ==> (#[trigger] roots@[r]) < n,
                s == work@[head as int],
                s < n,
                deg == av[s as int].len(),
                j <= deg,
                forall|k: int| 0 <= k < work@.len() ==> (#[trigger] work@[k]) < n,
                forall|k: int| 0 <= k < work@.len() ==> marked@[#[trigger] work@[k] as int],
                forall|k: int|
                    0 <= k < work@.len() ==> from_roots(av, roots@, #[trigger] work@[k] as int),
                forall|x: int| 0 <= x < n && #[trigger] marked@[x] ==> work@.contains(x as usize),
                forall|r: int| 0 <= r < roots@.len() ==> marked@[#[trigger] roots@[r] as int],
                forall|k: int, j2: int|
                    0 <= k < head && 0 <= j2 < av[work@[k] as int].len() ==> marked@[#[trigger] av[work@[k] as int][j2] as int],
                forall|j2: int| 0 <= j2 < j ==> marked@[#[trigger] av[s as int][j2] as int],
                count_false(marked@) <= count_false(marked0),
                count_false(marked@) < count_false(marked0) || work@.len() == len0,
            decreases deg - j,
        {
            let t = adj[s][j];
            proof {
                assert(av[s as int][j as int] == t);
                assert(t < n);
            }
            if !marked[t] {
                let ghost work1 = work@;
                proof {
                    lemma_count_false_update(marked@, t as int);
                    assert(from_roots(av, roots@, t as int)) by {
                        reveal(from_roots);
                        assert(from_roots(av, roots@, s as int));
                        let r0 = choose|r: int|
                            0 <= r < roots@.len() && reaches(av, roots@[r] as int, s as int);
                        assert(edge(av, s as int, t as int)) by {
                            assert(av[s as int][j as int] == t);
                        }
                        lemma_reaches_step(av, roots@[r0] as int, s as int, t);
                    }
                }
                marked.set(t, true);
                work.push(t);
                proof {
                    assert(work@.last() == t);
                    assert(work@.contains(t));
                    assert forall|x: int|
                        0 <= x < n && #[trigger] marked@[x] implies work@.contains(x as usize) by {
                        if x != t {
                            lemma_contains_push(work1, t, x as usize);
                        }
                    }
                }
            }
            j = j + 1;
        }
        head = head + 1;
        proof {
            lemma_count_false_nonneg(marked@);
        }
    }
    proof {
        assert forall|x: int, y: int|
            0 <= x < n && marked@[x] && #[trigger] edge(av, x, y) implies 0 <= y < n
            && marked@[y] by {
            assert(work@.contains(x as usize));
            let k = choose|k: int| 0 <= k < work@.len() && work@[k] == x as usize;
            let jw = choose|jj: int| 0 <= jj < av[x].len() && av[x][jj] == y;
            assert(marked@[av[work@[k] as int][jw] as int]);
        }
        assert forall|s: int|
            0 <= s < n && from_roots(av, roots@, s) implies marked@[s] by {
            reveal(from_roots);
            let r0 = choose|r: int| 0 <= r < roots@.len() && reaches(av, roots@[r] as int, s);
            assert(marked@[roots@[r0] as int]);
            lemma_closed_reachable(av, marked@, roots@[r0] as int, s);
        }
        assert forall|s: int| 0 <= s < n && marked@[s] implies from_roots(av, roots@, s) by {
            assert(work@.contains(s as usize));
            let k = choose|k: int| 0 <= k < work@.len() && work@[k] == s as usize;
            assert(from_roots(av, roots@, work@[k] as int));
        }
    }
    marked
}

/// The forward adjacency list of a transducer: entry `s` lists, in order, the
/// target of each transition leaving `s`.
pub fn forward_adjacency<W: Semiring>(fst: &VectorFst<W>) -> (adj: Vec<Vec<usize>>)
    requires
        fst.wf(),
    ensures
        adj@.len() == fst.num_states_sp(),
        adj_wf(adj_view(adj@)),
        forall|s: int| 0 <= s < adj@.len() ==> (#[trigger] adj@[s])@.len() == fst.trs_sp(s).len(),
        forall|s: int, j: int|
            0 <= s < adj@.len() && 0 <= j < adj@[s]@.len() ==> (#[trigger] adj@[s]@[j])
                == fst.trs_sp(s)[j].nextstate,
{
    let n = fst.num_states();
    let mut adj: Vec<Vec<usize>> = Vec::new();
    let mut s: usize = 0;
    while s < n
        invariant
            fst.wf(),
            n == fst.num_states_sp(),
            s <= n,
            adj@.len() == s,
            forall|x: int| 0 <= x < s ==> (#[trigger] adj@[x])@.len() == fst.trs_sp(x).len(),
            forall|x: int, j: int|
                0 <= x < s && 0 <= j < adj@[x]@.len() ==> (#[trigger] adj@[x]@[j]) == fst.trs_sp(
                    x,
                )[j].nextstate,
        decreases n - s,
    {
        let trs = &fst.states[s].trs;
        let mut row: Vec<usize> = Vec::new();
        let mut j: usize = 0;
        while j < trs.len()
            invariant
                fst.wf(),
                n == fst.num_states_sp(),
                s < n,
                trs@ == fst.trs_sp(s as int),
                j <= trs@.len(),
                row@.len() == j,
                forall|k: int| 0 <= k < j ==> (#[trigger] row@[k]) == trs@[k].nextstate,
            decreases trs@.len() - j,
        {
            row.push(trs[j].nextstate);
            j = j + 1;
        }
        adj.push(row);
        s = s + 1;
    }
    proof {
        assert forall|x: int, j: int|
            0 <= x < adj_view(adj@).len() && 0 <= j < adj_view(adj@)[x].len() implies (
        #[trigger] adj_view(adj@)[x][j]) < adj_view(adj@).len() by {
            assert(adj@[x]@[j] == fst.trs_sp(x)[j].nextstate);
            assert(fst.states@[x].targets_below(fst.num_states_sp()));
        }
    }
    adj
}

/// The reverse adjacency list of a transducer: entry `t` lists every state
/// with a transition into `t`. There is an edge `t -> s` here exactly when the
/// transducer has a transition `s -> t`.
pub fn reverse_adjacency<W: Semiring>(fst: &VectorFst<W>) -> (radj: Vec<Vec<usize>>)
    requires
        fst.wf(),
    ensures
        radj@.len() == fst.num_states_sp(),
        adj_wf(adj_view(radj@)),
        forall|a: int, b: int|
            edge(adj_view(radj@), a, b) <==> (0 <= a < fst.num_states_sp() && 0 <= b
                < fst.num_states_sp() && has_tr_to(*fst, b, a)),
{
    let n = fst.num_states();
    let mut radj: Vec<Vec<usize>> = Vec::new();
    while radj.len() < n
        invariant
            radj@.len() <= n,
            forall|x: int| 0 <= x < radj@.len() ==> (#[trigger] radj@[x])@.len() == 0,
        decreases n - radj@.len(),
    {
        radj.push(Vec::new());
    }
    let mut s: usize = 0;
    while s < n
        invariant
            fst.wf(),
            n == fst.num_states_sp(),
            s <= n,
            radj@.len() == n,
            forall|t: int, k: int|
                0 <= t < n && 0 <= k < radj@[t]@.len() ==> (#[trigger] radj@[t]@[k]) < n,
            forall|t: int, k: int|
                0 <= t < n && 0 <= k < radj@[t]@.len() ==> has_tr_to(
                    *fst,
                    #[trigger] radj@[t]@[k] as int,
                    t,
                ),
            forall|b: int, i: int|
                0 <= b < s && 0 <= i < fst.trs_sp(b).len() ==> (#[trigger] radj@[fst.trs_sp(
                    b,
                )[i].nextstate as int])@.contains(b as usize),
        decreases n - s,
    {
        let deg = fst.states[s].trs.len();
        let mut j: usize = 0;
        while j < deg
            invariant
                fst.wf(),
                n == fst.num_states_sp(),
                s < n,
                deg == fst.trs_sp(s as int).len(),
                j <= deg,
                radj@.len() == n,
                forall|t: int, k: int|
                    0 <= t < n && 0 <= k < radj@[t]@.len() ==> (#[trigger] radj@[t]@[k]) < n,
                forall|t: int, k: int|
                    0 <= t < n && 0 <= k < radj@[t]@.len() ==> has_tr_to(
                        *fst,
                        #[trigger] radj@[t]@[k] as int,
                        t,
                    ),
                forall|b: int, i: int|
                    0 <= b < s && 0 <= i < fst.trs_sp(b).len() ==> (#[trigger] radj@[fst.trs_sp(
                        b,
                    )[i].nextstate as int])@.contains(b as usize),
                forall|i: int|
                    0 <= i < j ==> (#[trigger] radj@[fst.trs_sp(s as int)[i].nextstate as int])@
                        .contains(s),
            decreases deg - j,
        {
            let t = fst.states[s].trs[j].nextstate;
            let ghost radj0 = radj@;
            proof {
                assert(fst.states@[s as int].targets_below(n as int));
                assert(fst.trs_sp(s as int)[j as int].nextstate == t);
                assert(t < n);
            }
            let row = &mut radj[t];
            row.push(s);
            proof {
                assert(radj@[t as int]@ == radj0[t as int]@.push(s));
                assert(has_tr_to(*fst, s as int, t as int)) by {
                    reveal(has_tr_to);
                    assert(0 <= j < fst.trs_sp(s as int).len() && fst.trs_sp(
                        s as int,
                    )[j as int].nextstate == t);
                }
                assert forall|t2: int, k: int|
                    0 <= t2 < n && 0 <= k < radj@[t2]@.len() implies (#[trigger] radj@[t2]@[k])
                    < n by {
                    if !(t2 == t && k == radj0[t as int]@.len()) {
                        assert(radj@[t2]@[k] == radj0[t2]@[k]);
                    }
                }
                assert forall|t2: int, k: int|
                    0 <= t2 < n && 0 <= k < radj@[t2]@.len() implies has_tr_to(
                    *fst,
                    #[trigger] radj@[t2]@[k] as int,
                    t2,
                ) by {
                    if t2 == t && k == radj0[t as int]@.len() {
                        assert(radj@[t2]@[k] == s);
                    } else {
                        assert(radj@[t2]@[k] == radj0[t2]@[k]);
                        assert(has_tr_to(*fst, radj0[t2]@[k] as int, t2));
                    }
                }
                assert forall|b: int, i: int|
                    0 <= b < s && 0 <= i < fst.trs_sp(b).len() implies (#[trigger] radj@[fst.trs_sp(
                    b,
                )[i].nextstate as int])@.contains(b as usize) by {
                    let tb = fst.trs_sp(b)[i].nextstate as int;
                    assert(radj0[tb]@.contains(b as usize));
                    if tb == t {
                        lemma_contains_push(radj0[tb]@, s, b as usize);
                    }
                }
                assert forall|i: int|
                    0 <= i < j + 1 implies (#[trigger] radj@[fst.trs_sp(
                    s as int,
                )[i].nextstate as int])@.contains(s) by {
                    let ti = fst.trs_sp(s as int)[i].nextstate as int;
                    if i < j {
                        assert(radj0[ti]@.contains(s));
                        if ti == t {
                            lemma_contains_push(radj0[ti]@, s, s);
                        }
                    } else {
                        assert(radj@[t as int]@.last() == s);
                        assert(radj@[t as int]@.contains(s));
                    }
                }
            }
            j = j + 1;
        }
        s = s + 1;
    }
    proof {
        assert forall|a: int, b: int|
            edge(adj_view(radj@), a, b) implies (0 <= a < fst.num_states_sp() && 0 <= b
            < fst.num_states_sp() && has_tr_to(*fst, b, a)) by {
            let j = choose|j: int| 0 <= j < adj_view(radj@)[a].len() && adj_view(radj@)[a][j] == b;
            assert(radj@[a]@[j] == b);
            assert(has_tr_to(*fst, radj@[a]@[j] as int, a));
        }
        assert forall|a: int, b: int|
            (0 <= a < fst.num_states_sp() && 0 <= b < fst.num_states_sp() && has_tr_to(
                *fst,
                b,
                a,
            )) implies edge(adj_view(radj@), a, b) by {
            reveal(has_tr_to);
            let i = choose|i: int|
                0 <= i < fst.trs_sp(b).len() && fst.trs_sp(b)[i].nextstate == a;
            assert(radj@[fst.trs_sp(b)[i].nextstate as int]@.contains(b as usize));
            assert(radj@[a as int]@.contains(b as usize));
            let k = choose|k: int| 0 <= k < radj@[a as int]@.len() && radj@[a as int]@[k] == b;
            assert(adj_view(radj@)[a][k] == b);
        }
    }
    radj
}


/// The transducer has a transition from `src` to `dst` whose label on the
/// chosen side is epsilon.
#[verifier::opaque]
pub open spec fn eps_edge<W: Semiring>(fst: VectorFst<W>, input: bool, src: int, dst: int) -> bool {
    exists|i: int|
        0 <= i < fst.trs_sp(src).len() && side_label_sp(#[trigger] fst.trs_sp(src)[i], input)
            == EPS_LABEL && fst.trs_sp(src)[i].nextstate == dst
}

/// `p` is a non-empty walk along epsilon-side transitions.
pub open spec fn eps_path<W: Semiring>(fst: VectorFst<W>, input: bool, p: Seq<usize>) -> bool {
    &&& p.len() >= 1
    &&& (forall|i: int| 0 <= i < p.len() ==> (#[trigger] p[i]) < fst.num_states_sp())
    &&& (forall|i: int|
        0 <= i < p.len() - 1 ==> eps_edge(fst, input, #[trigger] p[i] as int, p[i + 1] as int))
}

/// State `b` is reachable from state `a` along epsilon-side transitions.
pub open spec fn eps_reaches<W: Semiring>(fst: VectorFst<W>, input: bool, a: int, b: int) -> bool {
    exists|p: Seq<usize>| eps_path(fst, input, p) && p[0] == a && p.last() == b
}

/// Reachability in the reversed epsilon graph is reversed epsilon
/// reachability in the transducer.
pub proof fn lemma_rav_eps_reaches<W: Semiring>(
    fst: VectorFst<W>,
    input: bool,
    rav: Seq<Seq<usize>>,
    a: int,
    b: int,
)
    requires
        rav.len() == fst.num_states_sp(),
        forall|x: int, y: int|
            #[trigger] edge(rav, x, y) <==> (0 <= x < fst.num_states_sp() && 0 <= y
                < fst.num_states_sp() && eps_edge(fst, input, y, x)),
    ensures
        reaches(rav, b, a) <==> (0 <= a < fst.num_states_sp() && 0 <= b < fst.num_states_sp()
            && eps_reaches(fst, input, a, b)),
{
    let n = fst.num_states_sp();
    if reaches(rav, b, a) {
        let p = choose|p: Seq<usize>| is_path(rav, p) && p[0] == b && p.last() == a;
        let q = Seq::new(p.len(), |i: int| p[p.len() - 1 - i]);
        assert(q[0] == p.last() && q.last() == p[0]);
        assert forall|i: int|
            0 <= i < q.len() - 1 implies eps_edge(
            fst,
            input,
            #[trigger] q[i] as int,
            q[i + 1] as int,
        ) by {
            let k = p.len() - 2 - i;
            assert(q[i] == p[k + 1] && q[i + 1] == p[k]);
            assert(edge(rav, p[k] as int, p[k + 1] as int));
        }
        assert(eps_path(fst, input, q) && q[0] == a && q.last() == b);
    }
    if 0 <= a < n && 0 <= b < n && eps_reaches(fst, input, a, b) {
        let p = choose|p: Seq<usize>| eps_path(fst, input, p) && p[0] == a && p.last() == b;
        let q = Seq::new(p.len(), |i: int| p[p.len() - 1 - i]);
        assert(q[0] == p.last() && q.last() == p[0]);
        assert forall|i: int| 0 <= i < q.len() - 1 implies edge(
            rav,
            #[trigger] q[i] as int,
            q[i + 1] as int,
        ) by {
            let k = p.len() - 2 - i;
            assert(q[i] == p[k + 1] && q[i + 1] == p[k]);
            assert(eps_edge(fst, input, p[k] as int, p[k + 1] as int));
        }
        assert(is_path(rav, q) && q[0] == b && q.last() == a);
        assert(reaches(rav, b, a));
    }
}

/// The reverse adjacency list of the epsilon-side subgraph: entry `t` lists
/// every state with an epsilon-side transition into `t`.
pub fn reverse_adjacency_eps<W: Semiring>(fst: &VectorFst<W>, input: bool) -> (radj: Vec<
    Vec<usize>,
>)
    requires
        fst.wf(),
    ensures
        radj@.len() == fst.num_states_sp(),
        adj_wf(adj_view(radj@)),
        forall|a: int, b: int|
            edge(adj_view(radj@), a, b) <==> (0 <= a < fst.num_states_sp() && 0 <= b
                < fst.num_states_sp() && eps_edge(*fst, input, b, a)),
{
    let n = fst.num_states();
    let mut radj: Vec<Vec<usize>> = Vec::new();
    while radj.len() < n
        invariant
            radj@.len() <= n,
            forall|x: int| 0 <= x < radj@.len() ==> (#[trigger] radj@[x])@.len() == 0,
        decreases n - radj@.len(),
    {
        radj.push(Vec::new());
    }
    let mut s: usize = 0;
    while s < n
        invariant
            fst.wf(),
            n == fst.num_states_sp(),
            s <= n,
            radj@.len() == n,
            forall|t: int, k: int|
                0 <= t < n && 0 <= k < radj@[t]@.len() ==> (#[trigger] radj@[t]@[k]) < n,
            forall|t: int, k: int|
                0 <= t < n && 0 <= k < radj@[t]@.len() ==> eps_edge(
                    *fst,
                    input,
                    #[trigger] radj@[t]@[k] as int,
                    t,
                ),
            forall|b: int, i: int|
                0 <= b < s && 0 <= i < fst.trs_sp(b).len() && side_label_sp(
                    #[trigger] fst.trs_sp(b)[i],
                    input,
                ) == EPS_LABEL ==> radj@[fst.trs_sp(b)[i].nextstate as int]@.contains(b as usize),
        decreases n - s,
    {
        let deg = fst.states[s].trs.len();
        let mut j: usize = 0;
        while j < deg
            invariant
                fst.wf(),
                n == fst.num_states_sp(),
                s < n,
                deg == fst.trs_sp(s as int).len(),
                j <= deg,
                radj@.len() == n,
                forall|t: int, k: int|
                    0 <= t < n && 0 <= k < radj@[t]@.len() ==> (#[trigger] radj@[t]@[k]) < n,
                forall|t: int, k: int|
                    0 <= t < n && 0 <= k < radj@[t]@.len() ==> eps_edge(
                        *fst,
                        input,
                        #[trigger] radj@[t]@[k] as int,
                        t,
                    ),
                forall|b: int, i: int|
                    0 <= b < s && 0 <= i < fst.trs_sp(b).len() && side_label_sp(
                        #[trigger] fst.trs_sp(b)[i],
                        input,
                    ) == EPS_LABEL ==> radj@[fst.trs_sp(b)[i].nextstate as int]@.contains(
                        b as usize,
                    ),
                forall|i: int|
                    0 <= i < j && side_label_sp(#[trigger] fst.trs_sp(s as int)[i], input)
                        == EPS_LABEL ==> radj@[fst.trs_sp(s as int)[i].nextstate as int]@.contains(
                        s,
                    ),
            decreases deg - j,
        {
            let tr = fst.states[s].trs[j];
            let lbl = if input {
                tr.ilabel
            } else {
                tr.olabel
            };
            if lbl == EPS_LABEL {
                let t = tr.nextstate;
                let ghost radj0 = radj@;
                proof {
                    assert(fst.states@[s as int].targets_below(n as int));
                    assert(fst.trs_sp(s as int)[j as int] == tr);
                    assert(t < n);
                }
                let row = &mut radj[t];
                row.push(s);
                proof {
                    assert(radj@[t as int]@ == radj0[t as int]@.push(s));
                    assert(eps_edge(*fst, input, s as int, t as int)) by {
                        reveal(eps_edge);
                        assert(0 <= j < fst.trs_sp(s as int).len() && side_label_sp(
                            fst.trs_sp(s as int)[j as int],
                            input,
                        ) == EPS_LABEL && fst.trs_sp(s as int)[j as int].nextstate == t);
                    }
                    assert forall|t2: int, k: int|
                        0 <= t2 < n && 0 <= k < radj@[t2]@.len() implies (#[trigger] radj@[t2]@[k])
                        < n by {
                        if !(t2 == t && k == radj0[t as int]@.len()) {
                            assert(radj@[t2]@[k] == radj0[t2]@[k]);
                        }
                    }
                    assert forall|t2: int, k: int|
                        0 <= t2 < n && 0 <= k < radj@[t2]@.len() implies eps_edge(
                        *fst,
                        input,
                        #[trigger] radj@[t2]@[k] as int,
                        t2,
                    ) by {
                        if t2 == t && k == radj0[t as int]@.len() {
                            assert(radj@[t2]@[k] == s);
                        } else {
                            assert(radj@[t2]@[k] == radj0[t2]@[k]);
                            assert(eps_edge(*fst, input, radj0[t2]@[k] as int, t2));
                        }
                    }
                    assert forall|b: int, i: int|
                        0 <= b < s && 0 <= i < fst.trs_sp(b).len() && side_label_sp(
                            #[trigger] fst.trs_sp(b)[i],
                            input,
                        ) == EPS_LABEL implies radj@[fst.trs_sp(b)[i].nextstate as int]@.contains(
                        b as usize,
                    ) by {
                        let tb = fst.trs_sp(b)[i].nextstate as int;
                        assert(radj0[tb]@.contains(b as usize));
                        if tb == t {
                            lemma_contains_push(radj0[tb]@, s, b as usize);
                        }
                    }
                    assert forall|i: int|
                        0 <= i < j + 1 && side_label_sp(#[trigger] fst.trs_sp(s as int)[i], input)
                            == EPS_LABEL implies radj@[fst.trs_sp(
                        s as int,
                    )[i].nextstate as int]@.contains(s) by {
                        let ti = fst.trs_sp(s as int)[i].nextstate as int;
                        if i < j {
                            assert(radj0[ti]@.contains(s));
                            if ti == t {
                                lemma_contains_push(radj0[ti]@, s, s);
                            }
                        } else {
                            assert(radj@[t as int]@.last() == s);
                            assert(radj@[t as int]@.contains(s));
                        }
                    }
                }
            }
            j = j + 1;
        }
        s = s + 1;
    }
    proof {
        assert forall|a: int, b: int|
            edge(adj_view(radj@), a, b) implies (0 <= a < fst.num_states_sp() && 0 <= b
            < fst.num_states_sp() && eps_edge(*fst, input, b, a)) by {
            let j = choose|j: int| 0 <= j < adj_view(radj@)[a].len() && adj_view(radj@)[a][j] == b;
            assert(radj@[a]@[j] == b);
            assert(eps_edge(*fst, input, radj@[a]@[j] as int, a));
        }
        assert forall|a: int, b: int|
            (0 <= a < fst.num_states_sp() && 0 <= b < fst.num_states_sp() && eps_edge(
                *fst,
                input,
                b,
                a,
            )) implies edge(adj_view(radj@), a, b) by {
            reveal(eps_edge);
            let i = choose|i: int|
                0 <= i < fst.trs_sp(b).len() && side_label_sp(fst.trs_sp(b)[i], input)
                    == EPS_LABEL && fst.trs_sp(b)[i].nextstate == a;
            assert(radj@[fst.trs_sp(b)[i].nextstate as int]@.contains(b as usize));
            assert(radj@[a as int]@.contains(b as usize));
            let k = choose|k: int| 0 <= k < radj@[a as int]@.len() && radj@[a as int]@[k] == b;
            assert(adj_view(radj@)[a][k] == b);
        }
    }
    radj
}

} // verus!
