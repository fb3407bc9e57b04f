//! Weight factoring: normalizes final weights by peeling factors off, one
//! per fresh state, according to a factor iterator. The result is a
//! transducer equivalent to the input whose non-final-form final weights
//! have been unfolded into chains of epsilon transitions.

use vstd::prelude::*;
use crate::semirings::Semiring;
use crate::vector_fst::{VectorFst, VectorFstState};
use crate::{FstError, Tr, EPS_LABEL};

verus! {

/// Splits a weight into a peeled factor and a remainder, step by step, until
/// the weight is final-form; the measure bounds the unfolding.
pub trait FactorIterator<W: Semiring>: Sized {
    /// Whether the weight is already final-form.
    spec fn done_sp(self, w: W) -> bool;

    /// The peeled factor and the remainder of a weight not yet final-form.
    spec fn factor_sp(self, w: W) -> (W, W);

    /// The unfolding measure.
    spec fn measure(self, w: W) -> nat;

    /// Factoring strictly shrinks the measure and keeps weights well formed.
    proof fn lemma_factor_decreases(self, w: W)
        requires
            w.wf(),
            !self.done_sp(w),
        ensures
            self.measure(self.factor_sp(w).1) < self.measure(w),
            self.factor_sp(w).0.wf(),
            self.factor_sp(w).1.wf(),
    ;

    /// Whether the weight is already final-form.
    fn done(&self, w: &W) -> (r: bool)
        ensures
            r == self.done_sp(*w),
    ;

    /// The peeled factor and the remainder.
    fn factor(&self, w: &W) -> (r: (W, W))
        requires
            w.wf(),
            !self.done_sp(*w),
        ensures
            r == self.factor_sp(*w),
    ;
}

/// The identity factoring: every weight is already final-form, so factoring
/// changes nothing.
#[derive(Clone, Copy)]
pub struct IdentityFactor {}

impl<W: Semiring> FactorIterator<W> for IdentityFactor {
    open spec fn done_sp(self, w: W) -> bool {
        true
    }

    open spec fn factor_sp(self, w: W) -> (W, W) {
        (w, w)
    }

    open spec fn measure(self, w: W) -> nat {
        0
    }

    proof fn lemma_factor_decreases(self, w: W) {
    }

    fn done(&self, _w: &W) -> bool {
        true
    }

    fn factor(&self, w: &W) -> (W, W) {
        (*w, *w)
    }
}

/// The factors peeled off a weight until its remainder is final-form.
pub open spec fn factor_chain<W: Semiring, FI: FactorIterator<W>>(fi: FI, w: W) -> Seq<W>
    decreases fi.measure(w),
    via factor_chain_decreases::<W, FI>
{
    if fi.done_sp(w) || !w.wf() {
        Seq::empty()
    } else {
        seq![fi.factor_sp(w).0] + factor_chain(fi, fi.factor_sp(w).1)
    }
}

#[via_fn]
proof fn factor_chain_decreases<W: Semiring, FI: FactorIterator<W>>(fi: FI, w: W) {
    if !fi.done_sp(w) && w.wf() {
        fi.lemma_factor_decreases(w);
    }
}

/// The final-form remainder a weight unfolds to.
pub open spec fn factor_remainder<W: Semiring, FI: FactorIterator<W>>(fi: FI, w: W) -> W
    decreases fi.measure(w),
    via factor_remainder_decreases::<W, FI>
{
    if fi.done_sp(w) || !w.wf() {
        w
    } else {
        factor_remainder(fi, fi.factor_sp(w).1)
    }
}

#[via_fn]
proof fn factor_remainder_decreases<W: Semiring, FI: FactorIterator<W>>(fi: FI, w: W) {
    if !fi.done_sp(w) && w.wf() {
        fi.lemma_factor_decreases(w);
    }
}

/// Whether a state's final weight needs unfolding.
pub open spec fn needs_factoring<W: Semiring, FI: FactorIterator<W>>(
    fi: FI,
    fst: VectorFst<W>,
    s: int,
) -> bool {
    fst.final_sp(s) is Some && !fi.done_sp(fst.final_sp(s)->0)
}

/// The number of fresh states a state's final weight unfolds into.
pub open spec fn chain_len<W: Semiring, FI: FactorIterator<W>>(
    fi: FI,
    fst: VectorFst<W>,
    s: int,
) -> int {
    if needs_factoring(fi, fst, s) {
        factor_chain(fi, fst.final_sp(s)->0).len() as int
    } else {
        0
    }
}

/// The number of fresh states the states below `upto` unfold into: the
/// offset of state `upto`'s own chain in the fresh-state block.
pub open spec fn chain_offset<W: Semiring, FI: FactorIterator<W>>(
    fi: FI,
    fst: VectorFst<W>,
    upto: int,
) -> int
    decreases upto,
{
    if upto <= 0 {
        0
    } else {
        chain_offset(fi, fst, upto - 1) + chain_len(fi, fst, upto - 1)
    }
}

/// The chain offsets are monotone and non-negative.
pub proof fn lemma_chain_offset_mono<W: Semiring, FI: FactorIterator<W>>(
    fi: FI,
    fst: VectorFst<W>,
    a: int,
    b: int,
)
    requires
        a <= b,
    ensures
        chain_offset(fi, fst, a) <= chain_offset(fi, fst, b),
    decreases b - a,
{
    if a < b {
        lemma_chain_offset_mono(fi, fst, a, b - 1);
    }
}

/// The chain offsets are non-negative.
pub proof fn lemma_chain_offset_nonneg<W: Semiring, FI: FactorIterator<W>>(
    fi: FI,
    fst: VectorFst<W>,
    upto: int,
)
    ensures
        chain_offset(fi, fst, upto) >= 0,
    decreases upto,
{
    if upto > 0 {
        lemma_chain_offset_nonneg(fi, fst, upto - 1);
    }
}

/// Every peeled factor is well formed.
pub proof fn lemma_factor_chain_wf<W: Semiring, FI: FactorIterator<W>>(fi: FI, w: W)
    requires
        w.wf(),
    ensures
        forall|c: int| 0 <= c < factor_chain(fi, w).len() ==> (#[trigger] factor_chain(fi, w)[c]).wf(),
        factor_remainder(fi, w).wf(),
    decreases fi.measure(w),
{
    if !fi.done_sp(w) {
        fi.lemma_factor_decreases(w);
        lemma_factor_chain_wf(fi, fi.factor_sp(w).1);
        assert forall|c: int|
            0 <= c < factor_chain(fi, w).len() implies (#[trigger] factor_chain(fi, w)[c]).wf() by {
            if c > 0 {
                assert(factor_chain(fi, w)[c] == factor_chain(fi, fi.factor_sp(w).1)[c - 1]);
            }
        }
    }
}

/// Every fresh-state identifier below the total block is covered by exactly
/// one state's chain block.
pub proof fn lemma_chain_offset_cover<W: Semiring, FI: FactorIterator<W>>(
    fi: FI,
    fst: VectorFst<W>,
    upto: int,
    k: int,
)
    requires
        0 <= upto,
        0 <= k < chain_offset(fi, fst, upto),
    ensures
        exists|s: int|
            #![trigger chain_offset(fi, fst, s)]
            0 <= s < upto && chain_offset(fi, fst, s) <= k < chain_offset(fi, fst, s)
                + chain_len(fi, fst, s),
    decreases upto,
{
    lemma_chain_offset_nonneg(fi, fst, upto - 1);
    if k >= chain_offset(fi, fst, upto - 1) {
        assert(0 <= upto - 1 < upto && chain_offset(fi, fst, upto - 1) <= k < chain_offset(
            fi,
            fst,
            upto - 1,
        ) + chain_len(fi, fst, upto - 1));
    } else {
        lemma_chain_offset_cover(fi, fst, upto - 1, k);
        let s0 = choose|s0: int|
            #![trigger chain_offset(fi, fst, s0)]
            0 <= s0 < upto - 1 && chain_offset(fi, fst, s0) <= k < chain_offset(fi, fst, s0)
                + chain_len(fi, fst, s0);
        assert(0 <= s0 < upto && chain_offset(fi, fst, s0) <= k < chain_offset(fi, fst, s0)
            + chain_len(fi, fst, s0));
    }
}

/// Counts the factors a weight unfolds into.
fn chain_len_exec<W: Semiring, FI: FactorIterator<W> + Copy>(fi: FI, w: &W) -> (r: usize)
    requires
        w.wf(),
        factor_chain(fi, *w).len() <= usize::MAX,
    ensures
        r == factor_chain(fi, *w).len(),
{
    let mut count: usize = 0;
    let mut rem = *w;
    loop
        invariant
            rem.wf(),
            count + factor_chain(fi, rem).len() == factor_chain(fi, *w).len(),
            factor_chain(fi, *w).len() <= usize::MAX,
        ensures
            fi.done_sp(rem),
            count == factor_chain(fi, *w).len(),
        decreases fi.measure(rem),
    {
        if fi.done(&rem) {
            break ;
        }
        proof {
            fi.lemma_factor_decreases(rem);
            assert(factor_chain(fi, rem) == seq![fi.factor_sp(rem).0] + factor_chain(
                fi,
                fi.factor_sp(rem).1,
            ));
        }
        let (_p, r2) = fi.factor(&rem);
        rem = r2;
        count = count + 1;
    }
    count
}

/// A transducer paired with the factor iterator that normalizes its final
/// weights.
pub struct FactorWeightFst<W, FI> {
    /// The transducer whose final weights are factored.
    pub fst: VectorFst<W>,
    /// The factoring discipline.
    pub factor_iterator: FI,
}

impl<W: Semiring, FI: FactorIterator<W> + Copy> FactorWeightFst<W, FI> {
    /// Pairs a transducer with a factoring discipline.
    pub fn new(fst: VectorFst<W>, factor_iterator: FI) -> (r: Self)
        ensures
            r.fst == fst,
            r.factor_iterator == factor_iterator,
    {
        FactorWeightFst { fst, factor_iterator }
    }

    /// Materializes the factored transducer. Every original state whose
    /// final weight is not final-form loses its finality and instead opens
    /// an epsilon chain of fresh states carrying the peeled factors, whose
    /// last state is final with the final-form remainder; everything else is
    /// untouched.
    pub fn compute(&self) -> (r: Result<VectorFst<W>, FstError>)
        requires
            self.fst.wf(),
            self.fst.num_states_sp() + chain_offset(
                self.factor_iterator,
                self.fst,
                self.fst.num_states_sp(),
            ) <= usize::MAX,
        ensures
            r is Ok,
            ({
                let fst = self.fst;
                let fi = self.factor_iterator;
                let n = fst.num_states_sp();
                let out = r->Ok_0;
                &&& out.num_states_sp() == n + chain_offset(fi, fst, n)
                &&& out.start_state == fst.start_state
                &&& (forall|s: int|
                    0 <= s < n && !needs_factoring(fi, fst, s) ==> #[trigger] out.final_sp(s)
                        == fst.final_sp(s) && out.trs_sp(s) == fst.trs_sp(s))
                &&& (forall|s: int|
                    0 <= s < n && needs_factoring(fi, fst, s) ==> #[trigger] out.final_sp(s)
                        is None && out.trs_sp(s) == fst.trs_sp(s).push(
                        (Tr {
                            ilabel: EPS_LABEL,
                            olabel: EPS_LABEL,
                            weight: factor_chain(fi, fst.final_sp(s)->0)[0],
                            nextstate: (n + chain_offset(fi, fst, s)) as usize,
                        }),
                    ))
                &&& (forall|s: int, c: int|
                    #![trigger out.final_sp(n + chain_offset(fi, fst, s) + c)]
                    0 <= s < n && needs_factoring(fi, fst, s) && 0 <= c < chain_len(fi, fst, s)
                        - 1 ==> out.final_sp(n + chain_offset(fi, fst, s) + c) is None
                        && out.trs_sp(n + chain_offset(fi, fst, s) + c) =~= seq![
                        (Tr {
                            ilabel: EPS_LABEL,
                            olabel: EPS_LABEL,
                            weight: factor_chain(fi, fst.final_sp(s)->0)[c + 1],
                            nextstate: (n + chain_offset(fi, fst, s) + c + 1) as usize,
                        }),
                    ])
                &&& (forall|s: int|
                    0 <= s < n && needs_factoring(fi, fst, s) ==> #[trigger] out.final_sp(
                        n + chain_offset(fi, fst, s) + chain_len(fi, fst, s) - 1,
                    ) == Some(factor_remainder(fi, fst.final_sp(s)->0)) && out.trs_sp(
                        n + chain_offset(fi, fst, s) + chain_len(fi, fst, s) - 1,
                    ).len() == 0)
            }),
            r->Ok_0.wf(),
    {
        let fi = self.factor_iterator;
        let fst = &self.fst;
        let n = fst.num_states();
        let ghost fiv = self.factor_iterator;
        let ghost fv = self.fst;
        proof {
            lemma_chain_offset_nonneg(fiv, fv, n as int);
        }
        // First pass: copy every state, opening (but not yet building) the
        // chain of each state whose final weight needs factoring.
        let mut states: Vec<VectorFstState<W>> = Vec::new();
        let mut next_free: usize = n;
        let mut s: usize = 0;
        while s < n
            invariant
                fst.wf(),
                *fst == fv,
                fiv == fi,
                n == fv.num_states_sp(),
                s <= n,
                fv.num_states_sp() + chain_offset(fiv, fv, n as int) <= usize::MAX,
                next_free == n + chain_offset(fiv, fv, s as int),
                states@.len() == s,
                forall|x: int|
                    0 <= x < s && !needs_factoring(fiv, fv, x) ==> (
                    #[trigger] states@[x]).final_weight == fv.final_sp(x) && states@[x].trs@
                        == fv.trs_sp(x),
                forall|x: int|
                    0 <= x < s && needs_factoring(fiv, fv, x) ==> (
                    #[trigger] states@[x]).final_weight is None && states@[x].trs@ == fv.trs_sp(
                        x,
                    ).push(
                        (Tr {
                            ilabel: EPS_LABEL,
                            olabel: EPS_LABEL,
                            weight: factor_chain(fiv, fv.final_sp(x)->0)[0],
                            nextstate: (n + chain_offset(fiv, fv, x)) as usize,
                        }),
                    ),
            decreases n - s,
        {
            proof {
                lemma_chain_offset_nonneg(fiv, fv, s as int);
                lemma_chain_offset_mono(fiv, fv, s + 1, n as int);
            }
            let st = &fst.states[s];
            let mut trs: Vec<Tr<W>> = Vec::new();
            let mut j: usize = 0;
            while j < st.trs.len()
                invariant
                    st.trs@ == fv.trs_sp(s as int),
                    s < fv.num_states_sp(),
                    j <= st.trs@.len(),
                    trs@ =~= st.trs@.subrange(0, j as int),
                decreases st.trs@.len() - j,
            {
                trs.push(st.trs[j]);
                proof {
                    assert(trs@ =~= st.trs@.subrange(0, j + 1));
                }
                j = j + 1;
            }
            proof {
                assert(st.trs@.subrange(0, st.trs@.len() as int) =~= st.trs@);
                assert(trs@ == fv.trs_sp(s as int));
            }
            let fw = st.final_weight;
            let mut factored = false;
            match &fw {
                Option::Some(w) => {
                    if !fi.done(w) {
                        factored = true;
                    }
                },
                Option::None => {},
            }
            if factored {
                let w = match fw {
                    Option::Some(w0) => w0,
                    Option::None => W::zero(),
                };
                proof {
                    assert(needs_factoring(fiv, fv, s as int));
                    assert(fv.states@[s as int].weights_wf());
                    assert(w.wf());
                    assert(factor_chain(fiv, w).len() >= 1);
                }
                let (p, _r2) = fi.factor(&w);
                proof {
                    assert(p == factor_chain(fiv, w)[0]);
                }
                let mut trs2 = trs;
                trs2.push(
                    Tr { ilabel: EPS_LABEL, olabel: EPS_LABEL, weight: p, nextstate: next_free },
                );
                states.push(VectorFstState { final_weight: None, trs: trs2 });
                proof {
                    assert(states@[s as int].final_weight is None);
                    assert(states@[s as int].trs@ == fv.trs_sp(s as int).push(
                        (Tr {
                            ilabel: EPS_LABEL,
                            olabel: EPS_LABEL,
                            weight: factor_chain(fiv, fv.final_sp(s as int)->0)[0],
                            nextstate: (n + chain_offset(fiv, fv, s as int)) as usize,
                        }),
                    ));
                    assert(factor_chain(fiv, w).len() <= usize::MAX) by {
                        assert(chain_len(fiv, fv, s as int) <= chain_offset(fiv, fv, n as int))
                            by {
                            lemma_chain_offset_mono(fiv, fv, s + 1, n as int);
                            lemma_chain_offset_nonneg(fiv, fv, s as int);
                        }
                    }
                }
                next_free = next_free + chain_len_exec(fi, &w);
            } else {
                states.push(VectorFstState { final_weight: fw, trs });
                proof {
                    assert(states@[s as int].final_weight == fv.final_sp(s as int));
                    assert(states@[s as int].trs@ == fv.trs_sp(s as int));
                }
            }
            s = s + 1;
        }
        // Second pass: build the chains, in state order; the fresh state
        // identifiers are handed out sequentially, so each chain occupies
        // exactly its offset block.
        let mut s: usize = 0;
        while s < n
            invariant
                fst.wf(),
                *fst == fv,
                fiv == fi,
                n == fv.num_states_sp(),
                s <= n,
                fv.num_states_sp() + chain_offset(fiv, fv, n as int) <= usize::MAX,
                states@.len() == n + chain_offset(fiv, fv, s as int),
                forall|x: int|
                    0 <= x < n && !needs_factoring(fiv, fv, x) ==> (
                    #[trigger] states@[x]).final_weight == fv.final_sp(x) && states@[x].trs@
                        == fv.trs_sp(x),
                forall|x: int|
                    0 <= x < n && needs_factoring(fiv, fv, x) ==> (
                    #[trigger] states@[x]).final_weight is None && states@[x].trs@ == fv.trs_sp(
                        x,
                    ).push(
                        (Tr {
                            ilabel: EPS_LABEL,
                            olabel: EPS_LABEL,
                            weight: factor_chain(fiv, fv.final_sp(x)->0)[0],
                            nextstate: (n + chain_offset(fiv, fv, x)) as usize,
                        }),
                    ),
                forall|x: int, c: int|
                    #![trigger states@[n + chain_offset(fiv, fv, x) + c]]
                    0 <= x < s && needs_factoring(fiv, fv, x) && 0 <= c < chain_len(fiv, fv, x)
                        - 1 ==> states@[n + chain_offset(fiv, fv, x) + c].final_weight is None
                        && states@[n + chain_offset(fiv, fv, x) + c].trs@ =~= seq![
                        (Tr {
                            ilabel: EPS_LABEL,
                            olabel: EPS_LABEL,
                            weight: factor_chain(fiv, fv.final_sp(x)->0)[c + 1],
                            nextstate: (n + chain_offset(fiv, fv, x) + c + 1) as usize,
                        }),
                    ],
                forall|x: int|
                    0 <= x < s && needs_factoring(fiv, fv, x) ==> (#[trigger] states@[n
                        + chain_offset(fiv, fv, x) + chain_len(fiv, fv, x) - 1]).final_weight
                        == Some(factor_remainder(fiv, fv.final_sp(x)->0)) && states@[n
                        + chain_offset(fiv, fv, x) + chain_len(fiv, fv, x) - 1].trs@.len() == 0,
            decreases n - s,
        {
            proof {
                lemma_chain_offset_nonneg(fiv, fv, s as int);
                lemma_chain_offset_mono(fiv, fv, s + 1, n as int);
            }
            let fw = fst.states[s].final_weight;
            let mut factored = false;
            match &fw {
                Option::Some(w) => {
                    if !fi.done(w) {
                        factored = true;
                    }
                },
                Option::None => {},
            }
            if factored {
                let w = match fw {
                    Option::Some(w0) => w0,
                    Option::None => W::zero(),
                };
                proof {
                    assert(needs_factoring(fiv, fv, s as int));
                    assert(fv.states@[s as int].weights_wf());
                    assert(w.wf());
                }
                let ghost w0 = w;
                let ghost states0 = states@;
                let mut rem = w;
                let ghost idx: int = 0;
                loop
                    invariant
                        fiv == fi,
                        n == fv.num_states_sp(),
                        s < n,
                        needs_factoring(fiv, fv, s as int),
                        w0 == fv.final_sp(s as int)->0,
                        w0.wf(),
                        rem.wf(),
                        fv.num_states_sp() + chain_offset(fiv, fv, n as int) <= usize::MAX,
                        chain_offset(fiv, fv, s + 1) == chain_offset(fiv, fv, s as int)
                            + chain_len(fiv, fv, s as int),
                        chain_offset(fiv, fv, s + 1) <= chain_offset(fiv, fv, n as int),
                        0 <= chain_offset(fiv, fv, s as int),
                        chain_len(fiv, fv, s as int) == factor_chain(fiv, w0).len(),
                        0 <= idx,
                        idx + factor_chain(fiv, rem).len() == factor_chain(fiv, w0).len(),
                        forall|c: int|
                            0 <= c < factor_chain(fiv, rem).len() ==> #[trigger] factor_chain(
                                fiv,
                                rem,
                            )[c] == factor_chain(fiv, w0)[idx + c],
                        factor_remainder(fiv, rem) == factor_remainder(fiv, w0),
                        states0.len() == n + chain_offset(fiv, fv, s as int),
                        states@.len() == states0.len() + idx,
                        forall|x: int| 0 <= x < states0.len() ==> states@[x] == states0[x],
                        forall|c: int|
                            #![trigger states@[n + chain_offset(fiv, fv, s as int) + c]]
                            0 <= c < idx - 1 ==> states@[n + chain_offset(fiv, fv, s as int)
                                + c].final_weight is None && states@[n + chain_offset(
                                fiv,
                                fv,
                                s as int,
                            ) + c].trs@ =~= seq![
                                (Tr {
                                    ilabel: EPS_LABEL,
                                    olabel: EPS_LABEL,
                                    weight: factor_chain(fiv, w0)[c + 1],
                                    nextstate: (n + chain_offset(fiv, fv, s as int) + c
                                        + 1) as usize,
                                }),
                            ],
                        idx > 0 && idx - 1 < factor_chain(fiv, w0).len() - 1 ==> (
                        #[trigger] states@[n + chain_offset(fiv, fv, s as int) + idx
                            - 1]).final_weight is None && states@[n + chain_offset(
                            fiv,
                            fv,
                            s as int,
                        ) + idx - 1].trs@ =~= seq![
                            (Tr {
                                ilabel: EPS_LABEL,
                                olabel: EPS_LABEL,
                                weight: factor_chain(fiv, w0)[idx],
                                nextstate: (n + chain_offset(fiv, fv, s as int)
                                    + idx) as usize,
                            }),
                        ],
                        idx > 0 && idx - 1 == factor_chain(fiv, w0).len() - 1 ==> (
                        #[trigger] states@[n + chain_offset(fiv, fv, s as int) + idx
                            - 1]).final_weight == Some(factor_remainder(fiv, w0)) && states@[n
                            + chain_offset(fiv, fv, s as int) + idx - 1].trs@.len() == 0,
                        idx < factor_chain(fiv, w0).len() ==> !fiv.done_sp(rem),
                        idx == factor_chain(fiv, w0).len() ==> fiv.done_sp(rem),
                    ensures
                        fiv.done_sp(rem),
                        idx == factor_chain(fiv, w0).len(),
                        rem == factor_remainder(fiv, w0),
                        states@.len() == states0.len() + factor_chain(fiv, w0).len(),
                        forall|x: int| 0 <= x < states0.len() ==> states@[x] == states0[x],
                        forall|c: int|
                            #![trigger states@[n + chain_offset(fiv, fv, s as int) + c]]
                            0 <= c < factor_chain(fiv, w0).len() - 1 ==> states@[n + chain_offset(
                                fiv,
                                fv,
                                s as int,
                            ) + c].final_weight is None && states@[n + chain_offset(
                                fiv,
                                fv,
                                s as int,
                            ) + c].trs@ =~= seq![
                                (Tr {
                                    ilabel: EPS_LABEL,
                                    olabel: EPS_LABEL,
                                    weight: factor_chain(fiv, w0)[c + 1],
                                    nextstate: (n + chain_offset(fiv, fv, s as int) + c
                                        + 1) as usize,
                                }),
                            ],
                        (#[trigger] states@[n + chain_offset(fiv, fv, s as int) + factor_chain(
                            fiv,
                            w0,
                        ).len() - 1]).final_weight == Some(factor_remainder(fiv, w0)) && states@[n
                            + chain_offset(fiv, fv, s as int) + factor_chain(fiv, w0).len()
                            - 1].trs@.len() == 0,
                    decreases fiv.measure(rem),
                {
                    if fi.done(&rem) {
                        proof {
                            if idx < factor_chain(fiv, w0).len() {
                                assert(!fiv.done_sp(rem));
                            }
                            assert(factor_chain(fiv, rem).len() == 0);
                            assert(rem == factor_remainder(fiv, rem));
                        }
                        break ;
                    }
                    proof {
                        fiv.lemma_factor_decreases(rem);
                        assert(factor_chain(fiv, rem) == seq![fiv.factor_sp(rem).0]
                            + factor_chain(fiv, fiv.factor_sp(rem).1));
                        assert(factor_remainder(fiv, rem) == factor_remainder(
                            fiv,
                            fiv.factor_sp(rem).1,
                        ));
                    }
                    let (_p, r2) = fi.factor(&rem);
                    let ghost old_rem = rem;
                    // The transition of this chain state carries the NEXT
                    // factor where one exists; the last chain state carries
                    // none and is made final below.
                    let last_of_chain = fi.done(&r2);
                    let mut ctrs: Vec<Tr<W>> = Vec::new();
                    let mut cfinal: Option<W> = None;
                    if last_of_chain {
                        proof {
                            assert(factor_remainder(fiv, r2) == r2);
                        }
                        cfinal = Some(r2);
                    } else {
                        let (p2, _r3) = fi.factor(&r2);
                        let target = states.len() + 1;
                        ctrs.push(
                            Tr {
                                ilabel: EPS_LABEL,
                                olabel: EPS_LABEL,
                                weight: p2,
                                nextstate: target,
                            },
                        );
                    }
                    let ghost statesb = states@;
                    states.push(VectorFstState { final_weight: cfinal, trs: ctrs });
                    rem = r2;
                    proof {
                        idx = idx + 1;
                        assert forall|c: int|
                            0 <= c < factor_chain(fiv, rem).len() implies #[trigger] factor_chain(
                            fiv,
                            rem,
                        )[c] == factor_chain(fiv, w0)[idx + c] by {
                            assert(factor_chain(fiv, old_rem)[c + 1] == factor_chain(
                                fiv,
                                w0,
                            )[(idx - 1) + (c + 1)]);
                            assert(factor_chain(fiv, old_rem)[c + 1] == factor_chain(
                                fiv,
                                rem,
                            )[c]);
                        }
                        if !last_of_chain {
                            assert(factor_chain(fiv, rem)[0] == fiv.factor_sp(rem).0);
                            assert(factor_chain(fiv, w0)[idx] == fiv.factor_sp(rem).0);
                        }
                    }
                }
                proof {
                    assert(states@.len() == n + chain_offset(fiv, fv, s + 1));
                    assert forall|x: int|
                        0 <= x < n && !needs_factoring(fiv, fv, x) implies (
                    #[trigger] states@[x]).final_weight == fv.final_sp(x) && states@[x].trs@
                        == fv.trs_sp(x) by {
                        assert(states@[x] == states0[x]);
                    }
                    assert forall|x: int|
                        0 <= x < n && needs_factoring(fiv, fv, x) implies (
                    #[trigger] states@[x]).final_weight is None && states@[x].trs@ == fv.trs_sp(
                        x,
                    ).push(
                        (Tr {
                            ilabel: EPS_LABEL,
                            olabel: EPS_LABEL,
                            weight: factor_chain(fiv, fv.final_sp(x)->0)[0],
                            nextstate: (n + chain_offset(fiv, fv, x)) as usize,
                        }),
                    ) by {
                        assert(states@[x] == states0[x]);
                    }
                    assert forall|x: int, c: int|
                        #![trigger states@[n + chain_offset(fiv, fv, x) + c]]
                        0 <= x < s + 1 && needs_factoring(fiv, fv, x) && 0 <= c < chain_len(
                            fiv,
                            fv,
                            x,
                        ) - 1 implies states@[n + chain_offset(fiv, fv, x) + c].final_weight
                        is None && states@[n + chain_offset(fiv, fv, x) + c].trs@ =~= seq![
                        (Tr {
                            ilabel: EPS_LABEL,
                            olabel: EPS_LABEL,
                            weight: factor_chain(fiv, fv.final_sp(x)->0)[c + 1],
                            nextstate: (n + chain_offset(fiv, fv, x) + c + 1) as usize,
                        }),
                    ] by {
                        lemma_chain_offset_nonneg(fiv, fv, x);
                        if x < s {
                            lemma_chain_offset_mono(fiv, fv, x + 1, s as int);
                            assert(n + chain_offset(fiv, fv, x) + c < states0.len());
                            assert(states@[n + chain_offset(fiv, fv, x) + c] == states0[n
                                + chain_offset(fiv, fv, x) + c]);
                        } else {
                            assert(fv.final_sp(x)->0 == w0);
                            assert(chain_len(fiv, fv, x) == factor_chain(fiv, w0).len());
                        }
                    }
                    assert forall|x: int|
                        0 <= x < s + 1 && needs_factoring(fiv, fv, x) implies (#[trigger] states@[n
                        + chain_offset(fiv, fv, x) + chain_len(fiv, fv, x) - 1]).final_weight
                        == Some(factor_remainder(fiv, fv.final_sp(x)->0)) && states@[n
                        + chain_offset(fiv, fv, x) + chain_len(fiv, fv, x) - 1].trs@.len()
                        == 0 by {
                        lemma_chain_offset_nonneg(fiv, fv, x);
                        if x < s {
                            lemma_chain_offset_mono(fiv, fv, x + 1, s as int);
                            assert(n + chain_offset(fiv, fv, x) + chain_len(fiv, fv, x) - 1
                                < states0.len());
                            assert(states@[n + chain_offset(fiv, fv, x) + chain_len(fiv, fv, x)
                                - 1] == states0[n + chain_offset(fiv, fv, x) + chain_len(
                                fiv,
                                fv,
                                x,
                            ) - 1]);
                        } else {
                            assert(fv.final_sp(x)->0 == w0);
                            assert(chain_len(fiv, fv, x) == factor_chain(fiv, w0).len());
                            assert(states@[n + chain_offset(fiv, fv, s as int) + factor_chain(
                                fiv,
                                w0,
                            ).len() - 1].final_weight == Some(factor_remainder(fiv, w0)));
                        }
                    }
                }
            }
            s = s + 1;
        }
        let out = VectorFst { states, start_state: fst.start_state };
        proof {
            assert(out.num_states_sp() == n + chain_offset(fiv, fv, n as int));
            let total = out.num_states_sp();
            assert forall|x: int|
                0 <= x < total implies (#[trigger] out.states@[x]).targets_below(total)
                && out.states@[x].weights_wf() by {
                if x < n {
                    if !needs_factoring(fiv, fv, x) {
                        assert(out.states@[x].final_weight == fv.final_sp(x));
                        assert(out.states@[x].trs@ == fv.trs_sp(x));
                        assert(fv.states@[x].targets_below(n as int));
                        assert(fv.states@[x].weights_wf());
                        lemma_chain_offset_nonneg(fiv, fv, n as int);
                        assert forall|i: int|
                            0 <= i < out.states@[x].trs@.len() implies (
                        #[trigger] out.states@[x].trs@[i]).nextstate < total
                            && out.states@[x].trs@[i].weight.wf() by {
                            assert(out.states@[x].trs@[i] == fv.trs_sp(x)[i]);
                            assert(fv.trs_sp(x)[i].nextstate < n);
                            assert(fv.trs_sp(x)[i].weight.wf());
                        }
                        assert(out.states@[x].weights_wf());
                    } else {
                        let w = fv.final_sp(x)->0;
                        assert(fv.states@[x].weights_wf());
                        assert(w.wf());
                        lemma_factor_chain_wf(fiv, w);
                        lemma_chain_offset_nonneg(fiv, fv, x);
                        lemma_chain_offset_mono(fiv, fv, x + 1, n as int);
                        assert(chain_len(fiv, fv, x) >= 1);
                        assert(out.states@[x].trs@ == fv.trs_sp(x).push(
                            (Tr {
                                ilabel: EPS_LABEL,
                                olabel: EPS_LABEL,
                                weight: factor_chain(fiv, w)[0],
                                nextstate: (n + chain_offset(fiv, fv, x)) as usize,
                            }),
                        ));
                        assert(fv.states@[x].targets_below(n as int));
                        assert forall|i: int|
                            0 <= i < out.states@[x].trs@.len() implies (
                        #[trigger] out.states@[x].trs@[i]).nextstate < total
                            && out.states@[x].trs@[i].weight.wf() by {
                            if i < fv.trs_sp(x).len() {
                                assert(out.states@[x].trs@[i] == fv.trs_sp(x)[i]);
                                assert(fv.trs_sp(x)[i].nextstate < n);
                            } else {
                                assert(n + chain_offset(fiv, fv, x) < n + chain_offset(
                                    fiv,
                                    fv,
                                    x + 1,
                                ));
                            }
                        }
                    }
                } else {
                    let k = x - n;
                    lemma_chain_offset_cover(fiv, fv, n as int, k);
                    let sx = choose|sx: int|
                        #![trigger chain_offset(fiv, fv, sx)]
                        0 <= sx < n && chain_offset(fiv, fv, sx) <= k < chain_offset(fiv, fv, sx)
                            + chain_len(fiv, fv, sx);
                    let c = k - chain_offset(fiv, fv, sx);
                    assert(needs_factoring(fiv, fv, sx)) by {
                        if !needs_factoring(fiv, fv, sx) {
                            assert(chain_len(fiv, fv, sx) == 0);
                        }
                    }
                    let w = fv.final_sp(sx)->0;
                    assert(fv.states@[sx].weights_wf());
                    assert(w.wf());
                    lemma_factor_chain_wf(fiv, w);
                    lemma_chain_offset_mono(fiv, fv, sx + 1, n as int);
                    assert(x == n + chain_offset(fiv, fv, sx) + c);
                    if c < chain_len(fiv, fv, sx) - 1 {
                        assert(out.states@[n + chain_offset(fiv, fv, sx) + c].final_weight
                            is None && out.states@[n + chain_offset(fiv, fv, sx) + c].trs@
                            =~= seq![
                            (Tr {
                                ilabel: EPS_LABEL,
                                olabel: EPS_LABEL,
                                weight: factor_chain(fiv, fv.final_sp(sx)->0)[c + 1],
                                nextstate: (n + chain_offset(fiv, fv, sx) + c + 1) as usize,
                            }),
                        ]);
                        assert(x + 1 < total) by {
                            assert(k + 1 < chain_offset(fiv, fv, sx) + chain_len(fiv, fv, sx));
                        }
                        assert(factor_chain(fiv, w)[c + 1].wf());
                        assert(out.states@[x].targets_below(total));
                        assert(out.states@[x].weights_wf());
                    } else {
                        assert(c == chain_len(fiv, fv, sx) - 1);
                        assert(out.states@[n + chain_offset(fiv, fv, sx) + chain_len(fiv, fv, sx)
                            - 1].final_weight == Some(factor_remainder(fiv, fv.final_sp(sx)->0))
                            && out.states@[n + chain_offset(fiv, fv, sx) + chain_len(fiv, fv, sx)
                            - 1].trs@.len() == 0);
                        assert(out.states@[x].final_weight == Some(factor_remainder(fiv, w)));
                        assert(out.states@[x].trs@.len() == 0);
                        assert(factor_remainder(fiv, w).wf());
                    }
                }
            }
            assert(out.wf());
        }
        Ok(out)
    }
}

} // verus!
