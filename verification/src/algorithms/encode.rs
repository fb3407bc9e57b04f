//! Encoding: represents a weighted transducer as a weighted automaton or an
//! unweighted transducer by replacing each transition's label pair and/or
//! weight with a single synthetic input label that uniquely keys the
//! combination; the encoding table maps both ways.

use vstd::prelude::*;
use crate::semirings::Semiring;
use crate::vector_fst::{count_kept, VectorFst};
use crate::{FstError, Label, Tr, EPS_LABEL};

verus! {

/// The key a transition is encoded under: its input label, its output label
/// where labels are encoded (epsilon otherwise), and its weight where weights
/// are encoded (one otherwise).
pub open spec fn encode_key_sp<W: Semiring>(
    t: Tr<W>,
    encode_labels: bool,
    encode_weights: bool,
) -> (Label, Label, W) {
    (
        t.ilabel,
        if encode_labels {
            t.olabel
        } else {
            EPS_LABEL
        },
        if encode_weights {
            t.weight
        } else {
            W::sp_one()
        },
    )
}

/// The bijective table of the encoding: entry `k` stores the key encoded as
/// the synthetic label `k + 1`.
pub struct EncodeTable<W> {
    /// Whether the output label takes part in the key.
    pub encode_labels: bool,
    /// Whether the weight takes part in the key.
    pub encode_weights: bool,
    /// The keys, in assignment order; no key occurs twice.
    pub tuples: Vec<(Label, Label, W)>,
}

impl<W: Semiring> EncodeTable<W> {
    /// No key occurs twice: the table is a bijection between its keys and
    /// the labels `1 ..= len`.
    pub open spec fn wf(self) -> bool {
        forall|i: int, j: int|
            0 <= i < j < self.tuples@.len() ==> #[trigger] self.tuples@[i]
                != #[trigger] self.tuples@[j]
    }

    /// An empty table for the given encoding.
    pub fn new(encode_labels: bool, encode_weights: bool) -> (r: Self)
        ensures
            r.wf(),
            r.encode_labels == encode_labels,
            r.encode_weights == encode_weights,
            r.tuples@.len() == 0,
    {
        EncodeTable { encode_labels, encode_weights, tuples: Vec::new() }
    }

    /// The synthetic label of a key, assigning the next free label to a key
    /// not seen before.
    pub fn encode_key(&mut self, key: (Label, Label, W)) -> (r: Label)
        requires
            old(self).wf(),
            old(self).tuples@.len() < usize::MAX,
        ensures
            final(self).wf(),
            final(self).encode_labels == old(self).encode_labels,
            final(self).encode_weights == old(self).encode_weights,
            1 <= r <= final(self).tuples@.len(),
            final(self).tuples@[r - 1] == key,
            old(self).tuples@.contains(key) ==> *final(self) == *old(self),
            !old(self).tuples@.contains(key) ==> final(self).tuples@ == old(self).tuples@.push(
                key,
            ),
    {
        let n = self.tuples.len();
        let mut i: usize = 0;
        while i < n
            invariant
                self.wf(),
                n == self.tuples@.len(),
                i <= n,
                forall|k: int| 0 <= k < i ==> #[trigger] self.tuples@[k] != key,
            decreases n - i,
        {
            let t = &self.tuples[i];
            if t.0 == key.0 && t.1 == key.1 && t.2.weight_eq(&key.2) {
                proof {
                    assert(self.tuples@[i as int] == key);
                    assert(self.tuples@.contains(key));
                }
                return i + 1;
            }
            i = i + 1;
        }
        proof {
            if self.tuples@.contains(key) {
                let k = choose|k: int| 0 <= k < self.tuples@.len() && self.tuples@[k] == key;
                assert(false);
            }
        }
        self.tuples.push(key);
        proof {
            assert(self.tuples@.last() == key);
            assert forall|a: int, b: int|
                0 <= a < b < self.tuples@.len() implies #[trigger] self.tuples@[a]
                != #[trigger] self.tuples@[b] by {
                if b == self.tuples@.len() - 1 {
                    assert(old(self).tuples@[a] != key);
                }
            }
        }
        n + 1
    }

    /// The key behind a synthetic label.
    pub fn decode_label(&self, label: Label) -> (r: Option<&(Label, Label, W)>)
        ensures
            r is Some <==> 1 <= label <= self.tuples@.len(),
            r is Some ==> *r->0 == self.tuples@[label - 1],
    {
        if label >= 1 && label <= self.tuples.len() {
            Some(&self.tuples[label - 1])
        } else {
            None
        }
    }
}

/// The per-transition encoding rule, as applied by `encode`.
pub open spec fn encoded_tr_sp<W: Semiring>(
    t: Tr<W>,
    k: Label,
    encode_labels: bool,
    encode_weights: bool,
) -> Tr<W> {
    Tr {
        ilabel: k,
        olabel: if encode_labels {
            k
        } else {
            t.olabel
        },
        weight: if encode_weights {
            W::sp_one()
        } else {
            t.weight
        },
        nextstate: t.nextstate,
    }
}

/// The transition mapper that rewrites one transition per the encoding,
/// keeping the table.
pub struct EncodeMapper<W> {
    /// The table built up while mapping.
    pub encode_table: EncodeTable<W>,
}

impl<W: Semiring> EncodeMapper<W> {
    /// A mapper with an empty table for the given encoding.
    pub fn new(encode_labels: bool, encode_weights: bool) -> (r: Self)
        ensures
            r.encode_table.wf(),
            r.encode_table.encode_labels == encode_labels,
            r.encode_table.encode_weights == encode_weights,
            r.encode_table.tuples@.len() == 0,
    {
        EncodeMapper { encode_table: EncodeTable::new(encode_labels, encode_weights) }
    }

    /// Rewrites one transition: its key's synthetic label becomes the input
    /// label (and the output label where labels are encoded), and the weight
    /// becomes one where weights are encoded.
    pub fn tr_map(&mut self, tr: &mut Tr<W>) -> (r: Result<(), FstError>)
        requires
            old(self).encode_table.wf(),
            old(self).encode_table.tuples@.len() < usize::MAX,
            old(tr).weight.wf(),
            forall|i: int|
                0 <= i < old(self).encode_table.tuples@.len() ==> (#[trigger] old(self).encode_table.tuples@[i]).2.wf(),
        ensures
            r is Ok,
            forall|i: int|
                0 <= i < final(self).encode_table.tuples@.len() ==> (#[trigger] final(self).encode_table.tuples@[i]).2.wf(),
            final(self).encode_table.wf(),
            final(self).encode_table.encode_labels == old(self).encode_table.encode_labels,
            final(self).encode_table.encode_weights == old(self).encode_table.encode_weights,
            final(self).encode_table.tuples@.len() >= old(self).encode_table.tuples@.len(),
            final(self).encode_table.tuples@.len() <= old(self).encode_table.tuples@.len() + 1,
            forall|i: int|
                0 <= i < old(self).encode_table.tuples@.len() ==> #[trigger] final(self).encode_table.tuples@[i] == old(self).encode_table.tuples@[i],
            ({
                let k = final(tr).ilabel;
                &&& 1 <= k <= final(self).encode_table.tuples@.len()
                &&& final(self).encode_table.tuples@[k - 1] == encode_key_sp(
                    *old(tr),
                    old(self).encode_table.encode_labels,
                    old(self).encode_table.encode_weights,
                )
                &&& *final(tr) == encoded_tr_sp(
                    *old(tr),
                    k,
                    old(self).encode_table.encode_labels,
                    old(self).encode_table.encode_weights,
                )
            }),
    {
        let olabel_part = if self.encode_table.encode_labels {
            tr.olabel
        } else {
            EPS_LABEL
        };
        let weight_part = if self.encode_table.encode_weights {
            tr.weight
        } else {
            W::one()
        };
        let key = (tr.ilabel, olabel_part, weight_part);
        proof {
            W::lemma_identities_wf();
            assert(key.2.wf());
        }
        let ghost t0 = self.encode_table.tuples@;
        let label = self.encode_table.encode_key(key);
        proof {
            assert forall|i: int|
                0 <= i < self.encode_table.tuples@.len() implies (
            #[trigger] self.encode_table.tuples@[i]).2.wf() by {
                if i < t0.len() {
                    assert(self.encode_table.tuples@[i] == t0[i]);
                } else {
                    assert(self.encode_table.tuples@ == t0.push(key));
                    assert(self.encode_table.tuples@[i] == key);
                }
            }
        }
        tr.ilabel = label;
        if self.encode_table.encode_labels {
            tr.olabel = label;
        }
        if self.encode_table.encode_weights {
            let o = W::one();
            tr.weight = o;
        }
        Ok(())
    }
}

/// Encodes every transition of the transducer, replacing each key by its
/// synthetic label, and returns the table. Final weights are untouched: with
/// label encoding alone the result carries the original weights, and decoding
/// with the returned table restores the transducer exactly.
pub fn encode<W: Semiring>(
    fst: &mut VectorFst<W>,
    encode_labels: bool,
    encode_weights: bool,
) -> (r: Result<EncodeTable<W>, FstError>)
    requires
        old(fst).wf(),
        old(fst).total_trs_sp() + old(fst).num_states_sp() + 2 <= usize::MAX,
    ensures
        r is Ok,
        r->Ok_0.wf(),
        r->Ok_0.encode_labels == encode_labels,
        r->Ok_0.encode_weights == encode_weights,
        forall|i: int|
            0 <= i < r->Ok_0.tuples@.len() ==> (#[trigger] r->Ok_0.tuples@[i]).2.wf(),
        final(fst).start_state == old(fst).start_state,
        forall|s: int, j: int|
            0 <= s < old(fst).num_states_sp() && 0 <= j < old(fst).trs_sp(s).len() ==> {
                let t0 = old(fst).trs_sp(s)[j];
                let t1 = #[trigger] final(fst).trs_sp(s)[j];
                let k = t1.ilabel;
                &&& 1 <= k <= r->Ok_0.tuples@.len()
                &&& r->Ok_0.tuples@[k - 1] == encode_key_sp(t0, encode_labels, encode_weights)
                &&& t1 == encoded_tr_sp(t0, k, encode_labels, encode_weights)
            },
        !encode_weights ==> {
            &&& final(fst).num_states_sp() == old(fst).num_states_sp()
            &&& (forall|s: int|
                0 <= s < old(fst).num_states_sp() ==> final(fst).final_sp(s) == old(
                    fst,
                ).final_sp(s))
            &&& (forall|s: int|
                0 <= s < old(fst).num_states_sp() ==> (#[trigger] final(fst).trs_sp(s)).len()
                    == old(fst).trs_sp(s).len())
        },
        encode_weights ==> {
            let sf = old(fst).num_states_sp();
            &&& final(fst).num_states_sp() == sf + 1
            &&& final(fst).final_sp(sf) == Some(W::sp_one())
            &&& final(fst).trs_sp(sf).len() == 0
            &&& (forall|s: int| 0 <= s < sf ==> final(fst).final_sp(s) is None)
            &&& (forall|s: int|
                0 <= s < sf ==> (#[trigger] final(fst).trs_sp(s)).len() == old(fst).trs_sp(
                    s,
                ).len() + (if old(fst).final_sp(s) is Some {
                    1int
                } else {
                    0int
                }))
            &&& (forall|s: int|
                0 <= s < sf && old(fst).final_sp(s) is Some ==> {
                    let t = (#[trigger] final(fst).trs_sp(s)).last();
                    let k = t.ilabel;
                    &&& 1 <= k <= r->Ok_0.tuples@.len()
                    &&& r->Ok_0.tuples@[k - 1] == (
                    EPS_LABEL,
                    EPS_LABEL,
                    old(fst).final_sp(s)->0,
                    )
                    &&& t.olabel == (if encode_labels {
                        k
                    } else {
                        EPS_LABEL
                    })
                    &&& t.weight == W::sp_one()
                    &&& t.nextstate == sf
                })
        },
        final(fst).wf(),
{
    let mut mapper = EncodeMapper::<W>::new(encode_labels, encode_weights);
    let n = fst.num_states();
    let mut s: usize = 0;
    while s < n
        invariant
            fst.wf(),
            n == fst.num_states_sp(),
            n == old(fst).num_states_sp(),
            s <= n,
            mapper.encode_table.wf(),
            mapper.encode_table.encode_labels == encode_labels,
            mapper.encode_table.encode_weights == encode_weights,
            forall|i: int|
                0 <= i < mapper.encode_table.tuples@.len() ==> (
                #[trigger] mapper.encode_table.tuples@[i]).2.wf(),
            mapper.encode_table.tuples@.len() <= old(fst).total_trs_upto(s as int),
            old(fst).total_trs_sp() < usize::MAX,
            fst.start_state == old(fst).start_state,
            forall|x: int| s <= x < n ==> fst.states@[x] == old(fst).states@[x],
            forall|x: int| 0 <= x < n ==> fst.final_sp(x) == old(fst).final_sp(x),
            forall|x: int|
                0 <= x < n ==> (#[trigger] fst.trs_sp(x)).len() == old(fst).trs_sp(x).len(),
            forall|x: int, j: int|
                0 <= x < s && 0 <= j < old(fst).trs_sp(x).len() ==> {
                    let t0 = old(fst).trs_sp(x)[j];
                    let t1 = #[trigger] fst.trs_sp(x)[j];
                    let k = t1.ilabel;
                    &&& 1 <= k <= mapper.encode_table.tuples@.len()
                    &&& mapper.encode_table.tuples@[k - 1] == encode_key_sp(
                        t0,
                        encode_labels,
                        encode_weights,
                    )
                    &&& t1 == encoded_tr_sp(t0, k, encode_labels, encode_weights)
                },
        decreases n - s,
    {
        let ghost fst0 = *fst;
        let deg = fst.states[s].trs.len();
        let mut j: usize = 0;
        proof {
            crate::vector_fst::lemma_total_trs_mono(*old(fst), s + 1, n as int);
            crate::vector_fst::lemma_total_trs_nonneg(*old(fst), s as int);
        }
        while j < deg
            invariant
                fst.wf(),
                n == fst.num_states_sp(),
                n == old(fst).num_states_sp(),
                s < n,
                j <= deg,
                deg == old(fst).trs_sp(s as int).len(),
                old(fst).total_trs_upto(s + 1) <= old(fst).total_trs_sp(),
                old(fst).total_trs_upto(s as int) >= 0,
                mapper.encode_table.wf(),
                mapper.encode_table.encode_labels == encode_labels,
                mapper.encode_table.encode_weights == encode_weights,
                forall|i: int|
                    0 <= i < mapper.encode_table.tuples@.len() ==> (
                    #[trigger] mapper.encode_table.tuples@[i]).2.wf(),
                mapper.encode_table.tuples@.len() <= old(fst).total_trs_upto(s as int) + j,
                old(fst).total_trs_sp() < usize::MAX,
                fst.start_state == old(fst).start_state,
                fst0.states@.len() == n,
                forall|x: int| 0 <= x < n && x != s ==> fst.states@[x] == fst0.states@[x],
                fst0.states@[s as int] == old(fst).states@[s as int],
                forall|x: int| 0 <= x < n ==> fst.final_sp(x) == old(fst).final_sp(x),
                forall|x: int|
                    0 <= x < n ==> (#[trigger] fst.trs_sp(x)).len() == old(fst).trs_sp(x).len(),
                forall|x: int, j2: int|
                    0 <= x < s && 0 <= j2 < old(fst).trs_sp(x).len() ==> {
                        let t0 = old(fst).trs_sp(x)[j2];
                        let t1 = #[trigger] fst.trs_sp(x)[j2];
                        let k = t1.ilabel;
                        &&& 1 <= k <= mapper.encode_table.tuples@.len()
                        &&& mapper.encode_table.tuples@[k - 1] == encode_key_sp(
                            t0,
                            encode_labels,
                            encode_weights,
                        )
                        &&& t1 == encoded_tr_sp(t0, k, encode_labels, encode_weights)
                    },
                forall|j2: int|
                    0 <= j2 < j ==> {
                        let t0 = old(fst).trs_sp(s as int)[j2];
                        let t1 = #[trigger] fst.trs_sp(s as int)[j2];
                        let k = t1.ilabel;
                        &&& 1 <= k <= mapper.encode_table.tuples@.len()
                        &&& mapper.encode_table.tuples@[k - 1] == encode_key_sp(
                            t0,
                            encode_labels,
                            encode_weights,
                        )
                        &&& t1 == encoded_tr_sp(t0, k, encode_labels, encode_weights)
                    },
                forall|j2: int|
                    j <= j2 < deg ==> #[trigger] fst.trs_sp(s as int)[j2] == old(fst).trs_sp(
                        s as int,
                    )[j2],
            decreases deg - j,
        {
            let ghost fsth = *fst;
            let ghost table0 = mapper.encode_table.tuples@;
            proof {
                assert(fst.trs_sp(s as int).len() == old(fst).trs_sp(s as int).len());
            }
            let mut tr = fst.states[s].trs[j];
            proof {
                assert(fst.states@[s as int].weights_wf());
                assert(tr.weight.wf());
            }
            match mapper.tr_map(&mut tr) {
                Ok(()) => {},
                Err(e) => {
                    return Err(e);
                },
            }
            let ghost prev = fst.states@;
            let row = &mut fst.states[s];
            row.trs.set(j, tr);
            proof {
                assert(fst.states@[s as int].trs@ == prev[s as int].trs@.update(j as int, tr));
                assert(forall|x: int| 0 <= x < n && x != s ==> fst.states@[x] == prev[x]);
                assert(fst.states@[s as int].targets_below(n as int)) by {
                    assert(prev[s as int].targets_below(n as int));
                    assert forall|k: int|
                        0 <= k < fst.trs_sp(s as int).len() implies (#[trigger] fst.trs_sp(
                        s as int,
                    )[k]).nextstate < n by {
                        if k != j {
                            assert(fst.trs_sp(s as int)[k] == prev[s as int].trs@[k]);
                        } else {
                            assert(prev[s as int].trs@[j as int].nextstate < n);
                        }
                    }
                }
                assert(fst.states@[s as int].weights_wf()) by {
                    assert(prev[s as int].weights_wf());
                    W::lemma_identities_wf();
                    assert forall|k: int|
                        0 <= k < fst.trs_sp(s as int).len() implies (#[trigger] fst.trs_sp(
                        s as int,
                    )[k]).weight.wf() by {
                        if k != j {
                            assert(fst.trs_sp(s as int)[k] == prev[s as int].trs@[k]);
                        }
                    }
                }
                assert forall|x: int|
                    0 <= x < n implies fst.final_sp(x) == old(fst).final_sp(x) by {
                    assert(fsth.final_sp(x) == old(fst).final_sp(x));
                    if x != s {
                        assert(fst.states@[x] == fsth.states@[x]);
                    } else {
                        assert(fst.states@[s as int].final_weight
                            == fsth.states@[s as int].final_weight);
                    }
                }
                assert forall|x: int|
                    0 <= x < n implies (#[trigger] fst.trs_sp(x)).len() == old(fst).trs_sp(
                    x,
                ).len() by {
                    assert(fsth.trs_sp(x).len() == old(fst).trs_sp(x).len());
                    if x != s {
                        assert(fst.states@[x] == fsth.states@[x]);
                    }
                }
                assert forall|x: int, j2: int|
                    0 <= x < s && 0 <= j2 < old(fst).trs_sp(x).len() implies {
                        let t0 = old(fst).trs_sp(x)[j2];
                        let t1 = #[trigger] fst.trs_sp(x)[j2];
                        let k = t1.ilabel;
                        &&& 1 <= k <= mapper.encode_table.tuples@.len()
                        &&& mapper.encode_table.tuples@[k - 1] == encode_key_sp(
                            t0,
                            encode_labels,
                            encode_weights,
                        )
                        &&& t1 == encoded_tr_sp(t0, k, encode_labels, encode_weights)
                    } by {
                    assert(fst.states@[x] == fsth.states@[x]);
                    let t0 = old(fst).trs_sp(x)[j2];
                    let t1 = fsth.trs_sp(x)[j2];
                    let k = t1.ilabel;
                    assert(1 <= k <= table0.len());
                    assert(table0[k - 1] == encode_key_sp(t0, encode_labels, encode_weights));
                    assert(mapper.encode_table.tuples@[k - 1] == table0[k - 1]);
                }
                assert forall|j2: int|
                    0 <= j2 < j + 1 implies {
                        let t0 = old(fst).trs_sp(s as int)[j2];
                        let t1 = #[trigger] fst.trs_sp(s as int)[j2];
                        let k = t1.ilabel;
                        &&& 1 <= k <= mapper.encode_table.tuples@.len()
                        &&& mapper.encode_table.tuples@[k - 1] == encode_key_sp(
                            t0,
                            encode_labels,
                            encode_weights,
                        )
                        &&& t1 == encoded_tr_sp(t0, k, encode_labels, encode_weights)
                    } by {
                    if j2 < j {
                        let t0 = old(fst).trs_sp(s as int)[j2];
                        let t1 = fsth.trs_sp(s as int)[j2];
                        assert(fst.trs_sp(s as int)[j2] == t1);
                        let k = t1.ilabel;
                        assert(1 <= k <= table0.len());
                        assert(table0[k - 1] == encode_key_sp(
                            t0,
                            encode_labels,
                            encode_weights,
                        ));
                        assert(mapper.encode_table.tuples@[k - 1] == table0[k - 1]);
                    } else {
                        assert(fst.trs_sp(s as int)[j2] == tr);
                        assert(fsth.trs_sp(s as int)[j2] == old(fst).trs_sp(s as int)[j2]);
                    }
                }
            }
            j = j + 1;
        }
        s = s + 1;
    }
    if encode_weights {
        let ghost mid = *fst;
        let ghost table_mid = mapper.encode_table.tuples@;
        let n0 = fst.num_states();
        let superfinal = fst.add_state();
        let mut s2: usize = 0;
        while s2 < n0
            invariant
                fst.wf(),
                n0 == old(fst).num_states_sp(),
                superfinal == n0,
                fst.num_states_sp() == n0 + 1,
                s2 <= n0,
                encode_weights,
                mapper.encode_table.wf(),
                mapper.encode_table.encode_labels == encode_labels,
                mapper.encode_table.encode_weights == encode_weights,
                forall|i: int|
                    0 <= i < mapper.encode_table.tuples@.len() ==> (
                    #[trigger] mapper.encode_table.tuples@[i]).2.wf(),
                table_mid.len() <= mapper.encode_table.tuples@.len(),
                mapper.encode_table.tuples@.len() <= table_mid.len() + s2,
                table_mid.len() <= old(fst).total_trs_sp(),
                old(fst).total_trs_sp() + old(fst).num_states_sp() + 2 <= usize::MAX,
                forall|i: int|
                    0 <= i < table_mid.len() ==> #[trigger] mapper.encode_table.tuples@[i]
                        == table_mid[i],
                fst.start_state == old(fst).start_state,
                mid.states@.len() == n0,
                fst.final_sp(n0 as int) is None,
                fst.trs_sp(n0 as int).len() == 0,
                forall|x: int| s2 <= x < n0 ==> fst.states@[x] == mid.states@[x],
                forall|x: int| 0 <= x < s2 ==> fst.final_sp(x) is None,
                forall|x: int|
                    0 <= x < s2 ==> (#[trigger] fst.trs_sp(x)).len() == mid.trs_sp(x).len() + (
                    if mid.final_sp(x) is Some {
                        1int
                    } else {
                        0int
                    }),
                forall|x: int, j: int|
                    0 <= x < s2 && 0 <= j < mid.trs_sp(x).len() ==> #[trigger] fst.trs_sp(
                        x,
                    )[j] == mid.trs_sp(x)[j],
                forall|x: int|
                    0 <= x < s2 && mid.final_sp(x) is Some ==> {
                        let t = (#[trigger] fst.trs_sp(x)).last();
                        let k = t.ilabel;
                        &&& 1 <= k <= mapper.encode_table.tuples@.len()
                        &&& mapper.encode_table.tuples@[k - 1] == (
                        EPS_LABEL,
                        EPS_LABEL,
                        mid.final_sp(x)->0,
                        )
                        &&& t.olabel == (if encode_labels {
                            k
                        } else {
                            EPS_LABEL
                        })
                        &&& t.weight == W::sp_one()
                        &&& t.nextstate == n0
                    },
            decreases n0 - s2,
        {
            let ghost fh = *fst;
            let ghost th = mapper.encode_table.tuples@;
            let fw = fst.states[s2].final_weight;
            match fw {
                Option::Some(w) => {
                    proof {
                        assert(fst.states@[s2 as int].weights_wf());
                        assert(w.wf());
                        crate::vector_fst::lemma_total_trs_nonneg(
                            *old(fst),
                            old(fst).num_states_sp(),
                        );
                    }
                    let key = (EPS_LABEL, EPS_LABEL, w);
                    let ghost tpre = mapper.encode_table.tuples@;
                    let k = mapper.encode_table.encode_key(key);
                    proof {
                        assert forall|i: int|
                            0 <= i < mapper.encode_table.tuples@.len() implies (
                        #[trigger] mapper.encode_table.tuples@[i]).2.wf() by {
                            if i < tpre.len() {
                                assert(mapper.encode_table.tuples@[i] == tpre[i]);
                            } else {
                                assert(mapper.encode_table.tuples@ == tpre.push(key));
                                assert(mapper.encode_table.tuples@[i] == key);
                            }
                        }
                    }
                    let olab = if encode_labels {
                        k
                    } else {
                        EPS_LABEL
                    };
                    let one_w = W::one();
                    let rt = fst.add_tr(
                        s2,
                        Tr { ilabel: k, olabel: olab, weight: one_w, nextstate: superfinal },
                    );
                    proof {
                        assert(rt is Ok);
                    }
                    let rf = fst.delete_final_weight(s2);
                    proof {
                        assert(rf is Ok);
                        assert(fw == mid.final_sp(s2 as int));
                        assert(fst.final_sp(s2 as int) is None);
                        assert(fst.trs_sp(s2 as int).len() == fh.trs_sp(s2 as int).len() + 1);
                        assert(fst.trs_sp(s2 as int).last() == (Tr {
                            ilabel: k,
                            olabel: olab,
                            weight: one_w,
                            nextstate: superfinal,
                        }));
                        assert(mapper.encode_table.tuples@[k - 1] == key);
                        assert forall|x: int|
                            0 <= x < s2 || s2 < x < n0 implies fst.states@[x] == fh.states@[x] by {}
                        assert forall|x: int|
                            0 <= x < s2 + 1 implies fst.final_sp(x) is None by {
                            if x < s2 {
                                assert(fst.states@[x] == fh.states@[x]);
                                assert(fh.final_sp(x) is None);
                            }
                        }
                        assert forall|x: int|
                            0 <= x < s2 implies (#[trigger] fst.trs_sp(x)).len() == mid.trs_sp(
                            x,
                        ).len() + (if mid.final_sp(x) is Some {
                            1int
                        } else {
                            0int
                        }) by {
                            assert(fst.states@[x] == fh.states@[x]);
                            assert(fh.trs_sp(x).len() == mid.trs_sp(x).len() + (
                            if mid.final_sp(x) is Some {
                                1int
                            } else {
                                0int
                            }));
                        }
                        assert forall|x: int, j: int|
                            0 <= x < s2 && 0 <= j < mid.trs_sp(x).len() implies #[trigger] fst
                            .trs_sp(x)[j] == mid.trs_sp(x)[j] by {
                            assert(fst.states@[x] == fh.states@[x]);
                            assert(fh.trs_sp(x)[j] == mid.trs_sp(x)[j]);
                        }
                        assert forall|x: int|
                            0 <= x < s2 && mid.final_sp(x) is Some implies {
                                let t = (#[trigger] fst.trs_sp(x)).last();
                                let kk = t.ilabel;
                                &&& 1 <= kk <= mapper.encode_table.tuples@.len()
                                &&& mapper.encode_table.tuples@[kk - 1] == (
                                EPS_LABEL,
                                EPS_LABEL,
                                mid.final_sp(x)->0,
                                )
                                &&& t.olabel == (if encode_labels {
                                    kk
                                } else {
                                    EPS_LABEL
                                })
                                &&& t.weight == W::sp_one()
                                &&& t.nextstate == n0
                            } by {
                            assert(fst.states@[x] == fh.states@[x]);
                            let t = fh.trs_sp(x).last();
                            let kk = t.ilabel;
                            assert(1 <= kk <= th.len());
                            assert(th[kk - 1] == (EPS_LABEL, EPS_LABEL, mid.final_sp(x)->0));
                            assert(mapper.encode_table.tuples@[kk - 1] == th[kk - 1]) by {
                                if kk - 1 < tpre.len() {
                                    assert(tpre[kk - 1] == th[kk - 1]);
                                }
                            }
                        }
                    }
                },
                Option::None => {
                    proof {
                        assert(fst.states@[s2 as int] == mid.states@[s2 as int]);
                        assert(fst.final_sp(s2 as int) is None);
                    }
                },
            }
            s2 = s2 + 1;
        }
        let one_w = W::one();
        let ghost fpre = *fst;
        let rs = fst.set_final(superfinal, one_w);
        proof {
            assert(rs is Ok);
            assert forall|s: int, j: int|
                0 <= s < old(fst).num_states_sp() && 0 <= j < old(fst).trs_sp(s).len() implies {
                    let t0 = old(fst).trs_sp(s)[j];
                    let t1 = #[trigger] fst.trs_sp(s)[j];
                    let k = t1.ilabel;
                    &&& 1 <= k <= mapper.encode_table.tuples@.len()
                    &&& mapper.encode_table.tuples@[k - 1] == encode_key_sp(
                        t0,
                        encode_labels,
                        encode_weights,
                    )
                    &&& t1 == encoded_tr_sp(t0, k, encode_labels, encode_weights)
                } by {
                assert(fst.states@[s] == fpre.states@[s]);
                assert(fpre.trs_sp(s)[j] == mid.trs_sp(s)[j]);
                let t1 = mid.trs_sp(s)[j];
                let k = t1.ilabel;
                assert(1 <= k <= table_mid.len());
                assert(table_mid[k - 1] == encode_key_sp(
                    old(fst).trs_sp(s)[j],
                    encode_labels,
                    encode_weights,
                ));
                assert(mapper.encode_table.tuples@[k - 1] == table_mid[k - 1]);
            }
            assert forall|s: int|
                0 <= s < old(fst).num_states_sp() implies fst.final_sp(s) is None by {
                assert(fst.states@[s] == fpre.states@[s]);
                assert(fpre.final_sp(s) is None);
            }
            assert forall|s: int|
                0 <= s < old(fst).num_states_sp() implies (#[trigger] fst.trs_sp(s)).len()
                == old(fst).trs_sp(s).len() + (if old(fst).final_sp(s) is Some {
                1int
            } else {
                0int
            }) by {
                assert(fst.states@[s] == fpre.states@[s]);
                assert(fpre.trs_sp(s).len() == mid.trs_sp(s).len() + (
                if mid.final_sp(s) is Some {
                    1int
                } else {
                    0int
                }));
                assert(mid.final_sp(s) == old(fst).final_sp(s));
                assert(mid.trs_sp(s).len() == old(fst).trs_sp(s).len());
            }
            assert forall|s: int|
                0 <= s < old(fst).num_states_sp() && old(fst).final_sp(s) is Some implies {
                    let t = (#[trigger] fst.trs_sp(s)).last();
                    let k = t.ilabel;
                    &&& 1 <= k <= mapper.encode_table.tuples@.len()
                    &&& mapper.encode_table.tuples@[k - 1] == (
                    EPS_LABEL,
                    EPS_LABEL,
                    old(fst).final_sp(s)->0,
                    )
                    &&& t.olabel == (if encode_labels {
                        k
                    } else {
                        EPS_LABEL
                    })
                    &&& t.weight == W::sp_one()
                    &&& t.nextstate == old(fst).num_states_sp()
                } by {
                assert(fst.states@[s] == fpre.states@[s]);
                assert(fst.trs_sp(s) == fpre.trs_sp(s));
                assert(mid.final_sp(s) == old(fst).final_sp(s));
                assert(mid.final_sp(s) is Some);
                let t = fpre.trs_sp(s).last();
                let k = t.ilabel;
                assert(1 <= k <= mapper.encode_table.tuples@.len());
                assert(mapper.encode_table.tuples@[k - 1] == (
                EPS_LABEL,
                EPS_LABEL,
                mid.final_sp(s)->0,
                ));
            }
        }
    }
    Ok(mapper.encode_table)
}

/// Every transition label is a label the table knows.
pub open spec fn decode_ranges_ok<W: Semiring>(fst: VectorFst<W>, table: EncodeTable<W>) -> bool {
    forall|s: int, j: int|
        0 <= s < fst.num_states_sp() && 0 <= j < fst.trs_sp(s).len() ==> 1 <= (#[trigger] fst.trs_sp(
            s,
        )[j]).ilabel <= table.tuples@.len()
}

/// A transition that routes finality to the super-final state: its key
/// decodes to an epsilon pair.
pub open spec fn routing_tr_ok<W: Semiring>(t: Tr<W>, table: EncodeTable<W>) -> bool {
    &&& 1 <= t.ilabel <= table.tuples@.len()
    &&& table.tuples@[t.ilabel - 1].0 == EPS_LABEL
    &&& (if table.encode_labels {
        table.tuples@[t.ilabel - 1].1 == EPS_LABEL
    } else {
        t.olabel == EPS_LABEL
    })
}

/// The shape a weight-encoding leaves behind: the last state is the
/// super-final state (final with weight one, no outgoing transitions), no
/// other state is final, and any transition into it is its source's last and
/// decodes to an epsilon pair carrying the source's original final weight.
pub open spec fn routed_shape<W: Semiring>(fst: VectorFst<W>, table: EncodeTable<W>) -> bool {
    &&& fst.num_states_sp() >= 1
    &&& fst.final_sp(fst.num_states_sp() - 1) == Some(W::sp_one())
    &&& fst.trs_sp(fst.num_states_sp() - 1).len() == 0
    &&& (fst.start_state is Some ==> fst.start_state->0 < fst.num_states_sp() - 1)
    &&& (forall|s: int| 0 <= s < fst.num_states_sp() - 1 ==> fst.final_sp(s) is None)
    &&& (forall|s: int, j: int|
        0 <= s < fst.num_states_sp() - 1 && 0 <= j < fst.trs_sp(s).len() && (#[trigger] fst.trs_sp(
            s,
        )[j]).nextstate == fst.num_states_sp() - 1 ==> j == fst.trs_sp(s).len() - 1
            && routing_tr_ok(fst.trs_sp(s)[j], table))
}

/// The per-transition restoration rule of decoding.
pub open spec fn decoded_tr_ok<W: Semiring>(t0: Tr<W>, t1: Tr<W>, table: EncodeTable<W>) -> bool {
    let key = table.tuples@[t0.ilabel - 1];
    &&& t1.ilabel == key.0
    &&& t1.olabel == (if table.encode_labels {
        key.1
    } else {
        t0.olabel
    })
    &&& t1.weight == (if table.encode_weights {
        key.2
    } else {
        t0.weight
    })
    &&& t1.nextstate == t0.nextstate
}

/// Decodes every transition: each synthetic input label is replaced by the
/// key it stands for. With a weight-encoding table, the super-final routing
/// is also undone: each routing transition becomes its source's final weight
/// again and the super-final state is removed. Fails, without changing
/// anything, iff some transition carries a label the table does not know or
/// (for a weight-encoding table) the transducer does not carry the routed
/// shape the encoding leaves behind.
pub fn decode<W: Semiring>(fst: &mut VectorFst<W>, table: &EncodeTable<W>) -> (r: Result<
    (),
    FstError,
>)
    requires
        old(fst).wf(),
        table.wf(),
        forall|i: int| 0 <= i < table.tuples@.len() ==> (#[trigger] table.tuples@[i]).2.wf(),
    ensures
        !table.encode_weights ==> (r is Ok <==> decode_ranges_ok(*old(fst), *table)),
        table.encode_weights ==> (r is Ok <==> (decode_ranges_ok(*old(fst), *table)
            && routed_shape(*old(fst), *table))),
        r is Err ==> *final(fst) == *old(fst) && r == Err::<(), FstError>(
            FstError::IncompatibleWeights,
        ),
        (!table.encode_weights && r is Ok) ==> {
            &&& final(fst).num_states_sp() == old(fst).num_states_sp()
            &&& final(fst).start_state == old(fst).start_state
            &&& (forall|s: int|
                0 <= s < old(fst).num_states_sp() ==> final(fst).final_sp(s) == old(
                    fst,
                ).final_sp(s))
            &&& (forall|s: int|
                0 <= s < old(fst).num_states_sp() ==> (#[trigger] final(fst).trs_sp(s)).len()
                    == old(fst).trs_sp(s).len())
            &&& (forall|s: int, j: int|
                0 <= s < old(fst).num_states_sp() && 0 <= j < old(fst).trs_sp(s).len()
                    ==> decoded_tr_ok(
                    old(fst).trs_sp(s)[j],
                    #[trigger] final(fst).trs_sp(s)[j],
                    *table,
                ))
        },
        (table.encode_weights && r is Ok) ==> {
            let sf = old(fst).num_states_sp() - 1;
            &&& final(fst).num_states_sp() == sf
            &&& final(fst).start_state == old(fst).start_state
            &&& (forall|s: int|
                0 <= s < sf ==> {
                    let oldt = old(fst).trs_sp(s);
                    let routed = oldt.len() > 0 && oldt.last().nextstate == sf;
                    &&& #[trigger] final(fst).final_sp(s) == (if routed {
                        Some(table.tuples@[oldt.last().ilabel - 1].2)
                    } else {
                        Option::<W>::None
                    })
                    &&& final(fst).trs_sp(s).len() == oldt.len() - (if routed {
                        1int
                    } else {
                        0int
                    })
                    &&& (forall|j: int|
                        0 <= j < final(fst).trs_sp(s).len() ==> decoded_tr_ok(
                            oldt[j],
                            #[trigger] final(fst).trs_sp(s)[j],
                            *table,
                        ))
                })
        },
        final(fst).wf(),
{
    let n = fst.num_states();
    let mut s: usize = 0;
    while s < n
        invariant
            fst.wf(),
            *fst == *old(fst),
            table.wf(),
            n == fst.num_states_sp(),
            s <= n,
            forall|x: int, j: int|
                0 <= x < s && 0 <= j < fst.trs_sp(x).len() ==> 1 <= (#[trigger] fst.trs_sp(
                    x,
                )[j]).ilabel <= table.tuples@.len(),
        decreases n - s,
    {
        let deg = fst.states[s].trs.len();
        let mut j: usize = 0;
        while j < deg
            invariant
                fst.wf(),
                *fst == *old(fst),
                table.wf(),
                n == fst.num_states_sp(),
                s < n,
                deg == fst.trs_sp(s as int).len(),
                j <= deg,
                forall|x: int, j2: int|
                    0 <= x < s && 0 <= j2 < fst.trs_sp(x).len() ==> 1 <= (#[trigger] fst.trs_sp(
                        x,
                    )[j2]).ilabel <= table.tuples@.len(),
                forall|j2: int|
                    0 <= j2 < j ==> 1 <= (#[trigger] fst.trs_sp(s as int)[j2]).ilabel
                        <= table.tuples@.len(),
            decreases deg - j,
        {
            let l = fst.states[s].trs[j].ilabel;
            if l < 1 || l > table.tuples.len() {
                proof {
                    assert(old(fst).trs_sp(s as int)[j as int].ilabel == l);
                    assert(!decode_ranges_ok(*old(fst), *table));
                }
                return Err(FstError::IncompatibleWeights);
            }
            j = j + 1;
        }
        s = s + 1;
    }
    proof {
        assert(decode_ranges_ok(*old(fst), *table));
    }
    if table.encode_weights {
        if n == 0 {
            return Err(FstError::IncompatibleWeights);
        }
        let sf = n - 1;
        let mut ok_final = false;
        match &fst.states[sf].final_weight {
            Option::Some(w) => {
                if w.is_one() {
                    ok_final = true;
                }
            },
            Option::None => {},
        }
        if !ok_final {
            return Err(FstError::IncompatibleWeights);
        }
        if fst.states[sf].trs.len() != 0 {
            return Err(FstError::IncompatibleWeights);
        }
        match fst.start() {
            Option::Some(st) => {
                if st >= sf {
                    return Err(FstError::IncompatibleWeights);
                }
            },
            Option::None => {},
        }
        let mut s2: usize = 0;
        while s2 < sf
            invariant
                fst.wf(),
                *fst == *old(fst),
                table.wf(),
                table.encode_weights,
                n == fst.num_states_sp(),
                sf == n - 1,
                s2 <= sf,
                forall|x: int| 0 <= x < s2 ==> fst.final_sp(x) is None,
                forall|x: int, j2: int|
                    0 <= x < s2 && 0 <= j2 < fst.trs_sp(x).len() && (#[trigger] fst.trs_sp(
                        x,
                    )[j2]).nextstate == sf ==> j2 == fst.trs_sp(x).len() - 1 && routing_tr_ok(
                        fst.trs_sp(x)[j2],
                        *table,
                    ),
            decreases sf - s2,
        {
            if fst.states[s2].final_weight.is_some() {
                proof {
                    assert(old(fst).final_sp(s2 as int) is Some);
                    assert(!routed_shape(*old(fst), *table));
                }
                return Err(FstError::IncompatibleWeights);
            }
            let deg = fst.states[s2].trs.len();
            let mut j: usize = 0;
            while j < deg
                invariant
                    fst.wf(),
                    *fst == *old(fst),
                    table.wf(),
                    table.encode_weights,
                    n == fst.num_states_sp(),
                    sf == n - 1,
                    s2 < sf,
                    deg == fst.trs_sp(s2 as int).len(),
                    j <= deg,
                    forall|x: int| 0 <= x < s2 ==> fst.final_sp(x) is None,
                    forall|x: int, j2: int|
                        0 <= x < s2 && 0 <= j2 < fst.trs_sp(x).len() && (#[trigger] fst.trs_sp(
                            x,
                        )[j2]).nextstate == sf ==> j2 == fst.trs_sp(x).len() - 1
                            && routing_tr_ok(fst.trs_sp(x)[j2], *table),
                    forall|j2: int|
                        0 <= j2 < j && (#[trigger] fst.trs_sp(s2 as int)[j2]).nextstate == sf
                            ==> j2 == fst.trs_sp(s2 as int).len() - 1 && routing_tr_ok(
                            fst.trs_sp(s2 as int)[j2],
                            *table,
                        ),
                decreases deg - j,
            {
                let t = fst.states[s2].trs[j];
                proof {
                    assert(t == old(fst).trs_sp(s2 as int)[j as int]);
                }
                if t.nextstate == sf {
                    if j + 1 != deg {
                        proof {
                            assert(!routed_shape(*old(fst), *table));
                        }
                        return Err(FstError::IncompatibleWeights);
                    }
                    if t.ilabel < 1 || t.ilabel > table.tuples.len() {
                        proof {
                            assert(!routing_tr_ok(t, *table));
                            assert(!routed_shape(*old(fst), *table));
                        }
                        return Err(FstError::IncompatibleWeights);
                    }
                    let key = &table.tuples[t.ilabel - 1];
                    if key.0 != EPS_LABEL {
                        proof {
                            assert(!routing_tr_ok(t, *table));
                            assert(!routed_shape(*old(fst), *table));
                        }
                        return Err(FstError::IncompatibleWeights);
                    }
                    if table.encode_labels {
                        if key.1 != EPS_LABEL {
                            proof {
                                assert(!routing_tr_ok(t, *table));
                                assert(!routed_shape(*old(fst), *table));
                            }
                            return Err(FstError::IncompatibleWeights);
                        }
                    } else {
                        if t.olabel != EPS_LABEL {
                            proof {
                                assert(!routing_tr_ok(t, *table));
                                assert(!routed_shape(*old(fst), *table));
                            }
                            return Err(FstError::IncompatibleWeights);
                        }
                    }
                }
                j = j + 1;
            }
            s2 = s2 + 1;
        }
        proof {
            assert(routed_shape(*old(fst), *table));
        }
    }
    let mut s: usize = 0;
    while s < n
        invariant
            fst.wf(),
            table.wf(),
            forall|i: int| 0 <= i < table.tuples@.len() ==> (#[trigger] table.tuples@[i]).2.wf(),
            n == fst.num_states_sp(),
            n == old(fst).num_states_sp(),
            s <= n,
            fst.start_state == old(fst).start_state,
            forall|x: int| s <= x < n ==> fst.states@[x] == old(fst).states@[x],
            forall|x: int| 0 <= x < n ==> fst.final_sp(x) == old(fst).final_sp(x),
            forall|x: int|
                0 <= x < n ==> (#[trigger] fst.trs_sp(x)).len() == old(fst).trs_sp(x).len(),
            forall|x: int, j: int|
                0 <= x < n && 0 <= j < old(fst).trs_sp(x).len() ==> 1 <= (#[trigger] old(
                    fst,
                ).trs_sp(x)[j]).ilabel <= table.tuples@.len(),
            forall|x: int, j2: int|
                0 <= x < s && 0 <= j2 < old(fst).trs_sp(x).len() ==> decoded_tr_ok(
                    old(fst).trs_sp(x)[j2],
                    #[trigger] fst.trs_sp(x)[j2],
                    *table,
                ),
        decreases n - s,
    {
        let ghost fst0 = *fst;
        let deg = fst.states[s].trs.len();
        let mut j: usize = 0;
        while j < deg
            invariant
                fst.wf(),
                table.wf(),
                forall|i: int|
                    0 <= i < table.tuples@.len() ==> (#[trigger] table.tuples@[i]).2.wf(),
                n == fst.num_states_sp(),
                n == old(fst).num_states_sp(),
                s < n,
                j <= deg,
                deg == old(fst).trs_sp(s as int).len(),
                fst.start_state == old(fst).start_state,
                fst0.states@.len() == n,
                forall|x: int| 0 <= x < n && x != s ==> fst.states@[x] == fst0.states@[x],
                fst0.states@[s as int] == old(fst).states@[s as int],
                forall|x: int| 0 <= x < n ==> fst.final_sp(x) == old(fst).final_sp(x),
                forall|x: int|
                    0 <= x < n ==> (#[trigger] fst.trs_sp(x)).len() == old(fst).trs_sp(x).len(),
                forall|x: int, j2: int|
                    0 <= x < n && 0 <= j2 < old(fst).trs_sp(x).len() ==> 1 <= (#[trigger] old(
                        fst,
                    ).trs_sp(x)[j2]).ilabel <= table.tuples@.len(),
                forall|x: int, j2: int|
                    0 <= x < s && 0 <= j2 < old(fst).trs_sp(x).len() ==> decoded_tr_ok(
                        old(fst).trs_sp(x)[j2],
                        #[trigger] fst.trs_sp(x)[j2],
                        *table,
                    ),
                forall|j2: int|
                    0 <= j2 < j ==> decoded_tr_ok(
                        old(fst).trs_sp(s as int)[j2],
                        #[trigger] fst.trs_sp(s as int)[j2],
                        *table,
                    ),
                forall|j2: int|
                    j <= j2 < deg ==> #[trigger] fst.trs_sp(s as int)[j2] == old(fst).trs_sp(
                        s as int,
                    )[j2],
            decreases deg - j,
        {
            let ghost fsth = *fst;
            proof {
                assert(fst.trs_sp(s as int).len() == old(fst).trs_sp(s as int).len());
                assert(fst.trs_sp(s as int)[j as int] == old(fst).trs_sp(s as int)[j as int]);
            }
            let tr = fst.states[s].trs[j];
            let key = match table.decode_label(tr.ilabel) {
                Option::Some(k) => k,
                Option::None => {
                    proof {
                        assert(1 <= old(fst).trs_sp(s as int)[j as int].ilabel
                            <= table.tuples@.len());
                        assert(false);
                    }
                    return Err(FstError::IncompatibleWeights);
                },
            };
            let nilabel = key.0;
            let nolabel = if table.encode_labels {
                key.1
            } else {
                tr.olabel
            };
            let nweight = if table.encode_weights {
                key.2
            } else {
                tr.weight
            };
            let nt = Tr { ilabel: nilabel, olabel: nolabel, weight: nweight, nextstate: tr.nextstate };
            let ghost prev = fst.states@;
            let row = &mut fst.states[s];
            row.trs.set(j, nt);
            proof {
                assert(fst.states@[s as int].trs@ == prev[s as int].trs@.update(j as int, nt));
                assert(forall|x: int| 0 <= x < n && x != s ==> fst.states@[x] == prev[x]);
                assert(fst.states@[s as int].targets_below(n as int)) by {
                    assert(prev[s as int].targets_below(n as int));
                    assert forall|k2: int|
                        0 <= k2 < fst.trs_sp(s as int).len() implies (#[trigger] fst.trs_sp(
                        s as int,
                    )[k2]).nextstate < n by {
                        if k2 != j {
                            assert(fst.trs_sp(s as int)[k2] == prev[s as int].trs@[k2]);
                        } else {
                            assert(prev[s as int].trs@[j as int].nextstate < n);
                        }
                    }
                }
                assert(fst.states@[s as int].weights_wf()) by {
                    assert(prev[s as int].weights_wf());
                    assert forall|k2: int|
                        0 <= k2 < fst.trs_sp(s as int).len() implies (#[trigger] fst.trs_sp(
                        s as int,
                    )[k2]).weight.wf() by {
                        if k2 != j {
                            assert(fst.trs_sp(s as int)[k2] == prev[s as int].trs@[k2]);
                        }
                    }
                }
                assert forall|x: int|
                    0 <= x < n implies fst.final_sp(x) == old(fst).final_sp(x) by {
                    assert(fsth.final_sp(x) == old(fst).final_sp(x));
                    if x != s {
                        assert(fst.states@[x] == fsth.states@[x]);
                    } else {
                        assert(fst.states@[s as int].final_weight
                            == fsth.states@[s as int].final_weight);
                    }
                }
                assert forall|x: int|
                    0 <= x < n implies (#[trigger] fst.trs_sp(x)).len() == old(fst).trs_sp(
                    x,
                ).len() by {
                    assert(fsth.trs_sp(x).len() == old(fst).trs_sp(x).len());
                    if x != s {
                        assert(fst.states@[x] == fsth.states@[x]);
                    }
                }
                assert forall|x: int, j2: int|
                    0 <= x < s && 0 <= j2 < old(fst).trs_sp(x).len() implies decoded_tr_ok(
                    old(fst).trs_sp(x)[j2],
                    #[trigger] fst.trs_sp(x)[j2],
                    *table,
                ) by {
                    assert(fst.states@[x] == fsth.states@[x]);
                    assert(decoded_tr_ok(old(fst).trs_sp(x)[j2], fsth.trs_sp(x)[j2], *table));
                }
            }
            j = j + 1;
        }
        s = s + 1;
    }
    if table.encode_weights {
        let ghost restored = *fst;
        let sf = n - 1;
        let mut s3: usize = 0;
        while s3 < sf
            invariant
                fst.wf(),
                table.wf(),
                forall|i: int|
                    0 <= i < table.tuples@.len() ==> (#[trigger] table.tuples@[i]).2.wf(),
                table.encode_weights,
                n == fst.num_states_sp(),
                n == old(fst).num_states_sp(),
                sf == n - 1,
                s3 <= sf,
                routed_shape(*old(fst), *table),
                restored.states@.len() == n,
                fst.start_state == old(fst).start_state,
                forall|x: int| s3 <= x < n ==> fst.states@[x] == restored.states@[x],
                forall|x: int|
                    0 <= x < n ==> restored.final_sp(x) == old(fst).final_sp(x),
                forall|x: int|
                    0 <= x < n ==> (#[trigger] restored.trs_sp(x)).len() == old(fst).trs_sp(
                        x,
                    ).len(),
                forall|x: int, j2: int|
                    0 <= x < n && 0 <= j2 < old(fst).trs_sp(x).len() ==> decoded_tr_ok(
                        old(fst).trs_sp(x)[j2],
                        #[trigger] restored.trs_sp(x)[j2],
                        *table,
                    ),
                forall|x: int|
                    0 <= x < s3 ==> {
                        let oldt = old(fst).trs_sp(x);
                        let routed = oldt.len() > 0 && oldt.last().nextstate == sf;
                        &&& #[trigger] fst.final_sp(x) == (if routed {
                            Some(table.tuples@[oldt.last().ilabel - 1].2)
                        } else {
                            Option::<W>::None
                        })
                        &&& fst.trs_sp(x).len() == oldt.len() - (if routed {
                            1int
                        } else {
                            0int
                        })
                        &&& (forall|j2: int|
                            0 <= j2 < fst.trs_sp(x).len() ==> decoded_tr_ok(
                                oldt[j2],
                                #[trigger] fst.trs_sp(x)[j2],
                                *table,
                            ))
                        &&& (forall|j2: int|
                            0 <= j2 < fst.trs_sp(x).len() ==> (#[trigger] fst.trs_sp(
                                x,
                            )[j2]).nextstate != sf)
                    },
            decreases sf - s3,
        {
            let ghost fh = *fst;
            let deg = fst.states[s3].trs.len();
            let mut routed_here = false;
            if deg > 0 {
                if fst.states[s3].trs[deg - 1].nextstate == sf {
                    routed_here = true;
                }
            }
            proof {
                assert(fst.trs_sp(s3 as int) == restored.trs_sp(s3 as int));
                assert(restored.trs_sp(s3 as int).len() == old(fst).trs_sp(s3 as int).len());
                if deg > 0 {
                    assert(decoded_tr_ok(
                        old(fst).trs_sp(s3 as int)[deg - 1],
                        restored.trs_sp(s3 as int)[deg - 1],
                        *table,
                    ));
                    assert(restored.trs_sp(s3 as int)[deg - 1].nextstate == old(fst).trs_sp(
                        s3 as int,
                    )[deg - 1].nextstate);
                }
            }
            if routed_here {
                let ghost prev = fst.states@;
                let row = &mut fst.states[s3];
                let popped = row.trs.pop();
                let t = popped.unwrap();
                let w = t.weight;
                row.final_weight = Some(w);
                proof {
                    assert(fst.states@[s3 as int].trs@ == prev[s3 as int].trs@.drop_last());
                    assert(fst.states@[s3 as int].final_weight == Some(w));
                    assert(forall|x: int| 0 <= x < n && x != s3 ==> fst.states@[x] == prev[x]);
                    assert(w == restored.trs_sp(s3 as int).last().weight);
                    assert(w == table.tuples@[old(fst).trs_sp(s3 as int).last().ilabel - 1].2);
                    assert(w.wf());
                    assert(fst.states@[s3 as int].targets_below(n as int)) by {
                        assert(prev[s3 as int].targets_below(n as int));
                        assert forall|k2: int|
                            0 <= k2 < fst.trs_sp(s3 as int).len() implies (
                        #[trigger] fst.trs_sp(s3 as int)[k2]).nextstate < n by {
                            assert(fst.trs_sp(s3 as int)[k2] == prev[s3 as int].trs@[k2]);
                        }
                    }
                    assert(fst.states@[s3 as int].weights_wf()) by {
                        assert(prev[s3 as int].weights_wf());
                        assert forall|k2: int|
                            0 <= k2 < fst.trs_sp(s3 as int).len() implies (
                        #[trigger] fst.trs_sp(s3 as int)[k2]).weight.wf() by {
                            assert(fst.trs_sp(s3 as int)[k2] == prev[s3 as int].trs@[k2]);
                        }
                    }
                    assert forall|j2: int|
                        0 <= j2 < fst.trs_sp(s3 as int).len() implies (#[trigger] fst.trs_sp(
                        s3 as int,
                    )[j2]).nextstate != sf by {
                        assert(fst.trs_sp(s3 as int)[j2] == restored.trs_sp(s3 as int)[j2]);
                        assert(restored.trs_sp(s3 as int)[j2].nextstate == old(fst).trs_sp(
                            s3 as int,
                        )[j2].nextstate);
                        if old(fst).trs_sp(s3 as int)[j2].nextstate == sf {
                            assert(j2 == old(fst).trs_sp(s3 as int).len() - 1);
                        }
                    }
                    assert forall|x: int|
                        0 <= x < s3 + 1 implies {
                            let oldt = old(fst).trs_sp(x);
                            let routed = oldt.len() > 0 && oldt.last().nextstate == sf;
                            &&& #[trigger] fst.final_sp(x) == (if routed {
                                Some(table.tuples@[oldt.last().ilabel - 1].2)
                            } else {
                                Option::<W>::None
                            })
                            &&& fst.trs_sp(x).len() == oldt.len() - (if routed {
                                1int
                            } else {
                                0int
                            })
                            &&& (forall|j2: int|
                                0 <= j2 < fst.trs_sp(x).len() ==> decoded_tr_ok(
                                    oldt[j2],
                                    #[trigger] fst.trs_sp(x)[j2],
                                    *table,
                                ))
                            &&& (forall|j2: int|
                                0 <= j2 < fst.trs_sp(x).len() ==> (#[trigger] fst.trs_sp(
                                    x,
                                )[j2]).nextstate != sf)
                        } by {
                        if x < s3 {
                            assert(fst.states@[x] == fh.states@[x]);
                            assert(fh.final_sp(x) == fst.final_sp(x));
                            assert(fh.trs_sp(x) == fst.trs_sp(x));
                        } else {
                            assert(old(fst).trs_sp(x).len() > 0 && old(fst).trs_sp(
                                x,
                            ).last().nextstate == sf);
                            assert(fst.final_sp(x) == Some(
                                table.tuples@[old(fst).trs_sp(x).last().ilabel - 1].2,
                            ));
                            assert(fst.trs_sp(x).len() == old(fst).trs_sp(x).len() - 1);
                            assert forall|j2: int|
                                0 <= j2 < fst.trs_sp(x).len() implies decoded_tr_ok(
                                old(fst).trs_sp(x)[j2],
                                #[trigger] fst.trs_sp(x)[j2],
                                *table,
                            ) by {
                                assert(fst.trs_sp(x)[j2] == restored.trs_sp(x)[j2]);
                                assert(decoded_tr_ok(
                                    old(fst).trs_sp(x)[j2],
                                    restored.trs_sp(x)[j2],
                                    *table,
                                ));
                            }
                        }
                    }
                }
            } else {
                proof {
                    assert(fst.states@[s3 as int] == restored.states@[s3 as int]);
                    assert(restored.final_sp(s3 as int) == old(fst).final_sp(s3 as int));
                    assert(fst.final_sp(s3 as int) == old(fst).final_sp(s3 as int));
                    assert(old(fst).final_sp(s3 as int) is None);
                    assert forall|j2: int|
                        0 <= j2 < fst.trs_sp(s3 as int).len() implies (#[trigger] fst.trs_sp(
                        s3 as int,
                    )[j2]).nextstate != sf by {
                        assert(fst.trs_sp(s3 as int)[j2] == restored.trs_sp(s3 as int)[j2]);
                        assert(restored.trs_sp(s3 as int)[j2].nextstate == old(fst).trs_sp(
                            s3 as int,
                        )[j2].nextstate);
                        if old(fst).trs_sp(s3 as int)[j2].nextstate == sf {
                            assert(j2 == old(fst).trs_sp(s3 as int).len() - 1);
                            assert(routed_here);
                        }
                    }
                    assert forall|x: int|
                        0 <= x < s3 + 1 implies {
                            let oldt = old(fst).trs_sp(x);
                            let routed = oldt.len() > 0 && oldt.last().nextstate == sf;
                            &&& #[trigger] fst.final_sp(x) == (if routed {
                                Some(table.tuples@[oldt.last().ilabel - 1].2)
                            } else {
                                Option::<W>::None
                            })
                            &&& fst.trs_sp(x).len() == oldt.len() - (if routed {
                                1int
                            } else {
                                0int
                            })
                            &&& (forall|j2: int|
                                0 <= j2 < fst.trs_sp(x).len() ==> decoded_tr_ok(
                                    oldt[j2],
                                    #[trigger] fst.trs_sp(x)[j2],
                                    *table,
                                ))
                            &&& (forall|j2: int|
                                0 <= j2 < fst.trs_sp(x).len() ==> (#[trigger] fst.trs_sp(
                                    x,
                                )[j2]).nextstate != sf)
                        } by {
                        if x < s3 {
                            assert(fst.states@[x] == fh.states@[x]);
                            assert(fh.final_sp(x) == fst.final_sp(x));
                            assert(fh.trs_sp(x) == fst.trs_sp(x));
                        } else {
                            assert(fst.states@[x] == restored.states@[x]);
                            assert(fst.trs_sp(x).len() == old(fst).trs_sp(x).len());
                            assert(!(old(fst).trs_sp(x).len() > 0 && old(fst).trs_sp(
                                x,
                            ).last().nextstate == sf));
                            assert forall|j2: int|
                                0 <= j2 < fst.trs_sp(x).len() implies decoded_tr_ok(
                                old(fst).trs_sp(x)[j2],
                                #[trigger] fst.trs_sp(x)[j2],
                                *table,
                            ) by {
                                assert(fst.trs_sp(x)[j2] == restored.trs_sp(x)[j2]);
                                assert(decoded_tr_ok(
                                    old(fst).trs_sp(x)[j2],
                                    restored.trs_sp(x)[j2],
                                    *table,
                                ));
                            }
                        }
                    }
                }
            }
            s3 = s3 + 1;
        }
        let ghost pre_del = *fst;
        fst.del_state(sf);
        proof {
            let keep = Seq::new(pre_del.num_states_sp() as nat, |i: int| i != sf);
            assert forall|x: int| 0 <= x <= sf implies count_kept(keep, x) == x by {
                crate::vector_fst::lemma_count_kept_prefix_true(keep, x);
            }
            assert(fst.num_states_sp() == sf) by {
                assert(count_kept(keep, sf + 1) == count_kept(keep, sf as int));
            }
            assert forall|x: int|
                0 <= x < sf implies fst.states@[x] == pre_del.states@[count_kept(keep, x)]
                    || true by {}
            assert forall|x: int|
                0 <= x < sf implies #[trigger] fst.final_sp(x) == pre_del.final_sp(x)
                    && fst.trs_sp(x) == pre_del.trs_sp(x) by {
                assert(count_kept(keep, x) == x);
                assert(fst.final_sp(count_kept(keep, x)) == pre_del.final_sp(x));
                assert(fst.trs_sp(count_kept(keep, x)) == crate::vector_fst::map_trs_spec(
                    pre_del.trs_sp(x),
                    keep,
                ));
                assert forall|i: int|
                    0 <= i < pre_del.trs_sp(x).len() implies 0 <= (#[trigger] pre_del.trs_sp(
                    x,
                )[i]).nextstate < keep.len() && keep[pre_del.trs_sp(x)[i].nextstate as int]
                    && count_kept(keep, pre_del.trs_sp(x)[i].nextstate as int) == pre_del.trs_sp(
                    x,
                )[i].nextstate by {
                    assert(pre_del.states@[x].targets_below(pre_del.num_states_sp()));
                    assert(pre_del.trs_sp(x)[i].nextstate != sf);
                    assert(count_kept(keep, pre_del.trs_sp(x)[i].nextstate as int)
                        == pre_del.trs_sp(x)[i].nextstate);
                }
                crate::vector_fst::lemma_map_trs_identity(pre_del.trs_sp(x), keep);
            }
            assert(fst.start_state == old(fst).start_state) by {
                if old(fst).start_state is Some {
                    assert(old(fst).start_state->0 < sf);
                    assert(keep[old(fst).start_state->0 as int]);
                }
            }
        }
    }
    Ok(())
}

/// Encoding and decoding restore every transition: with label (and/or
/// weight) encoding, the key stored under a transition's synthetic label
/// carries exactly its original labels and weight, so decoding with the same
/// table yields the original transition. With label-only encoding the round
/// trip is the identity.
pub proof fn lemma_encode_decode_roundtrip<W: Semiring>(
    t0: Tr<W>,
    t1: Tr<W>,
    t2: Tr<W>,
    k: Label,
    key: (Label, Label, W),
    encode_labels: bool,
)
    requires
        key == encode_key_sp(t0, encode_labels, false),
        t1 == encoded_tr_sp(t0, k, encode_labels, false),
        t1.ilabel == k,
        t2.ilabel == key.0,
        t2.olabel == (if encode_labels {
            key.1
        } else {
            t1.olabel
        }),
        t2.weight == t1.weight,
        t2.nextstate == t1.nextstate,
    ensures
        t2 == t0,
{
}

} // verus!
