use wfst::algorithms::arc_mappers::{ArcMapper, InputEpsilonMapper};
use wfst::algorithms::connect::connect;
use wfst::algorithms::inversion::invert;
use wfst::algorithms::projection::project;
use wfst::algorithms::encode::{decode, encode, EncodeTable};
use wfst::algorithms::factor_weight::{FactorWeightFst, IdentityFactor};
use wfst::algorithms::rm_epsilon::rm_epsilon;
use wfst::algorithms::tr_sort::tr_sort;
use wfst::algorithms::tr_unique::{tr_compare, tr_unique};
use wfst::compose::label_reachable::{LabelReachable, LabelReachableData};
use wfst::compose::match_compose_filter::{MatchComposeFilter, MatchComposeFilterBuilder};
use wfst::compose::matchers::{MatchType, SortedMatcher};
use wfst::compose::matcher_fst::MatcherFst;
use wfst::semirings::{BooleanWeight, IntegerWeight, Semiring, TropicalWeight, WeightQuantize};
use wfst::vector_fst::VectorFst;
use wfst::{FstError, Tr, EPS_LABEL, NO_LABEL};
use std::cmp::Ordering;
use std::sync::Arc;

#[test]
fn test_1() {
    let mut fst: VectorFst<IntegerWeight> = VectorFst::new();
    let s1 = fst.add_state();
    let s2 = fst.add_state();
    fst.set_start(s1).unwrap();
    fst.add_arc(s1, s2, 3, 5, IntegerWeight::new(10)).unwrap();
    fst.add_arc(s1, s2, 5, 7, IntegerWeight::new(18)).unwrap();

    assert_eq!(fst.num_states(), 2);
    assert_eq!(fst.num_arcs(), 2);
    assert_eq!(fst.arc_iter(s1).unwrap().count(), 2);

    let mut it = fst.arc_iter(s1).unwrap();

    let a = it.next();
    assert!(a.is_some());
    let a = a.unwrap();
    assert_eq!(a.ilabel(), 3);
    assert_eq!(a.olabel(), 5);
    assert_eq!(a.nextstate(), s2);
    assert_eq!(a.weight(), IntegerWeight::new(10));

    let b = it.next();
    assert!(b.is_some());
    let b = b.unwrap();
    assert_eq!(b.ilabel(), 5);
    assert_eq!(b.olabel(), 7);
    assert_eq!(b.nextstate(), s2);
    assert_eq!(b.weight(), IntegerWeight::new(18));

    let c = it.next();
    assert!(c.is_none());
}

// The transition-deduplication scenario, carried over with integer weights in
// place of the floating-point probability weights (0.3 and 0.1 scaled to 3
// and 1): 5 transitions with keys (0,0)(0,1)(1,0)(0,0)(0,0) collapse to
// (0,0: 3+3+1=7)(0,1: 3)(1,0: 3) in sorted order.
#[test]
fn test_tr_map_unique() {
    let mut fst_in: VectorFst<IntegerWeight> = VectorFst::new();
    let s1 = fst_in.add_state();
    let s2 = fst_in.add_state();
    fst_in.add_tr(s1, Tr::new(0, 0, IntegerWeight::new(3), s2)).unwrap();
    fst_in.add_tr(s1, Tr::new(0, 1, IntegerWeight::new(3), s2)).unwrap();
    fst_in.add_tr(s1, Tr::new(1, 0, IntegerWeight::new(3), s2)).unwrap();
    fst_in.add_tr(s1, Tr::new(0, 0, IntegerWeight::new(3), s2)).unwrap();
    fst_in.add_tr(s1, Tr::new(0, 0, IntegerWeight::new(1), s2)).unwrap();
    fst_in.set_start(s1).unwrap();
    fst_in.set_final(s2, IntegerWeight::one()).unwrap();

    let mut fst_out: VectorFst<IntegerWeight> = VectorFst::new();
    let s1 = fst_out.add_state();
    let s2 = fst_out.add_state();
    fst_out.add_tr(s1, Tr::new(0, 0, IntegerWeight::new(7), s2)).unwrap();
    fst_out.add_tr(s1, Tr::new(0, 1, IntegerWeight::new(3), s2)).unwrap();
    fst_out.add_tr(s1, Tr::new(1, 0, IntegerWeight::new(3), s2)).unwrap();
    fst_out.set_start(s1).unwrap();
    fst_out.set_final(s2, IntegerWeight::one()).unwrap();

    tr_unique(&mut fst_in).unwrap();

    assert_eq!(fst_in, fst_out);
}

// The projection scenario: a transducer mapping [1,2,3] to [4,5,6] projected
// onto its input side becomes the acceptor over [1,2,3].
#[test]
fn test_projection_input() {
    let a = vec![1usize, 2, 3];
    let b = vec![4usize, 5, 6];

    let mut fst: VectorFst<IntegerWeight> = VectorFst::new();
    let mut prev = fst.add_state();
    fst.set_start(prev).unwrap();
    for k in 0..a.len() {
        let next = fst.add_state();
        fst.add_arc(prev, next, a[k], b[k], IntegerWeight::one()).unwrap();
        prev = next;
    }
    fst.set_final(prev, IntegerWeight::one()).unwrap();

    project(&mut fst, true);

    let mut ref_fst: VectorFst<IntegerWeight> = VectorFst::new();
    let mut prev = ref_fst.add_state();
    ref_fst.set_start(prev).unwrap();
    for k in 0..a.len() {
        let next = ref_fst.add_state();
        ref_fst.add_arc(prev, next, a[k], a[k], IntegerWeight::one()).unwrap();
        prev = next;
    }
    ref_fst.set_final(prev, IntegerWeight::one()).unwrap();

    assert_eq!(fst, ref_fst);
}

// The trimming scenario: one transition (s0 -> s1 on 2:3), s1 final, s0
// start; a dangling state is added and removed again by connect.
#[test]
fn test_connect_removes_dangling_state() {
    let mut fst: VectorFst<IntegerWeight> = VectorFst::new();
    let s0 = fst.add_state();
    let s1 = fst.add_state();
    fst.set_start(s0).unwrap();
    fst.add_tr(s0, Tr::new(2, 3, IntegerWeight::one(), s1)).unwrap();
    fst.set_final(s1, IntegerWeight::one()).unwrap();

    let reference = fst.clone();
    let mut no_connected = fst;
    no_connected.add_state();
    connect(&mut no_connected).unwrap();

    assert_eq!(no_connected, reference);
}

#[test]
fn test_tropical_semiring_ops() {
    let a = TropicalWeight::new(3);
    let b = TropicalWeight::new(5);
    let mut p = a;
    p.plus_assign(&b).unwrap();
    assert_eq!(p, TropicalWeight::new(3));
    let mut t = a;
    t.times_assign(&b).unwrap();
    assert_eq!(t, TropicalWeight::new(8));
    let mut z = a;
    z.plus_assign(&TropicalWeight::zero()).unwrap();
    assert_eq!(z, a);
    let mut o = a;
    o.times_assign(&TropicalWeight::one()).unwrap();
    assert_eq!(o, a);
    let mut az = a;
    az.times_assign(&TropicalWeight::zero()).unwrap();
    assert_eq!(az, TropicalWeight::zero());
    assert!(TropicalWeight::properties().path);
    assert!(TropicalWeight::properties().idempotent);
}

#[test]
fn test_integer_semiring_ops_and_overflow() {
    let a = IntegerWeight::new(6);
    let b = IntegerWeight::new(7);
    let mut p = a;
    p.plus_assign(&b).unwrap();
    assert_eq!(p, IntegerWeight::new(13));
    let mut t = a;
    t.times_assign(&b).unwrap();
    assert_eq!(t, IntegerWeight::new(42));
    let mut big = IntegerWeight::new(u64::MAX);
    let r = big.plus_assign(&IntegerWeight::new(1));
    assert_eq!(r, Err(FstError::IncompatibleWeights));
    assert_eq!(big, IntegerWeight::new(u64::MAX));
}

#[test]
fn test_boolean_semiring_path() {
    let t = BooleanWeight::new(true);
    let f = BooleanWeight::new(false);
    let mut p = t;
    p.plus_assign(&f).unwrap();
    assert_eq!(p, t);
    let mut q = f;
    q.times_assign(&t).unwrap();
    assert_eq!(q, f);
    assert!(BooleanWeight::properties().path);
}

#[test]
fn test_quantize_idempotent() {
    let w = TropicalWeight::new(12345);
    assert_eq!(w.quantize().quantize(), w.quantize());
    let v = IntegerWeight::new(9);
    assert_eq!(v.quantize().quantize(), v.quantize());
}

#[test]
fn test_tr_sort_orders_by_label() {
    let mut fst: VectorFst<IntegerWeight> = VectorFst::new();
    let s0 = fst.add_state();
    let s1 = fst.add_state();
    fst.set_start(s0).unwrap();
    fst.add_tr(s0, Tr::new(9, 1, IntegerWeight::one(), s1)).unwrap();
    fst.add_tr(s0, Tr::new(2, 2, IntegerWeight::one(), s1)).unwrap();
    fst.add_tr(s0, Tr::new(5, 3, IntegerWeight::one(), s1)).unwrap();
    tr_sort(&mut fst, true);
    let trs = fst.get_trs(s0).unwrap();
    assert_eq!(trs.len(), 3);
    assert!(trs[0].ilabel <= trs[1].ilabel && trs[1].ilabel <= trs[2].ilabel);
    assert_eq!(trs[0].ilabel, 2);
    assert_eq!(trs[1].ilabel, 5);
    assert_eq!(trs[2].ilabel, 9);
}

#[test]
fn test_tr_compare_orders_lexicographically() {
    let a: Tr<IntegerWeight> = Tr::new(1, 5, IntegerWeight::one(), 0);
    let b: Tr<IntegerWeight> = Tr::new(1, 7, IntegerWeight::one(), 0);
    assert_eq!(tr_compare(&a, &b), Ordering::Less);
    assert_eq!(tr_compare(&b, &a), Ordering::Greater);
    assert_eq!(tr_compare(&a, &a), Ordering::Equal);
}

#[test]
fn test_invert_twice_restores() {
    let mut fst: VectorFst<IntegerWeight> = VectorFst::new();
    let s0 = fst.add_state();
    let s1 = fst.add_state();
    fst.set_start(s0).unwrap();
    fst.add_tr(s0, Tr::new(4, 9, IntegerWeight::new(2), s1)).unwrap();
    fst.set_final(s1, IntegerWeight::one()).unwrap();
    let reference = fst.clone();
    invert(&mut fst);
    let trs = fst.get_trs(s0).unwrap();
    assert_eq!(trs[0].ilabel, 9);
    assert_eq!(trs[0].olabel, 4);
    invert(&mut fst);
    assert_eq!(fst, reference);
}

// A chain with epsilon-input transitions: from s0, label 7 is reachable via
// the epsilon path s0 -> s1, and a final state is reachable from s2 only.
#[test]
fn test_label_reachability_queries() {
    let mut fst: VectorFst<IntegerWeight> = VectorFst::new();
    let s0 = fst.add_state();
    let s1 = fst.add_state();
    let s2 = fst.add_state();
    fst.set_start(s0).unwrap();
    fst.add_tr(s0, Tr::new(EPS_LABEL, 1, IntegerWeight::one(), s1)).unwrap();
    fst.add_tr(s1, Tr::new(7, 7, IntegerWeight::one(), s2)).unwrap();
    fst.set_final(s2, IntegerWeight::one()).unwrap();

    let data = LabelReachable::compute_data(&fst, true).unwrap();
    let idx7 = *data.label2index().get(&7).unwrap();
    let reachable = LabelReachable::new_from_data(Arc::new(data));

    // Label 7 is reachable from s0 (via the epsilon) and from s1 (directly),
    // but not from s2.
    assert!(reachable.reach_label(s0, idx7).unwrap());
    assert!(reachable.reach_label(s1, idx7).unwrap());
    assert!(!reachable.reach_label(s2, idx7).unwrap());
    // Epsilon is never reachable by this query.
    assert!(!reachable.reach_label(s0, EPS_LABEL).unwrap());
    // The final state is reachable from s2 (it is final) but not from s0,
    // whose path to finality crosses a labelled transition.
    assert!(reachable.reach_final(s2).unwrap());
    assert!(!reachable.reach_final(s0).unwrap());
}

// The two reach strategies agree on the same sorted range: the contract pins
// the (begin, end, weight) triple, so a wide range (linear would not be
// picked) and a narrow one give consistent answers.
#[test]
fn test_reach_strategies_agree() {
    let mut fst: VectorFst<IntegerWeight> = VectorFst::new();
    let s0 = fst.add_state();
    let s1 = fst.add_state();
    fst.set_start(s0).unwrap();
    fst.add_tr(s0, Tr::new(3, 3, IntegerWeight::one(), s1)).unwrap();
    fst.set_final(s1, IntegerWeight::one()).unwrap();

    let data = LabelReachable::compute_data(&fst, true).unwrap();
    let idx3 = *data.label2index().get(&3).unwrap();
    let mut reachable = LabelReachable::new_from_data(Arc::new(data));
    reachable.reach_init(&fst, true).unwrap();

    // A query transducer whose state s0 has transitions labelled with the
    // dense indices; only idx3 is reachable from s0 of the analysed fst.
    let mut q: VectorFst<IntegerWeight> = VectorFst::new();
    let q0 = q.add_state();
    let q1 = q.add_state();
    q.set_start(q0).unwrap();
    q.add_tr(q0, Tr::new(idx3, idx3, IntegerWeight::new(5), q1)).unwrap();
    q.add_tr(q0, Tr::new(idx3 + 1, idx3 + 1, IntegerWeight::new(9), q1)).unwrap();
    let trs = q.get_trs(q0).unwrap().clone();

    let r = reachable.reach(s0, &trs, 0, 2, true).unwrap();
    assert_eq!(r, Some((0, 1, IntegerWeight::new(5))));
    let r2 = reachable.reach(s0, &trs, 0, 2, false).unwrap();
    assert_eq!(r2, Some((0, 1, IntegerWeight::new(0))));
}

#[test]
fn test_relabel_assigns_fresh_indices() {
    let mut data = LabelReachableData::new(true);
    let a = data.relabel(42);
    let b = data.relabel(99);
    let a2 = data.relabel(42);
    assert_eq!(a, 1);
    assert_eq!(b, 2);
    assert_eq!(a2, 1);
    assert_eq!(data.relabel(EPS_LABEL), EPS_LABEL);
    let pairs = data.relabel_pairs(false);
    assert_eq!(pairs, vec![(42, 1), (99, 2)]);
    let pairs2 = data.relabel_pairs(true);
    // With collision avoidance, the unseen labels 1 and 2 are pushed to the
    // shared fresh index 3.
    assert_eq!(pairs2, vec![(42, 1), (99, 2), (1, 3), (2, 3)]);
}

#[test]
fn test_sorted_matcher_finds_label_range() {
    let mut fst: VectorFst<IntegerWeight> = VectorFst::new();
    let s0 = fst.add_state();
    let s1 = fst.add_state();
    fst.set_start(s0).unwrap();
    fst.add_tr(s0, Tr::new(2, 2, IntegerWeight::one(), s1)).unwrap();
    fst.add_tr(s0, Tr::new(4, 4, IntegerWeight::new(2), s1)).unwrap();
    fst.add_tr(s0, Tr::new(4, 5, IntegerWeight::new(3), s1)).unwrap();
    fst.add_tr(s0, Tr::new(6, 6, IntegerWeight::one(), s1)).unwrap();
    let matcher = SortedMatcher::new(Arc::new(fst), MatchType::MatchInput);
    assert_eq!(matcher.match_range(s0, 4).unwrap(), (1, 3));
    assert_eq!(matcher.match_range(s0, 5).unwrap(), (3, 3));
    assert_eq!(matcher.match_range(s0, NO_LABEL).unwrap(), (0, 4));
}

// One epsilon-output in the first transducer against one epsilon-input in the
// second: of the two interleaved epsilon paths, the filter admits moving the
// first transducer (to state 1 or staying at 0), and kills the second move
// out of the wrong state, so only one interleaving survives.
#[test]
fn test_match_compose_filter_epsilon_interleavings() {
    let mut a: VectorFst<IntegerWeight> = VectorFst::new();
    let a0 = a.add_state();
    let a1 = a.add_state();
    a.set_start(a0).unwrap();
    a.add_tr(a0, Tr::new(1, EPS_LABEL, IntegerWeight::one(), a1)).unwrap();
    a.set_final(a1, IntegerWeight::one()).unwrap();

    let mut b: VectorFst<IntegerWeight> = VectorFst::new();
    let b0 = b.add_state();
    let b1 = b.add_state();
    b.set_start(b0).unwrap();
    b.add_tr(b0, Tr::new(EPS_LABEL, 2, IntegerWeight::one(), b1)).unwrap();
    b.add_tr(b0, Tr::new(5, 5, IntegerWeight::one(), b1)).unwrap();
    b.set_final(b1, IntegerWeight::one()).unwrap();

    let builder =
        MatchComposeFilterBuilder::new(Arc::new(a), Arc::new(b), None, None).unwrap();
    let mut filter: MatchComposeFilter<IntegerWeight> = builder.build().unwrap();
    let start = filter.start();
    assert_eq!(start.state(), 0);
    filter.set_state(a0, b0, &start).unwrap();

    // The first transducer moves on its output epsilon while the second
    // stays: the candidate pair is (the real transition, the virtual stay
    // loop labelled NO_LABEL). From filter state 0 this is admitted into
    // filter state 1 (the second state has an epsilon, so it is not 0).
    let mut tr1: Tr<IntegerWeight> = Tr::new(1, EPS_LABEL, IntegerWeight::one(), a1);
    let mut stay2: Tr<IntegerWeight> = Tr::new(NO_LABEL, NO_LABEL, IntegerWeight::one(), b0);
    let fs1 = filter.filter_tr(&mut tr1, &mut stay2).unwrap();
    assert_eq!(fs1.state(), 1);

    // From filter state 1, the second transducer may not take its epsilon
    // while the first stays: that interleaving is pruned.
    filter.set_state(a1, b0, &fs1).unwrap();
    let mut stay1: Tr<IntegerWeight> = Tr::new(NO_LABEL, NO_LABEL, IntegerWeight::one(), a1);
    let mut tr2: Tr<IntegerWeight> = Tr::new(EPS_LABEL, 2, IntegerWeight::one(), b1);
    let dead = filter.filter_tr(&mut stay1, &mut tr2).unwrap();
    assert_eq!(dead.state(), usize::MAX);

    // From filter state 1 the first transducer may keep moving on epsilons.
    let again = filter.filter_tr(&mut tr1, &mut stay2).unwrap();
    assert_eq!(again.state(), 1);
}

#[test]
fn test_matcher_fst_packages_reachability() {
    let mut fst: VectorFst<IntegerWeight> = VectorFst::new();
    let s0 = fst.add_state();
    let s1 = fst.add_state();
    fst.set_start(s0).unwrap();
    fst.add_tr(s0, Tr::new(5, 5, IntegerWeight::one(), s1)).unwrap();
    fst.set_final(s1, IntegerWeight::one()).unwrap();
    let mfst = MatcherFst::new(fst).unwrap();
    assert!(mfst.data(MatchType::MatchInput).is_some());
    assert!(mfst.data(MatchType::MatchOutput).is_some());
    assert_eq!(mfst.fst().num_states(), 2);
    // The packaged transducer is relabeled into the dense index space: its
    // single input label became the first index.
    assert_eq!(mfst.fst().get_trs(s0).unwrap()[0].ilabel, 1);
}

#[test]
fn test_del_states_renumbers() {
    let mut fst: VectorFst<IntegerWeight> = VectorFst::new();
    let s0 = fst.add_state();
    let s1 = fst.add_state();
    let s2 = fst.add_state();
    fst.set_start(s0).unwrap();
    fst.add_tr(s0, Tr::new(1, 1, IntegerWeight::one(), s2)).unwrap();
    fst.add_tr(s0, Tr::new(2, 2, IntegerWeight::one(), s1)).unwrap();
    fst.set_final(s2, IntegerWeight::one()).unwrap();
    fst.del_state(s1);
    assert_eq!(fst.num_states(), 2);
    let trs = fst.get_trs(s0).unwrap();
    // The transition into the deleted state is dropped; the survivor is
    // renumbered from 2 to 1.
    assert_eq!(trs.len(), 1);
    assert_eq!(trs[0].ilabel, 1);
    assert_eq!(trs[0].nextstate, 1);
    assert!(fst.is_final(1));
    let r = fst.del_states(vec![7]);
    assert_eq!(r, Err(FstError::StateOutOfRange(7)));
}

#[test]
fn test_set_state_epsilon_summary() {
    let mut a: VectorFst<IntegerWeight> = VectorFst::new();
    let a0 = a.add_state();
    let a1 = a.add_state();
    a.set_start(a0).unwrap();
    a.add_tr(a0, Tr::new(1, EPS_LABEL, IntegerWeight::one(), a1)).unwrap();
    a.set_final(a1, IntegerWeight::one()).unwrap();
    let mut b: VectorFst<IntegerWeight> = VectorFst::new();
    let b0 = b.add_state();
    let b1 = b.add_state();
    b.set_start(b0).unwrap();
    b.add_tr(b0, Tr::new(3, 3, IntegerWeight::one(), b1)).unwrap();
    b.set_final(b1, IntegerWeight::one()).unwrap();
    let builder =
        MatchComposeFilterBuilder::new(Arc::new(a), Arc::new(b), None, None).unwrap();
    let mut filter: MatchComposeFilter<IntegerWeight> = builder.build().unwrap();
    let start = filter.start();
    filter.set_state(a0, b0, &start).unwrap();
    // State a0 has exactly one transition, an output epsilon, and is not
    // final: all epsilons, not epsilon-free. State b0 has no input epsilon.
    assert!(filter.alleps1);
    assert!(!filter.noeps1);
    assert!(!filter.alleps2);
    assert!(filter.noeps2);
    let err = filter.set_state(9, b0, &start);
    assert_eq!(err, Err(FstError::StateOutOfRange(9)));
}

#[test]
fn test_encode_decode_labels_roundtrip() {
    let mut fst: VectorFst<IntegerWeight> = VectorFst::new();
    let s0 = fst.add_state();
    let s1 = fst.add_state();
    let s2 = fst.add_state();
    fst.set_start(s0).unwrap();
    fst.add_tr(s0, Tr::new(1, 4, IntegerWeight::new(3), s1)).unwrap();
    fst.add_tr(s1, Tr::new(2, 5, IntegerWeight::new(5), s2)).unwrap();
    fst.add_tr(s1, Tr::new(1, 4, IntegerWeight::new(10), s2)).unwrap();
    fst.set_final(s2, IntegerWeight::one()).unwrap();
    let reference = fst.clone();

    let table = encode(&mut fst, true, false).unwrap();
    // Both (1, 4) transitions share one synthetic label; every transition is
    // now an acceptor transition over the synthetic labels.
    let t0 = fst.get_trs(s0).unwrap()[0];
    let t2 = fst.get_trs(s1).unwrap()[1];
    assert_eq!(t0.ilabel, t0.olabel);
    assert_eq!(t0.ilabel, t2.ilabel);

    decode(&mut fst, &table).unwrap();
    assert_eq!(fst, reference);
}

// The encode/decode round trip with weights in the key: on an acyclic
// transducer with weights {3, 5, 1} and a weighted final (7), encoding folds
// every weight into the synthetic labels — the transition weights become one
// and the weighted finality is routed through a fresh super-final state —
// and decoding restores labels, weights and finality exactly.
#[test]
fn test_encode_decode_weights_roundtrip() {
    let mut fst: VectorFst<IntegerWeight> = VectorFst::new();
    let s0 = fst.add_state();
    let s1 = fst.add_state();
    let s2 = fst.add_state();
    fst.set_start(s0).unwrap();
    fst.add_tr(s0, Tr::new(1, 4, IntegerWeight::new(3), s1)).unwrap();
    fst.add_tr(s1, Tr::new(2, 5, IntegerWeight::new(5), s2)).unwrap();
    fst.add_tr(s1, Tr::new(3, 6, IntegerWeight::new(1), s2)).unwrap();
    fst.set_final(s2, IntegerWeight::new(7)).unwrap();
    let reference = fst.clone();

    let table = encode(&mut fst, true, true).unwrap();
    // A super-final state was added; the weighted final became a transition
    // to it; every transition weight is now one and every transition is an
    // acceptor transition over the synthetic labels.
    assert_eq!(fst.num_states(), 4);
    assert!(fst.is_final(3));
    assert!(!fst.is_final(s2));
    assert_eq!(fst.get_trs(s2).unwrap().len(), 1);
    assert_eq!(fst.get_trs(s2).unwrap()[0].nextstate, 3);
    for s in 0..fst.num_states() {
        for tr in fst.get_trs(s).unwrap() {
            assert_eq!(tr.weight, IntegerWeight::one());
            assert_eq!(tr.ilabel, tr.olabel);
        }
    }
    decode(&mut fst, &table).unwrap();
    assert_eq!(fst, reference);
}

#[test]
fn test_decode_rejects_unknown_label() {
    let mut fst: VectorFst<IntegerWeight> = VectorFst::new();
    let s0 = fst.add_state();
    let s1 = fst.add_state();
    fst.set_start(s0).unwrap();
    fst.add_tr(s0, Tr::new(9, 9, IntegerWeight::one(), s1)).unwrap();
    let table: EncodeTable<IntegerWeight> = EncodeTable::new(true, false);
    let reference = fst.clone();
    assert!(decode(&mut fst, &table).is_err());
    assert_eq!(fst, reference);
}

#[test]
fn test_input_epsilon_mapper() {
    let mut mapper = InputEpsilonMapper {};
    let mut tr: Tr<IntegerWeight> = Tr::new(7, 9, IntegerWeight::new(2), 3);
    mapper.arc_map(&mut tr);
    assert_eq!(tr.ilabel, EPS_LABEL);
    assert_eq!(tr.olabel, 9);
    assert_eq!(tr.nextstate, 3);
    let mut w = IntegerWeight::new(4);
    mapper.final_weight_map(&mut w);
    assert_eq!(w, IntegerWeight::new(4));
}

#[test]
fn test_tropical_distributivity_example() {
    // (a (+) b) (*) c = a(*)c (+) b(*)c on concrete tropical values:
    // min(3, 5) + 2 = min(3 + 2, 5 + 2).
    let a = TropicalWeight::new(3);
    let b = TropicalWeight::new(5);
    let c = TropicalWeight::new(2);
    let mut lhs = a;
    lhs.plus_assign(&b).unwrap();
    lhs.times_assign(&c).unwrap();
    let mut ac = a;
    ac.times_assign(&c).unwrap();
    let mut bc = b;
    bc.times_assign(&c).unwrap();
    let mut rhs = ac;
    rhs.plus_assign(&bc).unwrap();
    assert_eq!(lhs, rhs);
    assert_eq!(lhs, TropicalWeight::new(5));
}

#[test]
fn test_integer_associativity_example() {
    // a (*) (b (*) c) = (a (*) b) (*) c on concrete integer values.
    let a = IntegerWeight::new(2);
    let b = IntegerWeight::new(3);
    let c = IntegerWeight::new(4);
    let mut bc = b;
    bc.times_assign(&c).unwrap();
    let mut lhs = a;
    lhs.times_assign(&bc).unwrap();
    let mut ab = a;
    ab.times_assign(&b).unwrap();
    let mut rhs = ab;
    rhs.times_assign(&c).unwrap();
    assert_eq!(lhs, rhs);
    assert_eq!(lhs, IntegerWeight::new(24));
}

#[test]
fn test_factor_weight_identity() {
    let mut fst: VectorFst<IntegerWeight> = VectorFst::new();
    let s0 = fst.add_state();
    let s1 = fst.add_state();
    fst.set_start(s0).unwrap();
    fst.add_tr(s0, Tr::new(1, 2, IntegerWeight::new(4), s1)).unwrap();
    fst.set_final(s1, IntegerWeight::new(9)).unwrap();
    let holder = FactorWeightFst::new(fst.clone(), IdentityFactor {});
    // Under the identity factoring every weight is already final-form, so
    // the computed transducer equals the input.
    let out = holder.compute().unwrap();
    assert_eq!(out, fst);
}

#[test]
fn test_decode_weights_rejects_unrouted_shape() {
    // A weight-encoding table demands the routed shape the encoding leaves
    // behind; a transducer without the super-final structure is rejected
    // unchanged.
    let mut fst: VectorFst<IntegerWeight> = VectorFst::new();
    let s0 = fst.add_state();
    let s1 = fst.add_state();
    fst.set_start(s0).unwrap();
    fst.add_tr(s0, Tr::new(1, 1, IntegerWeight::one(), s1)).unwrap();
    fst.set_final(s1, IntegerWeight::new(5)).unwrap();
    let mut table: EncodeTable<IntegerWeight> = EncodeTable::new(true, true);
    table.encode_key((1, 1, IntegerWeight::one()));
    let reference = fst.clone();
    assert!(decode(&mut fst, &table).is_err());
    assert_eq!(fst, reference);
}

#[test]
fn test_rm_epsilon_scales_and_absorbs() {
    let mut fst: VectorFst<IntegerWeight> = VectorFst::new();
    let s0 = fst.add_state();
    let s1 = fst.add_state();
    let s2 = fst.add_state();
    fst.set_start(s0).unwrap();
    fst.add_tr(s0, Tr::new(EPS_LABEL, EPS_LABEL, IntegerWeight::new(2), s1)).unwrap();
    fst.add_tr(s0, Tr::new(1, 1, IntegerWeight::new(3), s2)).unwrap();
    fst.add_tr(s1, Tr::new(2, 2, IntegerWeight::new(5), s2)).unwrap();
    fst.set_final(s1, IntegerWeight::new(7)).unwrap();
    fst.set_final(s2, IntegerWeight::new(11)).unwrap();
    let out = rm_epsilon(&fst).unwrap();
    assert_eq!(out.num_states(), 3);
    // s0 keeps its direct non-epsilon transition and gains s1's, scaled by
    // the closure weight 2; the epsilon transition itself is gone.
    let t0 = out.get_trs(s0).unwrap();
    assert_eq!(t0.len(), 2);
    assert_eq!((t0[0].ilabel, t0[0].olabel, t0[0].weight, t0[0].nextstate), (1, 1, IntegerWeight::new(3), s2));
    assert_eq!((t0[1].ilabel, t0[1].olabel, t0[1].weight, t0[1].nextstate), (2, 2, IntegerWeight::new(10), s2));
    // s0 absorbs s1's final weight through the closure: 2 * 7.
    assert_eq!(out.final_weight(s0).unwrap(), Some(IntegerWeight::new(14)));
    let t1 = out.get_trs(s1).unwrap();
    assert_eq!(t1.len(), 1);
    assert_eq!((t1[0].ilabel, t1[0].weight), (2, IntegerWeight::new(5)));
    assert_eq!(out.final_weight(s1).unwrap(), Some(IntegerWeight::new(7)));
    assert_eq!(out.get_trs(s2).unwrap().len(), 0);
    assert_eq!(out.final_weight(s2).unwrap(), Some(IntegerWeight::new(11)));
}

#[test]
fn test_rm_epsilon_rejects_epsilon_cycle() {
    let mut fst: VectorFst<IntegerWeight> = VectorFst::new();
    let s0 = fst.add_state();
    let s1 = fst.add_state();
    fst.set_start(s0).unwrap();
    fst.add_tr(s0, Tr::new(EPS_LABEL, EPS_LABEL, IntegerWeight::new(1), s1)).unwrap();
    fst.add_tr(s1, Tr::new(EPS_LABEL, EPS_LABEL, IntegerWeight::new(1), s0)).unwrap();
    fst.set_final(s1, IntegerWeight::new(3)).unwrap();
    assert_eq!(rm_epsilon(&fst), Err(FstError::CycleInAcyclicAlgorithm));
}
