#![allow(dead_code)]

use sicada::arc::Arc;
use sicada::arcsort::{ILabelCompare, OLabelCompare, arc_sort};
use sicada::inspect::acceptor;
use sicada::properties::{K_ACCEPTOR, K_ACCESSIBLE, K_ACYCLIC, K_CO_ACCESSIBLE, K_CYCLIC, K_EPSILONS, K_FST_PROPERTIES, K_INITIAL_ACYCLIC, K_INITIAL_CYCLIC, K_I_DETERMINISTIC, K_I_EPSILONS, K_I_LABEL_SORTED, K_NON_I_DETERMINISTIC, K_NON_O_DETERMINISTIC, K_NOT_ACCEPTOR, K_NOT_ACCESSIBLE, K_NOT_CO_ACCESSIBLE, K_NOT_I_LABEL_SORTED, K_NOT_O_LABEL_SORTED, K_NOT_STRING, K_NOT_TOP_SORTED, K_NO_EPSILONS, K_NO_I_EPSILONS, K_NO_O_EPSILONS, K_O_DETERMINISTIC, K_O_EPSILONS, K_O_LABEL_SORTED, K_STRING, K_TOP_SORTED, K_UNWEIGHTED, K_UNWEIGHTED_CYCLES, K_WEIGHTED, K_WEIGHTED_CYCLES};
use sicada::vector_fst::VectorFst;
use sicada::weight::{COMMUTATIVE, IDEMPOTENT, LEFT_SEMIRING, PATH, RIGHT_SEMIRING, Weight};

/// The tropical semiring: the least weight wins, and weights along a path add up.
#[derive(Clone, Copy, Debug, PartialEq, PartialOrd)]
struct TropicalWeight(f32);

impl TropicalWeight {
    fn new(value: f32) -> Self {
        TropicalWeight(value)
    }

    fn value(&self) -> f32 {
        self.0
    }
}

impl Weight for TropicalWeight {
    type Delta = f32;

    fn spec_zero() -> Self {
        unreachable!()
    }

    fn spec_one() -> Self {
        unreachable!()
    }

    fn spec_no_weight() -> Self {
        unreachable!()
    }

    fn spec_plus(self, _other: Self) -> Self {
        unreachable!()
    }

    fn spec_times(self, _other: Self) -> Self {
        unreachable!()
    }

    fn spec_member(self) -> bool {
        unreachable!()
    }

    fn spec_approx(self, _other: Self, _delta: f32) -> bool {
        unreachable!()
    }

    fn spec_quantize(self, _delta: f32) -> Self {
        unreachable!()
    }

    fn spec_hash_word(self) -> u64 {
        unreachable!()
    }

    fn spec_properties() -> u64 {
        unreachable!()
    }

    fn spec_default_delta() -> f32 {
        unreachable!()
    }

    fn zero() -> Self {
        TropicalWeight(f32::INFINITY)
    }

    fn one() -> Self {
        TropicalWeight(0.0)
    }

    fn no_weight() -> Self {
        TropicalWeight(f32::NAN)
    }

    fn plus(&self, other: &Self) -> Self {
        if !self.is_member() || !other.is_member() {
            return Self::no_weight();
        }
        TropicalWeight(self.0.min(other.0))
    }

    fn times(&self, other: &Self) -> Self {
        if !self.is_member() || !other.is_member() {
            return Self::no_weight();
        }
        TropicalWeight(self.0 + other.0)
    }

    fn duplicate(&self) -> Self {
        *self
    }

    fn same(&self, other: &Self) -> bool {
        self.0 == other.0
    }

    fn is_member(&self) -> bool {
        !self.0.is_nan() && self.0 != f32::NEG_INFINITY
    }

    fn approx_equal(&self, other: &Self, delta: &f32) -> bool {
        self.0 <= other.0 + delta && other.0 <= self.0 + delta
    }

    fn quantize(&self, delta: &f32) -> Self {
        if self.0.is_finite() {
            TropicalWeight((self.0 / delta + 0.5).floor() * delta)
        } else {
            *self
        }
    }

    fn hash_word(&self) -> u64 {
        self.0.to_bits() as u64
    }

    fn properties() -> u64 {
        LEFT_SEMIRING | RIGHT_SEMIRING | COMMUTATIVE | IDEMPOTENT | PATH
    }

    fn default_delta() -> f32 {
        1.0 / 1024.0
    }
}

/// An arc whose weight is tropical.
#[derive(Clone, Copy, Debug, PartialEq)]
struct StdArc {
    ilabel: i32,
    olabel: i32,
    weight: TropicalWeight,
    nextstate: i32,
}

impl StdArc {
    fn new(ilabel: i32, olabel: i32, weight: TropicalWeight, nextstate: i32) -> Self {
        StdArc { ilabel, olabel, weight, nextstate }
    }

    fn of(arc: &Arc<TropicalWeight>) -> Self {
        StdArc::new(arc.ilabel, arc.olabel, arc.weight, arc.nextstate as i32)
    }

    fn raw(&self) -> Arc<TropicalWeight> {
        Arc::new(self.ilabel, self.olabel, self.weight, self.nextstate as usize)
    }

    fn ilabel(&self) -> i32 {
        self.ilabel
    }

    fn olabel(&self) -> i32 {
        self.olabel
    }

    fn weight(&self) -> TropicalWeight {
        self.weight
    }

    fn nextstate(&self) -> i32 {
        self.nextstate
    }
}

/// A machine over tropical weights, with states counted by `i32`.
struct StdVectorFst(VectorFst<TropicalWeight>);

impl std::ops::Deref for StdVectorFst {
    type Target = VectorFst<TropicalWeight>;

    fn deref(&self) -> &VectorFst<TropicalWeight> {
        &self.0
    }
}

impl std::ops::DerefMut for StdVectorFst {
    fn deref_mut(&mut self) -> &mut VectorFst<TropicalWeight> {
        &mut self.0
    }
}

impl Clone for StdVectorFst {
    fn clone(&self) -> Self {
        StdVectorFst(self.0.duplicate())
    }
}

impl StdVectorFst {
    fn new() -> Self {
        StdVectorFst(VectorFst::new())
    }

    fn add_state(&mut self) -> i32 {
        self.0.add_state() as i32
    }

    fn set_start(&mut self, s: i32) {
        self.0.set_start(s as usize);
    }

    fn start(&self) -> Option<i32> {
        self.0.start().map(|s| s as i32)
    }

    fn set_final(&mut self, s: i32, weight: TropicalWeight) {
        self.0.set_final(s as usize, weight);
    }

    fn final_weight(&self, s: i32) -> TropicalWeight {
        self.0.final_weight(s as usize)
    }

    fn add_arc(&mut self, s: i32, arc: StdArc) {
        self.0.add_arc(s as usize, arc.raw());
    }

    fn states(&self) -> std::ops::Range<i32> {
        0..self.0.num_states() as i32
    }

    fn arcs(&self, s: i32) -> std::vec::IntoIter<StdArc> {
        let arcs: Vec<StdArc> = self.0.arcs(s as usize).iter().map(StdArc::of).collect();
        arcs.into_iter()
    }

    fn num_arcs(&self, s: i32) -> usize {
        self.0.num_arcs(s as usize)
    }

    fn delete_arcs(&mut self, s: i32) {
        self.0.delete_arcs(s as usize);
    }

    fn mutate_arcs(&mut self, s: i32, change: impl Fn(&mut StdArc)) {
        let mut arcs: Vec<StdArc> = self.arcs(s).collect();
        for arc in &mut arcs {
            change(arc);
        }
        self.0.set_arcs(s as usize, arcs.iter().map(StdArc::raw).collect());
    }

    /// What holds of the machine, read off its states and arcs where `test` says so.
    fn properties(&self, mask: u64, test: bool) -> u64 {
        if test {
            compute_properties(&self.0) & mask
        } else {
            self.0.known_properties(mask)
        }
    }

    /// Reads off the machine what holds of it, and keeps that with it.
    fn learn_properties(&mut self) {
        let props = compute_properties(&self.0);
        self.0.set_properties(props, K_FST_PROPERTIES);
    }
}

/// Every property of a machine that can be read off its states and arcs.
fn compute_properties<W: Weight>(fst: &VectorFst<W>) -> u64 {
    let n = fst.num_states();
    let one = W::one();
    let zero = W::zero();
    let mut props = 0u64;
    let mut reach = vec![vec![false; n]; n];
    for s in 0..n {
        for arc in fst.arcs(s) {
            reach[s][arc.nextstate] = true;
        }
    }
    for k in 0..n {
        for i in 0..n {
            if reach[i][k] {
                for j in 0..n {
                    if reach[k][j] {
                        reach[i][j] = true;
                    }
                }
            }
        }
    }
    let start = fst.start();
    let arcs: Vec<(usize, &Arc<W>)> =
        (0..n).flat_map(|s| fst.arcs(s).iter().map(move |arc| (s, arc))).collect();
    let repeats = |label: fn(&Arc<W>) -> i32| {
        (0..n).any(|s| {
            let mut labels: Vec<i32> = fst.arcs(s).iter().map(label).collect();
            labels.sort();
            labels.windows(2).any(|pair| pair[0] == pair[1])
        })
    };
    let falls = |label: fn(&Arc<W>) -> i32| {
        (0..n).any(|s| fst.arcs(s).windows(2).any(|pair| label(&pair[0]) > label(&pair[1])))
    };
    let mut set = |holds: bool, yes: u64, no: u64| {
        props |= if holds { yes } else { no };
    };
    set(arcs.iter().all(|(_, a)| a.ilabel == a.olabel), K_ACCEPTOR, K_NOT_ACCEPTOR);
    set(!repeats(|a| a.ilabel), K_I_DETERMINISTIC, K_NON_I_DETERMINISTIC);
    set(!repeats(|a| a.olabel), K_O_DETERMINISTIC, K_NON_O_DETERMINISTIC);
    set(arcs.iter().any(|(_, a)| a.ilabel == 0 && a.olabel == 0), K_EPSILONS, K_NO_EPSILONS);
    set(arcs.iter().any(|(_, a)| a.ilabel == 0), K_I_EPSILONS, K_NO_I_EPSILONS);
    set(arcs.iter().any(|(_, a)| a.olabel == 0), K_O_EPSILONS, K_NO_O_EPSILONS);
    set(!falls(|a| a.ilabel), K_I_LABEL_SORTED, K_NOT_I_LABEL_SORTED);
    set(!falls(|a| a.olabel), K_O_LABEL_SORTED, K_NOT_O_LABEL_SORTED);
    let weighted = arcs.iter().any(|(_, a)| !a.weight.same(&one) && !a.weight.same(&zero))
        || (0..n).any(|s| {
            let w = fst.final_weight(s);
            !w.same(&one) && !w.same(&zero)
        });
    set(weighted, K_WEIGHTED, K_UNWEIGHTED);
    let has_cycle = (0..n).any(|s| reach[s][s]);
    set(has_cycle, K_CYCLIC, K_ACYCLIC);
    let initial_cycle = start.is_some_and(|s| reach[s][s]);
    set(initial_cycle, K_INITIAL_CYCLIC, K_INITIAL_ACYCLIC);
    set(arcs.iter().all(|(s, a)| a.nextstate > *s), K_TOP_SORTED, K_NOT_TOP_SORTED);
    let seen = |s: usize| start.is_some_and(|i| i == s || reach[i][s]);
    let ends = |s: usize| (0..n).any(|t| fst.is_final(t) && (s == t || reach[s][t]));
    set((0..n).all(seen), K_ACCESSIBLE, K_NOT_ACCESSIBLE);
    set((0..n).all(ends), K_CO_ACCESSIBLE, K_NOT_CO_ACCESSIBLE);
    let string = start.map_or(n == 0, |i| i == 0)
        && (0..n).all(|s| {
            if fst.is_final(s) {
                fst.num_arcs(s) == 0 && s + 1 == n
            } else {
                fst.num_arcs(s) == 1 && fst.arcs(s)[0].nextstate == s + 1
            }
        });
    set(string, K_STRING, K_NOT_STRING);
    let weighted_cycle =
        arcs.iter().any(|(s, a)| {
            !a.weight.same(&one) && !a.weight.same(&zero) && (a.nextstate == *s || reach[a.nextstate][*s])
        });
    set(weighted_cycle, K_WEIGHTED_CYCLES, K_UNWEIGHTED_CYCLES);
    props
}

/// A small generator of repeatable numbers.
struct Rng(u64);

impl Rng {
    fn new(seed: u64) -> Self {
        Rng(seed.wrapping_mul(0x9E37_79B9_7F4A_7C15) | 1)
    }

    fn next(&mut self) -> u64 {
        self.0 ^= self.0 << 13;
        self.0 ^= self.0 >> 7;
        self.0 ^= self.0 << 17;
        self.0
    }

    /// A number less than `bound`.
    fn below(&mut self, bound: usize) -> usize {
        ((self.next() >> 11) % bound as u64) as usize
    }
}

/// An acceptor with no cycle, in which every state but the last has an arc on.
fn random_acyclic_fst(rng: &mut Rng, states: usize) -> StdVectorFst {
    let mut fst = StdVectorFst::new();
    for _ in 0..states {
        fst.add_state();
    }
    fst.set_start(0);
    for s in 0..states - 1 {
        let arcs = 1 + rng.below(3);
        for _ in 0..arcs {
            let next = s + 1 + rng.below(states - 1 - s);
            let label = 1 + rng.below(3) as i32;
            let weight = TropicalWeight::new(rng.below(5) as f32);
            fst.add_arc(s as i32, StdArc::new(label, label, weight, next as i32));
        }
        if rng.below(4) == 0 {
            fst.set_final(s as i32, TropicalWeight::new(rng.below(5) as f32));
        }
    }
    fst.set_final(states as i32 - 1, TropicalWeight::new(rng.below(5) as f32));
    fst.learn_properties();
    fst
}

/// Every successful path of at most `limit` arcs: its two label strings and its weight.
fn paths(fst: &StdVectorFst, limit: usize) -> Vec<(Vec<i32>, Vec<i32>, TropicalWeight)> {
    let mut found = Vec::new();
    let mut open = Vec::new();
    if let Some(start) = fst.start() {
        open.push((start, Vec::new(), Vec::new(), TropicalWeight::one(), 0usize));
    }
    while let Some((s, input, output, weight, length)) = open.pop() {
        let end = fst.final_weight(s);
        if end != TropicalWeight::zero() {
            found.push((input.clone(), output.clone(), weight.times(&end)));
        }
        if length < limit {
            for arc in fst.arcs(s) {
                let mut input: Vec<i32> = input.clone();
                let mut output: Vec<i32> = output.clone();
                input.push(arc.ilabel());
                output.push(arc.olabel());
                open.push((arc.nextstate(), input, output, weight.times(&arc.weight()), length + 1));
            }
        }
    }
    found
}

/// The paths in order, with their weights written out.
fn sorted(paths: Vec<(Vec<i32>, Vec<i32>, TropicalWeight)>) -> Vec<(Vec<i32>, Vec<i32>, String)> {
    let mut rows: Vec<(Vec<i32>, Vec<i32>, String)> =
        paths.into_iter().map(|(i, o, w)| (i, o, format!("{:.4}", w.value()))).collect();
    rows.sort();
    rows
}

fn fst_with(arcs: &[(i32, i32, f32, i32)]) -> StdVectorFst {
    let mut fst = StdVectorFst::new();
    for _ in 0..4 {
        fst.add_state();
    }
    fst.set_start(0);
    fst.set_final(3, TropicalWeight::one());
    for (ilabel, olabel, weight, nextstate) in arcs {
        fst.add_arc(
            0,
            StdArc::new(*ilabel, *olabel, TropicalWeight(*weight), *nextstate),
        );
    }
    fst.learn_properties();
    fst
}

fn labels(fst: &StdVectorFst) -> Vec<(i32, i32)> {
    fst.arcs(0).map(|a| (a.ilabel(), a.olabel())).collect()
}

#[test]
fn sorting_by_input_label_breaks_ties_on_the_output_label() {
    let mut fst = fst_with(&[
        (3, 1, 0.0, 1),
        (1, 9, 0.0, 1),
        (1, 2, 0.0, 1),
        (2, 5, 0.0, 1),
    ]);
    arc_sort(&mut fst, &ILabelCompare);
    assert_eq!(labels(&fst), vec![(1, 2), (1, 9), (2, 5), (3, 1)]);
}

#[test]
fn sorting_by_output_label_breaks_ties_on_the_input_label() {
    let mut fst = fst_with(&[
        (3, 1, 0.0, 1),
        (1, 9, 0.0, 1),
        (1, 2, 0.0, 1),
        (2, 5, 0.0, 1),
    ]);
    arc_sort(&mut fst, &OLabelCompare);
    assert_eq!(labels(&fst), vec![(3, 1), (1, 2), (2, 5), (1, 9)]);
}

/// Arcs alike in both labels keep the order they were in, so the result
/// does not depend on how the sort happens to move equal elements.
#[test]
fn arcs_that_compare_equal_keep_their_order() {
    let mut fst = fst_with(&[
        (1, 1, 3.0, 1),
        (0, 0, 0.0, 2),
        (1, 1, 2.0, 3),
        (1, 1, 1.0, 2),
    ]);
    arc_sort(&mut fst, &ILabelCompare);
    let after: Vec<(f32, i32)> = fst
        .arcs(0)
        .skip(1)
        .map(|a| (a.weight().value(), a.nextstate()))
        .collect();
    assert_eq!(after, vec![(3.0, 1), (2.0, 3), (1.0, 2)]);
}

/// Sorting claims the FST is sorted, and on an acceptor it claims both
/// sides are, since the two labels are the same.
#[test]
fn arcsort_the_claimed_properties_are_the_ones_the_result_has() {
    let mut transducer = fst_with(&[(3, 1, 0.0, 1), (1, 9, 0.0, 1)]);
    arc_sort(&mut transducer, &ILabelCompare);
    let props = transducer.properties(K_FST_PROPERTIES, false);
    assert_ne!(props & K_I_LABEL_SORTED, 0);
    assert_eq!(
        props & K_O_LABEL_SORTED,
        0,
        "the output side is not sorted, and the FST must not say it is"
    );
    assert_eq!(
        transducer.properties(K_I_LABEL_SORTED | K_O_LABEL_SORTED, true),
        props & (K_I_LABEL_SORTED | K_O_LABEL_SORTED),
        "the claim has to match what a recomputation finds"
    );

    let mut acceptor = fst_with(&[(3, 3, 0.0, 1), (1, 1, 0.0, 1)]);
    arc_sort(&mut acceptor, &ILabelCompare);
    let props = acceptor.properties(K_FST_PROPERTIES, false);
    assert_ne!(props & K_I_LABEL_SORTED, 0);
    assert_ne!(
        props & K_O_LABEL_SORTED,
        0,
        "on an acceptor, sorting one side sorts the other"
    );
}

/// Sorting reorders arcs and changes nothing else.
#[test]
fn sorting_does_not_change_what_the_fst_accepts() {
    let mut rng = Rng::new(0x0050_A7ED_u64);
    for round in 0..200 {
        let fst = random_acyclic_fst(&mut rng, 6);
        let before = sorted(paths(&fst, 10));

        for by_input in [true, false] {
            let mut copy = fst.clone();
            if by_input {
                arc_sort(&mut copy, &ILabelCompare);
            } else {
                arc_sort(&mut copy, &OLabelCompare);
            }
            assert_eq!(sorted(paths(&copy, 10)), before, "round {round}");

            // And the arcs really are in order.
            for state in copy.states() {
                let arcs: Vec<StdArc> = copy.arcs(state).collect();
                assert!(
                    arcs.windows(2).all(|w| {
                        let key = |a: &StdArc| {
                            if by_input {
                                (a.ilabel(), a.olabel())
                            } else {
                                (a.olabel(), a.ilabel())
                            }
                        };
                        key(&w[0]) <= key(&w[1])
                    }),
                    "round {round}, state {state}"
                );
            }
        }
    }
}

/// A state with fewer than two arcs is already sorted, and an FST with no
/// states is nothing to sort.
#[test]
fn there_is_nothing_to_do_for_a_state_with_one_arc() {
    let mut empty = StdVectorFst::new();
    arc_sort(&mut empty, &ILabelCompare);
    assert_eq!(empty.start(), None);

    let mut one = fst_with(&[(5, 6, 1.0, 1)]);
    arc_sort(&mut one, &ILabelCompare);
    assert_eq!(labels(&one), vec![(5, 6)]);
    assert_ne!(
        one.properties(K_I_LABEL_SORTED, false) & K_I_LABEL_SORTED,
        0
    );
}
