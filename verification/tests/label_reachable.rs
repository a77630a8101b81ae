#![allow(dead_code)]

use sicada::arc::Arc;
use sicada::arcsort::{ILabelCompare, arc_sort};
use sicada::label_reachable::LabelReachable;
use sicada::properties::{K_ACCEPTOR, K_ACCESSIBLE, K_ACYCLIC, K_CO_ACCESSIBLE, K_CYCLIC, K_EPSILONS, K_FST_PROPERTIES, K_INITIAL_ACYCLIC, K_INITIAL_CYCLIC, K_I_DETERMINISTIC, K_I_EPSILONS, K_I_LABEL_SORTED, K_NON_I_DETERMINISTIC, K_NON_O_DETERMINISTIC, K_NOT_ACCEPTOR, K_NOT_ACCESSIBLE, K_NOT_CO_ACCESSIBLE, K_NOT_I_LABEL_SORTED, K_NOT_O_LABEL_SORTED, K_NOT_STRING, K_NOT_TOP_SORTED, K_NO_EPSILONS, K_NO_I_EPSILONS, K_NO_O_EPSILONS, K_O_DETERMINISTIC, K_O_EPSILONS, K_O_LABEL_SORTED, K_STRING, K_TOP_SORTED, K_UNWEIGHTED, K_UNWEIGHTED_CYCLES, K_WEIGHTED, K_WEIGHTED_CYCLES};
use sicada::vector_fst::VectorFst;
use sicada::weight::{COMMUTATIVE, IDEMPOTENT, LEFT_SEMIRING, PATH, RIGHT_SEMIRING, Weight};

/// The tropical semiring: the least weight wins, and weights along a path add up.
#[derive(Clone, Copy, Debug, PartialEq, PartialOrd)]
struct TropicalWeight(f32);

impl TropicalWeight {
    fn new(value: f32) -> Self {
        TropicalWeight(value)
    }

    fn value(&self) -> f32 {
        self.0
    }
}

impl Weight for TropicalWeight {
    type Delta = f32;

    fn spec_zero() -> Self {
        unreachable!()
    }

    fn spec_one() -> Self {
        unreachable!()
    }

    fn spec_no_weight() -> Self {
        unreachable!()
    }

    fn spec_plus(self, _other: Self) -> Self {
        unreachable!()
    }

    fn spec_times(self, _other: Self) -> Self {
        unreachable!()
    }

    fn spec_member(self) -> bool {
        unreachable!()
    }

    fn spec_approx(self, _other: Self, _delta: f32) -> bool {
        unreachable!()
    }

    fn spec_quantize(self, _delta: f32) -> Self {
        unreachable!()
    }

    fn spec_hash_word(self) -> u64 {
        unreachable!()
    }

    fn spec_properties() -> u64 {
        unreachable!()
    }

    fn spec_default_delta() -> f32 {
        unreachable!()
    }

    fn zero() -> Self {
        TropicalWeight(f32::INFINITY)
    }

    fn one() -> Self {
        TropicalWeight(0.0)
    }

    fn no_weight() -> Self {
        TropicalWeight(f32::NAN)
    }

    fn plus(&self, other: &Self) -> Self {
        if !self.is_member() || !other.is_member() {
            return Self::no_weight();
        }
        TropicalWeight(self.0.min(other.0))
    }

    fn times(&self, other: &Self) -> Self {
        if !self.is_member() || !other.is_member() {
            return Self::no_weight();
        }
        TropicalWeight(self.0 + other.0)
    }

    fn duplicate(&self) -> Self {
        *self
    }

    fn same(&self, other: &Self) -> bool {
        self.0 == other.0
    }

    fn is_member(&self) -> bool {
        !self.0.is_nan() && self.0 != f32::NEG_INFINITY
    }

    fn approx_equal(&self, other: &Self, delta: &f32) -> bool {
        self.0 <= other.0 + delta && other.0 <= self.0 + delta
    }

    fn quantize(&self, delta: &f32) -> Self {
        if self.0.is_finite() {
            TropicalWeight((self.0 / delta + 0.5).floor() * delta)
        } else {
            *self
        }
    }

    fn hash_word(&self) -> u64 {
        self.0.to_bits() as u64
    }

    fn properties() -> u64 {
        LEFT_SEMIRING | RIGHT_SEMIRING | COMMUTATIVE | IDEMPOTENT | PATH
    }

    fn default_delta() -> f32 {
        1.0 / 1024.0
    }
}

/// An arc whose weight is tropical.
#[derive(Clone, Copy, Debug, PartialEq)]
struct StdArc {
    ilabel: i32,
    olabel: i32,
    weight: TropicalWeight,
    nextstate: i32,
}

impl StdArc {
    fn new(ilabel: i32, olabel: i32, weight: TropicalWeight, nextstate: i32) -> Self {
        StdArc { ilabel, olabel, weight, nextstate }
    }

    fn of(arc: &Arc<TropicalWeight>) -> Self {
        StdArc::new(arc.ilabel, arc.olabel, arc.weight, arc.nextstate as i32)
    }

    fn raw(&self) -> Arc<TropicalWeight> {
        Arc::new(self.ilabel, self.olabel, self.weight, self.nextstate as usize)
    }

    fn ilabel(&self) -> i32 {
        self.ilabel
    }

    fn olabel(&self) -> i32 {
        self.olabel
    }

    fn weight(&self) -> TropicalWeight {
        self.weight
    }

    fn nextstate(&self) -> i32 {
        self.nextstate
    }
}

/// A machine over tropical weights, with states counted by `i32`.
struct StdVectorFst(VectorFst<TropicalWeight>);

impl std::ops::Deref for StdVectorFst {
    type Target = VectorFst<TropicalWeight>;

    fn deref(&self) -> &VectorFst<TropicalWeight> {
        &self.0
    }
}

impl std::ops::DerefMut for StdVectorFst {
    fn deref_mut(&mut self) -> &mut VectorFst<TropicalWeight> {
        &mut self.0
    }
}

impl Clone for StdVectorFst {
    fn clone(&self) -> Self {
        StdVectorFst(self.0.duplicate())
    }
}

impl StdVectorFst {
    fn new() -> Self {
        StdVectorFst(VectorFst::new())
    }

    fn add_state(&mut self) -> i32 {
        self.0.add_state() as i32
    }

    fn set_start(&mut self, s: i32) {
        self.0.set_start(s as usize);
    }

    fn start(&self) -> Option<i32> {
        self.0.start().map(|s| s as i32)
    }

    fn set_final(&mut self, s: i32, weight: TropicalWeight) {
        self.0.set_final(s as usize, weight);
    }

    fn final_weight(&self, s: i32) -> TropicalWeight {
        self.0.final_weight(s as usize)
    }

    fn add_arc(&mut self, s: i32, arc: StdArc) {
        self.0.add_arc(s as usize, arc.raw());
    }

    fn states(&self) -> std::ops::Range<i32> {
        0..self.0.num_states() as i32
    }

    fn arcs(&self, s: i32) -> std::vec::IntoIter<StdArc> {
        let arcs: Vec<StdArc> = self.0.arcs(s as usize).iter().map(StdArc::of).collect();
        arcs.into_iter()
    }

    fn num_arcs(&self, s: i32) -> usize {
        self.0.num_arcs(s as usize)
    }

    fn delete_arcs(&mut self, s: i32) {
        self.0.delete_arcs(s as usize);
    }

    fn mutate_arcs(&mut self, s: i32, change: impl Fn(&mut StdArc)) {
        let mut arcs: Vec<StdArc> = self.arcs(s).collect();
        for arc in &mut arcs {
            change(arc);
        }
        self.0.set_arcs(s as usize, arcs.iter().map(StdArc::raw).collect());
    }

    /// What holds of the machine, read off its states and arcs where `test` says so.
    fn properties(&self, mask: u64, test: bool) -> u64 {
        if test {
            compute_properties(&self.0) & mask
        } else {
            self.0.known_properties(mask)
        }
    }

    /// Reads off the machine what holds of it, and keeps that with it.
    fn learn_properties(&mut self) {
        let props = compute_properties(&self.0);
        self.0.set_properties(props, K_FST_PROPERTIES);
    }
}

/// Every property of a machine that can be read off its states and arcs.
fn compute_properties<W: Weight>(fst: &VectorFst<W>) -> u64 {
    let n = fst.num_states();
    let one = W::one();
    let zero = W::zero();
    let mut props = 0u64;
    let mut reach = vec![vec![false; n]; n];
    for s in 0..n {
        for arc in fst.arcs(s) {
            reach[s][arc.nextstate] = true;
        }
    }
    for k in 0..n {
        for i in 0..n {
            if reach[i][k] {
                for j in 0..n {
                    if reach[k][j] {
                        reach[i][j] = true;
                    }
                }
            }
        }
    }
    let start = fst.start();
    let arcs: Vec<(usize, &Arc<W>)> =
        (0..n).flat_map(|s| fst.arcs(s).iter().map(move |arc| (s, arc))).collect();
    let repeats = |label: fn(&Arc<W>) -> i32| {
        (0..n).any(|s| {
            let mut labels: Vec<i32> = fst.arcs(s).iter().map(label).collect();
            labels.sort();
            labels.windows(2).any(|pair| pair[0] == pair[1])
        })
    };
    let falls = |label: fn(&Arc<W>) -> i32| {
        (0..n).any(|s| fst.arcs(s).windows(2).any(|pair| label(&pair[0]) > label(&pair[1])))
    };
    let mut set = |holds: bool, yes: u64, no: u64| {
        props |= if holds { yes } else { no };
    };
    set(arcs.iter().all(|(_, a)| a.ilabel == a.olabel), K_ACCEPTOR, K_NOT_ACCEPTOR);
    set(!repeats(|a| a.ilabel), K_I_DETERMINISTIC, K_NON_I_DETERMINISTIC);
    set(!repeats(|a| a.olabel), K_O_DETERMINISTIC, K_NON_O_DETERMINISTIC);
    set(arcs.iter().any(|(_, a)| a.ilabel == 0 && a.olabel == 0), K_EPSILONS, K_NO_EPSILONS);
    set(arcs.iter().any(|(_, a)| a.ilabel == 0), K_I_EPSILONS, K_NO_I_EPSILONS);
    set(arcs.iter().any(|(_, a)| a.olabel == 0), K_O_EPSILONS, K_NO_O_EPSILONS);
    set(!falls(|a| a.ilabel), K_I_LABEL_SORTED, K_NOT_I_LABEL_SORTED);
    set(!falls(|a| a.olabel), K_O_LABEL_SORTED, K_NOT_O_LABEL_SORTED);
    let weighted = arcs.iter().any(|(_, a)| !a.weight.same(&one) && !a.weight.same(&zero))
        || (0..n).any(|s| {
            let w = fst.final_weight(s);
            !w.same(&one) && !w.same(&zero)
        });
    set(weighted, K_WEIGHTED, K_UNWEIGHTED);
    let has_cycle = (0..n).any(|s| reach[s][s]);
    set(has_cycle, K_CYCLIC, K_ACYCLIC);
    let initial_cycle = start.is_some_and(|s| reach[s][s]);
    set(initial_cycle, K_INITIAL_CYCLIC, K_INITIAL_ACYCLIC);
    set(arcs.iter().all(|(s, a)| a.nextstate > *s), K_TOP_SORTED, K_NOT_TOP_SORTED);
    let seen = |s: usize| start.is_some_and(|i| i == s || reach[i][s]);
    let ends = |s: usize| (0..n).any(|t| fst.is_final(t) && (s == t || reach[s][t]));
    set((0..n).all(seen), K_ACCESSIBLE, K_NOT_ACCESSIBLE);
    set((0..n).all(ends), K_CO_ACCESSIBLE, K_NOT_CO_ACCESSIBLE);
    let string = start.map_or(n == 0, |i| i == 0)
        && (0..n).all(|s| {
            if fst.is_final(s) {
                fst.num_arcs(s) == 0 && s + 1 == n
            } else {
                fst.num_arcs(s) == 1 && fst.arcs(s)[0].nextstate == s + 1
            }
        });
    set(string, K_STRING, K_NOT_STRING);
    let weighted_cycle =
        arcs.iter().any(|(s, a)| {
            !a.weight.same(&one) && !a.weight.same(&zero) && (a.nextstate == *s || reach[a.nextstate][*s])
        });
    set(weighted_cycle, K_WEIGHTED_CYCLES, K_UNWEIGHTED_CYCLES);
    props
}

/// A small generator of repeatable numbers.
struct Rng(u64);

impl Rng {
    fn new(seed: u64) -> Self {
        Rng(seed.wrapping_mul(0x9E37_79B9_7F4A_7C15) | 1)
    }

    fn next(&mut self) -> u64 {
        self.0 ^= self.0 << 13;
        self.0 ^= self.0 >> 7;
        self.0 ^= self.0 << 17;
        self.0
    }

    /// A number less than `bound`.
    fn below(&mut self, bound: usize) -> usize {
        ((self.next() >> 11) % bound as u64) as usize
    }
}

/// An acceptor with no cycle, in which every state but the last has an arc on.
fn random_acyclic_fst(rng: &mut Rng, states: usize) -> StdVectorFst {
    let mut fst = StdVectorFst::new();
    for _ in 0..states {
        fst.add_state();
    }
    fst.set_start(0);
    for s in 0..states - 1 {
        let arcs = 1 + rng.below(3);
        for _ in 0..arcs {
            let next = s + 1 + rng.below(states - 1 - s);
            let label = 1 + rng.below(3) as i32;
            let weight = TropicalWeight::new(rng.below(5) as f32);
            fst.add_arc(s as i32, StdArc::new(label, label, weight, next as i32));
        }
        if rng.below(4) == 0 {
            fst.set_final(s as i32, TropicalWeight::new(rng.below(5) as f32));
        }
    }
    fst.set_final(states as i32 - 1, TropicalWeight::new(rng.below(5) as f32));
    fst.learn_properties();
    fst
}

/// 0 -1-> 1 -2-> 2 (final), and 0 -3-> 3 (final).
fn sample() -> StdVectorFst {
    let mut fst = StdVectorFst::new();
    for _ in 0..4 {
        fst.add_state();
    }
    fst.set_start(0);
    fst.add_arc(0, StdArc::new(1, 1, TropicalWeight::one(), 1));
    fst.add_arc(1, StdArc::new(2, 2, TropicalWeight::one(), 2));
    fst.add_arc(0, StdArc::new(3, 3, TropicalWeight::one(), 3));
    fst.set_final(2, TropicalWeight::one());
    fst.set_final(3, TropicalWeight::one());
    fst.learn_properties();
    fst
}

/// The labels a state can read next, following epsilons and stopping at the
/// first labelled arc. The interval sets have to agree with this.
fn reachable_by_walking(fst: &StdVectorFst, from: i32) -> (Vec<i32>, bool) {
    let mut seen = vec![false; fst.num_states()];
    let mut stack = vec![from];
    let mut labels = Vec::new();
    let mut can_finish = false;
    while let Some(state) = stack.pop() {
        if seen[state as usize] {
            continue;
        }
        seen[state as usize] = true;
        if fst.final_weight(state) != TropicalWeight::zero() {
            can_finish = true;
        }
        for arc in fst.arcs(state) {
            if arc.ilabel() == 0 {
                stack.push(arc.nextstate());
            } else {
                labels.push(arc.ilabel());
            }
        }
    }
    labels.sort_unstable();
    labels.dedup();
    (labels, can_finish)
}

#[test]
fn a_state_reaches_the_labels_that_can_be_read_next() {
    let fst = sample();
    let mut reachable = LabelReachable::new(&fst, true);

    for state in fst.states() {
        reachable.set_state(state as usize);
        let (labels, can_finish) = reachable_by_walking(&fst, state);
        for label in 1..=4 {
            let want = labels.contains(&label);
            let got = reachable
                .relabel(label)
                .is_some_and(|index| reachable.reach(index));
            assert_eq!(got, want, "state {state}, label {label}");
        }
        assert_eq!(reachable.reach_final(), can_finish, "state {state}");
    }
}

/// A label the FST never carries has no number, so nothing can read it.
#[test]
fn a_label_the_fst_never_carries_is_reachable_from_nowhere() {
    let fst = sample();
    let reachable = LabelReachable::new(&fst, true);
    assert!(reachable.relabel(99).is_none());
}

/// Whichever FST, the intervals say exactly what a walk says.
#[test]
fn the_intervals_agree_with_walking_on_any_fst() {
    let mut rng = Rng::new(0x000A_BE01_u64);
    for round in 0..100 {
        let fst = random_acyclic_fst(&mut rng, 6);
        if fst.num_states() == 0 {
            continue;
        }
        let mut reachable = LabelReachable::new(&fst, true);
        for state in fst.states() {
            reachable.set_state(state as usize);
            let (labels, can_finish) = reachable_by_walking(&fst, state);
            for label in 1..=4 {
                let want = labels.contains(&label);
                let got = reachable
                    .relabel(label)
                    .is_some_and(|index| reachable.reach(index));
                assert_eq!(got, want, "round {round}, state {state}, label {label}");
            }
            assert_eq!(
                reachable.reach_final(),
                can_finish,
                "round {round}, state {state}"
            );
        }
    }
}

/// Looking ahead over another FST's arcs finds the run that matches.
#[test]
fn looking_ahead_finds_the_arcs_that_can_be_matched() {
    let index = sample();
    let mut reachable = LabelReachable::new(&index, true);

    // The other side, whose arcs are looked ahead over.
    let mut other = StdVectorFst::new();
    for _ in 0..2 {
        other.add_state();
    }
    other.set_start(0);
    for label in [1, 2, 3, 9] {
        other.add_arc(
            0,
            StdArc::new(label, label, TropicalWeight(label as f32), 1),
        );
    }
    other.set_final(1, TropicalWeight::one());
    arc_sort(&mut other, &ILabelCompare);
    other.learn_properties();

    reachable.reach_init(&other, true).unwrap();

    // From state 0 of the index, labels 1 and 3 are reachable, 2 and 9 are
    // not; so the run spans the arcs carrying 1 through 3.
    reachable.set_state(0);
    assert!(reachable.reach_range(other.0.arcs(0), 0, 4, true));
    assert_eq!(reachable.reach_begin(), Some(0));
    assert_eq!(reachable.reach_end(), Some(3));
    assert_eq!(
        *reachable.reach_weight(),
        TropicalWeight(1.0),
        "the lighter of the arcs carrying 1 and 3"
    );

    // From state 1, only label 2 is reachable.
    reachable.set_state(1);
    assert!(reachable.reach_range(other.0.arcs(0), 0, 4, false));
    assert_eq!(reachable.reach_begin(), Some(1));
    assert_eq!(reachable.reach_end(), Some(2));

    // From state 2, nothing is.
    reachable.set_state(2);
    assert!(!reachable.reach_range(other.0.arcs(0), 0, 4, false));
    assert_eq!(reachable.reach_begin(), None);
}

/// The FST looked ahead over has to be sorted, or the run is not a run.
#[test]
fn an_unsorted_fst_is_refused() {
    let index = sample();
    let mut reachable = LabelReachable::new(&index, true);

    let mut unsorted = StdVectorFst::new();
    for _ in 0..2 {
        unsorted.add_state();
    }
    unsorted.set_start(0);
    unsorted.add_arc(0, StdArc::new(3, 3, TropicalWeight::one(), 1));
    unsorted.add_arc(0, StdArc::new(1, 1, TropicalWeight::one(), 1));
    unsorted.set_final(1, TropicalWeight::one());
    unsorted.learn_properties();

    assert!(reachable.reach_init(&unsorted, true).is_err());
}

/// Indexing the output side answers about output labels.
#[test]
fn the_output_side_can_be_indexed_instead() {
    let mut fst = StdVectorFst::new();
    for _ in 0..2 {
        fst.add_state();
    }
    fst.set_start(0);
    fst.add_arc(0, StdArc::new(1, 7, TropicalWeight::one(), 1));
    fst.set_final(1, TropicalWeight::one());
    fst.learn_properties();

    let mut inputs = LabelReachable::new(&fst, true);
    inputs.set_state(0);
    assert!(inputs.relabel(1).is_some_and(|i| inputs.reach(i)));
    assert!(inputs.relabel(7).is_none());

    let mut outputs = LabelReachable::new(&fst, false);
    outputs.set_state(0);
    assert!(outputs.relabel(7).is_some_and(|i| outputs.reach(i)));
    assert!(outputs.relabel(1).is_none());
    assert!(!outputs.data().reach_input());
}
