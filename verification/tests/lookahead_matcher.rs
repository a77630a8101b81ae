#![allow(dead_code)]

use sicada::accumulator::DefaultAccumulator;
use sicada::arc::Arc;
use sicada::arcsort::{ILabelCompare, arc_sort};
use sicada::lookahead_matcher::{ArcLookAheadMatcher, DEFAULT_LABEL_LOOKAHEAD_FLAGS, INPUT_LOOKAHEAD_MATCHER, LOOKAHEAD_NON_EPSILONS, LOOKAHEAD_PREFIX, LOOKAHEAD_WEIGHT, LabelLookAheadMatcher, LookAheadMatcher, OUTPUT_LOOKAHEAD_MATCHER, TrivialLookAheadMatcher};
use sicada::matcher::{MatchType, SortedMatcher};
use sicada::properties::{K_ACCEPTOR, K_ACCESSIBLE, K_ACYCLIC, K_CO_ACCESSIBLE, K_CYCLIC, K_EPSILONS, K_FST_PROPERTIES, K_INITIAL_ACYCLIC, K_INITIAL_CYCLIC, K_I_DETERMINISTIC, K_I_EPSILONS, K_I_LABEL_SORTED, K_NON_I_DETERMINISTIC, K_NON_O_DETERMINISTIC, K_NOT_ACCEPTOR, K_NOT_ACCESSIBLE, K_NOT_CO_ACCESSIBLE, K_NOT_I_LABEL_SORTED, K_NOT_O_LABEL_SORTED, K_NOT_STRING, K_NOT_TOP_SORTED, K_NO_EPSILONS, K_NO_I_EPSILONS, K_NO_O_EPSILONS, K_O_DETERMINISTIC, K_O_EPSILONS, K_O_LABEL_SORTED, K_STRING, K_TOP_SORTED, K_UNWEIGHTED, K_UNWEIGHTED_CYCLES, K_WEIGHTED, K_WEIGHTED_CYCLES};
use sicada::vector_fst::VectorFst;
use sicada::weight::{COMMUTATIVE, IDEMPOTENT, LEFT_SEMIRING, PATH, RIGHT_SEMIRING, Weight};

/// The tropical semiring: the least weight wins, and weights along a path add up.
#[derive(Clone, Copy, Debug, PartialEq, PartialOrd)]
struct TropicalWeight(f32);

impl TropicalWeight {
    fn new(value: f32) -> Self {
        TropicalWeight(value)
    }

    fn value(&self) -> f32 {
        self.0
    }
}

impl Weight for TropicalWeight {
    type Delta = f32;

    fn spec_zero() -> Self {
        unreachable!()
    }

    fn spec_one() -> Self {
        unreachable!()
    }

    fn spec_no_weight() -> Self {
        unreachable!()
    }

    fn spec_plus(self, _other: Self) -> Self {
        unreachable!()
    }

    fn spec_times(self, _other: Self) -> Self {
        unreachable!()
    }

    fn spec_member(self) -> bool {
        unreachable!()
    }

    fn spec_approx(self, _other: Self, _delta: f32) -> bool {
        unreachable!()
    }

    fn spec_quantize(self, _delta: f32) -> Self {
        unreachable!()
    }

    fn spec_hash_word(self) -> u64 {
        unreachable!()
    }

    fn spec_properties() -> u64 {
        unreachable!()
    }

    fn spec_default_delta() -> f32 {
        unreachable!()
    }

    fn zero() -> Self {
        TropicalWeight(f32::INFINITY)
    }

    fn one() -> Self {
        TropicalWeight(0.0)
    }

    fn no_weight() -> Self {
        TropicalWeight(f32::NAN)
    }

    fn plus(&self, other: &Self) -> Self {
        if !self.is_member() || !other.is_member() {
            return Self::no_weight();
        }
        TropicalWeight(self.0.min(other.0))
    }

    fn times(&self, other: &Self) -> Self {
        if !self.is_member() || !other.is_member() {
            return Self::no_weight();
        }
        TropicalWeight(self.0 + other.0)
    }

    fn duplicate(&self) -> Self {
        *self
    }

    fn same(&self, other: &Self) -> bool {
        self.0 == other.0
    }

    fn is_member(&self) -> bool {
        !self.0.is_nan() && self.0 != f32::NEG_INFINITY
    }

    fn approx_equal(&self, other: &Self, delta: &f32) -> bool {
        self.0 <= other.0 + delta && other.0 <= self.0 + delta
    }

    fn quantize(&self, delta: &f32) -> Self {
        if self.0.is_finite() {
            TropicalWeight((self.0 / delta + 0.5).floor() * delta)
        } else {
            *self
        }
    }

    fn hash_word(&self) -> u64 {
        self.0.to_bits() as u64
    }

    fn properties() -> u64 {
        LEFT_SEMIRING | RIGHT_SEMIRING | COMMUTATIVE | IDEMPOTENT | PATH
    }

    fn default_delta() -> f32 {
        1.0 / 1024.0
    }
}

/// An arc whose weight is tropical.
#[derive(Clone, Copy, Debug, PartialEq)]
struct StdArc {
    ilabel: i32,
    olabel: i32,
    weight: TropicalWeight,
    nextstate: i32,
}

impl StdArc {
    fn new(ilabel: i32, olabel: i32, weight: TropicalWeight, nextstate: i32) -> Self {
        StdArc { ilabel, olabel, weight, nextstate }
    }

    fn of(arc: &Arc<TropicalWeight>) -> Self {
        StdArc::new(arc.ilabel, arc.olabel, arc.weight, arc.nextstate as i32)
    }

    fn raw(&self) -> Arc<TropicalWeight> {
        Arc::new(self.ilabel, self.olabel, self.weight, self.nextstate as usize)
    }

    fn ilabel(&self) -> i32 {
        self.ilabel
    }

    fn olabel(&self) -> i32 {
        self.olabel
    }

    fn weight(&self) -> TropicalWeight {
        self.weight
    }

    fn nextstate(&self) -> i32 {
        self.nextstate
    }
}

/// A machine over tropical weights, with states counted by `i32`.
struct StdVectorFst(VectorFst<TropicalWeight>);

impl std::ops::Deref for StdVectorFst {
    type Target = VectorFst<TropicalWeight>;

    fn deref(&self) -> &VectorFst<TropicalWeight> {
        &self.0
    }
}

impl std::ops::DerefMut for StdVectorFst {
    fn deref_mut(&mut self) -> &mut VectorFst<TropicalWeight> {
        &mut self.0
    }
}

impl Clone for StdVectorFst {
    fn clone(&self) -> Self {
        StdVectorFst(self.0.duplicate())
    }
}

impl StdVectorFst {
    fn new() -> Self {
        StdVectorFst(VectorFst::new())
    }

    fn add_state(&mut self) -> i32 {
        self.0.add_state() as i32
    }

    fn set_start(&mut self, s: i32) {
        self.0.set_start(s as usize);
    }

    fn start(&self) -> Option<i32> {
        self.0.start().map(|s| s as i32)
    }

    fn set_final(&mut self, s: i32, weight: TropicalWeight) {
        self.0.set_final(s as usize, weight);
    }

    fn final_weight(&self, s: i32) -> TropicalWeight {
        self.0.final_weight(s as usize)
    }

    fn add_arc(&mut self, s: i32, arc: StdArc) {
        self.0.add_arc(s as usize, arc.raw());
    }

    fn states(&self) -> std::ops::Range<i32> {
        0..self.0.num_states() as i32
    }

    fn arcs(&self, s: i32) -> std::vec::IntoIter<StdArc> {
        let arcs: Vec<StdArc> = self.0.arcs(s as usize).iter().map(StdArc::of).collect();
        arcs.into_iter()
    }

    fn num_arcs(&self, s: i32) -> usize {
        self.0.num_arcs(s as usize)
    }

    fn delete_arcs(&mut self, s: i32) {
        self.0.delete_arcs(s as usize);
    }

    fn mutate_arcs(&mut self, s: i32, change: impl Fn(&mut StdArc)) {
        let mut arcs: Vec<StdArc> = self.arcs(s).collect();
        for arc in &mut arcs {
            change(arc);
        }
        self.0.set_arcs(s as usize, arcs.iter().map(StdArc::raw).collect());
    }

    /// What holds of the machine, read off its states and arcs where `test` says so.
    fn properties(&self, mask: u64, test: bool) -> u64 {
        if test {
            compute_properties(&self.0) & mask
        } else {
            self.0.known_properties(mask)
        }
    }

    /// Reads off the machine what holds of it, and keeps that with it.
    fn learn_properties(&mut self) {
        let props = compute_properties(&self.0);
        self.0.set_properties(props, K_FST_PROPERTIES);
    }
}

/// Every property of a machine that can be read off its states and arcs.
fn compute_properties<W: Weight>(fst: &VectorFst<W>) -> u64 {
    let n = fst.num_states();
    let one = W::one();
    let zero = W::zero();
    let mut props = 0u64;
    let mut reach = vec![vec![false; n]; n];
    for s in 0..n {
        for arc in fst.arcs(s) {
            reach[s][arc.nextstate] = true;
        }
    }
    for k in 0..n {
        for i in 0..n {
            if reach[i][k] {
                for j in 0..n {
                    if reach[k][j] {
                        reach[i][j] = true;
                    }
                }
            }
        }
    }
    let start = fst.start();
    let arcs: Vec<(usize, &Arc<W>)> =
        (0..n).flat_map(|s| fst.arcs(s).iter().map(move |arc| (s, arc))).collect();
    let repeats = |label: fn(&Arc<W>) -> i32| {
        (0..n).any(|s| {
            let mut labels: Vec<i32> = fst.arcs(s).iter().map(label).collect();
            labels.sort();
            labels.windows(2).any(|pair| pair[0] == pair[1])
        })
    };
    let falls = |label: fn(&Arc<W>) -> i32| {
        (0..n).any(|s| fst.arcs(s).windows(2).any(|pair| label(&pair[0]) > label(&pair[1])))
    };
    let mut set = |holds: bool, yes: u64, no: u64| {
        props |= if holds { yes } else { no };
    };
    set(arcs.iter().all(|(_, a)| a.ilabel == a.olabel), K_ACCEPTOR, K_NOT_ACCEPTOR);
    set(!repeats(|a| a.ilabel), K_I_DETERMINISTIC, K_NON_I_DETERMINISTIC);
    set(!repeats(|a| a.olabel), K_O_DETERMINISTIC, K_NON_O_DETERMINISTIC);
    set(arcs.iter().any(|(_, a)| a.ilabel == 0 && a.olabel == 0), K_EPSILONS, K_NO_EPSILONS);
    set(arcs.iter().any(|(_, a)| a.ilabel == 0), K_I_EPSILONS, K_NO_I_EPSILONS);
    set(arcs.iter().any(|(_, a)| a.olabel == 0), K_O_EPSILONS, K_NO_O_EPSILONS);
    set(!falls(|a| a.ilabel), K_I_LABEL_SORTED, K_NOT_I_LABEL_SORTED);
    set(!falls(|a| a.olabel), K_O_LABEL_SORTED, K_NOT_O_LABEL_SORTED);
    let weighted = arcs.iter().any(|(_, a)| !a.weight.same(&one) && !a.weight.same(&zero))
        || (0..n).any(|s| {
            let w = fst.final_weight(s);
            !w.same(&one) && !w.same(&zero)
        });
    set(weighted, K_WEIGHTED, K_UNWEIGHTED);
    let has_cycle = (0..n).any(|s| reach[s][s]);
    set(has_cycle, K_CYCLIC, K_ACYCLIC);
    let initial_cycle = start.is_some_and(|s| reach[s][s]);
    set(initial_cycle, K_INITIAL_CYCLIC, K_INITIAL_ACYCLIC);
    set(arcs.iter().all(|(s, a)| a.nextstate > *s), K_TOP_SORTED, K_NOT_TOP_SORTED);
    let seen = |s: usize| start.is_some_and(|i| i == s || reach[i][s]);
    let ends = |s: usize| (0..n).any(|t| fst.is_final(t) && (s == t || reach[s][t]));
    set((0..n).all(seen), K_ACCESSIBLE, K_NOT_ACCESSIBLE);
    set((0..n).all(ends), K_CO_ACCESSIBLE, K_NOT_CO_ACCESSIBLE);
    let string = start.map_or(n == 0, |i| i == 0)
        && (0..n).all(|s| {
            if fst.is_final(s) {
                fst.num_arcs(s) == 0 && s + 1 == n
            } else {
                fst.num_arcs(s) == 1 && fst.arcs(s)[0].nextstate == s + 1
            }
        });
    set(string, K_STRING, K_NOT_STRING);
    let weighted_cycle =
        arcs.iter().any(|(s, a)| {
            !a.weight.same(&one) && !a.weight.same(&zero) && (a.nextstate == *s || reach[a.nextstate][*s])
        });
    set(weighted_cycle, K_WEIGHTED_CYCLES, K_UNWEIGHTED_CYCLES);
    props
}

/// The side being looked ahead from: 0 -1-> 1 -2-> 2 (final).
fn indexed() -> StdVectorFst {
    let mut fst = StdVectorFst::new();
    for _ in 0..3 {
        fst.add_state();
    }
    fst.set_start(0);
    fst.add_arc(0, StdArc::new(1, 1, TropicalWeight::one(), 1));
    fst.add_arc(1, StdArc::new(2, 2, TropicalWeight::one(), 2));
    fst.set_final(2, TropicalWeight::one());
    fst.learn_properties();
    fst
}

/// The other side, whose states are asked about.
fn other(labels: &[i32]) -> StdVectorFst {
    let mut fst = StdVectorFst::new();
    for _ in 0..2 {
        fst.add_state();
    }
    fst.set_start(0);
    for label in labels {
        fst.add_arc(
            0,
            StdArc::new(*label, *label, TropicalWeight(*label as f32), 1),
        );
    }
    fst.set_final(1, TropicalWeight::one());
    arc_sort(&mut fst, &ILabelCompare);
    fst.learn_properties();
    fst
}

/// The trivial matcher says yes without looking, which is its purpose.
#[test]
fn the_trivial_matcher_says_yes_to_everything() {
    let fst = indexed();
    let inner = SortedMatcher::new(&fst, MatchType::Output).unwrap();
    let matcher = TrivialLookAheadMatcher::new(inner);
    let elsewhere = other(&[9]);
    assert!(matcher.look_ahead(2, &elsewhere, 0).reachable);
    assert!(matcher.look_ahead_label(2, 99));
}

/// The label matcher answers from the index: which label can be read
/// *next*, after any epsilons. That is the question composition asks,
/// namely whether the arc about to be taken can meet anything, rather than
/// whether the label turns up somewhere further on.
#[test]
fn the_label_matcher_answers_from_the_index() {
    let fst = indexed();
    let inner = SortedMatcher::new(&fst, MatchType::Input).unwrap();
    let matcher = LabelLookAheadMatcher::new(
        &fst,
        inner,
        MatchType::Input,
        DEFAULT_LABEL_LOOKAHEAD_FLAGS | INPUT_LOOKAHEAD_MATCHER,
        DefaultAccumulator,
    )
    .unwrap();

    assert!(matcher.look_ahead_label(0, 1));
    assert!(
        !matcher.look_ahead_label(0, 2),
        "2 comes after 1, so it is not what is read next"
    );
    assert!(!matcher.look_ahead_label(0, 9));

    assert!(!matcher.look_ahead_label(1, 1), "1 is behind, not next");
    assert!(matcher.look_ahead_label(1, 2));

    assert!(!matcher.look_ahead_label(2, 1));
    assert!(!matcher.look_ahead_label(2, 2));
}

/// Looking ahead against another FST's state finds whether anything there
/// can be matched.
#[test]
fn looking_ahead_against_another_state_finds_what_can_match() {
    let fst = indexed();
    let inner = SortedMatcher::new(&fst, MatchType::Input).unwrap();
    let matcher = LabelLookAheadMatcher::new(
        &fst,
        inner,
        MatchType::Input,
        DEFAULT_LABEL_LOOKAHEAD_FLAGS | INPUT_LOOKAHEAD_MATCHER,
        DefaultAccumulator,
    )
    .unwrap();

    // From state 0, label 1 is what comes next; label 9 is not.
    let reachable = other(&[1, 9]);
    assert!(matcher.look_ahead(0, &reachable, 0).reachable);

    let unreachable = other(&[9]);
    assert!(!matcher.look_ahead(0, &unreachable, 0).reachable);

    // From state 2 nothing is ahead at all.
    assert!(!matcher.look_ahead(2, &reachable, 0).reachable);
}

/// Exactly one way forward is reported as the arc that has to be taken.
#[test]
fn one_way_forward_is_reported_as_a_prefix() {
    let fst = indexed();
    let inner = SortedMatcher::new(&fst, MatchType::Input).unwrap();
    let matcher = LabelLookAheadMatcher::new(
        &fst,
        inner,
        MatchType::Input,
        DEFAULT_LABEL_LOOKAHEAD_FLAGS | INPUT_LOOKAHEAD_MATCHER,
        DefaultAccumulator,
    )
    .unwrap();

    // Only label 1 of these can be matched from state 0.
    let one_way = other(&[1, 9]);
    let found = matcher.look_ahead(0, &one_way, 0);
    assert!(found.reachable);
    assert_eq!(
        found.prefix.map(|arc| arc.ilabel),
        Some(1),
        "the one arc that can be taken"
    );
}

/// The arc matcher needs no index, and finds the same answers.
#[test]
fn the_arc_matcher_agrees_without_an_index() {
    let fst = indexed();
    let inner = SortedMatcher::new(&fst, MatchType::Input).unwrap();
    let matcher = ArcLookAheadMatcher::with_flags(
        &fst,
        inner,
        LOOKAHEAD_WEIGHT | LOOKAHEAD_PREFIX | LOOKAHEAD_NON_EPSILONS,
    );

    // From state 0 the matcher can take label 1.
    assert!(matcher.look_ahead(0, &other(&[1, 9]), 0).reachable);

    assert!(
        !matcher.look_ahead(0, &other(&[9]), 0).reachable,
        "nothing at state 0 carries 9"
    );

    // And it agrees with the index that 2 is not what comes next from
    // state 0.
    assert!(!matcher.look_ahead(0, &other(&[2]), 0).reachable);
}

/// What was found weighs what the arcs that matched weigh: a sum starting
/// from `Zero`, not from `One`.
///
/// Accumulating from `One` would make the answer `min(0, ...)` over the tropical
/// semiring, which is `One` for every non-negative future and so says nothing.
#[test]
fn what_was_found_weighs_what_it_weighs() {
    let fst = indexed();
    let inner = SortedMatcher::new(&fst, MatchType::Output).unwrap();
    // No prefix: with a single way forward the arc is reported instead, and
    // its weight deliberately left off so as not to count it twice.
    let matcher =
        ArcLookAheadMatcher::with_flags(&fst, inner, LOOKAHEAD_WEIGHT | LOOKAHEAD_NON_EPSILONS);
    // From state 0 the only match is label 1, which the other side carries
    // at weight 1 and this side at weight 0.
    let found = matcher.look_ahead(0, &other(&[1, 9]), 0);
    assert!(found.reachable);
    assert_eq!(found.weight, TropicalWeight(1.0));

    // Nothing found says nothing about weight.
    let found = matcher.look_ahead(0, &other(&[9]), 0);
    assert!(!found.reachable);
    assert_eq!(found.weight, TropicalWeight::one());
}

/// The flags have to name exactly one side to index.
#[test]
fn the_flags_have_to_name_one_side() {
    let fst = indexed();
    let inner = || SortedMatcher::new(&fst, MatchType::Input).unwrap();
    let Err(err) = LabelLookAheadMatcher::new(
        &fst,
        inner(),
        MatchType::Input,
        DEFAULT_LABEL_LOOKAHEAD_FLAGS,
        DefaultAccumulator,
    ) else {
        panic!("naming neither side has to be refused")
    };
    assert!(err.message().contains("exactly one"), "{}", err.message());

    assert!(
        LabelLookAheadMatcher::new(
            &fst,
            inner(),
            MatchType::Input,
            DEFAULT_LABEL_LOOKAHEAD_FLAGS | INPUT_LOOKAHEAD_MATCHER | OUTPUT_LOOKAHEAD_MATCHER,
            DefaultAccumulator,
        )
        .is_err()
    );
}
