#![allow(dead_code)]

use sicada::arc::Arc;
use sicada::compose::{ComposeOptions, compose, compose_options};
use sicada::compose_lookahead::compose_lookahead;
use sicada::connect::connect;
use sicada::properties::{K_ACCEPTOR, K_ACCESSIBLE, K_ACYCLIC, K_CO_ACCESSIBLE, K_CYCLIC, K_EPSILONS, K_FST_PROPERTIES, K_INITIAL_ACYCLIC, K_INITIAL_CYCLIC, K_I_DETERMINISTIC, K_I_EPSILONS, K_I_LABEL_SORTED, K_NON_I_DETERMINISTIC, K_NON_O_DETERMINISTIC, K_NOT_ACCEPTOR, K_NOT_ACCESSIBLE, K_NOT_CO_ACCESSIBLE, K_NOT_I_LABEL_SORTED, K_NOT_O_LABEL_SORTED, K_NOT_STRING, K_NOT_TOP_SORTED, K_NO_EPSILONS, K_NO_I_EPSILONS, K_NO_O_EPSILONS, K_O_DETERMINISTIC, K_O_EPSILONS, K_O_LABEL_SORTED, K_STRING, K_TOP_SORTED, K_UNWEIGHTED, K_UNWEIGHTED_CYCLES, K_WEIGHTED, K_WEIGHTED_CYCLES};
use sicada::rmepsilon::rm_epsilon;
use sicada::vector_fst::VectorFst;
use sicada::weight::{COMMUTATIVE, IDEMPOTENT, LEFT_SEMIRING, PATH, RIGHT_SEMIRING, Weight};

/// The tropical semiring: the least weight wins, and weights along a path add up.
#[derive(Clone, Copy, Debug, PartialEq, PartialOrd)]
struct TropicalWeight(f32);

impl TropicalWeight {
    fn new(value: f32) -> Self {
        TropicalWeight(value)
    }

    fn value(&self) -> f32 {
        self.0
    }
}

impl Weight for TropicalWeight {
    type Delta = f32;

    fn spec_zero() -> Self {
        unreachable!()
    }

    fn spec_one() -> Self {
        unreachable!()
    }

    fn spec_no_weight() -> Self {
        unreachable!()
    }

    fn spec_plus(self, _other: Self) -> Self {
        unreachable!()
    }

    fn spec_times(self, _other: Self) -> Self {
        unreachable!()
    }

    fn spec_member(self) -> bool {
        unreachable!()
    }

    fn spec_approx(self, _other: Self, _delta: f32) -> bool {
        unreachable!()
    }

    fn spec_quantize(self, _delta: f32) -> Self {
        unreachable!()
    }

    fn spec_hash_word(self) -> u64 {
        unreachable!()
    }

    fn spec_properties() -> u64 {
        unreachable!()
    }

    fn spec_default_delta() -> f32 {
        unreachable!()
    }

    fn zero() -> Self {
        TropicalWeight(f32::INFINITY)
    }

    fn one() -> Self {
        TropicalWeight(0.0)
    }

    fn no_weight() -> Self {
        TropicalWeight(f32::NAN)
    }

    fn plus(&self, other: &Self) -> Self {
        if !self.is_member() || !other.is_member() {
            return Self::no_weight();
        }
        TropicalWeight(self.0.min(other.0))
    }

    fn times(&self, other: &Self) -> Self {
        if !self.is_member() || !other.is_member() {
            return Self::no_weight();
        }
        TropicalWeight(self.0 + other.0)
    }

    fn duplicate(&self) -> Self {
        *self
    }

    fn same(&self, other: &Self) -> bool {
        self.0 == other.0
    }

    fn is_member(&self) -> bool {
        !self.0.is_nan() && self.0 != f32::NEG_INFINITY
    }

    fn approx_equal(&self, other: &Self, delta: &f32) -> bool {
        self.0 <= other.0 + delta && other.0 <= self.0 + delta
    }

    fn quantize(&self, delta: &f32) -> Self {
        if self.0.is_finite() {
            TropicalWeight((self.0 / delta + 0.5).floor() * delta)
        } else {
            *self
        }
    }

    fn hash_word(&self) -> u64 {
        self.0.to_bits() as u64
    }

    fn properties() -> u64 {
        LEFT_SEMIRING | RIGHT_SEMIRING | COMMUTATIVE | IDEMPOTENT | PATH
    }

    fn default_delta() -> f32 {
        1.0 / 1024.0
    }
}

/// An arc whose weight is tropical.
#[derive(Clone, Copy, Debug, PartialEq)]
struct StdArc {
    ilabel: i32,
    olabel: i32,
    weight: TropicalWeight,
    nextstate: i32,
}

impl StdArc {
    fn new(ilabel: i32, olabel: i32, weight: TropicalWeight, nextstate: i32) -> Self {
        StdArc { ilabel, olabel, weight, nextstate }
    }

    fn of(arc: &Arc<TropicalWeight>) -> Self {
        StdArc::new(arc.ilabel, arc.olabel, arc.weight, arc.nextstate as i32)
    }

    fn raw(&self) -> Arc<TropicalWeight> {
        Arc::new(self.ilabel, self.olabel, self.weight, self.nextstate as usize)
    }

    fn ilabel(&self) -> i32 {
        self.ilabel
    }

    fn olabel(&self) -> i32 {
        self.olabel
    }

    fn weight(&self) -> TropicalWeight {
        self.weight
    }

    fn nextstate(&self) -> i32 {
        self.nextstate
    }
}

/// A machine over tropical weights, with states counted by `i32`.
struct StdVectorFst(VectorFst<TropicalWeight>);

impl std::ops::Deref for StdVectorFst {
    type Target = VectorFst<TropicalWeight>;

    fn deref(&self) -> &VectorFst<TropicalWeight> {
        &self.0
    }
}

impl std::ops::DerefMut for StdVectorFst {
    fn deref_mut(&mut self) -> &mut VectorFst<TropicalWeight> {
        &mut self.0
    }
}

impl Clone for StdVectorFst {
    fn clone(&self) -> Self {
        StdVectorFst(self.0.duplicate())
    }
}

impl StdVectorFst {
    fn new() -> Self {
        StdVectorFst(VectorFst::new())
    }

    fn add_state(&mut self) -> i32 {
        self.0.add_state() as i32
    }

    fn set_start(&mut self, s: i32) {
        self.0.set_start(s as usize);
    }

    fn start(&self) -> Option<i32> {
        self.0.start().map(|s| s as i32)
    }

    fn set_final(&mut self, s: i32, weight: TropicalWeight) {
        self.0.set_final(s as usize, weight);
    }

    fn final_weight(&self, s: i32) -> TropicalWeight {
        self.0.final_weight(s as usize)
    }

    fn add_arc(&mut self, s: i32, arc: StdArc) {
        self.0.add_arc(s as usize, arc.raw());
    }

    fn states(&self) -> std::ops::Range<i32> {
        0..self.0.num_states() as i32
    }

    fn arcs(&self, s: i32) -> std::vec::IntoIter<StdArc> {
        let arcs: Vec<StdArc> = self.0.arcs(s as usize).iter().map(StdArc::of).collect();
        arcs.into_iter()
    }

    fn num_arcs(&self, s: i32) -> usize {
        self.0.num_arcs(s as usize)
    }

    fn delete_arcs(&mut self, s: i32) {
        self.0.delete_arcs(s as usize);
    }

    fn mutate_arcs(&mut self, s: i32, change: impl Fn(&mut StdArc)) {
        let mut arcs: Vec<StdArc> = self.arcs(s).collect();
        for arc in &mut arcs {
            change(arc);
        }
        self.0.set_arcs(s as usize, arcs.iter().map(StdArc::raw).collect());
    }

    /// What holds of the machine, read off its states and arcs where `test` says so.
    fn properties(&self, mask: u64, test: bool) -> u64 {
        if test {
            compute_properties(&self.0) & mask
        } else {
            self.0.known_properties(mask)
        }
    }

    /// Reads off the machine what holds of it, and keeps that with it.
    fn learn_properties(&mut self) {
        let props = compute_properties(&self.0);
        self.0.set_properties(props, K_FST_PROPERTIES);
    }
}

/// Every property of a machine that can be read off its states and arcs.
fn compute_properties<W: Weight>(fst: &VectorFst<W>) -> u64 {
    let n = fst.num_states();
    let one = W::one();
    let zero = W::zero();
    let mut props = 0u64;
    let mut reach = vec![vec![false; n]; n];
    for s in 0..n {
        for arc in fst.arcs(s) {
            reach[s][arc.nextstate] = true;
        }
    }
    for k in 0..n {
        for i in 0..n {
            if reach[i][k] {
                for j in 0..n {
                    if reach[k][j] {
                        reach[i][j] = true;
                    }
                }
            }
        }
    }
    let start = fst.start();
    let arcs: Vec<(usize, &Arc<W>)> =
        (0..n).flat_map(|s| fst.arcs(s).iter().map(move |arc| (s, arc))).collect();
    let repeats = |label: fn(&Arc<W>) -> i32| {
        (0..n).any(|s| {
            let mut labels: Vec<i32> = fst.arcs(s).iter().map(label).collect();
            labels.sort();
            labels.windows(2).any(|pair| pair[0] == pair[1])
        })
    };
    let falls = |label: fn(&Arc<W>) -> i32| {
        (0..n).any(|s| fst.arcs(s).windows(2).any(|pair| label(&pair[0]) > label(&pair[1])))
    };
    let mut set = |holds: bool, yes: u64, no: u64| {
        props |= if holds { yes } else { no };
    };
    set(arcs.iter().all(|(_, a)| a.ilabel == a.olabel), K_ACCEPTOR, K_NOT_ACCEPTOR);
    set(!repeats(|a| a.ilabel), K_I_DETERMINISTIC, K_NON_I_DETERMINISTIC);
    set(!repeats(|a| a.olabel), K_O_DETERMINISTIC, K_NON_O_DETERMINISTIC);
    set(arcs.iter().any(|(_, a)| a.ilabel == 0 && a.olabel == 0), K_EPSILONS, K_NO_EPSILONS);
    set(arcs.iter().any(|(_, a)| a.ilabel == 0), K_I_EPSILONS, K_NO_I_EPSILONS);
    set(arcs.iter().any(|(_, a)| a.olabel == 0), K_O_EPSILONS, K_NO_O_EPSILONS);
    set(!falls(|a| a.ilabel), K_I_LABEL_SORTED, K_NOT_I_LABEL_SORTED);
    set(!falls(|a| a.olabel), K_O_LABEL_SORTED, K_NOT_O_LABEL_SORTED);
    let weighted = arcs.iter().any(|(_, a)| !a.weight.same(&one) && !a.weight.same(&zero))
        || (0..n).any(|s| {
            let w = fst.final_weight(s);
            !w.same(&one) && !w.same(&zero)
        });
    set(weighted, K_WEIGHTED, K_UNWEIGHTED);
    let has_cycle = (0..n).any(|s| reach[s][s]);
    set(has_cycle, K_CYCLIC, K_ACYCLIC);
    let initial_cycle = start.is_some_and(|s| reach[s][s]);
    set(initial_cycle, K_INITIAL_CYCLIC, K_INITIAL_ACYCLIC);
    set(arcs.iter().all(|(s, a)| a.nextstate > *s), K_TOP_SORTED, K_NOT_TOP_SORTED);
    let seen = |s: usize| start.is_some_and(|i| i == s || reach[i][s]);
    let ends = |s: usize| (0..n).any(|t| fst.is_final(t) && (s == t || reach[s][t]));
    set((0..n).all(seen), K_ACCESSIBLE, K_NOT_ACCESSIBLE);
    set((0..n).all(ends), K_CO_ACCESSIBLE, K_NOT_CO_ACCESSIBLE);
    let string = start.map_or(n == 0, |i| i == 0)
        && (0..n).all(|s| {
            if fst.is_final(s) {
                fst.num_arcs(s) == 0 && s + 1 == n
            } else {
                fst.num_arcs(s) == 1 && fst.arcs(s)[0].nextstate == s + 1
            }
        });
    set(string, K_STRING, K_NOT_STRING);
    let weighted_cycle =
        arcs.iter().any(|(s, a)| {
            !a.weight.same(&one) && !a.weight.same(&zero) && (a.nextstate == *s || reach[a.nextstate][*s])
        });
    set(weighted_cycle, K_WEIGHTED_CYCLES, K_UNWEIGHTED_CYCLES);
    props
}

/// A small generator of repeatable numbers.
struct Rng(u64);

impl Rng {
    fn new(seed: u64) -> Self {
        Rng(seed.wrapping_mul(0x9E37_79B9_7F4A_7C15) | 1)
    }

    fn next(&mut self) -> u64 {
        self.0 ^= self.0 << 13;
        self.0 ^= self.0 >> 7;
        self.0 ^= self.0 << 17;
        self.0
    }

    /// A number less than `bound`.
    fn below(&mut self, bound: usize) -> usize {
        ((self.next() >> 11) % bound as u64) as usize
    }
}

/// An acceptor with no cycle, in which every state but the last has an arc on.
fn random_acyclic_fst(rng: &mut Rng, states: usize) -> StdVectorFst {
    let mut fst = StdVectorFst::new();
    for _ in 0..states {
        fst.add_state();
    }
    fst.set_start(0);
    for s in 0..states - 1 {
        let arcs = 1 + rng.below(3);
        for _ in 0..arcs {
            let next = s + 1 + rng.below(states - 1 - s);
            let label = 1 + rng.below(3) as i32;
            let weight = TropicalWeight::new(rng.below(5) as f32);
            fst.add_arc(s as i32, StdArc::new(label, label, weight, next as i32));
        }
        if rng.below(4) == 0 {
            fst.set_final(s as i32, TropicalWeight::new(rng.below(5) as f32));
        }
    }
    fst.set_final(states as i32 - 1, TropicalWeight::new(rng.below(5) as f32));
    fst.learn_properties();
    fst
}

/// Every successful path of at most `limit` arcs: its two label strings and its weight.
fn paths(fst: &StdVectorFst, limit: usize) -> Vec<(Vec<i32>, Vec<i32>, TropicalWeight)> {
    let mut found = Vec::new();
    let mut open = Vec::new();
    if let Some(start) = fst.start() {
        open.push((start, Vec::new(), Vec::new(), TropicalWeight::one(), 0usize));
    }
    while let Some((s, input, output, weight, length)) = open.pop() {
        let end = fst.final_weight(s);
        if end != TropicalWeight::zero() {
            found.push((input.clone(), output.clone(), weight.times(&end)));
        }
        if length < limit {
            for arc in fst.arcs(s) {
                let mut input: Vec<i32> = input.clone();
                let mut output: Vec<i32> = output.clone();
                input.push(arc.ilabel());
                output.push(arc.olabel());
                open.push((arc.nextstate(), input, output, weight.times(&arc.weight()), length + 1));
            }
        }
    }
    found
}

/// The same paths with the epsilons taken out of their strings.
fn visible_paths(fst: &StdVectorFst, limit: usize) -> Vec<(Vec<i32>, Vec<i32>, TropicalWeight)> {
    let seen = |labels: Vec<i32>| labels.into_iter().filter(|label| *label != 0).collect();
    paths(fst, limit).into_iter().map(|(i, o, w)| (seen(i), seen(o), w)).collect()
}

/// What each pair of strings weighs: the sum over the paths that spell it.
fn string_weights(
    paths: Vec<(Vec<i32>, Vec<i32>, TropicalWeight)>,
) -> Vec<(Vec<i32>, Vec<i32>, String)> {
    let mut total: std::collections::BTreeMap<(Vec<i32>, Vec<i32>), TropicalWeight> =
        std::collections::BTreeMap::new();
    for (input, output, weight) in paths {
        let entry = total.entry((input, output)).or_insert(TropicalWeight::zero());
        *entry = entry.plus(&weight);
    }
    total.into_iter().map(|((i, o), w)| (i, o, format!("{:.4}", w.value()))).collect()
}

/// An acyclic acceptor over a small alphabet, one arc in four carrying no
/// label: the shape a look-ahead filter is meant for, and the one that has
/// epsilons for it to look past.
fn epsilon_acceptor(
    rng: &mut Rng,
    states: usize,
) -> StdVectorFst {
    let mut fst = StdVectorFst::new();
    for _ in 0..states {
        fst.add_state();
    }
    fst.set_start(0);
    for s in 0..states {
        for _ in 0..3 {
            let draw = rng.below(4);
            let label = if draw == 0 { 0 } else { draw as i32 };
            let room = states - s - 1;
            if room == 0 {
                continue;
            }
            let next = s + 1 + rng.below(room);
            fst.add_arc(
                s as i32,
                StdArc::new(label, label, TropicalWeight::one(), next as i32),
            );
        }
        if s % 3 == 0 {
            fst.set_final(s as i32, TropicalWeight::one());
        }
    }
    fst.learn_properties();
    fst
}

/// Looking ahead gives the same answer as not looking ahead.
///
/// That is the contract: the index only lets composition skip pairs it
/// would have built and then thrown away. The second FST has its epsilons
/// removed first, as the entry point requires; see the next test for why.
#[test]
fn looking_ahead_composes_to_the_same_fst() {
    let mut rng = Rng::new(0x_C0FFEE);
    for round in 0..40 {
        let first = epsilon_acceptor(&mut rng, 60);
        let mut second = epsilon_acceptor(&mut rng, 60);
        rm_epsilon(&mut second, true, &TropicalWeight::default_delta()).expect("epsilons removed");

        let mut plain = StdVectorFst::new();
        compose(&first, &second, &mut plain).expect("a composition");

        let mut ahead = StdVectorFst::new();
        compose_lookahead(&first, &second, &mut ahead).expect("a composition");

        assert_eq!(
            string_weights(visible_paths(&plain, 12)),
            string_weights(visible_paths(&ahead, 12)),
            "round {round}"
        );
    }
}

/// A second argument with input epsilons is refused rather than quietly
/// composed short.
///
/// The index says which label the first FST can read next; an epsilon on
/// the other side is not a label, so a state whose only way on is its own
/// epsilon reads as a dead end. Measured on 90000 state pairs of two
/// 300-state acceptors, 2686 pairs were refused that should not have been.
#[test]
fn a_second_argument_with_input_epsilons_is_refused() {
    let mut first = StdVectorFst::new();
    for _ in 0..2 {
        first.add_state();
    }
    first.set_start(0);
    first.set_final(1, TropicalWeight::one());
    first.add_arc(0, StdArc::new(1, 1, TropicalWeight::one(), 1));
    first.learn_properties();

    let mut second = StdVectorFst::new();
    for _ in 0..3 {
        second.add_state();
    }
    second.set_start(0);
    second.set_final(2, TropicalWeight::one());
    second.add_arc(0, StdArc::new(0, 0, TropicalWeight::one(), 1));
    second.add_arc(1, StdArc::new(1, 1, TropicalWeight::one(), 2));
    second.learn_properties();

    let mut out = StdVectorFst::new();
    let Err(err) = compose_lookahead(&first, &second, &mut out) else {
        panic!("an input epsilon on the second side is not something to look past")
    };
    assert!(err.message().contains("input epsilons"), "{}", err.message());

    // Plain composition has no such requirement.
    let mut out = StdVectorFst::new();
    compose(&first, &second, &mut out).expect("a composition");
    assert!(out.num_states() > 0);
}

/// Composition builds a state for every pair it can reach, and most of them
/// lead nowhere; they are not part of the answer.
#[test]
fn the_pairs_that_lead_nowhere_are_not_in_the_answer() {
    // 0 -1-> 1 -2-> 2(final), against 0 -1-> 1 -3-> 2(final): the pair
    // reached by label 1 exists but can never finish.
    let mut fst1 = StdVectorFst::new();
    for _ in 0..3 {
        fst1.add_state();
    }
    fst1.set_start(0);
    fst1.add_arc(0, StdArc::new(1, 1, TropicalWeight::one(), 1));
    fst1.add_arc(1, StdArc::new(2, 2, TropicalWeight::one(), 2));
    fst1.set_final(2, TropicalWeight::one());
    fst1.learn_properties();

    let mut fst2 = StdVectorFst::new();
    for _ in 0..3 {
        fst2.add_state();
    }
    fst2.set_start(0);
    fst2.add_arc(0, StdArc::new(1, 1, TropicalWeight::one(), 1));
    fst2.add_arc(1, StdArc::new(3, 3, TropicalWeight::one(), 2));
    fst2.set_final(2, TropicalWeight::one());
    fst2.learn_properties();

    let mut connected = StdVectorFst::new();
    compose(&fst1, &fst2, &mut connected).unwrap();
    assert_eq!(
        connected.num_states(),
        0,
        "nothing composes, so there is nothing to keep"
    );

    let mut whole = StdVectorFst::new();
    compose_options(&fst1, &fst2, &mut whole, &ComposeOptions { connect: false }).unwrap();
    assert!(
        whole.num_states() > 0,
        "without connecting, the pairs it had to build to find out are still there"
    );
    connect(&mut whole);
    assert_eq!(whole.num_states(), 0, "and connecting is what removes them");
}

/// A transducer over the given (input, output, weight) arcs in a chain.
fn chain(arcs: &[(i32, i32, f32)]) -> StdVectorFst {
    let mut fst = StdVectorFst::new();
    let mut state = fst.add_state();
    fst.set_start(state);
    for (ilabel, olabel, weight) in arcs {
        let next = fst.add_state();
        fst.add_arc(
            state,
            StdArc::new(*ilabel, *olabel, TropicalWeight(*weight), next),
        );
        state = next;
    }
    fst.set_final(state, TropicalWeight::one());
    fst.learn_properties();
    fst
}

fn composed(fst1: &StdVectorFst, fst2: &StdVectorFst) -> StdVectorFst {
    let mut out = StdVectorFst::new();
    compose(fst1, fst2, &mut out).unwrap();
    out
}

/// What a transducer transduces, epsilons dropped.
fn transduction(fst: &StdVectorFst) -> Vec<(Vec<i32>, Vec<i32>, String)> {
    string_weights(visible_paths(fst, 16))
}

/// Composing what one writes into what the other reads.
#[test]
fn composition_runs_one_output_into_the_others_input() {
    // a:b then b:c gives a:c.
    let first = chain(&[(1, 2, 1.0)]);
    let second = chain(&[(2, 3, 2.0)]);
    assert_eq!(
        transduction(&composed(&first, &second)),
        vec![(vec![1], vec![3], "3.0000".to_string())]
    );
}

/// Where the two do not meet, nothing comes out.
#[test]
fn nothing_comes_out_when_the_labels_do_not_meet() {
    let first = chain(&[(1, 2, 0.0)]);
    let second = chain(&[(9, 3, 0.0)]);
    assert!(transduction(&composed(&first, &second)).is_empty());
}

/// Composing with the identity leaves a transducer saying what it said.
#[test]
fn composing_with_the_identity_changes_nothing() {
    let first = chain(&[(1, 5, 1.0), (2, 6, 2.0)]);

    // The identity over the labels the first writes.
    let mut identity = StdVectorFst::new();
    let state = identity.add_state();
    identity.set_start(state);
    identity.set_final(state, TropicalWeight::one());
    for label in [5, 6] {
        identity.add_arc(
            state,
            StdArc::new(label, label, TropicalWeight::one(), state),
        );
    }
    identity.learn_properties();

    assert_eq!(
        transduction(&composed(&first, &identity)),
        transduction(&first)
    );
}

/// Composition is associative, which is the property everything built on it
/// relies on.
#[test]
fn composition_is_associative() {
    let a = chain(&[(1, 2, 1.0), (3, 4, 2.0)]);
    let b = chain(&[(2, 5, 4.0), (4, 6, 8.0)]);
    let c = chain(&[(5, 7, 16.0), (6, 8, 32.0)]);

    let left = composed(&composed(&a, &b), &c);
    let right = composed(&a, &composed(&b, &c));
    assert_eq!(transduction(&left), transduction(&right));
    assert_eq!(
        transduction(&left),
        vec![(vec![1, 3], vec![7, 8], "63.0000".to_string())]
    );
}

/// An epsilon on the meeting side is followed on its own, and the filter
/// makes sure the path is found once rather than once per order.
#[test]
fn an_epsilon_on_the_meeting_side_is_followed_alone() {
    // a:eps then b:c, against c:d. The epsilon has nothing to meet, so it
    // is taken by itself.
    let first = chain(&[(1, 0, 1.0), (2, 3, 2.0)]);
    let second = chain(&[(3, 4, 4.0)]);
    assert_eq!(
        transduction(&composed(&first, &second)),
        vec![(vec![1, 2], vec![4], "7.0000".to_string())]
    );
}

/// Epsilons on both sides are taken in one order only, so the path is
/// counted once.
#[test]
fn epsilons_on_both_sides_do_not_double_a_path() {
    // first writes eps then b; second reads eps then b.
    let first = chain(&[(1, 0, 0.0), (2, 3, 0.0)]);
    let second = chain(&[(0, 7, 0.0), (3, 8, 0.0)]);
    let out = composed(&first, &second);
    let paths = transduction(&out);
    assert_eq!(paths.len(), 1, "{paths:?}");
    assert_eq!(paths[0].0, vec![1, 2]);
}

/// An FST with no start state composes to nothing.
#[test]
fn composing_with_nothing_gives_nothing() {
    let first = chain(&[(1, 2, 0.0)]);
    let empty = StdVectorFst::new();
    assert_eq!(composed(&first, &empty).num_states(), 0);
    assert_eq!(composed(&empty, &first).num_states(), 0);
}

/// The result transduces exactly what running one into the other does,
/// checked against pairing up the two FSTs' paths by hand.
#[test]
fn the_result_is_what_running_one_into_the_other_gives() {
    let mut rng = Rng::new(0x0C0F_0FE5_u64);
    let mut checked = 0;
    for round in 0..200 {
        // Two acyclic transducers over a small alphabet, so their paths can
        // be paired up directly.
        let make = |rng: &mut Rng, shift: i32| {
            let mut fst = random_acyclic_fst(rng, 5);
            let states: Vec<i32> = fst.states().collect();
            for state in states {
                fst.mutate_arcs(state, |arc| {
                    *arc = StdArc::new(
                        arc.ilabel(),
                        arc.ilabel() + shift,
                        arc.weight(),
                        arc.nextstate(),
                    );
                });
            }
            fst.learn_properties();
            fst
        };
        let first = make(&mut rng, 0);
        // The second reads what the first writes.
        let second = make(&mut rng, 10);

        // By hand: every pair of paths whose meeting strings agree.
        let mut want: std::collections::BTreeMap<(Vec<i32>, Vec<i32>), f32> =
            std::collections::BTreeMap::new();
        for (i1, o1, w1) in visible_paths(&first, 12) {
            for (i2, o2, w2) in visible_paths(&second, 12) {
                if o1 != i2 {
                    continue;
                }
                let weight = w1.value() + w2.value();
                want.entry((i1.clone(), o2))
                    .and_modify(|at| *at = at.min(weight))
                    .or_insert(weight);
            }
        }
        let want: Vec<(Vec<i32>, Vec<i32>, String)> = want
            .into_iter()
            .map(|((i, o), w)| (i, o, format!("{w:.4}")))
            .collect();
        if !want.is_empty() {
            checked += 1;
        }

        assert_eq!(
            transduction(&composed(&first, &second)),
            want,
            "round {round}"
        );
    }
    assert!(checked > 20, "only {checked} compositions said anything");
}
