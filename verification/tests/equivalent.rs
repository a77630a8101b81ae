#![allow(dead_code)]

use sicada::arc::Arc;
use sicada::determinize::{DeterminizeOptions, determinize};
use sicada::equivalent::equivalent;
use sicada::properties::{K_ACCEPTOR, K_ACCESSIBLE, K_ACYCLIC, K_CO_ACCESSIBLE, K_CYCLIC, K_EPSILONS, K_FST_PROPERTIES, K_INITIAL_ACYCLIC, K_INITIAL_CYCLIC, K_I_DETERMINISTIC, K_I_EPSILONS, K_I_LABEL_SORTED, K_NON_I_DETERMINISTIC, K_NON_O_DETERMINISTIC, K_NOT_ACCEPTOR, K_NOT_ACCESSIBLE, K_NOT_CO_ACCESSIBLE, K_NOT_I_LABEL_SORTED, K_NOT_O_LABEL_SORTED, K_NOT_STRING, K_NOT_TOP_SORTED, K_NO_EPSILONS, K_NO_I_EPSILONS, K_NO_O_EPSILONS, K_O_DETERMINISTIC, K_O_EPSILONS, K_O_LABEL_SORTED, K_STRING, K_TOP_SORTED, K_UNWEIGHTED, K_UNWEIGHTED_CYCLES, K_WEIGHTED, K_WEIGHTED_CYCLES};
use sicada::rmepsilon::rm_epsilon;
use sicada::vector_fst::VectorFst;
use sicada::weight::{COMMUTATIVE, Divide, DivideType, IDEMPOTENT, LEFT_SEMIRING, PATH, RIGHT_SEMIRING, Weight};

/// The tropical semiring: the least weight wins, and weights along a path add up.
#[derive(Clone, Copy, Debug, PartialEq, PartialOrd)]
struct TropicalWeight(f32);

impl TropicalWeight {
    fn new(value: f32) -> Self {
        TropicalWeight(value)
    }

    fn value(&self) -> f32 {
        self.0
    }
}

impl Weight for TropicalWeight {
    type Delta = f32;

    fn spec_zero() -> Self {
        unreachable!()
    }

    fn spec_one() -> Self {
        unreachable!()
    }

    fn spec_no_weight() -> Self {
        unreachable!()
    }

    fn spec_plus(self, _other: Self) -> Self {
        unreachable!()
    }

    fn spec_times(self, _other: Self) -> Self {
        unreachable!()
    }

    fn spec_member(self) -> bool {
        unreachable!()
    }

    fn spec_approx(self, _other: Self, _delta: f32) -> bool {
        unreachable!()
    }

    fn spec_quantize(self, _delta: f32) -> Self {
        unreachable!()
    }

    fn spec_hash_word(self) -> u64 {
        unreachable!()
    }

    fn spec_properties() -> u64 {
        unreachable!()
    }

    fn spec_default_delta() -> f32 {
        unreachable!()
    }

    fn zero() -> Self {
        TropicalWeight(f32::INFINITY)
    }

    fn one() -> Self {
        TropicalWeight(0.0)
    }

    fn no_weight() -> Self {
        TropicalWeight(f32::NAN)
    }

    fn plus(&self, other: &Self) -> Self {
        if !self.is_member() || !other.is_member() {
            return Self::no_weight();
        }
        TropicalWeight(self.0.min(other.0))
    }

    fn times(&self, other: &Self) -> Self {
        if !self.is_member() || !other.is_member() {
            return Self::no_weight();
        }
        TropicalWeight(self.0 + other.0)
    }

    fn duplicate(&self) -> Self {
        *self
    }

    fn same(&self, other: &Self) -> bool {
        self.0 == other.0
    }

    fn is_member(&self) -> bool {
        !self.0.is_nan() && self.0 != f32::NEG_INFINITY
    }

    fn approx_equal(&self, other: &Self, delta: &f32) -> bool {
        self.0 <= other.0 + delta && other.0 <= self.0 + delta
    }

    fn quantize(&self, delta: &f32) -> Self {
        if self.0.is_finite() {
            TropicalWeight((self.0 / delta + 0.5).floor() * delta)
        } else {
            *self
        }
    }

    fn hash_word(&self) -> u64 {
        self.0.to_bits() as u64
    }

    fn properties() -> u64 {
        LEFT_SEMIRING | RIGHT_SEMIRING | COMMUTATIVE | IDEMPOTENT | PATH
    }

    fn default_delta() -> f32 {
        1.0 / 1024.0
    }
}

impl Divide for TropicalWeight {
    fn spec_divide(self, _divisor: Self, _side: DivideType) -> Self {
        unreachable!()
    }

    fn divide(&self, divisor: &Self, _side: DivideType) -> Self {
        if !self.is_member() || !divisor.is_member() || divisor.0 == f32::INFINITY {
            Self::no_weight()
        } else if self.0 == f32::INFINITY {
            Self::zero()
        } else {
            TropicalWeight(self.0 - divisor.0)
        }
    }
}

/// An arc whose weight is tropical.
#[derive(Clone, Copy, Debug, PartialEq)]
struct StdArc {
    ilabel: i32,
    olabel: i32,
    weight: TropicalWeight,
    nextstate: i32,
}

impl StdArc {
    fn new(ilabel: i32, olabel: i32, weight: TropicalWeight, nextstate: i32) -> Self {
        StdArc { ilabel, olabel, weight, nextstate }
    }

    fn of(arc: &Arc<TropicalWeight>) -> Self {
        StdArc::new(arc.ilabel, arc.olabel, arc.weight, arc.nextstate as i32)
    }

    fn raw(&self) -> Arc<TropicalWeight> {
        Arc::new(self.ilabel, self.olabel, self.weight, self.nextstate as usize)
    }

    fn ilabel(&self) -> i32 {
        self.ilabel
    }

    fn olabel(&self) -> i32 {
        self.olabel
    }

    fn weight(&self) -> TropicalWeight {
        self.weight
    }

    fn nextstate(&self) -> i32 {
        self.nextstate
    }
}

/// A machine over tropical weights, with states counted by `i32`.
struct StdVectorFst(VectorFst<TropicalWeight>);

impl std::ops::Deref for StdVectorFst {
    type Target = VectorFst<TropicalWeight>;

    fn deref(&self) -> &VectorFst<TropicalWeight> {
        &self.0
    }
}

impl std::ops::DerefMut for StdVectorFst {
    fn deref_mut(&mut self) -> &mut VectorFst<TropicalWeight> {
        &mut self.0
    }
}

impl Clone for StdVectorFst {
    fn clone(&self) -> Self {
        StdVectorFst(self.0.duplicate())
    }
}

impl StdVectorFst {
    fn new() -> Self {
        StdVectorFst(VectorFst::new())
    }

    fn add_state(&mut self) -> i32 {
        self.0.add_state() as i32
    }

    fn set_start(&mut self, s: i32) {
        self.0.set_start(s as usize);
    }

    fn start(&self) -> Option<i32> {
        self.0.start().map(|s| s as i32)
    }

    fn set_final(&mut self, s: i32, weight: TropicalWeight) {
        self.0.set_final(s as usize, weight);
    }

    fn final_weight(&self, s: i32) -> TropicalWeight {
        self.0.final_weight(s as usize)
    }

    fn add_arc(&mut self, s: i32, arc: StdArc) {
        self.0.add_arc(s as usize, arc.raw());
    }

    fn states(&self) -> std::ops::Range<i32> {
        0..self.0.num_states() as i32
    }

    fn arcs(&self, s: i32) -> std::vec::IntoIter<StdArc> {
        let arcs: Vec<StdArc> = self.0.arcs(s as usize).iter().map(StdArc::of).collect();
        arcs.into_iter()
    }

    fn num_arcs(&self, s: i32) -> usize {
        self.0.num_arcs(s as usize)
    }

    fn delete_arcs(&mut self, s: i32) {
        self.0.delete_arcs(s as usize);
    }

    fn mutate_arcs(&mut self, s: i32, change: impl Fn(&mut StdArc)) {
        let mut arcs: Vec<StdArc> = self.arcs(s).collect();
        for arc in &mut arcs {
            change(arc);
        }
        self.0.set_arcs(s as usize, arcs.iter().map(StdArc::raw).collect());
    }

    /// What holds of the machine, read off its states and arcs where `test` says so.
    fn properties(&self, mask: u64, test: bool) -> u64 {
        if test {
            compute_properties(&self.0) & mask
        } else {
            self.0.known_properties(mask)
        }
    }

    /// Reads off the machine what holds of it, and keeps that with it.
    fn learn_properties(&mut self) {
        let props = compute_properties(&self.0);
        self.0.set_properties(props, K_FST_PROPERTIES);
    }
}

/// Every property of a machine that can be read off its states and arcs.
fn compute_properties<W: Weight>(fst: &VectorFst<W>) -> u64 {
    let n = fst.num_states();
    let one = W::one();
    let zero = W::zero();
    let mut props = 0u64;
    let mut reach = vec![vec![false; n]; n];
    for s in 0..n {
        for arc in fst.arcs(s) {
            reach[s][arc.nextstate] = true;
        }
    }
    for k in 0..n {
        for i in 0..n {
            if reach[i][k] {
                for j in 0..n {
                    if reach[k][j] {
                        reach[i][j] = true;
                    }
                }
            }
        }
    }
    let start = fst.start();
    let arcs: Vec<(usize, &Arc<W>)> =
        (0..n).flat_map(|s| fst.arcs(s).iter().map(move |arc| (s, arc))).collect();
    let repeats = |label: fn(&Arc<W>) -> i32| {
        (0..n).any(|s| {
            let mut labels: Vec<i32> = fst.arcs(s).iter().map(label).collect();
            labels.sort();
            labels.windows(2).any(|pair| pair[0] == pair[1])
        })
    };
    let falls = |label: fn(&Arc<W>) -> i32| {
        (0..n).any(|s| fst.arcs(s).windows(2).any(|pair| label(&pair[0]) > label(&pair[1])))
    };
    let mut set = |holds: bool, yes: u64, no: u64| {
        props |= if holds { yes } else { no };
    };
    set(arcs.iter().all(|(_, a)| a.ilabel == a.olabel), K_ACCEPTOR, K_NOT_ACCEPTOR);
    set(!repeats(|a| a.ilabel), K_I_DETERMINISTIC, K_NON_I_DETERMINISTIC);
    set(!repeats(|a| a.olabel), K_O_DETERMINISTIC, K_NON_O_DETERMINISTIC);
    set(arcs.iter().any(|(_, a)| a.ilabel == 0 && a.olabel == 0), K_EPSILONS, K_NO_EPSILONS);
    set(arcs.iter().any(|(_, a)| a.ilabel == 0), K_I_EPSILONS, K_NO_I_EPSILONS);
    set(arcs.iter().any(|(_, a)| a.olabel == 0), K_O_EPSILONS, K_NO_O_EPSILONS);
    set(!falls(|a| a.ilabel), K_I_LABEL_SORTED, K_NOT_I_LABEL_SORTED);
    set(!falls(|a| a.olabel), K_O_LABEL_SORTED, K_NOT_O_LABEL_SORTED);
    let weighted = arcs.iter().any(|(_, a)| !a.weight.same(&one) && !a.weight.same(&zero))
        || (0..n).any(|s| {
            let w = fst.final_weight(s);
            !w.same(&one) && !w.same(&zero)
        });
    set(weighted, K_WEIGHTED, K_UNWEIGHTED);
    let has_cycle = (0..n).any(|s| reach[s][s]);
    set(has_cycle, K_CYCLIC, K_ACYCLIC);
    let initial_cycle = start.is_some_and(|s| reach[s][s]);
    set(initial_cycle, K_INITIAL_CYCLIC, K_INITIAL_ACYCLIC);
    set(arcs.iter().all(|(s, a)| a.nextstate > *s), K_TOP_SORTED, K_NOT_TOP_SORTED);
    let seen = |s: usize| start.is_some_and(|i| i == s || reach[i][s]);
    let ends = |s: usize| (0..n).any(|t| fst.is_final(t) && (s == t || reach[s][t]));
    set((0..n).all(seen), K_ACCESSIBLE, K_NOT_ACCESSIBLE);
    set((0..n).all(ends), K_CO_ACCESSIBLE, K_NOT_CO_ACCESSIBLE);
    let string = start.map_or(n == 0, |i| i == 0)
        && (0..n).all(|s| {
            if fst.is_final(s) {
                fst.num_arcs(s) == 0 && s + 1 == n
            } else {
                fst.num_arcs(s) == 1 && fst.arcs(s)[0].nextstate == s + 1
            }
        });
    set(string, K_STRING, K_NOT_STRING);
    let weighted_cycle =
        arcs.iter().any(|(s, a)| {
            !a.weight.same(&one) && !a.weight.same(&zero) && (a.nextstate == *s || reach[a.nextstate][*s])
        });
    set(weighted_cycle, K_WEIGHTED_CYCLES, K_UNWEIGHTED_CYCLES);
    props
}

/// A small generator of repeatable numbers.
struct Rng(u64);

impl Rng {
    fn new(seed: u64) -> Self {
        Rng(seed.wrapping_mul(0x9E37_79B9_7F4A_7C15) | 1)
    }

    fn next(&mut self) -> u64 {
        self.0 ^= self.0 << 13;
        self.0 ^= self.0 >> 7;
        self.0 ^= self.0 << 17;
        self.0
    }

    /// A number less than `bound`.
    fn below(&mut self, bound: usize) -> usize {
        ((self.next() >> 11) % bound as u64) as usize
    }
}

/// An acceptor with no cycle, in which every state but the last has an arc on.
fn random_acyclic_fst(rng: &mut Rng, states: usize) -> StdVectorFst {
    let mut fst = StdVectorFst::new();
    for _ in 0..states {
        fst.add_state();
    }
    fst.set_start(0);
    for s in 0..states - 1 {
        let arcs = 1 + rng.below(3);
        for _ in 0..arcs {
            let next = s + 1 + rng.below(states - 1 - s);
            let label = 1 + rng.below(3) as i32;
            let weight = TropicalWeight::new(rng.below(5) as f32);
            fst.add_arc(s as i32, StdArc::new(label, label, weight, next as i32));
        }
        if rng.below(4) == 0 {
            fst.set_final(s as i32, TropicalWeight::new(rng.below(5) as f32));
        }
    }
    fst.set_final(states as i32 - 1, TropicalWeight::new(rng.below(5) as f32));
    fst.learn_properties();
    fst
}

/// Every successful path of at most `limit` arcs: its two label strings and its weight.
fn paths(fst: &StdVectorFst, limit: usize) -> Vec<(Vec<i32>, Vec<i32>, TropicalWeight)> {
    let mut found = Vec::new();
    let mut open = Vec::new();
    if let Some(start) = fst.start() {
        open.push((start, Vec::new(), Vec::new(), TropicalWeight::one(), 0usize));
    }
    while let Some((s, input, output, weight, length)) = open.pop() {
        let end = fst.final_weight(s);
        if end != TropicalWeight::zero() {
            found.push((input.clone(), output.clone(), weight.times(&end)));
        }
        if length < limit {
            for arc in fst.arcs(s) {
                let mut input: Vec<i32> = input.clone();
                let mut output: Vec<i32> = output.clone();
                input.push(arc.ilabel());
                output.push(arc.olabel());
                open.push((arc.nextstate(), input, output, weight.times(&arc.weight()), length + 1));
            }
        }
    }
    found
}

/// The paths in order, with their weights written out.
fn sorted(paths: Vec<(Vec<i32>, Vec<i32>, TropicalWeight)>) -> Vec<(Vec<i32>, Vec<i32>, String)> {
    let mut rows: Vec<(Vec<i32>, Vec<i32>, String)> =
        paths.into_iter().map(|(i, o, w)| (i, o, format!("{:.4}", w.value()))).collect();
    rows.sort();
    rows
}

/// How far apart two weights may be and still count as one.
const DELTA: f32 = 1.0 / 1024.0;

/// A deterministic epsilon-free acceptor over `strings`.
fn acceptor(strings: &[(&[i32], f32)]) -> StdVectorFst {
    let mut fst = StdVectorFst::new();
    let start = fst.add_state();
    fst.set_start(start);
    for (labels, weight) in strings {
        let mut state = start;
        for label in *labels {
            // Deterministic: reuse the arc if one with this label is there.
            let existing = fst.arcs(state).find(|arc| arc.ilabel() == *label);
            state = match existing {
                Some(arc) => arc.nextstate(),
                None => {
                    let next = fst.add_state();
                    fst.add_arc(
                        state,
                        StdArc::new(*label, *label, TropicalWeight::one(), next),
                    );
                    next
                }
            };
        }
        fst.set_final(state, TropicalWeight(*weight));
    }
    fst.learn_properties();
    fst
}

fn same(fst1: &StdVectorFst, fst2: &StdVectorFst) -> bool {
    equivalent(fst1, fst2, &DELTA).unwrap()
}

#[test]
fn an_fst_is_equivalent_to_itself() {
    let fst = acceptor(&[(&[1, 2], 0.0), (&[1, 3], 0.0)]);
    assert!(same(&fst, &fst));
}

/// The states may be numbered differently and the answer is the same.
#[test]
fn the_numbering_of_the_states_does_not_matter() {
    let fst = acceptor(&[(&[1, 2], 0.0), (&[3], 0.0)]);
    let other = acceptor(&[(&[3], 0.0), (&[1, 2], 0.0)]);
    assert_ne!(
        fst.arcs(0).map(|a| a.ilabel()).collect::<Vec<_>>(),
        other.arcs(0).map(|a| a.ilabel()).collect::<Vec<_>>(),
        "the two really are built differently"
    );
    assert!(same(&fst, &other));
}

#[test]
fn one_extra_string_makes_them_different() {
    let fst = acceptor(&[(&[1], 0.0)]);
    let other = acceptor(&[(&[1], 0.0), (&[2], 0.0)]);
    assert!(!same(&fst, &other));
}

/// A string missing from one but present in the other is found however deep
/// it is.
#[test]
fn a_difference_deep_in_the_fst_is_found() {
    let fst = acceptor(&[(&[1, 2, 3, 4], 0.0)]);
    let other = acceptor(&[(&[1, 2, 3, 5], 0.0)]);
    assert!(!same(&fst, &other));
}

/// The weights count too.
#[test]
fn the_same_strings_at_different_weights_are_not_equivalent() {
    let fst = acceptor(&[(&[1, 2], 1.0)]);
    let other = acceptor(&[(&[1, 2], 2.0)]);
    assert!(!same(&fst, &other));
    assert!(same(&fst, &acceptor(&[(&[1, 2], 1.0)])));
}

/// The same weighted language written with the weight in a different place
/// is still the same language, since pushing puts it back.
#[test]
fn where_the_weight_sits_along_a_path_does_not_matter() {
    let mut early = StdVectorFst::new();
    for _ in 0..3 {
        early.add_state();
    }
    early.set_start(0);
    early.add_arc(0, StdArc::new(1, 1, TropicalWeight(3.0), 1));
    early.add_arc(1, StdArc::new(2, 2, TropicalWeight::one(), 2));
    early.set_final(2, TropicalWeight::one());
    early.learn_properties();

    let mut late = StdVectorFst::new();
    for _ in 0..3 {
        late.add_state();
    }
    late.set_start(0);
    late.add_arc(0, StdArc::new(1, 1, TropicalWeight::one(), 1));
    late.add_arc(1, StdArc::new(2, 2, TropicalWeight(3.0), 2));
    late.set_final(2, TropicalWeight::one());
    late.learn_properties();

    assert!(same(&early, &late));
}

/// An FST that is not an epsilon-free deterministic acceptor is refused,
/// rather than answered "not equivalent".
#[test]
fn an_fst_the_algorithm_cannot_read_is_refused() {
    let good = acceptor(&[(&[1], 0.0)]);

    let mut nondeterministic = StdVectorFst::new();
    for _ in 0..3 {
        nondeterministic.add_state();
    }
    nondeterministic.set_start(0);
    nondeterministic.add_arc(0, StdArc::new(1, 1, TropicalWeight::one(), 1));
    nondeterministic.add_arc(0, StdArc::new(1, 1, TropicalWeight::one(), 2));
    nondeterministic.set_final(1, TropicalWeight::one());
    nondeterministic.learn_properties();

    let err = equivalent(&good, &nondeterministic, &DELTA).unwrap_err();
    assert!(err.message().contains("deterministic acceptor"), "{}", err.message());

    let mut with_epsilon = StdVectorFst::new();
    for _ in 0..2 {
        with_epsilon.add_state();
    }
    with_epsilon.set_start(0);
    with_epsilon.add_arc(0, StdArc::new(0, 0, TropicalWeight::one(), 1));
    with_epsilon.set_final(1, TropicalWeight::one());
    with_epsilon.learn_properties();
    assert!(equivalent(&good, &with_epsilon, &DELTA).is_err());
}

/// Determinizing does not change what an FST says, which is the property
/// equivalence checks.
#[test]
fn determinizing_produces_an_equivalent_fst() {
    let mut rng = Rng::new(0x0E00_1A1E_u64);
    let mut checked = 0;
    for round in 0..200 {
        let mut fst = random_acyclic_fst(&mut rng, 6);
        rm_epsilon(&mut fst, true, &DELTA).unwrap();
        fst.learn_properties();
        if fst.start().is_none() {
            continue;
        }

        let mut det = StdVectorFst::new();
        determinize(
            &fst,
            &mut det,
            &DeterminizeOptions {
                max_states: Some(4096),
                ..DeterminizeOptions::new(DELTA)
            },
        )
        .unwrap();

        // Only the pairs the algorithm can read are checked: it needs both
        // sides deterministic and epsilon-free.
        let required = K_NO_EPSILONS | K_I_DETERMINISTIC | K_ACCEPTOR;
        if fst.properties(required, true) != required {
            continue;
        }
        checked += 1;
        assert!(same(&fst, &det), "round {round}");
    }
    assert!(checked > 20, "only {checked} pairs could be compared");
}

/// Two FSTs built from the same set of strings in a different order are
/// equivalent; adding one string to one of them makes them not.
#[test]
fn equivalence_is_decided_by_the_strings_and_nothing_else() {
    let mut rng = Rng::new(0x0E00_0002_u64);
    for round in 0..200 {
        let count = 1 + rng.below(5);
        let strings: Vec<(Vec<i32>, f32)> = (0..count)
            .map(|_| {
                let len = 1 + rng.below(4);
                let labels: Vec<i32> = (0..len).map(|_| 1 + rng.below(3) as i32).collect();
                (labels, rng.below(3) as f32)
            })
            .collect();

        let forwards: Vec<(&[i32], f32)> =
            strings.iter().map(|(l, w)| (l.as_slice(), *w)).collect();
        let mut backwards = forwards.clone();
        backwards.reverse();

        let a = acceptor(&forwards);
        let b = acceptor(&backwards);
        // Building in a different order can settle a repeated string on a
        // different final weight, so only the cases that agree are compared
        // as equivalent.
        let mut sorted: Vec<(Vec<i32>, f32)> = strings.clone();
        sorted.sort_by(|x, y| x.0.cmp(&y.0));
        let repeated = sorted
            .windows(2)
            .any(|w| w[0].0 == w[1].0 && w[0].1 != w[1].1);
        if repeated {
            continue;
        }
        assert!(same(&a, &b), "round {round}");

        // And one more string that is not there makes them differ.
        let mut extra = forwards.clone();
        let novel = vec![9, 9, 9];
        extra.push((novel.as_slice(), 0.0));
        assert!(!same(&a, &acceptor(&extra)), "round {round}");
    }
}
