#![allow(dead_code)]

use sicada::arc::Arc;
use sicada::determinize::{CommonDivisor, DefaultCommonDivisor, DeterminizeOptions, DeterminizeType, LabelCommonDivisor, determinize, determinize_fsa_with_distance};
use sicada::properties::{K_ACCEPTOR, K_ACCESSIBLE, K_ACYCLIC, K_CO_ACCESSIBLE, K_CYCLIC, K_EPSILONS, K_FST_PROPERTIES, K_INITIAL_ACYCLIC, K_INITIAL_CYCLIC, K_I_DETERMINISTIC, K_I_EPSILONS, K_I_LABEL_SORTED, K_NON_I_DETERMINISTIC, K_NON_O_DETERMINISTIC, K_NOT_ACCEPTOR, K_NOT_ACCESSIBLE, K_NOT_CO_ACCESSIBLE, K_NOT_I_LABEL_SORTED, K_NOT_O_LABEL_SORTED, K_NOT_STRING, K_NOT_TOP_SORTED, K_NO_EPSILONS, K_NO_I_EPSILONS, K_NO_O_EPSILONS, K_O_DETERMINISTIC, K_O_EPSILONS, K_O_LABEL_SORTED, K_STRING, K_TOP_SORTED, K_UNWEIGHTED, K_UNWEIGHTED_CYCLES, K_WEIGHTED, K_WEIGHTED_CYCLES};
use sicada::shortest_distance::shortest_distance_reverse;
use sicada::string_weight::{STRING_LEFT, StringWeight};
use sicada::vector_fst::VectorFst;
use sicada::weight::{COMMUTATIVE, Divide, DivideType, IDEMPOTENT, LEFT_SEMIRING, PATH, RIGHT_SEMIRING, Weight};

/// The tropical semiring: the least weight wins, and weights along a path add up.
#[derive(Clone, Copy, Debug, PartialEq, PartialOrd)]
struct TropicalWeight(f32);

impl TropicalWeight {
    fn new(value: f32) -> Self {
        TropicalWeight(value)
    }

    fn value(&self) -> f32 {
        self.0
    }
}

impl Weight for TropicalWeight {
    type Delta = f32;

    fn spec_zero() -> Self {
        unreachable!()
    }

    fn spec_one() -> Self {
        unreachable!()
    }

    fn spec_no_weight() -> Self {
        unreachable!()
    }

    fn spec_plus(self, _other: Self) -> Self {
        unreachable!()
    }

    fn spec_times(self, _other: Self) -> Self {
        unreachable!()
    }

    fn spec_member(self) -> bool {
        unreachable!()
    }

    fn spec_approx(self, _other: Self, _delta: f32) -> bool {
        unreachable!()
    }

    fn spec_quantize(self, _delta: f32) -> Self {
        unreachable!()
    }

    fn spec_hash_word(self) -> u64 {
        unreachable!()
    }

    fn spec_properties() -> u64 {
        unreachable!()
    }

    fn spec_default_delta() -> f32 {
        unreachable!()
    }

    fn zero() -> Self {
        TropicalWeight(f32::INFINITY)
    }

    fn one() -> Self {
        TropicalWeight(0.0)
    }

    fn no_weight() -> Self {
        TropicalWeight(f32::NAN)
    }

    fn plus(&self, other: &Self) -> Self {
        if !self.is_member() || !other.is_member() {
            return Self::no_weight();
        }
        TropicalWeight(self.0.min(other.0))
    }

    fn times(&self, other: &Self) -> Self {
        if !self.is_member() || !other.is_member() {
            return Self::no_weight();
        }
        TropicalWeight(self.0 + other.0)
    }

    fn duplicate(&self) -> Self {
        *self
    }

    fn same(&self, other: &Self) -> bool {
        self.0 == other.0
    }

    fn is_member(&self) -> bool {
        !self.0.is_nan() && self.0 != f32::NEG_INFINITY
    }

    fn approx_equal(&self, other: &Self, delta: &f32) -> bool {
        self.0 <= other.0 + delta && other.0 <= self.0 + delta
    }

    fn quantize(&self, delta: &f32) -> Self {
        if self.0.is_finite() {
            TropicalWeight((self.0 / delta + 0.5).floor() * delta)
        } else {
            *self
        }
    }

    fn hash_word(&self) -> u64 {
        self.0.to_bits() as u64
    }

    fn properties() -> u64 {
        LEFT_SEMIRING | RIGHT_SEMIRING | COMMUTATIVE | IDEMPOTENT | PATH
    }

    fn default_delta() -> f32 {
        1.0 / 1024.0
    }
}

impl Divide for TropicalWeight {
    fn spec_divide(self, _divisor: Self, _side: DivideType) -> Self {
        unreachable!()
    }

    fn divide(&self, divisor: &Self, _side: DivideType) -> Self {
        if !self.is_member() || !divisor.is_member() || divisor.0 == f32::INFINITY {
            Self::no_weight()
        } else if self.0 == f32::INFINITY {
            Self::zero()
        } else {
            TropicalWeight(self.0 - divisor.0)
        }
    }
}

/// An arc whose weight is tropical.
#[derive(Clone, Copy, Debug, PartialEq)]
struct StdArc {
    ilabel: i32,
    olabel: i32,
    weight: TropicalWeight,
    nextstate: i32,
}

impl StdArc {
    fn new(ilabel: i32, olabel: i32, weight: TropicalWeight, nextstate: i32) -> Self {
        StdArc { ilabel, olabel, weight, nextstate }
    }

    fn of(arc: &Arc<TropicalWeight>) -> Self {
        StdArc::new(arc.ilabel, arc.olabel, arc.weight, arc.nextstate as i32)
    }

    fn raw(&self) -> Arc<TropicalWeight> {
        Arc::new(self.ilabel, self.olabel, self.weight, self.nextstate as usize)
    }

    fn ilabel(&self) -> i32 {
        self.ilabel
    }

    fn olabel(&self) -> i32 {
        self.olabel
    }

    fn weight(&self) -> TropicalWeight {
        self.weight
    }

    fn nextstate(&self) -> i32 {
        self.nextstate
    }
}

/// A machine over tropical weights, with states counted by `i32`.
struct StdVectorFst(VectorFst<TropicalWeight>);

impl std::ops::Deref for StdVectorFst {
    type Target = VectorFst<TropicalWeight>;

    fn deref(&self) -> &VectorFst<TropicalWeight> {
        &self.0
    }
}

impl std::ops::DerefMut for StdVectorFst {
    fn deref_mut(&mut self) -> &mut VectorFst<TropicalWeight> {
        &mut self.0
    }
}

impl Clone for StdVectorFst {
    fn clone(&self) -> Self {
        StdVectorFst(self.0.duplicate())
    }
}

impl StdVectorFst {
    fn new() -> Self {
        StdVectorFst(VectorFst::new())
    }

    fn add_state(&mut self) -> i32 {
        self.0.add_state() as i32
    }

    fn set_start(&mut self, s: i32) {
        self.0.set_start(s as usize);
    }

    fn start(&self) -> Option<i32> {
        self.0.start().map(|s| s as i32)
    }

    fn set_final(&mut self, s: i32, weight: TropicalWeight) {
        self.0.set_final(s as usize, weight);
    }

    fn final_weight(&self, s: i32) -> TropicalWeight {
        self.0.final_weight(s as usize)
    }

    fn add_arc(&mut self, s: i32, arc: StdArc) {
        self.0.add_arc(s as usize, arc.raw());
    }

    fn states(&self) -> std::ops::Range<i32> {
        0..self.0.num_states() as i32
    }

    fn arcs(&self, s: i32) -> std::vec::IntoIter<StdArc> {
        let arcs: Vec<StdArc> = self.0.arcs(s as usize).iter().map(StdArc::of).collect();
        arcs.into_iter()
    }

    fn num_arcs(&self, s: i32) -> usize {
        self.0.num_arcs(s as usize)
    }

    fn delete_arcs(&mut self, s: i32) {
        self.0.delete_arcs(s as usize);
    }

    fn mutate_arcs(&mut self, s: i32, change: impl Fn(&mut StdArc)) {
        let mut arcs: Vec<StdArc> = self.arcs(s).collect();
        for arc in &mut arcs {
            change(arc);
        }
        self.0.set_arcs(s as usize, arcs.iter().map(StdArc::raw).collect());
    }

    /// What holds of the machine, read off its states and arcs where `test` says so.
    fn properties(&self, mask: u64, test: bool) -> u64 {
        if test {
            compute_properties(&self.0) & mask
        } else {
            self.0.known_properties(mask)
        }
    }

    /// Reads off the machine what holds of it, and keeps that with it.
    fn learn_properties(&mut self) {
        let props = compute_properties(&self.0);
        self.0.set_properties(props, K_FST_PROPERTIES);
    }
}

/// Every property of a machine that can be read off its states and arcs.
fn compute_properties<W: Weight>(fst: &VectorFst<W>) -> u64 {
    let n = fst.num_states();
    let one = W::one();
    let zero = W::zero();
    let mut props = 0u64;
    let mut reach = vec![vec![false; n]; n];
    for s in 0..n {
        for arc in fst.arcs(s) {
            reach[s][arc.nextstate] = true;
        }
    }
    for k in 0..n {
        for i in 0..n {
            if reach[i][k] {
                for j in 0..n {
                    if reach[k][j] {
                        reach[i][j] = true;
                    }
                }
            }
        }
    }
    let start = fst.start();
    let arcs: Vec<(usize, &Arc<W>)> =
        (0..n).flat_map(|s| fst.arcs(s).iter().map(move |arc| (s, arc))).collect();
    let repeats = |label: fn(&Arc<W>) -> i32| {
        (0..n).any(|s| {
            let mut labels: Vec<i32> = fst.arcs(s).iter().map(label).collect();
            labels.sort();
            labels.windows(2).any(|pair| pair[0] == pair[1])
        })
    };
    let falls = |label: fn(&Arc<W>) -> i32| {
        (0..n).any(|s| fst.arcs(s).windows(2).any(|pair| label(&pair[0]) > label(&pair[1])))
    };
    let mut set = |holds: bool, yes: u64, no: u64| {
        props |= if holds { yes } else { no };
    };
    set(arcs.iter().all(|(_, a)| a.ilabel == a.olabel), K_ACCEPTOR, K_NOT_ACCEPTOR);
    set(!repeats(|a| a.ilabel), K_I_DETERMINISTIC, K_NON_I_DETERMINISTIC);
    set(!repeats(|a| a.olabel), K_O_DETERMINISTIC, K_NON_O_DETERMINISTIC);
    set(arcs.iter().any(|(_, a)| a.ilabel == 0 && a.olabel == 0), K_EPSILONS, K_NO_EPSILONS);
    set(arcs.iter().any(|(_, a)| a.ilabel == 0), K_I_EPSILONS, K_NO_I_EPSILONS);
    set(arcs.iter().any(|(_, a)| a.olabel == 0), K_O_EPSILONS, K_NO_O_EPSILONS);
    set(!falls(|a| a.ilabel), K_I_LABEL_SORTED, K_NOT_I_LABEL_SORTED);
    set(!falls(|a| a.olabel), K_O_LABEL_SORTED, K_NOT_O_LABEL_SORTED);
    let weighted = arcs.iter().any(|(_, a)| !a.weight.same(&one) && !a.weight.same(&zero))
        || (0..n).any(|s| {
            let w = fst.final_weight(s);
            !w.same(&one) && !w.same(&zero)
        });
    set(weighted, K_WEIGHTED, K_UNWEIGHTED);
    let has_cycle = (0..n).any(|s| reach[s][s]);
    set(has_cycle, K_CYCLIC, K_ACYCLIC);
    let initial_cycle = start.is_some_and(|s| reach[s][s]);
    set(initial_cycle, K_INITIAL_CYCLIC, K_INITIAL_ACYCLIC);
    set(arcs.iter().all(|(s, a)| a.nextstate > *s), K_TOP_SORTED, K_NOT_TOP_SORTED);
    let seen = |s: usize| start.is_some_and(|i| i == s || reach[i][s]);
    let ends = |s: usize| (0..n).any(|t| fst.is_final(t) && (s == t || reach[s][t]));
    set((0..n).all(seen), K_ACCESSIBLE, K_NOT_ACCESSIBLE);
    set((0..n).all(ends), K_CO_ACCESSIBLE, K_NOT_CO_ACCESSIBLE);
    let string = start.map_or(n == 0, |i| i == 0)
        && (0..n).all(|s| {
            if fst.is_final(s) {
                fst.num_arcs(s) == 0 && s + 1 == n
            } else {
                fst.num_arcs(s) == 1 && fst.arcs(s)[0].nextstate == s + 1
            }
        });
    set(string, K_STRING, K_NOT_STRING);
    let weighted_cycle =
        arcs.iter().any(|(s, a)| {
            !a.weight.same(&one) && !a.weight.same(&zero) && (a.nextstate == *s || reach[a.nextstate][*s])
        });
    set(weighted_cycle, K_WEIGHTED_CYCLES, K_UNWEIGHTED_CYCLES);
    props
}

/// A small generator of repeatable numbers.
struct Rng(u64);

impl Rng {
    fn new(seed: u64) -> Self {
        Rng(seed.wrapping_mul(0x9E37_79B9_7F4A_7C15) | 1)
    }

    fn next(&mut self) -> u64 {
        self.0 ^= self.0 << 13;
        self.0 ^= self.0 >> 7;
        self.0 ^= self.0 << 17;
        self.0
    }

    /// A number less than `bound`.
    fn below(&mut self, bound: usize) -> usize {
        ((self.next() >> 11) % bound as u64) as usize
    }
}

/// An acceptor with no cycle, in which every state but the last has an arc on.
fn random_acyclic_fst(rng: &mut Rng, states: usize) -> StdVectorFst {
    let mut fst = StdVectorFst::new();
    for _ in 0..states {
        fst.add_state();
    }
    fst.set_start(0);
    for s in 0..states - 1 {
        let arcs = 1 + rng.below(3);
        for _ in 0..arcs {
            let next = s + 1 + rng.below(states - 1 - s);
            let label = 1 + rng.below(3) as i32;
            let weight = TropicalWeight::new(rng.below(5) as f32);
            fst.add_arc(s as i32, StdArc::new(label, label, weight, next as i32));
        }
        if rng.below(4) == 0 {
            fst.set_final(s as i32, TropicalWeight::new(rng.below(5) as f32));
        }
    }
    fst.set_final(states as i32 - 1, TropicalWeight::new(rng.below(5) as f32));
    fst.learn_properties();
    fst
}

/// Every successful path of at most `limit` arcs: its two label strings and its weight.
fn paths(fst: &StdVectorFst, limit: usize) -> Vec<(Vec<i32>, Vec<i32>, TropicalWeight)> {
    let mut found = Vec::new();
    let mut open = Vec::new();
    if let Some(start) = fst.start() {
        open.push((start, Vec::new(), Vec::new(), TropicalWeight::one(), 0usize));
    }
    while let Some((s, input, output, weight, length)) = open.pop() {
        let end = fst.final_weight(s);
        if end != TropicalWeight::zero() {
            found.push((input.clone(), output.clone(), weight.times(&end)));
        }
        if length < limit {
            for arc in fst.arcs(s) {
                let mut input: Vec<i32> = input.clone();
                let mut output: Vec<i32> = output.clone();
                input.push(arc.ilabel());
                output.push(arc.olabel());
                open.push((arc.nextstate(), input, output, weight.times(&arc.weight()), length + 1));
            }
        }
    }
    found
}

/// The same paths with the epsilons taken out of their strings.
fn visible_paths(fst: &StdVectorFst, limit: usize) -> Vec<(Vec<i32>, Vec<i32>, TropicalWeight)> {
    let seen = |labels: Vec<i32>| labels.into_iter().filter(|label| *label != 0).collect();
    paths(fst, limit).into_iter().map(|(i, o, w)| (seen(i), seen(o), w)).collect()
}

/// The paths in order, with their weights written out.
fn sorted(paths: Vec<(Vec<i32>, Vec<i32>, TropicalWeight)>) -> Vec<(Vec<i32>, Vec<i32>, String)> {
    let mut rows: Vec<(Vec<i32>, Vec<i32>, String)> =
        paths.into_iter().map(|(i, o, w)| (i, o, format!("{:.4}", w.value()))).collect();
    rows.sort();
    rows
}

/// What each pair of strings weighs: the sum over the paths that spell it.
fn string_weights(
    paths: Vec<(Vec<i32>, Vec<i32>, TropicalWeight)>,
) -> Vec<(Vec<i32>, Vec<i32>, String)> {
    let mut total: std::collections::BTreeMap<(Vec<i32>, Vec<i32>), TropicalWeight> =
        std::collections::BTreeMap::new();
    for (input, output, weight) in paths {
        let entry = total.entry((input, output)).or_insert(TropicalWeight::zero());
        *entry = entry.plus(&weight);
    }
    total.into_iter().map(|((i, o), w)| (i, o, format!("{:.4}", w.value()))).collect()
}

/// How far apart two weights may be and still count as one.
const DELTA: f32 = 1.0 / 1024.0;

/// Whether no state has two arcs with the same input label.
fn is_deterministic(fst: &StdVectorFst) -> bool {
    fst.states().all(|state| {
        let mut seen: Vec<i32> = fst.arcs(state).map(|arc| arc.ilabel()).collect();
        seen.sort_unstable();
        let before = seen.len();
        seen.dedup();
        seen.len() == before
    })
}

fn determinized(fst: &StdVectorFst) -> StdVectorFst {
    let mut out = StdVectorFst::new();
    determinize(
        fst,
        &mut out,
        &DeterminizeOptions {
            max_states: Some(4096),
            ..DeterminizeOptions::new(DELTA)
        },
    )
    .unwrap();
    out
}

/// Two ways of reading `a` at different weights become one, keeping the
/// lighter.
#[test]
fn two_arcs_with_the_same_label_become_one() {
    let mut fst = StdVectorFst::new();
    for _ in 0..3 {
        fst.add_state();
    }
    fst.set_start(0);
    fst.add_arc(0, StdArc::new(1, 1, TropicalWeight(2.0), 1));
    fst.add_arc(0, StdArc::new(1, 1, TropicalWeight(5.0), 2));
    fst.set_final(1, TropicalWeight(1.0));
    fst.set_final(2, TropicalWeight(1.0));
    fst.learn_properties();

    let out = determinized(&fst);
    assert!(is_deterministic(&out));
    assert_eq!(out.num_arcs(out.start().unwrap()), 1);
    assert_eq!(
        sorted(paths(&out, 8)),
        vec![(vec![1], vec![1], "3.0000".to_string())],
        "the lighter of 2 + 1 and 5 + 1"
    );
}

/// The residual weight travels: two branches that agree on a prefix commit
/// only what they agree on.
#[test]
fn the_weight_a_subset_cannot_commit_travels_with_it() {
    let mut fst = StdVectorFst::new();
    for _ in 0..5 {
        fst.add_state();
    }
    fst.set_start(0);
    fst.add_arc(0, StdArc::new(1, 1, TropicalWeight(1.0), 1));
    fst.add_arc(0, StdArc::new(1, 1, TropicalWeight(3.0), 2));
    fst.add_arc(1, StdArc::new(2, 2, TropicalWeight::one(), 3));
    fst.add_arc(2, StdArc::new(3, 3, TropicalWeight::one(), 4));
    fst.set_final(3, TropicalWeight::one());
    fst.set_final(4, TropicalWeight::one());
    fst.learn_properties();

    let out = determinized(&fst);
    assert!(is_deterministic(&out));
    // The first arc commits 1, the shared prefix's cost; the branch to 3
    // then carries the extra 2.
    let first: Vec<f32> = out
        .arcs(out.start().unwrap())
        .map(|arc| arc.weight().value())
        .collect();
    assert_eq!(first, vec![1.0]);
    assert_eq!(
        sorted(paths(&out, 8)),
        vec![
            (vec![1, 2], vec![1, 2], "1.0000".to_string()),
            (vec![1, 3], vec![1, 3], "3.0000".to_string()),
        ]
    );
}

/// An FST that is already deterministic comes back saying the same thing.
#[test]
fn an_already_deterministic_fst_is_unchanged_in_what_it_accepts() {
    let mut fst = StdVectorFst::new();
    for _ in 0..3 {
        fst.add_state();
    }
    fst.set_start(0);
    fst.add_arc(0, StdArc::new(1, 1, TropicalWeight(1.0), 1));
    fst.add_arc(0, StdArc::new(2, 2, TropicalWeight(2.0), 2));
    fst.set_final(1, TropicalWeight::one());
    fst.set_final(2, TropicalWeight::one());
    fst.learn_properties();

    assert_eq!(
        sorted(paths(&determinized(&fst), 8)),
        sorted(paths(&fst, 8))
    );
}

/// An FST with no start state determinizes to one with no states.
#[test]
fn an_empty_fst_determinizes_to_an_empty_one() {
    let out = determinized(&StdVectorFst::new());
    assert_eq!(out.num_states(), 0);
}

/// The result is deterministic and says exactly what the input said, over
/// random acyclic FSTs, which are all determinizable.
#[test]
fn determinizing_keeps_the_language_and_makes_it_deterministic() {
    let mut rng = Rng::new(0x0DE7_E401_u64);
    let mut checked = 0;
    for round in 0..200 {
        let fst = random_acyclic_fst(&mut rng, 6);
        // Determinization merges two paths spelling the same string into
        // one at their sum, which is the weight the FST gave that string
        // all along, so the weight per string is what has to agree, not the
        // list of paths.
        let before = string_weights(paths(&fst, 12));
        if before.is_empty() {
            continue;
        }
        checked += 1;
        let out = determinized(&fst);
        assert!(is_deterministic(&out), "round {round}");
        assert_eq!(string_weights(paths(&out, 12)), before, "round {round}");
    }
    assert!(checked > 50, "only {checked} FSTs accepted anything");
}

/// A transducer goes through the gallic semiring: the input side becomes
/// deterministic and the output side is preserved.
#[test]
fn a_transducer_is_determinized_on_its_input_side() {
    // Reading 1 can produce 7 or 8; the two are told apart by what follows.
    let mut fst = StdVectorFst::new();
    for _ in 0..5 {
        fst.add_state();
    }
    fst.set_start(0);
    fst.add_arc(0, StdArc::new(1, 7, TropicalWeight::one(), 1));
    fst.add_arc(0, StdArc::new(1, 8, TropicalWeight::one(), 2));
    fst.add_arc(1, StdArc::new(2, 9, TropicalWeight::one(), 3));
    fst.add_arc(2, StdArc::new(3, 9, TropicalWeight::one(), 4));
    fst.set_final(3, TropicalWeight::one());
    fst.set_final(4, TropicalWeight::one());
    fst.learn_properties();

    let out = determinized(&fst);
    assert!(is_deterministic(&out), "the input side is deterministic");

    // The transduction is unchanged, once the epsilons the gallic round
    // trip introduces are set aside.
    let visible = |fst: &StdVectorFst| -> Vec<(Vec<i32>, Vec<i32>, String)> {
        sorted(paths(fst, 12))
            .into_iter()
            .map(|(i, o, w)| {
                (
                    i.into_iter().filter(|l| *l != 0).collect(),
                    o.into_iter().filter(|l| *l != 0).collect(),
                    w,
                )
            })
            .collect()
    };
    assert_eq!(visible(&out), visible(&fst));
}

/// A functional transducer keeps what it transduces, over random inputs.
#[test]
fn determinizing_a_transducer_keeps_the_transduction() {
    let mut rng = Rng::new(0x0000_7A11_u64);
    let visible = |fst: &StdVectorFst| string_weights(visible_paths(fst, 14));

    let mut checked = 0;
    for round in 0..100 {
        let mut fst = random_acyclic_fst(&mut rng, 5);
        // Give the arcs distinct output labels, keeping it functional by
        // deriving the output from the input.
        let states: Vec<i32> = fst.states().collect();
        for state in states {
            fst.mutate_arcs(state, |arc| {
                *arc = StdArc::new(
                    arc.ilabel(),
                    arc.ilabel() + 10,
                    arc.weight(),
                    arc.nextstate(),
                );
            });
        }
        fst.learn_properties();

        let before = visible(&fst);
        if before.is_empty() {
            continue;
        }
        // Functional means one output per input; a random FST need not be,
        // so only the ones that are get checked.
        let mut inputs: Vec<Vec<i32>> = before.iter().map(|(i, _, _)| i.clone()).collect();
        inputs.sort();
        let unique = inputs.len();
        inputs.dedup();
        if inputs.len() != unique {
            continue;
        }
        checked += 1;
        assert_eq!(visible(&determinized(&fst)), before, "round {round}");
    }
    assert!(checked > 20, "only {checked} FSTs were functional");
}

/// An FST that cannot be determinized is refused rather than run forever.
#[test]
fn an_undeterminizable_fst_is_refused_when_a_limit_is_given() {
    // The classic non-determinizable example: two cycles on the same label
    // whose weights never let a common prefix be committed.
    let mut fst = StdVectorFst::new();
    for _ in 0..3 {
        fst.add_state();
    }
    fst.set_start(0);
    fst.add_arc(0, StdArc::new(1, 1, TropicalWeight(1.0), 1));
    fst.add_arc(0, StdArc::new(1, 1, TropicalWeight(2.0), 2));
    fst.add_arc(1, StdArc::new(2, 2, TropicalWeight(1.0), 1));
    fst.add_arc(2, StdArc::new(2, 2, TropicalWeight(2.0), 2));
    fst.set_final(1, TropicalWeight::one());
    fst.set_final(2, TropicalWeight::one());
    fst.learn_properties();

    let mut out = StdVectorFst::new();
    let err = determinize(
        &fst,
        &mut out,
        &DeterminizeOptions {
            max_states: Some(64),
            ..DeterminizeOptions::new(DELTA)
        },
    )
    .unwrap_err();
    assert!(err.message().contains("determinizable"), "{}", err.message());
}

/// The readings that are not implemented say so rather than doing the
/// functional thing quietly.
#[test]
fn an_unimplemented_reading_is_refused() {
    let fst = StdVectorFst::new();
    for det_type in [
        DeterminizeType::NonFunctional,
        DeterminizeType::Disambiguate,
    ] {
        let mut out = StdVectorFst::new();
        let err = determinize(
            &fst,
            &mut out,
            &DeterminizeOptions {
                det_type,
                ..DeterminizeOptions::new(DELTA)
            },
        )
        .unwrap_err();
        assert!(err.message().contains("not implemented"), "{}", err.message());
    }
}

/// The distances it reports are the ones the result itself has.
///
/// Recomputing them on the result is an oracle that shares no code with the
/// line inside the determinization that produces them.
#[test]
fn the_distances_it_reports_are_the_result_s_own() {
    let mut rng = Rng::new(0x0000_D157_u64);
    let mut checked = 0;
    for round in 0..200 {
        // `random_acyclic_fst` builds an acceptor, which is what
        // `determinize_fsa` takes.
        let fst = random_acyclic_fst(&mut rng, 6);
        let in_dist = shortest_distance_reverse(&fst, &DELTA).unwrap();

        let mut out = StdVectorFst::new();
        let mut out_dist = Vec::new();
        determinize_fsa_with_distance(
            &fst,
            &mut out,
            &DefaultCommonDivisor,
            &DELTA,
            Some(4096),
            &in_dist,
            &mut out_dist,
        )
        .unwrap();

        assert_eq!(
            out_dist.len(),
            out.num_states(),
            "round {round}: one distance per state"
        );
        if out.num_states() == 0 {
            continue;
        }
        checked += 1;
        // A state the reverse pass never reached cannot reach a final
        // state, which is `zero`; comparing only the entries it returned
        // would leave those states unchecked.
        let want = shortest_distance_reverse(&out, &DELTA).unwrap();
        for (state, got) in out_dist.iter().enumerate() {
            let want = want
                .get(state)
                .cloned()
                .unwrap_or_else(TropicalWeight::zero);
            assert!(
                got.approx_equal(&want, &1e-3),
                "round {round}, state {state}: {got:?} against {want:?}"
            );
        }
    }
    assert!(checked > 50, "only {checked} FSTs had any states");
}

/// Asking for distances over an input with no start state asks for none.
#[test]
fn an_empty_input_reports_no_distances() {
    let mut out = StdVectorFst::new();
    let mut out_dist = vec![TropicalWeight(7.0)];
    determinize_fsa_with_distance(
        &StdVectorFst::new(),
        &mut out,
        &DefaultCommonDivisor,
        &DELTA,
        None,
        &Vec::new(),
        &mut out_dist,
    )
    .unwrap();
    assert!(
        out_dist.is_empty(),
        "the caller's vector is not appended to"
    );
}

/// The single-letter divisor commits a letter only where the two agree.
#[test]
fn the_label_divisor_commits_only_what_both_agree_on() {
    type S = StringWeight<STRING_LEFT>;
    let divisor = LabelCommonDivisor;

    assert_eq!(
        divisor.divisor(&S::new(vec![1, 2]), &S::new(vec![1, 3])),
        S::new(vec![1]),
        "they agree on the first letter"
    );
    assert_eq!(
        divisor.divisor(&S::new(vec![1, 2]), &S::new(vec![4, 5])),
        S::one(),
        "they agree on nothing"
    );
    assert_eq!(
        divisor.divisor(&S::zero(), &S::new(vec![7])),
        S::new(vec![7]),
        "zero contributes nothing, so the other stands"
    );
    assert_eq!(
        divisor.divisor(&S::one(), &S::new(vec![7])),
        S::one(),
        "an empty sequence has no letter to agree on"
    );
}
