#![allow(dead_code)]

use sicada::arc::Arc;
use sicada::properties::{K_ACCEPTOR, K_ACCESSIBLE, K_ACYCLIC, K_CO_ACCESSIBLE, K_CYCLIC, K_EPSILONS, K_FST_PROPERTIES, K_INITIAL_ACYCLIC, K_INITIAL_CYCLIC, K_I_DETERMINISTIC, K_I_EPSILONS, K_I_LABEL_SORTED, K_NON_I_DETERMINISTIC, K_NON_O_DETERMINISTIC, K_NOT_ACCEPTOR, K_NOT_ACCESSIBLE, K_NOT_CO_ACCESSIBLE, K_NOT_I_LABEL_SORTED, K_NOT_O_LABEL_SORTED, K_NOT_STRING, K_NOT_TOP_SORTED, K_NO_EPSILONS, K_NO_I_EPSILONS, K_NO_O_EPSILONS, K_O_DETERMINISTIC, K_O_EPSILONS, K_O_LABEL_SORTED, K_STRING, K_TOP_SORTED, K_UNWEIGHTED, K_UNWEIGHTED_CYCLES, K_WEIGHTED, K_WEIGHTED_CYCLES};
use sicada::push::{PUSH_LABELS, PUSH_WEIGHTS, push_to_initial, push_weights, total_weight};
use sicada::reweight::ReweightType;
use sicada::shortest_distance::{shortest_distance_forward, shortest_distance_reverse};
use sicada::vector_fst::VectorFst;
use sicada::weight::{COMMUTATIVE, Divide, DivideType, IDEMPOTENT, LEFT_SEMIRING, PATH, RIGHT_SEMIRING, Weight};

/// The tropical semiring: the least weight wins, and weights along a path add up.
#[derive(Clone, Copy, Debug, PartialEq, PartialOrd)]
struct TropicalWeight(f32);

impl TropicalWeight {
    fn new(value: f32) -> Self {
        TropicalWeight(value)
    }

    fn value(&self) -> f32 {
        self.0
    }
}

impl Weight for TropicalWeight {
    type Delta = f32;

    fn spec_zero() -> Self {
        unreachable!()
    }

    fn spec_one() -> Self {
        unreachable!()
    }

    fn spec_no_weight() -> Self {
        unreachable!()
    }

    fn spec_plus(self, _other: Self) -> Self {
        unreachable!()
    }

    fn spec_times(self, _other: Self) -> Self {
        unreachable!()
    }

    fn spec_member(self) -> bool {
        unreachable!()
    }

    fn spec_approx(self, _other: Self, _delta: f32) -> bool {
        unreachable!()
    }

    fn spec_quantize(self, _delta: f32) -> Self {
        unreachable!()
    }

    fn spec_hash_word(self) -> u64 {
        unreachable!()
    }

    fn spec_properties() -> u64 {
        unreachable!()
    }

    fn spec_default_delta() -> f32 {
        unreachable!()
    }

    fn zero() -> Self {
        TropicalWeight(f32::INFINITY)
    }

    fn one() -> Self {
        TropicalWeight(0.0)
    }

    fn no_weight() -> Self {
        TropicalWeight(f32::NAN)
    }

    fn plus(&self, other: &Self) -> Self {
        if !self.is_member() || !other.is_member() {
            return Self::no_weight();
        }
        TropicalWeight(self.0.min(other.0))
    }

    fn times(&self, other: &Self) -> Self {
        if !self.is_member() || !other.is_member() {
            return Self::no_weight();
        }
        TropicalWeight(self.0 + other.0)
    }

    fn duplicate(&self) -> Self {
        *self
    }

    fn same(&self, other: &Self) -> bool {
        self.0 == other.0
    }

    fn is_member(&self) -> bool {
        !self.0.is_nan() && self.0 != f32::NEG_INFINITY
    }

    fn approx_equal(&self, other: &Self, delta: &f32) -> bool {
        self.0 <= other.0 + delta && other.0 <= self.0 + delta
    }

    fn quantize(&self, delta: &f32) -> Self {
        if self.0.is_finite() {
            TropicalWeight((self.0 / delta + 0.5).floor() * delta)
        } else {
            *self
        }
    }

    fn hash_word(&self) -> u64 {
        self.0.to_bits() as u64
    }

    fn properties() -> u64 {
        LEFT_SEMIRING | RIGHT_SEMIRING | COMMUTATIVE | IDEMPOTENT | PATH
    }

    fn default_delta() -> f32 {
        1.0 / 1024.0
    }
}

impl Divide for TropicalWeight {
    fn spec_divide(self, _divisor: Self, _side: DivideType) -> Self {
        unreachable!()
    }

    fn divide(&self, divisor: &Self, _side: DivideType) -> Self {
        if !self.is_member() || !divisor.is_member() || divisor.0 == f32::INFINITY {
            Self::no_weight()
        } else if self.0 == f32::INFINITY {
            Self::zero()
        } else {
            TropicalWeight(self.0 - divisor.0)
        }
    }
}

/// An arc whose weight is tropical.
#[derive(Clone, Copy, Debug, PartialEq)]
struct StdArc {
    ilabel: i32,
    olabel: i32,
    weight: TropicalWeight,
    nextstate: i32,
}

impl StdArc {
    fn new(ilabel: i32, olabel: i32, weight: TropicalWeight, nextstate: i32) -> Self {
        StdArc { ilabel, olabel, weight, nextstate }
    }

    fn of(arc: &Arc<TropicalWeight>) -> Self {
        StdArc::new(arc.ilabel, arc.olabel, arc.weight, arc.nextstate as i32)
    }

    fn raw(&self) -> Arc<TropicalWeight> {
        Arc::new(self.ilabel, self.olabel, self.weight, self.nextstate as usize)
    }

    fn ilabel(&self) -> i32 {
        self.ilabel
    }

    fn olabel(&self) -> i32 {
        self.olabel
    }

    fn weight(&self) -> TropicalWeight {
        self.weight
    }

    fn nextstate(&self) -> i32 {
        self.nextstate
    }
}

/// A machine over tropical weights, with states counted by `i32`.
struct StdVectorFst(VectorFst<TropicalWeight>);

impl std::ops::Deref for StdVectorFst {
    type Target = VectorFst<TropicalWeight>;

    fn deref(&self) -> &VectorFst<TropicalWeight> {
        &self.0
    }
}

impl std::ops::DerefMut for StdVectorFst {
    fn deref_mut(&mut self) -> &mut VectorFst<TropicalWeight> {
        &mut self.0
    }
}

impl Clone for StdVectorFst {
    fn clone(&self) -> Self {
        StdVectorFst(self.0.duplicate())
    }
}

impl StdVectorFst {
    fn new() -> Self {
        StdVectorFst(VectorFst::new())
    }

    fn add_state(&mut self) -> i32 {
        self.0.add_state() as i32
    }

    fn set_start(&mut self, s: i32) {
        self.0.set_start(s as usize);
    }

    fn start(&self) -> Option<i32> {
        self.0.start().map(|s| s as i32)
    }

    fn set_final(&mut self, s: i32, weight: TropicalWeight) {
        self.0.set_final(s as usize, weight);
    }

    fn final_weight(&self, s: i32) -> TropicalWeight {
        self.0.final_weight(s as usize)
    }

    fn add_arc(&mut self, s: i32, arc: StdArc) {
        self.0.add_arc(s as usize, arc.raw());
    }

    fn states(&self) -> std::ops::Range<i32> {
        0..self.0.num_states() as i32
    }

    fn arcs(&self, s: i32) -> std::vec::IntoIter<StdArc> {
        let arcs: Vec<StdArc> = self.0.arcs(s as usize).iter().map(StdArc::of).collect();
        arcs.into_iter()
    }

    fn num_arcs(&self, s: i32) -> usize {
        self.0.num_arcs(s as usize)
    }

    fn delete_arcs(&mut self, s: i32) {
        self.0.delete_arcs(s as usize);
    }

    fn mutate_arcs(&mut self, s: i32, change: impl Fn(&mut StdArc)) {
        let mut arcs: Vec<StdArc> = self.arcs(s).collect();
        for arc in &mut arcs {
            change(arc);
        }
        self.0.set_arcs(s as usize, arcs.iter().map(StdArc::raw).collect());
    }

    /// What holds of the machine, read off its states and arcs where `test` says so.
    fn properties(&self, mask: u64, test: bool) -> u64 {
        if test {
            compute_properties(&self.0) & mask
        } else {
            self.0.known_properties(mask)
        }
    }

    /// Reads off the machine what holds of it, and keeps that with it.
    fn learn_properties(&mut self) {
        let props = compute_properties(&self.0);
        self.0.set_properties(props, K_FST_PROPERTIES);
    }
}

/// Every property of a machine that can be read off its states and arcs.
fn compute_properties<W: Weight>(fst: &VectorFst<W>) -> u64 {
    let n = fst.num_states();
    let one = W::one();
    let zero = W::zero();
    let mut props = 0u64;
    let mut reach = vec![vec![false; n]; n];
    for s in 0..n {
        for arc in fst.arcs(s) {
            reach[s][arc.nextstate] = true;
        }
    }
    for k in 0..n {
        for i in 0..n {
            if reach[i][k] {
                for j in 0..n {
                    if reach[k][j] {
                        reach[i][j] = true;
                    }
                }
            }
        }
    }
    let start = fst.start();
    let arcs: Vec<(usize, &Arc<W>)> =
        (0..n).flat_map(|s| fst.arcs(s).iter().map(move |arc| (s, arc))).collect();
    let repeats = |label: fn(&Arc<W>) -> i32| {
        (0..n).any(|s| {
            let mut labels: Vec<i32> = fst.arcs(s).iter().map(label).collect();
            labels.sort();
            labels.windows(2).any(|pair| pair[0] == pair[1])
        })
    };
    let falls = |label: fn(&Arc<W>) -> i32| {
        (0..n).any(|s| fst.arcs(s).windows(2).any(|pair| label(&pair[0]) > label(&pair[1])))
    };
    let mut set = |holds: bool, yes: u64, no: u64| {
        props |= if holds { yes } else { no };
    };
    set(arcs.iter().all(|(_, a)| a.ilabel == a.olabel), K_ACCEPTOR, K_NOT_ACCEPTOR);
    set(!repeats(|a| a.ilabel), K_I_DETERMINISTIC, K_NON_I_DETERMINISTIC);
    set(!repeats(|a| a.olabel), K_O_DETERMINISTIC, K_NON_O_DETERMINISTIC);
    set(arcs.iter().any(|(_, a)| a.ilabel == 0 && a.olabel == 0), K_EPSILONS, K_NO_EPSILONS);
    set(arcs.iter().any(|(_, a)| a.ilabel == 0), K_I_EPSILONS, K_NO_I_EPSILONS);
    set(arcs.iter().any(|(_, a)| a.olabel == 0), K_O_EPSILONS, K_NO_O_EPSILONS);
    set(!falls(|a| a.ilabel), K_I_LABEL_SORTED, K_NOT_I_LABEL_SORTED);
    set(!falls(|a| a.olabel), K_O_LABEL_SORTED, K_NOT_O_LABEL_SORTED);
    let weighted = arcs.iter().any(|(_, a)| !a.weight.same(&one) && !a.weight.same(&zero))
        || (0..n).any(|s| {
            let w = fst.final_weight(s);
            !w.same(&one) && !w.same(&zero)
        });
    set(weighted, K_WEIGHTED, K_UNWEIGHTED);
    let has_cycle = (0..n).any(|s| reach[s][s]);
    set(has_cycle, K_CYCLIC, K_ACYCLIC);
    let initial_cycle = start.is_some_and(|s| reach[s][s]);
    set(initial_cycle, K_INITIAL_CYCLIC, K_INITIAL_ACYCLIC);
    set(arcs.iter().all(|(s, a)| a.nextstate > *s), K_TOP_SORTED, K_NOT_TOP_SORTED);
    let seen = |s: usize| start.is_some_and(|i| i == s || reach[i][s]);
    let ends = |s: usize| (0..n).any(|t| fst.is_final(t) && (s == t || reach[s][t]));
    set((0..n).all(seen), K_ACCESSIBLE, K_NOT_ACCESSIBLE);
    set((0..n).all(ends), K_CO_ACCESSIBLE, K_NOT_CO_ACCESSIBLE);
    let string = start.map_or(n == 0, |i| i == 0)
        && (0..n).all(|s| {
            if fst.is_final(s) {
                fst.num_arcs(s) == 0 && s + 1 == n
            } else {
                fst.num_arcs(s) == 1 && fst.arcs(s)[0].nextstate == s + 1
            }
        });
    set(string, K_STRING, K_NOT_STRING);
    let weighted_cycle =
        arcs.iter().any(|(s, a)| {
            !a.weight.same(&one) && !a.weight.same(&zero) && (a.nextstate == *s || reach[a.nextstate][*s])
        });
    set(weighted_cycle, K_WEIGHTED_CYCLES, K_UNWEIGHTED_CYCLES);
    props
}

/// A small generator of repeatable numbers.
struct Rng(u64);

impl Rng {
    fn new(seed: u64) -> Self {
        Rng(seed.wrapping_mul(0x9E37_79B9_7F4A_7C15) | 1)
    }

    fn next(&mut self) -> u64 {
        self.0 ^= self.0 << 13;
        self.0 ^= self.0 >> 7;
        self.0 ^= self.0 << 17;
        self.0
    }

    /// A number less than `bound`.
    fn below(&mut self, bound: usize) -> usize {
        ((self.next() >> 11) % bound as u64) as usize
    }
}

/// An acceptor with no cycle, in which every state but the last has an arc on.
fn random_acyclic_fst(rng: &mut Rng, states: usize) -> StdVectorFst {
    let mut fst = StdVectorFst::new();
    for _ in 0..states {
        fst.add_state();
    }
    fst.set_start(0);
    for s in 0..states - 1 {
        let arcs = 1 + rng.below(3);
        for _ in 0..arcs {
            let next = s + 1 + rng.below(states - 1 - s);
            let label = 1 + rng.below(3) as i32;
            let weight = TropicalWeight::new(rng.below(5) as f32);
            fst.add_arc(s as i32, StdArc::new(label, label, weight, next as i32));
        }
        if rng.below(4) == 0 {
            fst.set_final(s as i32, TropicalWeight::new(rng.below(5) as f32));
        }
    }
    fst.set_final(states as i32 - 1, TropicalWeight::new(rng.below(5) as f32));
    fst.learn_properties();
    fst
}

/// Every successful path of at most `limit` arcs: its two label strings and its weight.
fn paths(fst: &StdVectorFst, limit: usize) -> Vec<(Vec<i32>, Vec<i32>, TropicalWeight)> {
    let mut found = Vec::new();
    let mut open = Vec::new();
    if let Some(start) = fst.start() {
        open.push((start, Vec::new(), Vec::new(), TropicalWeight::one(), 0usize));
    }
    while let Some((s, input, output, weight, length)) = open.pop() {
        let end = fst.final_weight(s);
        if end != TropicalWeight::zero() {
            found.push((input.clone(), output.clone(), weight.times(&end)));
        }
        if length < limit {
            for arc in fst.arcs(s) {
                let mut input: Vec<i32> = input.clone();
                let mut output: Vec<i32> = output.clone();
                input.push(arc.ilabel());
                output.push(arc.olabel());
                open.push((arc.nextstate(), input, output, weight.times(&arc.weight()), length + 1));
            }
        }
    }
    found
}

/// The paths in order, with their weights written out.
fn sorted(paths: Vec<(Vec<i32>, Vec<i32>, TropicalWeight)>) -> Vec<(Vec<i32>, Vec<i32>, String)> {
    let mut rows: Vec<(Vec<i32>, Vec<i32>, String)> =
        paths.into_iter().map(|(i, o, w)| (i, o, format!("{:.4}", w.value()))).collect();
    rows.sort();
    rows
}

/// How far a shortest distance may still move and count as settled.
const SHORTEST_DELTA: f32 = 1e-6;

/// The arcs and final weight leaving each non-initial state should come to
/// One once the weight has been pushed to the front.
fn leaving(fst: &StdVectorFst, state: i32) -> TropicalWeight {
    let mut sum = fst.final_weight(state);
    for arc in fst.arcs(state) {
        sum = sum.plus(&arc.weight());
    }
    sum
}

/// Two branches costing 1 and 3, joining and then costing 2 more.
fn branches() -> StdVectorFst {
    let mut fst = StdVectorFst::new();
    for _ in 0..4 {
        fst.add_state();
    }
    fst.set_start(0);
    fst.add_arc(0, StdArc::new(1, 1, TropicalWeight(1.0), 1));
    fst.add_arc(0, StdArc::new(2, 2, TropicalWeight(3.0), 2));
    fst.add_arc(1, StdArc::new(3, 3, TropicalWeight(2.0), 3));
    fst.add_arc(2, StdArc::new(4, 4, TropicalWeight(2.0), 3));
    fst.set_final(3, TropicalWeight::one());
    fst.learn_properties();
    fst
}

fn pushed(to: ReweightType, remove_total: bool) -> StdVectorFst {
    let mut fst = branches();
    push_weights(&mut fst, to, &SHORTEST_DELTA, remove_total).unwrap();
    fst
}

/// Pushing to the front commits weight as early as it can, so every
/// non-initial state's outgoing weight sums to One.
#[test]
fn pushing_to_the_initial_state_leaves_one_behind_every_state() {
    let fst = pushed(ReweightType::ToInitial, true);
    for state in 1..fst.num_states() as i32 {
        assert_eq!(leaving(&fst, state), TropicalWeight::one(), "state {state}");
    }
    // The lighter branch is now free, and the difference sits on the other.
    let from_start: Vec<f32> = fst.arcs(0).map(|a| a.weight().value()).collect();
    assert_eq!(from_start, vec![0.0, 2.0]);
}

/// Pushing does not change what the FST accepts, only where the weight
/// sits along each path.
#[test]
fn pushing_does_not_change_the_paths() {
    let before = sorted(paths(&branches(), 12));
    assert_eq!(
        sorted(paths(&pushed(ReweightType::ToInitial, false), 12)),
        before
    );
    assert_eq!(
        sorted(paths(&pushed(ReweightType::ToFinal, false), 12)),
        before
    );
}

/// Dividing the total out makes the shortest path weigh One; the others
/// weigh what they cost above it.
#[test]
fn removing_the_total_weight_makes_the_best_path_free() {
    for to in [ReweightType::ToInitial, ReweightType::ToFinal] {
        let fst = pushed(to, true);
        let mut weights: Vec<f32> = paths(&fst, 12)
            .into_iter()
            .map(|(_, _, weight)| weight.value())
            .collect();
        weights.sort_by(f32::total_cmp);
        assert_eq!(weights, vec![0.0, 2.0], "{to:?}");
    }
}

/// Whatever the FST, pushing changes only where the weight sits.
#[test]
fn pushing_never_changes_what_a_path_costs_in_total() {
    let mut rng = Rng::new(0x00F0_54ED_u64);
    for round in 0..200 {
        let fst = random_acyclic_fst(&mut rng, 6);
        let before = sorted(paths(&fst, 12));
        if before.is_empty() {
            continue;
        }
        for to in [ReweightType::ToInitial, ReweightType::ToFinal] {
            let mut copy = fst.clone();
            push_weights(&mut copy, to, &SHORTEST_DELTA, false).unwrap();
            assert_eq!(sorted(paths(&copy, 12)), before, "round {round}, {to:?}");
        }
    }
}

/// Pushing labels moves the output side towards the front, leaving what the
/// FST transduces unchanged.
#[test]
fn pushing_labels_moves_the_output_side_forward() {
    // 0 -a:eps-> 1 -b:xy-> 2, final.
    let mut fst = StdVectorFst::new();
    for _ in 0..3 {
        fst.add_state();
    }
    fst.set_start(0);
    fst.add_arc(0, StdArc::new(1, 0, TropicalWeight::one(), 1));
    fst.add_arc(1, StdArc::new(2, 7, TropicalWeight::one(), 2));
    fst.set_final(2, TropicalWeight::one());
    fst.learn_properties();

    let before = sorted(paths(&fst, 12));
    let mut out = StdVectorFst::new();
    push_to_initial(&fst, &mut out, PUSH_LABELS, &SHORTEST_DELTA).unwrap();

    // The output label 7 has moved onto the first arc.
    let first: Vec<i32> = out.arcs(out.start().unwrap()).map(|a| a.olabel()).collect();
    assert_eq!(first, vec![7]);

    // And the transduction is the same, once epsilons are set aside.
    let visible =
        |paths: Vec<(Vec<i32>, Vec<i32>, String)>| -> Vec<(Vec<i32>, Vec<i32>, String)> {
            paths
                .into_iter()
                .map(|(i, o, w)| {
                    (
                        i.into_iter().filter(|l| *l != 0).collect(),
                        o.into_iter().filter(|l| *l != 0).collect(),
                        w,
                    )
                })
                .collect()
        };
    assert_eq!(visible(sorted(paths(&out, 12))), visible(before));
}

/// Pushing labels and weights together leaves the transduction alone.
#[test]
fn pushing_labels_and_weights_keeps_the_transduction() {
    let mut rng = Rng::new(0x001A_B315_u64);
    let visible =
        |paths: Vec<(Vec<i32>, Vec<i32>, String)>| -> Vec<(Vec<i32>, Vec<i32>, String)> {
            paths
                .into_iter()
                .map(|(i, o, w)| {
                    (
                        i.into_iter().filter(|l| *l != 0).collect(),
                        o.into_iter().filter(|l| *l != 0).collect(),
                        w,
                    )
                })
                .collect()
        };
    for round in 0..100 {
        let fst = random_acyclic_fst(&mut rng, 5);
        let before = visible(sorted(paths(&fst, 12)));
        if before.is_empty() {
            continue;
        }
        let mut out = StdVectorFst::new();
        push_to_initial(&fst, &mut out, PUSH_LABELS | PUSH_WEIGHTS, &SHORTEST_DELTA).unwrap();
        assert_eq!(visible(sorted(paths(&out, 12))), before, "round {round}");
    }
}

/// Asking for neither weights nor labels copies the FST.
#[test]
fn pushing_nothing_copies_the_fst() {
    let fst = branches();
    let mut out = StdVectorFst::new();
    push_to_initial(&fst, &mut out, 0, &SHORTEST_DELTA).unwrap();
    assert_eq!(sorted(paths(&out, 12)), sorted(paths(&fst, 12)));
    assert_eq!(out.num_states(), fst.num_states());
}

/// The total weight read off a distance vector is the sum over accepting
/// paths, whichever end it was computed from.
#[test]
fn the_total_weight_is_the_same_from_either_end() {
    let fst = branches();
    let forward = shortest_distance_forward(&fst, &SHORTEST_DELTA).unwrap();
    let backward = shortest_distance_reverse(&fst, &SHORTEST_DELTA).unwrap();
    assert_eq!(
        total_weight(&fst, &forward, false),
        total_weight(&fst, &backward, true)
    );
    assert_eq!(total_weight(&fst, &forward, false), TropicalWeight(3.0));
}
