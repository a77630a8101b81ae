#![allow(dead_code)]

use sicada::arc::Arc;
use sicada::properties::{K_ACCEPTOR, K_ACCESSIBLE, K_ACYCLIC, K_CO_ACCESSIBLE, K_CYCLIC, K_EPSILONS, K_FST_PROPERTIES, K_INITIAL_ACYCLIC, K_INITIAL_CYCLIC, K_I_DETERMINISTIC, K_I_EPSILONS, K_I_LABEL_SORTED, K_NON_I_DETERMINISTIC, K_NON_O_DETERMINISTIC, K_NOT_ACCEPTOR, K_NOT_ACCESSIBLE, K_NOT_CO_ACCESSIBLE, K_NOT_I_LABEL_SORTED, K_NOT_O_LABEL_SORTED, K_NOT_STRING, K_NOT_TOP_SORTED, K_NO_EPSILONS, K_NO_I_EPSILONS, K_NO_O_EPSILONS, K_O_DETERMINISTIC, K_O_EPSILONS, K_O_LABEL_SORTED, K_STRING, K_TOP_SORTED, K_UNWEIGHTED, K_UNWEIGHTED_CYCLES, K_WEIGHTED, K_WEIGHTED_CYCLES};
use sicada::prune::{PruneOptions, prune, prune_to};
use sicada::shortest_distance::{shortest_distance_forward, shortest_distance_reverse};
use sicada::vector_fst::VectorFst;
use sicada::weight::{COMMUTATIVE, IDEMPOTENT, LEFT_SEMIRING, PATH, RIGHT_SEMIRING, Weight, natural_less};

/// The tropical semiring: the least weight wins, and weights along a path add up.
#[derive(Clone, Copy, Debug, PartialEq, PartialOrd)]
struct TropicalWeight(f32);

impl TropicalWeight {
    fn new(value: f32) -> Self {
        TropicalWeight(value)
    }

    fn value(&self) -> f32 {
        self.0
    }
}

impl Weight for TropicalWeight {
    type Delta = f32;

    fn spec_zero() -> Self {
        unreachable!()
    }

    fn spec_one() -> Self {
        unreachable!()
    }

    fn spec_no_weight() -> Self {
        unreachable!()
    }

    fn spec_plus(self, _other: Self) -> Self {
        unreachable!()
    }

    fn spec_times(self, _other: Self) -> Self {
        unreachable!()
    }

    fn spec_member(self) -> bool {
        unreachable!()
    }

    fn spec_approx(self, _other: Self, _delta: f32) -> bool {
        unreachable!()
    }

    fn spec_quantize(self, _delta: f32) -> Self {
        unreachable!()
    }

    fn spec_hash_word(self) -> u64 {
        unreachable!()
    }

    fn spec_properties() -> u64 {
        unreachable!()
    }

    fn spec_default_delta() -> f32 {
        unreachable!()
    }

    fn zero() -> Self {
        TropicalWeight(f32::INFINITY)
    }

    fn one() -> Self {
        TropicalWeight(0.0)
    }

    fn no_weight() -> Self {
        TropicalWeight(f32::NAN)
    }

    fn plus(&self, other: &Self) -> Self {
        if !self.is_member() || !other.is_member() {
            return Self::no_weight();
        }
        TropicalWeight(self.0.min(other.0))
    }

    fn times(&self, other: &Self) -> Self {
        if !self.is_member() || !other.is_member() {
            return Self::no_weight();
        }
        TropicalWeight(self.0 + other.0)
    }

    fn duplicate(&self) -> Self {
        *self
    }

    fn same(&self, other: &Self) -> bool {
        self.0 == other.0
    }

    fn is_member(&self) -> bool {
        !self.0.is_nan() && self.0 != f32::NEG_INFINITY
    }

    fn approx_equal(&self, other: &Self, delta: &f32) -> bool {
        self.0 <= other.0 + delta && other.0 <= self.0 + delta
    }

    fn quantize(&self, delta: &f32) -> Self {
        if self.0.is_finite() {
            TropicalWeight((self.0 / delta + 0.5).floor() * delta)
        } else {
            *self
        }
    }

    fn hash_word(&self) -> u64 {
        self.0.to_bits() as u64
    }

    fn properties() -> u64 {
        LEFT_SEMIRING | RIGHT_SEMIRING | COMMUTATIVE | IDEMPOTENT | PATH
    }

    fn default_delta() -> f32 {
        1.0 / 1024.0
    }
}

/// An arc whose weight is tropical.
#[derive(Clone, Copy, Debug, PartialEq)]
struct StdArc {
    ilabel: i32,
    olabel: i32,
    weight: TropicalWeight,
    nextstate: i32,
}

impl StdArc {
    fn new(ilabel: i32, olabel: i32, weight: TropicalWeight, nextstate: i32) -> Self {
        StdArc { ilabel, olabel, weight, nextstate }
    }

    fn of(arc: &Arc<TropicalWeight>) -> Self {
        StdArc::new(arc.ilabel, arc.olabel, arc.weight, arc.nextstate as i32)
    }

    fn raw(&self) -> Arc<TropicalWeight> {
        Arc::new(self.ilabel, self.olabel, self.weight, self.nextstate as usize)
    }

    fn ilabel(&self) -> i32 {
        self.ilabel
    }

    fn olabel(&self) -> i32 {
        self.olabel
    }

    fn weight(&self) -> TropicalWeight {
        self.weight
    }

    fn nextstate(&self) -> i32 {
        self.nextstate
    }
}

/// A machine over tropical weights, with states counted by `i32`.
struct StdVectorFst(VectorFst<TropicalWeight>);

impl std::ops::Deref for StdVectorFst {
    type Target = VectorFst<TropicalWeight>;

    fn deref(&self) -> &VectorFst<TropicalWeight> {
        &self.0
    }
}

impl std::ops::DerefMut for StdVectorFst {
    fn deref_mut(&mut self) -> &mut VectorFst<TropicalWeight> {
        &mut self.0
    }
}

impl Clone for StdVectorFst {
    fn clone(&self) -> Self {
        StdVectorFst(self.0.duplicate())
    }
}

impl StdVectorFst {
    fn new() -> Self {
        StdVectorFst(VectorFst::new())
    }

    fn add_state(&mut self) -> i32 {
        self.0.add_state() as i32
    }

    fn set_start(&mut self, s: i32) {
        self.0.set_start(s as usize);
    }

    fn start(&self) -> Option<i32> {
        self.0.start().map(|s| s as i32)
    }

    fn set_final(&mut self, s: i32, weight: TropicalWeight) {
        self.0.set_final(s as usize, weight);
    }

    fn final_weight(&self, s: i32) -> TropicalWeight {
        self.0.final_weight(s as usize)
    }

    fn add_arc(&mut self, s: i32, arc: StdArc) {
        self.0.add_arc(s as usize, arc.raw());
    }

    fn states(&self) -> std::ops::Range<i32> {
        0..self.0.num_states() as i32
    }

    fn arcs(&self, s: i32) -> std::vec::IntoIter<StdArc> {
        let arcs: Vec<StdArc> = self.0.arcs(s as usize).iter().map(StdArc::of).collect();
        arcs.into_iter()
    }

    fn num_arcs(&self, s: i32) -> usize {
        self.0.num_arcs(s as usize)
    }

    fn delete_arcs(&mut self, s: i32) {
        self.0.delete_arcs(s as usize);
    }

    fn mutate_arcs(&mut self, s: i32, change: impl Fn(&mut StdArc)) {
        let mut arcs: Vec<StdArc> = self.arcs(s).collect();
        for arc in &mut arcs {
            change(arc);
        }
        self.0.set_arcs(s as usize, arcs.iter().map(StdArc::raw).collect());
    }

    /// What holds of the machine, read off its states and arcs where `test` says so.
    fn properties(&self, mask: u64, test: bool) -> u64 {
        if test {
            compute_properties(&self.0) & mask
        } else {
            self.0.known_properties(mask)
        }
    }

    /// Reads off the machine what holds of it, and keeps that with it.
    fn learn_properties(&mut self) {
        let props = compute_properties(&self.0);
        self.0.set_properties(props, K_FST_PROPERTIES);
    }
}

/// Every property of a machine that can be read off its states and arcs.
fn compute_properties<W: Weight>(fst: &VectorFst<W>) -> u64 {
    let n = fst.num_states();
    let one = W::one();
    let zero = W::zero();
    let mut props = 0u64;
    let mut reach = vec![vec![false; n]; n];
    for s in 0..n {
        for arc in fst.arcs(s) {
            reach[s][arc.nextstate] = true;
        }
    }
    for k in 0..n {
        for i in 0..n {
            if reach[i][k] {
                for j in 0..n {
                    if reach[k][j] {
                        reach[i][j] = true;
                    }
                }
            }
        }
    }
    let start = fst.start();
    let arcs: Vec<(usize, &Arc<W>)> =
        (0..n).flat_map(|s| fst.arcs(s).iter().map(move |arc| (s, arc))).collect();
    let repeats = |label: fn(&Arc<W>) -> i32| {
        (0..n).any(|s| {
            let mut labels: Vec<i32> = fst.arcs(s).iter().map(label).collect();
            labels.sort();
            labels.windows(2).any(|pair| pair[0] == pair[1])
        })
    };
    let falls = |label: fn(&Arc<W>) -> i32| {
        (0..n).any(|s| fst.arcs(s).windows(2).any(|pair| label(&pair[0]) > label(&pair[1])))
    };
    let mut set = |holds: bool, yes: u64, no: u64| {
        props |= if holds { yes } else { no };
    };
    set(arcs.iter().all(|(_, a)| a.ilabel == a.olabel), K_ACCEPTOR, K_NOT_ACCEPTOR);
    set(!repeats(|a| a.ilabel), K_I_DETERMINISTIC, K_NON_I_DETERMINISTIC);
    set(!repeats(|a| a.olabel), K_O_DETERMINISTIC, K_NON_O_DETERMINISTIC);
    set(arcs.iter().any(|(_, a)| a.ilabel == 0 && a.olabel == 0), K_EPSILONS, K_NO_EPSILONS);
    set(arcs.iter().any(|(_, a)| a.ilabel == 0), K_I_EPSILONS, K_NO_I_EPSILONS);
    set(arcs.iter().any(|(_, a)| a.olabel == 0), K_O_EPSILONS, K_NO_O_EPSILONS);
    set(!falls(|a| a.ilabel), K_I_LABEL_SORTED, K_NOT_I_LABEL_SORTED);
    set(!falls(|a| a.olabel), K_O_LABEL_SORTED, K_NOT_O_LABEL_SORTED);
    let weighted = arcs.iter().any(|(_, a)| !a.weight.same(&one) && !a.weight.same(&zero))
        || (0..n).any(|s| {
            let w = fst.final_weight(s);
            !w.same(&one) && !w.same(&zero)
        });
    set(weighted, K_WEIGHTED, K_UNWEIGHTED);
    let has_cycle = (0..n).any(|s| reach[s][s]);
    set(has_cycle, K_CYCLIC, K_ACYCLIC);
    let initial_cycle = start.is_some_and(|s| reach[s][s]);
    set(initial_cycle, K_INITIAL_CYCLIC, K_INITIAL_ACYCLIC);
    set(arcs.iter().all(|(s, a)| a.nextstate > *s), K_TOP_SORTED, K_NOT_TOP_SORTED);
    let seen = |s: usize| start.is_some_and(|i| i == s || reach[i][s]);
    let ends = |s: usize| (0..n).any(|t| fst.is_final(t) && (s == t || reach[s][t]));
    set((0..n).all(seen), K_ACCESSIBLE, K_NOT_ACCESSIBLE);
    set((0..n).all(ends), K_CO_ACCESSIBLE, K_NOT_CO_ACCESSIBLE);
    let string = start.map_or(n == 0, |i| i == 0)
        && (0..n).all(|s| {
            if fst.is_final(s) {
                fst.num_arcs(s) == 0 && s + 1 == n
            } else {
                fst.num_arcs(s) == 1 && fst.arcs(s)[0].nextstate == s + 1
            }
        });
    set(string, K_STRING, K_NOT_STRING);
    let weighted_cycle =
        arcs.iter().any(|(s, a)| {
            !a.weight.same(&one) && !a.weight.same(&zero) && (a.nextstate == *s || reach[a.nextstate][*s])
        });
    set(weighted_cycle, K_WEIGHTED_CYCLES, K_UNWEIGHTED_CYCLES);
    props
}

/// A small generator of repeatable numbers.
struct Rng(u64);

impl Rng {
    fn new(seed: u64) -> Self {
        Rng(seed.wrapping_mul(0x9E37_79B9_7F4A_7C15) | 1)
    }

    fn next(&mut self) -> u64 {
        self.0 ^= self.0 << 13;
        self.0 ^= self.0 >> 7;
        self.0 ^= self.0 << 17;
        self.0
    }

    /// A number less than `bound`.
    fn below(&mut self, bound: usize) -> usize {
        ((self.next() >> 11) % bound as u64) as usize
    }
}

/// An acceptor with no cycle, in which every state but the last has an arc on.
fn random_acyclic_fst(rng: &mut Rng, states: usize) -> StdVectorFst {
    let mut fst = StdVectorFst::new();
    for _ in 0..states {
        fst.add_state();
    }
    fst.set_start(0);
    for s in 0..states - 1 {
        let arcs = 1 + rng.below(3);
        for _ in 0..arcs {
            let next = s + 1 + rng.below(states - 1 - s);
            let label = 1 + rng.below(3) as i32;
            let weight = TropicalWeight::new(rng.below(5) as f32);
            fst.add_arc(s as i32, StdArc::new(label, label, weight, next as i32));
        }
        if rng.below(4) == 0 {
            fst.set_final(s as i32, TropicalWeight::new(rng.below(5) as f32));
        }
    }
    fst.set_final(states as i32 - 1, TropicalWeight::new(rng.below(5) as f32));
    fst.learn_properties();
    fst
}

/// Every successful path of at most `limit` arcs: its two label strings and its weight.
fn paths(fst: &StdVectorFst, limit: usize) -> Vec<(Vec<i32>, Vec<i32>, TropicalWeight)> {
    let mut found = Vec::new();
    let mut open = Vec::new();
    if let Some(start) = fst.start() {
        open.push((start, Vec::new(), Vec::new(), TropicalWeight::one(), 0usize));
    }
    while let Some((s, input, output, weight, length)) = open.pop() {
        let end = fst.final_weight(s);
        if end != TropicalWeight::zero() {
            found.push((input.clone(), output.clone(), weight.times(&end)));
        }
        if length < limit {
            for arc in fst.arcs(s) {
                let mut input: Vec<i32> = input.clone();
                let mut output: Vec<i32> = output.clone();
                input.push(arc.ilabel());
                output.push(arc.olabel());
                open.push((arc.nextstate(), input, output, weight.times(&arc.weight()), length + 1));
            }
        }
    }
    found
}

/// The paths in order, with their weights written out.
fn sorted(paths: Vec<(Vec<i32>, Vec<i32>, TropicalWeight)>) -> Vec<(Vec<i32>, Vec<i32>, String)> {
    let mut rows: Vec<(Vec<i32>, Vec<i32>, String)> =
        paths.into_iter().map(|(i, o, w)| (i, o, format!("{:.4}", w.value()))).collect();
    rows.sort();
    rows
}

/// How far a shortest distance may still move and count as settled.
const SHORTEST_DELTA: f32 = 1e-6;

/// Three paths from 0 to 3 weighing 1, 3 and 6.
fn fan() -> StdVectorFst {
    let mut fst = StdVectorFst::new();
    for _ in 0..3 {
        fst.add_state();
    }
    fst.set_start(0);
    fst.add_arc(0, StdArc::new(1, 1, TropicalWeight(1.0), 1));
    fst.add_arc(0, StdArc::new(2, 2, TropicalWeight(3.0), 1));
    fst.add_arc(0, StdArc::new(3, 3, TropicalWeight(6.0), 2));
    fst.set_final(1, TropicalWeight::one());
    fst.set_final(2, TropicalWeight::one());
    fst.learn_properties();
    fst
}

fn kept(fst: &StdVectorFst) -> Vec<(Vec<i32>, Vec<i32>, String)> {
    sorted(paths(fst, 12))
}

fn prune_copy(fst: &StdVectorFst, threshold: f32) -> StdVectorFst {
    let mut out = StdVectorFst::new();
    prune_to(
        fst,
        &mut out,
        &PruneOptions::threshold(TropicalWeight(threshold)),
        &mut Vec::new(),
    )
    .unwrap();
    out
}

fn prune_in_place(fst: &StdVectorFst, threshold: f32) -> StdVectorFst {
    let mut copy = fst.clone();
    prune(
        &mut copy,
        &PruneOptions::threshold(TropicalWeight(threshold)),
    )
    .unwrap();
    copy
}

/// The threshold is measured from the shortest path, so a threshold of 2
/// keeps everything up to weight 3.
#[test]
fn a_path_further_than_the_threshold_goes() {
    let fst = fan();
    assert_eq!(kept(&prune_copy(&fst, 2.0)).len(), 2, "1 and 3 survive");
    assert_eq!(kept(&prune_copy(&fst, 0.0)).len(), 1, "only the shortest");
    assert_eq!(kept(&prune_copy(&fst, 5.0)).len(), 3, "all three");
}

/// Pruning in place and pruning into a new FST keep the same paths.
#[test]
fn pruning_in_place_keeps_what_pruning_into_a_copy_keeps() {
    let fst = fan();
    for threshold in [0.0, 1.0, 2.0, 5.0, 100.0] {
        assert_eq!(
            kept(&prune_in_place(&fst, threshold)),
            kept(&prune_copy(&fst, threshold)),
            "threshold {threshold}"
        );
    }
}

/// Pruning keeps a state or arc exactly when the best path through it is
/// within the limit, which is stronger than "the paths within the limit
/// survive", since an arc shared by a good path and a bad one keeps both.
#[test]
fn an_arc_survives_exactly_when_the_best_path_through_it_does() {
    let mut rng = Rng::new(0x_0BAD_C0DE_u64);
    let mut checked = 0;
    for round in 0..200 {
        let fst = random_acyclic_fst(&mut rng, 6);
        let forward = shortest_distance_forward(&fst, &SHORTEST_DELTA).unwrap();
        let backward = shortest_distance_reverse(&fst, &SHORTEST_DELTA).unwrap();
        let Some(start) = fst.start() else { continue };
        let shortest = backward
            .get(start as usize)
            .copied()
            .unwrap_or_else(TropicalWeight::zero);
        if shortest == TropicalWeight::zero() {
            continue; // Nothing accepts.
        }
        checked += 1;

        for threshold in [0.0f32, 1.0, 3.0] {
            let limit = shortest.times(&TropicalWeight(threshold));
            let at = |distance: &[TropicalWeight], state: usize| {
                distance
                    .get(state)
                    .copied()
                    .unwrap_or_else(TropicalWeight::zero)
            };

            let mut out = StdVectorFst::new();
            let mut map = Vec::new();
            prune_to(
                &fst,
                &mut out,
                &PruneOptions::threshold(TropicalWeight(threshold)),
                &mut map,
            )
            .unwrap();

            for state in fst.states() {
                let index = state as usize;
                let here = at(&forward, index);
                let want: Vec<StdArc> = fst
                    .arcs(state)
                    .filter(|arc| {
                        let through = here
                            .times(&arc.weight())
                            .times(&at(&backward, arc.nextstate() as usize));
                        !natural_less(&limit, &through)
                    })
                    .collect();

                let Some(Some(copied)) = map.get(index).copied() else {
                    assert!(
                        want.is_empty(),
                        "round {round}, threshold {threshold}: state {state} was dropped but \
                         {} of its arcs are within the limit",
                        want.len()
                    );
                    continue;
                };
                let got: Vec<(i32, i32, TropicalWeight)> = out
                    .arcs(copied as i32)
                    .map(|arc| (arc.ilabel(), arc.olabel(), arc.weight()))
                    .collect();
                let want: Vec<(i32, i32, TropicalWeight)> = want
                    .iter()
                    .map(|arc| (arc.ilabel(), arc.olabel(), arc.weight()))
                    .collect();
                assert_eq!(
                    got, want,
                    "round {round}, threshold {threshold}, state {state}"
                );
            }
        }
    }
    assert!(checked > 50, "only {checked} FSTs had an accepting path");
}

/// Every path within the limit is still there afterwards.
#[test]
fn no_path_within_the_threshold_is_lost() {
    let mut rng = Rng::new(0x_00FF_1CE5_u64);
    for round in 0..200 {
        let fst = random_acyclic_fst(&mut rng, 6);
        let before = paths(&fst, 12);
        let Some(shortest) = before
            .iter()
            .map(|(_, _, weight)| weight.value())
            .min_by(f32::total_cmp)
        else {
            continue;
        };

        for threshold in [0.0f32, 1.0, 3.0] {
            let limit = shortest + threshold + 1e-6;
            let want = sorted(
                before
                    .iter()
                    .filter(|(_, _, weight)| weight.value() <= limit)
                    .cloned()
                    .collect(),
            );
            let after = sorted(paths(&prune_copy(&fst, threshold), 12));
            for path in &want {
                assert!(
                    after.contains(path),
                    "round {round}, threshold {threshold}: {path:?} was lost"
                );
            }
            for path in &after {
                assert!(
                    sorted(before.clone()).contains(path),
                    "round {round}, threshold {threshold}: {path:?} is not a path of the input"
                );
            }
        }
    }
}

/// The state limit caps how much is kept, whatever the weights say.
#[test]
fn the_state_threshold_caps_the_result() {
    let fst = fan();
    let mut out = StdVectorFst::new();
    let opts = PruneOptions {
        state_threshold: Some(2),
        ..PruneOptions::threshold(TropicalWeight(100.0))
    };
    prune_to(&fst, &mut out, &opts, &mut Vec::new()).unwrap();
    assert!(out.num_states() <= 2, "{} states", out.num_states());

    // A limit of zero keeps nothing at all.
    let opts = PruneOptions {
        state_threshold: Some(0),
        ..PruneOptions::threshold(TropicalWeight(100.0))
    };
    let mut out = StdVectorFst::new();
    prune_to(&fst, &mut out, &opts, &mut Vec::new()).unwrap();
    assert_eq!(out.num_states(), 0);
}

/// An FST nothing accepts prunes to nothing.
#[test]
fn an_fst_with_no_accepting_path_prunes_away() {
    let mut fst = StdVectorFst::new();
    for _ in 0..2 {
        fst.add_state();
    }
    fst.set_start(0);
    fst.add_arc(0, StdArc::new(1, 1, TropicalWeight(1.0), 1));
    fst.learn_properties();

    assert_eq!(prune_copy(&fst, 5.0).num_states(), 0);
    assert_eq!(prune_in_place(&fst, 5.0).num_states(), 0);
}

/// An empty FST is nothing to prune.
#[test]
fn an_empty_fst_is_left_empty() {
    let empty = StdVectorFst::new();
    assert_eq!(prune_copy(&empty, 1.0).num_states(), 0);
    assert_eq!(prune_in_place(&empty, 1.0).num_states(), 0);
}

/// The map says which state of the result each input state became.
#[test]
fn the_state_map_says_where_each_state_went() {
    let fst = fan();
    let mut out = StdVectorFst::new();
    let mut map = Vec::new();
    prune_to(
        &fst,
        &mut out,
        &PruneOptions::threshold(TropicalWeight(2.0)),
        &mut map,
    )
    .unwrap();
    assert_eq!(map[0], Some(out.start().unwrap() as usize));
    assert!(map[1].is_some(), "state 1 is on a surviving path");
    assert!(
        map.get(2).copied().flatten().is_none(),
        "state 2 is only reached by the path that was pruned"
    );
}

/// A precomputed distance is used as given rather than recomputed.
#[test]
fn a_supplied_distance_is_used() {
    let fst = fan();
    let distance = shortest_distance_reverse(&fst, &SHORTEST_DELTA).unwrap();
    let opts = PruneOptions {
        distance: Some(distance),
        ..PruneOptions::threshold(TropicalWeight(2.0))
    };
    let mut out = StdVectorFst::new();
    prune_to(&fst, &mut out, &opts, &mut Vec::new()).unwrap();
    assert_eq!(kept(&out), kept(&prune_copy(&fst, 2.0)));
}
