#![allow(dead_code)]

use sicada::arc::Arc;
use sicada::connect::{condense, connect};
use sicada::properties::{K_ACCEPTOR, K_ACCESSIBLE, K_ACYCLIC, K_CO_ACCESSIBLE, K_CYCLIC, K_EPSILONS, K_FST_PROPERTIES, K_INITIAL_ACYCLIC, K_INITIAL_CYCLIC, K_I_DETERMINISTIC, K_I_EPSILONS, K_I_LABEL_SORTED, K_NON_I_DETERMINISTIC, K_NON_O_DETERMINISTIC, K_NOT_ACCEPTOR, K_NOT_ACCESSIBLE, K_NOT_CO_ACCESSIBLE, K_NOT_I_LABEL_SORTED, K_NOT_O_LABEL_SORTED, K_NOT_STRING, K_NOT_TOP_SORTED, K_NO_EPSILONS, K_NO_I_EPSILONS, K_NO_O_EPSILONS, K_O_DETERMINISTIC, K_O_EPSILONS, K_O_LABEL_SORTED, K_STRING, K_TOP_SORTED, K_UNWEIGHTED, K_UNWEIGHTED_CYCLES, K_WEIGHTED, K_WEIGHTED_CYCLES};
use sicada::vector_fst::VectorFst;
use sicada::weight::{COMMUTATIVE, IDEMPOTENT, LEFT_SEMIRING, PATH, RIGHT_SEMIRING, Weight};

/// The tropical semiring: the least weight wins, and weights along a path add up.
#[derive(Clone, Copy, Debug, PartialEq, PartialOrd)]
struct TropicalWeight(f32);

impl TropicalWeight {
    fn new(value: f32) -> Self {
        TropicalWeight(value)
    }

    fn value(&self) -> f32 {
        self.0
    }
}

impl Weight for TropicalWeight {
    type Delta = f32;

    fn spec_zero() -> Self {
        unreachable!()
    }

    fn spec_one() -> Self {
        unreachable!()
    }

    fn spec_no_weight() -> Self {
        unreachable!()
    }

    fn spec_plus(self, _other: Self) -> Self {
        unreachable!()
    }

    fn spec_times(self, _other: Self) -> Self {
        unreachable!()
    }

    fn spec_member(self) -> bool {
        unreachable!()
    }

    fn spec_approx(self, _other: Self, _delta: f32) -> bool {
        unreachable!()
    }

    fn spec_quantize(self, _delta: f32) -> Self {
        unreachable!()
    }

    fn spec_hash_word(self) -> u64 {
        unreachable!()
    }

    fn spec_properties() -> u64 {
        unreachable!()
    }

    fn spec_default_delta() -> f32 {
        unreachable!()
    }

    fn zero() -> Self {
        TropicalWeight(f32::INFINITY)
    }

    fn one() -> Self {
        TropicalWeight(0.0)
    }

    fn no_weight() -> Self {
        TropicalWeight(f32::NAN)
    }

    fn plus(&self, other: &Self) -> Self {
        if !self.is_member() || !other.is_member() {
            return Self::no_weight();
        }
        TropicalWeight(self.0.min(other.0))
    }

    fn times(&self, other: &Self) -> Self {
        if !self.is_member() || !other.is_member() {
            return Self::no_weight();
        }
        TropicalWeight(self.0 + other.0)
    }

    fn duplicate(&self) -> Self {
        *self
    }

    fn same(&self, other: &Self) -> bool {
        self.0 == other.0
    }

    fn is_member(&self) -> bool {
        !self.0.is_nan() && self.0 != f32::NEG_INFINITY
    }

    fn approx_equal(&self, other: &Self, delta: &f32) -> bool {
        self.0 <= other.0 + delta && other.0 <= self.0 + delta
    }

    fn quantize(&self, delta: &f32) -> Self {
        if self.0.is_finite() {
            TropicalWeight((self.0 / delta + 0.5).floor() * delta)
        } else {
            *self
        }
    }

    fn hash_word(&self) -> u64 {
        self.0.to_bits() as u64
    }

    fn properties() -> u64 {
        LEFT_SEMIRING | RIGHT_SEMIRING | COMMUTATIVE | IDEMPOTENT | PATH
    }

    fn default_delta() -> f32 {
        1.0 / 1024.0
    }
}

/// An arc whose weight is tropical.
#[derive(Clone, Copy, Debug, PartialEq)]
struct StdArc {
    ilabel: i32,
    olabel: i32,
    weight: TropicalWeight,
    nextstate: i32,
}

impl StdArc {
    fn new(ilabel: i32, olabel: i32, weight: TropicalWeight, nextstate: i32) -> Self {
        StdArc { ilabel, olabel, weight, nextstate }
    }

    fn of(arc: &Arc<TropicalWeight>) -> Self {
        StdArc::new(arc.ilabel, arc.olabel, arc.weight, arc.nextstate as i32)
    }

    fn raw(&self) -> Arc<TropicalWeight> {
        Arc::new(self.ilabel, self.olabel, self.weight, self.nextstate as usize)
    }

    fn ilabel(&self) -> i32 {
        self.ilabel
    }

    fn olabel(&self) -> i32 {
        self.olabel
    }

    fn weight(&self) -> TropicalWeight {
        self.weight
    }

    fn nextstate(&self) -> i32 {
        self.nextstate
    }
}

/// A machine over tropical weights, with states counted by `i32`.
struct StdVectorFst(VectorFst<TropicalWeight>);

impl std::ops::Deref for StdVectorFst {
    type Target = VectorFst<TropicalWeight>;

    fn deref(&self) -> &VectorFst<TropicalWeight> {
        &self.0
    }
}

impl std::ops::DerefMut for StdVectorFst {
    fn deref_mut(&mut self) -> &mut VectorFst<TropicalWeight> {
        &mut self.0
    }
}

impl Clone for StdVectorFst {
    fn clone(&self) -> Self {
        StdVectorFst(self.0.duplicate())
    }
}

impl StdVectorFst {
    fn new() -> Self {
        StdVectorFst(VectorFst::new())
    }

    fn add_state(&mut self) -> i32 {
        self.0.add_state() as i32
    }

    fn set_start(&mut self, s: i32) {
        self.0.set_start(s as usize);
    }

    fn start(&self) -> Option<i32> {
        self.0.start().map(|s| s as i32)
    }

    fn set_final(&mut self, s: i32, weight: TropicalWeight) {
        self.0.set_final(s as usize, weight);
    }

    fn final_weight(&self, s: i32) -> TropicalWeight {
        self.0.final_weight(s as usize)
    }

    fn add_arc(&mut self, s: i32, arc: StdArc) {
        self.0.add_arc(s as usize, arc.raw());
    }

    fn states(&self) -> std::ops::Range<i32> {
        0..self.0.num_states() as i32
    }

    fn arcs(&self, s: i32) -> std::vec::IntoIter<StdArc> {
        let arcs: Vec<StdArc> = self.0.arcs(s as usize).iter().map(StdArc::of).collect();
        arcs.into_iter()
    }

    fn num_arcs(&self, s: i32) -> usize {
        self.0.num_arcs(s as usize)
    }

    fn delete_arcs(&mut self, s: i32) {
        self.0.delete_arcs(s as usize);
    }

    fn mutate_arcs(&mut self, s: i32, change: impl Fn(&mut StdArc)) {
        let mut arcs: Vec<StdArc> = self.arcs(s).collect();
        for arc in &mut arcs {
            change(arc);
        }
        self.0.set_arcs(s as usize, arcs.iter().map(StdArc::raw).collect());
    }

    /// What holds of the machine, read off its states and arcs where `test` says so.
    fn properties(&self, mask: u64, test: bool) -> u64 {
        if test {
            compute_properties(&self.0) & mask
        } else {
            self.0.known_properties(mask)
        }
    }

    /// Reads off the machine what holds of it, and keeps that with it.
    fn learn_properties(&mut self) {
        let props = compute_properties(&self.0);
        self.0.set_properties(props, K_FST_PROPERTIES);
    }
}

/// Every property of a machine that can be read off its states and arcs.
fn compute_properties<W: Weight>(fst: &VectorFst<W>) -> u64 {
    let n = fst.num_states();
    let one = W::one();
    let zero = W::zero();
    let mut props = 0u64;
    let mut reach = vec![vec![false; n]; n];
    for s in 0..n {
        for arc in fst.arcs(s) {
            reach[s][arc.nextstate] = true;
        }
    }
    for k in 0..n {
        for i in 0..n {
            if reach[i][k] {
                for j in 0..n {
                    if reach[k][j] {
                        reach[i][j] = true;
                    }
                }
            }
        }
    }
    let start = fst.start();
    let arcs: Vec<(usize, &Arc<W>)> =
        (0..n).flat_map(|s| fst.arcs(s).iter().map(move |arc| (s, arc))).collect();
    let repeats = |label: fn(&Arc<W>) -> i32| {
        (0..n).any(|s| {
            let mut labels: Vec<i32> = fst.arcs(s).iter().map(label).collect();
            labels.sort();
            labels.windows(2).any(|pair| pair[0] == pair[1])
        })
    };
    let falls = |label: fn(&Arc<W>) -> i32| {
        (0..n).any(|s| fst.arcs(s).windows(2).any(|pair| label(&pair[0]) > label(&pair[1])))
    };
    let mut set = |holds: bool, yes: u64, no: u64| {
        props |= if holds { yes } else { no };
    };
    set(arcs.iter().all(|(_, a)| a.ilabel == a.olabel), K_ACCEPTOR, K_NOT_ACCEPTOR);
    set(!repeats(|a| a.ilabel), K_I_DETERMINISTIC, K_NON_I_DETERMINISTIC);
    set(!repeats(|a| a.olabel), K_O_DETERMINISTIC, K_NON_O_DETERMINISTIC);
    set(arcs.iter().any(|(_, a)| a.ilabel == 0 && a.olabel == 0), K_EPSILONS, K_NO_EPSILONS);
    set(arcs.iter().any(|(_, a)| a.ilabel == 0), K_I_EPSILONS, K_NO_I_EPSILONS);
    set(arcs.iter().any(|(_, a)| a.olabel == 0), K_O_EPSILONS, K_NO_O_EPSILONS);
    set(!falls(|a| a.ilabel), K_I_LABEL_SORTED, K_NOT_I_LABEL_SORTED);
    set(!falls(|a| a.olabel), K_O_LABEL_SORTED, K_NOT_O_LABEL_SORTED);
    let weighted = arcs.iter().any(|(_, a)| !a.weight.same(&one) && !a.weight.same(&zero))
        || (0..n).any(|s| {
            let w = fst.final_weight(s);
            !w.same(&one) && !w.same(&zero)
        });
    set(weighted, K_WEIGHTED, K_UNWEIGHTED);
    let has_cycle = (0..n).any(|s| reach[s][s]);
    set(has_cycle, K_CYCLIC, K_ACYCLIC);
    let initial_cycle = start.is_some_and(|s| reach[s][s]);
    set(initial_cycle, K_INITIAL_CYCLIC, K_INITIAL_ACYCLIC);
    set(arcs.iter().all(|(s, a)| a.nextstate > *s), K_TOP_SORTED, K_NOT_TOP_SORTED);
    let seen = |s: usize| start.is_some_and(|i| i == s || reach[i][s]);
    let ends = |s: usize| (0..n).any(|t| fst.is_final(t) && (s == t || reach[s][t]));
    set((0..n).all(seen), K_ACCESSIBLE, K_NOT_ACCESSIBLE);
    set((0..n).all(ends), K_CO_ACCESSIBLE, K_NOT_CO_ACCESSIBLE);
    let string = start.map_or(n == 0, |i| i == 0)
        && (0..n).all(|s| {
            if fst.is_final(s) {
                fst.num_arcs(s) == 0 && s + 1 == n
            } else {
                fst.num_arcs(s) == 1 && fst.arcs(s)[0].nextstate == s + 1
            }
        });
    set(string, K_STRING, K_NOT_STRING);
    let weighted_cycle =
        arcs.iter().any(|(s, a)| {
            !a.weight.same(&one) && !a.weight.same(&zero) && (a.nextstate == *s || reach[a.nextstate][*s])
        });
    set(weighted_cycle, K_WEIGHTED_CYCLES, K_UNWEIGHTED_CYCLES);
    props
}

#[test]
fn test_connect() {
    let mut fst = StdVectorFst::new();
    let s0 = fst.add_state();
    let s1 = fst.add_state();
    let s2 = fst.add_state();
    let s3 = fst.add_state(); // dead end
    fst.set_start(s0);
    fst.set_final(s2, TropicalWeight::one());

    // 0 -> 1 -> 2 (successful path)
    fst.add_arc(s0, StdArc::new(1, 1, TropicalWeight::one(), s1));
    fst.add_arc(s1, StdArc::new(2, 2, TropicalWeight::one(), s2));

    // 1 -> 3 (dead end)
    fst.add_arc(s1, StdArc::new(3, 3, TropicalWeight::one(), s3));

    assert_eq!(fst.num_states(), 4);

    connect(&mut fst);

    // State 3 should be removed.
    assert_eq!(fst.num_states(), 3);
    // Properties check for K_ACCESSIBLE & K_CO_ACCESSIBLE
    let target_props = K_ACCESSIBLE | K_CO_ACCESSIBLE;
    assert_eq!(
        fst.properties(target_props, false) & target_props,
        target_props
    );
}

/// A state nothing reaches, numbered above every state that is reached.
#[test]
fn an_unreachable_last_state_is_removed() {
    let mut fst = StdVectorFst::new();
    for _ in 0..3 {
        fst.add_state();
    }
    fst.set_start(0);
    fst.add_arc(0, StdArc::new(1, 1, TropicalWeight::one(), 1));
    fst.set_final(1, TropicalWeight::one());
    // State 2 is reached by nothing and reaches nothing.

    connect(&mut fst);
    assert_eq!(fst.num_states(), 2);
}

/// The definition, checked against a brute-force one: a state survives
/// exactly when the start reaches it and it reaches a final state.
#[test]
fn connect_keeps_exactly_the_states_on_a_successful_path() {
    let mut rng = 0x1234_5678u64;
    let mut next = |bound: usize| {
        rng = rng.wrapping_mul(6364136223846793005).wrapping_add(1);
        ((rng >> 33) as usize) % bound
    };

    for round in 0..200 {
        let nstates = 1 + next(6);
        let mut fst = StdVectorFst::new();
        for _ in 0..nstates {
            fst.add_state();
        }
        fst.set_start(next(nstates) as i32);
        for s in 0..nstates {
            for _ in 0..next(3) {
                fst.add_arc(
                    s as i32,
                    StdArc::new(1, 1, TropicalWeight::one(), next(nstates) as i32),
                );
            }
            if next(3) == 0 {
                fst.set_final(s as i32, TropicalWeight::one());
            }
        }

        // Reachability both ways, by transitive closure.
        let mut reaches = vec![vec![false; nstates]; nstates];
        for (s, row) in reaches.iter_mut().enumerate() {
            row[s] = true;
            for arc in fst.arcs(s as i32) {
                row[arc.nextstate() as usize] = true;
            }
        }
        for k in 0..nstates {
            let through_k = reaches[k].clone();
            for row in reaches.iter_mut() {
                if row[k] {
                    for (dest, &r) in row.iter_mut().zip(&through_k) {
                        *dest |= r;
                    }
                }
            }
        }
        let start = fst.start().unwrap() as usize;
        let kept: Vec<usize> = (0..nstates)
            .filter(|&s| {
                reaches[start][s]
                    && (0..nstates).any(|f| {
                        reaches[s][f] && fst.final_weight(f as i32) != TropicalWeight::zero()
                    })
            })
            .collect();

        // Remember what survives, so the result can be identified after
        // the renumbering delete_states does.
        let kept_finals: Vec<bool> = kept
            .iter()
            .map(|&s| fst.final_weight(s as i32) != TropicalWeight::zero())
            .collect();

        connect(&mut fst);
        assert_eq!(fst.num_states(), kept.len(), "round {round}");
        let finals: Vec<bool> = (0..fst.num_states())
            .map(|s| fst.final_weight(s as i32) != TropicalWeight::zero())
            .collect();
        assert_eq!(finals, kept_finals, "round {round}");
    }
}

/// Condensing collapses each strongly connected component to one state, so
/// what comes out has no cycles at all, and two states of the input share a
/// state of the output exactly when each can reach the other.
#[test]
fn condensing_collapses_each_component_to_one_acyclic_state() {
    let mut fst = StdVectorFst::new();
    for _ in 0..5 {
        fst.add_state();
    }
    fst.set_start(0);
    fst.set_final(4, TropicalWeight::one());
    // 1 and 2 form a cycle; 3 loops on itself; 0 and 4 stand alone.
    for &(from, to) in &[(0, 1), (1, 2), (2, 1), (2, 3), (3, 3), (3, 4)] {
        fst.add_arc(from, StdArc::new(1, 1, TropicalWeight::one(), to));
    }

    let mut condensed = StdVectorFst::new();
    let mut scc = Vec::new();
    condense(&fst, &mut condensed, &mut scc);

    assert_eq!(scc.len(), 5);
    assert_eq!(scc[1], scc[2], "the cycle is one component");
    for (a, b) in [(0, 1), (0, 3), (0, 4), (1, 3), (1, 4), (3, 4)] {
        assert_ne!(
            scc[a], scc[b],
            "states {a} and {b} are not mutually reachable"
        );
    }
    assert_eq!(condensed.num_states(), 4);

    // No arc of the output stays inside a component, so none can cycle.
    for s in 0..condensed.num_states() as i32 {
        for arc in condensed.arcs(s) {
            assert_ne!(arc.nextstate(), s, "a self-loop survived condensing");
        }
    }
    assert_eq!(condensed.start(), Some(scc[0] as i32));
    assert_eq!(condensed.final_weight(scc[4] as i32), TropicalWeight::one());
}

/// Condensing an FST with no states leaves the output empty rather than
/// reaching into a component vector that was never filled.
#[test]
fn condensing_nothing_produces_nothing() {
    let fst = StdVectorFst::new();
    let mut condensed = StdVectorFst::new();
    condensed.add_state();
    let mut scc = Vec::new();
    condense(&fst, &mut condensed, &mut scc);
    assert_eq!(condensed.num_states(), 0);
    assert!(scc.is_empty());
}
