#![allow(dead_code)]

use sicada::arc::{Arc, NO_STATE};
use sicada::arc_filter::AnyArcFilter;
use sicada::bit_set::GrowableBitSet;
use sicada::cc_visitors::{CcVisitor, SccVisitor};
use sicada::dfs_visit::{DfsVisitor, dfs_visit};
use sicada::properties::{K_ACCEPTOR, K_ACCESSIBLE, K_ACYCLIC, K_CO_ACCESSIBLE, K_CYCLIC, K_EPSILONS, K_FST_PROPERTIES, K_INITIAL_ACYCLIC, K_INITIAL_CYCLIC, K_I_DETERMINISTIC, K_I_EPSILONS, K_I_LABEL_SORTED, K_NON_I_DETERMINISTIC, K_NON_O_DETERMINISTIC, K_NOT_ACCEPTOR, K_NOT_ACCESSIBLE, K_NOT_CO_ACCESSIBLE, K_NOT_I_LABEL_SORTED, K_NOT_O_LABEL_SORTED, K_NOT_STRING, K_NOT_TOP_SORTED, K_NO_EPSILONS, K_NO_I_EPSILONS, K_NO_O_EPSILONS, K_O_DETERMINISTIC, K_O_EPSILONS, K_O_LABEL_SORTED, K_STRING, K_TOP_SORTED, K_UNWEIGHTED, K_UNWEIGHTED_CYCLES, K_WEIGHTED, K_WEIGHTED_CYCLES};
use sicada::vector_fst::VectorFst;
use sicada::weight::{COMMUTATIVE, IDEMPOTENT, LEFT_SEMIRING, PATH, RIGHT_SEMIRING, Weight};

/// The tropical semiring: the least weight wins, and weights along a path add up.
#[derive(Clone, Copy, Debug, PartialEq, PartialOrd)]
struct TropicalWeight(f32);

impl TropicalWeight {
    fn new(value: f32) -> Self {
        TropicalWeight(value)
    }

    fn value(&self) -> f32 {
        self.0
    }
}

impl Weight for TropicalWeight {
    type Delta = f32;

    fn spec_zero() -> Self {
        unreachable!()
    }

    fn spec_one() -> Self {
        unreachable!()
    }

    fn spec_no_weight() -> Self {
        unreachable!()
    }

    fn spec_plus(self, _other: Self) -> Self {
        unreachable!()
    }

    fn spec_times(self, _other: Self) -> Self {
        unreachable!()
    }

    fn spec_member(self) -> bool {
        unreachable!()
    }

    fn spec_approx(self, _other: Self, _delta: f32) -> bool {
        unreachable!()
    }

    fn spec_quantize(self, _delta: f32) -> Self {
        unreachable!()
    }

    fn spec_hash_word(self) -> u64 {
        unreachable!()
    }

    fn spec_properties() -> u64 {
        unreachable!()
    }

    fn spec_default_delta() -> f32 {
        unreachable!()
    }

    fn zero() -> Self {
        TropicalWeight(f32::INFINITY)
    }

    fn one() -> Self {
        TropicalWeight(0.0)
    }

    fn no_weight() -> Self {
        TropicalWeight(f32::NAN)
    }

    fn plus(&self, other: &Self) -> Self {
        if !self.is_member() || !other.is_member() {
            return Self::no_weight();
        }
        TropicalWeight(self.0.min(other.0))
    }

    fn times(&self, other: &Self) -> Self {
        if !self.is_member() || !other.is_member() {
            return Self::no_weight();
        }
        TropicalWeight(self.0 + other.0)
    }

    fn duplicate(&self) -> Self {
        *self
    }

    fn same(&self, other: &Self) -> bool {
        self.0 == other.0
    }

    fn is_member(&self) -> bool {
        !self.0.is_nan() && self.0 != f32::NEG_INFINITY
    }

    fn approx_equal(&self, other: &Self, delta: &f32) -> bool {
        self.0 <= other.0 + delta && other.0 <= self.0 + delta
    }

    fn quantize(&self, delta: &f32) -> Self {
        if self.0.is_finite() {
            TropicalWeight((self.0 / delta + 0.5).floor() * delta)
        } else {
            *self
        }
    }

    fn hash_word(&self) -> u64 {
        self.0.to_bits() as u64
    }

    fn properties() -> u64 {
        LEFT_SEMIRING | RIGHT_SEMIRING | COMMUTATIVE | IDEMPOTENT | PATH
    }

    fn default_delta() -> f32 {
        1.0 / 1024.0
    }
}

/// An arc whose weight is tropical.
#[derive(Clone, Copy, Debug, PartialEq)]
struct StdArc {
    ilabel: i32,
    olabel: i32,
    weight: TropicalWeight,
    nextstate: i32,
}

impl StdArc {
    fn new(ilabel: i32, olabel: i32, weight: TropicalWeight, nextstate: i32) -> Self {
        StdArc { ilabel, olabel, weight, nextstate }
    }

    fn of(arc: &Arc<TropicalWeight>) -> Self {
        StdArc::new(arc.ilabel, arc.olabel, arc.weight, arc.nextstate as i32)
    }

    fn raw(&self) -> Arc<TropicalWeight> {
        Arc::new(self.ilabel, self.olabel, self.weight, self.nextstate as usize)
    }

    fn ilabel(&self) -> i32 {
        self.ilabel
    }

    fn olabel(&self) -> i32 {
        self.olabel
    }

    fn weight(&self) -> TropicalWeight {
        self.weight
    }

    fn nextstate(&self) -> i32 {
        self.nextstate
    }
}

/// A machine over tropical weights, with states counted by `i32`.
struct StdVectorFst(VectorFst<TropicalWeight>);

impl std::ops::Deref for StdVectorFst {
    type Target = VectorFst<TropicalWeight>;

    fn deref(&self) -> &VectorFst<TropicalWeight> {
        &self.0
    }
}

impl std::ops::DerefMut for StdVectorFst {
    fn deref_mut(&mut self) -> &mut VectorFst<TropicalWeight> {
        &mut self.0
    }
}

impl Clone for StdVectorFst {
    fn clone(&self) -> Self {
        StdVectorFst(self.0.duplicate())
    }
}

impl StdVectorFst {
    fn new() -> Self {
        StdVectorFst(VectorFst::new())
    }

    fn add_state(&mut self) -> i32 {
        self.0.add_state() as i32
    }

    fn set_start(&mut self, s: i32) {
        self.0.set_start(s as usize);
    }

    fn start(&self) -> Option<i32> {
        self.0.start().map(|s| s as i32)
    }

    fn set_final(&mut self, s: i32, weight: TropicalWeight) {
        self.0.set_final(s as usize, weight);
    }

    fn final_weight(&self, s: i32) -> TropicalWeight {
        self.0.final_weight(s as usize)
    }

    fn add_arc(&mut self, s: i32, arc: StdArc) {
        self.0.add_arc(s as usize, arc.raw());
    }

    fn states(&self) -> std::ops::Range<i32> {
        0..self.0.num_states() as i32
    }

    fn arcs(&self, s: i32) -> std::vec::IntoIter<StdArc> {
        let arcs: Vec<StdArc> = self.0.arcs(s as usize).iter().map(StdArc::of).collect();
        arcs.into_iter()
    }

    fn num_arcs(&self, s: i32) -> usize {
        self.0.num_arcs(s as usize)
    }

    fn delete_arcs(&mut self, s: i32) {
        self.0.delete_arcs(s as usize);
    }

    fn mutate_arcs(&mut self, s: i32, change: impl Fn(&mut StdArc)) {
        let mut arcs: Vec<StdArc> = self.arcs(s).collect();
        for arc in &mut arcs {
            change(arc);
        }
        self.0.set_arcs(s as usize, arcs.iter().map(StdArc::raw).collect());
    }

    /// What holds of the machine, read off its states and arcs where `test` says so.
    fn properties(&self, mask: u64, test: bool) -> u64 {
        if test {
            compute_properties(&self.0) & mask
        } else {
            self.0.known_properties(mask)
        }
    }

    /// Reads off the machine what holds of it, and keeps that with it.
    fn learn_properties(&mut self) {
        let props = compute_properties(&self.0);
        self.0.set_properties(props, K_FST_PROPERTIES);
    }
}

/// Every property of a machine that can be read off its states and arcs.
fn compute_properties<W: Weight>(fst: &VectorFst<W>) -> u64 {
    let n = fst.num_states();
    let one = W::one();
    let zero = W::zero();
    let mut props = 0u64;
    let mut reach = vec![vec![false; n]; n];
    for s in 0..n {
        for arc in fst.arcs(s) {
            reach[s][arc.nextstate] = true;
        }
    }
    for k in 0..n {
        for i in 0..n {
            if reach[i][k] {
                for j in 0..n {
                    if reach[k][j] {
                        reach[i][j] = true;
                    }
                }
            }
        }
    }
    let start = fst.start();
    let arcs: Vec<(usize, &Arc<W>)> =
        (0..n).flat_map(|s| fst.arcs(s).iter().map(move |arc| (s, arc))).collect();
    let repeats = |label: fn(&Arc<W>) -> i32| {
        (0..n).any(|s| {
            let mut labels: Vec<i32> = fst.arcs(s).iter().map(label).collect();
            labels.sort();
            labels.windows(2).any(|pair| pair[0] == pair[1])
        })
    };
    let falls = |label: fn(&Arc<W>) -> i32| {
        (0..n).any(|s| fst.arcs(s).windows(2).any(|pair| label(&pair[0]) > label(&pair[1])))
    };
    let mut set = |holds: bool, yes: u64, no: u64| {
        props |= if holds { yes } else { no };
    };
    set(arcs.iter().all(|(_, a)| a.ilabel == a.olabel), K_ACCEPTOR, K_NOT_ACCEPTOR);
    set(!repeats(|a| a.ilabel), K_I_DETERMINISTIC, K_NON_I_DETERMINISTIC);
    set(!repeats(|a| a.olabel), K_O_DETERMINISTIC, K_NON_O_DETERMINISTIC);
    set(arcs.iter().any(|(_, a)| a.ilabel == 0 && a.olabel == 0), K_EPSILONS, K_NO_EPSILONS);
    set(arcs.iter().any(|(_, a)| a.ilabel == 0), K_I_EPSILONS, K_NO_I_EPSILONS);
    set(arcs.iter().any(|(_, a)| a.olabel == 0), K_O_EPSILONS, K_NO_O_EPSILONS);
    set(!falls(|a| a.ilabel), K_I_LABEL_SORTED, K_NOT_I_LABEL_SORTED);
    set(!falls(|a| a.olabel), K_O_LABEL_SORTED, K_NOT_O_LABEL_SORTED);
    let weighted = arcs.iter().any(|(_, a)| !a.weight.same(&one) && !a.weight.same(&zero))
        || (0..n).any(|s| {
            let w = fst.final_weight(s);
            !w.same(&one) && !w.same(&zero)
        });
    set(weighted, K_WEIGHTED, K_UNWEIGHTED);
    let has_cycle = (0..n).any(|s| reach[s][s]);
    set(has_cycle, K_CYCLIC, K_ACYCLIC);
    let initial_cycle = start.is_some_and(|s| reach[s][s]);
    set(initial_cycle, K_INITIAL_CYCLIC, K_INITIAL_ACYCLIC);
    set(arcs.iter().all(|(s, a)| a.nextstate > *s), K_TOP_SORTED, K_NOT_TOP_SORTED);
    let seen = |s: usize| start.is_some_and(|i| i == s || reach[i][s]);
    let ends = |s: usize| (0..n).any(|t| fst.is_final(t) && (s == t || reach[s][t]));
    set((0..n).all(seen), K_ACCESSIBLE, K_NOT_ACCESSIBLE);
    set((0..n).all(ends), K_CO_ACCESSIBLE, K_NOT_CO_ACCESSIBLE);
    let string = start.map_or(n == 0, |i| i == 0)
        && (0..n).all(|s| {
            if fst.is_final(s) {
                fst.num_arcs(s) == 0 && s + 1 == n
            } else {
                fst.num_arcs(s) == 1 && fst.arcs(s)[0].nextstate == s + 1
            }
        });
    set(string, K_STRING, K_NOT_STRING);
    let weighted_cycle =
        arcs.iter().any(|(s, a)| {
            !a.weight.same(&one) && !a.weight.same(&zero) && (a.nextstate == *s || reach[a.nextstate][*s])
        });
    set(weighted_cycle, K_WEIGHTED_CYCLES, K_UNWEIGHTED_CYCLES);
    props
}

#[test]
fn test_cc_visitor_components() {
    let mut visitor = CcVisitor::new_with_cc();
    let fst = VectorFst::<TropicalWeight>::new();

    visitor.init_visit(&fst);

    DfsVisitor::<TropicalWeight>::init_state(&mut visitor, 0, 0);
    DfsVisitor::<TropicalWeight>::init_state(&mut visitor, 1, 0);
    DfsVisitor::<TropicalWeight>::init_state(&mut visitor, 2, 0);
    DfsVisitor::<TropicalWeight>::init_state(&mut visitor, 3, 3);
    DfsVisitor::<TropicalWeight>::init_state(&mut visitor, 4, 3);
    DfsVisitor::<TropicalWeight>::init_state(&mut visitor, 5, 5);

    let arc_0_1 = Arc::new(0, 0, TropicalWeight::one(), 1);
    let arc_1_2 = Arc::new(0, 0, TropicalWeight::one(), 2);
    let arc_3_4 = Arc::new(0, 0, TropicalWeight::one(), 4);

    visitor.tree_arc(0, &arc_0_1);
    visitor.tree_arc(1, &arc_1_2);
    visitor.tree_arc(3, &arc_3_4);

    DfsVisitor::<TropicalWeight>::finish_visit(&mut visitor);

    let mut out_cc = Vec::new();
    let num_components = visitor.get_cc_vector(&mut out_cc);

    assert_eq!(num_components, 3);
    assert_eq!(out_cc.len(), 6);

    assert_eq!(out_cc[0], out_cc[1]);
    assert_eq!(out_cc[1], out_cc[2]);
    assert_eq!(out_cc[3], out_cc[4]);

    assert_ne!(out_cc[0], out_cc[3]);
    assert_ne!(out_cc[0], out_cc[5]);
    assert_ne!(out_cc[3], out_cc[5]);
}

#[test]
fn test_scc_visitor_tarjan() {
    let mut fst = VectorFst::new();
    fst.add_states(2);
    fst.set_start(0);
    fst.set_final(1, TropicalWeight::one());

    let mut visitor = SccVisitor::new(&fst, 0);

    visitor.init_visit(&fst);

    visitor.init_state(0, 0);

    let arc_0_1 = Arc::new(0, 0, TropicalWeight::one(), 1);
    visitor.tree_arc(0, &arc_0_1);

    visitor.init_state(1, 0);

    let arc_1_0 = Arc::new(0, 0, TropicalWeight::one(), 0);
    visitor.back_arc(1, &arc_1_0);

    visitor.finish_state(1, Some(0), Some(&arc_1_0));
    visitor.finish_state(0, None, None);

    visitor.finish_visit();

    let scc = visitor.scc();
    let access = visitor.access();
    let coaccess = visitor.coaccess();
    let props = visitor.properties();

    assert_eq!(scc.len(), 2);
    assert_eq!(scc[0], scc[1]);

    assert!(access.contains(0));
    assert!(access.contains(1));
    assert!(coaccess.contains(0));
    assert!(coaccess.contains(1));

    assert_eq!(props & K_CYCLIC, K_CYCLIC);
    assert_eq!(props & K_ACYCLIC, 0);

    assert_eq!(props & K_ACCESSIBLE, K_ACCESSIBLE);
}


/// Builds an FST from an edge list, with the given states final.
fn build(states: usize, edges: &[(i32, i32)], finals: &[i32]) -> StdVectorFst {
    let mut fst = StdVectorFst::new();
    for _ in 0..states {
        fst.add_state();
    }
    fst.set_start(0);
    for &(from, to) in edges {
        fst.add_arc(from, StdArc::new(1, 1, TropicalWeight::one(), to));
    }
    for &state in finals {
        fst.set_final(state, TropicalWeight::one());
    }
    fst
}

/// Runs the SCC visitor and returns the component of each state, the access
/// and coaccess flags, and the properties it derived.
fn scc_of(fst: &StdVectorFst) -> (Vec<usize>, Vec<bool>, Vec<bool>, u64) {
    let mut visitor = SccVisitor::new(fst, 0);
    dfs_visit(fst, &mut visitor, AnyArcFilter, false);
    let flags = |set: &GrowableBitSet| (0..fst.num_states()).map(|s| set.contains(s)).collect();
    (
        visitor.scc().clone(),
        flags(visitor.access()),
        flags(visitor.coaccess()),
        visitor.properties(),
    )
}

/// Two mutually reachable states share a component; a state reachable only
/// one way does not.
#[test]
fn a_cycle_is_one_component_and_a_chain_is_not() {
    // 0 -> 1 -> 2 -> 1, with 2 final: {1, 2} is a cycle, 0 is alone.
    let fst = build(3, &[(0, 1), (1, 2), (2, 1)], &[2]);
    let (scc, _, _, props) = scc_of(&fst);

    assert_eq!(scc.len(), 3);
    assert_eq!(scc[1], scc[2], "1 and 2 are mutually reachable");
    assert_ne!(scc[0], scc[1], "0 is not reachable from 1");

    assert_ne!(props & K_CYCLIC, 0, "the FST has a cycle");
    assert_eq!(props & K_ACYCLIC, 0);
}

#[test]
fn an_acyclic_fst_gives_one_component_per_state() {
    let fst = build(3, &[(0, 1), (1, 2)], &[2]);
    let (scc, _, _, props) = scc_of(&fst);

    assert_eq!(scc.len(), 3);
    assert_ne!(scc[0], scc[1]);
    assert_ne!(scc[1], scc[2]);
    assert_ne!(props & K_ACYCLIC, 0);
    assert_eq!(props & K_CYCLIC, 0);
}

/// Access means reachable from the start; coaccess means a final state is
/// reachable from it. Both are what `Connect` prunes on.
#[test]
fn access_and_coaccess_are_reported_per_state() {
    // 0 -> 1 (final), and an isolated 2 -> 3 with 3 final.
    let fst = build(4, &[(0, 1), (2, 3)], &[1, 3]);
    let (_, access, coaccess, props) = scc_of(&fst);

    assert!(access[0]);
    assert!(access[1]);
    assert!(!access[2], "2 is not reachable from the start");
    assert!(!access[3]);
    assert_ne!(props & K_NOT_ACCESSIBLE, 0);
    assert_eq!(props & K_ACCESSIBLE, 0);

    // Every state here can reach a final state.
    for state in 0..4 {
        assert!(
            coaccess[state],
            "state {state} should be coaccessible"
        );
    }
    assert_ne!(props & K_CO_ACCESSIBLE, 0);
}

#[test]
fn a_dead_end_is_not_coaccessible() {
    // 0 -> 1 (final), 0 -> 2 (dead end).
    let fst = build(3, &[(0, 1), (0, 2)], &[1]);
    let (_, _, coaccess, props) = scc_of(&fst);

    assert!(coaccess[0]);
    assert!(coaccess[1]);
    assert!(!coaccess[2], "2 reaches no final state");
    assert_ne!(props & K_NOT_CO_ACCESSIBLE, 0);
    assert_eq!(props & K_CO_ACCESSIBLE, 0);
}

/// Cross-checks Tarjan's output against the definition: two states share a
/// component exactly when each can reach the other.
#[test]
fn components_match_mutual_reachability() {
    let mut state = 0xF00D_BEEF_1234_5678u64;
    let mut rng = move || {
        state ^= state << 13;
        state ^= state >> 7;
        state ^= state << 17;
        state
    };

    const N: usize = 8;
    for round in 0..80 {
        let mut edges = Vec::new();
        for from in 0..N as i32 {
            for to in 0..N as i32 {
                if rng() % 5 == 0 {
                    edges.push((from, to));
                }
            }
        }
        let fst = build(N, &edges, &[(N - 1) as i32]);
        let (scc, _, _, _) = scc_of(&fst);

        // Transitive closure of the edge relation.
        let mut reach = [[false; N]; N];
        for &(from, to) in &edges {
            reach[from as usize][to as usize] = true;
        }
        for k in 0..N {
            for i in 0..N {
                for j in 0..N {
                    if reach[i][k] && reach[k][j] {
                        reach[i][j] = true;
                    }
                }
            }
        }

        for i in 0..N {
            for j in 0..N {
                let mutual = i == j || (reach[i][j] && reach[j][i]);
                // Only states the search actually visited get a component.
                if scc[i] == NO_STATE || scc[j] == NO_STATE {
                    continue;
                }
                assert_eq!(
                    scc[i] == scc[j],
                    mutual,
                    "round {round}: states {i} and {j}"
                );
            }
        }
    }
}

/// The numbers of the components do not depend on whether coaccess is asked for, even of
/// components between which there is no path.
#[test]
fn component_numbers_do_not_depend_on_coaccess() {
    let fst = build(6, &[(0, 1), (0, 2), (2, 3), (3, 2), (4, 5)], &[1, 3]);
    let (scc, access, _, props) = scc_of(&fst);

    let mut visitor = SccVisitor::new(&fst, 0).without_coaccess();
    dfs_visit(&fst, &mut visitor, AnyArcFilter, false);
    assert_eq!(visitor.scc(), &scc);
    for (s, reached) in access.iter().enumerate() {
        assert_eq!(visitor.access().contains(s), *reached);
    }
    let coaccess = K_CO_ACCESSIBLE | K_NOT_CO_ACCESSIBLE;
    assert_eq!(visitor.properties() & coaccess, 0);
    assert_ne!(props & coaccess, 0);
    assert_eq!(visitor.properties() & !coaccess, props & !coaccess);
}

/// Arcs told of by hand join the components of their states.
#[test]
fn arcs_told_of_by_hand_give_components_in_order() {
    let mut visitor = CcVisitor::new_with_cc();
    for (s, root) in [(0, 0), (1, 0), (2, 0), (3, 3), (4, 3), (5, 5)] {
        DfsVisitor::<TropicalWeight>::init_state(&mut visitor, s, root);
    }
    for (s, t) in [(0, 1), (1, 2), (3, 4)] {
        visitor.tree_arc(s, &Arc::new(0, 0, TropicalWeight::one(), t));
    }
    let mut cc = Vec::new();
    assert_eq!(visitor.get_cc_vector(&mut cc), 3);
    assert_eq!(cc, vec![0, 0, 0, 1, 1, 2]);
}
