#![allow(dead_code)]

use sicada::arc::Arc;
use sicada::arc_map::{IdentityArcMapper, InputEpsilonMapper, OutputEpsilonMapper, PlusMapper, QuantizeMapper, ReverseWeightMapper, RmWeightMapper, SuperFinalMapper, TimesMapper, arc_map, arc_map_to};
use sicada::properties::{K_ACCEPTOR, K_ACCESSIBLE, K_ACYCLIC, K_CO_ACCESSIBLE, K_CYCLIC, K_EPSILONS, K_FST_PROPERTIES, K_INITIAL_ACYCLIC, K_INITIAL_CYCLIC, K_I_DETERMINISTIC, K_I_EPSILONS, K_I_LABEL_SORTED, K_NON_I_DETERMINISTIC, K_NON_O_DETERMINISTIC, K_NOT_ACCEPTOR, K_NOT_ACCESSIBLE, K_NOT_CO_ACCESSIBLE, K_NOT_I_LABEL_SORTED, K_NOT_O_LABEL_SORTED, K_NOT_STRING, K_NOT_TOP_SORTED, K_NO_EPSILONS, K_NO_I_EPSILONS, K_NO_O_EPSILONS, K_O_DETERMINISTIC, K_O_EPSILONS, K_O_LABEL_SORTED, K_STRING, K_TOP_SORTED, K_UNWEIGHTED, K_UNWEIGHTED_CYCLES, K_WEIGHTED, K_WEIGHTED_CYCLES};
use sicada::symbol_table::SymbolTable;
use sicada::vector_fst::VectorFst;
use sicada::weight::{COMMUTATIVE, IDEMPOTENT, LEFT_SEMIRING, PATH, RIGHT_SEMIRING, Reversible, Weight};
use std::rc::Rc;

/// The tropical semiring: the least weight wins, and weights along a path add up.
#[derive(Clone, Copy, Debug, PartialEq, PartialOrd)]
struct TropicalWeight(f32);

impl TropicalWeight {
    fn new(value: f32) -> Self {
        TropicalWeight(value)
    }

    fn value(&self) -> f32 {
        self.0
    }
}

impl Weight for TropicalWeight {
    type Delta = f32;

    fn spec_zero() -> Self {
        unreachable!()
    }

    fn spec_one() -> Self {
        unreachable!()
    }

    fn spec_no_weight() -> Self {
        unreachable!()
    }

    fn spec_plus(self, _other: Self) -> Self {
        unreachable!()
    }

    fn spec_times(self, _other: Self) -> Self {
        unreachable!()
    }

    fn spec_member(self) -> bool {
        unreachable!()
    }

    fn spec_approx(self, _other: Self, _delta: f32) -> bool {
        unreachable!()
    }

    fn spec_quantize(self, _delta: f32) -> Self {
        unreachable!()
    }

    fn spec_hash_word(self) -> u64 {
        unreachable!()
    }

    fn spec_properties() -> u64 {
        unreachable!()
    }

    fn spec_default_delta() -> f32 {
        unreachable!()
    }

    fn zero() -> Self {
        TropicalWeight(f32::INFINITY)
    }

    fn one() -> Self {
        TropicalWeight(0.0)
    }

    fn no_weight() -> Self {
        TropicalWeight(f32::NAN)
    }

    fn plus(&self, other: &Self) -> Self {
        if !self.is_member() || !other.is_member() {
            return Self::no_weight();
        }
        TropicalWeight(self.0.min(other.0))
    }

    fn times(&self, other: &Self) -> Self {
        if !self.is_member() || !other.is_member() {
            return Self::no_weight();
        }
        TropicalWeight(self.0 + other.0)
    }

    fn duplicate(&self) -> Self {
        *self
    }

    fn same(&self, other: &Self) -> bool {
        self.0 == other.0
    }

    fn is_member(&self) -> bool {
        !self.0.is_nan() && self.0 != f32::NEG_INFINITY
    }

    fn approx_equal(&self, other: &Self, delta: &f32) -> bool {
        self.0 <= other.0 + delta && other.0 <= self.0 + delta
    }

    fn quantize(&self, delta: &f32) -> Self {
        if self.0.is_finite() {
            TropicalWeight((self.0 / delta + 0.5).floor() * delta)
        } else {
            *self
        }
    }

    fn hash_word(&self) -> u64 {
        self.0.to_bits() as u64
    }

    fn properties() -> u64 {
        LEFT_SEMIRING | RIGHT_SEMIRING | COMMUTATIVE | IDEMPOTENT | PATH
    }

    fn default_delta() -> f32 {
        1.0 / 1024.0
    }
}

impl Reversible for TropicalWeight {
    type ReverseWeight = TropicalWeight;

    fn spec_reverse(self) -> Self {
        unreachable!()
    }

    fn reverse(&self) -> Self {
        *self
    }
}

/// An arc whose weight is tropical.
#[derive(Clone, Copy, Debug, PartialEq)]
struct StdArc {
    ilabel: i32,
    olabel: i32,
    weight: TropicalWeight,
    nextstate: i32,
}

impl StdArc {
    fn new(ilabel: i32, olabel: i32, weight: TropicalWeight, nextstate: i32) -> Self {
        StdArc { ilabel, olabel, weight, nextstate }
    }

    fn of(arc: &Arc<TropicalWeight>) -> Self {
        StdArc::new(arc.ilabel, arc.olabel, arc.weight, arc.nextstate as i32)
    }

    fn raw(&self) -> Arc<TropicalWeight> {
        Arc::new(self.ilabel, self.olabel, self.weight, self.nextstate as usize)
    }

    fn ilabel(&self) -> i32 {
        self.ilabel
    }

    fn olabel(&self) -> i32 {
        self.olabel
    }

    fn weight(&self) -> TropicalWeight {
        self.weight
    }

    fn nextstate(&self) -> i32 {
        self.nextstate
    }
}

/// A machine over tropical weights, with states counted by `i32`.
struct StdVectorFst(VectorFst<TropicalWeight>);

impl std::ops::Deref for StdVectorFst {
    type Target = VectorFst<TropicalWeight>;

    fn deref(&self) -> &VectorFst<TropicalWeight> {
        &self.0
    }
}

impl std::ops::DerefMut for StdVectorFst {
    fn deref_mut(&mut self) -> &mut VectorFst<TropicalWeight> {
        &mut self.0
    }
}

impl Clone for StdVectorFst {
    fn clone(&self) -> Self {
        StdVectorFst(self.0.duplicate())
    }
}

impl StdVectorFst {
    fn new() -> Self {
        StdVectorFst(VectorFst::new())
    }

    fn add_state(&mut self) -> i32 {
        self.0.add_state() as i32
    }

    fn set_start(&mut self, s: i32) {
        self.0.set_start(s as usize);
    }

    fn start(&self) -> Option<i32> {
        self.0.start().map(|s| s as i32)
    }

    fn set_final(&mut self, s: i32, weight: TropicalWeight) {
        self.0.set_final(s as usize, weight);
    }

    fn final_weight(&self, s: i32) -> TropicalWeight {
        self.0.final_weight(s as usize)
    }

    fn add_arc(&mut self, s: i32, arc: StdArc) {
        self.0.add_arc(s as usize, arc.raw());
    }

    fn states(&self) -> std::ops::Range<i32> {
        0..self.0.num_states() as i32
    }

    fn arcs(&self, s: i32) -> std::vec::IntoIter<StdArc> {
        let arcs: Vec<StdArc> = self.0.arcs(s as usize).iter().map(StdArc::of).collect();
        arcs.into_iter()
    }

    fn num_arcs(&self, s: i32) -> usize {
        self.0.num_arcs(s as usize)
    }

    fn delete_arcs(&mut self, s: i32) {
        self.0.delete_arcs(s as usize);
    }

    fn mutate_arcs(&mut self, s: i32, change: impl Fn(&mut StdArc)) {
        let mut arcs: Vec<StdArc> = self.arcs(s).collect();
        for arc in &mut arcs {
            change(arc);
        }
        self.0.set_arcs(s as usize, arcs.iter().map(StdArc::raw).collect());
    }

    /// What holds of the machine, read off its states and arcs where `test` says so.
    fn properties(&self, mask: u64, test: bool) -> u64 {
        if test {
            compute_properties(&self.0) & mask
        } else {
            self.0.known_properties(mask)
        }
    }

    /// Reads off the machine what holds of it, and keeps that with it.
    fn learn_properties(&mut self) {
        let props = compute_properties(&self.0);
        self.0.set_properties(props, K_FST_PROPERTIES);
    }
}

/// Every property of a machine that can be read off its states and arcs.
fn compute_properties<W: Weight>(fst: &VectorFst<W>) -> u64 {
    let n = fst.num_states();
    let one = W::one();
    let zero = W::zero();
    let mut props = 0u64;
    let mut reach = vec![vec![false; n]; n];
    for s in 0..n {
        for arc in fst.arcs(s) {
            reach[s][arc.nextstate] = true;
        }
    }
    for k in 0..n {
        for i in 0..n {
            if reach[i][k] {
                for j in 0..n {
                    if reach[k][j] {
                        reach[i][j] = true;
                    }
                }
            }
        }
    }
    let start = fst.start();
    let arcs: Vec<(usize, &Arc<W>)> =
        (0..n).flat_map(|s| fst.arcs(s).iter().map(move |arc| (s, arc))).collect();
    let repeats = |label: fn(&Arc<W>) -> i32| {
        (0..n).any(|s| {
            let mut labels: Vec<i32> = fst.arcs(s).iter().map(label).collect();
            labels.sort();
            labels.windows(2).any(|pair| pair[0] == pair[1])
        })
    };
    let falls = |label: fn(&Arc<W>) -> i32| {
        (0..n).any(|s| fst.arcs(s).windows(2).any(|pair| label(&pair[0]) > label(&pair[1])))
    };
    let mut set = |holds: bool, yes: u64, no: u64| {
        props |= if holds { yes } else { no };
    };
    set(arcs.iter().all(|(_, a)| a.ilabel == a.olabel), K_ACCEPTOR, K_NOT_ACCEPTOR);
    set(!repeats(|a| a.ilabel), K_I_DETERMINISTIC, K_NON_I_DETERMINISTIC);
    set(!repeats(|a| a.olabel), K_O_DETERMINISTIC, K_NON_O_DETERMINISTIC);
    set(arcs.iter().any(|(_, a)| a.ilabel == 0 && a.olabel == 0), K_EPSILONS, K_NO_EPSILONS);
    set(arcs.iter().any(|(_, a)| a.ilabel == 0), K_I_EPSILONS, K_NO_I_EPSILONS);
    set(arcs.iter().any(|(_, a)| a.olabel == 0), K_O_EPSILONS, K_NO_O_EPSILONS);
    set(!falls(|a| a.ilabel), K_I_LABEL_SORTED, K_NOT_I_LABEL_SORTED);
    set(!falls(|a| a.olabel), K_O_LABEL_SORTED, K_NOT_O_LABEL_SORTED);
    let weighted = arcs.iter().any(|(_, a)| !a.weight.same(&one) && !a.weight.same(&zero))
        || (0..n).any(|s| {
            let w = fst.final_weight(s);
            !w.same(&one) && !w.same(&zero)
        });
    set(weighted, K_WEIGHTED, K_UNWEIGHTED);
    let has_cycle = (0..n).any(|s| reach[s][s]);
    set(has_cycle, K_CYCLIC, K_ACYCLIC);
    let initial_cycle = start.is_some_and(|s| reach[s][s]);
    set(initial_cycle, K_INITIAL_CYCLIC, K_INITIAL_ACYCLIC);
    set(arcs.iter().all(|(s, a)| a.nextstate > *s), K_TOP_SORTED, K_NOT_TOP_SORTED);
    let seen = |s: usize| start.is_some_and(|i| i == s || reach[i][s]);
    let ends = |s: usize| (0..n).any(|t| fst.is_final(t) && (s == t || reach[s][t]));
    set((0..n).all(seen), K_ACCESSIBLE, K_NOT_ACCESSIBLE);
    set((0..n).all(ends), K_CO_ACCESSIBLE, K_NOT_CO_ACCESSIBLE);
    let string = start.map_or(n == 0, |i| i == 0)
        && (0..n).all(|s| {
            if fst.is_final(s) {
                fst.num_arcs(s) == 0 && s + 1 == n
            } else {
                fst.num_arcs(s) == 1 && fst.arcs(s)[0].nextstate == s + 1
            }
        });
    set(string, K_STRING, K_NOT_STRING);
    let weighted_cycle =
        arcs.iter().any(|(s, a)| {
            !a.weight.same(&one) && !a.weight.same(&zero) && (a.nextstate == *s || reach[a.nextstate][*s])
        });
    set(weighted_cycle, K_WEIGHTED_CYCLES, K_UNWEIGHTED_CYCLES);
    props
}

fn fst() -> StdVectorFst {
    let mut fst = StdVectorFst::new();
    for _ in 0..3 {
        fst.add_state();
    }
    fst.set_start(0);
    fst.add_arc(0, StdArc::new(1, 2, TropicalWeight(1.0), 1));
    fst.add_arc(1, StdArc::new(3, 4, TropicalWeight(2.0), 2));
    fst.set_final(2, TropicalWeight(3.0));
    fst
}

fn arcs(fst: &StdVectorFst) -> Vec<(i32, i32, f32, i32)> {
    (0..fst.num_states() as i32)
        .flat_map(|s| {
            fst.arcs(s)
                .map(|a| (a.ilabel(), a.olabel(), a.weight().value(), a.nextstate()))
                .collect::<Vec<_>>()
        })
        .collect()
}

#[test]
fn the_identity_mapper_changes_nothing() {
    let mut fst = fst();
    let before = arcs(&fst);
    arc_map(&mut fst, &mut IdentityArcMapper).unwrap();
    assert_eq!(arcs(&fst), before);
    assert_eq!(fst.final_weight(2), TropicalWeight(3.0));
}

#[test]
fn the_epsilon_mappers_blank_one_side_and_drop_its_table() {
    let table = || {
        let mut table = SymbolTable::new("input");
        table.add_symbol("<eps>", 0);
        Rc::new(table)
    };

    let mut with_tables = fst();
    with_tables.set_input_symbols(Some(table()));
    with_tables.set_output_symbols(Some(table()));

    arc_map(&mut with_tables, &mut InputEpsilonMapper).unwrap();
    assert_eq!(
        arcs(&with_tables),
        vec![(0, 2, 1.0, 1), (0, 4, 2.0, 2)],
        "the input side is blanked"
    );
    assert!(
        with_tables.input_symbols().is_none(),
        "its table went with it"
    );
    assert!(with_tables.output_symbols().is_some());

    let mut other = fst();
    arc_map(&mut other, &mut OutputEpsilonMapper).unwrap();
    assert_eq!(arcs(&other), vec![(1, 0, 1.0, 1), (3, 0, 2.0, 2)]);
}

#[test]
fn removing_weights_leaves_an_unweighted_fst() {
    let mut fst = fst();
    arc_map(&mut fst, &mut RmWeightMapper).unwrap();
    assert_eq!(arcs(&fst), vec![(1, 2, 0.0, 1), (3, 4, 0.0, 2)]);
    assert_eq!(fst.final_weight(2), TropicalWeight::one());
    assert_ne!(fst.properties(K_UNWEIGHTED, false) & K_UNWEIGHTED, 0);
}

/// In the tropical semiring times is addition, so this adds a constant to
/// every arc, and to the final weights, which is the point of the final
/// action.
#[test]
fn multiplying_reaches_the_final_weights_too() {
    let mut fst = fst();
    arc_map(&mut fst, &mut TimesMapper::new(TropicalWeight(10.0))).unwrap();
    assert_eq!(arcs(&fst), vec![(1, 2, 11.0, 1), (3, 4, 12.0, 2)]);
    assert_eq!(fst.final_weight(2), TropicalWeight(13.0));
    // A non-final state stays non-final: Zero times anything is Zero.
    assert_eq!(fst.final_weight(0), TropicalWeight::zero());
}

/// Tropical plus is min, so this caps every weight.
#[test]
fn adding_caps_every_weight() {
    let mut fst = fst();
    arc_map(&mut fst, &mut PlusMapper::new(TropicalWeight(1.5))).unwrap();
    assert_eq!(arcs(&fst), vec![(1, 2, 1.0, 1), (3, 4, 1.5, 2)]);
    assert_eq!(fst.final_weight(2), TropicalWeight(1.5));
}

#[test]
fn quantizing_rounds_every_weight() {
    let mut fst = StdVectorFst::new();
    fst.add_state();
    fst.set_start(0);
    fst.add_arc(0, StdArc::new(1, 1, TropicalWeight(1.234_567), 0));
    fst.set_final(0, TropicalWeight(2.765_432));

    arc_map(&mut fst, &mut QuantizeMapper::new(0.5)).unwrap();
    assert_eq!(fst.arcs(0).next().unwrap().weight().value(), 1.0);
    assert_eq!(fst.final_weight(0).value(), 3.0);
}

/// Requiring a superfinal state moves every final weight onto an arc, so
/// the result has exactly one final state.
#[test]
fn the_superfinal_mapper_leaves_exactly_one_final_state() {
    let mut fst = fst();
    fst.set_final(1, TropicalWeight(5.0));

    arc_map(&mut fst, &mut SuperFinalMapper).unwrap();

    let finals: Vec<i32> = (0..fst.num_states() as i32)
        .filter(|&s| fst.final_weight(s) != TropicalWeight::zero())
        .collect();
    assert_eq!(finals.len(), 1);
    let superfinal = finals[0];
    assert_eq!(fst.final_weight(superfinal), TropicalWeight::one());

    // The states that were final now reach it, carrying what they weighed.
    let to_superfinal: Vec<f32> = (0..fst.num_states() as i32)
        .flat_map(|s| {
            fst.arcs(s)
                .filter(|a| a.nextstate() == superfinal)
                .map(|a| a.weight().value())
                .collect::<Vec<_>>()
        })
        .collect();
    assert_eq!(to_superfinal.len(), 2);
    assert!(to_superfinal.contains(&5.0));
    assert!(to_superfinal.contains(&3.0));
}

/// Mapping into a second FST leaves the input alone and reproduces its
/// shape in the output.
#[test]
fn mapping_into_another_fst_leaves_the_input_alone() {
    let ifst = fst();
    let mut ofst = StdVectorFst::new();
    ofst.add_state();
    arc_map_to(&ifst, &mut ofst, &mut RmWeightMapper).unwrap();

    assert_eq!(ofst.num_states(), 3, "the output starts from nothing");
    assert_eq!(ofst.start(), Some(0));
    assert_eq!(arcs(&ofst), vec![(1, 2, 0.0, 1), (3, 4, 0.0, 2)]);
    assert_eq!(ofst.final_weight(2), TropicalWeight::one());
    // The input is untouched.
    assert_eq!(arcs(&ifst), vec![(1, 2, 1.0, 1), (3, 4, 2.0, 2)]);
}

/// A tropical weight is its own reverse, so this changes nothing, but it
/// exercises the path that maps between arc types.
#[test]
fn reversing_weights_maps_between_arc_types() {
    let ifst = fst();
    let mut ofst = StdVectorFst::new();
    arc_map_to(&ifst, &mut ofst, &mut ReverseWeightMapper).unwrap();
    assert_eq!(arcs(&ofst), arcs(&ifst));
    assert_eq!(ofst.final_weight(2), TropicalWeight(3.0));
}

#[test]
fn an_fst_with_no_start_state_is_left_alone() {
    let mut fst = StdVectorFst::new();
    fst.add_state();
    arc_map(&mut fst, &mut RmWeightMapper).unwrap();
    assert_eq!(fst.num_states(), 1);

    let ifst = StdVectorFst::new();
    let mut ofst = StdVectorFst::new();
    ofst.add_state();
    arc_map_to(&ifst, &mut ofst, &mut IdentityArcMapper).unwrap();
    assert_eq!(ofst.num_states(), 0);
}

/// The acceptor bit cannot survive a mapping that blanks one side.
#[test]
fn label_properties_are_given_up_when_labels_change() {
    let mut fst = StdVectorFst::new();
    for _ in 0..2 {
        fst.add_state();
    }
    fst.set_start(0);
    fst.set_final(1, TropicalWeight::one());
    fst.add_arc(0, StdArc::new(5, 5, TropicalWeight::one(), 1));
    fst.learn_properties();
    assert_ne!(fst.properties(K_ACCEPTOR, true) & K_ACCEPTOR, 0);

    arc_map(&mut fst, &mut InputEpsilonMapper).unwrap();
    assert_eq!(
        fst.properties(K_ACCEPTOR, false) & K_ACCEPTOR,
        0,
        "it is no longer an acceptor and must not say it is"
    );
    // Blanking one side made it a transducer, which a scan confirms.
    assert_ne!(fst.properties(K_NOT_ACCEPTOR, true) & K_NOT_ACCEPTOR, 0);
}
