#![allow(dead_code)]

use sicada::arc::Arc;
use sicada::factor_weight::{ARC_WEIGHTS, FactorIterator, FactorWeightOptions, GallicFactor, IdentityFactor, StringFactor, factor_weight};
use sicada::properties::{K_ACCEPTOR, K_ACCESSIBLE, K_ACYCLIC, K_CO_ACCESSIBLE, K_CYCLIC, K_EPSILONS, K_FST_PROPERTIES, K_INITIAL_ACYCLIC, K_INITIAL_CYCLIC, K_I_DETERMINISTIC, K_I_EPSILONS, K_I_LABEL_SORTED, K_NON_I_DETERMINISTIC, K_NON_O_DETERMINISTIC, K_NOT_ACCEPTOR, K_NOT_ACCESSIBLE, K_NOT_CO_ACCESSIBLE, K_NOT_I_LABEL_SORTED, K_NOT_O_LABEL_SORTED, K_NOT_STRING, K_NOT_TOP_SORTED, K_NO_EPSILONS, K_NO_I_EPSILONS, K_NO_O_EPSILONS, K_O_DETERMINISTIC, K_O_EPSILONS, K_O_LABEL_SORTED, K_STRING, K_TOP_SORTED, K_UNWEIGHTED, K_UNWEIGHTED_CYCLES, K_WEIGHTED, K_WEIGHTED_CYCLES};
use sicada::string_weight::{Exactly, GALLIC_LEFT, GallicWeight, STRING_LEFT, StringWeight, StringWeightValue};
use sicada::vector_fst::VectorFst;
use sicada::weight::{COMMUTATIVE, IDEMPOTENT, LEFT_SEMIRING, PATH, RIGHT_SEMIRING, Weight};

/// The tropical semiring: the least weight wins, and weights along a path add up.
#[derive(Clone, Copy, Debug, PartialEq, PartialOrd)]
struct TropicalWeight(f32);

impl TropicalWeight {
    fn new(value: f32) -> Self {
        TropicalWeight(value)
    }

    fn value(&self) -> f32 {
        self.0
    }
}

impl Weight for TropicalWeight {
    type Delta = f32;

    fn spec_zero() -> Self {
        unreachable!()
    }

    fn spec_one() -> Self {
        unreachable!()
    }

    fn spec_no_weight() -> Self {
        unreachable!()
    }

    fn spec_plus(self, _other: Self) -> Self {
        unreachable!()
    }

    fn spec_times(self, _other: Self) -> Self {
        unreachable!()
    }

    fn spec_member(self) -> bool {
        unreachable!()
    }

    fn spec_approx(self, _other: Self, _delta: f32) -> bool {
        unreachable!()
    }

    fn spec_quantize(self, _delta: f32) -> Self {
        unreachable!()
    }

    fn spec_hash_word(self) -> u64 {
        unreachable!()
    }

    fn spec_properties() -> u64 {
        unreachable!()
    }

    fn spec_default_delta() -> f32 {
        unreachable!()
    }

    fn zero() -> Self {
        TropicalWeight(f32::INFINITY)
    }

    fn one() -> Self {
        TropicalWeight(0.0)
    }

    fn no_weight() -> Self {
        TropicalWeight(f32::NAN)
    }

    fn plus(&self, other: &Self) -> Self {
        if !self.is_member() || !other.is_member() {
            return Self::no_weight();
        }
        TropicalWeight(self.0.min(other.0))
    }

    fn times(&self, other: &Self) -> Self {
        if !self.is_member() || !other.is_member() {
            return Self::no_weight();
        }
        TropicalWeight(self.0 + other.0)
    }

    fn duplicate(&self) -> Self {
        *self
    }

    fn same(&self, other: &Self) -> bool {
        self.0 == other.0
    }

    fn is_member(&self) -> bool {
        !self.0.is_nan() && self.0 != f32::NEG_INFINITY
    }

    fn approx_equal(&self, other: &Self, delta: &f32) -> bool {
        self.0 <= other.0 + delta && other.0 <= self.0 + delta
    }

    fn quantize(&self, delta: &f32) -> Self {
        if self.0.is_finite() {
            TropicalWeight((self.0 / delta + 0.5).floor() * delta)
        } else {
            *self
        }
    }

    fn hash_word(&self) -> u64 {
        self.0.to_bits() as u64
    }

    fn properties() -> u64 {
        LEFT_SEMIRING | RIGHT_SEMIRING | COMMUTATIVE | IDEMPOTENT | PATH
    }

    fn default_delta() -> f32 {
        1.0 / 1024.0
    }
}

/// An arc whose weight is tropical.
#[derive(Clone, Copy, Debug, PartialEq)]
struct StdArc {
    ilabel: i32,
    olabel: i32,
    weight: TropicalWeight,
    nextstate: i32,
}

impl StdArc {
    fn new(ilabel: i32, olabel: i32, weight: TropicalWeight, nextstate: i32) -> Self {
        StdArc { ilabel, olabel, weight, nextstate }
    }

    fn of(arc: &Arc<TropicalWeight>) -> Self {
        StdArc::new(arc.ilabel, arc.olabel, arc.weight, arc.nextstate as i32)
    }

    fn raw(&self) -> Arc<TropicalWeight> {
        Arc::new(self.ilabel, self.olabel, self.weight, self.nextstate as usize)
    }

    fn ilabel(&self) -> i32 {
        self.ilabel
    }

    fn olabel(&self) -> i32 {
        self.olabel
    }

    fn weight(&self) -> TropicalWeight {
        self.weight
    }

    fn nextstate(&self) -> i32 {
        self.nextstate
    }
}

/// A machine over tropical weights, with states counted by `i32`.
struct StdVectorFst(VectorFst<TropicalWeight>);

impl std::ops::Deref for StdVectorFst {
    type Target = VectorFst<TropicalWeight>;

    fn deref(&self) -> &VectorFst<TropicalWeight> {
        &self.0
    }
}

impl std::ops::DerefMut for StdVectorFst {
    fn deref_mut(&mut self) -> &mut VectorFst<TropicalWeight> {
        &mut self.0
    }
}

impl Clone for StdVectorFst {
    fn clone(&self) -> Self {
        StdVectorFst(self.0.duplicate())
    }
}

impl StdVectorFst {
    fn new() -> Self {
        StdVectorFst(VectorFst::new())
    }

    fn add_state(&mut self) -> i32 {
        self.0.add_state() as i32
    }

    fn set_start(&mut self, s: i32) {
        self.0.set_start(s as usize);
    }

    fn start(&self) -> Option<i32> {
        self.0.start().map(|s| s as i32)
    }

    fn set_final(&mut self, s: i32, weight: TropicalWeight) {
        self.0.set_final(s as usize, weight);
    }

    fn final_weight(&self, s: i32) -> TropicalWeight {
        self.0.final_weight(s as usize)
    }

    fn add_arc(&mut self, s: i32, arc: StdArc) {
        self.0.add_arc(s as usize, arc.raw());
    }

    fn states(&self) -> std::ops::Range<i32> {
        0..self.0.num_states() as i32
    }

    fn arcs(&self, s: i32) -> std::vec::IntoIter<StdArc> {
        let arcs: Vec<StdArc> = self.0.arcs(s as usize).iter().map(StdArc::of).collect();
        arcs.into_iter()
    }

    fn num_arcs(&self, s: i32) -> usize {
        self.0.num_arcs(s as usize)
    }

    fn delete_arcs(&mut self, s: i32) {
        self.0.delete_arcs(s as usize);
    }

    fn mutate_arcs(&mut self, s: i32, change: impl Fn(&mut StdArc)) {
        let mut arcs: Vec<StdArc> = self.arcs(s).collect();
        for arc in &mut arcs {
            change(arc);
        }
        self.0.set_arcs(s as usize, arcs.iter().map(StdArc::raw).collect());
    }

    /// What holds of the machine, read off its states and arcs where `test` says so.
    fn properties(&self, mask: u64, test: bool) -> u64 {
        if test {
            compute_properties(&self.0) & mask
        } else {
            self.0.known_properties(mask)
        }
    }

    /// Reads off the machine what holds of it, and keeps that with it.
    fn learn_properties(&mut self) {
        let props = compute_properties(&self.0);
        self.0.set_properties(props, K_FST_PROPERTIES);
    }
}

/// Every property of a machine that can be read off its states and arcs.
fn compute_properties<W: Weight>(fst: &VectorFst<W>) -> u64 {
    let n = fst.num_states();
    let one = W::one();
    let zero = W::zero();
    let mut props = 0u64;
    let mut reach = vec![vec![false; n]; n];
    for s in 0..n {
        for arc in fst.arcs(s) {
            reach[s][arc.nextstate] = true;
        }
    }
    for k in 0..n {
        for i in 0..n {
            if reach[i][k] {
                for j in 0..n {
                    if reach[k][j] {
                        reach[i][j] = true;
                    }
                }
            }
        }
    }
    let start = fst.start();
    let arcs: Vec<(usize, &Arc<W>)> =
        (0..n).flat_map(|s| fst.arcs(s).iter().map(move |arc| (s, arc))).collect();
    let repeats = |label: fn(&Arc<W>) -> i32| {
        (0..n).any(|s| {
            let mut labels: Vec<i32> = fst.arcs(s).iter().map(label).collect();
            labels.sort();
            labels.windows(2).any(|pair| pair[0] == pair[1])
        })
    };
    let falls = |label: fn(&Arc<W>) -> i32| {
        (0..n).any(|s| fst.arcs(s).windows(2).any(|pair| label(&pair[0]) > label(&pair[1])))
    };
    let mut set = |holds: bool, yes: u64, no: u64| {
        props |= if holds { yes } else { no };
    };
    set(arcs.iter().all(|(_, a)| a.ilabel == a.olabel), K_ACCEPTOR, K_NOT_ACCEPTOR);
    set(!repeats(|a| a.ilabel), K_I_DETERMINISTIC, K_NON_I_DETERMINISTIC);
    set(!repeats(|a| a.olabel), K_O_DETERMINISTIC, K_NON_O_DETERMINISTIC);
    set(arcs.iter().any(|(_, a)| a.ilabel == 0 && a.olabel == 0), K_EPSILONS, K_NO_EPSILONS);
    set(arcs.iter().any(|(_, a)| a.ilabel == 0), K_I_EPSILONS, K_NO_I_EPSILONS);
    set(arcs.iter().any(|(_, a)| a.olabel == 0), K_O_EPSILONS, K_NO_O_EPSILONS);
    set(!falls(|a| a.ilabel), K_I_LABEL_SORTED, K_NOT_I_LABEL_SORTED);
    set(!falls(|a| a.olabel), K_O_LABEL_SORTED, K_NOT_O_LABEL_SORTED);
    let weighted = arcs.iter().any(|(_, a)| !a.weight.same(&one) && !a.weight.same(&zero))
        || (0..n).any(|s| {
            let w = fst.final_weight(s);
            !w.same(&one) && !w.same(&zero)
        });
    set(weighted, K_WEIGHTED, K_UNWEIGHTED);
    let has_cycle = (0..n).any(|s| reach[s][s]);
    set(has_cycle, K_CYCLIC, K_ACYCLIC);
    let initial_cycle = start.is_some_and(|s| reach[s][s]);
    set(initial_cycle, K_INITIAL_CYCLIC, K_INITIAL_ACYCLIC);
    set(arcs.iter().all(|(s, a)| a.nextstate > *s), K_TOP_SORTED, K_NOT_TOP_SORTED);
    let seen = |s: usize| start.is_some_and(|i| i == s || reach[i][s]);
    let ends = |s: usize| (0..n).any(|t| fst.is_final(t) && (s == t || reach[s][t]));
    set((0..n).all(seen), K_ACCESSIBLE, K_NOT_ACCESSIBLE);
    set((0..n).all(ends), K_CO_ACCESSIBLE, K_NOT_CO_ACCESSIBLE);
    let string = start.map_or(n == 0, |i| i == 0)
        && (0..n).all(|s| {
            if fst.is_final(s) {
                fst.num_arcs(s) == 0 && s + 1 == n
            } else {
                fst.num_arcs(s) == 1 && fst.arcs(s)[0].nextstate == s + 1
            }
        });
    set(string, K_STRING, K_NOT_STRING);
    let weighted_cycle =
        arcs.iter().any(|(s, a)| {
            !a.weight.same(&one) && !a.weight.same(&zero) && (a.nextstate == *s || reach[a.nextstate][*s])
        });
    set(weighted_cycle, K_WEIGHTED_CYCLES, K_UNWEIGHTED_CYCLES);
    props
}

/// Every successful path of at most `limit` arcs: its two label strings and its weight.
fn paths(fst: &StdVectorFst, limit: usize) -> Vec<(Vec<i32>, Vec<i32>, TropicalWeight)> {
    let mut found = Vec::new();
    let mut open = Vec::new();
    if let Some(start) = fst.start() {
        open.push((start, Vec::new(), Vec::new(), TropicalWeight::one(), 0usize));
    }
    while let Some((s, input, output, weight, length)) = open.pop() {
        let end = fst.final_weight(s);
        if end != TropicalWeight::zero() {
            found.push((input.clone(), output.clone(), weight.times(&end)));
        }
        if length < limit {
            for arc in fst.arcs(s) {
                let mut input: Vec<i32> = input.clone();
                let mut output: Vec<i32> = output.clone();
                input.push(arc.ilabel());
                output.push(arc.olabel());
                open.push((arc.nextstate(), input, output, weight.times(&arc.weight()), length + 1));
            }
        }
    }
    found
}

/// The same paths with the epsilons taken out of their strings.
fn visible_paths(fst: &StdVectorFst, limit: usize) -> Vec<(Vec<i32>, Vec<i32>, TropicalWeight)> {
    let seen = |labels: Vec<i32>| labels.into_iter().filter(|label| *label != 0).collect();
    paths(fst, limit).into_iter().map(|(i, o, w)| (seen(i), seen(o), w)).collect()
}

/// What each pair of strings weighs: the sum over the paths that spell it.
fn string_weights(
    paths: Vec<(Vec<i32>, Vec<i32>, TropicalWeight)>,
) -> Vec<(Vec<i32>, Vec<i32>, String)> {
    let mut total: std::collections::BTreeMap<(Vec<i32>, Vec<i32>), TropicalWeight> =
        std::collections::BTreeMap::new();
    for (input, output, weight) in paths {
        let entry = total.entry((input, output)).or_insert(TropicalWeight::zero());
        *entry = entry.plus(&weight);
    }
    total.into_iter().map(|((i, o), w)| (i, o, format!("{:.4}", w.value()))).collect()
}

type StringArc = Arc<StringWeight<STRING_LEFT>>;
type StringFst = VectorFst<StringWeight<STRING_LEFT>>;

/// Splitting nothing leaves the FST as it was.
#[test]
fn the_identity_factor_leaves_the_paths_alone() {
    let mut fst = StdVectorFst::new();
    for _ in 0..3 {
        fst.add_state();
    }
    fst.set_start(0);
    fst.add_arc(0, StdArc::new(1, 1, TropicalWeight(1.0), 1));
    fst.add_arc(1, StdArc::new(2, 2, TropicalWeight(2.0), 2));
    fst.set_final(2, TropicalWeight(3.0));

    let mut ofst = StdVectorFst::new();
    factor_weight(
        &fst,
        &mut ofst,
        IdentityFactor::new,
        &FactorWeightOptions::new(TropicalWeight::default_delta()),
    );
    assert_eq!(
        string_weights(visible_paths(&ofst, 8)),
        string_weights(visible_paths(&fst, 8))
    );
}

/// A string weight of several labels becomes one label per arc.
#[test]
fn a_string_weight_is_split_one_label_to_an_arc() {
    let mut fst = StringFst::new();
    for _ in 0..2 {
        fst.add_state();
    }
    fst.set_start(0);
    fst.add_arc(0, StringArc::new(1, 1, StringWeight::new(vec![7, 8, 9]), 1));
    fst.set_final(1, StringWeight::one());

    let mut ofst = StringFst::new();
    factor_weight(
        &fst,
        &mut ofst,
        StringFactor::new,
        &FactorWeightOptions::new(Exactly),
    );

    // Each arc carries one label, and the last piece stays where a piece
    // can stay: as the final weight. So three labels become two arcs and a
    // final weight, not three arcs.
    let weights: Vec<Vec<i32>> = (0..ofst.num_states())
        .flat_map(|s| {
            ofst.arcs(s)
                .iter()
                .map(|a| match &a.weight.value {
                    StringWeightValue::Labels(v) => v.to_vec(),
                    _ => Vec::new(),
                })
                .collect::<Vec<_>>()
        })
        .collect();
    assert_eq!(weights, vec![vec![7], vec![8]]);

    // What matters is that the pieces multiply back to what they came from.
    let mut along = StringWeight::<STRING_LEFT>::one();
    let mut state = ofst.start().unwrap();
    while let Some(arc) = ofst.arcs(state).first() {
        along = along.times(&arc.weight);
        state = arc.nextstate;
    }
    along = along.times(&ofst.final_weight(state));
    assert_eq!(along, StringWeight::new(vec![7, 8, 9]));
}

/// A string weight of one label has nothing to split.
#[test]
fn a_single_label_weight_is_left_where_it_is() {
    let mut fst = StringFst::new();
    for _ in 0..2 {
        fst.add_state();
    }
    fst.set_start(0);
    fst.add_arc(0, StringArc::new(1, 1, StringWeight::new(vec![7]), 1));
    fst.set_final(1, StringWeight::one());

    let mut ofst = StringFst::new();
    factor_weight(
        &fst,
        &mut ofst,
        StringFactor::new,
        &FactorWeightOptions::new(Exactly),
    );
    assert_eq!(ofst.num_states(), 2);
    let arc = ofst.arcs(0).first().unwrap();
    assert_eq!(arc.weight, StringWeight::new(vec![7]));
}

/// A final weight that can be split becomes arcs to states that pay it out
/// a piece at a time.
#[test]
fn a_splittable_final_weight_becomes_arcs() {
    let mut fst = StringFst::new();
    fst.add_state();
    fst.set_start(0);
    fst.set_final(0, StringWeight::new(vec![4, 5]));

    let mut ofst = StringFst::new();
    factor_weight(
        &fst,
        &mut ofst,
        StringFactor::new,
        &FactorWeightOptions::new(Exactly),
    );

    // The start state is no longer final: what it owed became an arc.
    assert_eq!(ofst.final_weight(0), StringWeight::zero());
    let arc = ofst.arcs(0).first().unwrap();
    assert_eq!(arc.weight, StringWeight::new(vec![4]));
    assert_eq!(
        ofst.final_weight(arc.nextstate),
        StringWeight::new(vec![5])
    );
}

/// Splitting only the arc weights leaves the final weights whole.
#[test]
fn the_mode_selects_which_weights_are_split() {
    let mut fst = StringFst::new();
    fst.add_state();
    fst.set_start(0);
    fst.set_final(0, StringWeight::new(vec![4, 5]));

    let mut ofst = StringFst::new();
    factor_weight(
        &fst,
        &mut ofst,
        StringFactor::new,
        &FactorWeightOptions {
            mode: ARC_WEIGHTS,
            ..FactorWeightOptions::new(Exactly)
        },
    );
    assert_eq!(ofst.num_states(), 1);
    assert_eq!(ofst.final_weight(0), StringWeight::new(vec![4, 5]));
}

/// A gallic weight splits by its string part, and the weight rides the
/// first piece so the pieces multiply back to what they came from.
#[test]
fn a_gallic_weight_keeps_its_weight_on_the_first_piece() {
    type GW = GallicWeight<TropicalWeight, GALLIC_LEFT>;
    let original = GW::from_parts(StringWeight::new(vec![1, 2, 3]), TropicalWeight(5.0));

    let mut factors = GallicFactor::<TropicalWeight, GALLIC_LEFT>::new(original.duplicate());
    let (head, rest) = FactorIterator::next(&mut factors).expect("three labels can be split");
    assert!(FactorIterator::next(&mut factors).is_none(), "one split, then done");

    assert_eq!(head.labels(), &StringWeight::new(vec![1]));
    assert_eq!(head.weight(), &TropicalWeight(5.0));
    assert_eq!(rest.labels(), &StringWeight::new(vec![2, 3]));
    assert_eq!(rest.weight(), &TropicalWeight::one());
    assert_eq!(head.times(&rest), original, "the pieces multiply back");
}

#[test]
fn an_fst_with_no_start_state_factors_to_nothing() {
    let ifst = StdVectorFst::new();
    let mut ofst = StdVectorFst::new();
    ofst.add_state();
    factor_weight(
        &ifst,
        &mut ofst,
        IdentityFactor::new,
        &FactorWeightOptions::new(TropicalWeight::default_delta()),
    );
    assert_eq!(ofst.num_states(), 0);
}
