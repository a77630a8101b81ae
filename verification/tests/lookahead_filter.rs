#![allow(dead_code)]

use sicada::arc::Arc;
use sicada::arcsort::{ILabelCompare, OLabelCompare, arc_sort};
use sicada::compose_filter::{ComposeFilter, NullComposeFilter};
use sicada::filter_state::{LabelFilterState, PairFilterState, TrivialFilterState};
use sicada::lookahead_filter::{HasLookAhead, LookAheadComposeFilter, PushLabelsComposeFilter, PushWeightsComposeFilter, lookahead_match_type};
use sicada::lookahead_matcher::{ArcLookAheadMatcher, LOOKAHEAD_EPSILONS, LOOKAHEAD_NON_EPSILONS, LOOKAHEAD_WEIGHT, LookAheadMatcher};
use sicada::matcher::{MatchType, SortedMatcher};
use sicada::multi_eps::{MULTI_EPS_LIST, MULTI_EPS_LOOP, MultiEpsMatcher};
use sicada::properties::{K_ACCEPTOR, K_ACCESSIBLE, K_ACYCLIC, K_CO_ACCESSIBLE, K_CYCLIC, K_EPSILONS, K_FST_PROPERTIES, K_INITIAL_ACYCLIC, K_INITIAL_CYCLIC, K_I_DETERMINISTIC, K_I_EPSILONS, K_I_LABEL_SORTED, K_NON_I_DETERMINISTIC, K_NON_O_DETERMINISTIC, K_NOT_ACCEPTOR, K_NOT_ACCESSIBLE, K_NOT_CO_ACCESSIBLE, K_NOT_I_LABEL_SORTED, K_NOT_O_LABEL_SORTED, K_NOT_STRING, K_NOT_TOP_SORTED, K_NO_EPSILONS, K_NO_I_EPSILONS, K_NO_O_EPSILONS, K_O_DETERMINISTIC, K_O_EPSILONS, K_O_LABEL_SORTED, K_STRING, K_TOP_SORTED, K_UNWEIGHTED, K_UNWEIGHTED_CYCLES, K_WEIGHTED, K_WEIGHTED_CYCLES};
use sicada::vector_fst::VectorFst;
use sicada::weight::{COMMUTATIVE, Divide, DivideType, IDEMPOTENT, LEFT_SEMIRING, PATH, RIGHT_SEMIRING, Weight};

/// The tropical semiring: the least weight wins, and weights along a path add up.
#[derive(Clone, Copy, Debug, PartialEq, PartialOrd)]
struct TropicalWeight(f32);

impl TropicalWeight {
    fn new(value: f32) -> Self {
        TropicalWeight(value)
    }

    fn value(&self) -> f32 {
        self.0
    }
}

impl Weight for TropicalWeight {
    type Delta = f32;

    fn spec_zero() -> Self {
        unreachable!()
    }

    fn spec_one() -> Self {
        unreachable!()
    }

    fn spec_no_weight() -> Self {
        unreachable!()
    }

    fn spec_plus(self, _other: Self) -> Self {
        unreachable!()
    }

    fn spec_times(self, _other: Self) -> Self {
        unreachable!()
    }

    fn spec_member(self) -> bool {
        unreachable!()
    }

    fn spec_approx(self, _other: Self, _delta: f32) -> bool {
        unreachable!()
    }

    fn spec_quantize(self, _delta: f32) -> Self {
        unreachable!()
    }

    fn spec_hash_word(self) -> u64 {
        unreachable!()
    }

    fn spec_properties() -> u64 {
        unreachable!()
    }

    fn spec_default_delta() -> f32 {
        unreachable!()
    }

    fn zero() -> Self {
        TropicalWeight(f32::INFINITY)
    }

    fn one() -> Self {
        TropicalWeight(0.0)
    }

    fn no_weight() -> Self {
        TropicalWeight(f32::NAN)
    }

    fn plus(&self, other: &Self) -> Self {
        if !self.is_member() || !other.is_member() {
            return Self::no_weight();
        }
        TropicalWeight(self.0.min(other.0))
    }

    fn times(&self, other: &Self) -> Self {
        if !self.is_member() || !other.is_member() {
            return Self::no_weight();
        }
        TropicalWeight(self.0 + other.0)
    }

    fn duplicate(&self) -> Self {
        *self
    }

    fn same(&self, other: &Self) -> bool {
        self.0 == other.0
    }

    fn is_member(&self) -> bool {
        !self.0.is_nan() && self.0 != f32::NEG_INFINITY
    }

    fn approx_equal(&self, other: &Self, delta: &f32) -> bool {
        self.0 <= other.0 + delta && other.0 <= self.0 + delta
    }

    fn quantize(&self, delta: &f32) -> Self {
        if self.0.is_finite() {
            TropicalWeight((self.0 / delta + 0.5).floor() * delta)
        } else {
            *self
        }
    }

    fn hash_word(&self) -> u64 {
        self.0.to_bits() as u64
    }

    fn properties() -> u64 {
        LEFT_SEMIRING | RIGHT_SEMIRING | COMMUTATIVE | IDEMPOTENT | PATH
    }

    fn default_delta() -> f32 {
        1.0 / 1024.0
    }
}

impl Divide for TropicalWeight {
    fn spec_divide(self, _divisor: Self, _side: DivideType) -> Self {
        unreachable!()
    }

    fn divide(&self, divisor: &Self, _side: DivideType) -> Self {
        if !self.is_member() || !divisor.is_member() || divisor.0 == f32::INFINITY {
            Self::no_weight()
        } else if self.0 == f32::INFINITY {
            Self::zero()
        } else {
            TropicalWeight(self.0 - divisor.0)
        }
    }
}

/// An arc whose weight is tropical.
#[derive(Clone, Copy, Debug, PartialEq)]
struct StdArc {
    ilabel: i32,
    olabel: i32,
    weight: TropicalWeight,
    nextstate: i32,
}

impl StdArc {
    fn new(ilabel: i32, olabel: i32, weight: TropicalWeight, nextstate: i32) -> Self {
        StdArc { ilabel, olabel, weight, nextstate }
    }

    fn of(arc: &Arc<TropicalWeight>) -> Self {
        StdArc::new(arc.ilabel, arc.olabel, arc.weight, arc.nextstate as i32)
    }

    fn raw(&self) -> Arc<TropicalWeight> {
        Arc::new(self.ilabel, self.olabel, self.weight, self.nextstate as usize)
    }

    fn ilabel(&self) -> i32 {
        self.ilabel
    }

    fn olabel(&self) -> i32 {
        self.olabel
    }

    fn weight(&self) -> TropicalWeight {
        self.weight
    }

    fn nextstate(&self) -> i32 {
        self.nextstate
    }
}

/// A machine over tropical weights, with states counted by `i32`.
struct StdVectorFst(VectorFst<TropicalWeight>);

impl std::ops::Deref for StdVectorFst {
    type Target = VectorFst<TropicalWeight>;

    fn deref(&self) -> &VectorFst<TropicalWeight> {
        &self.0
    }
}

impl std::ops::DerefMut for StdVectorFst {
    fn deref_mut(&mut self) -> &mut VectorFst<TropicalWeight> {
        &mut self.0
    }
}

impl Clone for StdVectorFst {
    fn clone(&self) -> Self {
        StdVectorFst(self.0.duplicate())
    }
}

impl StdVectorFst {
    fn new() -> Self {
        StdVectorFst(VectorFst::new())
    }

    fn add_state(&mut self) -> i32 {
        self.0.add_state() as i32
    }

    fn set_start(&mut self, s: i32) {
        self.0.set_start(s as usize);
    }

    fn start(&self) -> Option<i32> {
        self.0.start().map(|s| s as i32)
    }

    fn set_final(&mut self, s: i32, weight: TropicalWeight) {
        self.0.set_final(s as usize, weight);
    }

    fn final_weight(&self, s: i32) -> TropicalWeight {
        self.0.final_weight(s as usize)
    }

    fn add_arc(&mut self, s: i32, arc: StdArc) {
        self.0.add_arc(s as usize, arc.raw());
    }

    fn states(&self) -> std::ops::Range<i32> {
        0..self.0.num_states() as i32
    }

    fn arcs(&self, s: i32) -> std::vec::IntoIter<StdArc> {
        let arcs: Vec<StdArc> = self.0.arcs(s as usize).iter().map(StdArc::of).collect();
        arcs.into_iter()
    }

    fn num_arcs(&self, s: i32) -> usize {
        self.0.num_arcs(s as usize)
    }

    fn delete_arcs(&mut self, s: i32) {
        self.0.delete_arcs(s as usize);
    }

    fn mutate_arcs(&mut self, s: i32, change: impl Fn(&mut StdArc)) {
        let mut arcs: Vec<StdArc> = self.arcs(s).collect();
        for arc in &mut arcs {
            change(arc);
        }
        self.0.set_arcs(s as usize, arcs.iter().map(StdArc::raw).collect());
    }

    /// What holds of the machine, read off its states and arcs where `test` says so.
    fn properties(&self, mask: u64, test: bool) -> u64 {
        if test {
            compute_properties(&self.0) & mask
        } else {
            self.0.known_properties(mask)
        }
    }

    /// Reads off the machine what holds of it, and keeps that with it.
    fn learn_properties(&mut self) {
        let props = compute_properties(&self.0);
        self.0.set_properties(props, K_FST_PROPERTIES);
    }
}

/// Every property of a machine that can be read off its states and arcs.
fn compute_properties<W: Weight>(fst: &VectorFst<W>) -> u64 {
    let n = fst.num_states();
    let one = W::one();
    let zero = W::zero();
    let mut props = 0u64;
    let mut reach = vec![vec![false; n]; n];
    for s in 0..n {
        for arc in fst.arcs(s) {
            reach[s][arc.nextstate] = true;
        }
    }
    for k in 0..n {
        for i in 0..n {
            if reach[i][k] {
                for j in 0..n {
                    if reach[k][j] {
                        reach[i][j] = true;
                    }
                }
            }
        }
    }
    let start = fst.start();
    let arcs: Vec<(usize, &Arc<W>)> =
        (0..n).flat_map(|s| fst.arcs(s).iter().map(move |arc| (s, arc))).collect();
    let repeats = |label: fn(&Arc<W>) -> i32| {
        (0..n).any(|s| {
            let mut labels: Vec<i32> = fst.arcs(s).iter().map(label).collect();
            labels.sort();
            labels.windows(2).any(|pair| pair[0] == pair[1])
        })
    };
    let falls = |label: fn(&Arc<W>) -> i32| {
        (0..n).any(|s| fst.arcs(s).windows(2).any(|pair| label(&pair[0]) > label(&pair[1])))
    };
    let mut set = |holds: bool, yes: u64, no: u64| {
        props |= if holds { yes } else { no };
    };
    set(arcs.iter().all(|(_, a)| a.ilabel == a.olabel), K_ACCEPTOR, K_NOT_ACCEPTOR);
    set(!repeats(|a| a.ilabel), K_I_DETERMINISTIC, K_NON_I_DETERMINISTIC);
    set(!repeats(|a| a.olabel), K_O_DETERMINISTIC, K_NON_O_DETERMINISTIC);
    set(arcs.iter().any(|(_, a)| a.ilabel == 0 && a.olabel == 0), K_EPSILONS, K_NO_EPSILONS);
    set(arcs.iter().any(|(_, a)| a.ilabel == 0), K_I_EPSILONS, K_NO_I_EPSILONS);
    set(arcs.iter().any(|(_, a)| a.olabel == 0), K_O_EPSILONS, K_NO_O_EPSILONS);
    set(!falls(|a| a.ilabel), K_I_LABEL_SORTED, K_NOT_I_LABEL_SORTED);
    set(!falls(|a| a.olabel), K_O_LABEL_SORTED, K_NOT_O_LABEL_SORTED);
    let weighted = arcs.iter().any(|(_, a)| !a.weight.same(&one) && !a.weight.same(&zero))
        || (0..n).any(|s| {
            let w = fst.final_weight(s);
            !w.same(&one) && !w.same(&zero)
        });
    set(weighted, K_WEIGHTED, K_UNWEIGHTED);
    let has_cycle = (0..n).any(|s| reach[s][s]);
    set(has_cycle, K_CYCLIC, K_ACYCLIC);
    let initial_cycle = start.is_some_and(|s| reach[s][s]);
    set(initial_cycle, K_INITIAL_CYCLIC, K_INITIAL_ACYCLIC);
    set(arcs.iter().all(|(s, a)| a.nextstate > *s), K_TOP_SORTED, K_NOT_TOP_SORTED);
    let seen = |s: usize| start.is_some_and(|i| i == s || reach[i][s]);
    let ends = |s: usize| (0..n).any(|t| fst.is_final(t) && (s == t || reach[s][t]));
    set((0..n).all(seen), K_ACCESSIBLE, K_NOT_ACCESSIBLE);
    set((0..n).all(ends), K_CO_ACCESSIBLE, K_NOT_CO_ACCESSIBLE);
    let string = start.map_or(n == 0, |i| i == 0)
        && (0..n).all(|s| {
            if fst.is_final(s) {
                fst.num_arcs(s) == 0 && s + 1 == n
            } else {
                fst.num_arcs(s) == 1 && fst.arcs(s)[0].nextstate == s + 1
            }
        });
    set(string, K_STRING, K_NOT_STRING);
    let weighted_cycle =
        arcs.iter().any(|(s, a)| {
            !a.weight.same(&one) && !a.weight.same(&zero) && (a.nextstate == *s || reach[a.nextstate][*s])
        });
    set(weighted_cycle, K_WEIGHTED_CYCLES, K_UNWEIGHTED_CYCLES);
    props
}

/// The look-ahead matcher used throughout: it needs nothing precomputed, so
/// a test can build any pair of FSTs and ask it about them.
type Look<'f> = ArcLookAheadMatcher<'f, TropicalWeight, SortedMatcher<'f, TropicalWeight>>;
type Eps<'f> = MultiEpsMatcher<Look<'f>>;

fn w(x: f32) -> TropicalWeight {
    TropicalWeight(x)
}

/// Builds an FST from `(state, ilabel, olabel, weight, nextstate)` arcs,
/// with the last state final.
fn build(nstates: usize, arcs: &[(i32, i32, i32, f32, i32)]) -> StdVectorFst {
    let mut fst = StdVectorFst::new();
    for _ in 0..nstates {
        fst.add_state();
    }
    fst.set_start(0);
    for &(s, il, ol, weight, next) in arcs {
        fst.add_arc(s, StdArc::new(il, ol, w(weight), next));
    }
    fst.set_final((nstates - 1) as i32, TropicalWeight::one());
    arc_sort(&mut fst, &ILabelCompare);
    fst.learn_properties();
    fst
}

fn matchers<'f>(
    fst1: &'f StdVectorFst,
    fst2: &'f StdVectorFst,
    flags: u32,
) -> (Look<'f>, Look<'f>) {
    let m1 = ArcLookAheadMatcher::with_flags(
        fst1,
        SortedMatcher::new(fst1, MatchType::Output).unwrap(),
        flags,
    );
    let m2 = ArcLookAheadMatcher::with_flags(
        fst2,
        SortedMatcher::new(fst2, MatchType::Input).unwrap(),
        flags,
    );
    (m1, m2)
}

/// A matcher that looks ahead one arc at a time, and can treat labels as epsilon.
fn multi(fst: &StdVectorFst, match_type: MatchType, flags: u32) -> Eps<'_> {
    let inner = SortedMatcher::new(fst, match_type).unwrap();
    MultiEpsMatcher::new_with_flags(ArcLookAheadMatcher::new(fst, inner), flags)
}

/// With matcher 1 over output labels and matcher 2 over input labels, the
/// look-ahead is done on the output side.
#[test]
fn the_output_side_is_the_one_that_looks_ahead() {
    let fst1 = build(2, &[(0, 1, 1, 0.0, 1)]);
    let fst2 = build(2, &[(0, 1, 1, 0.0, 1)]);
    let (m1, m2) = matchers(&fst1, &fst2, LOOKAHEAD_NON_EPSILONS);
    assert_eq!(lookahead_match_type(&m1, &m2), MatchType::Output);

    // Two matchers over the same side can look ahead for neither.
    let m1 = ArcLookAheadMatcher::with_flags(
        &fst1,
        SortedMatcher::new(&fst1, MatchType::Input).unwrap(),
        LOOKAHEAD_NON_EPSILONS,
    );
    let m2 = ArcLookAheadMatcher::with_flags(
        &fst2,
        SortedMatcher::new(&fst2, MatchType::Output).unwrap(),
        LOOKAHEAD_NON_EPSILONS,
    );
    assert_eq!(lookahead_match_type(&m1, &m2), MatchType::Neither);
}

/// A filter that cannot look ahead on either side is refused, rather than
/// built and reported through a property bit later.
#[test]
fn a_filter_that_cannot_look_ahead_is_refused() {
    let fst1 = build(2, &[(0, 1, 1, 0.0, 1)]);
    let fst2 = build(2, &[(0, 1, 1, 0.0, 1)]);
    let m1 = ArcLookAheadMatcher::with_flags(
        &fst1,
        SortedMatcher::new(&fst1, MatchType::Input).unwrap(),
        LOOKAHEAD_NON_EPSILONS,
    );
    let m2 = ArcLookAheadMatcher::with_flags(
        &fst2,
        SortedMatcher::new(&fst2, MatchType::Output).unwrap(),
        LOOKAHEAD_NON_EPSILONS,
    );
    let inner = NullComposeFilter::new(m1, m2);
    let Err(err) = LookAheadComposeFilter::new(inner, &fst2) else {
        panic!("a filter that can look ahead on neither side has to be refused")
    };
    assert!(err.message().contains("look-ahead"), "{}", err.message());
}

/// The pair is taken only when something can still match past it.
#[test]
fn a_pair_with_no_future_is_refused() {
    // 0 -1:1-> 1 -2:2-> 2, so past label 1 only label 2 can be read.
    let fst1 = build(3, &[(0, 1, 1, 0.0, 1), (1, 2, 2, 0.0, 2)]);
    let goes_on = build(3, &[(0, 1, 1, 0.0, 1), (1, 2, 2, 0.0, 2)]);
    let stops = build(2, &[(0, 1, 1, 0.0, 1)]);

    for (fst2, expected) in [(&goes_on, true), (&stops, false)] {
        let (m1, m2) = matchers(&fst1, fst2, LOOKAHEAD_NON_EPSILONS | LOOKAHEAD_EPSILONS);
        let inner = NullComposeFilter::new(m1, m2);
        let mut filter = LookAheadComposeFilter::new(inner, fst2).unwrap();
        let start = filter.start();
        filter.set_state(0, 0, &start);
        let mut arc1 = Arc::new(1, 1, TropicalWeight::one(), 1);
        let mut arc2 = Arc::new(1, 1, TropicalWeight::one(), 1);
        assert_eq!(
            filter.filter_arc(&mut arc1, &mut arc2).is_some(),
            expected,
            "the pair leads somewhere: {expected}"
        );
    }
}

/// An arc the matcher said it does not look at is left to the inner filter.
#[test]
fn an_arc_the_matcher_ignores_is_not_looked_at() {
    let fst1 = build(3, &[(0, 1, 1, 0.0, 1), (1, 2, 2, 0.0, 2)]);
    let fst2 = build(2, &[(0, 1, 1, 0.0, 1)]);
    // Only epsilons are looked at, and this pair carries a label.
    let (m1, m2) = matchers(&fst1, &fst2, LOOKAHEAD_EPSILONS);
    let inner = NullComposeFilter::new(m1, m2);
    let mut filter = LookAheadComposeFilter::new(inner, &fst2).unwrap();
    let start = filter.start();
    filter.set_state(0, 0, &start);
    let mut arc1 = Arc::new(1, 1, TropicalWeight::one(), 1);
    let mut arc2 = Arc::new(1, 1, TropicalWeight::one(), 1);
    assert!(
        filter.filter_arc(&mut arc1, &mut arc2).is_some(),
        "with no dead end reported, the pair stands"
    );
    assert!(
        filter.last_lookahead().is_none(),
        "and nothing was looked at, so there is nothing to read back"
    );
}

/// The weight of what lies ahead is moved onto the arc, and taken back off
/// again, so the path still weighs what it did.
#[test]
fn the_weight_ahead_is_pushed_and_then_divided_back_out() {
    // 0 -1:1/0-> 1 -2:2/5-> 2 against 0 -1:1/0-> 1 -2:2/3-> 2.
    let fst1 = build(3, &[(0, 1, 1, 0.0, 1), (1, 2, 2, 5.0, 2)]);
    let fst2 = build(3, &[(0, 1, 1, 0.0, 1), (1, 2, 2, 3.0, 2)]);
    // No prefix reporting: a single way forward would be reported as the
    // arc itself, and its weight left off so as not to count it twice.
    let (m1, m2) = matchers(&fst1, &fst2, LOOKAHEAD_NON_EPSILONS | LOOKAHEAD_WEIGHT);
    let inner = NullComposeFilter::new(m1, m2);
    let look = LookAheadComposeFilter::new(inner, &fst2).unwrap();
    let mut filter = PushWeightsComposeFilter::new(look);

    let start = filter.start();
    filter.set_state(0, 0, &start);
    let mut arc1 = Arc::new(1, 1, TropicalWeight::one(), 1);
    let mut arc2 = Arc::new(1, 1, TropicalWeight::one(), 1);
    let fs = filter
        .filter_arc(&mut arc1, &mut arc2)
        .expect("the pair leads somewhere");
    assert_eq!(
        arc2.weight,
        w(8.0),
        "everything past the pair weighs 5 on one side and 3 on the other"
    );
    assert_eq!(fs.state2().weight(), w(8.0), "and that is what was pushed");

    filter.set_state(1, 1, &fs);
    let mut arc1 = Arc::new(2, 2, w(5.0), 2);
    let mut arc2 = Arc::new(2, 2, w(3.0), 2);
    let fs = filter
        .filter_arc(&mut arc1, &mut arc2)
        .expect("the pair leads somewhere");
    assert_eq!(
        arc2.weight,
        w(-5.0),
        "what was pushed comes back off, leaving 8 + -5 = 3 = 5 + 3 - 5"
    );
    assert_eq!(fs.state2().weight(), TropicalWeight::one());
}

/// A pair the look-ahead refuses never reaches the weight arithmetic.
#[test]
fn a_pair_with_no_future_is_refused_before_any_arithmetic() {
    let fst1 = build(3, &[(0, 1, 1, 0.0, 1), (1, 2, 2, 5.0, 2)]);
    // Past label 1 this side reads 9, which the other side never writes.
    let fst2 = build(3, &[(0, 1, 1, 0.0, 1), (1, 9, 9, 0.0, 2)]);
    let (m1, m2) = matchers(&fst1, &fst2, LOOKAHEAD_NON_EPSILONS | LOOKAHEAD_WEIGHT);
    let inner = NullComposeFilter::new(m1, m2);
    let look = LookAheadComposeFilter::new(inner, &fst2).unwrap();
    let mut filter = PushWeightsComposeFilter::new(look);
    let start = filter.start();
    filter.set_state(0, 0, &start);
    let mut arc1 = Arc::new(1, 1, TropicalWeight::one(), 1);
    let mut arc2 = Arc::new(1, 1, TropicalWeight::one(), 1);
    assert!(filter.filter_arc(&mut arc1, &mut arc2).is_none());
    assert_eq!(
        arc2.weight,
        TropicalWeight::one(),
        "and the arc is left as it was"
    );
}

/// The whole stack: the one label that has to come next is written on the
/// arc that reaches the pair, and the arc that would have written it turns
/// into an epsilon.
#[test]
fn the_one_label_ahead_is_written_early_and_then_paid() {
    // 1 goes in and 5 comes out, but only after an epsilon step.
    let mut fst1 = StdVectorFst::new();
    for _ in 0..3 {
        fst1.add_state();
    }
    fst1.set_start(0);
    fst1.add_arc(0, StdArc::new(1, 0, TropicalWeight::one(), 1));
    fst1.add_arc(1, StdArc::new(0, 5, TropicalWeight::one(), 2));
    fst1.set_final(2, TropicalWeight::one());
    arc_sort(&mut fst1, &OLabelCompare);
    fst1.learn_properties();

    // 5 goes in and 7 comes out.
    let fst2 = build(2, &[(0, 5, 7, 0.0, 1)]);

    let m1 = multi(&fst1, MatchType::Output, MULTI_EPS_LIST);
    let m2 = multi(&fst2, MatchType::Input, MULTI_EPS_LOOP);
    let inner = NullComposeFilter::new(m1, m2);
    let look = LookAheadComposeFilter::new(inner, &fst2).unwrap();
    let mut filter = PushLabelsComposeFilter::new(look, &fst1);

    // Taking fst1's 1:ε against fst2 standing still: the look-ahead finds
    // that 5:7 is the only way on, so it is taken now.
    let start = filter.start();
    filter.set_state(0, 0, &start);
    let mut arc1 = Arc::new(1, 0, TropicalWeight::one(), 1);
    let mut arc2 = Arc::new(0, 0, TropicalWeight::one(), 0);
    let fs = filter
        .filter_arc(&mut arc1, &mut arc2)
        .expect("the pair leads somewhere");
    assert_eq!(
        (arc1.ilabel, arc1.olabel),
        (1, 5),
        "the 5 fst1 will only write later is written on this arc now"
    );
    assert_eq!(
        (arc2.ilabel, arc2.olabel, arc2.nextstate),
        (5, 7, 1),
        "so fst2 goes forward on the arc that reads it"
    );
    assert_eq!(*fs.state2().label(), 5, "and 5 is what the filter now owes");

    // fst1's ε:5 comes round, and pays it.
    filter.set_state(1, 1, &fs);
    let mut arc1 = Arc::new(0, 5, TropicalWeight::one(), 2);
    let mut arc2 = Arc::new(-1, -1, TropicalWeight::one(), 1);
    let fs = filter
        .filter_arc(&mut arc1, &mut arc2)
        .expect("the debt is paid, so the pair is taken");
    assert_eq!(
        (arc1.ilabel, arc1.olabel),
        (0, 0),
        "the 5 was already written, so writing it again would be twice"
    );
    assert_eq!(*fs.state2().label(), -1, "and nothing is owed any more");
}

/// While a label is owed, an arc that writes something else cannot be
/// taken, or the debt would be lost.
#[test]
fn an_arc_that_pays_something_else_is_refused() {
    let fst1 = build(3, &[(0, 1, 1, 0.0, 1), (1, 2, 2, 0.0, 2)]);
    let fst2 = build(2, &[(0, 5, 7, 0.0, 1)]);
    let m1 = multi(&fst1, MatchType::Output, MULTI_EPS_LIST);
    let m2 = multi(&fst2, MatchType::Input, MULTI_EPS_LOOP);
    let inner = NullComposeFilter::new(m1, m2);
    let look = LookAheadComposeFilter::new(inner, &fst2).unwrap();
    let mut filter = PushLabelsComposeFilter::new(look, &fst1);

    let owing = PairFilterState::new(
        TrivialFilterState::new(true),
        LabelFilterState::new(5),
    );
    filter.set_state(1, 1, &owing);

    // fst1 writes 2 here, not the 5 that is owed.
    let mut arc1 = Arc::new(2, 2, TropicalWeight::one(), 2);
    let mut arc2 = Arc::new(-1, -1, TropicalWeight::one(), 1);
    assert!(filter.filter_arc(&mut arc1, &mut arc2).is_none());

    // Nor can a path stop while it still owes one.
    let mut w1 = TropicalWeight::one();
    let mut w2 = TropicalWeight::one();
    filter.filter_final(&mut w1, &mut w2);
    assert_eq!(w1, TropicalWeight::zero());
}
