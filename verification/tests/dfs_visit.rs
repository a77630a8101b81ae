#![allow(dead_code)]

use sicada::arc::Arc;
use sicada::arc_filter::{AnyArcFilter, ArcFilter};
use sicada::dfs_visit::{DfsVisitor, Search, dfs_visit, dfs_visit_any, Told};
use sicada::properties::{K_ACCEPTOR, K_ACCESSIBLE, K_ACYCLIC, K_CO_ACCESSIBLE, K_CYCLIC, K_EPSILONS, K_FST_PROPERTIES, K_INITIAL_ACYCLIC, K_INITIAL_CYCLIC, K_I_DETERMINISTIC, K_I_EPSILONS, K_I_LABEL_SORTED, K_NON_I_DETERMINISTIC, K_NON_O_DETERMINISTIC, K_NOT_ACCEPTOR, K_NOT_ACCESSIBLE, K_NOT_CO_ACCESSIBLE, K_NOT_I_LABEL_SORTED, K_NOT_O_LABEL_SORTED, K_NOT_STRING, K_NOT_TOP_SORTED, K_NO_EPSILONS, K_NO_I_EPSILONS, K_NO_O_EPSILONS, K_O_DETERMINISTIC, K_O_EPSILONS, K_O_LABEL_SORTED, K_STRING, K_TOP_SORTED, K_UNWEIGHTED, K_UNWEIGHTED_CYCLES, K_WEIGHTED, K_WEIGHTED_CYCLES};
use sicada::vector_fst::{FstV, VectorFst};
use sicada::weight::{COMMUTATIVE, IDEMPOTENT, LEFT_SEMIRING, PATH, RIGHT_SEMIRING, Weight};

/// The tropical semiring: the least weight wins, and weights along a path add up.
#[derive(Clone, Copy, Debug, PartialEq, PartialOrd)]
struct TropicalWeight(f32);

impl TropicalWeight {
    fn new(value: f32) -> Self {
        TropicalWeight(value)
    }

    fn value(&self) -> f32 {
        self.0
    }
}

impl Weight for TropicalWeight {
    type Delta = f32;

    fn spec_zero() -> Self {
        unreachable!()
    }

    fn spec_one() -> Self {
        unreachable!()
    }

    fn spec_no_weight() -> Self {
        unreachable!()
    }

    fn spec_plus(self, _other: Self) -> Self {
        unreachable!()
    }

    fn spec_times(self, _other: Self) -> Self {
        unreachable!()
    }

    fn spec_member(self) -> bool {
        unreachable!()
    }

    fn spec_approx(self, _other: Self, _delta: f32) -> bool {
        unreachable!()
    }

    fn spec_quantize(self, _delta: f32) -> Self {
        unreachable!()
    }

    fn spec_hash_word(self) -> u64 {
        unreachable!()
    }

    fn spec_properties() -> u64 {
        unreachable!()
    }

    fn spec_default_delta() -> f32 {
        unreachable!()
    }

    fn zero() -> Self {
        TropicalWeight(f32::INFINITY)
    }

    fn one() -> Self {
        TropicalWeight(0.0)
    }

    fn no_weight() -> Self {
        TropicalWeight(f32::NAN)
    }

    fn plus(&self, other: &Self) -> Self {
        if !self.is_member() || !other.is_member() {
            return Self::no_weight();
        }
        TropicalWeight(self.0.min(other.0))
    }

    fn times(&self, other: &Self) -> Self {
        if !self.is_member() || !other.is_member() {
            return Self::no_weight();
        }
        TropicalWeight(self.0 + other.0)
    }

    fn duplicate(&self) -> Self {
        *self
    }

    fn same(&self, other: &Self) -> bool {
        self.0 == other.0
    }

    fn is_member(&self) -> bool {
        !self.0.is_nan() && self.0 != f32::NEG_INFINITY
    }

    fn approx_equal(&self, other: &Self, delta: &f32) -> bool {
        self.0 <= other.0 + delta && other.0 <= self.0 + delta
    }

    fn quantize(&self, delta: &f32) -> Self {
        if self.0.is_finite() {
            TropicalWeight((self.0 / delta + 0.5).floor() * delta)
        } else {
            *self
        }
    }

    fn hash_word(&self) -> u64 {
        self.0.to_bits() as u64
    }

    fn properties() -> u64 {
        LEFT_SEMIRING | RIGHT_SEMIRING | COMMUTATIVE | IDEMPOTENT | PATH
    }

    fn default_delta() -> f32 {
        1.0 / 1024.0
    }
}

/// An arc whose weight is tropical.
#[derive(Clone, Copy, Debug, PartialEq)]
struct StdArc {
    ilabel: i32,
    olabel: i32,
    weight: TropicalWeight,
    nextstate: i32,
}

impl StdArc {
    fn new(ilabel: i32, olabel: i32, weight: TropicalWeight, nextstate: i32) -> Self {
        StdArc { ilabel, olabel, weight, nextstate }
    }

    fn of(arc: &Arc<TropicalWeight>) -> Self {
        StdArc::new(arc.ilabel, arc.olabel, arc.weight, arc.nextstate as i32)
    }

    fn raw(&self) -> Arc<TropicalWeight> {
        Arc::new(self.ilabel, self.olabel, self.weight, self.nextstate as usize)
    }

    fn ilabel(&self) -> i32 {
        self.ilabel
    }

    fn olabel(&self) -> i32 {
        self.olabel
    }

    fn weight(&self) -> TropicalWeight {
        self.weight
    }

    fn nextstate(&self) -> i32 {
        self.nextstate
    }
}

/// A machine over tropical weights, with states counted by `i32`.
struct StdVectorFst(VectorFst<TropicalWeight>);

impl std::ops::Deref for StdVectorFst {
    type Target = VectorFst<TropicalWeight>;

    fn deref(&self) -> &VectorFst<TropicalWeight> {
        &self.0
    }
}

impl std::ops::DerefMut for StdVectorFst {
    fn deref_mut(&mut self) -> &mut VectorFst<TropicalWeight> {
        &mut self.0
    }
}

impl Clone for StdVectorFst {
    fn clone(&self) -> Self {
        StdVectorFst(self.0.duplicate())
    }
}

impl StdVectorFst {
    fn new() -> Self {
        StdVectorFst(VectorFst::new())
    }

    fn add_state(&mut self) -> i32 {
        self.0.add_state() as i32
    }

    fn set_start(&mut self, s: i32) {
        self.0.set_start(s as usize);
    }

    fn start(&self) -> Option<i32> {
        self.0.start().map(|s| s as i32)
    }

    fn set_final(&mut self, s: i32, weight: TropicalWeight) {
        self.0.set_final(s as usize, weight);
    }

    fn final_weight(&self, s: i32) -> TropicalWeight {
        self.0.final_weight(s as usize)
    }

    fn add_arc(&mut self, s: i32, arc: StdArc) {
        self.0.add_arc(s as usize, arc.raw());
    }

    fn states(&self) -> std::ops::Range<i32> {
        0..self.0.num_states() as i32
    }

    fn arcs(&self, s: i32) -> std::vec::IntoIter<StdArc> {
        let arcs: Vec<StdArc> = self.0.arcs(s as usize).iter().map(StdArc::of).collect();
        arcs.into_iter()
    }

    fn num_arcs(&self, s: i32) -> usize {
        self.0.num_arcs(s as usize)
    }

    fn delete_arcs(&mut self, s: i32) {
        self.0.delete_arcs(s as usize);
    }

    fn mutate_arcs(&mut self, s: i32, change: impl Fn(&mut StdArc)) {
        let mut arcs: Vec<StdArc> = self.arcs(s).collect();
        for arc in &mut arcs {
            change(arc);
        }
        self.0.set_arcs(s as usize, arcs.iter().map(StdArc::raw).collect());
    }

    /// What holds of the machine, read off its states and arcs where `test` says so.
    fn properties(&self, mask: u64, test: bool) -> u64 {
        if test {
            compute_properties(&self.0) & mask
        } else {
            self.0.known_properties(mask)
        }
    }

    /// Reads off the machine what holds of it, and keeps that with it.
    fn learn_properties(&mut self) {
        let props = compute_properties(&self.0);
        self.0.set_properties(props, K_FST_PROPERTIES);
    }
}

/// Every property of a machine that can be read off its states and arcs.
fn compute_properties<W: Weight>(fst: &VectorFst<W>) -> u64 {
    let n = fst.num_states();
    let one = W::one();
    let zero = W::zero();
    let mut props = 0u64;
    let mut reach = vec![vec![false; n]; n];
    for s in 0..n {
        for arc in fst.arcs(s) {
            reach[s][arc.nextstate] = true;
        }
    }
    for k in 0..n {
        for i in 0..n {
            if reach[i][k] {
                for j in 0..n {
                    if reach[k][j] {
                        reach[i][j] = true;
                    }
                }
            }
        }
    }
    let start = fst.start();
    let arcs: Vec<(usize, &Arc<W>)> =
        (0..n).flat_map(|s| fst.arcs(s).iter().map(move |arc| (s, arc))).collect();
    let repeats = |label: fn(&Arc<W>) -> i32| {
        (0..n).any(|s| {
            let mut labels: Vec<i32> = fst.arcs(s).iter().map(label).collect();
            labels.sort();
            labels.windows(2).any(|pair| pair[0] == pair[1])
        })
    };
    let falls = |label: fn(&Arc<W>) -> i32| {
        (0..n).any(|s| fst.arcs(s).windows(2).any(|pair| label(&pair[0]) > label(&pair[1])))
    };
    let mut set = |holds: bool, yes: u64, no: u64| {
        props |= if holds { yes } else { no };
    };
    set(arcs.iter().all(|(_, a)| a.ilabel == a.olabel), K_ACCEPTOR, K_NOT_ACCEPTOR);
    set(!repeats(|a| a.ilabel), K_I_DETERMINISTIC, K_NON_I_DETERMINISTIC);
    set(!repeats(|a| a.olabel), K_O_DETERMINISTIC, K_NON_O_DETERMINISTIC);
    set(arcs.iter().any(|(_, a)| a.ilabel == 0 && a.olabel == 0), K_EPSILONS, K_NO_EPSILONS);
    set(arcs.iter().any(|(_, a)| a.ilabel == 0), K_I_EPSILONS, K_NO_I_EPSILONS);
    set(arcs.iter().any(|(_, a)| a.olabel == 0), K_O_EPSILONS, K_NO_O_EPSILONS);
    set(!falls(|a| a.ilabel), K_I_LABEL_SORTED, K_NOT_I_LABEL_SORTED);
    set(!falls(|a| a.olabel), K_O_LABEL_SORTED, K_NOT_O_LABEL_SORTED);
    let weighted = arcs.iter().any(|(_, a)| !a.weight.same(&one) && !a.weight.same(&zero))
        || (0..n).any(|s| {
            let w = fst.final_weight(s);
            !w.same(&one) && !w.same(&zero)
        });
    set(weighted, K_WEIGHTED, K_UNWEIGHTED);
    let has_cycle = (0..n).any(|s| reach[s][s]);
    set(has_cycle, K_CYCLIC, K_ACYCLIC);
    let initial_cycle = start.is_some_and(|s| reach[s][s]);
    set(initial_cycle, K_INITIAL_CYCLIC, K_INITIAL_ACYCLIC);
    set(arcs.iter().all(|(s, a)| a.nextstate > *s), K_TOP_SORTED, K_NOT_TOP_SORTED);
    let seen = |s: usize| start.is_some_and(|i| i == s || reach[i][s]);
    let ends = |s: usize| (0..n).any(|t| fst.is_final(t) && (s == t || reach[s][t]));
    set((0..n).all(seen), K_ACCESSIBLE, K_NOT_ACCESSIBLE);
    set((0..n).all(ends), K_CO_ACCESSIBLE, K_NOT_CO_ACCESSIBLE);
    let string = start.map_or(n == 0, |i| i == 0)
        && (0..n).all(|s| {
            if fst.is_final(s) {
                fst.num_arcs(s) == 0 && s + 1 == n
            } else {
                fst.num_arcs(s) == 1 && fst.arcs(s)[0].nextstate == s + 1
            }
        });
    set(string, K_STRING, K_NOT_STRING);
    let weighted_cycle =
        arcs.iter().any(|(s, a)| {
            !a.weight.same(&one) && !a.weight.same(&zero) && (a.nextstate == *s || reach[a.nextstate][*s])
        });
    set(weighted_cycle, K_WEIGHTED_CYCLES, K_UNWEIGHTED_CYCLES);
    props
}

/// What the visitor was told, in order.
#[derive(Debug, PartialEq, Eq, Clone)]
enum Event {
    InitVisit,
    InitState(i32, i32),
    Tree(i32, i32),
    Back(i32, i32),
    ForwardOrCross(i32, i32),
    /// State, parent, and the label of the tree arc that reached it.
    Finish(i32, Option<i32>, Option<i32>),
    FinishVisit,
}

/// Records every call, and can be told to refuse at a chosen point.
#[derive(Default)]
struct Recorder {
    events: Vec<Event>,
    /// Stop when this event is about to be recorded.
    stop_at: Option<Event>,
}

impl Recorder {
    fn stopping_at(event: Event) -> Self {
        Self {
            events: Vec::new(),
            stop_at: Some(event),
        }
    }

    fn record(&mut self, event: Event) -> bool {
        let go_on = self.stop_at.as_ref() != Some(&event);
        self.events.push(event);
        go_on
    }

    fn finished(&self) -> Vec<(i32, Option<i32>)> {
        self.events
            .iter()
            .filter_map(|e| match e {
                Event::Finish(s, parent, _) => Some((*s, *parent)),
                _ => None,
            })
            .collect()
    }
}

impl DfsVisitor<TropicalWeight> for Recorder {
    type Setup = ();

    fn setup(&self) {
        unreachable!()
    }

    fn ready(&self, _v: FstV<TropicalWeight>) -> bool {
        unreachable!()
    }

    fn inv(&self, _v: FstV<TropicalWeight>, _m: Search<TropicalWeight>) -> bool {
        unreachable!()
    }

    fn done(&self, _v: FstV<TropicalWeight>, _m: Search<TropicalWeight>) -> bool {
        unreachable!()
    }

    fn takes(&self, _what: Told<TropicalWeight>) -> bool {
        unreachable!()
    }

    fn becomes(&self, _what: Told<TropicalWeight>, _after: &Self) -> bool {
        unreachable!()
    }

    fn init_visit(&mut self, _fst: &VectorFst<TropicalWeight>) {
        self.events.push(Event::InitVisit);
    }

    fn init_state(&mut self, s: usize, root: usize) -> bool {
        self.record(Event::InitState(s as i32, root as i32))
    }

    fn tree_arc(&mut self, s: usize, arc: &Arc<TropicalWeight>) -> bool {
        self.record(Event::Tree(s as i32, arc.nextstate as i32))
    }

    fn back_arc(&mut self, s: usize, arc: &Arc<TropicalWeight>) -> bool {
        self.record(Event::Back(s as i32, arc.nextstate as i32))
    }

    fn forward_or_cross_arc(&mut self, s: usize, arc: &Arc<TropicalWeight>) -> bool {
        self.record(Event::ForwardOrCross(s as i32, arc.nextstate as i32))
    }

    fn finish_state(&mut self, s: usize, parent: Option<usize>, arc: Option<&Arc<TropicalWeight>>) {
        let parent = parent.map(|p| p as i32);
        self.events
            .push(Event::Finish(s as i32, parent, arc.map(|a| a.ilabel)));
    }

    fn finish_visit(&mut self) {
        self.events.push(Event::FinishVisit);
    }
}

/// Lets through the arcs that read nothing.
struct InputEpsilonArcFilter;

impl ArcFilter<TropicalWeight> for InputEpsilonArcFilter {
    fn accepts(&self, _arc: Arc<TropicalWeight>) -> bool {
        unreachable!()
    }

    fn call(&self, arc: &Arc<TropicalWeight>) -> bool {
        arc.ilabel == 0
    }
}

/// Builds an FST from an edge list; each arc's input label is its index, so
/// a reported tree arc can be told from its siblings.
fn build(states: usize, edges: &[(i32, i32)]) -> StdVectorFst {
    let mut fst = StdVectorFst::new();
    for _ in 0..states {
        fst.add_state();
    }
    if states > 0 {
        fst.set_start(0);
    }
    for (i, &(from, to)) in edges.iter().enumerate() {
        fst.add_arc(from, StdArc::new(i as i32, 1, TropicalWeight::one(), to));
    }
    fst
}

fn visit(fst: &StdVectorFst, mut visitor: Recorder) -> Recorder {
    dfs_visit_any(&fst.0, &mut visitor);
    visitor
}

/// 0 → 1 → 2, with 2 → 0 closing a cycle, 0 → 2 reaching a finished state,
/// and a second arc 1 → 2 that is a forward arc by the time it is seen.
fn diamond() -> StdVectorFst {
    build(3, &[(0, 1), (0, 2), (1, 2), (2, 0)])
}

#[test]
fn arcs_are_classified_by_the_colour_of_where_they_lead() {
    let events = visit(&diamond(), Recorder::default()).events;
    assert_eq!(
        events,
        vec![
            Event::InitVisit,
            Event::InitState(0, 0),
            // 0 -> 1 is the first arc out of 0, and 1 is undiscovered.
            Event::Tree(0, 1),
            Event::InitState(1, 0),
            Event::Tree(1, 2),
            Event::InitState(2, 0),
            // 2 -> 0, and 0 is still on the stack.
            Event::Back(2, 0),
            Event::Finish(2, Some(1), Some(2)),
            Event::Finish(1, Some(0), Some(0)),
            // 0 -> 2, reached after 2 was finished.
            Event::ForwardOrCross(0, 2),
            Event::Finish(0, None, None),
            Event::FinishVisit,
        ]
    );
}

/// Aborting is an unwind, not a jump: every state still on the stack is
/// finished, deepest first. A visitor that tallies results in `finish_state`
/// would otherwise be left with a partial tally and no way to know.
#[test]
fn aborting_still_finishes_every_state_on_the_stack() {
    // 0 → 1 → 2 → 3, and out of 2 also a back arc to 0 and a second,
    // forward arc to 3, so every kind of refusal has a place to happen.
    let fst = build(4, &[(0, 1), (1, 2), (2, 3), (2, 0), (2, 3)]);

    for (stop, expected) in [
        // Refused before 3 is ever entered.
        (Event::Tree(2, 3), vec![2, 1, 0]),
        // Entered, refused, and finished on the way back out.
        (Event::InitState(3, 0), vec![3, 2, 1, 0]),
        // Both of these come after 3 has finished on its own.
        (Event::Back(2, 0), vec![3, 2, 1, 0]),
        (Event::ForwardOrCross(2, 3), vec![3, 2, 1, 0]),
    ] {
        let recorder = visit(&fst, Recorder::stopping_at(stop.clone()));
        assert!(
            recorder.events.contains(&stop),
            "the search never reached {stop:?}"
        );

        let finished = recorder.finished();
        let states: Vec<i32> = finished.iter().map(|&(s, _)| s).collect();
        assert_eq!(states, expected, "stopping at {stop:?}");
        assert_eq!(
            finished.last().map(|&(_, parent)| parent),
            Some(None),
            "the root is finished with no parent, stopping at {stop:?}"
        );
        assert_eq!(
            recorder.events.last(),
            Some(&Event::FinishVisit),
            "stopping at {stop:?}"
        );
        // Nothing is examined after the refusal: the unwind only finishes.
        let after: Vec<&Event> = recorder
            .events
            .iter()
            .skip_while(|e| **e != stop)
            .skip(1)
            .filter(|e| !matches!(e, Event::Finish(..) | Event::FinishVisit))
            .collect();
        assert!(after.is_empty(), "kept searching after {stop:?}: {after:?}");
    }
}

#[test]
fn refusing_the_root_finishes_it_and_stops() {
    let recorder = visit(&diamond(), Recorder::stopping_at(Event::InitState(0, 0)));
    assert_eq!(
        recorder.events,
        vec![
            Event::InitVisit,
            Event::InitState(0, 0),
            Event::Finish(0, None, None),
            Event::FinishVisit,
        ]
    );
}

/// States unreachable from the start are roots of their own trees, and the
/// sweep for them begins at zero because the start was taken out of order.
#[test]
fn unreachable_states_become_further_roots() {
    // 2 → 3 is a component of its own; 0 → 1 is reachable.
    let mut fst = build(4, &[(0, 1), (2, 3)]);
    fst.set_start(1);
    let recorder = visit(&fst, Recorder::default());

    let roots: Vec<i32> = recorder
        .events
        .iter()
        .filter_map(|e| match e {
            Event::InitState(s, root) if s == root => Some(*s),
            _ => None,
        })
        .collect();
    assert_eq!(roots, vec![1, 0, 2]);
    assert_eq!(recorder.finished().len(), 4, "every state is visited");
}

#[test]
fn access_only_stops_after_the_first_tree() {
    let mut fst = build(4, &[(0, 1), (2, 3)]);
    fst.set_start(0);
    let mut recorder = Recorder::default();
    dfs_visit(&fst.0, &mut recorder, AnyArcFilter, true);

    let states: Vec<i32> = recorder.finished().iter().map(|&(s, _)| s).collect();
    assert_eq!(states, vec![1, 0], "2 and 3 are not reachable from 0");
}

/// A filtered arc is not classified at all: the visitor never hears about
/// it, and the state it leads to stays undiscovered.
#[test]
fn filtered_arcs_are_not_followed_or_reported() {
    let mut fst = StdVectorFst::new();
    for _ in 0..3 {
        fst.add_state();
    }
    fst.set_start(0);
    // Only the epsilon-input arc survives the filter.
    fst.add_arc(0, StdArc::new(0, 1, TropicalWeight::one(), 1));
    fst.add_arc(0, StdArc::new(7, 1, TropicalWeight::one(), 2));

    let mut recorder = Recorder::default();
    dfs_visit(&fst.0, &mut recorder, InputEpsilonArcFilter, true);

    assert!(
        !recorder
            .events
            .iter()
            .any(|e| matches!(e, Event::Tree(_, 2))),
        "the filtered arc was followed"
    );
    let states: Vec<i32> = recorder.finished().iter().map(|&(s, _)| s).collect();
    assert_eq!(states, vec![1, 0]);
}

#[test]
fn an_fst_with_no_start_state_is_visited_trivially() {
    let fst: StdVectorFst = StdVectorFst::new();
    let recorder = visit(&fst, Recorder::default());
    assert_eq!(recorder.events, vec![Event::InitVisit, Event::FinishVisit]);
}

/// Every state is reported finished exactly once, and always after every
/// state below it in its tree.
#[test]
fn each_state_is_finished_once_and_after_its_descendants() {
    let fst = build(
        8,
        &[
            (0, 1),
            (0, 2),
            (1, 3),
            (1, 4),
            (2, 5),
            (3, 6),
            (4, 6),
            (5, 7),
            (6, 0),
            (7, 2),
        ],
    );
    let recorder = visit(&fst, Recorder::default());
    let finished = recorder.finished();

    let mut seen: Vec<i32> = finished.iter().map(|&(s, _)| s).collect();
    seen.sort_unstable();
    assert_eq!(seen, (0..8).collect::<Vec<_>>());

    // A parent is finished after the child that reported it as parent.
    let order: Vec<i32> = finished.iter().map(|&(s, _)| s).collect();
    for &(state, parent) in &finished {
        if let Some(parent) = parent {
            let child_at = order.iter().position(|&s| s == state).unwrap();
            let parent_at = order.iter().position(|&s| s == parent).unwrap();
            assert!(child_at < parent_at, "{state} finished after {parent}");
        }
    }
}
