//! Filters deciding which arc pairs a composition may take.
//!
//! Composing two machines that both have epsilon arcs would otherwise produce one
//! path per interleaving of the two sides' epsilons; a filter picks exactly one,
//! which keeps the result from blowing up and from counting the same path many
//! times over.
use crate::arc::{Arc, EPSILON, NO_LABEL};
use crate::filter_state::{
    CharFilterState, FilterState, IntegerFilterState, TrivialFilterState, STATE_DEFAULT,
    STATE_EPS1, STATE_EPS2,
};
use crate::hash_table::Key;
use crate::matcher::{label_on, side_label, Matcher};
use crate::properties::{K_I_LABEL_INVARIANT_PROPERTIES, K_O_LABEL_INVARIANT_PROPERTIES};
use crate::vector_fst::{FstV, VectorFst};
use crate::weight::Weight;
use vstd::prelude::*;

verus! {

/// Decides which matches are allowed to proceed.
///
/// What a filter says depends on its rule, which nothing changes, and on the place
/// it has been put: a state of each machine and a filter state.
pub trait ComposeFilter<W: Weight>: Sized {
    /// What is remembered from arc to arc.
    type State: FilterState;

    /// Finds the arcs of the first machine.
    type Matcher1: Matcher<W>;

    /// Finds the arcs of the second machine.
    type Matcher2: Matcher<W>;

    /// What the answers depend on.
    type Rule;

    /// Whether the filter is in order.
    spec fn wf(&self) -> bool;

    /// What the answers depend on.
    spec fn rule(&self) -> Self::Rule;

    /// The place it has been put.
    spec fn place(&self) -> Option<(usize, usize, Self::State)>;

    /// What finds the arcs of the first machine.
    spec fn first(rule: Self::Rule) -> Self::Matcher1;

    /// What finds the arcs of the second machine.
    spec fn second(rule: Self::Rule) -> Self::Matcher2;

    /// Where a composition begins.
    spec fn spec_start(rule: Self::Rule) -> Self::State;

    /// What becomes of a pair of arcs: the filter state that it leads to, if it is
    /// allowed at all, and the arcs as the filter leaves them.
    spec fn filtered(
        rule: Self::Rule,
        s1: usize,
        s2: usize,
        fs: Self::State,
        arc1: Arc<W>,
        arc2: Arc<W>,
    ) -> (Option<Self::State>, Arc<W>, Arc<W>);

    /// The final weights as the filter leaves them.
    spec fn finals(
        rule: Self::Rule,
        s1: usize,
        s2: usize,
        fs: Self::State,
        w1: W,
        w2: W,
    ) -> (W, W);

    /// What matches `label` at state `s` of the first machine.
    spec fn matches1(rule: Self::Rule, fs: Self::State, s: usize, label: i32) -> Seq<Arc<W>>;

    /// What matches `label` at state `s` of the second machine.
    spec fn matches2(rule: Self::Rule, fs: Self::State, s: usize, label: i32) -> Seq<Arc<W>>;

    /// What is left of the properties.
    spec fn spec_properties(rule: Self::Rule, props: u64) -> u64;

    /// Where a composition begins.
    fn start(&self) -> (fs: Self::State)
        requires
            self.wf(),
        ensures
            fs == Self::spec_start(self.rule()),
    ;

    /// Puts the filter in a place.
    fn set_state(&mut self, s1: usize, s2: usize, fs: &Self::State)
        requires
            old(self).wf(),
            s1 < Self::first(old(self).rule()).spec_states(),
            s2 < Self::second(old(self).rule()).spec_states(),
        ensures
            final(self).wf(),
            final(self).rule() == old(self).rule(),
            final(self).place() == Some((s1, s2, *fs)),
    ;

    /// Whether a pair of arcs is allowed, and what it leads to.
    fn filter_arc(&mut self, arc1: &mut Arc<W>, arc2: &mut Arc<W>) -> (next: Option<Self::State>)
        requires
            old(self).wf(),
            old(self).place() is Some,
            old(arc1).nextstate < Self::first(old(self).rule()).spec_states(),
            old(arc2).nextstate < Self::second(old(self).rule()).spec_states(),
        ensures
            final(self).wf(),
            final(self).rule() == old(self).rule(),
            final(self).place() == old(self).place(),
            ({
                let place = old(self).place()->0;
                (next, *final(arc1), *final(arc2)) == Self::filtered(
                    old(self).rule(),
                    place.0,
                    place.1,
                    place.2,
                    *old(arc1),
                    *old(arc2),
                )
            }),
            final(arc1).nextstate < Self::first(old(self).rule()).spec_states(),
            final(arc2).nextstate < Self::second(old(self).rule()).spec_states(),
    ;

    /// Has its say about whether finishing here is allowed.
    fn filter_final(&self, w1: &mut W, w2: &mut W)
        requires
            self.wf(),
            self.place() is Some,
        ensures
            ({
                let place = self.place()->0;
                (*final(w1), *final(w2)) == Self::finals(
                    self.rule(),
                    place.0,
                    place.1,
                    place.2,
                    *old(w1),
                    *old(w2),
                )
            }),
    ;

    /// What finds the arcs of the first machine.
    fn matcher1(&self) -> (m: &Self::Matcher1)
        requires
            self.wf(),
        ensures
            *m == Self::first(self.rule()),
            m.wf(),
    ;

    /// What finds the arcs of the second machine.
    fn matcher2(&self) -> (m: &Self::Matcher2)
        requires
            self.wf(),
        ensures
            *m == Self::second(self.rule()),
            m.wf(),
    ;

    /// What matches `label` at state `s` of the first machine.
    fn find1(&self, s: usize, label: i32) -> (arcs: Vec<Arc<W>>)
        requires
            self.wf(),
            self.place() is Some,
            Self::first(self.rule()).spec_match_type() !is Neither,
            s < Self::first(self.rule()).spec_states(),
        ensures
            arcs@ == Self::matches1(self.rule(), (self.place()->0).2, s, label),
            forall|i: int|
                0 <= i < arcs@.len() ==> (#[trigger] arcs@[i]).nextstate < Self::first(
                    self.rule(),
                ).spec_states(),
    ;

    /// What matches `label` at state `s` of the second machine.
    fn find2(&self, s: usize, label: i32) -> (arcs: Vec<Arc<W>>)
        requires
            self.wf(),
            self.place() is Some,
            Self::second(self.rule()).spec_match_type() !is Neither,
            s < Self::second(self.rule()).spec_states(),
        ensures
            arcs@ == Self::matches2(self.rule(), (self.place()->0).2, s, label),
            forall|i: int|
                0 <= i < arcs@.len() ==> (#[trigger] arcs@[i]).nextstate < Self::second(
                    self.rule(),
                ).spec_states(),
    ;

    /// What is left of the properties.
    fn properties(&self, props: u64) -> (out: u64)
        requires
            self.wf(),
        ensures
            out == Self::spec_properties(self.rule(), props),
    ;
}

/// Whether every arc carries epsilon on the side asked for and no path ends.
pub open spec fn only_epsilons<W: Weight>(v: FstV<W>, s: usize, output: bool) -> bool {
    &&& v.fin(s as int) == W::spec_zero()
    &&& forall|i: int|
        0 <= i < v.arcs(s as int).len() ==> side_label(#[trigger] v.arcs(s as int)[i], output)
            == EPSILON
}

/// Whether no arc carries epsilon on the side asked for.
pub open spec fn no_epsilons<W: Weight>(v: FstV<W>, s: usize, output: bool) -> bool {
    forall|i: int|
        0 <= i < v.arcs(s as int).len() ==> side_label(#[trigger] v.arcs(s as int)[i], output)
            != EPSILON
}

/// Whether a state has only epsilons on the side asked for, and whether it has none.
fn epsilons_at<W: Weight>(fst: &VectorFst<W>, s: usize, output: bool) -> (answer: (bool, bool))
    requires
        s < fst@.n(),
    ensures
        answer == (only_epsilons(fst@, s, output), no_epsilons(fst@, s, output)),
{
    let arcs = fst.arcs(s);
    let mut all = true;
    let mut none = true;
    let mut i: usize = 0;
    while i < arcs.len()
        invariant
            i <= arcs@.len(),
            arcs@ == fst@.arcs(s as int),
            all == (forall|j: int|
                0 <= j < i ==> side_label(#[trigger] arcs@[j], output) == EPSILON),
            none == (forall|j: int|
                0 <= j < i ==> side_label(#[trigger] arcs@[j], output) != EPSILON),
        decreases arcs@.len() - i,
    {
        if label_on(&arcs[i], output) == EPSILON {
            assert(side_label(arcs@[i as int], output) == EPSILON);
            none = false;
        } else {
            assert(side_label(arcs@[i as int], output) != EPSILON);
            all = false;
        }
        i = i + 1;
    }
    let zero = W::zero();
    (all && fst.final_weight(s).same(&zero), none)
}

/// A filter state that is a small integer.
pub open spec fn char_state(state: i8) -> CharFilterState {
    IntegerFilterState { state }
}

/// A filter state with nothing to it.
pub open spec fn trivial_state() -> TrivialFilterState {
    TrivialFilterState { state: true }
}

/// Allows every pair in which both sides take an arc.
pub struct NullComposeFilter<M1, M2> {
    /// Finds the arcs of the first machine.
    matcher1: M1,
    /// Finds the arcs of the second machine.
    matcher2: M2,
    place: Option<(usize, usize, TrivialFilterState)>,
}

impl<M1, M2> NullComposeFilter<M1, M2> {
    /// What finds the arcs of the first machine.
    pub closed spec fn over1(&self) -> M1 {
        self.matcher1
    }

    /// What finds the arcs of the second machine.
    pub closed spec fn over2(&self) -> M2 {
        self.matcher2
    }

    /// A filter over what the matchers find.
    pub fn new(matcher1: M1, matcher2: M2) -> (filter: Self)
        ensures
            filter.over1() == matcher1,
            filter.over2() == matcher2,
    {
        NullComposeFilter { matcher1, matcher2, place: None }
    }
}

impl<W: Weight, M1: Matcher<W>, M2: Matcher<W>> ComposeFilter<W> for NullComposeFilter<M1, M2> {
    type State = TrivialFilterState;

    type Matcher1 = M1;

    type Matcher2 = M2;

    type Rule = (M1, M2);

    open spec fn wf(&self) -> bool {
        self.over1().wf() && self.over2().wf()
    }

    open spec fn rule(&self) -> (M1, M2) {
        (self.over1(), self.over2())
    }

    closed spec fn place(&self) -> Option<(usize, usize, TrivialFilterState)> {
        self.place
    }

    open spec fn first(rule: (M1, M2)) -> M1 {
        rule.0
    }

    open spec fn second(rule: (M1, M2)) -> M2 {
        rule.1
    }

    open spec fn spec_start(rule: (M1, M2)) -> TrivialFilterState {
        trivial_state()
    }

    open spec fn filtered(
        rule: (M1, M2),
        s1: usize,
        s2: usize,
        fs: TrivialFilterState,
        arc1: Arc<W>,
        arc2: Arc<W>,
    ) -> (Option<TrivialFilterState>, Arc<W>, Arc<W>) {
        (
            if arc1.olabel == NO_LABEL || arc2.ilabel == NO_LABEL {
                None
            } else {
                Some(trivial_state())
            },
            arc1,
            arc2,
        )
    }

    open spec fn finals(rule: (M1, M2), s1: usize, s2: usize, fs: TrivialFilterState, w1: W, w2: W) -> (
        W,
        W,
    ) {
        (w1, w2)
    }

    open spec fn matches1(rule: (M1, M2), fs: TrivialFilterState, s: usize, label: i32) -> Seq<Arc<W>> {
        rule.0.spec_matches(s, label)
    }

    open spec fn matches2(rule: (M1, M2), fs: TrivialFilterState, s: usize, label: i32) -> Seq<Arc<W>> {
        rule.1.spec_matches(s, label)
    }

    open spec fn spec_properties(rule: (M1, M2), props: u64) -> u64 {
        props
    }

    fn start(&self) -> (fs: TrivialFilterState) {
        TrivialFilterState::new(true)
    }

    fn set_state(&mut self, s1: usize, s2: usize, fs: &TrivialFilterState) {
        self.place = Some((s1, s2, fs.key_copy()));
    }

    fn filter_arc(&mut self, arc1: &mut Arc<W>, arc2: &mut Arc<W>) -> (next: Option<
        TrivialFilterState,
    >) {
        if arc1.olabel == NO_LABEL || arc2.ilabel == NO_LABEL {
            None
        } else {
            Some(TrivialFilterState::new(true))
        }
    }

    fn filter_final(&self, w1: &mut W, w2: &mut W) {
    }

    fn matcher1(&self) -> (m: &M1) {
        &self.matcher1
    }

    fn matcher2(&self) -> (m: &M2) {
        &self.matcher2
    }

    fn find1(&self, s: usize, label: i32) -> (arcs: Vec<Arc<W>>) {
        self.matcher1.matches(s, label)
    }

    fn find2(&self, s: usize, label: i32) -> (arcs: Vec<Arc<W>>) {
        self.matcher2.matches(s, label)
    }

    fn properties(&self, props: u64) -> (out: u64) {
        props
    }
}

/// Allows every pair.
pub struct TrivialComposeFilter<M1, M2> {
    /// Finds the arcs of the first machine.
    matcher1: M1,
    /// Finds the arcs of the second machine.
    matcher2: M2,
    place: Option<(usize, usize, TrivialFilterState)>,
}

impl<M1, M2> TrivialComposeFilter<M1, M2> {
    /// What finds the arcs of the first machine.
    pub closed spec fn over1(&self) -> M1 {
        self.matcher1
    }

    /// What finds the arcs of the second machine.
    pub closed spec fn over2(&self) -> M2 {
        self.matcher2
    }

    /// A filter over what the matchers find.
    pub fn new(matcher1: M1, matcher2: M2) -> (filter: Self)
        ensures
            filter.over1() == matcher1,
            filter.over2() == matcher2,
    {
        TrivialComposeFilter { matcher1, matcher2, place: None }
    }
}

impl<W: Weight, M1: Matcher<W>, M2: Matcher<W>> ComposeFilter<W> for TrivialComposeFilter<M1, M2> {
    type State = TrivialFilterState;

    type Matcher1 = M1;

    type Matcher2 = M2;

    type Rule = (M1, M2);

    open spec fn wf(&self) -> bool {
        self.over1().wf() && self.over2().wf()
    }

    open spec fn rule(&self) -> (M1, M2) {
        (self.over1(), self.over2())
    }

    closed spec fn place(&self) -> Option<(usize, usize, TrivialFilterState)> {
        self.place
    }

    open spec fn first(rule: (M1, M2)) -> M1 {
        rule.0
    }

    open spec fn second(rule: (M1, M2)) -> M2 {
        rule.1
    }

    open spec fn spec_start(rule: (M1, M2)) -> TrivialFilterState {
        trivial_state()
    }

    open spec fn filtered(
        rule: (M1, M2),
        s1: usize,
        s2: usize,
        fs: TrivialFilterState,
        arc1: Arc<W>,
        arc2: Arc<W>,
    ) -> (Option<TrivialFilterState>, Arc<W>, Arc<W>) {
        (Some(trivial_state()), arc1, arc2)
    }

    open spec fn finals(rule: (M1, M2), s1: usize, s2: usize, fs: TrivialFilterState, w1: W, w2: W) -> (
        W,
        W,
    ) {
        (w1, w2)
    }

    open spec fn matches1(rule: (M1, M2), fs: TrivialFilterState, s: usize, label: i32) -> Seq<Arc<W>> {
        rule.0.spec_matches(s, label)
    }

    open spec fn matches2(rule: (M1, M2), fs: TrivialFilterState, s: usize, label: i32) -> Seq<Arc<W>> {
        rule.1.spec_matches(s, label)
    }

    open spec fn spec_properties(rule: (M1, M2), props: u64) -> u64 {
        props
    }

    fn start(&self) -> (fs: TrivialFilterState) {
        TrivialFilterState::new(true)
    }

    fn set_state(&mut self, s1: usize, s2: usize, fs: &TrivialFilterState) {
        self.place = Some((s1, s2, fs.key_copy()));
    }

    fn filter_arc(&mut self, arc1: &mut Arc<W>, arc2: &mut Arc<W>) -> (next: Option<
        TrivialFilterState,
    >) {
        Some(TrivialFilterState::new(true))
    }

    fn filter_final(&self, w1: &mut W, w2: &mut W) {
    }

    fn matcher1(&self) -> (m: &M1) {
        &self.matcher1
    }

    fn matcher2(&self) -> (m: &M2) {
        &self.matcher2
    }

    fn find1(&self, s: usize, label: i32) -> (arcs: Vec<Arc<W>>) {
        self.matcher1.matches(s, label)
    }

    fn find2(&self, s: usize, label: i32) -> (arcs: Vec<Arc<W>>) {
        self.matcher2.matches(s, label)
    }

    fn properties(&self, props: u64) -> (out: u64) {
        props
    }
}

/// Allows every pair but one in which both sides take an epsilon arc.
pub struct NoMatchComposeFilter<M1, M2> {
    /// Finds the arcs of the first machine.
    matcher1: M1,
    /// Finds the arcs of the second machine.
    matcher2: M2,
    place: Option<(usize, usize, TrivialFilterState)>,
}

impl<M1, M2> NoMatchComposeFilter<M1, M2> {
    /// What finds the arcs of the first machine.
    pub closed spec fn over1(&self) -> M1 {
        self.matcher1
    }

    /// What finds the arcs of the second machine.
    pub closed spec fn over2(&self) -> M2 {
        self.matcher2
    }

    /// A filter over what the matchers find.
    pub fn new(matcher1: M1, matcher2: M2) -> (filter: Self)
        ensures
            filter.over1() == matcher1,
            filter.over2() == matcher2,
    {
        NoMatchComposeFilter { matcher1, matcher2, place: None }
    }
}

impl<W: Weight, M1: Matcher<W>, M2: Matcher<W>> ComposeFilter<W> for NoMatchComposeFilter<M1, M2> {
    type State = TrivialFilterState;

    type Matcher1 = M1;

    type Matcher2 = M2;

    type Rule = (M1, M2);

    open spec fn wf(&self) -> bool {
        self.over1().wf() && self.over2().wf()
    }

    open spec fn rule(&self) -> (M1, M2) {
        (self.over1(), self.over2())
    }

    closed spec fn place(&self) -> Option<(usize, usize, TrivialFilterState)> {
        self.place
    }

    open spec fn first(rule: (M1, M2)) -> M1 {
        rule.0
    }

    open spec fn second(rule: (M1, M2)) -> M2 {
        rule.1
    }

    open spec fn spec_start(rule: (M1, M2)) -> TrivialFilterState {
        trivial_state()
    }

    open spec fn filtered(
        rule: (M1, M2),
        s1: usize,
        s2: usize,
        fs: TrivialFilterState,
        arc1: Arc<W>,
        arc2: Arc<W>,
    ) -> (Option<TrivialFilterState>, Arc<W>, Arc<W>) {
        (
            if arc1.olabel != EPSILON || arc2.ilabel != EPSILON {
                Some(trivial_state())
            } else {
                None
            },
            arc1,
            arc2,
        )
    }

    open spec fn finals(rule: (M1, M2), s1: usize, s2: usize, fs: TrivialFilterState, w1: W, w2: W) -> (
        W,
        W,
    ) {
        (w1, w2)
    }

    open spec fn matches1(rule: (M1, M2), fs: TrivialFilterState, s: usize, label: i32) -> Seq<Arc<W>> {
        rule.0.spec_matches(s, label)
    }

    open spec fn matches2(rule: (M1, M2), fs: TrivialFilterState, s: usize, label: i32) -> Seq<Arc<W>> {
        rule.1.spec_matches(s, label)
    }

    open spec fn spec_properties(rule: (M1, M2), props: u64) -> u64 {
        props
    }

    fn start(&self) -> (fs: TrivialFilterState) {
        TrivialFilterState::new(true)
    }

    fn set_state(&mut self, s1: usize, s2: usize, fs: &TrivialFilterState) {
        self.place = Some((s1, s2, fs.key_copy()));
    }

    fn filter_arc(&mut self, arc1: &mut Arc<W>, arc2: &mut Arc<W>) -> (next: Option<
        TrivialFilterState,
    >) {
        if arc1.olabel != EPSILON || arc2.ilabel != EPSILON {
            Some(TrivialFilterState::new(true))
        } else {
            None
        }
    }

    fn filter_final(&self, w1: &mut W, w2: &mut W) {
    }

    fn matcher1(&self) -> (m: &M1) {
        &self.matcher1
    }

    fn matcher2(&self) -> (m: &M2) {
        &self.matcher2
    }

    fn find1(&self, s: usize, label: i32) -> (arcs: Vec<Arc<W>>) {
        self.matcher1.matches(s, label)
    }

    fn find2(&self, s: usize, label: i32) -> (arcs: Vec<Arc<W>>) {
        self.matcher2.matches(s, label)
    }

    fn properties(&self, props: u64) -> (out: u64) {
        props
    }
}

/// Takes the epsilons of the first machine before those of the second.
pub struct SequenceComposeFilter<'a, W, M1, M2> {
    /// Finds the arcs of the first machine.
    matcher1: M1,
    /// Finds the arcs of the second machine.
    matcher2: M2,
    fst1: &'a VectorFst<W>,
    place: Option<(usize, usize, CharFilterState)>,
    alleps1: bool,
    noeps1: bool,
}

impl<'a, W: Weight, M1: Matcher<W>, M2: Matcher<W>> SequenceComposeFilter<'a, W, M1, M2> {
    /// The first machine.
    pub closed spec fn machine1(&self) -> FstV<W> {
        self.fst1@
    }

    /// What finds the arcs of the first machine.
    pub closed spec fn over1(&self) -> M1 {
        self.matcher1
    }

    /// What finds the arcs of the second machine.
    pub closed spec fn over2(&self) -> M2 {
        self.matcher2
    }

    /// A filter over what the matchers find.
    pub fn new(fst1: &'a VectorFst<W>, matcher1: M1, matcher2: M2) -> (filter: Self)
        ensures
            filter.over1() == matcher1,
            filter.over2() == matcher2,
            filter.machine1() == fst1@,
            filter.wf() <==> matcher1.wf() && matcher2.wf() && fst1@.n() == matcher1.spec_states(),
    {
        SequenceComposeFilter {
            matcher1,
            matcher2,
            fst1,
            place: None,
            alleps1: false,
            noeps1: false,
        }
    }
}

impl<'a, W: Weight, M1: Matcher<W>, M2: Matcher<W>> ComposeFilter<W> for SequenceComposeFilter<
    'a,
    W,
    M1,
    M2,
> {
    type State = CharFilterState;

    type Matcher1 = M1;

    type Matcher2 = M2;

    type Rule = (FstV<W>, M1, M2);

    closed spec fn wf(&self) -> bool {
        &&& self.matcher1.wf()
        &&& self.matcher2.wf()
        &&& self.fst1@.n() == self.matcher1.spec_states()
        &&& self.place matches Some(place) ==> {
            &&& place.0 < self.fst1@.n()
            &&& self.alleps1 == only_epsilons(self.fst1@, place.0, true)
            &&& self.noeps1 == no_epsilons(self.fst1@, place.0, true)
        }
    }

    open spec fn rule(&self) -> (FstV<W>, M1, M2) {
        (self.machine1(), self.over1(), self.over2())
    }

    closed spec fn place(&self) -> Option<(usize, usize, CharFilterState)> {
        self.place
    }

    open spec fn first(rule: (FstV<W>, M1, M2)) -> M1 {
        rule.1
    }

    open spec fn second(rule: (FstV<W>, M1, M2)) -> M2 {
        rule.2
    }

    open spec fn spec_start(rule: (FstV<W>, M1, M2)) -> CharFilterState {
        char_state(STATE_DEFAULT)
    }

    open spec fn filtered(
        rule: (FstV<W>, M1, M2),
        s1: usize,
        s2: usize,
        fs: CharFilterState,
        arc1: Arc<W>,
        arc2: Arc<W>,
    ) -> (Option<CharFilterState>, Arc<W>, Arc<W>) {
        let alleps1 = only_epsilons(rule.0, s1, true);
        let noeps1 = no_epsilons(rule.0, s1, true);
        let next = if arc1.olabel == NO_LABEL {
            if alleps1 {
                None
            } else if noeps1 {
                Some(char_state(STATE_DEFAULT))
            } else {
                Some(char_state(STATE_EPS1))
            }
        } else if arc2.ilabel == NO_LABEL {
            if fs.state != STATE_DEFAULT {
                None
            } else {
                Some(char_state(STATE_DEFAULT))
            }
        } else if arc1.olabel == EPSILON {
            None
        } else {
            Some(char_state(STATE_DEFAULT))
        };
        (next, arc1, arc2)
    }

    open spec fn finals(rule: (FstV<W>, M1, M2), s1: usize, s2: usize, fs: CharFilterState, w1: W, w2: W) -> (
        W,
        W,
    ) {
        (w1, w2)
    }

    open spec fn matches1(rule: (FstV<W>, M1, M2), fs: CharFilterState, s: usize, label: i32) -> Seq<Arc<W>> {
        rule.1.spec_matches(s, label)
    }

    open spec fn matches2(rule: (FstV<W>, M1, M2), fs: CharFilterState, s: usize, label: i32) -> Seq<Arc<W>> {
        rule.2.spec_matches(s, label)
    }

    open spec fn spec_properties(rule: (FstV<W>, M1, M2), props: u64) -> u64 {
        props
    }

    fn start(&self) -> (fs: CharFilterState) {
        CharFilterState::new(STATE_DEFAULT)
    }

    fn set_state(&mut self, s1: usize, s2: usize, fs: &CharFilterState) {
        if let Some(place) = &self.place {
            if place.0 == s1 && place.1 == s2 && place.2.key_same(fs) {
                return;
            }
        }
        self.place = Some((s1, s2, fs.key_copy()));
        let (alleps1, noeps1) = epsilons_at(self.fst1, s1, true);
        self.alleps1 = alleps1;
        self.noeps1 = noeps1;
    }

    fn filter_arc(&mut self, arc1: &mut Arc<W>, arc2: &mut Arc<W>) -> (next: Option<
        CharFilterState,
    >) {
        let state: i8 = match &self.place {
            Some(place) => place.2.state,
            None => STATE_DEFAULT,
        };
        if arc1.olabel == NO_LABEL {
            if self.alleps1 {
                None
            } else if self.noeps1 {
                Some(CharFilterState::new(STATE_DEFAULT))
            } else {
                Some(CharFilterState::new(STATE_EPS1))
            }
        } else if arc2.ilabel == NO_LABEL {
            if state != STATE_DEFAULT {
                None
            } else {
                Some(CharFilterState::new(STATE_DEFAULT))
            }
        } else if arc1.olabel == EPSILON {
            None
        } else {
            Some(CharFilterState::new(STATE_DEFAULT))
        }
    }

    fn filter_final(&self, w1: &mut W, w2: &mut W) {
    }

    fn matcher1(&self) -> (m: &M1) {
        &self.matcher1
    }

    fn matcher2(&self) -> (m: &M2) {
        &self.matcher2
    }

    fn find1(&self, s: usize, label: i32) -> (arcs: Vec<Arc<W>>) {
        self.matcher1.matches(s, label)
    }

    fn find2(&self, s: usize, label: i32) -> (arcs: Vec<Arc<W>>) {
        self.matcher2.matches(s, label)
    }

    fn properties(&self, props: u64) -> (out: u64) {
        props
    }
}

/// Takes the epsilons of the second machine before those of the first.
pub struct AltSequenceComposeFilter<'a, W, M1, M2> {
    /// Finds the arcs of the first machine.
    matcher1: M1,
    /// Finds the arcs of the second machine.
    matcher2: M2,
    fst2: &'a VectorFst<W>,
    place: Option<(usize, usize, CharFilterState)>,
    alleps2: bool,
    noeps2: bool,
}

impl<'a, W: Weight, M1: Matcher<W>, M2: Matcher<W>> AltSequenceComposeFilter<'a, W, M1, M2> {
    /// The second machine.
    pub closed spec fn machine2(&self) -> FstV<W> {
        self.fst2@
    }

    /// What finds the arcs of the first machine.
    pub closed spec fn over1(&self) -> M1 {
        self.matcher1
    }

    /// What finds the arcs of the second machine.
    pub closed spec fn over2(&self) -> M2 {
        self.matcher2
    }

    /// A filter over what the matchers find.
    pub fn new(fst2: &'a VectorFst<W>, matcher1: M1, matcher2: M2) -> (filter: Self)
        ensures
            filter.over1() == matcher1,
            filter.over2() == matcher2,
            filter.machine2() == fst2@,
            filter.wf() <==> matcher1.wf() && matcher2.wf() && fst2@.n() == matcher2.spec_states(),
    {
        AltSequenceComposeFilter {
            matcher1,
            matcher2,
            fst2,
            place: None,
            alleps2: false,
            noeps2: false,
        }
    }
}

impl<'a, W: Weight, M1: Matcher<W>, M2: Matcher<W>> ComposeFilter<W> for AltSequenceComposeFilter<
    'a,
    W,
    M1,
    M2,
> {
    type State = CharFilterState;

    type Matcher1 = M1;

    type Matcher2 = M2;

    type Rule = (FstV<W>, M1, M2);

    closed spec fn wf(&self) -> bool {
        &&& self.matcher1.wf()
        &&& self.matcher2.wf()
        &&& self.fst2@.n() == self.matcher2.spec_states()
        &&& self.place matches Some(place) ==> {
            &&& place.1 < self.fst2@.n()
            &&& self.alleps2 == only_epsilons(self.fst2@, place.1, false)
            &&& self.noeps2 == no_epsilons(self.fst2@, place.1, false)
        }
    }

    open spec fn rule(&self) -> (FstV<W>, M1, M2) {
        (self.machine2(), self.over1(), self.over2())
    }

    closed spec fn place(&self) -> Option<(usize, usize, CharFilterState)> {
        self.place
    }

    open spec fn first(rule: (FstV<W>, M1, M2)) -> M1 {
        rule.1
    }

    open spec fn second(rule: (FstV<W>, M1, M2)) -> M2 {
        rule.2
    }

    open spec fn spec_start(rule: (FstV<W>, M1, M2)) -> CharFilterState {
        char_state(STATE_DEFAULT)
    }

    open spec fn filtered(
        rule: (FstV<W>, M1, M2),
        s1: usize,
        s2: usize,
        fs: CharFilterState,
        arc1: Arc<W>,
        arc2: Arc<W>,
    ) -> (Option<CharFilterState>, Arc<W>, Arc<W>) {
        let alleps2 = only_epsilons(rule.0, s2, false);
        let noeps2 = no_epsilons(rule.0, s2, false);
        let next = if arc2.ilabel == NO_LABEL {
            if alleps2 {
                None
            } else if noeps2 {
                Some(char_state(STATE_DEFAULT))
            } else {
                Some(char_state(STATE_EPS1))
            }
        } else if arc1.olabel == NO_LABEL {
            if fs.state == STATE_EPS1 {
                None
            } else {
                Some(char_state(STATE_DEFAULT))
            }
        } else if arc1.olabel == EPSILON {
            None
        } else {
            Some(char_state(STATE_DEFAULT))
        };
        (next, arc1, arc2)
    }

    open spec fn finals(rule: (FstV<W>, M1, M2), s1: usize, s2: usize, fs: CharFilterState, w1: W, w2: W) -> (
        W,
        W,
    ) {
        (w1, w2)
    }

    open spec fn matches1(rule: (FstV<W>, M1, M2), fs: CharFilterState, s: usize, label: i32) -> Seq<Arc<W>> {
        rule.1.spec_matches(s, label)
    }

    open spec fn matches2(rule: (FstV<W>, M1, M2), fs: CharFilterState, s: usize, label: i32) -> Seq<Arc<W>> {
        rule.2.spec_matches(s, label)
    }

    open spec fn spec_properties(rule: (FstV<W>, M1, M2), props: u64) -> u64 {
        props
    }

    fn start(&self) -> (fs: CharFilterState) {
        CharFilterState::new(STATE_DEFAULT)
    }

    fn set_state(&mut self, s1: usize, s2: usize, fs: &CharFilterState) {
        if let Some(place) = &self.place {
            if place.0 == s1 && place.1 == s2 && place.2.key_same(fs) {
                return;
            }
        }
        self.place = Some((s1, s2, fs.key_copy()));
        let (alleps2, noeps2) = epsilons_at(self.fst2, s2, false);
        self.alleps2 = alleps2;
        self.noeps2 = noeps2;
    }

    fn filter_arc(&mut self, arc1: &mut Arc<W>, arc2: &mut Arc<W>) -> (next: Option<
        CharFilterState,
    >) {
        let state: i8 = match &self.place {
            Some(place) => place.2.state,
            None => STATE_DEFAULT,
        };
        if arc2.ilabel == NO_LABEL {
            if self.alleps2 {
                None
            } else if self.noeps2 {
                Some(CharFilterState::new(STATE_DEFAULT))
            } else {
                Some(CharFilterState::new(STATE_EPS1))
            }
        } else if arc1.olabel == NO_LABEL {
            if state == STATE_EPS1 {
                None
            } else {
                Some(CharFilterState::new(STATE_DEFAULT))
            }
        } else if arc1.olabel == EPSILON {
            None
        } else {
            Some(CharFilterState::new(STATE_DEFAULT))
        }
    }

    fn filter_final(&self, w1: &mut W, w2: &mut W) {
    }

    fn matcher1(&self) -> (m: &M1) {
        &self.matcher1
    }

    fn matcher2(&self) -> (m: &M2) {
        &self.matcher2
    }

    fn find1(&self, s: usize, label: i32) -> (arcs: Vec<Arc<W>>) {
        self.matcher1.matches(s, label)
    }

    fn find2(&self, s: usize, label: i32) -> (arcs: Vec<Arc<W>>) {
        self.matcher2.matches(s, label)
    }

    fn properties(&self, props: u64) -> (out: u64) {
        props
    }
}

/// Takes the epsilons of the two machines together as far as they go, then the rest
/// of either.
pub struct MatchComposeFilter<'a, W, M1, M2> {
    /// Finds the arcs of the first machine.
    matcher1: M1,
    /// Finds the arcs of the second machine.
    matcher2: M2,
    fst1: &'a VectorFst<W>,
    fst2: &'a VectorFst<W>,
    place: Option<(usize, usize, CharFilterState)>,
    alleps1: bool,
    noeps1: bool,
    alleps2: bool,
    noeps2: bool,
}

impl<'a, W: Weight, M1: Matcher<W>, M2: Matcher<W>> MatchComposeFilter<'a, W, M1, M2> {
    /// The first machine.
    pub closed spec fn machine1(&self) -> FstV<W> {
        self.fst1@
    }

    /// The second machine.
    pub closed spec fn machine2(&self) -> FstV<W> {
        self.fst2@
    }

    /// What finds the arcs of the first machine.
    pub closed spec fn over1(&self) -> M1 {
        self.matcher1
    }

    /// What finds the arcs of the second machine.
    pub closed spec fn over2(&self) -> M2 {
        self.matcher2
    }

    /// A filter over what the matchers find.
    pub fn new(fst1: &'a VectorFst<W>, fst2: &'a VectorFst<W>, matcher1: M1, matcher2: M2) -> (filter: Self)
        ensures
            filter.over1() == matcher1,
            filter.over2() == matcher2,
            filter.machine1() == fst1@,
            filter.machine2() == fst2@,
            filter.wf() <==> matcher1.wf() && matcher2.wf() && fst1@.n() == matcher1.spec_states() && fst2@.n() == matcher2.spec_states(),
    {
        MatchComposeFilter {
            matcher1,
            matcher2,
            fst1, fst2,
            place: None,
            alleps1: false,
            noeps1: false,
            alleps2: false,
            noeps2: false,
        }
    }
}

impl<'a, W: Weight, M1: Matcher<W>, M2: Matcher<W>> ComposeFilter<W> for MatchComposeFilter<
    'a,
    W,
    M1,
    M2,
> {
    type State = CharFilterState;

    type Matcher1 = M1;

    type Matcher2 = M2;

    type Rule = (FstV<W>, FstV<W>, M1, M2);

    closed spec fn wf(&self) -> bool {
        &&& self.matcher1.wf()
        &&& self.matcher2.wf()
        &&& self.fst1@.n() == self.matcher1.spec_states()
        &&& self.fst2@.n() == self.matcher2.spec_states()
        &&& self.place matches Some(place) ==> {
            &&& place.0 < self.fst1@.n()
            &&& self.alleps1 == only_epsilons(self.fst1@, place.0, true)
            &&& self.noeps1 == no_epsilons(self.fst1@, place.0, true)
            &&& place.1 < self.fst2@.n()
            &&& self.alleps2 == only_epsilons(self.fst2@, place.1, false)
            &&& self.noeps2 == no_epsilons(self.fst2@, place.1, false)
        }
    }

    open spec fn rule(&self) -> (FstV<W>, FstV<W>, M1, M2) {
        (self.machine1(), self.machine2(), self.over1(), self.over2())
    }

    closed spec fn place(&self) -> Option<(usize, usize, CharFilterState)> {
        self.place
    }

    open spec fn first(rule: (FstV<W>, FstV<W>, M1, M2)) -> M1 {
        rule.2
    }

    open spec fn second(rule: (FstV<W>, FstV<W>, M1, M2)) -> M2 {
        rule.3
    }

    open spec fn spec_start(rule: (FstV<W>, FstV<W>, M1, M2)) -> CharFilterState {
        char_state(STATE_DEFAULT)
    }

    open spec fn filtered(
        rule: (FstV<W>, FstV<W>, M1, M2),
        s1: usize,
        s2: usize,
        fs: CharFilterState,
        arc1: Arc<W>,
        arc2: Arc<W>,
    ) -> (Option<CharFilterState>, Arc<W>, Arc<W>) {
        let alleps1 = only_epsilons(rule.0, s1, true);
        let noeps1 = no_epsilons(rule.0, s1, true);
        let alleps2 = only_epsilons(rule.1, s2, false);
        let noeps2 = no_epsilons(rule.1, s2, false);
        let next = if arc2.ilabel == NO_LABEL {
            if fs.state == STATE_DEFAULT {
                if noeps2 {
                    Some(char_state(STATE_DEFAULT))
                } else if alleps2 {
                    None
                } else {
                    Some(char_state(STATE_EPS1))
                }
            } else if fs.state == STATE_EPS1 {
                Some(char_state(STATE_EPS1))
            } else {
                None
            }
        } else if arc1.olabel == NO_LABEL {
            if fs.state == STATE_DEFAULT {
                if noeps1 {
                    Some(char_state(STATE_DEFAULT))
                } else if alleps1 {
                    None
                } else {
                    Some(char_state(STATE_EPS2))
                }
            } else if fs.state == STATE_EPS2 {
                Some(char_state(STATE_EPS2))
            } else {
                None
            }
        } else if arc1.olabel == EPSILON {
            if fs.state == STATE_DEFAULT {
                Some(char_state(STATE_DEFAULT))
            } else {
                None
            }
        } else {
            Some(char_state(STATE_DEFAULT))
        };
        (next, arc1, arc2)
    }

    open spec fn finals(rule: (FstV<W>, FstV<W>, M1, M2), s1: usize, s2: usize, fs: CharFilterState, w1: W, w2: W) -> (
        W,
        W,
    ) {
        (w1, w2)
    }

    open spec fn matches1(rule: (FstV<W>, FstV<W>, M1, M2), fs: CharFilterState, s: usize, label: i32) -> Seq<Arc<W>> {
        rule.2.spec_matches(s, label)
    }

    open spec fn matches2(rule: (FstV<W>, FstV<W>, M1, M2), fs: CharFilterState, s: usize, label: i32) -> Seq<Arc<W>> {
        rule.3.spec_matches(s, label)
    }

    open spec fn spec_properties(rule: (FstV<W>, FstV<W>, M1, M2), props: u64) -> u64 {
        props
    }

    fn start(&self) -> (fs: CharFilterState) {
        CharFilterState::new(STATE_DEFAULT)
    }

    fn set_state(&mut self, s1: usize, s2: usize, fs: &CharFilterState) {
        if let Some(place) = &self.place {
            if place.0 == s1 && place.1 == s2 && place.2.key_same(fs) {
                return;
            }
        }
        self.place = Some((s1, s2, fs.key_copy()));
        let (alleps1, noeps1) = epsilons_at(self.fst1, s1, true);
        self.alleps1 = alleps1;
        self.noeps1 = noeps1;
        let (alleps2, noeps2) = epsilons_at(self.fst2, s2, false);
        self.alleps2 = alleps2;
        self.noeps2 = noeps2;
    }

    fn filter_arc(&mut self, arc1: &mut Arc<W>, arc2: &mut Arc<W>) -> (next: Option<
        CharFilterState,
    >) {
        let state: i8 = match &self.place {
            Some(place) => place.2.state,
            None => STATE_DEFAULT,
        };
        if arc2.ilabel == NO_LABEL {
            if state == STATE_DEFAULT {
                if self.noeps2 {
                    Some(CharFilterState::new(STATE_DEFAULT))
                } else if self.alleps2 {
                    None
                } else {
                    Some(CharFilterState::new(STATE_EPS1))
                }
            } else if state == STATE_EPS1 {
                Some(CharFilterState::new(STATE_EPS1))
            } else {
                None
            }
        } else if arc1.olabel == NO_LABEL {
            if state == STATE_DEFAULT {
                if self.noeps1 {
                    Some(CharFilterState::new(STATE_DEFAULT))
                } else if self.alleps1 {
                    None
                } else {
                    Some(CharFilterState::new(STATE_EPS2))
                }
            } else if state == STATE_EPS2 {
                Some(CharFilterState::new(STATE_EPS2))
            } else {
                None
            }
        } else if arc1.olabel == EPSILON {
            if state == STATE_DEFAULT {
                Some(CharFilterState::new(STATE_DEFAULT))
            } else {
                None
            }
        } else {
            Some(CharFilterState::new(STATE_DEFAULT))
        }
    }

    fn filter_final(&self, w1: &mut W, w2: &mut W) {
    }

    fn matcher1(&self) -> (m: &M1) {
        &self.matcher1
    }

    fn matcher2(&self) -> (m: &M2) {
        &self.matcher2
    }

    fn find1(&self, s: usize, label: i32) -> (arcs: Vec<Arc<W>>) {
        self.matcher1.matches(s, label)
    }

    fn find2(&self, s: usize, label: i32) -> (arcs: Vec<Arc<W>>) {
        self.matcher2.matches(s, label)
    }

    fn properties(&self, props: u64) -> (out: u64) {
        props
    }
}

/// A filter, keeping the labels of the arcs that a multi-epsilon matcher follows as
/// epsilons, where asked to.
pub struct MultiEpsFilter<F> {
    /// The filter.
    pub filter: F,
    /// Whether to keep the labels.
    pub keep_multi_eps: bool,
}

impl<F> MultiEpsFilter<F> {
    /// A filter that keeps multi-epsilon labels, or does not.
    pub fn new(filter: F, keep_multi_eps: bool) -> (multi: Self)
        ensures
            multi == (MultiEpsFilter { filter, keep_multi_eps }),
    {
        MultiEpsFilter { filter, keep_multi_eps }
    }
}

/// The first arc of a pair, given the label that the second is matched by where it
/// takes nothing itself.
pub open spec fn keep_first<W>(arc1: Arc<W>, arc2: Arc<W>) -> Arc<W> {
    if arc1.olabel == NO_LABEL {
        Arc { ilabel: arc2.ilabel, ..arc1 }
    } else {
        arc1
    }
}

/// The second arc of a pair, given the label that the first is matched by where it
/// takes nothing itself.
pub open spec fn keep_second<W>(arc1: Arc<W>, arc2: Arc<W>) -> Arc<W> {
    if arc2.ilabel == NO_LABEL {
        Arc { olabel: arc1.olabel, ..arc2 }
    } else {
        arc2
    }
}

impl<W: Weight, F: ComposeFilter<W>> ComposeFilter<W> for MultiEpsFilter<F> {
    type State = F::State;

    type Matcher1 = F::Matcher1;

    type Matcher2 = F::Matcher2;

    type Rule = (F::Rule, bool);

    open spec fn wf(&self) -> bool {
        self.filter.wf()
    }

    open spec fn rule(&self) -> Self::Rule {
        (self.filter.rule(), self.keep_multi_eps)
    }

    open spec fn place(&self) -> Option<(usize, usize, F::State)> {
        self.filter.place()
    }

    open spec fn first(rule: Self::Rule) -> F::Matcher1 {
        F::first(rule.0)
    }

    open spec fn second(rule: Self::Rule) -> F::Matcher2 {
        F::second(rule.0)
    }

    open spec fn spec_start(rule: Self::Rule) -> F::State {
        F::spec_start(rule.0)
    }

    open spec fn filtered(
        rule: Self::Rule,
        s1: usize,
        s2: usize,
        fs: F::State,
        arc1: Arc<W>,
        arc2: Arc<W>,
    ) -> (Option<F::State>, Arc<W>, Arc<W>) {
        let (next, arc1, arc2) = F::filtered(rule.0, s1, s2, fs, arc1, arc2);
        if rule.1 {
            let kept1 = keep_first(arc1, arc2);
            (next, kept1, keep_second(kept1, arc2))
        } else {
            (next, arc1, arc2)
        }
    }

    open spec fn finals(rule: Self::Rule, s1: usize, s2: usize, fs: F::State, w1: W, w2: W) -> (
        W,
        W,
    ) {
        F::finals(rule.0, s1, s2, fs, w1, w2)
    }

    open spec fn matches1(rule: Self::Rule, fs: F::State, s: usize, label: i32) -> Seq<Arc<W>> {
        F::matches1(rule.0, fs, s, label)
    }

    open spec fn matches2(rule: Self::Rule, fs: F::State, s: usize, label: i32) -> Seq<Arc<W>> {
        F::matches2(rule.0, fs, s, label)
    }

    open spec fn spec_properties(rule: Self::Rule, props: u64) -> u64 {
        F::spec_properties(rule.0, props) & K_I_LABEL_INVARIANT_PROPERTIES
            & K_O_LABEL_INVARIANT_PROPERTIES
    }

    fn start(&self) -> (fs: F::State) {
        self.filter.start()
    }

    fn set_state(&mut self, s1: usize, s2: usize, fs: &F::State) {
        self.filter.set_state(s1, s2, fs);
    }

    fn filter_arc(&mut self, arc1: &mut Arc<W>, arc2: &mut Arc<W>) -> (next: Option<F::State>) {
        let next = self.filter.filter_arc(arc1, arc2);
        if self.keep_multi_eps {
            if arc1.olabel == NO_LABEL {
                arc1.ilabel = arc2.ilabel;
            }
            if arc2.ilabel == NO_LABEL {
                arc2.olabel = arc1.olabel;
            }
        }
        next
    }

    fn filter_final(&self, w1: &mut W, w2: &mut W) {
        self.filter.filter_final(w1, w2);
    }

    fn matcher1(&self) -> (m: &F::Matcher1) {
        self.filter.matcher1()
    }

    fn matcher2(&self) -> (m: &F::Matcher2) {
        self.filter.matcher2()
    }

    fn find1(&self, s: usize, label: i32) -> (arcs: Vec<Arc<W>>) {
        self.filter.find1(s, label)
    }

    fn find2(&self, s: usize, label: i32) -> (arcs: Vec<Arc<W>>) {
        self.filter.find2(s, label)
    }

    fn properties(&self, props: u64) -> (out: u64) {
        self.filter.properties(props) & K_I_LABEL_INVARIANT_PROPERTIES
            & K_O_LABEL_INVARIANT_PROPERTIES
    }
}

} // verus!
