//! Composition filters that ask the matcher about the future.
//!
//! A [compose filter](crate::compose_filter::ComposeFilter) decides which pairs of arcs
//! composition is allowed to take; these three ask a
//! [`LookAheadMatcher`] what lies past the pair and act on the answer:
//!
//! - [`LookAheadComposeFilter`] refuses a pair whose destination has no future.
//! - [`PushWeightsComposeFilter`] moves the weight of that future onto the arc, so a
//!   search over the result sees it sooner.
//! - [`PushLabelsComposeFilter`] does the same for the one label that must come next,
//!   so it is matched as early as it can be.
//!
//! Each wraps the one before it, in that order.
use crate::arc::{Arc, EPSILON, NO_LABEL};
use crate::compose_filter::ComposeFilter;
use crate::error::OpenFstError;
use crate::filter_state::{LabelFilterState, PairFilterState, WeightFilterState};
use crate::hash_table::Key;
use crate::lookahead_matcher::{
    flagged, LookAhead, LookAheadMatcher, INPUT_LOOKAHEAD_MATCHER, LOOKAHEAD_EPSILONS,
    LOOKAHEAD_NON_EPSILONS, LOOKAHEAD_NON_EPSILON_PREFIX, LOOKAHEAD_PREFIX, LOOKAHEAD_WEIGHT,
    OUTPUT_LOOKAHEAD_MATCHER,
};
use crate::matcher::{label_on, side_label, MatchType, Matcher};
use crate::multi_eps::{only, MultiEpsLabels};
use crate::properties::{
    K_I_LABEL_INVARIANT_PROPERTIES, K_O_LABEL_INVARIANT_PROPERTIES, K_WEIGHT_INVARIANT_PROPERTIES,
};
use crate::vector_fst::{FstV, VectorFst};
use crate::weight::{Divide, DivideType, Weight};
use vstd::prelude::*;

verus! {

/// Which side the look-ahead is done on.
///
/// The matcher over the first machine looks ahead on output labels and the one over
/// the second on input labels, so this says which of the two can be asked.
pub open spec fn ahead_side<W: Weight, M1: LookAheadMatcher<W>, M2: LookAheadMatcher<W>>(
    matcher1: M1,
    matcher2: M2,
) -> MatchType {
    if matcher1.spec_match_type() is Output && flagged(
        matcher1.spec_flags(),
        OUTPUT_LOOKAHEAD_MATCHER,
    ) {
        MatchType::Output
    } else if matcher2.spec_match_type() is Input && flagged(
        matcher2.spec_flags(),
        INPUT_LOOKAHEAD_MATCHER,
    ) {
        MatchType::Input
    } else {
        MatchType::Neither
    }
}

/// Which side the look-ahead is done on; [`MatchType::Neither`] means neither can be
/// asked.
pub fn lookahead_match_type<W: Weight, M1: LookAheadMatcher<W>, M2: LookAheadMatcher<W>>(
    matcher1: &M1,
    matcher2: &M2,
) -> (side: MatchType)
    requires
        matcher1.wf(),
        matcher2.wf(),
    ensures
        side == ahead_side::<W, M1, M2>(*matcher1, *matcher2),
{
    let output: bool = match matcher1.match_type() {
        MatchType::Output => true,
        _ => false,
    };
    if output && matcher1.lookahead_flags() & OUTPUT_LOOKAHEAD_MATCHER != 0 {
        return MatchType::Output;
    }
    let input: bool = match matcher2.match_type() {
        MatchType::Input => true,
        _ => false,
    };
    if input && matcher2.lookahead_flags() & INPUT_LOOKAHEAD_MATCHER != 0 {
        return MatchType::Input;
    }
    MatchType::Neither
}

/// What a filter stacked on a look-ahead filter needs to read back from it.
pub trait HasLookAhead<W: Weight>: ComposeFilter<W> {
    /// What the matcher doing the asking can report.
    spec fn ahead_flags(rule: Self::Rule) -> u32;

    /// Whether the look-ahead is done on the output side.
    spec fn ahead_output(rule: Self::Rule) -> bool;

    /// What is found past a pair of arcs, or nothing if it is not looked at.
    spec fn ahead(
        rule: Self::Rule,
        s1: usize,
        s2: usize,
        fs: Self::State,
        arc1: Arc<W>,
        arc2: Arc<W>,
    ) -> Option<LookAhead<W>>;

    /// Whether `label` could still be matched from `state` on the look-ahead side.
    spec fn ahead_label(rule: Self::Rule, state: usize, label: i32) -> bool;

    /// What the last pair of arcs was found to lead to.
    spec fn last(&self) -> Option<LookAhead<W>>;

    /// What the matcher doing the asking can report; see the flags of
    /// [`lookahead_matcher`](crate::lookahead_matcher).
    fn lookahead_flags(&self) -> (flags: u32)
        requires
            self.wf(),
        ensures
            flags == Self::ahead_flags(self.rule()),
    ;

    /// Whether the look-ahead is done on the output side.
    fn lookahead_output(&self) -> (output: bool)
        requires
            self.wf(),
        ensures
            output == Self::ahead_output(self.rule()),
    ;

    /// Filters a pair of arcs, and keeps what was found past it.
    fn filter_arc_ahead(&mut self, arc1: &mut Arc<W>, arc2: &mut Arc<W>) -> (next: Option<
        Self::State,
    >)
        requires
            old(self).wf(),
            old(self).place() is Some,
            old(arc1).nextstate < Self::first(old(self).rule()).spec_states(),
            old(arc2).nextstate < Self::second(old(self).rule()).spec_states(),
        ensures
            final(self).wf(),
            final(self).rule() == old(self).rule(),
            final(self).place() == old(self).place(),
            ({
                let place = old(self).place()->0;
                &&& (next, *final(arc1), *final(arc2)) == Self::filtered(
                    old(self).rule(),
                    place.0,
                    place.1,
                    place.2,
                    *old(arc1),
                    *old(arc2),
                )
                &&& final(self).last() == Self::ahead(
                    old(self).rule(),
                    place.0,
                    place.1,
                    place.2,
                    *old(arc1),
                    *old(arc2),
                )
            }),
            final(arc1).nextstate < Self::first(old(self).rule()).spec_states(),
            final(arc2).nextstate < Self::second(old(self).rule()).spec_states(),
            final(self).last() matches Some(found) ==> (found.prefix matches Some(arc)
                ==> arc.nextstate < (if Self::ahead_output(old(self).rule()) {
                Self::second(old(self).rule()).spec_states()
            } else {
                Self::first(old(self).rule()).spec_states()
            })),
    ;

    /// What the last pair of arcs was found to lead to, or nothing if it was not
    /// looked at.
    fn last_lookahead(&self) -> (found: Option<&LookAhead<W>>)
        ensures
            found is Some <==> self.last() is Some,
            found matches Some(found) ==> *found == self.last()->0,
    ;

    /// Whether `label` could still be matched from `state` on the look-ahead side,
    /// without looking at the other machine at all.
    fn look_ahead_label_from(&self, state: usize, label: i32) -> (b: bool)
        requires
            self.wf(),
            state < (if Self::ahead_output(self.rule()) {
                Self::first(self.rule()).spec_states()
            } else {
                Self::second(self.rule()).spec_states()
            }),
        ensures
            b == Self::ahead_label(self.rule(), state, label),
    ;
}

/// Refuses the arc pairs whose destination the look-ahead says leads nowhere.
///
/// Composition otherwise builds a state for every pair it can reach and finds out only
/// later that most of them are dead ends; this asks first.
pub struct LookAheadComposeFilter<'f, W, Inner> {
    inner: Inner,
    lookahead_fst: &'f VectorFst<W>,
    output: bool,
    flags: u32,
    last: Option<LookAhead<W>>,
}

/// What a look-ahead filter's answers depend on.
pub struct AheadRule<W, R> {
    /// The rule of the filter underneath.
    pub inner: R,
    /// The machine looked into: the other side from the matcher doing the asking.
    pub into: FstV<W>,
    /// Whether the look-ahead is done on the output side.
    pub output: bool,
    /// What the matcher doing the asking can say.
    pub flags: u32,
}

/// Whether a matcher looks at an arc that carries `label`.
pub open spec fn looks_at(flags: u32, label: i32) -> bool {
    if label == EPSILON {
        flagged(flags, LOOKAHEAD_EPSILONS)
    } else {
        flagged(flags, LOOKAHEAD_NON_EPSILONS)
    }
}

/// What is found past a pair of arcs that the filter underneath let through, or
/// nothing if the matcher does not look at such arcs.
pub open spec fn looked<W: Weight, F: ComposeFilter<W>>(
    rule: AheadRule<W, F::Rule>,
    arc1: Arc<W>,
    arc2: Arc<W>,
) -> Option<LookAhead<W>> where F::Matcher1: LookAheadMatcher<W>, F::Matcher2: LookAheadMatcher<W> {
    let (label, found) = if rule.output {
        (
            arc1.olabel,
            F::first(rule.inner).spec_look_ahead(arc1.nextstate, rule.into, arc2.nextstate),
        )
    } else {
        (
            arc2.ilabel,
            F::second(rule.inner).spec_look_ahead(arc2.nextstate, rule.into, arc1.nextstate),
        )
    };
    if looks_at(rule.flags, label) {
        Some(found)
    } else {
        None
    }
}

impl<'f, W: Weight, Inner: ComposeFilter<W>> LookAheadComposeFilter<'f, W, Inner> where
    Inner::Matcher1: LookAheadMatcher<W>,
    Inner::Matcher2: LookAheadMatcher<W>,
 {
    /// The filter underneath.
    pub closed spec fn under(&self) -> Inner {
        self.inner
    }

    /// The machine looked into.
    pub closed spec fn looked_into(&self) -> FstV<W> {
        self.lookahead_fst@
    }

    /// Whether the look-ahead is done on the output side.
    pub closed spec fn on_output(&self) -> bool {
        self.output
    }

    /// What the matcher doing the asking can say.
    pub closed spec fn told(&self) -> u32 {
        self.flags
    }

    /// What the last pair of arcs was found to lead to.
    pub closed spec fn found(&self) -> Option<LookAhead<W>> {
        self.last
    }

    /// What the answers depend on.
    pub open spec fn depends_on(&self) -> AheadRule<W, Inner::Rule> {
        AheadRule {
            inner: self.under().rule(),
            into: self.looked_into(),
            output: self.on_output(),
            flags: self.told(),
        }
    }

    /// Whether the filter is in order: the machine looked into is the one that the
    /// asking matcher is not over.
    pub open spec fn in_order(&self) -> bool {
        &&& self.under().wf()
        &&& self.looked_into().wf()
        &&& self.looked_into().n() == (if self.on_output() {
            Inner::second(self.under().rule()).spec_states()
        } else {
            Inner::first(self.under().rule()).spec_states()
        })
    }

    /// Filters a pair of arcs, and keeps what was found past it.
    fn filter_looking(&mut self, arc1: &mut Arc<W>, arc2: &mut Arc<W>) -> (next: Option<
        Inner::State,
    >)
        requires
            old(self).in_order(),
            old(self).under().place() is Some,
            old(arc1).nextstate < Inner::first(old(self).under().rule()).spec_states(),
            old(arc2).nextstate < Inner::second(old(self).under().rule()).spec_states(),
        ensures
            final(self).in_order(),
            final(self).depends_on() == old(self).depends_on(),
            final(self).under().place() == old(self).under().place(),
            ({
                let place = old(self).under().place()->0;
                let rule = old(self).depends_on();
                let (allowed, a1, a2) = Inner::filtered(
                    rule.inner,
                    place.0,
                    place.1,
                    place.2,
                    *old(arc1),
                    *old(arc2),
                );
                &&& *final(arc1) == a1
                &&& *final(arc2) == a2
                &&& final(self).found() == (if allowed is None {
                    None
                } else {
                    looked::<W, Inner>(rule, a1, a2)
                })
                &&& next == (if allowed is None || (looked::<W, Inner>(rule, a1, a2) matches Some(
                    found,
                ) && !found.reachable) {
                    None
                } else {
                    allowed
                })
            }),
            final(arc1).nextstate < Inner::first(old(self).under().rule()).spec_states(),
            final(arc2).nextstate < Inner::second(old(self).under().rule()).spec_states(),
            final(self).found() matches Some(found) ==> (found.prefix matches Some(arc)
                ==> arc.nextstate < old(self).looked_into().n()),
    {
        self.last = None;
        let next = self.inner.filter_arc(arc1, arc2);
        if next.is_none() {
            return None;
        }
        let found = self.look(arc1, arc2);
        let reachable: bool = match &found {
            Some(found) => found.reachable,
            None => true,
        };
        self.last = found;
        if reachable {
            next
        } else {
            None
        }
    }

    /// Wraps `inner`, looking ahead into `lookahead_fst`.
    ///
    /// `lookahead_fst` is the side the asking matcher is *not* over: with the
    /// look-ahead on output labels, the first matcher asks about states of the second
    /// machine, and the other way round on input labels.
    pub fn new(inner: Inner, lookahead_fst: &'f VectorFst<W>) -> (result: Result<
        Self,
        OpenFstError,
    >)
        requires
            inner.wf(),
        ensures
            ({
                let first = Inner::first(inner.rule());
                let second = Inner::second(inner.rule());
                let side = ahead_side::<W, Inner::Matcher1, Inner::Matcher2>(first, second);
                &&& result is Ok <==> side !is Neither
                &&& result matches Err(e) ==> e == OpenFstError::InvalidOperation(
                    "LookAheadComposeFilter: the 1st argument cannot match/look-ahead on output labels and the 2nd cannot on input labels",
                )
                &&& result matches Ok(filter) ==> {
                    &&& filter.under() == inner
                    &&& filter.looked_into() == lookahead_fst@
                    &&& filter.on_output() == (side is Output)
                    &&& filter.told() == (if side is Output {
                        first.spec_flags()
                    } else {
                        second.spec_flags()
                    })
                    &&& filter.found() is None
                }
            }),
    {
        let side = lookahead_match_type(inner.matcher1(), inner.matcher2());
        let output: bool = match side {
            MatchType::Output => true,
            MatchType::Input => false,
            _ => {
                return Err(
                    OpenFstError::InvalidOperation(
                        "LookAheadComposeFilter: the 1st argument cannot match/look-ahead on output labels and the 2nd cannot on input labels",
                    ),
                );
            },
        };
        let flags: u32 = if output {
            inner.matcher1().lookahead_flags()
        } else {
            inner.matcher2().lookahead_flags()
        };
        Ok(LookAheadComposeFilter { inner, lookahead_fst, output, flags, last: None })
    }

    /// The filter underneath.
    pub fn inner(&self) -> (inner: &Inner)
        ensures
            *inner == self.under(),
    {
        &self.inner
    }

    /// Asks the matcher what lies past a pair of arcs, if it looks at such arcs.
    fn look(&self, arc1: &Arc<W>, arc2: &Arc<W>) -> (found: Option<LookAhead<W>>)
        requires
            self.in_order(),
            arc1.nextstate < Inner::first(self.under().rule()).spec_states(),
            arc2.nextstate < Inner::second(self.under().rule()).spec_states(),
        ensures
            found == looked::<W, Inner>(self.depends_on(), *arc1, *arc2),
            found matches Some(found) ==> (found.prefix matches Some(arc) ==> arc.nextstate
                < self.looked_into().n()),
    {
        let label: i32 = if self.output {
            arc1.olabel
        } else {
            arc2.ilabel
        };
        // Only the kinds of arc the matcher said it looks at are asked about; for the
        // others the pair stands as the inner filter left it.
        if label != EPSILON && self.flags & LOOKAHEAD_NON_EPSILONS == 0 {
            return None;
        }
        if label == EPSILON && self.flags & LOOKAHEAD_EPSILONS == 0 {
            return None;
        }
        if self.output {
            Some(
                self.inner.matcher1().look_ahead(
                    arc1.nextstate,
                    self.lookahead_fst,
                    arc2.nextstate,
                ),
            )
        } else {
            Some(
                self.inner.matcher2().look_ahead(
                    arc2.nextstate,
                    self.lookahead_fst,
                    arc1.nextstate,
                ),
            )
        }
    }
}

impl<'f, W: Weight, Inner: ComposeFilter<W>> ComposeFilter<W> for LookAheadComposeFilter<
    'f,
    W,
    Inner,
> where Inner::Matcher1: LookAheadMatcher<W>, Inner::Matcher2: LookAheadMatcher<W> {
    type State = Inner::State;

    type Matcher1 = Inner::Matcher1;

    type Matcher2 = Inner::Matcher2;

    type Rule = AheadRule<W, Inner::Rule>;

    open spec fn wf(&self) -> bool {
        self.in_order()
    }

    open spec fn rule(&self) -> Self::Rule {
        self.depends_on()
    }

    open spec fn place(&self) -> Option<(usize, usize, Inner::State)> {
        self.under().place()
    }

    open spec fn first(rule: Self::Rule) -> Inner::Matcher1 {
        Inner::first(rule.inner)
    }

    open spec fn second(rule: Self::Rule) -> Inner::Matcher2 {
        Inner::second(rule.inner)
    }

    open spec fn spec_start(rule: Self::Rule) -> Inner::State {
        Inner::spec_start(rule.inner)
    }

    open spec fn filtered(
        rule: Self::Rule,
        s1: usize,
        s2: usize,
        fs: Inner::State,
        arc1: Arc<W>,
        arc2: Arc<W>,
    ) -> (Option<Inner::State>, Arc<W>, Arc<W>) {
        let (next, arc1, arc2) = Inner::filtered(rule.inner, s1, s2, fs, arc1, arc2);
        (
            if next is None || (looked::<W, Inner>(rule, arc1, arc2) matches Some(found)
                && !found.reachable) {
                None
            } else {
                next
            },
            arc1,
            arc2,
        )
    }

    open spec fn finals(
        rule: Self::Rule,
        s1: usize,
        s2: usize,
        fs: Inner::State,
        w1: W,
        w2: W,
    ) -> (W, W) {
        Inner::finals(rule.inner, s1, s2, fs, w1, w2)
    }

    open spec fn matches1(rule: Self::Rule, fs: Inner::State, s: usize, label: i32) -> Seq<Arc<W>> {
        Inner::matches1(rule.inner, fs, s, label)
    }

    open spec fn matches2(rule: Self::Rule, fs: Inner::State, s: usize, label: i32) -> Seq<Arc<W>> {
        Inner::matches2(rule.inner, fs, s, label)
    }

    open spec fn spec_properties(rule: Self::Rule, props: u64) -> u64 {
        Inner::spec_properties(rule.inner, props)
    }

    fn start(&self) -> (fs: Inner::State) {
        self.inner.start()
    }

    fn set_state(&mut self, s1: usize, s2: usize, fs: &Inner::State) {
        self.inner.set_state(s1, s2, fs);
    }

    fn filter_arc(&mut self, arc1: &mut Arc<W>, arc2: &mut Arc<W>) -> (next: Option<Inner::State>) {
        self.filter_looking(arc1, arc2)
    }

    fn filter_final(&self, w1: &mut W, w2: &mut W) {
        self.inner.filter_final(w1, w2);
    }

    fn matcher1(&self) -> (m: &Inner::Matcher1) {
        self.inner.matcher1()
    }

    fn matcher2(&self) -> (m: &Inner::Matcher2) {
        self.inner.matcher2()
    }

    fn find1(&self, s: usize, label: i32) -> (arcs: Vec<Arc<W>>) {
        self.inner.find1(s, label)
    }

    fn find2(&self, s: usize, label: i32) -> (arcs: Vec<Arc<W>>) {
        self.inner.find2(s, label)
    }

    fn properties(&self, props: u64) -> (out: u64) {
        self.inner.properties(props)
    }
}

impl<'f, W: Weight, Inner: ComposeFilter<W>> HasLookAhead<W> for LookAheadComposeFilter<
    'f,
    W,
    Inner,
> where Inner::Matcher1: LookAheadMatcher<W>, Inner::Matcher2: LookAheadMatcher<W> {
    open spec fn ahead_flags(rule: Self::Rule) -> u32 {
        rule.flags
    }

    open spec fn ahead_output(rule: Self::Rule) -> bool {
        rule.output
    }

    open spec fn ahead(
        rule: Self::Rule,
        s1: usize,
        s2: usize,
        fs: Inner::State,
        arc1: Arc<W>,
        arc2: Arc<W>,
    ) -> Option<LookAhead<W>> {
        let (next, arc1, arc2) = Inner::filtered(rule.inner, s1, s2, fs, arc1, arc2);
        if next is None {
            None
        } else {
            looked::<W, Inner>(rule, arc1, arc2)
        }
    }

    open spec fn ahead_label(rule: Self::Rule, state: usize, label: i32) -> bool {
        if rule.output {
            Inner::first(rule.inner).spec_look_ahead_label(state, label)
        } else {
            Inner::second(rule.inner).spec_look_ahead_label(state, label)
        }
    }

    open spec fn last(&self) -> Option<LookAhead<W>> {
        self.found()
    }

    fn lookahead_flags(&self) -> (flags: u32) {
        self.flags
    }

    fn lookahead_output(&self) -> (output: bool) {
        self.output
    }

    fn filter_arc_ahead(&mut self, arc1: &mut Arc<W>, arc2: &mut Arc<W>) -> (next: Option<
        Inner::State,
    >) {
        self.filter_looking(arc1, arc2)
    }

    fn last_lookahead(&self) -> (found: Option<&LookAhead<W>>) {
        match &self.last {
            Some(found) => Some(found),
            None => None,
        }
    }

    fn look_ahead_label_from(&self, state: usize, label: i32) -> (b: bool) {
        if self.output {
            self.inner.matcher1().look_ahead_label(state, label)
        } else {
            self.inner.matcher2().look_ahead_label(state, label)
        }
    }
}

/// Moves the weight of what lies ahead onto the arc.
///
/// A search over the result then meets that weight sooner and can give up on a path
/// before walking it. What was moved is remembered in the filter state and divided
/// back out on the next arc, so no path ends up weighing more or less than it did.
pub struct PushWeightsComposeFilter<W, Inner: ComposeFilter<W>> where W: Weight {
    inner: Inner,
    place: Option<(usize, usize, PairFilterState<Inner::State, WeightFilterState<W>>)>,
}

/// What becomes of a pair of arcs and the weight carried, given what lies ahead: the
/// weight carried on, and the second arc. Nothing where what lies ahead weighs zero,
/// which is no future at all.
pub open spec fn weight_moved<W: Divide>(
    flags: u32,
    found: Option<LookAhead<W>>,
    already: W,
    arc2: Arc<W>,
) -> (Option<W>, Arc<W>) {
    if !flagged(flags, LOOKAHEAD_WEIGHT) {
        (Some(W::spec_one()), arc2)
    } else {
        let ahead = match found {
            Some(found) => found.weight,
            None => W::spec_one(),
        };
        if ahead == W::spec_zero() {
            (None, arc2)
        } else if ahead == already {
            (Some(already), arc2)
        } else {
            (
                Some(
                    if ahead == W::spec_one() {
                        ahead
                    } else {
                        ahead.spec_quantize(W::spec_default_delta())
                    },
                ),
                Arc {
                    weight: arc2.weight.spec_times(ahead).spec_divide(already, DivideType::Any),
                    ..arc2
                },
            )
        }
    }
}

impl<W: Divide, Inner: HasLookAhead<W>> PushWeightsComposeFilter<W, Inner> {
    /// The filter underneath.
    pub closed spec fn under(&self) -> Inner {
        self.inner
    }

    /// Wraps `inner`.
    pub fn new(inner: Inner) -> (filter: Self)
        requires
            inner.wf(),
        ensures
            filter.under() == inner,
            filter.in_order(),
            filter.put() is None,
    {
        PushWeightsComposeFilter { inner, place: None }
    }

    /// The filter underneath.
    pub fn inner(&self) -> (inner: &Inner)
        ensures
            *inner == self.under(),
    {
        &self.inner
    }

    /// The place it has been put.
    pub closed spec fn put(&self) -> Option<
        (usize, usize, PairFilterState<Inner::State, WeightFilterState<W>>),
    > {
        self.place
    }

    /// Whether the filter is in order: the filter underneath stands where this does.
    pub open spec fn in_order(&self) -> bool {
        &&& self.under().wf()
        &&& self.put() matches Some(place) ==> self.under().place() == Some(
            (place.0, place.1, place.2.fs1),
        )
    }

    /// What becomes of a pair of arcs.
    pub open spec fn pushed_on(
        rule: Inner::Rule,
        s1: usize,
        s2: usize,
        fs: PairFilterState<Inner::State, WeightFilterState<W>>,
        arc1: Arc<W>,
        arc2: Arc<W>,
    ) -> (Option<PairFilterState<Inner::State, WeightFilterState<W>>>, Arc<W>, Arc<W>) {
        let found = Inner::ahead(rule, s1, s2, fs.fs1, arc1, arc2);
        let (next, arc1, arc2) = Inner::filtered(rule, s1, s2, fs.fs1, arc1, arc2);
        match next {
            None => (None, arc1, arc2),
            Some(fs1) => {
                let (carried, arc2) = weight_moved(
                    Inner::ahead_flags(rule),
                    found,
                    fs.fs2.weight,
                    arc2,
                );
                (
                    match carried {
                        Some(weight) => Some(
                            PairFilterState { fs1, fs2: WeightFilterState { weight } },
                        ),
                        None => None,
                    },
                    arc1,
                    arc2,
                )
            },
        }
    }

    /// Filters a pair of arcs, moving the weight of what lies ahead onto it.
    fn push_weight(&mut self, arc1: &mut Arc<W>, arc2: &mut Arc<W>) -> (next: Option<
        PairFilterState<Inner::State, WeightFilterState<W>>,
    >)
        requires
            old(self).in_order(),
            old(self).put() is Some,
            old(arc1).nextstate < Inner::first(old(self).under().rule()).spec_states(),
            old(arc2).nextstate < Inner::second(old(self).under().rule()).spec_states(),
        ensures
            final(self).in_order(),
            final(self).under().rule() == old(self).under().rule(),
            final(self).put() == old(self).put(),
            ({
                let place = old(self).put()->0;
                let rule = old(self).under().rule();
                &&& (next, *final(arc1), *final(arc2)) == Self::pushed_on(
                    rule,
                    place.0,
                    place.1,
                    place.2,
                    *old(arc1),
                    *old(arc2),
                )
                &&& final(self).under().last() == Inner::ahead(
                    rule,
                    place.0,
                    place.1,
                    place.2.fs1,
                    *old(arc1),
                    *old(arc2),
                )
            }),
            final(arc1).nextstate < Inner::first(old(self).under().rule()).spec_states(),
            final(arc2).nextstate < Inner::second(old(self).under().rule()).spec_states(),
            final(self).under().last() matches Some(found) ==> (found.prefix matches Some(arc)
                ==> arc.nextstate < (if Inner::ahead_output(old(self).under().rule()) {
                Inner::second(old(self).under().rule()).spec_states()
            } else {
                Inner::first(old(self).under().rule()).spec_states()
            })),
    {
        let next = self.inner.filter_arc_ahead(arc1, arc2);
        let fs1 = match next {
            Some(fs1) => fs1,
            None => {
                return None;
            },
        };
        let one = W::one();
        if self.inner.lookahead_flags() & LOOKAHEAD_WEIGHT == 0 {
            return Some(PairFilterState::new(fs1, WeightFilterState::new(one)));
        }
        let ahead = match self.inner.last_lookahead() {
            Some(found) => found.weight.duplicate(),
            None => W::one(),
        };
        // A future that weighs zero is no future at all.
        let zero = W::zero();
        if ahead.same(&zero) {
            return None;
        }
        let already = self.pushed();
        if ahead.same(&already) {
            // Nothing changed, so the arithmetic below is a no-op and the state weight
            // is already quantized.
            return Some(PairFilterState::new(fs1, WeightFilterState::new(already)));
        }
        arc2.weight = arc2.weight.times(&ahead).divide(&already, DivideType::Any);
        // Quantized so that futures agreeing closely enough are one filter state
        // rather than an unbounded family of them.
        let carried = if ahead.same(&one) {
            one
        } else {
            let delta = W::default_delta();
            ahead.quantize(&delta)
        };
        Some(PairFilterState::new(fs1, WeightFilterState::new(carried)))
    }

    /// What was pushed onto the way in to the current state.
    fn pushed(&self) -> (w: W)
        requires
            self.put() is Some,
        ensures
            w == (self.put()->0).2.fs2.weight,
    {
        match &self.place {
            Some(place) => place.2.fs2.weight.duplicate(),
            None => W::one(),
        }
    }
}

impl<W: Divide, Inner: HasLookAhead<W>> ComposeFilter<W> for PushWeightsComposeFilter<W, Inner> {
    type State = PairFilterState<Inner::State, WeightFilterState<W>>;

    type Matcher1 = Inner::Matcher1;

    type Matcher2 = Inner::Matcher2;

    type Rule = Inner::Rule;

    open spec fn wf(&self) -> bool {
        self.in_order()
    }

    open spec fn rule(&self) -> Inner::Rule {
        self.under().rule()
    }

    open spec fn place(&self) -> Option<(usize, usize, Self::State)> {
        self.put()
    }

    open spec fn first(rule: Inner::Rule) -> Inner::Matcher1 {
        Inner::first(rule)
    }

    open spec fn second(rule: Inner::Rule) -> Inner::Matcher2 {
        Inner::second(rule)
    }

    open spec fn spec_start(rule: Inner::Rule) -> Self::State {
        PairFilterState {
            fs1: Inner::spec_start(rule),
            fs2: WeightFilterState { weight: W::spec_one() },
        }
    }

    open spec fn filtered(
        rule: Inner::Rule,
        s1: usize,
        s2: usize,
        fs: Self::State,
        arc1: Arc<W>,
        arc2: Arc<W>,
    ) -> (Option<Self::State>, Arc<W>, Arc<W>) {
        Self::pushed_on(rule, s1, s2, fs, arc1, arc2)
    }

    open spec fn finals(
        rule: Inner::Rule,
        s1: usize,
        s2: usize,
        fs: Self::State,
        w1: W,
        w2: W,
    ) -> (W, W) {
        let (w1, w2) = Inner::finals(rule, s1, s2, fs.fs1, w1, w2);
        if !flagged(Inner::ahead_flags(rule), LOOKAHEAD_WEIGHT) || w1 == W::spec_zero() {
            (w1, w2)
        } else {
            // What was pushed onto the way in has to come back off at the end.
            (w1.spec_divide(fs.fs2.weight, DivideType::Any), w2)
        }
    }

    open spec fn matches1(rule: Inner::Rule, fs: Self::State, s: usize, label: i32) -> Seq<Arc<W>> {
        Inner::matches1(rule, fs.fs1, s, label)
    }

    open spec fn matches2(rule: Inner::Rule, fs: Self::State, s: usize, label: i32) -> Seq<Arc<W>> {
        Inner::matches2(rule, fs.fs1, s, label)
    }

    open spec fn spec_properties(rule: Inner::Rule, props: u64) -> u64 {
        Inner::spec_properties(rule, props) & K_WEIGHT_INVARIANT_PROPERTIES
    }

    fn start(&self) -> (fs: Self::State) {
        PairFilterState::new(self.inner.start(), WeightFilterState::new(W::one()))
    }

    fn set_state(&mut self, s1: usize, s2: usize, fs: &Self::State) {
        self.inner.set_state(s1, s2, &fs.fs1);
        self.place = Some((s1, s2, fs.key_copy()));
    }

    fn filter_arc(&mut self, arc1: &mut Arc<W>, arc2: &mut Arc<W>) -> (next: Option<Self::State>) {
        self.push_weight(arc1, arc2)
    }

    fn filter_final(&self, w1: &mut W, w2: &mut W) {
        self.inner.filter_final(w1, w2);
        let zero = W::zero();
        if self.inner.lookahead_flags() & LOOKAHEAD_WEIGHT == 0 || w1.same(&zero) {
            return;
        }
        let pushed = self.pushed();
        *w1 = w1.divide(&pushed, DivideType::Any);
    }

    fn matcher1(&self) -> (m: &Inner::Matcher1) {
        self.inner.matcher1()
    }

    fn matcher2(&self) -> (m: &Inner::Matcher2) {
        self.inner.matcher2()
    }

    fn find1(&self, s: usize, label: i32) -> (arcs: Vec<Arc<W>>) {
        self.inner.find1(s, label)
    }

    fn find2(&self, s: usize, label: i32) -> (arcs: Vec<Arc<W>>) {
        self.inner.find2(s, label)
    }

    fn properties(&self, props: u64) -> (out: u64) {
        self.inner.properties(props) & K_WEIGHT_INVARIANT_PROPERTIES
    }
}

impl<W: Divide, Inner: HasLookAhead<W>> HasLookAhead<W> for PushWeightsComposeFilter<W, Inner> {
    open spec fn ahead_flags(rule: Inner::Rule) -> u32 {
        Inner::ahead_flags(rule)
    }

    open spec fn ahead_output(rule: Inner::Rule) -> bool {
        Inner::ahead_output(rule)
    }

    open spec fn ahead(
        rule: Inner::Rule,
        s1: usize,
        s2: usize,
        fs: Self::State,
        arc1: Arc<W>,
        arc2: Arc<W>,
    ) -> Option<LookAhead<W>> {
        Inner::ahead(rule, s1, s2, fs.fs1, arc1, arc2)
    }

    open spec fn ahead_label(rule: Inner::Rule, state: usize, label: i32) -> bool {
        Inner::ahead_label(rule, state, label)
    }

    open spec fn last(&self) -> Option<LookAhead<W>> {
        self.under().last()
    }

    fn lookahead_flags(&self) -> (flags: u32) {
        self.inner.lookahead_flags()
    }

    fn lookahead_output(&self) -> (output: bool) {
        self.inner.lookahead_output()
    }

    fn filter_arc_ahead(&mut self, arc1: &mut Arc<W>, arc2: &mut Arc<W>) -> (next: Option<
        Self::State,
    >) {
        self.push_weight(arc1, arc2)
    }

    fn last_lookahead(&self) -> (found: Option<&LookAhead<W>>) {
        self.inner.last_lookahead()
    }

    fn look_ahead_label_from(&self, state: usize, label: i32) -> (b: bool) {
        self.inner.look_ahead_label_from(state, label)
    }
}

/// Moves the one label that must come next onto the arc.
///
/// When the look-ahead finds exactly one way forward, its label is written now rather
/// than when it is reached, so the other side can match it that much earlier. The label
/// is carried in the filter state until the arc that would have written it comes round,
/// and is turned into an epsilon there so it is not written twice.
pub struct PushLabelsComposeFilter<'f, W: Weight, Inner: ComposeFilter<W>> {
    inner: Inner,
    lookahead_side: &'f VectorFst<W>,
    place: Option<(usize, usize, PairFilterState<Inner::State, LabelFilterState>)>,
    last: Option<LookAhead<W>>,
}

/// What a label-pushing filter's answers depend on.
pub struct PushRule<W, R> {
    /// The rule of the filter underneath.
    pub inner: R,
    /// The machine that the look-ahead matcher matches over.
    pub side: FstV<W>,
}

/// The arc with another label on one side.
pub open spec fn relabelled<W>(arc: Arc<W>, output: bool, label: i32) -> Arc<W> {
    if output {
        Arc { olabel: label, ..arc }
    } else {
        Arc { ilabel: label, ..arc }
    }
}

/// A pair of arcs, the one on the look-ahead side first, in the order of the machines.
pub open spec fn in_machine_order<W>(output: bool, arca: Arc<W>, arcb: Arc<W>) -> (Arc<W>, Arc<W>) {
    if output {
        (arca, arcb)
    } else {
        (arcb, arca)
    }
}

/// What becomes of a pair of arcs while a label is owed: it pays the label, or waits,
/// or is refused. The filter underneath is not asked, since the pair is one that
/// pushing the label invented.
pub open spec fn paid<W: Weight, F: HasLookAhead<W>>(
    rule: PushRule<W, F::Rule>,
    s1: usize,
    s2: usize,
    fs: PairFilterState<F::State, LabelFilterState>,
    arc1: Arc<W>,
    arc2: Arc<W>,
) -> (Option<PairFilterState<F::State, LabelFilterState>>, Arc<W>, Arc<W>) {
    let output = F::ahead_output(rule.inner);
    let carried = fs.fs2.label;
    let (arca, arcb) = in_machine_order(output, arc1, arc2);
    let here = if output {
        s1
    } else {
        s2
    };
    let label_a = side_label(arca, output);
    if side_label(arcb, !output) != NO_LABEL {
        // The other side has to be the implicit arc, which carries no label at all.
        (None, arc1, arc2)
    } else if label_a == carried {
        // The label is paid: what was a match becomes an epsilon, so it is not written
        // twice.
        let (arc1, arc2) = in_machine_order(output, relabelled(arca, output, EPSILON), arcb);
        (Some(owing_nothing(F::spec_start(rule.inner))), arc1, arc2)
    } else if label_a == EPSILON && (rule.side.arcs(here as int).len() == 1 || F::ahead_label(
        rule.inner,
        arca.nextstate,
        carried,
    )) {
        // Nowhere else to go, or the label can still be paid afterwards.
        (Some(fs), arc1, arc2)
    } else {
        (None, arc1, arc2)
    }
}

/// The filter state in which no label is owed.
pub open spec fn owing_nothing<FS>(fs1: FS) -> PairFilterState<FS, LabelFilterState> {
    PairFilterState { fs1, fs2: LabelFilterState { label: NO_LABEL } }
}

/// What becomes of a pair of arcs that the filter underneath let through: the one label
/// the look-ahead found is written, when there is one.
pub open spec fn label_pushed<W: Weight, FS>(
    flags: u32,
    output: bool,
    fs1: FS,
    found: LookAhead<W>,
    arc1: Arc<W>,
    arc2: Arc<W>,
) -> (PairFilterState<FS, LabelFilterState>, Arc<W>, Arc<W>) {
    let (arca, arcb) = in_machine_order(output, arc1, arc2);
    if side_label(arcb, output) != EPSILON {
        // The other side already writes something here; no room to push.
        (owing_nothing(fs1), arc1, arc2)
    } else if side_label(arca, output) != EPSILON && flagged(flags, LOOKAHEAD_NON_EPSILON_PREFIX) {
        // The matcher only reports a prefix for a non-epsilon match, so this one is not
        // the kind that may be pushed.
        (owing_nothing(fs1), arc1, arc2)
    } else {
        match found.prefix {
            None => (owing_nothing(fs1), arc1, arc2),
            Some(prefix) => {
                // The arc the look-ahead says must come next is taken now, and the
                // filter then owes the label it would have written.
                let owed = side_label(prefix, !output);
                let taken = Arc { weight: arcb.weight.spec_times(prefix.weight), ..prefix };
                let (arc1, arc2) = in_machine_order(
                    output,
                    relabelled(arca, output, owed),
                    taken,
                );
                (
                    PairFilterState { fs1, fs2: LabelFilterState { label: owed } },
                    arc1,
                    arc2,
                )
            },
        }
    }
}

/// What becomes of a pair of arcs.
pub open spec fn labels_moved<W: Weight, F: HasLookAhead<W>>(
    rule: PushRule<W, F::Rule>,
    s1: usize,
    s2: usize,
    fs: PairFilterState<F::State, LabelFilterState>,
    arc1: Arc<W>,
    arc2: Arc<W>,
) -> (Option<PairFilterState<F::State, LabelFilterState>>, Arc<W>, Arc<W>) {
    let flags = F::ahead_flags(rule.inner);
    if flagged(flags, LOOKAHEAD_PREFIX) && fs.fs2.label != NO_LABEL {
        paid::<W, F>(rule, s1, s2, fs, arc1, arc2)
    } else {
        let found = F::ahead(rule.inner, s1, s2, fs.fs1, arc1, arc2);
        let (next, arc1, arc2) = F::filtered(rule.inner, s1, s2, fs.fs1, arc1, arc2);
        match next {
            None => (None, arc1, arc2),
            Some(fs1) => if flagged(flags, LOOKAHEAD_PREFIX) && found is Some {
                let (fs, arc1, arc2) = label_pushed(
                    flags,
                    F::ahead_output(rule.inner),
                    fs1,
                    found->0,
                    arc1,
                    arc2,
                );
                (Some(fs), arc1, arc2)
            } else {
                (Some(owing_nothing(fs1)), arc1, arc2)
            },
        }
    }
}

/// What is found past a pair of arcs: nothing while a label is owed, since nothing is
/// looked at.
pub open spec fn ahead_of_labels<W: Weight, F: HasLookAhead<W>>(
    rule: PushRule<W, F::Rule>,
    s1: usize,
    s2: usize,
    fs: PairFilterState<F::State, LabelFilterState>,
    arc1: Arc<W>,
    arc2: Arc<W>,
) -> Option<LookAhead<W>> {
    if flagged(F::ahead_flags(rule.inner), LOOKAHEAD_PREFIX) && fs.fs2.label != NO_LABEL {
        None
    } else {
        F::ahead(rule.inner, s1, s2, fs.fs1, arc1, arc2)
    }
}

/// What is carried in a filter state, if anything is.
pub open spec fn owed_label(label: i32) -> Option<i32> {
    if label == NO_LABEL {
        None
    } else {
        Some(label)
    }
}

/// Puts another label on one side of an arc.
fn relabel<W>(arc: &mut Arc<W>, output: bool, label: i32)
    ensures
        *final(arc) == relabelled(*old(arc), output, label),
{
    if output {
        arc.olabel = label;
    } else {
        arc.ilabel = label;
    }
}

impl<'f, W: Weight, Inner: HasLookAhead<W>> PushLabelsComposeFilter<'f, W, Inner> {
    /// The filter underneath.
    pub closed spec fn under(&self) -> Inner {
        self.inner
    }

    /// The machine that the look-ahead matcher matches over.
    pub closed spec fn side(&self) -> FstV<W> {
        self.lookahead_side@
    }

    /// The place it has been put.
    pub closed spec fn put(&self) -> Option<
        (usize, usize, PairFilterState<Inner::State, LabelFilterState>),
    > {
        self.place
    }

    /// What the last pair of arcs was found to lead to.
    pub closed spec fn found(&self) -> Option<LookAhead<W>> {
        self.last
    }

    /// What the answers depend on.
    pub open spec fn depends_on(&self) -> PushRule<W, Inner::Rule> {
        PushRule { inner: self.under().rule(), side: self.side() }
    }

    /// Whether the filter is in order: the filter underneath stands where this does,
    /// and the machine is the one that the look-ahead matcher matches over.
    pub open spec fn in_order(&self) -> bool {
        let rule = self.under().rule();
        &&& self.under().wf()
        &&& self.side().n() == (if Inner::ahead_output(rule) {
            Inner::first(rule).spec_states()
        } else {
            Inner::second(rule).spec_states()
        })
        &&& self.put() matches Some(place) ==> {
            &&& self.under().place() == Some((place.0, place.1, place.2.fs1))
            &&& place.0 < Inner::first(rule).spec_states()
            &&& place.1 < Inner::second(rule).spec_states()
        }
    }

    /// Wraps `inner`.
    ///
    /// `lookahead_side` is the machine the look-ahead matcher matches over: the first
    /// when looking ahead on output labels, the second otherwise.
    pub fn new(inner: Inner, lookahead_side: &'f VectorFst<W>) -> (filter: Self)
        ensures
            filter.under() == inner,
            filter.side() == lookahead_side@,
            filter.put() is None,
            filter.found() is None,
    {
        PushLabelsComposeFilter { inner, lookahead_side, place: None, last: None }
    }

    /// The filter underneath.
    pub fn inner(&self) -> (inner: &Inner)
        ensures
            *inner == self.under(),
    {
        &self.inner
    }

    /// The label that is owed, if one is.
    fn carried(&self) -> (label: i32)
        requires
            self.put() is Some,
        ensures
            label == (self.put()->0).2.fs2.label,
    {
        match &self.place {
            Some(place) => place.2.fs2.label,
            None => NO_LABEL,
        }
    }

    /// Pays a label carried from an earlier arc.
    ///
    /// `arca` is the arc on the look-ahead side, `arcb` the other.
    fn pay_carried(&self, arca: &mut Arc<W>, arcb: &Arc<W>, output: bool) -> (next: Option<
        PairFilterState<Inner::State, LabelFilterState>,
    >)
        requires
            self.in_order(),
            self.put() is Some,
            output == Inner::ahead_output(self.under().rule()),
            old(arca).nextstate < self.side().n(),
        ensures
            ({
                let place = self.put()->0;
                let (arc1, arc2) = in_machine_order(output, *old(arca), *arcb);
                let (after1, after2) = in_machine_order(output, *final(arca), *arcb);
                (next, after1, after2) == paid::<W, Inner>(
                    self.depends_on(),
                    place.0,
                    place.1,
                    place.2,
                    arc1,
                    arc2,
                )
            }),
            final(arca).nextstate == old(arca).nextstate,
    {
        let carried: i32 = self.carried();
        let label_a: i32 = label_on(arca, output);
        // The other side has to be the implicit arc, which carries no label at all.
        if label_on(arcb, !output) != NO_LABEL {
            return None;
        }
        if label_a == carried {
            relabel(arca, output, EPSILON);
            return Some(
                PairFilterState::new(self.inner.start(), LabelFilterState::new(NO_LABEL)),
            );
        }
        if label_a != EPSILON {
            // Some other label, which does not pay what is owed.
            return None;
        }
        match &self.place {
            Some(place) => {
                let here: usize = if output {
                    place.0
                } else {
                    place.1
                };
                // Taking the epsilon is only allowed if there is nowhere else to go, or
                // if the label can still be paid afterwards.
                if self.lookahead_side.num_arcs(here) == 1 || self.inner.look_ahead_label_from(
                    arca.nextstate,
                    carried,
                ) {
                    Some(place.2.key_copy())
                } else {
                    None
                }
            },
            None => None,
        }
    }

    /// Writes the one label the look-ahead found, when there is one.
    fn push_label(
        &self,
        arca: &mut Arc<W>,
        arcb: &mut Arc<W>,
        output: bool,
        fs1: Inner::State,
        found: &LookAhead<W>,
    ) -> (next: PairFilterState<Inner::State, LabelFilterState>)
        requires
            self.under().wf(),
        ensures
            ({
                let (arc1, arc2) = in_machine_order(output, *old(arca), *old(arcb));
                let (after1, after2) = in_machine_order(output, *final(arca), *final(arcb));
                (next, after1, after2) == label_pushed(
                    Inner::ahead_flags(self.under().rule()),
                    output,
                    fs1,
                    *found,
                    arc1,
                    arc2,
                )
            }),
            final(arca).nextstate == old(arca).nextstate,
            final(arcb).nextstate == old(arcb).nextstate || (found.prefix matches Some(prefix)
                && final(arcb).nextstate == prefix.nextstate),
    {
        if label_on(arcb, output) != EPSILON {
            return PairFilterState::new(fs1, LabelFilterState::new(NO_LABEL));
        }
        if label_on(arca, output) != EPSILON && self.inner.lookahead_flags()
            & LOOKAHEAD_NON_EPSILON_PREFIX != 0 {
            return PairFilterState::new(fs1, LabelFilterState::new(NO_LABEL));
        }
        match &found.prefix {
            None => PairFilterState::new(fs1, LabelFilterState::new(NO_LABEL)),
            Some(prefix) => {
                let owed: i32 = label_on(prefix, !output);
                relabel(arca, output, owed);
                let weight = arcb.weight.times(&prefix.weight);
                *arcb = Arc::new(prefix.ilabel, prefix.olabel, weight, prefix.nextstate);
                PairFilterState::new(fs1, LabelFilterState::new(owed))
            },
        }
    }

    /// Filters a pair of arcs, moving the one label that must come next onto it.
    fn move_labels(&mut self, arc1: &mut Arc<W>, arc2: &mut Arc<W>) -> (next: Option<
        PairFilterState<Inner::State, LabelFilterState>,
    >)
        requires
            old(self).in_order(),
            old(self).put() is Some,
            old(arc1).nextstate < Inner::first(old(self).under().rule()).spec_states(),
            old(arc2).nextstate < Inner::second(old(self).under().rule()).spec_states(),
        ensures
            final(self).in_order(),
            final(self).depends_on() == old(self).depends_on(),
            final(self).put() == old(self).put(),
            ({
                let place = old(self).put()->0;
                let rule = old(self).depends_on();
                &&& (next, *final(arc1), *final(arc2)) == labels_moved::<W, Inner>(
                    rule,
                    place.0,
                    place.1,
                    place.2,
                    *old(arc1),
                    *old(arc2),
                )
                &&& final(self).found() == ahead_of_labels::<W, Inner>(
                    rule,
                    place.0,
                    place.1,
                    place.2,
                    *old(arc1),
                    *old(arc2),
                )
            }),
            final(arc1).nextstate < Inner::first(old(self).under().rule()).spec_states(),
            final(arc2).nextstate < Inner::second(old(self).under().rule()).spec_states(),
            final(self).found() matches Some(found) ==> (found.prefix matches Some(arc)
                ==> arc.nextstate < (if Inner::ahead_output(old(self).under().rule()) {
                Inner::second(old(self).under().rule()).spec_states()
            } else {
                Inner::first(old(self).under().rule()).spec_states()
            })),
    {
        let flags: u32 = self.inner.lookahead_flags();
        let output: bool = self.inner.lookahead_output();
        if flags & LOOKAHEAD_PREFIX != 0 && self.carried() != NO_LABEL {
            // A label is owed; this pair either pays it or waits.
            self.last = None;
            return if output {
                self.pay_carried(arc1, arc2, true)
            } else {
                self.pay_carried(arc2, arc1, false)
            };
        }
        let next = self.inner.filter_arc_ahead(arc1, arc2);
        self.last = match self.inner.last_lookahead() {
            Some(found) => Some(found.duplicate()),
            None => None,
        };
        let fs1 = match next {
            Some(fs1) => fs1,
            None => {
                return None;
            },
        };
        if flags & LOOKAHEAD_PREFIX == 0 {
            return Some(PairFilterState::new(fs1, LabelFilterState::new(NO_LABEL)));
        }
        match &self.last {
            Some(found) => {
                let next = if output {
                    self.push_label(arc1, arc2, true, fs1, found)
                } else {
                    self.push_label(arc2, arc1, false, fs1, found)
                };
                Some(next)
            },
            None => Some(PairFilterState::new(fs1, LabelFilterState::new(NO_LABEL))),
        }
    }
}

impl<'f, W: Weight, Inner: HasLookAhead<W>> ComposeFilter<W> for PushLabelsComposeFilter<
    'f,
    W,
    Inner,
> where Inner::Matcher1: MultiEpsLabels<W>, Inner::Matcher2: MultiEpsLabels<W> {
    type State = PairFilterState<Inner::State, LabelFilterState>;

    type Matcher1 = Inner::Matcher1;

    type Matcher2 = Inner::Matcher2;

    type Rule = PushRule<W, Inner::Rule>;

    open spec fn wf(&self) -> bool {
        self.in_order()
    }

    open spec fn rule(&self) -> Self::Rule {
        self.depends_on()
    }

    open spec fn place(&self) -> Option<(usize, usize, Self::State)> {
        self.put()
    }

    open spec fn first(rule: Self::Rule) -> Inner::Matcher1 {
        Inner::first(rule.inner)
    }

    open spec fn second(rule: Self::Rule) -> Inner::Matcher2 {
        Inner::second(rule.inner)
    }

    open spec fn spec_start(rule: Self::Rule) -> Self::State {
        owing_nothing(Inner::spec_start(rule.inner))
    }

    open spec fn filtered(
        rule: Self::Rule,
        s1: usize,
        s2: usize,
        fs: Self::State,
        arc1: Arc<W>,
        arc2: Arc<W>,
    ) -> (Option<Self::State>, Arc<W>, Arc<W>) {
        labels_moved::<W, Inner>(rule, s1, s2, fs, arc1, arc2)
    }

    open spec fn finals(
        rule: Self::Rule,
        s1: usize,
        s2: usize,
        fs: Self::State,
        w1: W,
        w2: W,
    ) -> (W, W) {
        let (w1, w2) = Inner::finals(rule.inner, s1, s2, fs.fs1, w1, w2);
        if flagged(Inner::ahead_flags(rule.inner), LOOKAHEAD_PREFIX) && fs.fs2.label != NO_LABEL {
            // A label still owed cannot be left unwritten, so this is not a place the
            // path may stop.
            (W::spec_zero(), w2)
        } else {
            (w1, w2)
        }
    }

    open spec fn matches1(rule: Self::Rule, fs: Self::State, s: usize, label: i32) -> Seq<Arc<W>> {
        if flagged(Inner::ahead_flags(rule.inner), LOOKAHEAD_PREFIX) {
            // The pushed label has to match the implicit arc standing for "already
            // written".
            Inner::first(rule.inner).spec_matches_with(only(owed_label(fs.fs2.label)), s, label)
        } else {
            Inner::matches1(rule.inner, fs.fs1, s, label)
        }
    }

    open spec fn matches2(rule: Self::Rule, fs: Self::State, s: usize, label: i32) -> Seq<Arc<W>> {
        if flagged(Inner::ahead_flags(rule.inner), LOOKAHEAD_PREFIX) {
            Inner::second(rule.inner).spec_matches_with(only(owed_label(fs.fs2.label)), s, label)
        } else {
            Inner::matches2(rule.inner, fs.fs1, s, label)
        }
    }

    open spec fn spec_properties(rule: Self::Rule, props: u64) -> u64 {
        if Inner::ahead_output(rule.inner) {
            Inner::spec_properties(rule.inner, props) & K_O_LABEL_INVARIANT_PROPERTIES
        } else {
            Inner::spec_properties(rule.inner, props) & K_I_LABEL_INVARIANT_PROPERTIES
        }
    }

    fn start(&self) -> (fs: Self::State) {
        PairFilterState::new(self.inner.start(), LabelFilterState::new(NO_LABEL))
    }

    fn set_state(&mut self, s1: usize, s2: usize, fs: &Self::State) {
        self.inner.set_state(s1, s2, &fs.fs1);
        self.place = Some((s1, s2, fs.key_copy()));
    }

    fn filter_arc(&mut self, arc1: &mut Arc<W>, arc2: &mut Arc<W>) -> (next: Option<Self::State>) {
        self.move_labels(arc1, arc2)
    }

    fn filter_final(&self, w1: &mut W, w2: &mut W) {
        self.inner.filter_final(w1, w2);
        if self.inner.lookahead_flags() & LOOKAHEAD_PREFIX != 0 && self.carried() != NO_LABEL {
            *w1 = W::zero();
        }
    }

    fn matcher1(&self) -> (m: &Inner::Matcher1) {
        self.inner.matcher1()
    }

    fn matcher2(&self) -> (m: &Inner::Matcher2) {
        self.inner.matcher2()
    }

    fn find1(&self, s: usize, label: i32) -> (arcs: Vec<Arc<W>>) {
        if self.inner.lookahead_flags() & LOOKAHEAD_PREFIX != 0 {
            let carried: i32 = self.carried();
            let owed: Option<i32> = if carried == NO_LABEL {
                None
            } else {
                Some(carried)
            };
            self.inner.matcher1().matches_with(owed, s, label)
        } else {
            self.inner.find1(s, label)
        }
    }

    fn find2(&self, s: usize, label: i32) -> (arcs: Vec<Arc<W>>) {
        if self.inner.lookahead_flags() & LOOKAHEAD_PREFIX != 0 {
            let carried: i32 = self.carried();
            let owed: Option<i32> = if carried == NO_LABEL {
                None
            } else {
                Some(carried)
            };
            self.inner.matcher2().matches_with(owed, s, label)
        } else {
            self.inner.find2(s, label)
        }
    }

    fn properties(&self, props: u64) -> (out: u64) {
        let out: u64 = self.inner.properties(props);
        if self.inner.lookahead_output() {
            out & K_O_LABEL_INVARIANT_PROPERTIES
        } else {
            out & K_I_LABEL_INVARIANT_PROPERTIES
        }
    }
}

impl<'f, W: Weight, Inner: HasLookAhead<W>> HasLookAhead<W> for PushLabelsComposeFilter<
    'f,
    W,
    Inner,
> where Inner::Matcher1: MultiEpsLabels<W>, Inner::Matcher2: MultiEpsLabels<W> {
    open spec fn ahead_flags(rule: Self::Rule) -> u32 {
        Inner::ahead_flags(rule.inner)
    }

    open spec fn ahead_output(rule: Self::Rule) -> bool {
        Inner::ahead_output(rule.inner)
    }

    open spec fn ahead(
        rule: Self::Rule,
        s1: usize,
        s2: usize,
        fs: Self::State,
        arc1: Arc<W>,
        arc2: Arc<W>,
    ) -> Option<LookAhead<W>> {
        ahead_of_labels::<W, Inner>(rule, s1, s2, fs, arc1, arc2)
    }

    open spec fn ahead_label(rule: Self::Rule, state: usize, label: i32) -> bool {
        Inner::ahead_label(rule.inner, state, label)
    }

    open spec fn last(&self) -> Option<LookAhead<W>> {
        self.found()
    }

    fn lookahead_flags(&self) -> (flags: u32) {
        self.inner.lookahead_flags()
    }

    fn lookahead_output(&self) -> (output: bool) {
        self.inner.lookahead_output()
    }

    fn filter_arc_ahead(&mut self, arc1: &mut Arc<W>, arc2: &mut Arc<W>) -> (next: Option<
        Self::State,
    >) {
        self.move_labels(arc1, arc2)
    }

    fn last_lookahead(&self) -> (found: Option<&LookAhead<W>>) {
        match &self.last {
            Some(found) => Some(found),
            None => None,
        }
    }

    fn look_ahead_label_from(&self, state: usize, label: i32) -> (b: bool) {
        self.inner.look_ahead_label_from(state, label)
    }
}

} // verus!
