//! Matchers that can say, before an arc is followed, whether it leads anywhere.
//!
//! Composition builds a state for every pair it can reach, and most of them turn out
//! to lead nowhere; a look-ahead matcher is asked "from this state of mine, can
//! anything still match what is over there?" before the pair is built at all.
//!
//! The flags describe how well it answers: whether it can say anything about the
//! input side, the output side, the weight of what it found, or the single arc that
//! must be taken next.
use crate::accumulator::WeightAccumulator;
use crate::arc::{Arc, EPSILON, NO_LABEL};
use crate::error::OpenFstError;
use crate::label_reachable::{hit_span, hit_sum, LabelReachable, LabelReachableData, ReachV};
use crate::matcher::{label_on, said_sorted, side_label, sorted_by, MatchType, Matcher};
use crate::vector_fst::{FstV, VectorFst};
use crate::weight::Weight;
use std::rc::Rc;
use vstd::prelude::*;

verus! {

/// The matcher can look ahead on the input side.
pub const INPUT_LOOKAHEAD_MATCHER: u32 = 0x0000_0010;

/// The matcher can look ahead on the output side.
pub const OUTPUT_LOOKAHEAD_MATCHER: u32 = 0x0000_0020;

/// It reports what the arcs it found weigh together.
pub const LOOKAHEAD_WEIGHT: u32 = 0x0000_0040;

/// It reports the one arc that has to be taken, when there is only one.
pub const LOOKAHEAD_PREFIX: u32 = 0x0000_0080;

/// It looks ahead over the arcs carrying a label.
pub const LOOKAHEAD_NON_EPSILONS: u32 = 0x0000_0100;

/// It looks ahead over the epsilon arcs.
pub const LOOKAHEAD_EPSILONS: u32 = 0x0000_0200;

/// A prefix arc is only reported for a non-epsilon match.
pub const LOOKAHEAD_NON_EPSILON_PREFIX: u32 = 0x0000_0400;

/// The relabelling the index was built with is kept, so it can be applied to the
/// other side.
pub const LOOKAHEAD_KEEP_RELABEL_DATA: u32 = 0x0000_0800;

/// Every flag above.
pub const LOOKAHEAD_FLAGS: u32 = 0x0000_0ff0;

/// The flags a label look-ahead matcher has by default.
pub const DEFAULT_LABEL_LOOKAHEAD_FLAGS: u32 = LOOKAHEAD_EPSILONS | LOOKAHEAD_WEIGHT
    | LOOKAHEAD_PREFIX | LOOKAHEAD_NON_EPSILON_PREFIX | LOOKAHEAD_KEEP_RELABEL_DATA;

/// Whether a flag is set.
pub open spec fn flagged(flags: u32, flag: u32) -> bool {
    flags & flag != 0
}

/// What a look-ahead found.
#[derive(Debug)]
pub struct LookAhead<W> {
    /// Whether anything can still match.
    pub reachable: bool,
    /// What the arcs that matched weigh together, when the matcher reports it.
    pub weight: W,
    /// The one arc that has to be taken next, when there is exactly one and the
    /// matcher reports it.
    pub prefix: Option<Arc<W>>,
}

impl<W: Weight> LookAhead<W> {
    /// Something can match, or nothing can, with nothing more said about it.
    pub open spec fn just(reachable: bool) -> Self {
        LookAhead { reachable, weight: W::spec_one(), prefix: None }
    }

    /// Nothing can match.
    fn nothing() -> (found: Self)
        ensures
            found == Self::just(false),
    {
        LookAhead { reachable: false, weight: W::one(), prefix: None }
    }

    /// Something can match, with nothing more said about it.
    fn anything() -> (found: Self)
        ensures
            found == Self::just(true),
    {
        LookAhead { reachable: true, weight: W::one(), prefix: None }
    }

    /// A copy of what was found.
    pub fn duplicate(&self) -> (found: Self)
        ensures
            found == *self,
    {
        LookAhead {
            reachable: self.reachable,
            weight: self.weight.duplicate(),
            prefix: match &self.prefix {
                Some(arc) => Some(arc.duplicate()),
                None => None,
            },
        }
    }
}

/// A matcher that can be asked about the future before it is walked.
pub trait LookAheadMatcher<W: Weight>: Matcher<W> {
    /// What this matcher can say; see the flags.
    spec fn spec_flags(&self) -> u32;

    /// What can still match, from state `here` against state `state` of `v`.
    spec fn spec_look_ahead(&self, here: usize, v: FstV<W>, state: usize) -> LookAhead<W>;

    /// Whether `label` could still be matched from `here`, without looking at the
    /// other machine at all.
    spec fn spec_look_ahead_label(&self, here: usize, label: i32) -> bool;

    /// What this matcher can say; see the flags.
    fn lookahead_flags(&self) -> (flags: u32)
        requires
            self.wf(),
        ensures
            flags == self.spec_flags(),
    ;

    /// What can still match, from state `here` against state `state` of `fst`.
    fn look_ahead(&self, here: usize, fst: &VectorFst<W>, state: usize) -> (found: LookAhead<W>)
        requires
            self.wf(),
            here < self.spec_states(),
            fst@.wf(),
            state < fst@.n(),
        ensures
            found == self.spec_look_ahead(here, fst@, state),
            found.prefix matches Some(arc) ==> arc.nextstate < fst@.n(),
    ;

    /// Whether `label` could still be matched from `here`, without looking at the
    /// other machine at all.
    fn look_ahead_label(&self, here: usize, label: i32) -> (b: bool)
        requires
            self.wf(),
            here < self.spec_states(),
        ensures
            b == self.spec_look_ahead_label(here, label),
    ;
}

/// Says the future looks good without looking.
///
/// The matcher to use where composition wants to be written once against a look-ahead
/// interface but the machine has no index to answer from.
pub struct TrivialLookAheadMatcher<M> {
    inner: M,
}

impl<M> TrivialLookAheadMatcher<M> {
    /// The matcher underneath.
    pub closed spec fn under(&self) -> M {
        self.inner
    }

    /// Wraps `inner`.
    pub fn new(inner: M) -> (m: Self)
        ensures
            m.under() == inner,
    {
        TrivialLookAheadMatcher { inner }
    }

    /// The matcher underneath.
    pub fn inner(&self) -> (m: &M)
        ensures
            *m == self.under(),
    {
        &self.inner
    }
}

impl<W: Weight, M: Matcher<W>> Matcher<W> for TrivialLookAheadMatcher<M> {
    open spec fn wf(&self) -> bool {
        self.under().wf()
    }

    open spec fn spec_states(&self) -> nat {
        self.under().spec_states()
    }

    open spec fn spec_match_type(&self) -> MatchType {
        self.under().spec_match_type()
    }

    open spec fn spec_matches(&self, s: usize, label: i32) -> Seq<Arc<W>> {
        self.under().spec_matches(s, label)
    }

    open spec fn spec_priority(&self, s: usize) -> Option<usize> {
        self.under().spec_priority(s)
    }

    fn match_type(&self) -> (t: MatchType) {
        self.inner.match_type()
    }

    fn matches(&self, s: usize, label: i32) -> (arcs: Vec<Arc<W>>) {
        self.inner.matches(s, label)
    }

    fn priority(&self, s: usize) -> (p: Option<usize>) {
        self.inner.priority(s)
    }
}

impl<W: Weight, M: Matcher<W>> LookAheadMatcher<W> for TrivialLookAheadMatcher<M> {
    open spec fn spec_flags(&self) -> u32 {
        INPUT_LOOKAHEAD_MATCHER | OUTPUT_LOOKAHEAD_MATCHER
    }

    open spec fn spec_look_ahead(&self, here: usize, v: FstV<W>, state: usize) -> LookAhead<W> {
        LookAhead::just(true)
    }

    open spec fn spec_look_ahead_label(&self, here: usize, label: i32) -> bool {
        true
    }

    fn lookahead_flags(&self) -> (flags: u32) {
        INPUT_LOOKAHEAD_MATCHER | OUTPUT_LOOKAHEAD_MATCHER
    }

    fn look_ahead(&self, _here: usize, _fst: &VectorFst<W>, _state: usize) -> (found: LookAhead<W>) {
        LookAhead::anything()
    }

    fn look_ahead_label(&self, _here: usize, _label: i32) -> (b: bool) {
        true
    }
}

/// Looks ahead one arc at a time, by asking the matcher about each arc leaving the
/// other side's state.
///
/// Needs nothing precomputed, and so costs the other state's out-degree per question;
/// [`LabelLookAheadMatcher`] answers from an index instead.
pub struct ArcLookAheadMatcher<'f, W, M> {
    inner: M,
    fst: &'f VectorFst<W>,
    flags: u32,
}

/// What looking ahead has come to so far.
#[verifier::ext_equal]
pub struct Outlook<W> {
    /// Whether anything can still match.
    pub reachable: bool,
    /// What was found weighs together.
    pub sum: W,
    /// How many ways forward there are.
    pub ways: nat,
    /// The arc that was the one way forward when it was met.
    pub prefix: Option<Arc<W>>,
}

/// What a matcher finds at a state; nothing where it matches neither side.
pub open spec fn found_at<W: Weight, M: Matcher<W>>(m: M, here: usize, label: i32) -> Seq<Arc<W>> {
    if m.spec_match_type() is Neither {
        Seq::empty()
    } else {
        m.spec_matches(here, label)
    }
}

/// The label of an arc of the other side that meets the side a matcher is on.
pub open spec fn meeting_label<W>(arc: Arc<W>, side: MatchType) -> i32 {
    side_label(arc, side is Input)
}

/// Whether a matcher can be asked about single labels: it matches one side.
pub open spec fn one_sided(side: MatchType) -> bool {
    side is Input || side is Output
}

/// The weights of the first `k` arcs, added to `sum`.
pub open spec fn added_weights<W: Weight>(sum: W, arcs: Seq<Arc<W>>, k: int) -> W
    decreases k,
{
    if k <= 0 {
        sum
    } else {
        added_weights(sum, arcs, k - 1).spec_plus(arcs[k - 1].weight)
    }
}

/// The outlook with the first `k` of the arcs found for `arc`.
pub open spec fn with_matches<W: Weight>(
    flags: u32,
    outlook: Outlook<W>,
    arc: Arc<W>,
    found: Seq<Arc<W>>,
    k: int,
) -> Outlook<W>
    decreases k,
{
    if k <= 0 {
        outlook
    } else {
        let before = with_matches(flags, outlook, arc, found, k - 1);
        Outlook {
            reachable: true,
            sum: if flagged(flags, LOOKAHEAD_WEIGHT) {
                before.sum.spec_plus(arc.weight.spec_times(found[k - 1].weight))
            } else {
                before.sum
            },
            ways: before.ways + 1,
            prefix: if flagged(flags, LOOKAHEAD_PREFIX) && before.ways == 0 {
                Some(arc)
            } else {
                before.prefix
            },
        }
    }
}

/// The outlook with the first `k` arcs of the other side.
pub open spec fn with_arcs<W: Weight, M: Matcher<W>>(
    m: M,
    flags: u32,
    here: usize,
    outlook: Outlook<W>,
    arcs: Seq<Arc<W>>,
    k: int,
) -> Outlook<W>
    decreases k,
{
    if k <= 0 {
        outlook
    } else {
        let before = with_arcs(m, flags, here, outlook, arcs, k - 1);
        let arc = arcs[k - 1];
        let label = meeting_label(arc, m.spec_match_type());
        if label == EPSILON {
            Outlook {
                reachable: true,
                sum: if flagged(flags, LOOKAHEAD_WEIGHT) {
                    before.sum.spec_plus(arc.weight)
                } else {
                    before.sum
                },
                ways: if flagged(flags, LOOKAHEAD_NON_EPSILON_PREFIX) {
                    before.ways
                } else {
                    before.ways + 1
                },
                prefix: before.prefix,
            }
        } else {
            let found = found_at(m, here, label);
            with_matches(flags, before, arc, found, found.len() as int)
        }
    }
}

/// The outlook before the arcs of the other side: both sides can stop, or the
/// matcher's own epsilons go forward without the other side moving.
pub open spec fn at_rest<W: Weight, M: Matcher<W>>(
    m: M,
    flags: u32,
    here: usize,
    here_final: W,
    there_final: W,
) -> Outlook<W> {
    let ends = here_final != W::spec_zero() && there_final != W::spec_zero();
    let own = found_at(m, here, NO_LABEL);
    let ended = Outlook {
        reachable: ends,
        sum: if ends && flagged(flags, LOOKAHEAD_WEIGHT) {
            W::spec_zero().spec_plus(here_final.spec_times(there_final))
        } else {
            W::spec_zero()
        },
        ways: if ends {
            1nat
        } else {
            0nat
        },
        prefix: None,
    };
    if own.len() == 0 {
        ended
    } else {
        Outlook {
            reachable: true,
            sum: if flagged(flags, LOOKAHEAD_WEIGHT) {
                added_weights(ended.sum, own, own.len() as int)
            } else {
                ended.sum
            },
            ways: ended.ways + 1,
            prefix: None,
        }
    }
}

/// What an outlook is reported as.
pub open spec fn reported<W: Weight>(flags: u32, outlook: Outlook<W>) -> LookAhead<W> {
    LookAhead {
        reachable: outlook.reachable,
        weight: if flagged(flags, LOOKAHEAD_PREFIX) && outlook.ways == 1 {
            // The prefix says everything; reporting the weight too would count it
            // twice.
            W::spec_one()
        } else if flagged(flags, LOOKAHEAD_WEIGHT) && outlook.reachable {
            outlook.sum
        } else {
            W::spec_one()
        },
        prefix: if flagged(flags, LOOKAHEAD_PREFIX) && outlook.ways == 1 {
            outlook.prefix
        } else {
            None
        },
    }
}

/// What looking ahead arc by arc finds.
pub open spec fn arc_outlook<W: Weight, M: Matcher<W>>(
    m: M,
    flags: u32,
    u: FstV<W>,
    here: usize,
    v: FstV<W>,
    state: usize,
) -> LookAhead<W> {
    let rest = at_rest(m, flags, here, u.fin(here as int), v.fin(state as int));
    let arcs = v.arcs(state as int);
    if arcs.len() > 0 && !one_sided(m.spec_match_type()) {
        LookAhead::just(true)
    } else {
        reported(flags, with_arcs(m, flags, here, rest, arcs, arcs.len() as int))
    }
}

/// A number, where more than two is as good as two.
spec fn at_most_two(n: nat) -> u8 {
    if n >= 2 {
        2
    } else {
        n as u8
    }
}

/// What can match still can, however much more is looked at.
proof fn lemma_reachable_stays<W: Weight, M: Matcher<W>>(
    m: M,
    flags: u32,
    here: usize,
    outlook: Outlook<W>,
    arcs: Seq<Arc<W>>,
    j: int,
    k: int,
)
    requires
        0 <= j <= k <= arcs.len(),
        with_arcs(m, flags, here, outlook, arcs, j).reachable,
    ensures
        with_arcs(m, flags, here, outlook, arcs, k).reachable,
    decreases k,
{
    if j < k {
        lemma_reachable_stays(m, flags, here, outlook, arcs, j, k - 1);
        let before = with_arcs(m, flags, here, outlook, arcs, k - 1);
        let arc = arcs[k - 1];
        let label = meeting_label(arc, m.spec_match_type());
        let found = found_at(m, here, label);
        lemma_matches_reach(flags, before, arc, found, found.len() as int);
    }
}

/// What matches makes something reachable, and nothing makes less so.
proof fn lemma_matches_reach<W: Weight>(
    flags: u32,
    outlook: Outlook<W>,
    arc: Arc<W>,
    found: Seq<Arc<W>>,
    k: int,
)
    requires
        0 <= k <= found.len(),
    ensures
        with_matches(flags, outlook, arc, found, k).reachable == (outlook.reachable || k > 0),
    decreases k,
{
    if k > 0 {
        lemma_matches_reach(flags, outlook, arc, found, k - 1);
    }
}

impl<'f, W: Weight, M: Matcher<W>> ArcLookAheadMatcher<'f, W, M> {
    /// The matcher underneath.
    pub closed spec fn under(&self) -> M {
        self.inner
    }

    /// The machine that is matched.
    pub closed spec fn machine(&self) -> FstV<W> {
        self.fst@
    }

    /// What it reports.
    pub closed spec fn reports(&self) -> u32 {
        self.flags
    }

    /// Wraps `inner` over `fst`, reporting `flags`.
    pub fn with_flags(fst: &'f VectorFst<W>, inner: M, flags: u32) -> (m: Self)
        ensures
            m.under() == inner,
            m.machine() == fst@,
            m.reports() == flags,
    {
        ArcLookAheadMatcher { inner, fst, flags }
    }

    /// Wraps `inner` over `fst`, reporting what it can.
    pub fn new(fst: &'f VectorFst<W>, inner: M) -> (m: Self)
        ensures
            m.under() == inner,
            m.machine() == fst@,
            m.reports() == LOOKAHEAD_WEIGHT | LOOKAHEAD_PREFIX | LOOKAHEAD_EPSILONS
                | LOOKAHEAD_NON_EPSILONS,
    {
        ArcLookAheadMatcher {
            inner,
            fst,
            flags: LOOKAHEAD_WEIGHT | LOOKAHEAD_PREFIX | LOOKAHEAD_EPSILONS | LOOKAHEAD_NON_EPSILONS,
        }
    }

    /// What the matcher finds; nothing where it matches neither side.
    fn find(&self, here: usize, label: i32) -> (found: Vec<Arc<W>>)
        requires
            self.inner.wf(),
            here < self.inner.spec_states(),
        ensures
            found@ == found_at(self.inner, here, label),
    {
        match self.inner.match_type() {
            MatchType::Neither => Vec::new(),
            _ => self.inner.matches(here, label),
        }
    }
}

impl<'f, W: Weight, M: Matcher<W>> Matcher<W> for ArcLookAheadMatcher<'f, W, M> {
    open spec fn wf(&self) -> bool {
        self.under().wf() && self.under().spec_states() == self.machine().n()
    }

    open spec fn spec_states(&self) -> nat {
        self.under().spec_states()
    }

    open spec fn spec_match_type(&self) -> MatchType {
        self.under().spec_match_type()
    }

    open spec fn spec_matches(&self, s: usize, label: i32) -> Seq<Arc<W>> {
        self.under().spec_matches(s, label)
    }

    open spec fn spec_priority(&self, s: usize) -> Option<usize> {
        self.under().spec_priority(s)
    }

    fn match_type(&self) -> (t: MatchType) {
        self.inner.match_type()
    }

    fn matches(&self, s: usize, label: i32) -> (arcs: Vec<Arc<W>>) {
        self.inner.matches(s, label)
    }

    fn priority(&self, s: usize) -> (p: Option<usize>) {
        self.inner.priority(s)
    }
}

impl<'f, W: Weight, M: Matcher<W>> LookAheadMatcher<W> for ArcLookAheadMatcher<'f, W, M> {
    open spec fn spec_flags(&self) -> u32 {
        self.reports() | INPUT_LOOKAHEAD_MATCHER | OUTPUT_LOOKAHEAD_MATCHER
    }

    open spec fn spec_look_ahead(&self, here: usize, v: FstV<W>, state: usize) -> LookAhead<W> {
        arc_outlook(self.under(), self.reports(), self.machine(), here, v, state)
    }

    open spec fn spec_look_ahead_label(&self, here: usize, label: i32) -> bool {
        label == EPSILON || found_at(self.under(), here, label).len() > 0
    }

    fn lookahead_flags(&self) -> (flags: u32) {
        self.flags | INPUT_LOOKAHEAD_MATCHER | OUTPUT_LOOKAHEAD_MATCHER
    }

    fn look_ahead(&self, here: usize, fst: &VectorFst<W>, state: usize) -> (found: LookAhead<W>) {
        let ghost v = fst@;
        let ghost m = self.inner;
        let flags: u32 = self.flags;
        let weigh: bool = flags & LOOKAHEAD_WEIGHT != 0;
        let single: bool = flags & LOOKAHEAD_PREFIX != 0;
        let detailed: bool = weigh || single;
        let zero = W::zero();
        let mut reachable: bool = false;
        let mut sum = W::zero();
        // How many ways forward there are: a prefix arc is only worth reporting when
        // there is exactly one.
        let mut ways: u8 = 0;
        let mut prefix: Option<Arc<W>> = None;

        // Both sides can stop here, which is a way forward in itself.
        let here_final = self.fst.final_weight(here);
        let there_final = fst.final_weight(state);
        if !here_final.same(&zero) && !there_final.same(&zero) {
            ways = 1;
            if weigh {
                sum = sum.plus(&here_final.times(&there_final));
            }
            reachable = true;
        }

        // An implicit match, the one the matcher offers for "no label", goes forward
        // without the other side moving.
        let own = self.find(here, NO_LABEL);
        if own.len() > 0 {
            ways = ways + 1;
            if weigh {
                let ghost from = sum;
                let mut i: usize = 0;
                while i < own.len()
                    invariant
                        i <= own@.len(),
                        sum == added_weights(from, own@, i as int),
                    decreases own@.len() - i,
                {
                    sum = sum.plus(&own[i].weight);
                    i += 1;
                }
            }
            reachable = true;
        }
        let ghost rest = at_rest(m, flags, here, self.fst@.fin(here as int), v.fin(state as int));
        assert(rest == (Outlook { reachable, sum, ways: ways as nat, prefix }));
        let arcs = fst.arcs(state);
        let side = self.inner.match_type();
        let by_output: bool = match side {
            MatchType::Input => true,
            MatchType::Output => false,
            _ => {
                if arcs.len() > 0 {
                    return LookAhead::anything();
                }
                false
            },
        };
        let mut k: usize = 0;
        while k < arcs.len()
            invariant
                v == fst@,
                v.wf(),
                state < v.n(),
                m == self.inner,
                m.wf(),
                here < m.spec_states(),
                arcs@ == v.arcs(state as int),
                k <= arcs@.len(),
                arcs@.len() > 0 ==> one_sided(m.spec_match_type()),
                by_output == (m.spec_match_type() is Input),
                flags == self.flags,
                weigh == flagged(flags, LOOKAHEAD_WEIGHT),
                single == flagged(flags, LOOKAHEAD_PREFIX),
                detailed == (weigh || single),
                is_outlook(
                    with_arcs(m, flags, here, rest, arcs@, k as int),
                    reachable,
                    sum,
                    ways,
                    prefix,
                ),
                prefix matches Some(arc) ==> arc.nextstate < v.n(),
                self.spec_look_ahead(here, v, state) == reported(
                    flags,
                    with_arcs(m, flags, here, rest, arcs@, arcs@.len() as int),
                ),
            decreases arcs@.len() - k,
        {
            if reachable && !detailed {
                proof {
                    lemma_reachable_stays(
                        m,
                        flags,
                        here,
                        rest,
                        arcs@,
                        k as int,
                        arcs@.len() as int,
                    );
                }
                return LookAhead::anything();
            }
            let arc = &arcs[k];
            assert(v.states[state as int].arcs[k as int].nextstate < v.n());
            let label: i32 = label_on(arc, by_output);
            let ghost before = with_arcs(m, flags, here, rest, arcs@, k as int);
            if label == EPSILON {
                if flags & LOOKAHEAD_NON_EPSILON_PREFIX == 0 {
                    ways = if ways < 2 {
                        ways + 1
                    } else {
                        2
                    };
                }
                if weigh {
                    sum = sum.plus(&arc.weight);
                }
                reachable = true;
            } else {
                let found = self.find(here, label);
                let mut i: usize = 0;
                while i < found.len()
                    invariant
                        i <= found@.len(),
                        *arc == arcs@[k as int],
                        arc.nextstate < v.n(),
                        weigh == flagged(flags, LOOKAHEAD_WEIGHT),
                        single == flagged(flags, LOOKAHEAD_PREFIX),
                        is_outlook(
                            with_matches(flags, before, *arc, found@, i as int),
                            reachable,
                            sum,
                            ways,
                            prefix,
                        ),
                        prefix matches Some(arc) ==> arc.nextstate < v.n(),
                    decreases found@.len() - i,
                {
                    if single && ways == 0 {
                        prefix = Some(arc.duplicate());
                    }
                    ways = if ways < 2 {
                        ways + 1
                    } else {
                        2
                    };
                    if weigh {
                        sum = sum.plus(&arc.weight.times(&found[i].weight));
                    }
                    reachable = true;
                    i += 1;
                }
            }
            k += 1;
        }
        let mut ahead = LookAhead::nothing();
        ahead.reachable = reachable;
        if weigh && reachable {
            ahead.weight = sum;
        }
        if single && ways == 1 {
            // The prefix says everything; reporting the weight too would count it
            // twice.
            ahead.weight = W::one();
            ahead.prefix = prefix;
        }
        ahead
    }

    fn look_ahead_label(&self, here: usize, label: i32) -> (b: bool) {
        if label == EPSILON {
            return true;
        }
        self.find(here, label).len() > 0
    }
}

/// Whether an outlook is what the parts say, more than two ways counted as two.
spec fn is_outlook<W>(
    outlook: Outlook<W>,
    reachable: bool,
    sum: W,
    ways: u8,
    prefix: Option<Arc<W>>,
) -> bool {
    &&& outlook.reachable == reachable
    &&& outlook.sum == sum
    &&& ways == at_most_two(outlook.ways)
    &&& outlook.prefix == prefix
}

/// Looks ahead from an index of which labels each state can still reach.
///
/// One question costs a walk over the other state's arcs against a handful of
/// intervals, rather than a search per arc. That is the question [`LabelReachable`] is
/// built to answer.
pub struct LabelLookAheadMatcher<W, M, Acc> {
    inner: M,
    reachable: Option<LabelReachable<W, Acc>>,
    flags: u32,
}

/// What looking ahead from an index finds.
pub open spec fn index_outlook<W: Weight>(
    flags: u32,
    adder: spec_fn(W, W) -> W,
    r: ReachV,
    here: usize,
    v: FstV<W>,
    state: usize,
    input: bool,
) -> LookAhead<W> {
    let arcs = v.arcs(state as int);
    let span = hit_span(r, Some(here), arcs, input, 0, arcs.len() as int);
    let there_final = v.fin(state as int);
    let ends = there_final != W::spec_zero() && r.reaches_final(Some(here));
    let weigh = flagged(flags, LOOKAHEAD_WEIGHT);
    match span {
        Some((first, last)) => if flagged(flags, LOOKAHEAD_PREFIX) && last - first == 1 && !ends {
            // Exactly one way forward: the arc says everything, so the weight would
            // be counting it twice.
            LookAhead {
                reachable: true,
                weight: W::spec_one(),
                prefix: Some(arcs[first as int]),
            }
        } else if weigh {
            let sum = hit_sum(adder, r, Some(here), arcs, input, first as int, last as int);
            LookAhead {
                reachable: true,
                weight: if ends {
                    sum.spec_plus(there_final)
                } else {
                    sum
                },
                prefix: None,
            }
        } else {
            LookAhead::just(true)
        },
        None => LookAhead {
            reachable: ends,
            weight: if ends && weigh {
                there_final
            } else {
                W::spec_one()
            },
            prefix: None,
        },
    }
}

impl<W: Weight, M: Matcher<W>, Acc: WeightAccumulator<W>> LabelLookAheadMatcher<W, M, Acc> {
    /// The matcher underneath.
    pub closed spec fn under(&self) -> M {
        self.inner
    }

    /// The index, if there is one.
    pub closed spec fn index(&self) -> Option<LabelReachable<W, Acc>> {
        self.reachable
    }

    /// What it reports.
    pub closed spec fn reports(&self) -> u32 {
        self.flags
    }

    /// Builds the index over `fst` and wraps `inner`.
    ///
    /// `flags` says what the matcher will report; it has to name exactly one of
    /// [`INPUT_LOOKAHEAD_MATCHER`] and [`OUTPUT_LOOKAHEAD_MATCHER`], which is the side
    /// the index is built over.
    pub fn new(
        fst: &VectorFst<W>,
        inner: M,
        match_type: MatchType,
        flags: u32,
        accumulator: Acc,
    ) -> (result: Result<Self, OpenFstError>)
        requires
            fst@.wf(),
        ensures
            result is Ok <==> flagged(flags, INPUT_LOOKAHEAD_MATCHER) != flagged(
                flags,
                OUTPUT_LOOKAHEAD_MATCHER,
            ),
            result matches Err(e) ==> e == OpenFstError::InvalidOperation(
                "LabelLookAheadMatcher: the flags have to name exactly one of the input and output sides",
            ),
            result matches Ok(m) ==> {
                &&& m.under() == inner
                &&& m.reports() == flags
                &&& m.index() is Some <==> (match_type is Input) == flagged(
                    flags,
                    INPUT_LOOKAHEAD_MATCHER,
                )
                &&& m.index() matches Some(r) ==> {
                    &&& r.table().wf()
                    &&& r.table()@.reach_input == (match_type is Input)
                    &&& r.table()@.describes(fst@)
                    &&& r.acc() == accumulator
                }
            },
    {
        let input: bool = flags & INPUT_LOOKAHEAD_MATCHER != 0;
        let output: bool = flags & OUTPUT_LOOKAHEAD_MATCHER != 0;
        if input == output {
            return Err(
                OpenFstError::InvalidOperation(
                    "LabelLookAheadMatcher: the flags have to name exactly one of the input and output sides",
                ),
            );
        }
        // The index is over the side the matcher matches on: a matcher looking up
        // input labels asks what input labels are still reachable.
        let reach_input: bool = match match_type {
            MatchType::Input => true,
            _ => false,
        };
        let reachable = if (reach_input && input) || (!reach_input && output) {
            Some(LabelReachable::with_accumulator(fst, reach_input, accumulator))
        } else {
            None
        };
        Ok(LabelLookAheadMatcher { inner, reachable, flags })
    }

    /// Wraps `inner` with no index: every look-ahead is answered with "yes".
    pub fn without_index(inner: M) -> (m: Self)
        ensures
            m.under() == inner,
            m.reports() == DEFAULT_LABEL_LOOKAHEAD_FLAGS,
            m.index() is None,
    {
        LabelLookAheadMatcher { inner, reachable: None, flags: DEFAULT_LABEL_LOOKAHEAD_FLAGS }
    }

    /// Reuses an index already built.
    pub fn from_data(data: Rc<LabelReachableData>, inner: M, flags: u32, accumulator: Acc) -> (m:
        Self)
        ensures
            m.under() == inner,
            m.reports() == flags,
            m.index() matches Some(r) && r.table() == *data && r.acc() == accumulator,
    {
        LabelLookAheadMatcher {
            inner,
            reachable: Some(LabelReachable::from_data(data, accumulator)),
            flags,
        }
    }

    /// The index, which several matchers can share.
    pub fn data(&self) -> (data: Option<&Rc<LabelReachableData>>)
        ensures
            data is Some <==> self.index() is Some,
            data matches Some(data) ==> **data == (self.index()->0).table(),
    {
        match &self.reachable {
            Some(reachable) => Some(reachable.data()),
            None => None,
        }
    }
}

impl<W: Weight, M: Matcher<W>, Acc: WeightAccumulator<W>> Matcher<W> for LabelLookAheadMatcher<
    W,
    M,
    Acc,
> {
    open spec fn wf(&self) -> bool {
        self.under().wf() && (self.index() matches Some(r) ==> r.table().wf())
    }

    open spec fn spec_states(&self) -> nat {
        self.under().spec_states()
    }

    open spec fn spec_match_type(&self) -> MatchType {
        self.under().spec_match_type()
    }

    open spec fn spec_matches(&self, s: usize, label: i32) -> Seq<Arc<W>> {
        self.under().spec_matches(s, label)
    }

    open spec fn spec_priority(&self, s: usize) -> Option<usize> {
        self.under().spec_priority(s)
    }

    fn match_type(&self) -> (t: MatchType) {
        self.inner.match_type()
    }

    fn matches(&self, s: usize, label: i32) -> (arcs: Vec<Arc<W>>) {
        self.inner.matches(s, label)
    }

    fn priority(&self, s: usize) -> (p: Option<usize>) {
        self.inner.priority(s)
    }
}

impl<W: Weight, M: Matcher<W>, Acc: WeightAccumulator<W>> LookAheadMatcher<
    W,
> for LabelLookAheadMatcher<W, M, Acc> {
    open spec fn spec_flags(&self) -> u32 {
        self.reports()
    }

    open spec fn spec_look_ahead(&self, here: usize, v: FstV<W>, state: usize) -> LookAhead<W> {
        let input = self.under().spec_match_type() is Output;
        match self.index() {
            Some(r) => if !said_sorted(v, !input) {
                // The other side has to be sorted the way the index reads it.
                LookAhead::just(true)
            } else {
                index_outlook(
                    self.reports(),
                    r.acc().adder(),
                    r.table()@,
                    here,
                    v,
                    state,
                    input,
                )
            },
            None => LookAhead::just(true),
        }
    }

    open spec fn spec_look_ahead_label(&self, here: usize, label: i32) -> bool {
        ||| label == EPSILON
        ||| self.index() is None
        ||| (self.index()->0).table()@.reaches_label(Some(here), label)
    }

    fn lookahead_flags(&self) -> (flags: u32) {
        self.flags
    }

    fn look_ahead(&self, here: usize, fst: &VectorFst<W>, state: usize) -> (found: LookAhead<W>) {
        let reachable = match &self.reachable {
            Some(reachable) => reachable,
            None => {
                return LookAhead::anything();
            },
        };
        let reach_input: bool = match self.inner.match_type() {
            MatchType::Output => true,
            _ => false,
        };
        if !sorted_by(fst, !reach_input) {
            return LookAhead::anything();
        }
        let data: &LabelReachableData = reachable.data();
        let weigh: bool = self.flags & LOOKAHEAD_WEIGHT != 0;
        let single: bool = self.flags & LOOKAHEAD_PREFIX != 0;
        let arcs = fst.arcs(state);
        let zero = W::zero();
        let there_final = fst.final_weight(state);
        let ends: bool = !there_final.same(&zero) && data.reaches_final(Some(here));
        match data.find_hits(Some(here), arcs, reach_input, 0, arcs.len()) {
            Some((first, last)) => {
                if single && last - first == 1 && !ends {
                    let arc = arcs[first].duplicate();
                    assert(fst@.states[state as int].arcs[first as int].nextstate < fst@.n());
                    LookAhead { reachable: true, weight: W::one(), prefix: Some(arc) }
                } else if weigh {
                    let sum = data.weigh_hits(
                        reachable.accumulator(),
                        Some(here),
                        arcs,
                        reach_input,
                        first,
                        last,
                    );
                    let weight = if ends {
                        sum.plus(&there_final)
                    } else {
                        sum
                    };
                    LookAhead { reachable: true, weight, prefix: None }
                } else {
                    LookAhead::anything()
                }
            },
            None => {
                let weight = if ends && weigh {
                    there_final
                } else {
                    W::one()
                };
                LookAhead { reachable: ends, weight, prefix: None }
            },
        }
    }

    fn look_ahead_label(&self, here: usize, label: i32) -> (b: bool) {
        if label == EPSILON {
            return true;
        }
        match &self.reachable {
            Some(reachable) => reachable.data().reaches_label(Some(here), label),
            None => true,
        }
    }
}

} // verus!
