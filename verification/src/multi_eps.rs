//! Matching where some labels count as epsilon.
use crate::arc::{Arc, EPSILON, NO_LABEL};
use crate::error::OpenFstError;
use crate::lookahead_matcher::{LookAhead, LookAheadMatcher};
use crate::matcher::{staying, staying_arc, MatchType, Matcher};
use crate::vector_fst::{FstV, VectorFst};
use crate::weight::Weight;
use vstd::prelude::*;

verus! {

/// Asking for what takes nothing gives the arcs that carry a label counted as epsilon
/// as well.
pub const MULTI_EPS_LIST: u32 = 0x01;

/// Asking for a label counted as epsilon gives the arc that stands for staying put.
pub const MULTI_EPS_LOOP: u32 = 0x02;

/// A matcher that can be told to treat a label as epsilon.
///
/// Pushing labels needs it: a label that was written early has to match the implicit
/// arc that stands for "the label was already written".
pub trait MultiEpsLabels<W: Weight>: Matcher<W> {
    /// The labels treated as epsilon besides epsilon itself.
    spec fn extra(&self) -> Seq<i32>;

    /// What matches `label` at `s`, where `extra` are the labels treated as epsilon.
    spec fn spec_matches_with(&self, extra: Seq<i32>, s: usize, label: i32) -> Seq<Arc<W>>;

    /// Treats `label` as epsilon as well.
    fn add_multi_eps_label(&mut self, label: i32) -> (result: Result<(), OpenFstError>)
        requires
            old(self).wf(),
        ensures
            result is Ok <==> label != EPSILON,
            final(self).wf(),
            final(self).spec_states() == old(self).spec_states(),
            final(self).spec_match_type() == old(self).spec_match_type(),
            final(self).extra() == (if label == EPSILON || old(self).extra().contains(label) {
                old(self).extra()
            } else {
                old(self).extra().push(label)
            }),
            forall|extra: Seq<i32>, s: usize, l: i32| #[trigger]
                final(self).spec_matches_with(extra, s, l) == old(self).spec_matches_with(
                    extra,
                    s,
                    l,
                ),
    ;

    /// Stops treating anything but epsilon itself as epsilon.
    fn clear_multi_eps_labels(&mut self)
        requires
            old(self).wf(),
        ensures
            final(self).wf(),
            final(self).spec_states() == old(self).spec_states(),
            final(self).spec_match_type() == old(self).spec_match_type(),
            final(self).extra() == Seq::<i32>::empty(),
            forall|extra: Seq<i32>, s: usize, l: i32| #[trigger]
                final(self).spec_matches_with(extra, s, l) == old(self).spec_matches_with(
                    extra,
                    s,
                    l,
                ),
    ;

    /// What matches `label` at `s`, where `carried` alone is treated as epsilon; with
    /// nothing carried, what matches anyway.
    fn matches_with(&self, carried: Option<i32>, s: usize, label: i32) -> (arcs: Vec<Arc<W>>)
        requires
            self.wf(),
            self.spec_match_type() !is Neither,
            s < self.spec_states(),
        ensures
            arcs@ == self.spec_matches_with(only(carried), s, label),
            forall|i: int|
                0 <= i < arcs@.len() ==> (#[trigger] arcs@[i]).nextstate < self.spec_states(),
    ;
}

/// The labels treated as epsilon, where one is carried: that one, unless it is
/// epsilon anyway.
pub open spec fn only(carried: Option<i32>) -> Seq<i32> {
    match carried {
        Some(label) => if label == EPSILON {
            Seq::empty()
        } else {
            seq![label]
        },
        None => Seq::empty(),
    }
}

/// A matcher, told to treat some labels as epsilon.
pub struct MultiEpsMatcher<M> {
    matcher: M,
    flags: u32,
    labels: Vec<i32>,
}

/// What matches the first `k` of `extra`, one after the other.
pub open spec fn matches_each<W: Weight, M: Matcher<W>>(m: M, extra: Seq<i32>, s: usize, k: int) -> Seq<
    Arc<W>,
>
    decreases k,
{
    if k <= 0 {
        Seq::empty()
    } else {
        matches_each::<W, M>(m, extra, s, k - 1) + m.spec_matches(s, extra[k - 1])
    }
}

/// What matches `label`, where `extra` are treated as epsilon.
pub open spec fn multi_eps_matches<W: Weight, M: Matcher<W>>(
    m: M,
    flags: u32,
    extra: Seq<i32>,
    s: usize,
    label: i32,
) -> Seq<Arc<W>> {
    if label == EPSILON {
        m.spec_matches(s, EPSILON)
    } else if label == NO_LABEL {
        if flags & MULTI_EPS_LIST != 0 {
            matches_each::<W, M>(m, extra, s, extra.len() as int) + m.spec_matches(s, NO_LABEL)
        } else {
            m.spec_matches(s, NO_LABEL)
        }
    } else if flags & MULTI_EPS_LOOP != 0 && extra.contains(label) {
        seq![staying::<W>(s, m.spec_match_type() is Output)]
    } else {
        m.spec_matches(s, label)
    }
}

/// Whether `label` is one of them.
fn listed(labels: &Vec<i32>, label: i32) -> (b: bool)
    ensures
        b == labels@.contains(label),
{
    let mut i: usize = 0;
    while i < labels.len()
        invariant
            i <= labels@.len(),
            forall|j: int| 0 <= j < i ==> #[trigger] labels@[j] != label,
        decreases labels@.len() - i,
    {
        if labels[i] == label {
            return true;
        }
        i += 1;
    }
    false
}

impl<M> MultiEpsMatcher<M> {
    /// The matcher underneath.
    pub closed spec fn under(&self) -> M {
        self.matcher
    }

    /// How labels treated as epsilon are matched.
    pub closed spec fn mode(&self) -> u32 {
        self.flags
    }

    /// The labels treated as epsilon.
    pub closed spec fn set_aside(&self) -> Seq<i32> {
        self.labels@
    }

    /// Wraps `matcher`, with no label treated as epsilon yet.
    pub fn new_with_flags(matcher: M, flags: u32) -> (m: Self)
        ensures
            m.under() == matcher,
            m.mode() == flags,
            m.set_aside() == Seq::<i32>::empty(),
    {
        MultiEpsMatcher { matcher, flags, labels: Vec::new() }
    }

    /// The matcher underneath.
    pub fn matcher(&self) -> (m: &M)
        ensures
            *m == self.under(),
    {
        &self.matcher
    }
}

impl<M> MultiEpsMatcher<M> {
    /// What matches `label`, where `extra` are treated as epsilon.
    fn find_with<W: Weight>(&self, extra: &Vec<i32>, s: usize, label: i32) -> (arcs: Vec<
        Arc<W>,
    >) where M: Matcher<W>
        requires
            self.matcher.wf(),
            self.matcher.spec_match_type() !is Neither,
            s < self.matcher.spec_states(),
        ensures
            arcs@ == multi_eps_matches::<W, M>(self.matcher, self.flags, extra@, s, label),
            forall|i: int|
                0 <= i < arcs@.len() ==> (#[trigger] arcs@[i]).nextstate
                    < self.matcher.spec_states(),
    {
        if label == EPSILON {
            return self.matcher.matches(s, EPSILON);
        }
        if label == NO_LABEL {
            let mut arcs: Vec<Arc<W>> = Vec::new();
            if self.flags & MULTI_EPS_LIST != 0 {
                let mut k: usize = 0;
                while k < extra.len()
                    invariant
                        k <= extra@.len(),
                        self.matcher.wf(),
                        self.matcher.spec_match_type() !is Neither,
                        s < self.matcher.spec_states(),
                        arcs@ == matches_each::<W, M>(self.matcher, extra@, s, k as int),
                        forall|i: int|
                            0 <= i < arcs@.len() ==> (#[trigger] arcs@[i]).nextstate
                                < self.matcher.spec_states(),
                    decreases extra@.len() - k,
                {
                    let mut more = self.matcher.matches(s, extra[k]);
                    arcs.append(&mut more);
                    k += 1;
                }
            }
            let mut rest = self.matcher.matches(s, NO_LABEL);
            arcs.append(&mut rest);
            assert(arcs@ =~= multi_eps_matches::<W, M>(
                self.matcher,
                self.flags,
                extra@,
                s,
                label,
            ));
            return arcs;
        }
        if self.flags & MULTI_EPS_LOOP != 0 && listed(extra, label) {
            let output: bool = match self.matcher.match_type() {
                MatchType::Output => true,
                _ => false,
            };
            let mut arcs: Vec<Arc<W>> = Vec::new();
            arcs.push(staying_arc(s, output));
            return arcs;
        }
        self.matcher.matches(s, label)
    }
}

impl<W: Weight, M: Matcher<W>> Matcher<W> for MultiEpsMatcher<M> {
    open spec fn wf(&self) -> bool {
        self.under().wf()
    }

    open spec fn spec_states(&self) -> nat {
        self.under().spec_states()
    }

    open spec fn spec_match_type(&self) -> MatchType {
        self.under().spec_match_type()
    }

    open spec fn spec_matches(&self, s: usize, label: i32) -> Seq<Arc<W>> {
        multi_eps_matches::<W, M>(self.under(), self.mode(), self.set_aside(), s, label)
    }

    open spec fn spec_priority(&self, s: usize) -> Option<usize> {
        self.under().spec_priority(s)
    }

    fn match_type(&self) -> (t: MatchType) {
        self.matcher.match_type()
    }

    fn matches(&self, s: usize, label: i32) -> (arcs: Vec<Arc<W>>) {
        self.find_with(&self.labels, s, label)
    }

    fn priority(&self, s: usize) -> (p: Option<usize>) {
        self.matcher.priority(s)
    }
}

impl<W: Weight, M: Matcher<W>> MultiEpsLabels<W> for MultiEpsMatcher<M> {
    open spec fn extra(&self) -> Seq<i32> {
        self.set_aside()
    }

    open spec fn spec_matches_with(&self, extra: Seq<i32>, s: usize, label: i32) -> Seq<Arc<W>> {
        multi_eps_matches::<W, M>(self.under(), self.mode(), extra, s, label)
    }

    fn add_multi_eps_label(&mut self, label: i32) -> (result: Result<(), OpenFstError>) {
        if label == EPSILON {
            return Err(
                OpenFstError::InvalidOperation("MultiEpsMatcher: epsilon is one already"),
            );
        }
        if !listed(&self.labels, label) {
            self.labels.push(label);
        }
        Ok(())
    }

    fn clear_multi_eps_labels(&mut self) {
        self.labels.clear();
    }

    fn matches_with(&self, carried: Option<i32>, s: usize, label: i32) -> (arcs: Vec<Arc<W>>) {
        let mut extra: Vec<i32> = Vec::new();
        if let Some(carried) = carried {
            if carried != EPSILON {
                extra.push(carried);
            }
        }
        assert(extra@ =~= only(carried));
        self.find_with(&extra, s, label)
    }
}

/// A multi-epsilon matcher looks ahead exactly as the matcher it wraps does: the extra
/// labels it treats as epsilon change what is found, not what is reachable from the
/// state.
impl<W: Weight, M: LookAheadMatcher<W>> LookAheadMatcher<W> for MultiEpsMatcher<M> {
    open spec fn spec_flags(&self) -> u32 {
        self.under().spec_flags()
    }

    open spec fn spec_look_ahead(&self, here: usize, v: FstV<W>, state: usize) -> LookAhead<W> {
        self.under().spec_look_ahead(here, v, state)
    }

    open spec fn spec_look_ahead_label(&self, here: usize, label: i32) -> bool {
        self.under().spec_look_ahead_label(here, label)
    }

    fn lookahead_flags(&self) -> (flags: u32) {
        self.matcher.lookahead_flags()
    }

    fn look_ahead(&self, here: usize, fst: &VectorFst<W>, state: usize) -> (found: LookAhead<W>) {
        self.matcher.look_ahead(here, fst, state)
    }

    fn look_ahead_label(&self, here: usize, label: i32) -> (b: bool) {
        self.matcher.look_ahead_label(here, label)
    }
}

} // verus!
