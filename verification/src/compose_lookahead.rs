//! Composition that asks, before it builds a pair of states, whether the pair leads
//! anywhere.
use crate::accumulator::DefaultAccumulator;
use crate::arc::{Arc, EPSILON, NO_LABEL};
use crate::compose::{
    asks_second, compose_with, found_for, is_composition, is_sorted_copy, lemma_composition_wf,
    lemma_sorted_copy, searches, sorted_copy, walked_arcs, ComposeModel, ComposeStateTuple,
    Composing,
};
use crate::compose_filter::{ComposeFilter, SequenceComposeFilter};
use crate::compose_laws::{
    is_tried, lemma_carrying_is_among, lemma_walked_steps, tried, tried_step,
};
use crate::connect::{connect, trimmed};
use crate::error::OpenFstError;
use crate::filter_state::CharFilterState;
use crate::graph::{has_arc, lemma_reach_refl, lemma_reach_step, reach};
use crate::inspect::{no_input_epsilons, said_no_input_epsilons};
use crate::label_reachable::{
    can_show, finishes, hit_span, hits, law_the_table_answers_for_the_machine, lemma_noted_states,
    quiet_arcs, quiet_graph, shows, LabelReachableData, ReachV, FINAL_LABEL,
};
use crate::lookahead_filter::{AheadRule, LookAheadComposeFilter};
use crate::lookahead_matcher::{
    LabelLookAheadMatcher, LookAheadMatcher, TrivialLookAheadMatcher, DEFAULT_LABEL_LOOKAHEAD_FLAGS,
    OUTPUT_LOOKAHEAD_MATCHER,
};
use crate::matcher::{
    arcs_matching, carrying, check_sorted, labels_sorted, said_sorted, side_label, staying,
    MatchType, Matcher, SortedMatcher,
};
use crate::unfold::{Step, Unfolding};
use crate::vector_fst::{FstV, VectorFst};
use crate::weight::Weight;
use std::rc::Rc;
use vstd::prelude::*;

verus! {

/// Finds the arcs of the first machine, and looks ahead from an index.
pub type AheadMatcher<'a, W> = LabelLookAheadMatcher<W, SortedMatcher<'a, W>, DefaultAccumulator>;

/// Finds the arcs of the second machine.
pub type PlainMatcher<'a, W> = TrivialLookAheadMatcher<SortedMatcher<'a, W>>;

/// Decides which matches are allowed to proceed, and looks past each.
pub type AheadFilter<'a, W> = LookAheadComposeFilter<
    'a,
    W,
    SequenceComposeFilter<'a, W, AheadMatcher<'a, W>, PlainMatcher<'a, W>>,
>;

/// What the index is asked for.
pub const AHEAD_FLAGS: u32 = DEFAULT_LABEL_LOOKAHEAD_FLAGS | OUTPUT_LOOKAHEAD_MATCHER;

/// Whether a matcher over what `l` writes looks ahead from the index `r`.
pub open spec fn looks_ahead<W: Weight>(m: AheadMatcher<W>, l: FstV<W>, r: ReachV) -> bool {
    &&& m.wf()
    &&& searches(m.under(), l, true)
    &&& m.reports() == AHEAD_FLAGS
    &&& m.index() is Some && (m.index()->0).table()@ == r && (m.index()->0).acc()
        == DefaultAccumulator
}

/// Whether a matcher is over what `r` reads.
pub open spec fn looks_up<W: Weight>(m: PlainMatcher<W>, r: FstV<W>) -> bool {
    searches(m.under(), r, false)
}

/// The rule of the look-ahead filter over two machines.
pub open spec fn ahead_rule<'a, W: Weight>(
    l: FstV<W>,
    r: FstV<W>,
    m1: AheadMatcher<'a, W>,
    m2: PlainMatcher<'a, W>,
) -> AheadRule<W, (FstV<W>, AheadMatcher<'a, W>, PlainMatcher<'a, W>)> {
    AheadRule { inner: (l, m1, m2), into: r, output: true, flags: AHEAD_FLAGS }
}

/// Whether `c` is the composition of `l` and `r` without the pairs that the index says
/// lead nowhere.
pub open spec fn is_ahead_composition<W: Weight>(
    l: FstV<W>,
    r: FstV<W>,
    index: ReachV,
    o: FstV<W>,
    c: FstV<W>,
) -> bool {
    exists|m1: AheadMatcher<W>, m2: PlainMatcher<W>| #[trigger]
        looks_ahead(m1, l, index) && #[trigger] looks_up(m2, r) && is_composition::<
            W,
            AheadFilter<W>,
        >(l, r, ahead_rule(l, r, m1, m2), o, c)
}

/// Whether `c` is what composing `v1` and `v2` with a look-ahead over the first comes
/// to: both are sorted for matching where they are not, the pairs that the index says
/// lead nowhere are not built, and the states that lead nowhere are dropped.
pub open spec fn composes_ahead<W: Weight>(
    v1: FstV<W>,
    v2: FstV<W>,
    o: FstV<W>,
    c: FstV<W>,
) -> bool {
    exists|l: FstV<W>, r: FstV<W>, index: ReachV, raw: FstV<W>|
        {
            &&& is_sorted_copy(v1, true, l)
            &&& is_sorted_copy(v2, false, r)
            &&& !index.reach_input && index.describes(l)
            &&& #[trigger] is_ahead_composition(l, r, index, o, raw)
            &&& raw.n() <= usize::MAX
            &&& c == trimmed(raw)
        }
}

/// Composes with a look-ahead matcher over the first machine's output side.
///
/// Plain [`compose`](fn@crate::compose::compose) builds a state for every pair of states
/// it can reach and finds out only afterwards that most of them are dead ends. A
/// look-ahead matcher is asked first: from where the first machine would be, can
/// anything still match what the second has? An index over the first machine's output
/// labels answers that in the time it takes to walk the second state's arcs, and the
/// pairs that lead nowhere are never built.
///
/// The index costs one pass over `fst1` to build: it pays when the composition is large
/// or when the same `fst1` is composed against many second arguments, and not
/// otherwise.
///
/// `fst2` must have no input epsilons: an epsilon is not a label, so a state of `fst2`
/// whose way on is its own epsilon would look like a dead end. That is checked.
pub fn compose_lookahead<W: Weight>(
    fst1: &VectorFst<W>,
    fst2: &VectorFst<W>,
    ofst: &mut VectorFst<W>,
) -> (result: Result<(), OpenFstError>)
    requires
        fst1@.wf(),
        fst2@.wf(),
    ensures
        result is Ok <==> said_no_input_epsilons(fst2@) && (!said_sorted(fst1@, true)
            || labels_sorted(fst1@, true)),
        result matches Err(e) ==> e is InvalidOperation && final(ofst)@ == old(ofst)@,
        !said_no_input_epsilons(fst2@) ==> result == Err::<(), OpenFstError>(
            OpenFstError::InvalidOperation(
                "ComposeLookAhead: the 2nd argument has input epsilons, which the look-ahead index cannot see past; remove them first",
            ),
        ),
        result is Ok ==> composes_ahead(fst1@, fst2@, old(ofst)@, final(ofst)@),
        result is Ok ==> final(ofst)@.wf(),
{
    if !no_input_epsilons(fst2) {
        return Err(
            OpenFstError::InvalidOperation(
                "ComposeLookAhead: the 2nd argument has input epsilons, which the look-ahead index cannot see past; remove them first",
            ),
        );
    }
    let left = sorted_copy(fst1, true);
    let right = sorted_copy(fst2, false);
    proof {
        lemma_sorted_copy(fst1@, true, left@);
        lemma_sorted_copy(fst2@, false, right@);
    }
    if !check_sorted(&left, true) {
        return Err(
            OpenFstError::InvalidOperation(
                "ComposeLookAhead: the 1st argument is not sorted on its output labels",
            ),
        );
    }
    compose_lookahead_sorted(&left, &right, ofst)
}

/// The index [`compose_lookahead`] builds, so that it can be built once and used
/// against many second arguments.
///
/// One pass over `fst1`, which is why [`compose_lookahead`] is a loss on a single small
/// composition and a win on a lexicon reused all day.
pub fn lookahead_index<W: Weight>(fst1: &VectorFst<W>) -> (index: Rc<LabelReachableData>)
    requires
        fst1@.wf(),
    ensures
        index.wf(),
        !index@.reach_input,
        index@.describes(fst1@),
{
    Rc::new(LabelReachableData::new(fst1, false))
}

/// As [`compose_lookahead`], for inputs already sorted the way it needs them: `left` on
/// its output labels and `right` on its input labels, and `right` already free of input
/// epsilons, which this does *not* check.
pub fn compose_lookahead_sorted<W: Weight>(
    left: &VectorFst<W>,
    right: &VectorFst<W>,
    ofst: &mut VectorFst<W>,
) -> (result: Result<(), OpenFstError>)
    requires
        left@.wf(),
        right@.wf(),
        labels_sorted(left@, true),
    ensures
        result is Ok,
        exists|index: ReachV, raw: FstV<W>|
            {
                &&& !index.reach_input && index.describes(left@)
                &&& #[trigger] is_ahead_composition(left@, right@, index, old(ofst)@, raw)
                &&& raw.n() <= usize::MAX
                &&& final(ofst)@ == trimmed(raw)
            },
        final(ofst)@.wf(),
{
    let index = lookahead_index(left);
    compose_lookahead_indexed(left, &index, right, ofst)
}

/// As [`compose_lookahead_sorted`], with the index already built.
pub fn compose_lookahead_indexed<W: Weight>(
    left: &VectorFst<W>,
    index: &Rc<LabelReachableData>,
    right: &VectorFst<W>,
    ofst: &mut VectorFst<W>,
) -> (result: Result<(), OpenFstError>)
    requires
        left@.wf(),
        right@.wf(),
        labels_sorted(left@, true),
        index.wf(),
    ensures
        result is Ok,
        exists|raw: FstV<W>| #[trigger]
            is_ahead_composition(left@, right@, index@, old(ofst)@, raw) && raw.n() <= usize::MAX
                && final(ofst)@ == trimmed(raw),
        final(ofst)@.wf(),
{
    let ghost o = ofst@;
    proof {
        assert(AHEAD_FLAGS & OUTPUT_LOOKAHEAD_MATCHER != 0) by (bit_vector);
    }
    let found1 = match SortedMatcher::new(left, MatchType::Output) {
        Ok(m) => m,
        Err(e) => {
            return Err(e);
        },
    };
    let found2 = match SortedMatcher::new(right, MatchType::Input) {
        Ok(m) => m,
        Err(e) => {
            return Err(e);
        },
    };
    let matcher1 = LabelLookAheadMatcher::from_data(
        index.clone(),
        found1,
        AHEAD_FLAGS,
        DefaultAccumulator,
    );
    let matcher2 = TrivialLookAheadMatcher::new(found2);
    let ghost m1 = matcher1;
    let ghost m2 = matcher2;
    let inner = SequenceComposeFilter::new(left, matcher1, matcher2);
    let filter = match LookAheadComposeFilter::new(inner, right) {
        Ok(filter) => filter,
        Err(e) => {
            return Err(e);
        },
    };
    let ghost rule = filter.rule();
    match compose_with(left, right, ofst, filter) {
        Ok(()) => {},
        Err(e) => {
            return Err(e);
        },
    }
    let ghost raw = ofst@;
    let count: usize = ofst.num_states();
    proof {
        assert(raw.n() == count);
        assert(looks_ahead(m1, left@, index@));
        assert(looks_up(m2, right@));
        assert(rule == ahead_rule(left@, right@, m1, m2));
        lemma_composition_wf::<W, AheadFilter<W>>(left@, right@, rule, o, raw);
        assert(is_ahead_composition(left@, right@, index@, o, raw));
    }
    connect(ofst);
    Ok(())
}

/// The plain filter that the look-ahead filter is built on.
pub type InnerFilter<'a, W> = SequenceComposeFilter<'a, W, AheadMatcher<'a, W>, PlainMatcher<'a, W>>;

/// A step of a composition: the labels, the weight, and the pair of states it leads to.
pub type PairStep<W> = Step<W, ComposeStateTuple<CharFilterState>>;

/// Whether a composition can go from `key` along `path`.
pub open spec fn goes<W: Weight, F: ComposeFilter<W, State = CharFilterState>>(
    model: ComposeModel<W, F::Rule>,
    key: ComposeStateTuple<CharFilterState>,
    path: Seq<PairStep<W>>,
) -> bool
    decreases path.len(),
{
    path.len() > 0 ==> {
        &&& Composing::<W, F>::steps(model, key).contains(path[0])
        &&& goes::<W, F>(model, path[0].to, path.drop_first())
    }
}

/// Where `path` leads from `key`.
pub open spec fn led<W>(
    key: ComposeStateTuple<CharFilterState>,
    path: Seq<PairStep<W>>,
) -> ComposeStateTuple<CharFilterState> {
    if path.len() == 0 {
        key
    } else {
        path.last().to
    }
}

/// Whether a composition can go from `key` along `path` and end there.
pub open spec fn succeeds_along<W: Weight, F: ComposeFilter<W, State = CharFilterState>>(
    model: ComposeModel<W, F::Rule>,
    key: ComposeStateTuple<CharFilterState>,
    path: Seq<PairStep<W>>,
) -> bool {
    goes::<W, F>(model, key, path) && Composing::<W, F>::ending(model, led(key, path))
        != W::spec_zero()
}

/// Whether the labels that meet are labels: the first machine writes none that stands
/// for no label, and the second reads neither such a one nor epsilon.
pub open spec fn labels_meet<W: Weight>(l: FstV<W>, r: FstV<W>) -> bool {
    &&& forall|s: int, i: int|
        0 <= s < l.n() && 0 <= i < l.arcs(s).len() ==> (#[trigger] l.arcs(s)[i]).olabel != NO_LABEL
    &&& forall|s: int, i: int|
        0 <= s < r.n() && 0 <= i < r.arcs(s).len() ==> (#[trigger] r.arcs(s)[i]).ilabel != NO_LABEL
            && r.arcs(s)[i].ilabel != EPSILON
}

/// A pair that is tried is an epsilon of the first machine, the second standing still,
/// or an arc of each with the same label.
proof fn lemma_kinds_of_pair<'a, W: Weight>(
    l: FstV<W>,
    r: FstV<W>,
    index: ReachV,
    m1: AheadMatcher<'a, W>,
    m2: PlainMatcher<'a, W>,
    key: ComposeStateTuple<CharFilterState>,
    k: int,
    j: int,
)
    requires
        labels_meet(l, r),
        looks_ahead(m1, l, index),
        looks_up(m2, r),
        key.state1 < l.n(),
        key.state2 < r.n(),
        is_tried::<W, InnerFilter<'a, W>>(
            ComposeModel { fst1: l, fst2: r, rule: (l, m1, m2) },
            key,
            k,
            j,
        ),
    ensures
        ({
            let (arc1, arc2) = tried::<W, InnerFilter<'a, W>>(
                ComposeModel { fst1: l, fst2: r, rule: (l, m1, m2) },
                key,
                k,
                j,
            );
            exists|i1: int|
                {
                    &&& 0 <= i1 < l.arcs(key.state1 as int).len()
                    &&& #[trigger] l.arcs(key.state1 as int)[i1] == arc1
                    &&& {
                        ||| arc1.olabel == EPSILON && arc2 == staying::<W>(key.state2, false)
                        ||| arc1.olabel != EPSILON && exists|i2: int|
                            0 <= i2 < r.arcs(key.state2 as int).len()
                                && #[trigger] r.arcs(key.state2 as int)[i2] == arc2 && arc2.ilabel
                                == arc1.olabel
                    }
                }
        }),
{
    let model = ComposeModel { fst1: l, fst2: r, rule: (l, m1, m2) };
    let s1 = key.state1;
    let s2 = key.state2;
    let second = asks_second::<W, InnerFilter<'a, W>>(model.rule, s1, s2);
    let walked = walked_arcs::<W, InnerFilter<'a, W>>(model, key, second);
    let found = found_for::<W, InnerFilter<'a, W>>(model.rule, key, walked[k], second);
    let arcs1 = l.arcs(s1 as int);
    let arcs2 = r.arcs(s2 as int);
    if second {
        let arc1 = walked[k];
        let label = arc1.olabel;
        let want = if label == NO_LABEL {
            EPSILON
        } else {
            label
        };
        let on = carrying(arcs2, false, want, arcs2.len() as int);
        assert(found == arcs_matching(r, false, s2, label));
        let head: int = if label == EPSILON {
            1
        } else {
            0
        };
        if j >= head {
            assert(found[j] == on[j - head]);
            lemma_carrying_is_among(arcs2, false, want, arcs2.len() as int, j - head);
            let i2 = choose|i2: int|
                0 <= i2 < arcs2.len() && #[trigger] arcs2[i2] == on[j - head] && side_label(
                    arcs2[i2],
                    false,
                ) == want;
            assert(r.arcs(s2 as int)[i2] == found[j]);
            assert(want != EPSILON);
            assert(k > 0);
            assert(arcs1[k - 1] == arc1);
        } else {
            assert(found[j] == staying::<W>(s2, false));
            assert(k > 0);
            assert(arcs1[k - 1] == arc1);
        }
    } else {
        let arc2 = walked[k];
        let label = arc2.ilabel;
        let want = if label == NO_LABEL {
            EPSILON
        } else {
            label
        };
        let on = carrying(arcs1, true, want, arcs1.len() as int);
        assert(found == arcs_matching(l, true, s1, label));
        if k > 0 {
            assert(arcs2[k - 1] == arc2);
            assert(r.arcs(s2 as int)[k - 1].ilabel != EPSILON);
        } else {
            assert(arc2 == staying::<W>(s2, false));
        }
        assert(label != EPSILON);
        assert(found[j] == on[j]);
        lemma_carrying_is_among(arcs1, true, want, arcs1.len() as int, j);
        let i1 = choose|i1: int|
            0 <= i1 < arcs1.len() && #[trigger] arcs1[i1] == on[j] && side_label(arcs1[i1], true)
                == want;
        assert(l.arcs(s1 as int)[i1] == found[j]);
    }
}

/// One arc that hits is enough to find something.
proof fn lemma_hit_is_found<W>(
    index: ReachV,
    state: Option<usize>,
    arcs: Seq<Arc<W>>,
    input: bool,
    i: int,
    k: int,
)
    requires
        0 <= i < k <= arcs.len(),
        hits(index, state, arcs, input, i),
    ensures
        hit_span(index, state, arcs, input, 0, k) is Some,
    decreases k,
{
    if i < k - 1 {
        lemma_hit_is_found(index, state, arcs, input, i, k - 1);
    }
}

/// Where a composition can still succeed, the index says that there is something ahead.
proof fn lemma_success_is_seen<'a, W: Weight>(
    l: FstV<W>,
    r: FstV<W>,
    index: ReachV,
    m1: AheadMatcher<'a, W>,
    m2: PlainMatcher<'a, W>,
    key: ComposeStateTuple<CharFilterState>,
    path: Seq<PairStep<W>>,
)
    requires
        l.wf(),
        r.wf(),
        labels_meet(l, r),
        !index.reach_input,
        index.describes(l),
        looks_ahead(m1, l, index),
        looks_up(m2, r),
        key.state1 < l.n(),
        key.state2 < r.n(),
        labels_sorted(l, true),
        succeeds_along::<W, InnerFilter<'a, W>>(
            ComposeModel { fst1: l, fst2: r, rule: (l, m1, m2) },
            key,
            path,
        ),
    ensures
        m1.spec_look_ahead(key.state1, r, key.state2).reachable,
    decreases path.len(),
{
    let model = ComposeModel { fst1: l, fst2: r, rule: (l, m1, m2) };
    let s1 = key.state1;
    let s2 = key.state2;
    let arcs2 = r.arcs(s2 as int);
    lemma_noted_states(l, false, l.n() as int);
    if path.len() == 0 {
        // Both can end here.
        assert(finishes(l, s1 as int));
        lemma_reach_refl(quiet_graph(l, false), s1 as int);
        assert(shows(l, false, s1 as int, FINAL_LABEL));
        assert(reach(quiet_graph(l, false), s1 as int, s1 as int));
        assert(can_show(l, false, s1 as int, FINAL_LABEL));
        law_the_table_answers_for_the_machine(index, l, s1, FINAL_LABEL);
        assert(index.reaches_final(Some(s1)));
    } else {
        let step = path[0];
        let steps = Composing::<W, InnerFilter<'a, W>>::steps(model, key);
        let second = asks_second::<W, InnerFilter<'a, W>>(model.rule, s1, s2);
        let walked = walked_arcs::<W, InnerFilter<'a, W>>(model, key, second);
        lemma_walked_steps::<W, InnerFilter<'a, W>>(model, key, walked.len() as int, step);
        let (k, j) = choose|k: int, j: int|
            0 <= k < walked.len() && is_tried::<W, InnerFilter<'a, W>>(model, key, k, j)
                && #[trigger] tried_step::<W, InnerFilter<'a, W>>(model, key, k, j) == Some(step);
        lemma_kinds_of_pair(l, r, index, m1, m2, key, k, j);
        let (arc1, arc2) = tried::<W, InnerFilter<'a, W>>(model, key, k, j);
        let i1 = choose|i1: int|
            {
                &&& 0 <= i1 < l.arcs(s1 as int).len()
                &&& #[trigger] l.arcs(s1 as int)[i1] == arc1
                &&& {
                    ||| arc1.olabel == EPSILON && arc2 == staying::<W>(s2, false)
                    ||| arc1.olabel != EPSILON && exists|i2: int|
                        0 <= i2 < r.arcs(s2 as int).len() && #[trigger] r.arcs(s2 as int)[i2]
                            == arc2 && arc2.ilabel == arc1.olabel
                }
            };
        assert(l.states[s1 as int].arcs[i1].nextstate < l.n());
        if arc1.olabel == EPSILON {
            // The first goes on alone; what is ahead of where it comes to is ahead of
            // here.
            let t1 = arc1.nextstate;
            assert(step.to.state1 == t1 && step.to.state2 == s2);
            assert(led(key, path) == led(step.to, path.drop_first())) by {
                if path.len() > 1 {
                    assert(path.drop_first().last() == path.last());
                }
            }
            lemma_success_is_seen(l, r, index, m1, m2, step.to, path.drop_first());
            assert(has_arc(l, quiet_arcs(false), s1 as int, t1 as int)) by {
                assert(l.arcs(s1 as int)[i1].nextstate == t1);
            }
            lemma_seen_before(l, r, index, m1, s1, t1, s2);
        } else {
            let i2 = choose|i2: int|
                0 <= i2 < r.arcs(s2 as int).len() && #[trigger] r.arcs(s2 as int)[i2] == arc2
                    && arc2.ilabel == arc1.olabel;
            lemma_reach_refl(quiet_graph(l, false), s1 as int);
            assert(side_label(l.arcs(s1 as int)[i1], true) == arc1.olabel);
            assert(shows(l, false, s1 as int, arc1.olabel));
            assert(reach(quiet_graph(l, false), s1 as int, s1 as int));
            assert(can_show(l, false, s1 as int, arc1.olabel));
            law_the_table_answers_for_the_machine(index, l, s1, arc1.olabel);
            assert(hits(index, Some(s1), arcs2, true, i2));
            lemma_hit_is_found(index, Some(s1), arcs2, true, i2, arcs2.len() as int);
        }
    }
}

/// What is ahead after a step without a label is ahead before it.
proof fn lemma_seen_before<'a, W: Weight>(
    l: FstV<W>,
    r: FstV<W>,
    index: ReachV,
    m1: AheadMatcher<'a, W>,
    s1: usize,
    t1: usize,
    s2: usize,
)
    requires
        l.wf(),
        labels_meet(l, r),
        !index.reach_input,
        index.describes(l),
        looks_ahead(m1, l, index),
        labels_sorted(l, true),
        s1 < l.n(),
        t1 < l.n(),
        s2 < r.n(),
        has_arc(l, quiet_arcs(false), s1 as int, t1 as int),
        m1.spec_look_ahead(t1, r, s2).reachable,
    ensures
        m1.spec_look_ahead(s1, r, s2).reachable,
{
    let arcs2 = r.arcs(s2 as int);
    let n = arcs2.len() as int;
    let quiet = quiet_graph(l, false);
    assert(quiet(s1 as int, t1 as int));
    assert forall|label: i32| label != EPSILON && index.reaches_label(Some(t1), label) implies #[trigger] index.reaches_label(
        Some(s1),
        label,
    ) by {
        law_the_table_answers_for_the_machine(index, l, t1, label);
        law_the_table_answers_for_the_machine(index, l, s1, label);
        let t = choose|t: int|
            0 <= t < l.n() && #[trigger] reach(quiet, t1 as int, t) && shows(l, false, t, label);
        lemma_reach_step(quiet, s1 as int, t1 as int, t);
        assert(reach(quiet, s1 as int, t));
    }
    if index.reaches_final(Some(t1)) {
        law_the_table_answers_for_the_machine(index, l, t1, FINAL_LABEL);
        law_the_table_answers_for_the_machine(index, l, s1, FINAL_LABEL);
        let t = choose|t: int|
            0 <= t < l.n() && #[trigger] reach(quiet, t1 as int, t) && shows(
                l,
                false,
                t,
                FINAL_LABEL,
            );
        lemma_reach_step(quiet, s1 as int, t1 as int, t);
        assert(reach(quiet, s1 as int, t));
        assert(can_show(l, false, s1 as int, FINAL_LABEL));
    }
    if hit_span(index, Some(t1), arcs2, true, 0, n) is Some {
        lemma_found_is_hit(index, Some(t1), arcs2, true, n);
        let i = choose|i: int| 0 <= i < n && #[trigger] hits(index, Some(t1), arcs2, true, i);
        assert(r.arcs(s2 as int)[i].ilabel != EPSILON);
        assert(index.reaches_label(Some(s1), arcs2[i].ilabel));
        assert(hits(index, Some(s1), arcs2, true, i));
        lemma_hit_is_found(index, Some(s1), arcs2, true, i, n);
    }
}

/// What is found is an arc that hits.
proof fn lemma_found_is_hit<W>(
    index: ReachV,
    state: Option<usize>,
    arcs: Seq<Arc<W>>,
    input: bool,
    k: int,
)
    requires
        0 <= k <= arcs.len(),
        hit_span(index, state, arcs, input, 0, k) is Some,
    ensures
        exists|i: int| 0 <= i < k && #[trigger] hits(index, state, arcs, input, i),
    decreases k,
{
    if k > 0 && !hits(index, state, arcs, input, k - 1) {
        lemma_found_is_hit(index, state, arcs, input, k - 1);
    }
}

/// Looking ahead gives the same answer as not looking ahead: from any pair of states,
/// the ways to succeed are the same, step by step, with the same labels and weights. The
/// index only lets composition skip pairs it would have built and then thrown away.
pub proof fn law_looking_ahead_loses_no_success<'a, W: Weight>(
    l: FstV<W>,
    r: FstV<W>,
    index: ReachV,
    m1: AheadMatcher<'a, W>,
    m2: PlainMatcher<'a, W>,
    key: ComposeStateTuple<CharFilterState>,
    path: Seq<PairStep<W>>,
)
    requires
        l.wf(),
        r.wf(),
        labels_meet(l, r),
        !index.reach_input,
        index.describes(l),
        looks_ahead(m1, l, index),
        looks_up(m2, r),
        labels_sorted(l, true),
        key.state1 < l.n(),
        key.state2 < r.n(),
    ensures
        succeeds_along::<W, AheadFilter<'a, W>>(
            ComposeModel { fst1: l, fst2: r, rule: ahead_rule(l, r, m1, m2) },
            key,
            path,
        ) <==> succeeds_along::<W, InnerFilter<'a, W>>(
            ComposeModel { fst1: l, fst2: r, rule: (l, m1, m2) },
            key,
            path,
        ),
    decreases path.len(),
{
    let plain = ComposeModel { fst1: l, fst2: r, rule: (l, m1, m2) };
    let ahead = ComposeModel { fst1: l, fst2: r, rule: ahead_rule(l, r, m1, m2) };
    if path.len() > 0 {
        let step = path[0];
        let rest = path.drop_first();
        let second = asks_second::<W, InnerFilter<'a, W>>(plain.rule, key.state1, key.state2);
        let walked = walked_arcs::<W, InnerFilter<'a, W>>(plain, key, second);
        assert(second == asks_second::<W, AheadFilter<'a, W>>(
            ahead.rule,
            key.state1,
            key.state2,
        ));
        assert(walked == walked_arcs::<W, AheadFilter<'a, W>>(ahead, key, second));
        lemma_walked_steps::<W, InnerFilter<'a, W>>(plain, key, walked.len() as int, step);
        lemma_walked_steps::<W, AheadFilter<'a, W>>(ahead, key, walked.len() as int, step);
        assert(led(key, path) == led(step.to, rest)) by {
            if path.len() > 1 {
                assert(rest.last() == path.last());
            }
        }
        if succeeds_along::<W, InnerFilter<'a, W>>(plain, key, path) {
            let (k, j) = choose|k: int, j: int|
                0 <= k < walked.len() && is_tried::<W, InnerFilter<'a, W>>(plain, key, k, j)
                    && #[trigger] tried_step::<W, InnerFilter<'a, W>>(plain, key, k, j) == Some(
                    step,
                );
            lemma_step_stays_inside(l, r, index, m1, m2, key, k, j);
            law_looking_ahead_loses_no_success(l, r, index, m1, m2, step.to, rest);
            lemma_success_is_seen(l, r, index, m1, m2, step.to, rest);
            assert(is_tried::<W, AheadFilter<'a, W>>(ahead, key, k, j));
            assert(tried::<W, AheadFilter<'a, W>>(ahead, key, k, j) == tried::<
                W,
                InnerFilter<'a, W>,
            >(plain, key, k, j));
            assert(tried_step::<W, AheadFilter<'a, W>>(ahead, key, k, j) == Some(step));
        }
        if succeeds_along::<W, AheadFilter<'a, W>>(ahead, key, path) {
            let (k, j) = choose|k: int, j: int|
                0 <= k < walked.len() && is_tried::<W, AheadFilter<'a, W>>(ahead, key, k, j)
                    && #[trigger] tried_step::<W, AheadFilter<'a, W>>(ahead, key, k, j) == Some(
                    step,
                );
            assert(is_tried::<W, InnerFilter<'a, W>>(plain, key, k, j));
            assert(tried::<W, AheadFilter<'a, W>>(ahead, key, k, j) == tried::<
                W,
                InnerFilter<'a, W>,
            >(plain, key, k, j));
            assert(tried_step::<W, InnerFilter<'a, W>>(plain, key, k, j) == Some(step));
            lemma_step_stays_inside(l, r, index, m1, m2, key, k, j);
            law_looking_ahead_loses_no_success(l, r, index, m1, m2, step.to, rest);
        }
    }
}

/// A step leads to states that are there.
proof fn lemma_step_stays_inside<'a, W: Weight>(
    l: FstV<W>,
    r: FstV<W>,
    index: ReachV,
    m1: AheadMatcher<'a, W>,
    m2: PlainMatcher<'a, W>,
    key: ComposeStateTuple<CharFilterState>,
    k: int,
    j: int,
)
    requires
        l.wf(),
        r.wf(),
        labels_meet(l, r),
        looks_ahead(m1, l, index),
        looks_up(m2, r),
        key.state1 < l.n(),
        key.state2 < r.n(),
        is_tried::<W, InnerFilter<'a, W>>(
            ComposeModel { fst1: l, fst2: r, rule: (l, m1, m2) },
            key,
            k,
            j,
        ),
    ensures
        tried_step::<W, InnerFilter<'a, W>>(
            ComposeModel { fst1: l, fst2: r, rule: (l, m1, m2) },
            key,
            k,
            j,
        ) matches Some(step) ==> step.to.state1 < l.n() && step.to.state2 < r.n(),
{
    lemma_kinds_of_pair(l, r, index, m1, m2, key, k, j);
    let (arc1, arc2) = tried::<W, InnerFilter<'a, W>>(
        ComposeModel { fst1: l, fst2: r, rule: (l, m1, m2) },
        key,
        k,
        j,
    );
    let i1 = choose|i1: int|
        {
            &&& 0 <= i1 < l.arcs(key.state1 as int).len()
            &&& #[trigger] l.arcs(key.state1 as int)[i1] == arc1
            &&& {
                ||| arc1.olabel == EPSILON && arc2 == staying::<W>(key.state2, false)
                ||| arc1.olabel != EPSILON && exists|i2: int|
                    0 <= i2 < r.arcs(key.state2 as int).len()
                        && #[trigger] r.arcs(key.state2 as int)[i2] == arc2 && arc2.ilabel
                        == arc1.olabel
            }
        };
    assert(l.states[key.state1 as int].arcs[i1].nextstate < l.n());
    if arc1.olabel != EPSILON {
        let i2 = choose|i2: int|
            0 <= i2 < r.arcs(key.state2 as int).len() && #[trigger] r.arcs(key.state2 as int)[i2]
                == arc2 && arc2.ilabel == arc1.olabel;
        assert(r.states[key.state2 as int].arcs[i2].nextstate < r.n());
    }
}

} // verus!
