//! What a composition accepts.
use crate::arc::{Arc, EPSILON, NO_LABEL};
use crate::arcsort::{
    is_stable_order, is_stable_sort, law_sorting_permutes, ArcCompare, ILabelCompare, OLabelCompare,
};
use crate::compose::{
    asks_second, compose_start, composes, composes_sorted, found_for, is_composition, is_sorted_copy, lemma_composition_wf, lemma_sorted_copy, pair_step, pair_steps, searches,
    walked_arcs, walked_steps, ComposeModel, ComposeStateTuple, Composing,
};
use crate::compose_filter::{
    char_state, no_epsilons, only_epsilons, ComposeFilter, SequenceComposeFilter,
};
use crate::connect::{
    kept_run, law_trimming_adds_no_path, law_trimming_keeps_paths, lemma_trimmed_wf, succeeds,
    trimmed,
};
use crate::filter_state::{CharFilterState, STATE_DEFAULT};
use crate::matcher::{
    arcs_matching, carrying, said_sorted, side_label, staying, Matcher, SortedMatcher,
};
use crate::paths::{
    accepted_weight, end_of, is_accepting, is_ending, lemma_after_first, lemma_alike,
    lemma_go_first, lemma_labels_from_front, lemma_run_stays, reads, state_at, steps, total,
    writes,
};
use crate::unfold::{
    distinct, is_unfolding, lemma_one_number, numbered, unfolds, Step, Unfolding,
};
use crate::vector_fst::FstV;
use crate::weight::{spec_is_final, Weight};
use vstd::prelude::*;

verus! {

/// The pair of arcs that is tried `j`-th for the `k`-th arc of the side walked.
pub open spec fn tried<W: Weight, F: ComposeFilter<W>>(
    model: ComposeModel<W, F::Rule>,
    key: ComposeStateTuple<F::State>,
    k: int,
    j: int,
) -> (Arc<W>, Arc<W>) {
    let second = asks_second::<W, F>(model.rule, key.state1, key.state2);
    let walked = walked_arcs::<W, F>(model, key, second);
    let found = found_for::<W, F>(model.rule, key, walked[k], second);
    if second {
        (walked[k], found[j])
    } else {
        (found[j], walked[k])
    }
}

/// Whether there is a `j`-th pair for the `k`-th arc of the side walked.
pub open spec fn is_tried<W: Weight, F: ComposeFilter<W>>(
    model: ComposeModel<W, F::Rule>,
    key: ComposeStateTuple<F::State>,
    k: int,
    j: int,
) -> bool {
    let second = asks_second::<W, F>(model.rule, key.state1, key.state2);
    let walked = walked_arcs::<W, F>(model, key, second);
    0 <= k < walked.len() && 0 <= j < found_for::<W, F>(
        model.rule,
        key,
        walked[k],
        second,
    ).len()
}

/// What the pair tried there makes, if the filter allows it.
pub open spec fn tried_step<W: Weight, F: ComposeFilter<W>>(
    model: ComposeModel<W, F::Rule>,
    key: ComposeStateTuple<F::State>,
    k: int,
    j: int,
) -> Option<Step<W, ComposeStateTuple<F::State>>> {
    let (arc1, arc2) = tried::<W, F>(model, key, k, j);
    pair_step::<W, F>(model.rule, key, arc1, arc2)
}

/// The steps that an arc of the side walked makes are those of the pairs tried.
proof fn lemma_pair_steps<W: Weight, F: ComposeFilter<W>>(
    rule: F::Rule,
    key: ComposeStateTuple<F::State>,
    arc: Arc<W>,
    found: Seq<Arc<W>>,
    second: bool,
    n: int,
    step: Step<W, ComposeStateTuple<F::State>>,
)
    requires
        0 <= n <= found.len(),
    ensures
        pair_steps::<W, F>(rule, key, arc, found, second, n).contains(step) <==> exists|j: int|
            0 <= j < n && Some(step) == (if second {
                pair_step::<W, F>(rule, key, arc, #[trigger] found[j])
            } else {
                pair_step::<W, F>(rule, key, found[j], arc)
            }),
    decreases n,
{
    if n > 0 {
        lemma_pair_steps::<W, F>(rule, key, arc, found, second, n - 1, step);
        let before = pair_steps::<W, F>(rule, key, arc, found, second, n - 1);
        let after = pair_steps::<W, F>(rule, key, arc, found, second, n);
        let made = if second {
            pair_step::<W, F>(rule, key, arc, found[n - 1])
        } else {
            pair_step::<W, F>(rule, key, found[n - 1], arc)
        };
        if before.contains(step) {
            let i = choose|i: int| 0 <= i < before.len() && before[i] == step;
            assert(after[i] == step);
        }
        if made == Some(step) {
            assert(after[before.len() as int] == step);
        }
        if after.contains(step) {
            let i = choose|i: int| 0 <= i < after.len() && after[i] == step;
            if i < before.len() {
                assert(before[i] == step);
            } else {
                assert(made == Some(step));
            }
        }
    }
}

/// The steps that the arcs of the side walked make are those of the pairs tried.
pub proof fn lemma_walked_steps<W: Weight, F: ComposeFilter<W>>(
    model: ComposeModel<W, F::Rule>,
    key: ComposeStateTuple<F::State>,
    n: int,
    step: Step<W, ComposeStateTuple<F::State>>,
)
    requires
        0 <= n <= walked_arcs::<W, F>(
            model,
            key,
            asks_second::<W, F>(model.rule, key.state1, key.state2),
        ).len(),
    ensures
        ({
            let second = asks_second::<W, F>(model.rule, key.state1, key.state2);
            let walked = walked_arcs::<W, F>(model, key, second);
            walked_steps::<W, F>(model.rule, key, walked, second, n).contains(step) <==> exists|
                k: int,
                j: int,
            |
                0 <= k < n && is_tried::<W, F>(model, key, k, j) && #[trigger] tried_step::<W, F>(
                    model,
                    key,
                    k,
                    j,
                ) == Some(step)
        }),
    decreases n,
{
    let second = asks_second::<W, F>(model.rule, key.state1, key.state2);
    let walked = walked_arcs::<W, F>(model, key, second);
    let after = walked_steps::<W, F>(model.rule, key, walked, second, n);
    if n > 0 {
        lemma_walked_steps::<W, F>(model, key, n - 1, step);
        let before = walked_steps::<W, F>(model.rule, key, walked, second, n - 1);
        let found = found_for::<W, F>(model.rule, key, walked[n - 1], second);
        let made = pair_steps::<W, F>(
            model.rule,
            key,
            walked[n - 1],
            found,
            second,
            found.len() as int,
        );
        lemma_pair_steps::<W, F>(
            model.rule,
            key,
            walked[n - 1],
            found,
            second,
            found.len() as int,
            step,
        );
        assert(after == before + made);
        if after.contains(step) {
            let i = choose|i: int| 0 <= i < after.len() && after[i] == step;
            if i < before.len() {
                assert(before[i] == step);
                let (k, j) = choose|k: int, j: int|
                    0 <= k < n - 1 && is_tried::<W, F>(model, key, k, j) && #[trigger] tried_step::<
                        W,
                        F,
                    >(model, key, k, j) == Some(step);
                assert(tried_step::<W, F>(model, key, k, j) == Some(step));
            } else {
                assert(made[i - before.len()] == step);
                let j = choose|j: int|
                    0 <= j < found.len() && Some(step) == (if second {
                        pair_step::<W, F>(model.rule, key, walked[n - 1], #[trigger] found[j])
                    } else {
                        pair_step::<W, F>(model.rule, key, found[j], walked[n - 1])
                    });
                assert(is_tried::<W, F>(model, key, n - 1, j));
                assert(tried_step::<W, F>(model, key, n - 1, j) == Some(step));
            }
        }
        if exists|k: int, j: int|
            0 <= k < n && is_tried::<W, F>(model, key, k, j) && #[trigger] tried_step::<W, F>(
                model,
                key,
                k,
                j,
            ) == Some(step) {
            let (k, j) = choose|k: int, j: int|
                0 <= k < n && is_tried::<W, F>(model, key, k, j) && #[trigger] tried_step::<W, F>(
                    model,
                    key,
                    k,
                    j,
                ) == Some(step);
            if k < n - 1 {
                assert(before.contains(step));
                let i = choose|i: int| 0 <= i < before.len() && before[i] == step;
                assert(after[i] == step);
            } else {
                assert(0 <= j < found.len());
                assert(found[j] == found[j]);
                assert(made.contains(step));
                let i = choose|i: int| 0 <= i < made.len() && made[i] == step;
                assert(after[before.len() + i] == step);
            }
        }
    }
}

/// Arcs that carry a label are among the arcs, and carry it.
pub proof fn lemma_carrying_is_among<W>(arcs: Seq<Arc<W>>, output: bool, label: i32, k: int, j: int)
    requires
        0 <= k <= arcs.len(),
        0 <= j < carrying(arcs, output, label, k).len(),
    ensures
        exists|i: int|
            0 <= i < arcs.len() && #[trigger] arcs[i] == carrying(arcs, output, label, k)[j]
                && side_label(arcs[i], output) == label,
    decreases k,
{
    if k > 0 {
        let before = carrying(arcs, output, label, k - 1);
        if j < before.len() {
            lemma_carrying_is_among(arcs, output, label, k - 1, j);
        } else {
            assert(arcs[k - 1] == carrying(arcs, output, label, k)[j]);
        }
    }
}

/// An arc that carries a label is among those that do.
proof fn lemma_carrying_has<W>(arcs: Seq<Arc<W>>, output: bool, label: i32, k: int, i: int) -> (j:
    int)
    requires
        0 <= i < k <= arcs.len(),
        side_label(arcs[i], output) == label,
    ensures
        0 <= j < carrying(arcs, output, label, k).len(),
        carrying(arcs, output, label, k)[j] == arcs[i],
    decreases k,
{
    if i == k - 1 {
        carrying(arcs, output, label, k - 1).len() as int
    } else {
        lemma_carrying_has(arcs, output, label, k - 1, i)
    }
}

/// Whether weights multiply as in a commutative semiring.
#[verifier::opaque]
pub open spec fn multiplies_freely<W: Weight>() -> bool {
    &&& forall|a: W, b: W, c: W|
        #![trigger a.spec_times(b.spec_times(c))]
        #![trigger a.spec_times(b).spec_times(c)]
        a.spec_times(b.spec_times(c)) == a.spec_times(b).spec_times(c)
    &&& forall|a: W, b: W| #[trigger] a.spec_times(b) == b.spec_times(a)
    &&& forall|a: W| #[trigger] W::spec_one().spec_times(a) == a
}

/// Two products of two, taken crosswise.
proof fn lemma_crosswise<W: Weight>(a: W, b: W, x: W, y: W)
    requires
        multiplies_freely::<W>(),
    ensures
        a.spec_times(b).spec_times(x.spec_times(y)) == a.spec_times(x).spec_times(b.spec_times(y)),
        W::spec_one().spec_times(x) == x,
        W::spec_one().spec_times(y) == y,
{
    lemma_taken_together(a, b, x.spec_times(y));
    lemma_taken_together(b, x, y);
    lemma_taken_together(x, b, y);
    lemma_taken_together(a, x, b.spec_times(y));
    lemma_taken_together(y, x, b);
}

/// Factors can be taken together either way, and in either order.
proof fn lemma_taken_together<W: Weight>(a: W, b: W, c: W)
    requires
        multiplies_freely::<W>(),
    ensures
        a.spec_times(b.spec_times(c)) == a.spec_times(b).spec_times(c),
        b.spec_times(c) == c.spec_times(b),
        W::spec_one().spec_times(a) == a,
{
    reveal(multiplies_freely);
}

/// Whether the labels that may meet are labels: the first machine writes none that stands
/// for no label, and the second reads none.
pub open spec fn labels_are_plain<W: Weight>(l: FstV<W>, r: FstV<W>) -> bool {
    &&& forall|s: int, i: int|
        0 <= s < l.n() && 0 <= i < l.arcs(s).len() ==> (#[trigger] l.arcs(s)[i]).olabel != NO_LABEL
    &&& forall|s: int, i: int|
        0 <= s < r.n() && 0 <= i < r.arcs(s).len() ==> (#[trigger] r.arcs(s)[i]).ilabel != NO_LABEL
}

/// Whether a matcher finds the arcs of a machine.
pub open spec fn finds<W: Weight, M: Matcher<W>>(m: M, v: FstV<W>, output: bool) -> bool {
    forall|s: usize, label: i32| #[trigger]
        m.spec_matches(s, label) == arcs_matching(v, output, s, label)
}

/// Whether two arcs can be taken together: an epsilon of the first machine, the second
/// standing still; an epsilon of the second, the first standing still; or an arc of each
/// with the same label.
pub open spec fn go_together<W: Weight>(
    l: FstV<W>,
    r: FstV<W>,
    s1: usize,
    s2: usize,
    arc1: Arc<W>,
    arc2: Arc<W>,
) -> bool {
    ||| l.arcs(s1 as int).contains(arc1) && arc1.olabel == EPSILON && arc2 == staying::<W>(s2, false)
    ||| arc1 == staying::<W>(s1, true) && r.arcs(s2 as int).contains(arc2) && arc2.ilabel == EPSILON
    ||| l.arcs(s1 as int).contains(arc1) && r.arcs(s2 as int).contains(arc2) && arc1.olabel
        == arc2.ilabel && arc1.olabel != EPSILON
}

/// Takes the epsilons of the first machine first.
pub type InSequence<'a, W, M1, M2> = SequenceComposeFilter<'a, W, M1, M2>;

/// Arcs that can be taken together are tried.
pub proof fn lemma_pair_is_tried<W: Weight, M1: Matcher<W>, M2: Matcher<W>>(
    l: FstV<W>,
    r: FstV<W>,
    m1: M1,
    m2: M2,
    key: ComposeStateTuple<CharFilterState>,
    arc1: Arc<W>,
    arc2: Arc<W>,
    step: Step<W, ComposeStateTuple<CharFilterState>>,
)
    requires
        key.state1 < l.n(),
        key.state2 < r.n(),
        labels_are_plain(l, r),
        finds(m1, l, true),
        finds(m2, r, false),
        go_together(l, r, key.state1, key.state2, arc1, arc2),
        pair_step::<W, InSequence<W, M1, M2>>((l, m1, m2), key, arc1, arc2) == Some(step),
    ensures
        Composing::<W, InSequence<W, M1, M2>>::steps(
            ComposeModel { fst1: l, fst2: r, rule: (l, m1, m2) },
            key,
        ).contains(step),
{
    let model = ComposeModel { fst1: l, fst2: r, rule: (l, m1, m2) };
    let s1 = key.state1;
    let s2 = key.state2;
    let arcs1 = l.arcs(s1 as int);
    let arcs2 = r.arcs(s2 as int);
    let n1 = arcs1.len() as int;
    let n2 = arcs2.len() as int;
    let second = asks_second::<W, InSequence<W, M1, M2>>(model.rule, s1, s2);
    let walked = walked_arcs::<W, InSequence<W, M1, M2>>(model, key, second);
    let stays1 = staying::<W>(s1, true);
    let stays2 = staying::<W>(s2, false);
    let mut k: int = 0;
    let mut j: int = 0;
    if second {
        if arc1 == stays1 && arcs2.contains(arc2) && arc2.ilabel == EPSILON {
            let i2 = choose|i2: int| 0 <= i2 < n2 && arcs2[i2] == arc2;
            j = lemma_carrying_has(arcs2, false, EPSILON, n2, i2);
            assert(arcs_matching(r, false, s2, NO_LABEL) =~= carrying(arcs2, false, EPSILON, n2));
            assert(walked[0] == arc1);
        } else {
            let i1 = choose|i1: int| 0 <= i1 < n1 && arcs1[i1] == arc1;
            k = i1 + 1;
            assert(walked[k] == arc1);
            assert(l.arcs(s1 as int)[i1].olabel != NO_LABEL);
            if arc1.olabel == EPSILON {
                assert(arcs_matching(r, false, s2, EPSILON)[0] == stays2);
            } else {
                let i2 = choose|i2: int| 0 <= i2 < n2 && arcs2[i2] == arc2;
                j = lemma_carrying_has(arcs2, false, arc1.olabel, n2, i2);
                assert(arcs_matching(r, false, s2, arc1.olabel) =~= carrying(
                    arcs2,
                    false,
                    arc1.olabel,
                    n2,
                ));
            }
        }
    } else {
        if arc2 == stays2 && arcs1.contains(arc1) && arc1.olabel == EPSILON {
            let i1 = choose|i1: int| 0 <= i1 < n1 && arcs1[i1] == arc1;
            j = lemma_carrying_has(arcs1, true, EPSILON, n1, i1);
            assert(arcs_matching(l, true, s1, NO_LABEL) =~= carrying(arcs1, true, EPSILON, n1));
            assert(walked[0] == arc2);
        } else {
            let i2 = choose|i2: int| 0 <= i2 < n2 && arcs2[i2] == arc2;
            k = i2 + 1;
            assert(walked[k] == arc2);
            assert(r.arcs(s2 as int)[i2].ilabel != NO_LABEL);
            if arc2.ilabel == EPSILON {
                assert(arcs_matching(l, true, s1, EPSILON)[0] == stays1);
            } else {
                let i1 = choose|i1: int| 0 <= i1 < n1 && arcs1[i1] == arc1;
                j = lemma_carrying_has(arcs1, true, arc2.ilabel, n1, i1);
                assert(arcs_matching(l, true, s1, arc2.ilabel) =~= carrying(
                    arcs1,
                    true,
                    arc2.ilabel,
                    n1,
                ));
            }
        }
    }
    assert(tried::<W, InSequence<W, M1, M2>>(model, key, k, j) == (arc1, arc2));
    assert(is_tried::<W, InSequence<W, M1, M2>>(model, key, k, j));
    assert(tried_step::<W, InSequence<W, M1, M2>>(model, key, k, j) == Some(step));
    lemma_walked_steps::<W, InSequence<W, M1, M2>>(model, key, walked.len() as int, step);
}

/// A step of a composition is made by arcs that can be taken together.
pub proof fn lemma_step_comes_from<W: Weight, M1: Matcher<W>, M2: Matcher<W>>(
    l: FstV<W>,
    r: FstV<W>,
    m1: M1,
    m2: M2,
    key: ComposeStateTuple<CharFilterState>,
    step: Step<W, ComposeStateTuple<CharFilterState>>,
) -> (pair: (Arc<W>, Arc<W>))
    requires
        key.state1 < l.n(),
        key.state2 < r.n(),
        labels_are_plain(l, r),
        finds(m1, l, true),
        finds(m2, r, false),
        Composing::<W, InSequence<W, M1, M2>>::steps(
            ComposeModel { fst1: l, fst2: r, rule: (l, m1, m2) },
            key,
        ).contains(step),
    ensures
        go_together(l, r, key.state1, key.state2, pair.0, pair.1),
        pair_step::<W, InSequence<W, M1, M2>>((l, m1, m2), key, pair.0, pair.1) == Some(step),
{
    let model = ComposeModel { fst1: l, fst2: r, rule: (l, m1, m2) };
    let s1 = key.state1;
    let s2 = key.state2;
    let arcs1 = l.arcs(s1 as int);
    let arcs2 = r.arcs(s2 as int);
    let n1 = arcs1.len() as int;
    let n2 = arcs2.len() as int;
    let second = asks_second::<W, InSequence<W, M1, M2>>(model.rule, s1, s2);
    let walked = walked_arcs::<W, InSequence<W, M1, M2>>(model, key, second);
    lemma_walked_steps::<W, InSequence<W, M1, M2>>(model, key, walked.len() as int, step);
    let (k, j) = choose|k: int, j: int|
        0 <= k < walked.len() && is_tried::<W, InSequence<W, M1, M2>>(model, key, k, j)
            && #[trigger] tried_step::<W, InSequence<W, M1, M2>>(model, key, k, j) == Some(step);
    let found = found_for::<W, InSequence<W, M1, M2>>(model.rule, key, walked[k], second);
    let (arc1, arc2) = tried::<W, InSequence<W, M1, M2>>(model, key, k, j);
    if second {
        let label = arc1.olabel;
        if k > 0 {
            assert(arcs1[k - 1] == arc1);
            assert(l.arcs(s1 as int)[k - 1].olabel != NO_LABEL);
        }
        let want = if label == NO_LABEL {
            EPSILON
        } else {
            label
        };
        let head: int = if label == EPSILON {
            1
        } else {
            0
        };
        assert(found == arcs_matching(r, false, s2, label));
        if j >= head {
            let on = carrying(arcs2, false, want, n2);
            assert(found[j] == on[j - head]);
            lemma_carrying_is_among(arcs2, false, want, n2, j - head);
            let i2 = choose|i2: int|
                0 <= i2 < n2 && #[trigger] arcs2[i2] == on[j - head] && side_label(arcs2[i2], false)
                    == want;
            assert(arcs2[i2] == arc2);
            assert(r.arcs(s2 as int)[i2].ilabel != NO_LABEL);
        }
    } else {
        let label = arc2.ilabel;
        if k > 0 {
            assert(arcs2[k - 1] == arc2);
            assert(r.arcs(s2 as int)[k - 1].ilabel != NO_LABEL);
        }
        let want = if label == NO_LABEL {
            EPSILON
        } else {
            label
        };
        let head: int = if label == EPSILON {
            1
        } else {
            0
        };
        assert(found == arcs_matching(l, true, s1, label));
        if j >= head {
            let on = carrying(arcs1, true, want, n1);
            assert(found[j] == on[j - head]);
            lemma_carrying_is_among(arcs1, true, want, n1, j - head);
            let i1 = choose|i1: int|
                0 <= i1 < n1 && #[trigger] arcs1[i1] == on[j - head] && side_label(arcs1[i1], true)
                    == want;
            assert(arcs1[i1] == arc1);
            assert(l.arcs(s1 as int)[i1].olabel != NO_LABEL);
        }
    }
    (arc1, arc2)
}

/// Whether `c` is a composition of `l` and `r`, `table` holding the pair of states and
/// the filter state that each state stands for.
pub open spec fn pairs_up<W: Weight, M1: Matcher<W>, M2: Matcher<W>>(
    l: FstV<W>,
    r: FstV<W>,
    m1: M1,
    m2: M2,
    table: Seq<ComposeStateTuple<CharFilterState>>,
    c: FstV<W>,
) -> bool {
    &&& l.wf()
    &&& r.wf()
    &&& c.wf()
    &&& labels_are_plain(l, r)
    &&& finds(m1, l, true)
    &&& finds(m2, r, false)
    &&& table.len() == c.n()
    &&& forall|x: int|
        0 <= x < c.n() ==> unfolds::<
            W,
            ComposeStateTuple<CharFilterState>,
            Composing<W, InSequence<W, M1, M2>>,
        >(
            ComposeModel { fst1: l, fst2: r, rule: (l, m1, m2) },
            table[x],
            #[trigger] c.states[x],
            table,
        )
}

/// Whether a pair of states is a pair of states of two machines.
pub open spec fn is_there<W: Weight>(
    l: FstV<W>,
    r: FstV<W>,
    key: ComposeStateTuple<CharFilterState>,
) -> bool {
    key.state1 < l.n() && key.state2 < r.n()
}

/// The arc of the composition that two arcs make, where the filter lets them.
proof fn lemma_arc_for_pair<W: Weight, M1: Matcher<W>, M2: Matcher<W>>(
    l: FstV<W>,
    r: FstV<W>,
    m1: M1,
    m2: M2,
    table: Seq<ComposeStateTuple<CharFilterState>>,
    c: FstV<W>,
    x: int,
    arc1: Arc<W>,
    arc2: Arc<W>,
) -> (arc: Arc<W>)
    requires
        pairs_up::<W, M1, M2>(l, r, m1, m2, table, c),
        0 <= x < c.n(),
        is_there(l, r, table[x]),
        go_together(l, r, table[x].state1, table[x].state2, arc1, arc2),
        pair_step::<W, InSequence<W, M1, M2>>((l, m1, m2), table[x], arc1, arc2) is Some,
    ensures
        c.arcs(x).contains(arc),
        numbered(
            pair_step::<W, InSequence<W, M1, M2>>((l, m1, m2), table[x], arc1, arc2)->0,
            arc,
            table,
        ),
{
    let model = ComposeModel { fst1: l, fst2: r, rule: (l, m1, m2) };
    let key = table[x];
    let step = pair_step::<W, InSequence<W, M1, M2>>((l, m1, m2), key, arc1, arc2)->0;
    lemma_pair_is_tried::<W, M1, M2>(l, r, m1, m2, key, arc1, arc2, step);
    let made = Composing::<W, InSequence<W, M1, M2>>::steps(model, key);
    let i = choose|i: int| 0 <= i < made.len() && made[i] == step;
    let state = c.states[x];
    assert(numbered(made[i], state.arcs[i], table));
    assert(c.arcs(x)[i] == state.arcs[i]);
    state.arcs[i]
}

/// From a pair of states, two runs that meet make a run of the composition.
#[verifier::spinoff_prover]
#[verifier::rlimit(60)]
proof fn lemma_runs_meet<W: Weight, M1: Matcher<W>, M2: Matcher<W>>(
    l: FstV<W>,
    r: FstV<W>,
    m1: M1,
    m2: M2,
    table: Seq<ComposeStateTuple<CharFilterState>>,
    c: FstV<W>,
    x: int,
    run1: Seq<Arc<W>>,
    run2: Seq<Arc<W>>,
) -> (run: Seq<Arc<W>>)
    requires
        pairs_up::<W, M1, M2>(l, r, m1, m2, table, c),
        0 <= x < c.n(),
        is_ending(l, table[x].state1 as int, run1),
        is_ending(r, table[x].state2 as int, run2),
        writes(run1) == reads(run2),
        l.fin(end_of(table[x].state1 as int, run1)).spec_times(
            r.fin(end_of(table[x].state2 as int, run2)),
        ) != W::spec_zero(),
        table[x].filter_state == char_state(STATE_DEFAULT) || (run1.len() > 0 ==> run1[0].olabel
            != EPSILON),
    ensures
        is_ending(c, x, run),
        reads(run) == reads(run1),
        writes(run) == writes(run2),
        c.fin(end_of(x, run)) == l.fin(end_of(table[x].state1 as int, run1)).spec_times(
            r.fin(end_of(table[x].state2 as int, run2)),
        ),
        multiplies_freely::<W>() ==> total(run, c.fin(end_of(x, run))) == total(
            run1,
            l.fin(end_of(table[x].state1 as int, run1)),
        ).spec_times(total(run2, r.fin(end_of(table[x].state2 as int, run2)))),
    decreases run1.len() + run2.len(),
{
    let key = table[x];
    let s1 = key.state1 as int;
    let s2 = key.state2 as int;
    let stays1 = staying::<W>(key.state1, true);
    let stays2 = staying::<W>(key.state2, false);
    let state = c.states[x];
    assert(is_there(l, r, table[x]));
    if run1.len() > 0 {
        lemma_after_first(l, s1, run1);
        lemma_labels_from_front(run1[0], run1.drop_first());
    }
    if run2.len() > 0 {
        lemma_after_first(r, s2, run2);
        lemma_labels_from_front(run2[0], run2.drop_first());
    }
    if run1.len() > 0 && run1[0].olabel == EPSILON {
        // The first goes on alone.
        let rest1 = run1.drop_first();
        let arc = lemma_arc_for_pair::<W, M1, M2>(l, r, m1, m2, table, c, x, run1[0], stays2);
        let y = arc.nextstate as int;
        assert(writes(rest1) =~= writes(run1));
        let rest = lemma_runs_meet::<W, M1, M2>(l, r, m1, m2, table, c, y, rest1, run2);
        let run = seq![arc] + rest;
        lemma_go_first(c, x, arc, rest);
        lemma_labels_from_front(arc, rest);
        assert(reads(run) =~= reads(run1));
        assert(writes(run) =~= writes(run2));
        if multiplies_freely::<W>() {
            let t1 = total(rest1, l.fin(end_of(s1, run1)));
            let t2 = total(run2, r.fin(end_of(s2, run2)));
            let one = W::spec_one();
            lemma_crosswise(run1[0].weight, one, t1, t2);
        }
        run
    } else if run2.len() > 0 && run2[0].ilabel == EPSILON {
        // The second goes on alone.
        let rest2 = run2.drop_first();
        assert(!only_epsilons(l, key.state1, true)) by {
            if run1.len() > 0 {
                let i = choose|i: int| 0 <= i < l.arcs(s1).len() && l.arcs(s1)[i] == run1[0];
                assert(side_label(l.arcs(key.state1 as int)[i], true) != EPSILON);
            }
        }
        let arc = lemma_arc_for_pair::<W, M1, M2>(l, r, m1, m2, table, c, x, stays1, run2[0]);
        let y = arc.nextstate as int;
        assert(reads(rest2) =~= reads(run2));
        let rest = lemma_runs_meet::<W, M1, M2>(l, r, m1, m2, table, c, y, run1, rest2);
        let run = seq![arc] + rest;
        lemma_go_first(c, x, arc, rest);
        lemma_labels_from_front(arc, rest);
        assert(reads(run) =~= reads(run1));
        assert(writes(run) =~= writes(run2));
        if multiplies_freely::<W>() {
            let t1 = total(run1, l.fin(end_of(s1, run1)));
            let t2 = total(rest2, r.fin(end_of(s2, run2)));
            let one = W::spec_one();
            lemma_crosswise(one, run2[0].weight, t1, t2);
        }
        run
    } else if run1.len() == 0 || run2.len() == 0 {
        // Neither has a label left to meet the other's.
        if run1.len() > 0 {
            assert(writes(run1).len() > 0);
            assert(reads(run2).len() == 0);
        }
        if run2.len() > 0 {
            assert(reads(run2).len() > 0);
            assert(writes(run1).len() == 0);
        }
        let run = Seq::<Arc<W>>::empty();
        assert(state.final_weight == l.fin(s1).spec_times(r.fin(s2)));
        run
    } else {
        // Both go on.
        let rest1 = run1.drop_first();
        let rest2 = run2.drop_first();
        assert(writes(run1)[0] == run1[0].olabel);
        assert(reads(run2)[0] == run2[0].ilabel);
        assert(writes(rest1) =~= writes(run1).drop_first());
        assert(reads(rest2) =~= reads(run2).drop_first());
        let arc = lemma_arc_for_pair::<W, M1, M2>(l, r, m1, m2, table, c, x, run1[0], run2[0]);
        let y = arc.nextstate as int;
        let rest = lemma_runs_meet::<W, M1, M2>(l, r, m1, m2, table, c, y, rest1, rest2);
        let run = seq![arc] + rest;
        lemma_go_first(c, x, arc, rest);
        lemma_labels_from_front(arc, rest);
        assert(reads(run) =~= reads(run1));
        assert(writes(run) =~= writes(run2));
        if multiplies_freely::<W>() {
            let t1 = total(rest1, l.fin(end_of(s1, run1)));
            let t2 = total(rest2, r.fin(end_of(s2, run2)));
            lemma_crosswise(run1[0].weight, run2[0].weight, t1, t2);
        }
        run
    }
}

/// A run of the composition is made by two runs that meet.
#[verifier::spinoff_prover]
#[verifier::rlimit(60)]
proof fn lemma_run_parts<W: Weight, M1: Matcher<W>, M2: Matcher<W>>(
    l: FstV<W>,
    r: FstV<W>,
    m1: M1,
    m2: M2,
    table: Seq<ComposeStateTuple<CharFilterState>>,
    c: FstV<W>,
    x: int,
    run: Seq<Arc<W>>,
) -> (runs: (Seq<Arc<W>>, Seq<Arc<W>>))
    requires
        pairs_up::<W, M1, M2>(l, r, m1, m2, table, c),
        0 <= x < c.n(),
        is_there(l, r, table[x]),
        is_ending(c, x, run),
    ensures
        is_ending(l, table[x].state1 as int, runs.0),
        is_ending(r, table[x].state2 as int, runs.1),
        writes(runs.0) == reads(runs.1),
        reads(run) == reads(runs.0),
        writes(run) == writes(runs.1),
        is_made_of((l, m1, m2), table, x, run, runs.0, runs.1),
        multiplies_freely::<W>() ==> total(run, c.fin(end_of(x, run))) == total(
            runs.0,
            l.fin(end_of(table[x].state1 as int, runs.0)),
        ).spec_times(total(runs.1, r.fin(end_of(table[x].state2 as int, runs.1)))),
    decreases run.len(),
{
    let model = ComposeModel { fst1: l, fst2: r, rule: (l, m1, m2) };
    let key = table[x];
    let s1 = key.state1 as int;
    let s2 = key.state2 as int;
    let state = c.states[x];
    if run.len() == 0 {
        assert(state.final_weight == l.fin(s1).spec_times(r.fin(s2)));
        (Seq::empty(), Seq::empty())
    } else {
        let rest = run.drop_first();
        lemma_after_first(c, x, run);
        lemma_labels_from_front(run[0], rest);
        let y = run[0].nextstate as int;
        let made = Composing::<W, InSequence<W, M1, M2>>::steps(model, key);
        let i = choose|i: int| 0 <= i < c.arcs(x).len() && c.arcs(x)[i] == run[0];
        assert(numbered(made[i], state.arcs[i], table));
        assert(made.contains(made[i]));
        let (arc1, arc2) = lemma_step_comes_from::<W, M1, M2>(l, r, m1, m2, key, made[i]);
        assert(is_there(l, r, table[y])) by {
            if l.arcs(s1).contains(arc1) {
                let i1 = choose|i1: int| 0 <= i1 < l.arcs(s1).len() && l.arcs(s1)[i1] == arc1;
                assert(l.states[s1].arcs[i1].nextstate < l.n());
            }
            if r.arcs(s2).contains(arc2) {
                let i2 = choose|i2: int| 0 <= i2 < r.arcs(s2).len() && r.arcs(s2)[i2] == arc2;
                assert(r.states[s2].arcs[i2].nextstate < r.n());
            }
        }
        let (rest1, rest2) = lemma_run_parts::<W, M1, M2>(l, r, m1, m2, table, c, y, rest);
        let stays1 = staying::<W>(key.state1, true);
        let stays2 = staying::<W>(key.state2, false);
        let t1 = total(rest1, l.fin(end_of(table[y].state1 as int, rest1)));
        let t2 = total(rest2, r.fin(end_of(table[y].state2 as int, rest2)));
        let one = W::spec_one();
        if l.arcs(s1).contains(arc1) && arc1.olabel == EPSILON && arc2 == stays2 {
            let run1 = seq![arc1] + rest1;
            lemma_go_first(l, s1, arc1, rest1);
            lemma_labels_from_front(arc1, rest1);
            assert(writes(run1) =~= reads(rest2));
            assert(reads(run) =~= reads(run1));
            assert(writes(run) =~= writes(rest2));
            if multiplies_freely::<W>() {
                lemma_crosswise(arc1.weight, one, t1, t2);
            }
            assert(run1[0] == arc1 && run1.drop_first() =~= rest1);
            (run1, rest2)
        } else if arc1 == stays1 && r.arcs(s2).contains(arc2) && arc2.ilabel == EPSILON {
            let run2 = seq![arc2] + rest2;
            lemma_go_first(r, s2, arc2, rest2);
            lemma_labels_from_front(arc2, rest2);
            assert(writes(rest1) =~= reads(run2));
            assert(reads(run) =~= reads(rest1));
            assert(writes(run) =~= writes(run2));
            if multiplies_freely::<W>() {
                lemma_crosswise(one, arc2.weight, t1, t2);
            }
            assert(run2[0] == arc2 && run2.drop_first() =~= rest2);
            (rest1, run2)
        } else {
            let run1 = seq![arc1] + rest1;
            let run2 = seq![arc2] + rest2;
            lemma_go_first(l, s1, arc1, rest1);
            lemma_labels_from_front(arc1, rest1);
            lemma_go_first(r, s2, arc2, rest2);
            lemma_labels_from_front(arc2, rest2);
            assert(writes(run1) =~= reads(run2));
            assert(reads(run) =~= reads(run1));
            assert(writes(run) =~= writes(run2));
            if multiplies_freely::<W>() {
                lemma_crosswise(arc1.weight, arc2.weight, t1, t2);
            }
            assert(run1[0] == arc1 && run1.drop_first() =~= rest1);
            assert(run2[0] == arc2 && run2.drop_first() =~= rest2);
            (run1, run2)
        }
    }
}

/// Whether two machines have the same arcs, whatever their order, and end the same.
pub open spec fn same_arcs<W: Weight>(v: FstV<W>, w: FstV<W>) -> bool {
    &&& w.start == v.start
    &&& w.n() == v.n()
    &&& forall|s: int| 0 <= s < v.n() ==> #[trigger] w.fin(s) == v.fin(s)
    &&& forall|s: int, arc: Arc<W>|
        0 <= s < v.n() ==> (#[trigger] w.arcs(s).contains(arc) <==> v.arcs(s).contains(arc))
}

/// A list of numbers below its length, none twice, has each of them.
pub proof fn lemma_all_there(order: Seq<usize>, i: int)
    requires
        order.no_duplicates(),
        forall|j: int| 0 <= j < order.len() ==> #[trigger] order[j] < order.len(),
        0 <= i < order.len(),
    ensures
        exists|j: int| 0 <= j < order.len() && #[trigger] order[j] == i,
{
    let n = order.len() as int;
    let nums = Seq::new(order.len(), |j: int| order[j] as int);
    assert(nums.no_duplicates()) by {
        assert forall|a: int, b: int| 0 <= a < n && 0 <= b < n && a != b implies nums[a]
            != nums[b] by {
            assert(order[a] != order[b]);
        }
    }
    nums.unique_seq_to_set();
    let all = vstd::set_lib::set_int_range(0, n);
    vstd::set_lib::lemma_int_range(0, n);
    assert(nums.to_set().subset_of(all)) by {
        assert forall|x: int| nums.to_set().contains(x) implies all.contains(x) by {
            let j = choose|j: int| 0 <= j < n && nums[j] == x;
            assert(order[j] < n);
        }
    }
    vstd::set_lib::lemma_subset_equality(nums.to_set(), all);
    assert(all.contains(i));
    assert(nums.to_set().contains(i));
    let j = choose|j: int| 0 <= j < n && nums[j] == i;
    assert(order[j] == i);
}

/// Sorting keeps the arcs of a state.
pub proof fn lemma_sorting_keeps_arcs<W: Weight, C: ArcCompare<W>>(
    comp: C,
    arcs: Seq<Arc<W>>,
    sorted: Seq<Arc<W>>,
    arc: Arc<W>,
)
    requires
        is_stable_sort(comp, arcs, sorted),
    ensures
        sorted.contains(arc) <==> arcs.contains(arc),
{
    law_sorting_permutes(comp, arcs, sorted);
    let order = choose|order: Seq<usize>| #[trigger]
        is_stable_order(comp, arcs, order) && order.no_duplicates() && forall|i: int|
            0 <= i < order.len() ==> sorted[i] == arcs[#[trigger] order[i] as int];
    if sorted.contains(arc) {
        let j = choose|j: int| 0 <= j < sorted.len() && sorted[j] == arc;
        assert(arcs[order[j] as int] == arc);
    }
    if arcs.contains(arc) {
        let i = choose|i: int| 0 <= i < arcs.len() && arcs[i] == arc;
        lemma_all_there(order, i);
        let j = choose|j: int| 0 <= j < order.len() && #[trigger] order[j] == i;
        assert(sorted[j] == arc);
    }
}

/// A sorted copy has the same arcs.
pub proof fn lemma_copy_has_same_arcs<W: Weight>(v: FstV<W>, by_output: bool, w: FstV<W>)
    requires
        v.wf(),
        is_sorted_copy(v, by_output, w),
    ensures
        same_arcs(v, w),
        w.wf(),
{
    lemma_sorted_copy(v, by_output, w);
    if !said_sorted(v, by_output) {
        assert forall|s: int| 0 <= s < v.n() implies #[trigger] w.fin(s) == v.fin(s) by {
            assert(w.states[s].final_weight == v.states[s].final_weight);
        }
        assert forall|s: int, arc: Arc<W>| 0 <= s < v.n() implies (#[trigger] w.arcs(s).contains(
            arc,
        ) <==> v.arcs(s).contains(arc)) by {
            assert(w.states[s].final_weight == v.states[s].final_weight);
            if by_output {
                lemma_sorting_keeps_arcs(OLabelCompare, v.states[s].arcs, w.states[s].arcs, arc);
            } else {
                lemma_sorting_keeps_arcs(ILabelCompare, v.states[s].arcs, w.states[s].arcs, arc);
            }
        }
    }
}

/// Machines with the same arcs have the same runs.
pub proof fn lemma_same_runs<W: Weight>(v: FstV<W>, w: FstV<W>, s: int, run: Seq<Arc<W>>)
    requires
        same_arcs(v, w),
    ensures
        is_ending(w, s, run) <==> is_ending(v, s, run),
{
    if is_ending(v, s, run) {
        assert forall|i: int| 0 <= i < run.len() implies #[trigger] steps(w, s, run, i) by {
            assert(steps(v, s, run, i));
            assert(w.arcs(state_at(s, run, i)).contains(run[i]));
        }
    }
    if is_ending(w, s, run) {
        assert forall|i: int| 0 <= i < run.len() implies #[trigger] steps(v, s, run, i) by {
            assert(steps(w, s, run, i));
            assert(w.arcs(state_at(s, run, i)).contains(run[i]));
        }
    }
}

/// Plain labels stay plain in copies.
pub proof fn lemma_plain_copies<W: Weight>(v1: FstV<W>, v2: FstV<W>, l: FstV<W>, r: FstV<W>)
    requires
        labels_are_plain(v1, v2),
        same_arcs(v1, l),
        same_arcs(v2, r),
    ensures
        labels_are_plain(l, r),
{
    assert forall|s: int, i: int| 0 <= s < l.n() && 0 <= i < l.arcs(s).len() implies (
    #[trigger] l.arcs(s)[i]).olabel != NO_LABEL by {
        assert(l.arcs(s).contains(l.arcs(s)[i]));
        let j = choose|j: int| 0 <= j < v1.arcs(s).len() && v1.arcs(s)[j] == l.arcs(s)[i];
        assert(v1.arcs(s)[j].olabel != NO_LABEL);
    }
    assert forall|s: int, i: int| 0 <= s < r.n() && 0 <= i < r.arcs(s).len() implies (
    #[trigger] r.arcs(s)[i]).ilabel != NO_LABEL by {
        assert(r.arcs(s).contains(r.arcs(s)[i]));
        let j = choose|j: int| 0 <= j < v2.arcs(s).len() && v2.arcs(s)[j] == r.arcs(s)[i];
        assert(v2.arcs(s)[j].ilabel != NO_LABEL);
    }
}

/// What a composition is: the pairs that its states stand for.
pub proof fn lemma_composition_pairs_up<W: Weight>(
    l: FstV<W>,
    r: FstV<W>,
    m1: SortedMatcher<W>,
    m2: SortedMatcher<W>,
    o: FstV<W>,
    c: FstV<W>,
) -> (table: Seq<ComposeStateTuple<CharFilterState>>)
    requires
        l.wf(),
        r.wf(),
        l.start is Some,
        r.start is Some,
        labels_are_plain(l, r),
        searches(m1, l, true),
        searches(m2, r, false),
        is_composition::<W, SequenceComposeFilter<W, SortedMatcher<W>, SortedMatcher<W>>>(
            l,
            r,
            (l, m1, m2),
            o,
            c,
        ),
    ensures
        pairs_up::<W, SortedMatcher<W>, SortedMatcher<W>>(l, r, m1, m2, table, c),
        c.start == Some(0usize),
        c.n() > 0,
        table[0].state1 == l.start->0,
        table[0].state2 == r.start->0,
        table[0].filter_state == char_state(STATE_DEFAULT),
{
    let model = ComposeModel { fst1: l, fst2: r, rule: (l, m1, m2) };
    let start = compose_start::<
        W,
        SequenceComposeFilter<W, SortedMatcher<W>, SortedMatcher<W>>,
    >((l, m1, m2), l.start->0, r.start->0);
    lemma_composition_wf::<W, SequenceComposeFilter<W, SortedMatcher<W>, SortedMatcher<W>>>(
        l,
        r,
        (l, m1, m2),
        o,
        c,
    );
    let table = choose|table: Seq<ComposeStateTuple<CharFilterState>>| #[trigger]
        is_unfolding::<
            W,
            ComposeStateTuple<CharFilterState>,
            Composing<W, SequenceComposeFilter<W, SortedMatcher<W>, SortedMatcher<W>>>,
        >(model, start, true, table, c.states);
    table
}

/// Composing relates what the two machines relate: where the first reads `x` and writes
/// `y`, and the second reads `y` and writes `z`, the composition reads `x` and writes
/// `z`, and weighs what the two weigh together. Over a semiring that is not commutative
/// nothing is said of the weight.
///
/// The weights that the two runs end with have to come, together, to one that a path may
/// end with.
pub proof fn law_paths_compose<W: Weight>(
    v1: FstV<W>,
    v2: FstV<W>,
    o: FstV<W>,
    connects: bool,
    c: FstV<W>,
    run1: Seq<Arc<W>>,
    run2: Seq<Arc<W>>,
) -> (run: Seq<Arc<W>>)
    requires
        v1.wf(),
        v2.wf(),
        labels_are_plain(v1, v2),
        composes(v1, v2, o, connects, c),
        is_accepting(v1, run1),
        is_accepting(v2, run2),
        writes(run1) == reads(run2),
        spec_is_final(
            v1.fin(end_of(v1.start->0 as int, run1)).spec_times(
                v2.fin(end_of(v2.start->0 as int, run2)),
            ),
        ),
    ensures
        is_accepting(c, run),
        reads(run) == reads(run1),
        writes(run) == writes(run2),
        multiplies_freely::<W>() ==> accepted_weight(c, run) == accepted_weight(
            v1,
            run1,
        ).spec_times(accepted_weight(v2, run2)),
{
    let (l, r, raw) = choose|l: FstV<W>, r: FstV<W>, raw: FstV<W>|
        {
            &&& is_sorted_copy(v1, true, l)
            &&& is_sorted_copy(v2, false, r)
            &&& #[trigger] composes_sorted(l, r, o, raw)
            &&& c == (if connects {
                trimmed(raw)
            } else {
                raw
            })
        };
    let (m1, m2) = choose|m1: SortedMatcher<W>, m2: SortedMatcher<W>| #[trigger]
        searches(m1, l, true) && #[trigger] searches(m2, r, false) && is_composition::<
            W,
            SequenceComposeFilter<W, SortedMatcher<W>, SortedMatcher<W>>,
        >(l, r, (l, m1, m2), o, raw);
    lemma_copy_has_same_arcs(v1, true, l);
    lemma_copy_has_same_arcs(v2, false, r);
    lemma_plain_copies(v1, v2, l, r);
    lemma_same_runs(v1, l, v1.start->0 as int, run1);
    lemma_same_runs(v2, r, v2.start->0 as int, run2);
    let table = lemma_composition_pairs_up(l, r, m1, m2, o, raw);
    let run = lemma_runs_meet::<W, SortedMatcher<W>, SortedMatcher<W>>(
        l,
        r,
        m1,
        m2,
        table,
        raw,
        0,
        run1,
        run2,
    );
    if connects {
        let kept = kept_run(raw, run);
        assert(succeeds(raw, run));
        law_trimming_keeps_paths(raw, run);
        lemma_alike(kept, run, raw.fin(end_of(0, run)));
        lemma_trimmed_wf(raw);
        lemma_run_stays(c, c.start->0 as int, kept, kept.len() as int);
        kept
    } else {
        run
    }
}

/// A composition relates nothing else: whatever it accepts is made by a run of each
/// machine, the second reading what the first writes.
pub proof fn law_composed_paths_have_parts<W: Weight>(
    v1: FstV<W>,
    v2: FstV<W>,
    o: FstV<W>,
    connects: bool,
    c: FstV<W>,
    run: Seq<Arc<W>>,
) -> (runs: (Seq<Arc<W>>, Seq<Arc<W>>))
    requires
        v1.wf(),
        v2.wf(),
        labels_are_plain(v1, v2),
        composes(v1, v2, o, connects, c),
        succeeds(c, run),
    ensures
        is_accepting(v1, runs.0),
        is_accepting(v2, runs.1),
        writes(runs.0) == reads(runs.1),
        reads(run) == reads(runs.0),
        writes(run) == writes(runs.1),
        multiplies_freely::<W>() ==> accepted_weight(c, run) == accepted_weight(
            v1,
            runs.0,
        ).spec_times(accepted_weight(v2, runs.1)),
{
    let (l, r, raw) = choose|l: FstV<W>, r: FstV<W>, raw: FstV<W>|
        {
            &&& is_sorted_copy(v1, true, l)
            &&& is_sorted_copy(v2, false, r)
            &&& #[trigger] composes_sorted(l, r, o, raw)
            &&& c == (if connects {
                trimmed(raw)
            } else {
                raw
            })
        };
    let (m1, m2) = choose|m1: SortedMatcher<W>, m2: SortedMatcher<W>| #[trigger]
        searches(m1, l, true) && #[trigger] searches(m2, r, false) && is_composition::<
            W,
            SequenceComposeFilter<W, SortedMatcher<W>, SortedMatcher<W>>,
        >(l, r, (l, m1, m2), o, raw);
    lemma_copy_has_same_arcs(v1, true, l);
    lemma_copy_has_same_arcs(v2, false, r);
    lemma_plain_copies(v1, v2, l, r);
    lemma_composition_wf::<W, SequenceComposeFilter<W, SortedMatcher<W>, SortedMatcher<W>>>(
        l,
        r,
        (l, m1, m2),
        o,
        raw,
    );
    let from = if connects {
        let from = law_trimming_adds_no_path(raw, run);
        lemma_alike(run, from, raw.fin(end_of(raw.start->0 as int, from)));
        from
    } else {
        run
    };
    let table = lemma_composition_pairs_up(l, r, m1, m2, o, raw);
    lemma_run_stays(raw, 0, from, from.len() as int);
    let (run1, run2) = lemma_run_parts::<W, SortedMatcher<W>, SortedMatcher<W>>(
        l,
        r,
        m1,
        m2,
        table,
        raw,
        0,
        from,
    );
    lemma_same_runs(v1, l, v1.start->0 as int, run1);
    lemma_same_runs(v2, r, v2.start->0 as int, run2);
    (run1, run2)
}

/// Whether two arcs, taken together from what `key` stands for, make an arc of the
/// composition.
pub open spec fn make<W: Weight, M1: Matcher<W>, M2: Matcher<W>>(
    rule: (FstV<W>, M1, M2),
    key: ComposeStateTuple<CharFilterState>,
    arc1: Arc<W>,
    arc2: Arc<W>,
    arc: Arc<W>,
    table: Seq<ComposeStateTuple<CharFilterState>>,
) -> bool {
    match pair_step::<W, InSequence<W, M1, M2>>(rule, key, arc1, arc2) {
        Some(step) => numbered(step, arc, table),
        None => false,
    }
}

/// Whether a run of the composition from `x` is made of a run of each machine: each of
/// its arcs takes the next arc of the one, of the other, or of both.
pub open spec fn is_made_of<W: Weight, M1: Matcher<W>, M2: Matcher<W>>(
    rule: (FstV<W>, M1, M2),
    table: Seq<ComposeStateTuple<CharFilterState>>,
    x: int,
    run: Seq<Arc<W>>,
    run1: Seq<Arc<W>>,
    run2: Seq<Arc<W>>,
) -> bool
    decreases run.len(),
{
    if run.len() == 0 {
        run1.len() == 0 && run2.len() == 0
    } else {
        let key = table[x];
        let arc = run[0];
        let y = arc.nextstate as int;
        let rest = run.drop_first();
        ||| {
            &&& run1.len() > 0 && run1[0].olabel == EPSILON
            &&& make(rule, key, run1[0], staying::<W>(key.state2, false), arc, table)
            &&& is_made_of(rule, table, y, rest, run1.drop_first(), run2)
        }
        ||| {
            &&& run2.len() > 0 && run2[0].ilabel == EPSILON
            &&& make(rule, key, staying::<W>(key.state1, true), run2[0], arc, table)
            &&& is_made_of(rule, table, y, rest, run1, run2.drop_first())
        }
        ||| {
            &&& run1.len() > 0 && run2.len() > 0 && run1[0].olabel == run2[0].ilabel
                && run1[0].olabel != EPSILON
            &&& make(rule, key, run1[0], run2[0], arc, table)
            &&& is_made_of(rule, table, y, rest, run1.drop_first(), run2.drop_first())
        }
    }
}

/// Once the second machine has gone ahead, an epsilon that the first still has to take is
/// never taken.
proof fn lemma_too_late<W: Weight, M1: Matcher<W>, M2: Matcher<W>>(
    rule: (FstV<W>, M1, M2),
    table: Seq<ComposeStateTuple<CharFilterState>>,
    x: int,
    run: Seq<Arc<W>>,
    run1: Seq<Arc<W>>,
    run2: Seq<Arc<W>>,
)
    requires
        table[x].filter_state != char_state(STATE_DEFAULT),
        run1.len() > 0,
        run1[0].olabel == EPSILON,
        rule.0.arcs(table[x].state1 as int).contains(run1[0]),
    ensures
        !is_made_of(rule, table, x, run, run1, run2),
    decreases run.len(),
{
    if is_made_of(rule, table, x, run, run1, run2) {
        let key = table[x];
        let y = run[0].nextstate as int;
        let i = choose|i: int|
            0 <= i < rule.0.arcs(key.state1 as int).len() && rule.0.arcs(key.state1 as int)[i]
                == run1[0];
        assert(side_label(rule.0.arcs(key.state1 as int)[i], true) == EPSILON);
        assert(!no_epsilons(rule.0, key.state1, true));
        assert(key.filter_state.state != STATE_DEFAULT);
        lemma_too_late(rule, table, y, run.drop_first(), run1, run2.drop_first());
    }
}

/// Two runs of each machine are found once: whatever epsilons there are to take, in one
/// order only do they make a run of the composition.
pub proof fn law_each_pair_is_found_once<W: Weight, M1: Matcher<W>, M2: Matcher<W>>(
    rule: (FstV<W>, M1, M2),
    table: Seq<ComposeStateTuple<CharFilterState>>,
    x: int,
    a: Seq<Arc<W>>,
    b: Seq<Arc<W>>,
    run1: Seq<Arc<W>>,
    run2: Seq<Arc<W>>,
)
    requires
        rule.0.wf(),
        distinct(table),
        is_ending(rule.0, table[x].state1 as int, run1),
        is_made_of(rule, table, x, a, run1, run2),
        is_made_of(rule, table, x, b, run1, run2),
    ensures
        a == b,
    decreases a.len(),
{
    let key = table[x];
    if a.len() == 0 || b.len() == 0 {
        assert(a =~= b);
    } else {
        let rest1 = run1.drop_first();
        let rest2 = run2.drop_first();
        let resta = a.drop_first();
        let restb = b.drop_first();
        let y = a[0].nextstate as int;
        let z = b[0].nextstate as int;
        if run1.len() > 0 {
            lemma_after_first(rule.0, key.state1 as int, run1);
        }
        if run1.len() > 0 && run1[0].olabel == EPSILON {
            let i = choose|i: int|
                0 <= i < rule.0.arcs(key.state1 as int).len() && rule.0.arcs(key.state1 as int)[i]
                    == run1[0];
            assert(side_label(rule.0.arcs(key.state1 as int)[i], true) == EPSILON);
            assert(!no_epsilons(rule.0, key.state1, true));
            if run2.len() > 0 && run2[0].ilabel == EPSILON {
                let stays1 = staying::<W>(key.state1, true);
                if make(rule, key, stays1, run2[0], a[0], table) {
                    lemma_too_late(rule, table, y, resta, run1, rest2);
                }
                if make(rule, key, stays1, run2[0], b[0], table) {
                    lemma_too_late(rule, table, z, restb, run1, rest2);
                }
            }
        }
        lemma_same_end(a[0], b[0], table);
        assert(a[0] == b[0]);
        if run1.len() > 0 && run1[0].olabel == EPSILON {
            law_each_pair_is_found_once(rule, table, y, resta, restb, rest1, run2);
        } else if run2.len() > 0 && run2[0].ilabel == EPSILON {
            law_each_pair_is_found_once(rule, table, y, resta, restb, run1, rest2);
        } else {
            law_each_pair_is_found_once(rule, table, y, resta, restb, rest1, rest2);
        }
        assert(a =~= seq![a[0]] + resta);
        assert(b =~= seq![b[0]] + restb);
    }
}

/// Arcs that lead to the same value lead to the same state.
proof fn lemma_same_end<W: Weight>(
    a: Arc<W>,
    b: Arc<W>,
    table: Seq<ComposeStateTuple<CharFilterState>>,
)
    requires
        distinct(table),
    ensures
        a.nextstate < table.len() && b.nextstate < table.len() && table[a.nextstate as int]
            == table[b.nextstate as int] ==> a.nextstate == b.nextstate,
{
    if a.nextstate < table.len() && b.nextstate < table.len() && table[a.nextstate as int]
        == table[b.nextstate as int] {
        lemma_one_number(table, a.nextstate as int, b.nextstate as int);
    }
}

} // verus!
