//! Looking ahead composes to what plain composition composes to.
use crate::arc::{Arc, EPSILON, NO_LABEL};
use crate::compose::{
    compose_start, composes, composes_sorted, is_composition, is_sequence_composition,
    is_sorted_copy, lemma_composition_wf, lemma_sorted_copy, pair_step, searches, ComposeModel,
    ComposeStateTuple, Composing,
};
use crate::compose_filter::{
    no_epsilons, only_epsilons, ComposeFilter, SequenceComposeFilter,
};
use crate::compose_laws::{
    finds, go_together, labels_are_plain, lemma_copy_has_same_arcs, lemma_pair_is_tried,
    lemma_plain_copies, lemma_step_comes_from, same_arcs, InSequence,
};
use crate::compose_lookahead::{
    ahead_rule, composes_ahead, is_ahead_composition, labels_meet,
    law_looking_ahead_loses_no_success, led, looks_ahead, looks_up, succeeds_along, AheadFilter,
    AheadMatcher, InnerFilter, PairStep, PlainMatcher,
};
use crate::compose_unique::law_sorted_copy_is_one;
use crate::connect::{
    kept_run, law_trimming_adds_no_path, law_trimming_keeps_paths, succeeds, trimmed,
};
use crate::filter_state::CharFilterState;
use crate::label_reachable::ReachV;
use crate::matcher::{labels_sorted, said_sorted, Matcher, SortedMatcher};
use crate::paths::{
    accepted_weight, are_alike, end_of, is_accepting, is_ending, lemma_after_first, lemma_alike,
    lemma_go_first, lemma_run_stays,
};
use crate::unfold::{is_unfolding, numbered, unfolds, Unfolding};
use crate::vector_fst::FstV;
use crate::weight::Weight;
use vstd::prelude::*;

verus! {

/// Whether a run has the labels and weights of a path of a composition.
pub open spec fn follows<W: Weight>(run: Seq<Arc<W>>, path: Seq<PairStep<W>>) -> bool {
    &&& run.len() == path.len()
    &&& forall|i: int|
        0 <= i < run.len() ==> (#[trigger] run[i]).ilabel == path[i].ilabel && run[i].olabel
            == path[i].olabel && run[i].weight == path[i].weight
}

/// Whether each state of a machine is what the pair that it stands for unfolds to.
pub open spec fn stands_for_pairs<W: Weight, F: ComposeFilter<W, State = CharFilterState>>(
    model: ComposeModel<W, F::Rule>,
    table: Seq<ComposeStateTuple<CharFilterState>>,
    c: FstV<W>,
) -> bool {
    &&& c.wf()
    &&& table.len() == c.n()
    &&& forall|x: int|
        0 <= x < c.n() ==> unfolds::<
            W,
            ComposeStateTuple<CharFilterState>,
            Composing<W, F>,
        >(model, table[x], #[trigger] c.states[x], table)
}

/// A run of a composition is a way for the composition to go.
proof fn lemma_run_is_path<W: Weight, F: ComposeFilter<W, State = CharFilterState>>(
    model: ComposeModel<W, F::Rule>,
    table: Seq<ComposeStateTuple<CharFilterState>>,
    c: FstV<W>,
    x: int,
    run: Seq<Arc<W>>,
) -> (path: Seq<PairStep<W>>)
    requires
        stands_for_pairs::<W, F>(model, table, c),
        0 <= x < c.n(),
        is_ending(c, x, run),
    ensures
        follows(run, path),
        succeeds_along::<W, F>(model, table[x], path),
        c.fin(end_of(x, run)) == Composing::<W, F>::ending(model, led(table[x], path)),
    decreases run.len(),
{
    let state = c.states[x];
    assert(unfolds::<W, ComposeStateTuple<CharFilterState>, Composing<W, F>>(
        model,
        table[x],
        state,
        table,
    ));
    if run.len() == 0 {
        let path = Seq::<PairStep<W>>::empty();
        assert(led(table[x], path) == table[x]);
        path
    } else {
        lemma_after_first(c, x, run);
        let rest = run.drop_first();
        let y = run[0].nextstate as int;
        let made = Composing::<W, F>::steps(model, table[x]);
        let i = choose|i: int| 0 <= i < c.arcs(x).len() && c.arcs(x)[i] == run[0];
        assert(numbered(made[i], state.arcs[i], table));
        let more = lemma_run_is_path::<W, F>(model, table, c, y, rest);
        let path = seq![made[i]] + more;
        assert(path.drop_first() =~= more);
        assert(made.contains(path[0]));
        assert(led(table[x], path) == led(table[y], more)) by {
            if more.len() > 0 {
                assert(path.last() == more.last());
            }
        }
        assert forall|j: int| 0 <= j < run.len() implies (#[trigger] run[j]).ilabel
            == path[j].ilabel && run[j].olabel == path[j].olabel && run[j].weight
            == path[j].weight by {
            if j > 0 {
                assert(rest[j - 1].ilabel == more[j - 1].ilabel);
            }
        }
        path
    }
}

/// A way for a composition to go is a run of it.
proof fn lemma_path_is_run<W: Weight, F: ComposeFilter<W, State = CharFilterState>>(
    model: ComposeModel<W, F::Rule>,
    table: Seq<ComposeStateTuple<CharFilterState>>,
    c: FstV<W>,
    x: int,
    path: Seq<PairStep<W>>,
) -> (run: Seq<Arc<W>>)
    requires
        stands_for_pairs::<W, F>(model, table, c),
        0 <= x < c.n(),
        succeeds_along::<W, F>(model, table[x], path),
    ensures
        follows(run, path),
        is_ending(c, x, run),
        c.fin(end_of(x, run)) == Composing::<W, F>::ending(model, led(table[x], path)),
    decreases path.len(),
{
    let state = c.states[x];
    assert(unfolds::<W, ComposeStateTuple<CharFilterState>, Composing<W, F>>(
        model,
        table[x],
        state,
        table,
    ));
    if path.len() == 0 {
        Seq::<Arc<W>>::empty()
    } else {
        let more = path.drop_first();
        let made = Composing::<W, F>::steps(model, table[x]);
        let i = choose|i: int| 0 <= i < made.len() && made[i] == path[0];
        assert(numbered(made[i], state.arcs[i], table));
        let arc = c.arcs(x)[i];
        let y = arc.nextstate as int;
        assert(led(table[x], path) == led(table[y], more)) by {
            if more.len() > 0 {
                assert(path.last() == more.last());
            }
        }
        let rest = lemma_path_is_run::<W, F>(model, table, c, y, more);
        lemma_go_first(c, x, arc, rest);
        let run = seq![arc] + rest;
        assert forall|j: int| 0 <= j < run.len() implies (#[trigger] run[j]).ilabel
            == path[j].ilabel && run[j].olabel == path[j].olabel && run[j].weight
            == path[j].weight by {
            if j > 0 {
                assert(rest[j - 1].ilabel == more[j - 1].ilabel);
            }
        }
        run
    }
}

/// The pairs that the states of a composition stand for.
proof fn lemma_composition_stands<W: Weight, F: ComposeFilter<W, State = CharFilterState>>(
    l: FstV<W>,
    r: FstV<W>,
    rule: F::Rule,
    o: FstV<W>,
    c: FstV<W>,
) -> (table: Seq<ComposeStateTuple<CharFilterState>>)
    requires
        l.wf(),
        r.wf(),
        l.start is Some,
        r.start is Some,
        is_composition::<W, F>(l, r, rule, o, c),
        c.wf(),
    ensures
        stands_for_pairs::<W, F>(ComposeModel { fst1: l, fst2: r, rule }, table, c),
        c.start == Some(0usize),
        c.n() > 0,
        table[0] == compose_start::<W, F>(rule, l.start->0, r.start->0),
{
    let model = ComposeModel { fst1: l, fst2: r, rule };
    let start = compose_start::<W, F>(rule, l.start->0, r.start->0);
    choose|table: Seq<ComposeStateTuple<CharFilterState>>| #[trigger]
        is_unfolding::<W, ComposeStateTuple<CharFilterState>, Composing<W, F>>(
            model,
            start,
            true,
            table,
            c.states,
        )
}

/// The filter looks at which epsilons a state writes, not at the order of its arcs.
proof fn lemma_same_epsilons<W: Weight>(l: FstV<W>, l2: FstV<W>, s: usize)
    requires
        same_arcs(l, l2),
        s < l.n(),
    ensures
        only_epsilons(l, s, true) == only_epsilons(l2, s, true),
        no_epsilons(l, s, true) == no_epsilons(l2, s, true),
{
    let a = l.arcs(s as int);
    let b = l2.arcs(s as int);
    assert forall|i: int| 0 <= i < a.len() implies exists|j: int|
        0 <= j < b.len() && b[j] == #[trigger] a[i] by {
        assert(a.contains(a[i]));
        assert(b.contains(a[i]));
    }
    assert forall|i: int| 0 <= i < b.len() implies exists|j: int|
        0 <= j < a.len() && a[j] == #[trigger] b[i] by {
        assert(b.contains(b[i]));
        assert(a.contains(b[i]));
    }
}

/// The steps that leave a pair of states do not depend on the order of the arcs.
proof fn lemma_same_step<
    W: Weight,
    M1: Matcher<W>,
    M2: Matcher<W>,
    N1: Matcher<W>,
    N2: Matcher<W>,
>(
    l: FstV<W>,
    r: FstV<W>,
    m1: M1,
    m2: M2,
    l2: FstV<W>,
    r2: FstV<W>,
    n1: N1,
    n2: N2,
    key: ComposeStateTuple<CharFilterState>,
    step: PairStep<W>,
)
    requires
        l.wf(),
        r.wf(),
        same_arcs(l, l2),
        same_arcs(r, r2),
        labels_are_plain(l, r),
        labels_are_plain(l2, r2),
        finds(m1, l, true),
        finds(m2, r, false),
        finds(n1, l2, true),
        finds(n2, r2, false),
        key.state1 < l.n(),
        key.state2 < r.n(),
        Composing::<W, InSequence<W, M1, M2>>::steps(
            ComposeModel { fst1: l, fst2: r, rule: (l, m1, m2) },
            key,
        ).contains(step),
    ensures
        Composing::<W, InSequence<W, N1, N2>>::steps(
            ComposeModel { fst1: l2, fst2: r2, rule: (l2, n1, n2) },
            key,
        ).contains(step),
        step.to.state1 < l.n(),
        step.to.state2 < r.n(),
{
    let (arc1, arc2) = lemma_step_comes_from(l, r, m1, m2, key, step);
    let s1 = key.state1 as int;
    let s2 = key.state2 as int;
    lemma_same_epsilons(l, l2, key.state1);
    assert(l2.arcs(s1).contains(arc1) <==> l.arcs(s1).contains(arc1));
    assert(r2.arcs(s2).contains(arc2) <==> r.arcs(s2).contains(arc2));
    if l.arcs(s1).contains(arc1) {
        let i = choose|i: int| 0 <= i < l.arcs(s1).len() && l.arcs(s1)[i] == arc1;
        assert(l.states[s1].arcs[i].nextstate < l.n());
    }
    if r.arcs(s2).contains(arc2) {
        let i = choose|i: int| 0 <= i < r.arcs(s2).len() && r.arcs(s2)[i] == arc2;
        assert(r.states[s2].arcs[i].nextstate < r.n());
    }
    assert(go_together(l2, r2, key.state1, key.state2, arc1, arc2));
    assert(pair_step::<W, InSequence<W, N1, N2>>((l2, n1, n2), key, arc1, arc2) == Some(step));
    lemma_pair_is_tried(l2, r2, n1, n2, key, arc1, arc2, step);
}

/// A composition succeeds along the same paths whatever the order of the arcs.
proof fn lemma_same_successes<
    W: Weight,
    M1: Matcher<W>,
    M2: Matcher<W>,
    N1: Matcher<W>,
    N2: Matcher<W>,
>(
    l: FstV<W>,
    r: FstV<W>,
    m1: M1,
    m2: M2,
    l2: FstV<W>,
    r2: FstV<W>,
    n1: N1,
    n2: N2,
    key: ComposeStateTuple<CharFilterState>,
    path: Seq<PairStep<W>>,
)
    requires
        l.wf(),
        r.wf(),
        same_arcs(l, l2),
        same_arcs(r, r2),
        labels_are_plain(l, r),
        labels_are_plain(l2, r2),
        finds(m1, l, true),
        finds(m2, r, false),
        finds(n1, l2, true),
        finds(n2, r2, false),
        key.state1 < l.n(),
        key.state2 < r.n(),
        succeeds_along::<W, InSequence<W, M1, M2>>(
            ComposeModel { fst1: l, fst2: r, rule: (l, m1, m2) },
            key,
            path,
        ),
    ensures
        succeeds_along::<W, InSequence<W, N1, N2>>(
            ComposeModel { fst1: l2, fst2: r2, rule: (l2, n1, n2) },
            key,
            path,
        ),
        Composing::<W, InSequence<W, M1, M2>>::ending(
            ComposeModel { fst1: l, fst2: r, rule: (l, m1, m2) },
            led(key, path),
        ) == Composing::<W, InSequence<W, N1, N2>>::ending(
            ComposeModel { fst1: l2, fst2: r2, rule: (l2, n1, n2) },
            led(key, path),
        ),
    decreases path.len(),
{
    if path.len() > 0 {
        let more = path.drop_first();
        lemma_same_step(l, r, m1, m2, l2, r2, n1, n2, key, path[0]);
        assert(led(key, path) == led(path[0].to, more)) by {
            if more.len() > 0 {
                assert(path.last() == more.last());
            }
        }
        lemma_same_successes(l, r, m1, m2, l2, r2, n1, n2, path[0].to, more);
    } else {
        assert(l2.fin(key.state1 as int) == l.fin(key.state1 as int));
        assert(r2.fin(key.state2 as int) == r.fin(key.state2 as int));
    }
}

/// What ends a path is the same with and without looking ahead.
proof fn lemma_same_ending<'a, W: Weight>(
    l: FstV<W>,
    r: FstV<W>,
    m1: AheadMatcher<'a, W>,
    m2: PlainMatcher<'a, W>,
    key: ComposeStateTuple<CharFilterState>,
)
    ensures
        Composing::<W, AheadFilter<'a, W>>::ending(
            ComposeModel { fst1: l, fst2: r, rule: ahead_rule(l, r, m1, m2) },
            key,
        ) == Composing::<W, InnerFilter<'a, W>>::ending(
            ComposeModel { fst1: l, fst2: r, rule: (l, m1, m2) },
            key,
        ),
{
}

/// Two machines compose to the same paths with and without looking ahead: each accepting
/// path of the one composition is there in the other, with the same labels and weights
/// arc by arc.
proof fn lemma_same_paths<'a, W: Weight>(
    l: FstV<W>,
    r: FstV<W>,
    index: ReachV,
    m1: AheadMatcher<'a, W>,
    m2: PlainMatcher<'a, W>,
    l2: FstV<W>,
    r2: FstV<W>,
    n1: SortedMatcher<'a, W>,
    n2: SortedMatcher<'a, W>,
    o1: FstV<W>,
    o2: FstV<W>,
    ahead: FstV<W>,
    plain: FstV<W>,
    from_ahead: bool,
    run: Seq<Arc<W>>,
) -> (other: Seq<Arc<W>>)
    requires
        l.wf(),
        r.wf(),
        l2.wf(),
        r2.wf(),
        same_arcs(l, l2),
        same_arcs(r, r2),
        labels_meet(l, r),
        !index.reach_input,
        index.describes(l),
        labels_sorted(l, true),
        looks_ahead(m1, l, index),
        looks_up(m2, r),
        searches(n1, l2, true),
        searches(n2, r2, false),
        is_composition::<W, AheadFilter<'a, W>>(l, r, ahead_rule(l, r, m1, m2), o1, ahead),
        is_composition::<
            W,
            SequenceComposeFilter<'a, W, SortedMatcher<'a, W>, SortedMatcher<'a, W>>,
        >(l2, r2, (l2, n1, n2), o2, plain),
        ahead.wf(),
        plain.wf(),
        is_accepting(
            if from_ahead {
                ahead
            } else {
                plain
            },
            run,
        ),
    ensures
        is_accepting(
            if from_ahead {
                plain
            } else {
                ahead
            },
            other,
        ),
        are_alike(run, other),
        (if from_ahead {
            ahead
        } else {
            plain
        }).fin(end_of(0, run)) == (if from_ahead {
            plain
        } else {
            ahead
        }).fin(end_of(0, other)),
        ahead.start == Some(0usize),
        plain.start == Some(0usize),
{
    let rule_a = ahead_rule(l, r, m1, m2);
    let rule_p = (l2, n1, n2);
    let model_a = ComposeModel { fst1: l, fst2: r, rule: rule_a };
    let model_p = ComposeModel { fst1: l2, fst2: r2, rule: rule_p };
    let table_a = lemma_composition_stands::<W, AheadFilter<'a, W>>(l, r, rule_a, o1, ahead);
    let table_p = lemma_composition_stands::<
        W,
        SequenceComposeFilter<'a, W, SortedMatcher<'a, W>, SortedMatcher<'a, W>>,
    >(l2, r2, rule_p, o2, plain);
    let key = table_a[0];
    assert(table_p[0] == key);
    lemma_plain_copies(l, r, l2, r2);
    lemma_reversed_same_arcs(l, l2);
    lemma_reversed_same_arcs(r, r2);
    if from_ahead {
        let path = lemma_run_is_path::<W, AheadFilter<'a, W>>(model_a, table_a, ahead, 0, run);
        law_looking_ahead_loses_no_success(l, r, index, m1, m2, key, path);
        lemma_same_successes(l, r, m1, m2, l2, r2, n1, n2, key, path);
        lemma_same_ending(l, r, m1, m2, led(key, path));
        let other = lemma_path_is_run::<
            W,
            SequenceComposeFilter<'a, W, SortedMatcher<'a, W>, SortedMatcher<'a, W>>,
        >(model_p, table_p, plain, 0, path);
        lemma_follow_the_same(run, other, path);
        other
    } else {
        let path = lemma_run_is_path::<
            W,
            SequenceComposeFilter<'a, W, SortedMatcher<'a, W>, SortedMatcher<'a, W>>,
        >(model_p, table_p, plain, 0, run);
        lemma_same_successes(l2, r2, n1, n2, l, r, m1, m2, key, path);
        law_looking_ahead_loses_no_success(l, r, index, m1, m2, key, path);
        lemma_same_ending(l, r, m1, m2, led(key, path));
        let other = lemma_path_is_run::<W, AheadFilter<'a, W>>(model_a, table_a, ahead, 0, path);
        lemma_follow_the_same(run, other, path);
        other
    }
}

proof fn lemma_reversed_same_arcs<W: Weight>(v: FstV<W>, w: FstV<W>)
    requires
        same_arcs(v, w),
    ensures
        same_arcs(w, v),
{
    assert forall|s: int, arc: Arc<W>| 0 <= s < w.n() implies (#[trigger] v.arcs(s).contains(arc)
        <==> w.arcs(s).contains(arc)) by {
        assert(w.arcs(s).contains(arc) <==> v.arcs(s).contains(arc));
    }
    assert forall|s: int| 0 <= s < w.n() implies #[trigger] v.fin(s) == w.fin(s) by {
        assert(w.fin(s) == v.fin(s));
    }
}

proof fn lemma_follow_the_same<W: Weight>(a: Seq<Arc<W>>, b: Seq<Arc<W>>, path: Seq<PairStep<W>>)
    requires
        follows(a, path),
        follows(b, path),
    ensures
        are_alike(a, b),
{
    assert forall|i: int| 0 <= i < a.len() implies (#[trigger] a[i]).ilabel == b[i].ilabel
        && a[i].olabel == b[i].olabel && a[i].weight == b[i].weight by {
        assert(b[i].ilabel == path[i].ilabel);
    }
}

/// The same of the two once they have been trimmed.
proof fn lemma_same_trimmed_paths<'a, W: Weight>(
    l: FstV<W>,
    r: FstV<W>,
    index: ReachV,
    l2: FstV<W>,
    r2: FstV<W>,
    o1: FstV<W>,
    o2: FstV<W>,
    ahead: FstV<W>,
    plain: FstV<W>,
    from_ahead: bool,
    run: Seq<Arc<W>>,
) -> (other: Seq<Arc<W>>)
    requires
        l.wf(),
        r.wf(),
        l2.wf(),
        r2.wf(),
        same_arcs(l, l2),
        same_arcs(r, r2),
        labels_meet(l, r),
        !index.reach_input,
        index.describes(l),
        labels_sorted(l, true),
        is_ahead_composition(l, r, index, o1, ahead),
        is_sequence_composition(l2, r2, o2, plain),
        ahead.n() <= usize::MAX,
        plain.n() <= usize::MAX,
        succeeds(
            trimmed(
                if from_ahead {
                    ahead
                } else {
                    plain
                },
            ),
            run,
        ),
    ensures
        ({
            let here = trimmed(
                if from_ahead {
                    ahead
                } else {
                    plain
                },
            );
            let there = trimmed(
                if from_ahead {
                    plain
                } else {
                    ahead
                },
            );
            &&& succeeds(there, other)
            &&& are_alike(run, other)
            &&& accepted_weight(there, other) == accepted_weight(here, run)
        }),
{
    let (m1, m2) = choose|m1: AheadMatcher<W>, m2: PlainMatcher<W>| #[trigger]
        looks_ahead(m1, l, index) && #[trigger] looks_up(m2, r) && is_composition::<
            W,
            AheadFilter<W>,
        >(l, r, ahead_rule(l, r, m1, m2), o1, ahead);
    let (n1, n2) = choose|n1: SortedMatcher<W>, n2: SortedMatcher<W>| #[trigger]
        searches(n1, l2, true) && #[trigger] searches(n2, r2, false) && is_composition::<
            W,
            SequenceComposeFilter<W, SortedMatcher<W>, SortedMatcher<W>>,
        >(l2, r2, (l2, n1, n2), o2, plain);
    lemma_composition_wf::<W, AheadFilter<W>>(l, r, ahead_rule(l, r, m1, m2), o1, ahead);
    lemma_composition_wf::<W, SequenceComposeFilter<W, SortedMatcher<W>, SortedMatcher<W>>>(
        l2,
        r2,
        (l2, n1, n2),
        o2,
        plain,
    );
    let here = if from_ahead {
        ahead
    } else {
        plain
    };
    let there = if from_ahead {
        plain
    } else {
        ahead
    };
    let from = law_trimming_adds_no_path(here, run);
    lemma_run_stays(here, here.start->0 as int, from, from.len() as int);
    let to = lemma_same_paths(
        l,
        r,
        index,
        m1,
        m2,
        l2,
        r2,
        n1,
        n2,
        o1,
        o2,
        ahead,
        plain,
        from_ahead,
        from,
    );
    law_trimming_keeps_paths(there, to);
    let other = kept_run(there, to);
    assert forall|i: int| 0 <= i < run.len() implies (#[trigger] run[i]).ilabel == other[i].ilabel
        && run[i].olabel == other[i].olabel && run[i].weight == other[i].weight by {
        assert(from[i].ilabel == to[i].ilabel);
    }
    lemma_alike(run, other, there.fin(end_of(0, to)));
    other
}

/// Looking ahead composes to what plain composition composes to: each successful path of
/// either result is there in the other, with the same labels and the same weights arc by
/// arc, and so the same weight. Both results are trimmed.
pub proof fn law_looking_ahead_composes_to_the_same<W: Weight>(
    v1: FstV<W>,
    v2: FstV<W>,
    o1: FstV<W>,
    o2: FstV<W>,
    ahead: FstV<W>,
    plain: FstV<W>,
    from_ahead: bool,
    run: Seq<Arc<W>>,
) -> (other: Seq<Arc<W>>)
    requires
        v1.wf(),
        v2.wf(),
        labels_meet(v1, v2),
        !said_sorted(v1, true) || labels_sorted(v1, true),
        composes_ahead(v1, v2, o1, ahead),
        composes(v1, v2, o2, true, plain),
        succeeds(
            if from_ahead {
                ahead
            } else {
                plain
            },
            run,
        ),
    ensures
        ({
            let here = if from_ahead {
                ahead
            } else {
                plain
            };
            let there = if from_ahead {
                plain
            } else {
                ahead
            };
            &&& succeeds(there, other)
            &&& are_alike(run, other)
            &&& accepted_weight(there, other) == accepted_weight(here, run)
        }),
{
    let (l, r, index, raw_a) = choose|l: FstV<W>, r: FstV<W>, index: ReachV, raw: FstV<W>|
        {
            &&& is_sorted_copy(v1, true, l)
            &&& is_sorted_copy(v2, false, r)
            &&& !index.reach_input && index.describes(l)
            &&& #[trigger] is_ahead_composition(l, r, index, o1, raw)
            &&& raw.n() <= usize::MAX
            &&& ahead == trimmed(raw)
        };
    let (l2, r2, raw_p) = choose|l: FstV<W>, r: FstV<W>, raw: FstV<W>|
        {
            &&& is_sorted_copy(v1, true, l)
            &&& is_sorted_copy(v2, false, r)
            &&& #[trigger] composes_sorted(l, r, o2, raw)
            &&& plain == trimmed(raw)
        };
    law_sorted_copy_is_one(v1, true, l, l2);
    law_sorted_copy_is_one(v2, false, r, r2);
    lemma_sorted_copy(v1, true, l);
    lemma_copy_has_same_arcs(v1, true, l);
    lemma_copy_has_same_arcs(v2, false, r);
    lemma_meeting_copies(v1, v2, l, r);
    lemma_same_trimmed_paths(l, r, index, l2, r2, o1, o2, raw_a, raw_p, from_ahead, run)
}

/// The same of two machines that are sorted already, where only the look-ahead takes them
/// as they are.
pub proof fn law_looking_ahead_in_sorted_machines<W: Weight>(
    left: FstV<W>,
    right: FstV<W>,
    index: ReachV,
    o1: FstV<W>,
    o2: FstV<W>,
    raw: FstV<W>,
    plain: FstV<W>,
    from_ahead: bool,
    run: Seq<Arc<W>>,
) -> (other: Seq<Arc<W>>)
    requires
        left.wf(),
        right.wf(),
        labels_meet(left, right),
        labels_sorted(left, true),
        !index.reach_input,
        index.describes(left),
        is_ahead_composition(left, right, index, o1, raw),
        raw.n() <= usize::MAX,
        composes(left, right, o2, true, plain),
        succeeds(
            if from_ahead {
                trimmed(raw)
            } else {
                plain
            },
            run,
        ),
    ensures
        ({
            let here = if from_ahead {
                trimmed(raw)
            } else {
                plain
            };
            let there = if from_ahead {
                plain
            } else {
                trimmed(raw)
            };
            &&& succeeds(there, other)
            &&& are_alike(run, other)
            &&& accepted_weight(there, other) == accepted_weight(here, run)
        }),
{
    let (l2, r2, raw_p) = choose|l: FstV<W>, r: FstV<W>, whole: FstV<W>|
        {
            &&& is_sorted_copy(left, true, l)
            &&& is_sorted_copy(right, false, r)
            &&& #[trigger] composes_sorted(l, r, o2, whole)
            &&& plain == trimmed(whole)
        };
    lemma_copy_has_same_arcs(left, true, l2);
    lemma_copy_has_same_arcs(right, false, r2);
    lemma_same_trimmed_paths(left, right, index, l2, r2, o1, o2, raw, raw_p, from_ahead, run)
}

/// The labels that meet are labels in copies too.
proof fn lemma_meeting_copies<W: Weight>(v1: FstV<W>, v2: FstV<W>, l: FstV<W>, r: FstV<W>)
    requires
        labels_meet(v1, v2),
        same_arcs(v1, l),
        same_arcs(v2, r),
    ensures
        labels_meet(l, r),
{
    lemma_plain_copies(v1, v2, l, r);
    assert forall|s: int, i: int| 0 <= s < r.n() && 0 <= i < r.arcs(s).len() implies (
    #[trigger] r.arcs(s)[i]).ilabel != NO_LABEL && r.arcs(s)[i].ilabel != EPSILON by {
        assert(r.arcs(s).contains(r.arcs(s)[i]));
        let j = choose|j: int| 0 <= j < v2.arcs(s).len() && v2.arcs(s)[j] == r.arcs(s)[i];
        assert(v2.arcs(s)[j].ilabel != EPSILON);
    }
}

} // verus!
