//! What a difference accepts.
use crate::arc::{Arc, EPSILON, NO_LABEL};
use crate::compose::{
    asks_second, compose_start, found_for, is_composition, is_sorted_copy, lemma_composition_wf,
    pair_step, searches, walked_arcs, ComposeModel, ComposeStateTuple, Composing,
};
use crate::compose_filter::{char_state, ComposeFilter, SequenceComposeFilter};
use crate::compose_laws::{
    is_tried, lemma_copy_has_same_arcs, lemma_same_runs, lemma_walked_steps, same_arcs, tried,
    tried_step,
};
use crate::concat::shifted;
use crate::connect::{
    kept_run, law_trimming_adds_no_path, law_trimming_keeps_paths, lemma_trimmed_wf, succeeds,
    trimmed,
};
use crate::difference::{
    complement, complement_sink, complement_state, is_difference, is_rho_composition, reads_rho,
    rho_arc, ComplementMatcher, RHO_LABEL,
};
use crate::filter_state::{CharFilterState, STATE_DEFAULT};
use crate::matcher::{
    arcs_matching, carrying, staying, Matcher, SortedMatcher,
};
use crate::paths::{
    accepted_weight, end_of, is_accepting, is_ending, lemma_after_first, lemma_alike,
    lemma_go_first, lemma_labels_from_front, lemma_run_stays, lemma_writes_what_is_read, reads,
    total, writes,
};
use crate::unfold::{is_unfolding, numbered, unfolds, Step, Unfolding};
use crate::vector_fst::FstV;
use crate::weight::{spec_is_final, Weight};
use vstd::prelude::*;

verus! {

/// Whether each arc of a machine reads what it writes, and that is a label, or epsilon.
pub open spec fn is_plain_acceptor<W: Weight>(v: FstV<W>) -> bool {
    forall|s: int, i: int|
        0 <= s < v.n() && 0 <= i < v.arcs(s).len() ==> (#[trigger] v.arcs(s)[i]).ilabel
            == v.arcs(s)[i].olabel && v.arcs(s)[i].ilabel != NO_LABEL && v.arcs(s)[i].ilabel
            != RHO_LABEL
}

/// Whether a machine reads each label from each state by at most one arc, and never reads
/// nothing.
pub open spec fn reads_one_way<W: Weight>(v: FstV<W>) -> bool {
    &&& forall|s: int, i: int|
        0 <= s < v.n() && 0 <= i < v.arcs(s).len() ==> (#[trigger] v.arcs(s)[i]).ilabel != EPSILON
    &&& forall|s: int, i: int, j: int|
        0 <= s < v.n() && 0 <= i < v.arcs(s).len() && 0 <= j < v.arcs(s).len() && (
        #[trigger] v.arcs(s)[i]).ilabel == (#[trigger] v.arcs(s)[j]).ilabel ==> i == j
}

/// Whether a state has an arc for a label.
pub open spec fn has_label<W: Weight>(v: FstV<W>, s: int, label: i32) -> bool {
    exists|i: int| 0 <= i < v.arcs(s).len() && (#[trigger] v.arcs(s)[i]).ilabel == label
}

/// The arc that a state has for a label.
pub open spec fn arc_for<W: Weight>(v: FstV<W>, s: int, label: i32) -> int {
    choose|i: int| 0 <= i < v.arcs(s).len() && (#[trigger] v.arcs(s)[i]).ilabel == label
}

/// Where the complement of `v` comes to from `s` by a label: it counts the states of `v`
/// from one, and is at zero once `v` could not have read what there was.
pub open spec fn read_label<W: Weight>(v: FstV<W>, s: int, label: i32) -> int {
    if s > 0 && has_label(v, s - 1, label) {
        v.arcs(s - 1)[arc_for(v, s - 1, label)].nextstate + 1
    } else {
        0
    }
}

/// Where the complement of `v` comes to from `s` by a string.
pub open spec fn read_string<W: Weight>(v: FstV<W>, s: int, string: Seq<i32>) -> int
    decreases string.len(),
{
    if string.len() == 0 {
        s
    } else {
        read_string(v, read_label(v, s, string[0]), string.drop_first())
    }
}

/// Where no arc carries a label, none is found.
proof fn lemma_carrying_none<W>(arcs: Seq<Arc<W>>, label: i32, k: int)
    requires
        0 <= k <= arcs.len(),
        forall|i: int| 0 <= i < k ==> (#[trigger] arcs[i]).ilabel != label,
    ensures
        carrying(arcs, false, label, k).len() == 0,
    decreases k,
{
    if k > 0 {
        lemma_carrying_none(arcs, label, k - 1);
    }
}

/// Where one arc carries a label, that one is found.
proof fn lemma_carrying_one<W>(arcs: Seq<Arc<W>>, label: i32, k: int, i: int)
    requires
        0 <= i < k <= arcs.len(),
        arcs[i].ilabel == label,
        forall|j: int| 0 <= j < k && j != i ==> (#[trigger] arcs[j]).ilabel != label,
    ensures
        carrying(arcs, false, label, k) == seq![arcs[i]],
    decreases k,
{
    if i == k - 1 {
        lemma_carrying_none(arcs, label, k - 1);
        assert(carrying(arcs, false, label, k) =~= seq![arcs[i]]);
    } else {
        lemma_carrying_one(arcs, label, k - 1, i);
    }
}

/// The arcs of a complement.
proof fn lemma_complement_arcs<W: Weight>(v: FstV<W>, s: int)
    requires
        v.wf(),
        v.n() < usize::MAX,
        0 <= s <= v.n(),
    ensures
        complement(v).arcs(s).len() == 1 + (if s > 0 {
            v.arcs(s - 1).len()
        } else {
            0
        }),
        complement(v).arcs(s)[0] == rho_arc::<W>(),
        forall|i: int|
            0 < i < complement(v).arcs(s).len() ==> (#[trigger] complement(v).arcs(s)[i]) == (Arc {
                nextstate: (v.arcs(s - 1)[i - 1].nextstate + 1) as usize,
                ..v.arcs(s - 1)[i - 1]
            }) && v.arcs(s - 1)[i - 1].nextstate < v.n(),
{
    let c = complement(v);
    if s > 0 {
        assert(c.states[s] == complement_state(v.states[s - 1]));
        assert forall|i: int| 0 < i < c.arcs(s).len() implies (#[trigger] c.arcs(s)[i]) == (Arc {
            nextstate: (v.arcs(s - 1)[i - 1].nextstate + 1) as usize,
            ..v.arcs(s - 1)[i - 1]
        }) && v.arcs(s - 1)[i - 1].nextstate < v.n() by {
            assert(v.states[s - 1].arcs[i - 1].nextstate < v.n());
            assert(c.arcs(s)[i] == shifted(v.states[s - 1].arcs[i - 1], 1));
        }
    } else {
        assert(c.states[0] == complement_sink::<W>());
    }
}

/// Whether every arc of a machine weighs One.
pub open spec fn arcs_weigh_nothing<W: Weight>(v: FstV<W>) -> bool {
    forall|s: int, i: int|
        0 <= s < v.n() && 0 <= i < v.arcs(s).len() ==> (#[trigger] v.arcs(s)[i]).weight
            == W::spec_one()
}

/// Whether multiplying by One changes no weight.
#[verifier::opaque]
pub open spec fn one_changes_nothing<W: Weight>() -> bool {
    forall|w: W| #[trigger] w.spec_times(W::spec_one()) == w
}

/// What is found in a complement: for a label, one arc that reads and writes it and leads
/// where the complement comes to; for epsilon, nothing but standing still.
proof fn lemma_complement_matches<W: Weight>(
    v: FstV<W>,
    m2: ComplementMatcher<W>,
    s: usize,
    label: i32,
)
    requires
        v.wf(),
        v.n() < usize::MAX,
        is_plain_acceptor(v),
        reads_one_way(v),
        reads_rho(m2, complement(v)),
        s <= v.n(),
        label != RHO_LABEL,
    ensures
        label == NO_LABEL ==> m2.spec_matches(s, label).len() == 0,
        label == EPSILON ==> m2.spec_matches(s, label) == seq![staying::<W>(s, false)],
        label != EPSILON && label != NO_LABEL ==> {
            let found = m2.spec_matches(s, label);
            &&& found.len() == 1
            &&& found[0].ilabel == label
            &&& found[0].olabel == label
            &&& found[0].nextstate == read_label(v, s as int, label)
            &&& arcs_weigh_nothing(v) ==> found[0].weight == W::spec_one()
        },
        m2.spec_priority(s) is None,
        0 <= read_label(v, s as int, label) <= v.n(),
{
    let c = complement(v);
    let arcs = c.arcs(s as int);
    let n = arcs.len() as int;
    lemma_complement_arcs(v, s as int);
    assert forall|i: int| 0 < i < n implies (#[trigger] arcs[i]).ilabel != EPSILON && arcs[i].ilabel
        != RHO_LABEL && arcs[i].ilabel != NO_LABEL && arcs[i].olabel == arcs[i].ilabel by {
        assert(v.arcs(s - 1)[i - 1].ilabel != EPSILON);
        assert(c.arcs(s as int)[i].ilabel == v.arcs(s - 1)[i - 1].ilabel);
    }
    lemma_carrying_one(arcs, RHO_LABEL, n, 0);
    assert(arcs_matching(c, false, s, RHO_LABEL) =~= seq![rho_arc::<W>()]);
    lemma_carrying_none(arcs, EPSILON, n);
    assert(arcs_matching(c, false, s, NO_LABEL) =~= Seq::empty());
    assert(arcs_matching(c, false, s, EPSILON) =~= seq![staying::<W>(s, false)]);
    if label != EPSILON && label != NO_LABEL {
        assert(arcs_matching(c, false, s, label) =~= carrying(arcs, false, label, n));
        if s > 0 && has_label(v, s - 1, label) {
            let i = arc_for(v, s - 1, label);
            assert(arcs[i + 1].ilabel == label);
            assert forall|j: int| 0 <= j < n && j != i + 1 implies (#[trigger] arcs[j]).ilabel
                != label by {
                if j > 0 {
                    assert(c.arcs(s as int)[j].ilabel == v.arcs(s - 1)[j - 1].ilabel);
                    assert(v.arcs(s - 1)[i].ilabel == label);
                }
            }
            lemma_carrying_one(arcs, label, n, i + 1);
        } else {
            assert forall|j: int| 0 <= j < n implies (#[trigger] arcs[j]).ilabel != label by {
                if j > 0 {
                    assert(c.arcs(s as int)[j].ilabel == v.arcs(s - 1)[j - 1].ilabel);
                }
            }
            lemma_carrying_none(arcs, label, n);
            let found = m2.spec_matches(s, label);
            assert(found.len() == 1);
        }
    }
}

/// What composes with a complement: takes the epsilons of the first machine first.
pub type WithComplement<'a, W> = SequenceComposeFilter<
    'a,
    W,
    SortedMatcher<'a, W>,
    ComplementMatcher<'a, W>,
>;

/// Whether `c` is a composition of `l` with the complement of `v`, `table` holding the
/// pair of states and the filter state that each state stands for.
pub open spec fn takes_away<W: Weight>(
    l: FstV<W>,
    v: FstV<W>,
    m1: SortedMatcher<W>,
    m2: ComplementMatcher<W>,
    table: Seq<ComposeStateTuple<CharFilterState>>,
    c: FstV<W>,
) -> bool {
    &&& l.wf()
    &&& v.wf()
    &&& c.wf()
    &&& v.n() < usize::MAX
    &&& is_plain_acceptor(l)
    &&& is_plain_acceptor(v)
    &&& reads_one_way(v)
    &&& searches(m1, l, true)
    &&& reads_rho(m2, complement(v))
    &&& table.len() == c.n()
    &&& forall|x: int|
        0 <= x < c.n() ==> unfolds::<
            W,
            ComposeStateTuple<CharFilterState>,
            Composing<W, WithComplement<W>>,
        >(
            ComposeModel { fst1: l, fst2: complement(v), rule: (l, m1, m2) },
            table[x],
            #[trigger] c.states[x],
            table,
        )
}

/// Whether a state stands for a pair of states in which nothing is left over.
pub open spec fn stands_for_pair<W: Weight>(
    l: FstV<W>,
    v: FstV<W>,
    key: ComposeStateTuple<CharFilterState>,
) -> bool {
    key.state1 < l.n() && key.state2 <= v.n() && key.filter_state == char_state(STATE_DEFAULT)
}

/// An arc of the first machine goes on, and the complement reads what it writes.
pub open spec fn is_step_for<W: Weight>(
    v: FstV<W>,
    key: ComposeStateTuple<CharFilterState>,
    arc1: Arc<W>,
    step: Step<W, ComposeStateTuple<CharFilterState>>,
) -> bool {
    &&& step.ilabel == arc1.ilabel
    &&& step.olabel == arc1.olabel
    &&& step.to.state1 == arc1.nextstate
    &&& step.to.state2 == (if arc1.olabel == EPSILON {
        key.state2 as int
    } else {
        read_label(v, key.state2 as int, arc1.olabel)
    })
    &&& step.to.filter_state == char_state(STATE_DEFAULT)
    &&& arcs_weigh_nothing(v) ==> step.weight == arc1.weight.spec_times(W::spec_one())
}

/// Each arc of the first machine makes a step, and each step is made by one.
proof fn lemma_steps_taken_away<W: Weight>(
    l: FstV<W>,
    v: FstV<W>,
    m1: SortedMatcher<W>,
    m2: ComplementMatcher<W>,
    key: ComposeStateTuple<CharFilterState>,
)
    requires
        l.wf(),
        v.wf(),
        v.n() < usize::MAX,
        is_plain_acceptor(l),
        is_plain_acceptor(v),
        reads_one_way(v),
        searches(m1, l, true),
        reads_rho(m2, complement(v)),
        stands_for_pair(l, v, key),
    ensures
        ({
            let made = Composing::<W, WithComplement<W>>::steps(
                ComposeModel { fst1: l, fst2: complement(v), rule: (l, m1, m2) },
                key,
            );
            let arcs1 = l.arcs(key.state1 as int);
            &&& forall|i: int|
                0 <= i < arcs1.len() ==> exists|step: Step<W, ComposeStateTuple<CharFilterState>>|
                    made.contains(step) && is_step_for(v, key, #[trigger] arcs1[i], step)
            &&& forall|step: Step<W, ComposeStateTuple<CharFilterState>>| #[trigger]
                made.contains(step) ==> exists|i: int|
                    0 <= i < arcs1.len() && is_step_for(v, key, #[trigger] arcs1[i], step)
        }),
{
    let model = ComposeModel { fst1: l, fst2: complement(v), rule: (l, m1, m2) };
    let made = Composing::<W, WithComplement<W>>::steps(model, key);
    let s1 = key.state1;
    let s2 = key.state2;
    let arcs1 = l.arcs(s1 as int);
    lemma_complement_matches(v, m2, s2, NO_LABEL);
    let second = asks_second::<W, WithComplement<W>>(model.rule, s1, s2);
    assert(second);
    let walked = walked_arcs::<W, WithComplement<W>>(model, key, second);
    assert forall|i: int| 0 <= i < arcs1.len() implies exists|
        step: Step<W, ComposeStateTuple<CharFilterState>>,
    |
        made.contains(step) && is_step_for(v, key, #[trigger] arcs1[i], step) by {
        let arc1 = arcs1[i];
        assert(l.arcs(s1 as int)[i].ilabel == arc1.olabel);
        assert(walked[i + 1] == arc1);
        lemma_complement_matches(v, m2, s2, arc1.olabel);
        let found = found_for::<W, WithComplement<W>>(model.rule, key, walked[i + 1], second);
        assert(found == m2.spec_matches(s2, arc1.olabel));
        assert(found.len() == 1);
        assert(is_tried::<W, WithComplement<W>>(model, key, i + 1, 0));
        let made_here = tried_step::<W, WithComplement<W>>(model, key, i + 1, 0);
        assert(made_here == pair_step::<W, WithComplement<W>>(model.rule, key, arc1, found[0]));
        assert(made_here is Some);
        let step = made_here->0;
        lemma_walked_steps::<W, WithComplement<W>>(model, key, walked.len() as int, step);
        assert(made.contains(step));
        assert(is_step_for(v, key, arc1, step));
    }
    assert forall|step: Step<W, ComposeStateTuple<CharFilterState>>| #[trigger]
        made.contains(step) implies exists|i: int|
        0 <= i < arcs1.len() && is_step_for(v, key, #[trigger] arcs1[i], step) by {
        lemma_walked_steps::<W, WithComplement<W>>(model, key, walked.len() as int, step);
        let (k, j) = choose|k: int, j: int|
            0 <= k < walked.len() && is_tried::<W, WithComplement<W>>(model, key, k, j)
                && #[trigger] tried_step::<W, WithComplement<W>>(model, key, k, j) == Some(step);
        let found = found_for::<W, WithComplement<W>>(model.rule, key, walked[k], second);
        if k == 0 {
            assert(walked[0] == staying::<W>(s1, true));
            assert(found == m2.spec_matches(s2, NO_LABEL));
            assert(false);
        }
        let arc1 = walked[k];
        assert(arcs1[k - 1] == arc1);
        assert(l.arcs(s1 as int)[k - 1].ilabel == arc1.olabel);
        lemma_complement_matches(v, m2, s2, arc1.olabel);
        assert(found == m2.spec_matches(s2, arc1.olabel));
        assert(j == 0);
        assert(tried::<W, WithComplement<W>>(model, key, k, j) == (arc1, found[0]));
        assert(is_step_for(v, key, arcs1[k - 1], step));
    }
}

/// A run of the first machine goes on in the difference, which comes to where the
/// complement comes to by what the run writes.
proof fn lemma_run_goes_on<W: Weight>(
    l: FstV<W>,
    v: FstV<W>,
    m1: SortedMatcher<W>,
    m2: ComplementMatcher<W>,
    table: Seq<ComposeStateTuple<CharFilterState>>,
    c: FstV<W>,
    x: int,
    run1: Seq<Arc<W>>,
) -> (run: Seq<Arc<W>>)
    requires
        takes_away(l, v, m1, m2, table, c),
        0 <= x < c.n(),
        stands_for_pair(l, v, table[x]),
        is_ending(l, table[x].state1 as int, run1),
        ({
            let t = read_string(v, table[x].state2 as int, writes(run1));
            let w1 = l.fin(end_of(table[x].state1 as int, run1));
            let w2 = complement(v).fin(t);
            w2 != W::spec_zero() && w1.spec_times(w2) != W::spec_zero()
        }),
    ensures
        is_ending(c, x, run),
        reads(run) == reads(run1),
        writes(run) == writes(run1),
        arcs_weigh_nothing(v) && one_changes_nothing::<W>() ==> forall|end: W| #[trigger]
            total(run, end) == total(run1, end),
        c.fin(end_of(x, run)) == l.fin(end_of(table[x].state1 as int, run1)).spec_times(
            complement(v).fin(read_string(v, table[x].state2 as int, writes(run1))),
        ),
    decreases run1.len(),
{
    let model = ComposeModel { fst1: l, fst2: complement(v), rule: (l, m1, m2) };
    let key = table[x];
    let s1 = key.state1 as int;
    let state = c.states[x];
    if run1.len() == 0 {
        let run = Seq::<Arc<W>>::empty();
        assert(state.final_weight == l.fin(s1).spec_times(complement(v).fin(key.state2 as int)));
        run
    } else {
        let rest1 = run1.drop_first();
        lemma_after_first(l, s1, run1);
        lemma_labels_from_front(run1[0], rest1);
        lemma_steps_taken_away(l, v, m1, m2, key);
        let made = Composing::<W, WithComplement<W>>::steps(model, key);
        let i1 = choose|i1: int| 0 <= i1 < l.arcs(s1).len() && l.arcs(s1)[i1] == run1[0];
        let arcs1 = l.arcs(key.state1 as int);
        assert(arcs1[i1] == run1[0]);
        let step = choose|step: Step<W, ComposeStateTuple<CharFilterState>>|
            made.contains(step) && is_step_for(v, key, arcs1[i1], step);
        let i = choose|i: int| 0 <= i < made.len() && made[i] == step;
        assert(numbered(made[i], state.arcs[i], table));
        let arc = state.arcs[i];
        assert(c.arcs(x)[i] == arc);
        let y = arc.nextstate as int;
        lemma_complement_matches(v, m2, key.state2, NO_LABEL);
        assert(l.arcs(s1)[i1].olabel != RHO_LABEL);
        lemma_complement_matches(v, m2, key.state2, run1[0].olabel);
        assert(read_string(v, key.state2 as int, writes(run1)) == read_string(
            v,
            step.to.state2 as int,
            writes(rest1),
        )) by {
            if run1[0].olabel == EPSILON {
                assert(writes(run1) =~= writes(rest1));
            } else {
                assert(writes(run1)[0] == run1[0].olabel);
                assert(writes(run1).drop_first() =~= writes(rest1));
            }
        }
        let rest = lemma_run_goes_on(l, v, m1, m2, table, c, y, rest1);
        let run = seq![arc] + rest;
        lemma_go_first(c, x, arc, rest);
        lemma_labels_from_front(arc, rest);
        if arcs_weigh_nothing(v) && one_changes_nothing::<W>() {
            assert(arc.weight == run1[0].weight) by {
                reveal(one_changes_nothing);
            }
            assert forall|end: W| #[trigger] total(run, end) == total(run1, end) by {
                assert(total(rest, end) == total(rest1, end));
                assert(run.drop_first() =~= rest && run1.drop_first() =~= rest1);
            }
        }
        run
    }
}

/// A run of the difference follows one of the first machine, and the complement comes to
/// where it may end by what that run writes.
proof fn lemma_run_came_from<W: Weight>(
    l: FstV<W>,
    v: FstV<W>,
    m1: SortedMatcher<W>,
    m2: ComplementMatcher<W>,
    table: Seq<ComposeStateTuple<CharFilterState>>,
    c: FstV<W>,
    x: int,
    run: Seq<Arc<W>>,
) -> (run1: Seq<Arc<W>>)
    requires
        takes_away(l, v, m1, m2, table, c),
        0 <= x < c.n(),
        stands_for_pair(l, v, table[x]),
        is_ending(c, x, run),
    ensures
        is_ending(l, table[x].state1 as int, run1),
        reads(run) == reads(run1),
        writes(run) == writes(run1),
        arcs_weigh_nothing(v) && one_changes_nothing::<W>() ==> forall|end: W| #[trigger]
            total(run, end) == total(run1, end),
        complement(v).fin(read_string(v, table[x].state2 as int, writes(run1))) != W::spec_zero(),
        c.fin(end_of(x, run)) == l.fin(end_of(table[x].state1 as int, run1)).spec_times(
            complement(v).fin(read_string(v, table[x].state2 as int, writes(run1))),
        ),
    decreases run.len(),
{
    let model = ComposeModel { fst1: l, fst2: complement(v), rule: (l, m1, m2) };
    let key = table[x];
    let s1 = key.state1 as int;
    let state = c.states[x];
    if run.len() == 0 {
        assert(state.final_weight == Composing::<W, WithComplement<W>>::ending(model, key));
        Seq::empty()
    } else {
        let rest = run.drop_first();
        lemma_after_first(c, x, run);
        lemma_labels_from_front(run[0], rest);
        lemma_steps_taken_away(l, v, m1, m2, key);
        let made = Composing::<W, WithComplement<W>>::steps(model, key);
        let i = choose|i: int| 0 <= i < c.arcs(x).len() && c.arcs(x)[i] == run[0];
        assert(numbered(made[i], state.arcs[i], table));
        assert(made.contains(made[i]));
        let arcs1 = l.arcs(key.state1 as int);
        let i1 = choose|i1: int|
            0 <= i1 < arcs1.len() && is_step_for(v, key, #[trigger] arcs1[i1], made[i]);
        let arc1 = arcs1[i1];
        let y = run[0].nextstate as int;
        assert(l.states[s1].arcs[i1].nextstate < l.n());
        assert(l.arcs(s1)[i1].olabel != RHO_LABEL);
        lemma_complement_matches(v, m2, key.state2, arc1.olabel);
        let rest1 = lemma_run_came_from(l, v, m1, m2, table, c, y, rest);
        let run1 = seq![arc1] + rest1;
        assert(l.arcs(s1).contains(arc1));
        lemma_go_first(l, s1, arc1, rest1);
        lemma_labels_from_front(arc1, rest1);
        assert(read_string(v, key.state2 as int, writes(run1)) == read_string(
            v,
            table[y].state2 as int,
            writes(rest1),
        )) by {
            if arc1.olabel == EPSILON {
                assert(writes(run1) =~= writes(rest1));
            } else {
                assert(writes(run1)[0] == arc1.olabel);
                assert(writes(run1).drop_first() =~= writes(rest1));
            }
        }
        if arcs_weigh_nothing(v) && one_changes_nothing::<W>() {
            assert(run[0].weight == arc1.weight) by {
                reveal(one_changes_nothing);
            }
            assert forall|end: W| #[trigger] total(run, end) == total(run1, end) by {
                assert(total(rest, end) == total(rest1, end));
                assert(run.drop_first() =~= rest && run1.drop_first() =~= rest1);
            }
        }
        run1
    }
}

/// Where a machine can read a string, the complement comes to where that leads.
proof fn lemma_complement_follows<W: Weight>(v: FstV<W>, s: int, run: Seq<Arc<W>>)
    requires
        v.wf(),
        reads_one_way(v),
        is_ending(v, s, run),
    ensures
        read_string(v, s + 1, reads(run)) == end_of(s, run) + 1,
    decreases run.len(),
{
    if run.len() > 0 {
        let rest = run.drop_first();
        lemma_after_first(v, s, run);
        lemma_labels_from_front(run[0], rest);
        lemma_complement_follows(v, run[0].nextstate as int, rest);
        let i = choose|i: int| 0 <= i < v.arcs(s).len() && v.arcs(s)[i] == run[0];
        assert(v.arcs(s)[i].ilabel != EPSILON);
        let label = run[0].ilabel;
        assert(has_label(v, s, label));
        let j = arc_for(v, s, label);
        assert(v.arcs(s)[j].ilabel == v.arcs(s)[i].ilabel);
        assert(reads(run)[0] == label);
        assert(reads(run).drop_first() =~= reads(rest));
    }
}

/// Where the complement may not end, the machine accepts.
proof fn lemma_complement_refuses<W: Weight>(v: FstV<W>, s: int, string: Seq<i32>) -> (run: Seq<
    Arc<W>,
>)
    requires
        v.wf(),
        reads_one_way(v),
        0 <= s <= v.n(),
        W::spec_one() != W::spec_zero(),
        complement(v).fin(read_string(v, s, string)) == W::spec_zero(),
        0 <= read_string(v, s, string) <= v.n(),
    ensures
        s > 0,
        is_ending(v, s - 1, run),
        reads(run) == string,
    decreases string.len(),
{
    let c = complement(v);
    if string.len() == 0 {
        if s == 0 {
            assert(c.states[0] == complement_sink::<W>());
        } else {
            assert(c.states[s] == complement_state(v.states[s - 1]));
        }
        let run = Seq::<Arc<W>>::empty();
        assert(reads(run) =~= string);
        run
    } else {
        let label = string[0];
        let rest = string.drop_first();
        let t = read_label(v, s, label);
        if s > 0 && has_label(v, s - 1, label) {
            let i = arc_for(v, s - 1, label);
            let arc = v.arcs(s - 1)[i];
            assert(v.states[s - 1].arcs[i].nextstate < v.n());
            let after = lemma_complement_refuses(v, t, rest);
            let run = seq![arc] + after;
            assert(v.arcs(s - 1).contains(arc));
            lemma_go_first(v, s - 1, arc, after);
            lemma_labels_from_front(arc, after);
            assert(arc.ilabel != EPSILON);
            assert(reads(run) =~= string);
            run
        } else {
            let after = lemma_complement_refuses(v, 0, rest);
            after
        }
    }
}

/// The complement of a machine never leaves its states.
proof fn lemma_read_string_stays<W: Weight>(v: FstV<W>, s: int, string: Seq<i32>)
    requires
        v.wf(),
        0 <= s <= v.n(),
    ensures
        0 <= read_string(v, s, string) <= v.n(),
    decreases string.len(),
{
    if string.len() > 0 {
        let t = read_label(v, s, string[0]);
        assert(0 <= t <= v.n()) by {
            if s > 0 && has_label(v, s - 1, string[0]) {
                let i = arc_for(v, s - 1, string[0]);
                assert(v.states[s - 1].arcs[i].nextstate < v.n());
            }
        }
        lemma_read_string_stays(v, t, string.drop_first());
    }
}

/// Whether a machine accepts a string.
pub open spec fn accepts<W: Weight>(v: FstV<W>, string: Seq<i32>) -> bool {
    exists|run: Seq<Arc<W>>| #[trigger] is_accepting(v, run) && reads(run) == string
}

/// Where the complement starts.
pub open spec fn complement_start<W: Weight>(v: FstV<W>) -> int {
    match v.start {
        Some(s) => s + 1,
        None => 0,
    }
}

/// The complement may end after a string exactly where the machine does not accept it.
pub proof fn law_complement_accepts_the_rest<W: Weight>(v: FstV<W>, string: Seq<i32>)
    requires
        v.wf(),
        v.n() < usize::MAX,
        reads_one_way(v),
        W::spec_one() != W::spec_zero(),
    ensures
        complement(v).fin(read_string(v, complement_start(v), string)) != W::spec_zero()
            <==> !accepts(v, string),
{
    let s = complement_start(v);
    let c = complement(v);
    lemma_read_string_stays(v, s, string);
    let t = read_string(v, s, string);
    if accepts(v, string) {
        let run = choose|run: Seq<Arc<W>>| #[trigger] is_accepting(v, run) && reads(run) == string;
        lemma_complement_follows(v, v.start->0 as int, run);
        assert(c.states[t] == complement_state(v.states[t - 1]));
    }
    if c.fin(t) == W::spec_zero() {
        let run = lemma_complement_refuses(v, s, string);
        assert(is_accepting(v, run));
    }
}

/// What a difference is: the pairs that its states stand for.
proof fn lemma_difference_takes_away<W: Weight>(
    l: FstV<W>,
    v: FstV<W>,
    m1: SortedMatcher<W>,
    m2: ComplementMatcher<W>,
    o: FstV<W>,
    c: FstV<W>,
) -> (table: Seq<ComposeStateTuple<CharFilterState>>)
    requires
        l.wf(),
        v.wf(),
        v.n() < usize::MAX,
        l.start is Some,
        is_plain_acceptor(l),
        is_plain_acceptor(v),
        reads_one_way(v),
        searches(m1, l, true),
        reads_rho(m2, complement(v)),
        is_composition::<W, SequenceComposeFilter<W, SortedMatcher<W>, ComplementMatcher<W>>>(
            l,
            complement(v),
            (l, m1, m2),
            o,
            c,
        ),
    ensures
        takes_away(l, v, m1, m2, table, c),
        c.start == Some(0usize),
        c.n() > 0,
        stands_for_pair(l, v, table[0]),
        table[0].state1 == l.start->0,
        table[0].state2 == complement_start(v),
{
    let r = complement(v);
    let model = ComposeModel { fst1: l, fst2: r, rule: (l, m1, m2) };
    let start = compose_start::<W, WithComplement<W>>((l, m1, m2), l.start->0, r.start->0);
    lemma_composition_wf::<W, WithComplement<W>>(l, r, (l, m1, m2), o, c);
    let table = choose|table: Seq<ComposeStateTuple<CharFilterState>>| #[trigger]
        is_unfolding::<
            W,
            ComposeStateTuple<CharFilterState>,
            Composing<W, WithComplement<W>>,
        >(model, start, true, table, c.states);
    table
}

/// A plain acceptor stays one when its arcs are sorted.
proof fn lemma_plain_copy<W: Weight>(v: FstV<W>, l: FstV<W>)
    requires
        is_plain_acceptor(v),
        same_arcs(v, l),
    ensures
        is_plain_acceptor(l),
{
    assert forall|s: int, i: int| 0 <= s < l.n() && 0 <= i < l.arcs(s).len() implies (
    #[trigger] l.arcs(s)[i]).ilabel == l.arcs(s)[i].olabel && l.arcs(s)[i].ilabel != NO_LABEL
        && l.arcs(s)[i].ilabel != RHO_LABEL by {
        assert(l.arcs(s).contains(l.arcs(s)[i]));
        let j = choose|j: int| 0 <= j < v.arcs(s).len() && v.arcs(s)[j] == l.arcs(s)[i];
        assert(v.arcs(s)[j].ilabel == v.arcs(s)[j].olabel);
    }
}

/// A difference accepts what the first machine accepts and the second does not, and where
/// the arcs of the second weigh One each path weighs what it did in the first.
///
/// The first has to be an acceptor and the second one that reads one way, both over plain
/// labels, and where a run of the first ends has to be where a path may end.
pub proof fn law_difference_keeps_the_rest<W: Weight>(
    v1: FstV<W>,
    v2: FstV<W>,
    o: FstV<W>,
    c: FstV<W>,
    run1: Seq<Arc<W>>,
) -> (run: Seq<Arc<W>>)
    requires
        v1.wf(),
        v2.wf(),
        v2.n() < usize::MAX,
        is_plain_acceptor(v1),
        is_plain_acceptor(v2),
        reads_one_way(v2),
        W::spec_one() != W::spec_zero(),
        is_difference(v1, v2, o, c),
        is_accepting(v1, run1),
        !accepts(v2, reads(run1)),
        spec_is_final(v1.fin(end_of(v1.start->0 as int, run1)).spec_times(W::spec_one())),
    ensures
        is_accepting(c, run),
        reads(run) == reads(run1),
        writes(run) == writes(run1),
        arcs_weigh_nothing(v2) && one_changes_nothing::<W>() ==> accepted_weight(c, run)
            == accepted_weight(v1, run1),
{
    let (l, raw) = choose|l: FstV<W>, raw: FstV<W>|
        is_sorted_copy(v1, true, l) && #[trigger] is_rho_composition(l, complement(v2), o, raw)
            && c == trimmed(raw) && raw.n() <= usize::MAX;
    let (m1, m2) = choose|m1: SortedMatcher<W>, m2: ComplementMatcher<W>| #[trigger]
        searches(m1, l, true) && #[trigger] reads_rho(m2, complement(v2)) && is_composition::<
            W,
            SequenceComposeFilter<W, SortedMatcher<W>, ComplementMatcher<W>>,
        >(l, complement(v2), (l, m1, m2), o, raw);
    lemma_copy_has_same_arcs(v1, true, l);
    lemma_plain_copy(v1, l);
    lemma_same_runs(v1, l, v1.start->0 as int, run1);
    lemma_writes_what_is_read(v1, v1.start->0 as int, run1);
    let table = lemma_difference_takes_away(l, v2, m1, m2, o, raw);
    let t = read_string(v2, complement_start(v2), writes(run1));
    law_complement_accepts_the_rest(v2, writes(run1));
    lemma_read_string_stays(v2, complement_start(v2), writes(run1));
    assert(complement(v2).fin(t) == W::spec_one()) by {
        if t == 0 {
            assert(complement(v2).states[0] == complement_sink::<W>());
        } else {
            assert(complement(v2).states[t] == complement_state(v2.states[t - 1]));
        }
    }
    let run = lemma_run_goes_on(l, v2, m1, m2, table, raw, 0, run1);
    let kept = kept_run(raw, run);
    assert(succeeds(raw, run));
    law_trimming_keeps_paths(raw, run);
    lemma_alike(kept, run, raw.fin(end_of(0, run)));
    lemma_trimmed_wf(raw);
    lemma_run_stays(c, c.start->0 as int, kept, kept.len() as int);
    if arcs_weigh_nothing(v2) && one_changes_nothing::<W>() {
        reveal(one_changes_nothing);
        assert(l.fin(end_of(l.start->0 as int, run1)) == v1.fin(end_of(v1.start->0 as int, run1)));
        assert(c.fin(end_of(c.start->0 as int, kept)) == raw.fin(end_of(0, run)));
    }
    kept
}

/// A difference accepts nothing else: each of its paths is one of the first machine, that
/// reads, writes and weighs the same where the arcs of the second weigh One, and what it
/// reads is not accepted by the second.
pub proof fn law_difference_leaves_out<W: Weight>(
    v1: FstV<W>,
    v2: FstV<W>,
    o: FstV<W>,
    c: FstV<W>,
    run: Seq<Arc<W>>,
) -> (run1: Seq<Arc<W>>)
    requires
        v1.wf(),
        v2.wf(),
        v2.n() < usize::MAX,
        is_plain_acceptor(v1),
        is_plain_acceptor(v2),
        reads_one_way(v2),
        W::spec_one() != W::spec_zero(),
        is_difference(v1, v2, o, c),
        succeeds(c, run),
    ensures
        is_accepting(v1, run1),
        reads(run1) == reads(run),
        writes(run1) == writes(run),
        !accepts(v2, reads(run)),
        arcs_weigh_nothing(v2) && one_changes_nothing::<W>() ==> accepted_weight(v1, run1)
            == accepted_weight(c, run),
{
    let (l, raw) = choose|l: FstV<W>, raw: FstV<W>|
        is_sorted_copy(v1, true, l) && #[trigger] is_rho_composition(l, complement(v2), o, raw)
            && c == trimmed(raw) && raw.n() <= usize::MAX;
    let (m1, m2) = choose|m1: SortedMatcher<W>, m2: ComplementMatcher<W>| #[trigger]
        searches(m1, l, true) && #[trigger] reads_rho(m2, complement(v2)) && is_composition::<
            W,
            SequenceComposeFilter<W, SortedMatcher<W>, ComplementMatcher<W>>,
        >(l, complement(v2), (l, m1, m2), o, raw);
    lemma_copy_has_same_arcs(v1, true, l);
    lemma_plain_copy(v1, l);
    lemma_composition_wf::<W, WithComplement<W>>(l, complement(v2), (l, m1, m2), o, raw);
    let from = law_trimming_adds_no_path(raw, run);
    lemma_alike(run, from, raw.fin(end_of(raw.start->0 as int, from)));
    let table = lemma_difference_takes_away(l, v2, m1, m2, o, raw);
    lemma_run_stays(raw, 0, from, from.len() as int);
    let run1 = lemma_run_came_from(l, v2, m1, m2, table, raw, 0, from);
    lemma_same_runs(v1, l, v1.start->0 as int, run1);
    lemma_writes_what_is_read(v1, v1.start->0 as int, run1);
    law_complement_accepts_the_rest(v2, writes(run1));
    assert(is_accepting(v1, run1));
    if arcs_weigh_nothing(v2) && one_changes_nothing::<W>() {
        let t = read_string(v2, complement_start(v2), writes(run1));
        lemma_read_string_stays(v2, complement_start(v2), writes(run1));
        assert(complement(v2).fin(t) == W::spec_one()) by {
            if t == 0 {
                assert(complement(v2).states[0] == complement_sink::<W>());
            } else {
                assert(complement(v2).states[t] == complement_state(v2.states[t - 1]));
            }
        }
        reveal(one_changes_nothing);
        assert(l.fin(end_of(l.start->0 as int, run1)) == v1.fin(end_of(v1.start->0 as int, run1)));
    }
    run1
}

} // verus!
