//! What the arcs of a composition are made of.
use crate::arc::NO_LABEL;
use crate::compose::{
    composes, composes_sorted, is_composition, is_sorted_copy, lemma_composition_wf, searches,
    ComposeModel, ComposeStateTuple, Composing,
};
use crate::compose_filter::SequenceComposeFilter;
use crate::compose_laws::{
    is_there, labels_are_plain, lemma_composition_pairs_up, lemma_copy_has_same_arcs,
    lemma_plain_copies, lemma_step_comes_from, pairs_up, same_arcs, InSequence,
};
use crate::connect::{
    lemma_kept_arc_from, lemma_kept_state_at, lemma_rank_onto, lemma_trimmed_wf, on_path,
    path_states, trimmed,
};
use crate::filter_state::CharFilterState;
use crate::graph::{full_graph, reach_in};
use crate::matcher::{Matcher, SortedMatcher};
use crate::push_sums::{lemma_nothing, lemma_stays, stays_inside, zero_is_nothing};
use crate::unfold::{numbered, Unfolding};
use crate::vector_fst::{all_members, lemma_kept_states_len, state_is_member, FstV, StateV};
use crate::weight::Weight;
use vstd::prelude::*;

verus! {

/// Whether a machine writes labels.
pub open spec fn writes_plainly<W: Weight>(v: FstV<W>) -> bool {
    forall|s: int, i: int|
        0 <= s < v.n() && 0 <= i < v.arcs(s).len() ==> (#[trigger] v.arcs(s)[i]).olabel != NO_LABEL
}

spec fn is_plain_state<W: Weight>(state: StateV<W>) -> bool {
    &&& state_is_member(state)
    &&& forall|i: int| 0 <= i < state.arcs.len() ==> (#[trigger] state.arcs[i]).olabel != NO_LABEL
}

/// Machines with the same arcs hold the same weights and labels.
pub proof fn lemma_same_hold_the_same<W: Weight>(v: FstV<W>, w: FstV<W>)
    requires
        same_arcs(v, w),
        all_members(v),
    ensures
        all_members(w),
        writes_plainly(v) ==> writes_plainly(w),
{
    assert forall|s: int, i: int| 0 <= s < w.n() && 0 <= i < w.arcs(s).len() implies (
    #[trigger] w.arcs(s)[i]).weight.spec_member() && (writes_plainly(v) ==> w.arcs(s)[i].olabel
        != NO_LABEL) by {
        let arc = w.arcs(s)[i];
        assert(w.arcs(s).contains(arc));
        assert(v.arcs(s).contains(arc));
        let j = choose|j: int| 0 <= j < v.arcs(s).len() && v.arcs(s)[j] == arc;
        assert(state_is_member(v.states[s]));
        assert(v.states[s].arcs[j].weight.spec_member());
        assert(v.arcs(s)[j] == arc);
    }
    assert forall|s: int| 0 <= s < w.n() implies state_is_member(#[trigger] w.states[s]) by {
        assert(w.fin(s) == v.fin(s));
        assert(state_is_member(v.states[s]));
        assert forall|i: int| 0 <= i < w.states[s].arcs.len() implies (
        #[trigger] w.states[s].arcs[i]).weight.spec_member() by {
            assert(w.arcs(s)[i].weight.spec_member());
        }
    }
}

proof fn lemma_made_state<W: Weight, M1: Matcher<W>, M2: Matcher<W>>(
    l: FstV<W>,
    r: FstV<W>,
    m1: M1,
    m2: M2,
    table: Seq<ComposeStateTuple<CharFilterState>>,
    c: FstV<W>,
    x: int,
)
    requires
        pairs_up::<W, M1, M2>(l, r, m1, m2, table, c),
        stays_inside::<W>(),
        zero_is_nothing::<W>(),
        all_members(l),
        all_members(r),
        writes_plainly(r),
        0 <= x < c.n(),
        is_there(l, r, table[x]),
    ensures
        is_plain_state(c.states[x]),
        forall|i: int|
            0 <= i < c.arcs(x).len() ==> is_there(
                l,
                r,
                table[(#[trigger] c.arcs(x)[i]).nextstate as int],
            ),
{
    let model = ComposeModel { fst1: l, fst2: r, rule: (l, m1, m2) };
    let key = table[x];
    let s1 = key.state1 as int;
    let s2 = key.state2 as int;
    let state = c.states[x];
    let made = Composing::<W, InSequence<W, M1, M2>>::steps(model, key);
    lemma_nothing(W::spec_one());
    assert(state_is_member(l.states[s1]));
    assert(state_is_member(r.states[s2]));
    lemma_stays(l.fin(s1), r.fin(s2));
    assert(state.final_weight.spec_member());
    assert forall|i: int| 0 <= i < state.arcs.len() implies {
        &&& (#[trigger] state.arcs[i]).weight.spec_member()
        &&& state.arcs[i].olabel != NO_LABEL
        &&& is_there(l, r, table[state.arcs[i].nextstate as int])
    } by {
        assert(numbered(made[i], state.arcs[i], table));
        assert(made.contains(made[i]));
        let (arc1, arc2) = lemma_step_comes_from::<W, M1, M2>(l, r, m1, m2, key, made[i]);
        if l.arcs(s1).contains(arc1) {
            let i1 = choose|i1: int| 0 <= i1 < l.arcs(s1).len() && l.arcs(s1)[i1] == arc1;
            assert(l.states[s1].arcs[i1].nextstate < l.n());
            assert(l.states[s1].arcs[i1].weight.spec_member());
        }
        if r.arcs(s2).contains(arc2) {
            let i2 = choose|i2: int| 0 <= i2 < r.arcs(s2).len() && r.arcs(s2)[i2] == arc2;
            assert(r.states[s2].arcs[i2].nextstate < r.n());
            assert(r.states[s2].arcs[i2].weight.spec_member());
            assert(r.arcs(s2)[i2].olabel != NO_LABEL);
        }
        assert(arc1.weight.spec_member());
        assert(arc2.weight.spec_member());
        lemma_stays(arc1.weight, arc2.weight);
    }
}

proof fn lemma_reached_is_there<W: Weight, M1: Matcher<W>, M2: Matcher<W>>(
    l: FstV<W>,
    r: FstV<W>,
    m1: M1,
    m2: M2,
    table: Seq<ComposeStateTuple<CharFilterState>>,
    c: FstV<W>,
    x: int,
    y: int,
    k: nat,
)
    requires
        pairs_up::<W, M1, M2>(l, r, m1, m2, table, c),
        stays_inside::<W>(),
        zero_is_nothing::<W>(),
        all_members(l),
        all_members(r),
        writes_plainly(r),
        0 <= x < c.n(),
        is_there(l, r, table[x]),
        reach_in(full_graph(c), x, y, k),
    ensures
        0 <= y < c.n(),
        is_there(l, r, table[y]),
    decreases k,
{
    if k > 0 {
        let g = full_graph(c);
        let m = choose|m: int| #[trigger] g(x, m) && reach_in(g, m, y, (k - 1) as nat);
        lemma_made_state::<W, M1, M2>(l, r, m1, m2, table, c, x);
        let i = choose|i: int|
            0 <= i < c.arcs(x).len() && (#[trigger] c.arcs(x)[i]).nextstate == m;
        assert(c.states[x].arcs[i].nextstate < c.n());
        assert(is_there(l, r, table[c.arcs(x)[i].nextstate as int]));
        lemma_reached_is_there::<W, M1, M2>(l, r, m1, m2, table, c, m, y, (k - 1) as nat);
    }
}

/// The weights of a composition are in the semiring where those of both machines are, and it
/// writes labels where the second machine does.
pub proof fn law_composition_holds_what_its_parts_hold<W: Weight>(
    v1: FstV<W>,
    v2: FstV<W>,
    o: FstV<W>,
    c: FstV<W>,
)
    requires
        v1.wf(),
        v2.wf(),
        labels_are_plain(v1, v2),
        stays_inside::<W>(),
        zero_is_nothing::<W>(),
        all_members(v1),
        all_members(v2),
        writes_plainly(v2),
        composes(v1, v2, o, true, c),
    ensures
        c.wf(),
        c.n() <= usize::MAX,
        all_members(c),
        writes_plainly(c),
{
    let (l, r, raw) = choose|l: FstV<W>, r: FstV<W>, raw: FstV<W>|
        {
            &&& is_sorted_copy(v1, true, l)
            &&& is_sorted_copy(v2, false, r)
            &&& #[trigger] composes_sorted(l, r, o, raw)
            &&& c == trimmed(raw)
        };
    let (m1, m2) = choose|m1: SortedMatcher<W>, m2: SortedMatcher<W>| #[trigger]
        searches(m1, l, true) && #[trigger] searches(m2, r, false) && is_composition::<
            W,
            SequenceComposeFilter<W, SortedMatcher<W>, SortedMatcher<W>>,
        >(l, r, (l, m1, m2), o, raw);
    lemma_copy_has_same_arcs(v1, true, l);
    lemma_copy_has_same_arcs(v2, false, r);
    lemma_plain_copies(v1, v2, l, r);
    lemma_same_hold_the_same(v1, l);
    lemma_same_hold_the_same(v2, r);
    lemma_composition_wf::<W, SequenceComposeFilter<W, SortedMatcher<W>, SortedMatcher<W>>>(
        l,
        r,
        (l, m1, m2),
        o,
        raw,
    );
    lemma_trimmed_wf(raw);
    let keep = path_states(raw);
    let n = raw.n() as int;
    lemma_kept_states_len(raw.states, keep, n);
    assert forall|j: int| 0 <= j < c.n() implies is_plain_state(#[trigger] c.states[j]) by {
        let x = lemma_rank_onto(keep, n, j);
        lemma_kept_state_at(raw.states, keep, x, n);
        assert(on_path(raw, x));
        let table = lemma_composition_pairs_up(l, r, m1, m2, o, raw);
        let k = choose|k: nat| reach_in(full_graph(raw), raw.start->0 as int, x, k);
        lemma_reached_is_there::<W, SortedMatcher<W>, SortedMatcher<W>>(
            l,
            r,
            m1,
            m2,
            table,
            raw,
            0,
            x,
            k,
        );
        lemma_made_state::<W, SortedMatcher<W>, SortedMatcher<W>>(l, r, m1, m2, table, raw, x);
        let arcs = raw.states[x].arcs;
        assert forall|i: int| 0 <= i < c.states[j].arcs.len() implies (
        #[trigger] c.states[j].arcs[i]).olabel != NO_LABEL
            && c.states[j].arcs[i].weight.spec_member() by {
            let y = lemma_kept_arc_from(arcs, keep, arcs.len() as int, i);
            assert(raw.states[x].arcs[y].olabel != NO_LABEL);
            assert(raw.states[x].arcs[y].weight.spec_member());
        }
    }
    assert forall|s: int, i: int| 0 <= s < c.n() && 0 <= i < c.arcs(s).len() implies (
    #[trigger] c.arcs(s)[i]).olabel != NO_LABEL by {
        assert(is_plain_state(c.states[s]));
        assert(c.states[s].arcs[i].olabel != NO_LABEL);
    }
    assert forall|s: int| 0 <= s < c.n() implies state_is_member(#[trigger] c.states[s]) by {
        assert(is_plain_state(c.states[s]));
    }
}

} // verus!
