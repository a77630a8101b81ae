//! What disambiguation leaves: every string that could be spelled, and no other.
//!
//! Each state of the machine that ambiguities are removed from stands for its head and
//! remembers the other states its head could still agree with. A transition goes only
//! where another, leaving a state with a smaller head, does the same for the same
//! strings; so of the ways to spell a string the one with the smallest heads stays.
use crate::ambiguity::{
    are_candidates, as_pair, clash, clash_at, expands, head_at, is_split, joins_splits, lead_to,
    no_splits, pair_leads, paired, paired_in, respects, same_label, ArcId, Candidate,
};
use crate::arc::Arc;
use crate::arcsort::{is_arc_sorted, lemma_arc_sorted_wf};
use crate::common_future::{
    ends_on, is_related, lemma_reach_reads, lemma_reads_first, read_together, share_future,
};
use crate::compose_laws::lemma_sorting_keeps_arcs;
use crate::connect::{
    kept_run, law_trimmed_states_are_on_paths, law_trimming_adds_no_path, law_trimming_keeps_paths,
    lemma_trimmed_wf, on_path, succeeds, trimmed,
};
use crate::determinize::{
    arc_reads, holds, lemma_merged_holds, lemma_reads_within, merged, reads_to, subset_reads,
    Member, Transition,
};
use crate::disambiguate::{
    ambiguous_arcs, are_all_stages, cut_state, going, is_countable, lemma_built_wf,
    lemma_heads_fit, lemma_joined_apart, lemma_same_runs, merged_target, result_of, spells,
    with_dead, with_merged, ByLabelAndTarget, Stages,
};
use crate::graph::{full_graph, reach, reach_in};
use crate::headed::{
    headed_start, headed_step, headed_steps, heads_of, joins, member_joins, repeats, Headed,
    Heading,
};
use crate::list::{lemma_list_sequence, sequence};
use crate::paths::{end_of, is_run, state_at, steps};
use crate::sort::{law_ranked, lemma_ranked_from, lemma_ranked_to, ranked};
use crate::unfold::{is_unfolding, numbered, unfolds};
use crate::union_find::UnionFind;
use crate::vector_fst::FstV;
use crate::weight::{spec_is_final, Divide, Weight};
use vstd::prelude::*;

verus! {

/// The state that the `s`th state stands for.
pub open spec fn head<W>(table: Seq<Headed<W>>, s: int) -> int {
    table[s].0 as int
}

/// The states that the `s`th state keeps track of.
pub open spec fn members<W>(table: Seq<Headed<W>>, s: int) -> Seq<Member<W>> {
    sequence(table[s].1)
}

/// Whether the states that `q` keeps track of are those that its head could still
/// agree with, where reading `label` leads from those that `s` keeps track of.
pub open spec fn gathers<W: Weight>(
    v: FstV<W>,
    table: Seq<Headed<W>>,
    s: int,
    label: i32,
    q: int,
) -> bool {
    forall|t: int| #[trigger]
        holds(members(table, q), t) <==> is_related(v, t, head(table, q)) && subset_reads(
            v,
            members(table, s),
            label,
            t,
        )
}

/// Whether an arc follows one of the head and leads to what it should.
pub open spec fn follows_at<W: Weight>(
    v: FstV<W>,
    table: Seq<Headed<W>>,
    s: int,
    arc: Arc<W>,
) -> bool {
    &&& arc.nextstate < table.len()
    &&& arc_reads(v.arcs(head(table, s)), arc.ilabel, head(table, arc.nextstate as int))
    &&& gathers(v, table, s, arc.ilabel, arc.nextstate as int)
}

/// Whether one of the arcs follows `arc`.
pub open spec fn is_followed<W: Weight>(
    table: Seq<Headed<W>>,
    arcs: Seq<Arc<W>>,
    arc: Arc<W>,
) -> bool {
    exists|i: int|
        0 <= i < arcs.len() && (#[trigger] arcs[i]).ilabel == arc.ilabel && head(
            table,
            arcs[i].nextstate as int,
        ) == arc.nextstate
}

/// Whether the arcs of each state of `w` follow those of its head, and keep track of
/// what could still agree.
pub open spec fn follows<W: Weight>(v: FstV<W>, table: Seq<Headed<W>>, w: FstV<W>) -> bool {
    &&& w.n() == table.len()
    &&& forall|s: int, i: int|
        0 <= s < w.n() && 0 <= i < w.states[s].arcs.len() ==> follows_at(
            v,
            table,
            s,
            #[trigger] w.states[s].arcs[i],
        )
    &&& forall|s: int, j: int|
        0 <= s < w.n() && 0 <= j < v.arcs(head(table, s)).len() ==> is_followed(
            table,
            w.states[s].arcs,
            #[trigger] v.arcs(head(table, s))[j],
        )
}

pub proof fn lemma_step_from<W: Divide>(
    v: FstV<W>,
    delta: W::Delta,
    subset: Seq<Member<W>>,
    arcs: Seq<Arc<W>>,
    k: int,
    i: int,
) -> (j: int)
    requires
        0 <= k <= arcs.len(),
        0 <= i < headed_steps(v, delta, subset, arcs, k).len(),
    ensures
        0 <= j < k,
        headed_steps(v, delta, subset, arcs, k)[i] == headed_step(
            v,
            delta,
            subset,
            arcs[j].ilabel,
            arcs[j].nextstate,
        ),
    decreases k,
{
    let before = headed_steps(v, delta, subset, arcs, k - 1);
    if i < before.len() {
        lemma_step_from(v, delta, subset, arcs, k - 1, i)
    } else {
        k - 1
    }
}

proof fn lemma_step_to<W: Divide>(
    v: FstV<W>,
    delta: W::Delta,
    subset: Seq<Member<W>>,
    arcs: Seq<Arc<W>>,
    k: int,
    j: int,
) -> (i: int)
    requires
        0 <= j < k <= arcs.len(),
    ensures
        0 <= i < headed_steps(v, delta, subset, arcs, k).len(),
        headed_steps(v, delta, subset, arcs, k)[i].ilabel == arcs[j].ilabel,
        headed_steps(v, delta, subset, arcs, k)[i].to.0 == arcs[j].nextstate,
    decreases k,
{
    let before = headed_steps(v, delta, subset, arcs, k - 1);
    let all = headed_steps(v, delta, subset, arcs, k);
    if j < k - 1 {
        let i = lemma_step_to(v, delta, subset, arcs, k - 1, j);
        assert(all[i] == before[i]);
        i
    } else if repeats(arcs, j) {
        let i = lemma_step_to(v, delta, subset, arcs, k - 1, j - 1);
        assert(all[i] == before[i]);
        i
    } else {
        before.len() as int
    }
}

/// Whether some way leads to `t`.
pub open spec fn leads_to<W>(ways: Seq<Transition<W>>, t: int) -> bool {
    exists|i: int| 0 <= i < ways.len() && (#[trigger] ways[i]).to == t
}

proof fn lemma_member_joins_to<W: Weight>(
    v: FstV<W>,
    weight: W,
    arcs: Seq<Arc<W>>,
    label: i32,
    dest: usize,
    k: int,
    t: int,
)
    requires
        0 <= k <= arcs.len(),
    ensures
        leads_to(member_joins(v, weight, arcs, label, dest, k), t) <==> is_related(
            v,
            t,
            dest as int,
        ) && arc_reads(arcs.take(k), label, t),
    decreases k,
{
    if k > 0 {
        lemma_member_joins_to(v, weight, arcs, label, dest, k - 1, t);
        let before = member_joins(v, weight, arcs, label, dest, k - 1);
        let after = member_joins(v, weight, arcs, label, dest, k);
        let arc = arcs[k - 1];
        let was = arcs.take(k - 1);
        let now = arcs.take(k);
        assert(forall|x: int| 0 <= x < k - 1 ==> #[trigger] now[x] == was[x]);
        assert(now[k - 1] == arc);
        assert(forall|x: int| 0 <= x < before.len() ==> #[trigger] after[x] == before[x]);
        if arc_reads(was, label, t) {
            let j = choose|j: int|
                0 <= j < was.len() && (#[trigger] was[j]).ilabel == label && was[j].nextstate == t;
            assert(now[j].ilabel == label);
        }
        if leads_to(before, t) {
            let i = choose|i: int| 0 <= i < before.len() && (#[trigger] before[i]).to == t;
            assert(after[i].to == t);
        }
        if leads_to(after, t) {
            let i = choose|i: int| 0 <= i < after.len() && (#[trigger] after[i]).to == t;
            if i < before.len() {
                assert(before[i].to == t);
            }
        }
        if arc_reads(now, label, t) && is_related(v, t, dest as int) {
            let j = choose|j: int|
                0 <= j < now.len() && (#[trigger] now[j]).ilabel == label && now[j].nextstate == t;
            if j < k - 1 {
                assert(was[j].ilabel == label);
            } else {
                assert(after[before.len() as int].to == t);
            }
        }
    } else {
        assert(arcs.take(0).len() == 0);
    }
}

proof fn lemma_joins_to<W: Weight>(
    v: FstV<W>,
    subset: Seq<Member<W>>,
    label: i32,
    dest: usize,
    k: int,
    t: int,
)
    requires
        0 <= k <= subset.len(),
    ensures
        leads_to(joins(v, subset, label, dest, k), t) <==> is_related(v, t, dest as int)
            && subset_reads(v, subset.take(k), label, t),
    decreases k,
{
    if k > 0 {
        lemma_joins_to(v, subset, label, dest, k - 1, t);
        let before = joins(v, subset, label, dest, k - 1);
        let after = joins(v, subset, label, dest, k);
        let arcs = v.arcs(subset[k - 1].state as int);
        let n = arcs.len() as int;
        let more = member_joins(v, subset[k - 1].weight, arcs, label, dest, n);
        lemma_member_joins_to(v, subset[k - 1].weight, arcs, label, dest, n, t);
        assert(arcs.take(n) =~= arcs);
        assert(after == before + more);
        let was = subset.take(k - 1);
        let now = subset.take(k);
        assert(forall|x: int| 0 <= x < k - 1 ==> #[trigger] now[x] == was[x]);
        assert(now[k - 1] == subset[k - 1]);
        if leads_to(after, t) {
            let i = choose|i: int| 0 <= i < after.len() && (#[trigger] after[i]).to == t;
            if i < before.len() {
                assert(before[i].to == t);
                let x = choose|x: int|
                    0 <= x < was.len() && arc_reads(
                        v.arcs((#[trigger] was[x]).state as int),
                        label,
                        t,
                    );
                assert(arc_reads(v.arcs(now[x].state as int), label, t));
            } else {
                assert(more[i - before.len()].to == t);
                assert(arc_reads(v.arcs(now[k - 1].state as int), label, t));
            }
        }
        if is_related(v, t, dest as int) && subset_reads(v, now, label, t) {
            let x = choose|x: int|
                0 <= x < now.len() && arc_reads(v.arcs((#[trigger] now[x]).state as int), label, t);
            if x < k - 1 {
                assert(arc_reads(v.arcs(was[x].state as int), label, t));
                let i = choose|i: int| 0 <= i < before.len() && (#[trigger] before[i]).to == t;
                assert(after[i].to == t);
            } else {
                let i = choose|i: int| 0 <= i < more.len() && (#[trigger] more[i]).to == t;
                assert(after[before.len() + i].to == t);
            }
        }
    } else {
        assert(subset.take(0).len() == 0);
    }
}

/// A destination keeps track of what its head could still agree with.
proof fn lemma_step_gathers<W: Divide>(
    v: FstV<W>,
    delta: W::Delta,
    subset: Seq<Member<W>>,
    label: i32,
    dest: usize,
    t: int,
)
    ensures
        holds(sequence(headed_step(v, delta, subset, label, dest).to.1), t) <==> is_related(
            v,
            t,
            dest as int,
        ) && subset_reads(v, subset, label, t),
{
    let n = subset.len() as int;
    let ways = joins(v, subset, label, dest, n);
    let elements = ranked(ways);
    let size = elements.len() as int;
    let group = merged(elements, size);
    let to = sequence(headed_step(v, delta, subset, label, dest).to.1);
    let taken = headed_step(v, delta, subset, label, dest).weight;
    lemma_list_sequence(crate::determinize::remaining(group, taken, delta));
    assert(to == crate::determinize::remaining(group, taken, delta));
    lemma_joins_to(v, subset, label, dest, n, t);
    assert(subset.take(n) =~= subset);
    law_ranked(ways);
    lemma_merged_holds(elements, size, t);
    if holds(to, t) {
        let i = choose|i: int| 0 <= i < to.len() && (#[trigger] to[i]).state == t;
        assert(group[i].state == t);
        let x = choose|x: int| 0 <= x < size && (#[trigger] elements[x]).to == t;
        let y = lemma_ranked_from(ways, x);
        assert(ways[y].to == t);
    }
    if leads_to(ways, t) {
        let y = choose|y: int| 0 <= y < ways.len() && (#[trigger] ways[y]).to == t;
        let x = lemma_ranked_to(ways, y);
        assert(elements[x].to == t);
        let i = choose|i: int| 0 <= i < group.len() && (#[trigger] group[i]).state == t;
        assert(to[i].state == t);
    }
}

/// What is built with the choices kept apart follows the heads.
pub proof fn lemma_built_follows<W: Divide>(
    v: FstV<W>,
    delta: W::Delta,
    start: usize,
    table: Seq<Headed<W>>,
    w: FstV<W>,
)
    requires
        is_unfolding::<W, Headed<W>, Heading<W>>(
            (v, delta),
            headed_start(start),
            true,
            table,
            w.states,
        ),
    ensures
        follows(v, table, w),
{
    assert forall|s: int, i: int|
        0 <= s < w.n() && 0 <= i < w.states[s].arcs.len() implies follows_at(
        v,
        table,
        s,
        #[trigger] w.states[s].arcs[i],
    ) by {
        assert(unfolds::<W, Headed<W>, Heading<W>>((v, delta), table[s], w.states[s], table));
        let arcs = v.arcs(head(table, s));
        let subset = members(table, s);
        let all = headed_steps(v, delta, subset, arcs, arcs.len() as int);
        let arc = w.states[s].arcs[i];
        assert(numbered(all[i], arc, table));
        let j = lemma_step_from(v, delta, subset, arcs, arcs.len() as int, i);
        let q = arc.nextstate as int;
        assert(arcs[j].ilabel == arc.ilabel && arcs[j].nextstate == head(table, q));
        assert forall|t: int| #[trigger]
            holds(members(table, q), t) <==> is_related(v, t, head(table, q)) && subset_reads(
                v,
                subset,
                arc.ilabel,
                t,
            ) by {
            lemma_step_gathers(v, delta, subset, arcs[j].ilabel, arcs[j].nextstate, t);
        }
    }
    assert forall|s: int, j: int|
        0 <= s < w.n() && 0 <= j < v.arcs(head(table, s)).len() implies is_followed(
        table,
        w.states[s].arcs,
        #[trigger] v.arcs(head(table, s))[j],
    ) by {
        assert(unfolds::<W, Headed<W>, Heading<W>>((v, delta), table[s], w.states[s], table));
        let arcs = v.arcs(head(table, s));
        let subset = members(table, s);
        let all = headed_steps(v, delta, subset, arcs, arcs.len() as int);
        let i = lemma_step_to(v, delta, subset, arcs, arcs.len() as int, j);
        assert(numbered(all[i], w.states[s].arcs[i], table));
    }
}

/// Putting arcs in order leaves them following the heads.
pub proof fn lemma_sorted_follows<W: Divide>(
    v: FstV<W>,
    table: Seq<Headed<W>>,
    w: FstV<W>,
    sorted: FstV<W>,
)
    requires
        follows(v, table, w),
        is_arc_sorted(ByLabelAndTarget, w, sorted),
    ensures
        follows(v, table, sorted),
{
    assert forall|s: int, i: int|
        0 <= s < sorted.n() && 0 <= i < sorted.states[s].arcs.len() implies follows_at(
        v,
        table,
        s,
        #[trigger] sorted.states[s].arcs[i],
    ) by {
        let arc = sorted.states[s].arcs[i];
        assert(sorted.states[s].final_weight == w.states[s].final_weight);
        lemma_sorting_keeps_arcs(ByLabelAndTarget, w.states[s].arcs, sorted.states[s].arcs, arc);
        assert(sorted.states[s].arcs.contains(arc));
        let k = choose|k: int| 0 <= k < w.states[s].arcs.len() && w.states[s].arcs[k] == arc;
        assert(follows_at(v, table, s, w.states[s].arcs[k]));
    }
    assert forall|s: int, j: int|
        0 <= s < sorted.n() && 0 <= j < v.arcs(head(table, s)).len() implies is_followed(
        table,
        sorted.states[s].arcs,
        #[trigger] v.arcs(head(table, s))[j],
    ) by {
        let from = v.arcs(head(table, s))[j];
        let arcs = w.states[s].arcs;
        assert(is_followed(table, arcs, from));
        let k = choose|k: int|
            0 <= k < arcs.len() && (#[trigger] arcs[k]).ilabel == from.ilabel && head(
                table,
                arcs[k].nextstate as int,
            ) == from.nextstate;
        assert(sorted.states[s].final_weight == w.states[s].final_weight);
        lemma_sorting_keeps_arcs(ByLabelAndTarget, arcs, sorted.states[s].arcs, arcs[k]);
        assert(arcs.contains(arcs[k]));
        let i = choose|i: int|
            0 <= i < sorted.states[s].arcs.len() && sorted.states[s].arcs[i] == arcs[k];
        assert(sorted.states[s].arcs[i].ilabel == from.ilabel);
    }
}

/// Whether every state of the machine leads to an end, and the table begins with its
/// start.
pub open spec fn begins_well<W: Weight>(v: FstV<W>, table: Seq<Headed<W>>) -> bool {
    &&& v.wf()
    &&& v.start is Some
    &&& spec_is_final(W::spec_one())
    &&& table.len() > 0
    &&& table[0] == headed_start::<W>(v.start->0)
    &&& forall|s: int| 0 <= s < table.len() ==> (#[trigger] table[s]).0 < v.n()
    &&& forall|h: int| 0 <= h < v.n() ==> #[trigger] has_future(v, h)
}

/// Whether some string leads from `h` to an end.
pub open spec fn has_future<W: Weight>(v: FstV<W>, h: int) -> bool {
    exists|x: Seq<i32>| #[trigger] ends_on(v, h, x)
}

pub proof fn lemma_ends_first<W: Weight>(v: FstV<W>, s: int, label: i32, m: int, x: Seq<i32>)
    requires
        0 <= s < v.n(),
        arc_reads(v.arcs(s), label, m),
        ends_on(v, m, x),
    ensures
        ends_on(v, s, seq![label] + x),
{
    let t = choose|t: int|
        0 <= t < v.n() && #[trigger] reads_to(v, m, x, t) && v.fin(t) != W::spec_zero();
    lemma_reads_first(v, s, label, m, x, t);
}

pub proof fn lemma_reads_on<W: Weight>(v: FstV<W>, s: int, x: Seq<i32>, q: int, label: i32, t: int)
    requires
        reads_to(v, s, x, q),
        0 <= q < v.n(),
        arc_reads(v.arcs(q), label, t),
    ensures
        reads_to(v, s, x.push(label), t),
{
    assert(x.push(label).drop_last() =~= x);
    assert(x.push(label).last() == label);
}

/// A state reached by reading `x` stands for a state that `x` leads to, and keeps
/// track of those that `x` also leads to and that could still agree with it.
pub proof fn lemma_members<W: Weight>(
    v: FstV<W>,
    table: Seq<Headed<W>>,
    w: FstV<W>,
    x: Seq<i32>,
    s: int,
    t: int,
)
    requires
        begins_well(v, table),
        follows(v, table, w),
        0 <= s < w.n(),
        reads_to(w, 0, x, s),
    ensures
        reads_to(v, v.start->0 as int, x, head(table, s)),
        holds(members(table, s), t) <==> reads_to(v, v.start->0 as int, x, t) && is_related(
            v,
            t,
            head(table, s),
        ),
    decreases x.len(),
{
    let start = v.start->0 as int;
    if x.len() == 0 {
        let only = seq![Member { state: v.start->0, weight: W::spec_one() }];
        lemma_list_sequence(only);
        assert(members(table, 0) == only);
        if t == start {
            assert(only[0].state == t);
            assert(has_future(v, start));
            let y = choose|y: Seq<i32>| #[trigger] ends_on(v, start, y);
            assert(reads_to(v, start, x, start));
            assert(read_together(v, start, start));
            assert(share_future(v, start, start));
        }
    } else {
        let before = x.drop_last();
        let label = x.last();
        let p = choose|p: int|
            0 <= p < w.n() && reads_to(w, 0, before, p) && #[trigger] arc_reads(
                w.arcs(p),
                label,
                s,
            );
        let i = choose|i: int|
            0 <= i < w.arcs(p).len() && (#[trigger] w.arcs(p)[i]).ilabel == label && w.arcs(
                p,
            )[i].nextstate == s;
        assert(follows_at(v, table, p, w.states[p].arcs[i]));
        let h = head(table, s);
        let g = head(table, p);
        assert(table[p].0 < v.n());
        lemma_members(v, table, w, before, p, g);
        assert(reads_to(v, start, x, h)) by {
            assert(arc_reads(v.arcs(g), label, h));
        }
        assert(gathers(v, table, p, label, s));
        let from = members(table, p);
        if holds(members(table, s), t) {
            let k = choose|k: int|
                0 <= k < from.len() && arc_reads(
                    v.arcs((#[trigger] from[k]).state as int),
                    label,
                    t,
                );
            let m = from[k].state as int;
            assert(holds(from, m));
            lemma_members(v, table, w, before, p, m);
            lemma_reads_within(v, start, before, m);
            assert(arc_reads(v.arcs(m), label, t));
        }
        if reads_to(v, start, x, t) && is_related(v, t, h) {
            let m = choose|m: int|
                0 <= m < v.n() && reads_to(v, start, before, m) && #[trigger] arc_reads(
                    v.arcs(m),
                    label,
                    t,
                );
            let y = choose|y: Seq<i32>| #[trigger] ends_on(v, t, y) && ends_on(v, h, y);
            lemma_ends_first(v, m, label, t, y);
            lemma_ends_first(v, g, label, h, y);
            assert(share_future(v, m, g));
            assert(read_together(v, m, g));
            lemma_members(v, table, w, before, p, m);
            let k = choose|k: int| 0 <= k < from.len() && (#[trigger] from[k]).state == m;
            assert(subset_reads(v, from, label, t));
        }
    }
}

/// Whatever could be read of the input can be read of what follows it.
proof fn lemma_lift<W: Weight>(
    v: FstV<W>,
    table: Seq<Headed<W>>,
    w: FstV<W>,
    x: Seq<i32>,
    h: int,
) -> (s: int)
    requires
        begins_well(v, table),
        follows(v, table, w),
        reads_to(v, v.start->0 as int, x, h),
    ensures
        0 <= s < w.n(),
        reads_to(w, 0, x, s),
        head(table, s) == h,
    decreases x.len(),
{
    let start = v.start->0 as int;
    if x.len() == 0 {
        0
    } else {
        let before = x.drop_last();
        let label = x.last();
        let g = choose|g: int|
            0 <= g < v.n() && reads_to(v, start, before, g) && #[trigger] arc_reads(
                v.arcs(g),
                label,
                h,
            );
        let p = lemma_lift(v, table, w, before, g);
        let j = choose|j: int|
            0 <= j < v.arcs(g).len() && (#[trigger] v.arcs(g)[j]).ilabel == label && v.arcs(
                g,
            )[j].nextstate == h;
        lemma_arc_follows(v, table, w, p, j)
    }
}

/// Some arc follows each of the head.
proof fn lemma_arc_follows<W: Weight>(
    v: FstV<W>,
    table: Seq<Headed<W>>,
    w: FstV<W>,
    p: int,
    j: int,
) -> (s: int)
    requires
        follows(v, table, w),
        0 <= p < w.n(),
        0 <= j < v.arcs(head(table, p)).len(),
    ensures
        0 <= s < w.n(),
        arc_reads(w.arcs(p), v.arcs(head(table, p))[j].ilabel, s),
        head(table, s) == v.arcs(head(table, p))[j].nextstate,
{
    let arc = v.arcs(head(table, p))[j];
    let arcs = w.states[p].arcs;
    assert(is_followed(table, arcs, arc));
    let i = choose|i: int|
        0 <= i < arcs.len() && (#[trigger] arcs[i]).ilabel == arc.ilabel && head(
            table,
            arcs[i].nextstate as int,
        ) == arc.nextstate;
    let s = w.states[p].arcs[i].nextstate as int;
    assert(follows_at(v, table, p, w.states[p].arcs[i]));
    assert(arc_reads(w.arcs(p), arc.ilabel, s)) by {
        assert(w.arcs(p)[i].ilabel == arc.ilabel);
    }
    s
}

/// One string leads to both states of a pair.
proof fn lemma_pair_is_read<W: Weight>(
    w: FstV<W>,
    heads: Seq<usize>,
    q: (usize, usize),
    k: nat,
) -> (x: Seq<i32>)
    requires
        w.wf(),
        w.start == Some(0usize),
        paired_in(w, heads, q, k),
    ensures
        reads_to(w, 0, x, q.0 as int),
        reads_to(w, 0, x, q.1 as int),
        q.0 < w.n(),
        q.1 < w.n(),
    decreases k,
{
    if k == 0 {
        Seq::empty()
    } else {
        let p = choose|p: (usize, usize)| #[trigger]
            pair_leads(w, p, q) && expands(heads, p) && paired_in(w, heads, p, (k - 1) as nat);
        let x = lemma_pair_is_read(w, heads, p, (k - 1) as nat);
        let (i, j) = choose|i: int, j: int| #[trigger]
            same_label(w, p, i, j) && q == lead_to(w, p, i, j);
        let a = w.states[p.0 as int].arcs[i];
        let b = w.states[p.1 as int].arcs[j];
        assert(a.nextstate < w.n() && b.nextstate < w.n());
        assert(arc_reads(w.arcs(p.0 as int), a.ilabel, a.nextstate as int)) by {
            assert(w.arcs(p.0 as int)[i] == a);
        }
        assert(arc_reads(w.arcs(p.1 as int), a.ilabel, b.nextstate as int)) by {
            assert(w.arcs(p.1 as int)[j] == b);
        }
        lemma_reads_on(w, 0, x, p.0 as int, a.ilabel, a.nextstate as int);
        lemma_reads_on(w, 0, x, p.1 as int, a.ilabel, b.nextstate as int);
        x.push(a.ilabel)
    }
}

/// Two states that one string leads to are a pair.
proof fn lemma_read_is_paired<W: Weight>(
    w: FstV<W>,
    heads: Seq<usize>,
    x: Seq<i32>,
    s: int,
    t: int,
)
    requires
        w.wf(),
        w.start == Some(0usize),
        w.n() <= usize::MAX,
        no_splits(w, heads),
        reads_to(w, 0, x, s),
        reads_to(w, 0, x, t),
    ensures
        0 <= s < w.n(),
        0 <= t < w.n(),
        paired(w, heads, as_pair(s as usize, t as usize)),
        expands(heads, as_pair(s as usize, t as usize)),
    decreases x.len(),
{
    lemma_reads_within(w, 0, x, s);
    lemma_reads_within(w, 0, x, t);
    let q = as_pair(s as usize, t as usize);
    if x.len() == 0 {
        assert(paired_in(w, heads, q, 0));
    } else {
        let before = x.drop_last();
        let label = x.last();
        let a = choose|a: int|
            0 <= a < w.n() && reads_to(w, 0, before, a) && #[trigger] arc_reads(
                w.arcs(a),
                label,
                s,
            );
        let b = choose|b: int|
            0 <= b < w.n() && reads_to(w, 0, before, b) && #[trigger] arc_reads(
                w.arcs(b),
                label,
                t,
            );
        lemma_read_is_paired(w, heads, before, a, b);
        let p = as_pair(a as usize, b as usize);
        let i = choose|i: int|
            0 <= i < w.arcs(a).len() && (#[trigger] w.arcs(a)[i]).ilabel == label && w.arcs(
                a,
            )[i].nextstate == s;
        let j = choose|j: int|
            0 <= j < w.arcs(b).len() && (#[trigger] w.arcs(b)[j]).ilabel == label && w.arcs(
                b,
            )[j].nextstate == t;
        if a <= b {
            assert(same_label(w, p, i, j));
            assert(lead_to(w, p, i, j) == q);
        } else {
            assert(same_label(w, p, j, i));
            assert(lead_to(w, p, j, i) == q);
        }
        assert(pair_leads(w, p, q));
        let n = choose|n: nat| paired_in(w, heads, p, n);
        assert(paired_in(w, heads, q, n + 1));
    }
    assert(paired(w, heads, q));
    assert(!is_split(w, heads, q));
}

/// Merging the states that splits connect leaves arcs following the heads.
proof fn lemma_merged_follows<W: Divide>(
    v: FstV<W>,
    table: Seq<Headed<W>>,
    w: FstV<W>,
    sets: UnionFind,
)
    requires
        begins_well(v, table),
        follows(v, table, w),
        w.wf(),
        w.start == Some(0usize),
        sets.wf(),
        joins_splits(w, heads_of(table), sets),
    ensures
        follows(v, table, with_merged(w, sets)),
{
    let r = with_merged(w, sets);
    assert forall|s: int, i: int|
        0 <= s < r.n() && 0 <= i < r.states[s].arcs.len() implies follows_at(
        v,
        table,
        s,
        #[trigger] r.states[s].arcs[i],
    ) by {
        let arc = w.states[s].arcs[i];
        let q = arc.nextstate as int;
        assert(q < w.n());
        assert(follows_at(v, table, s, w.states[s].arcs[i]));
        let to = merged_target(sets, arc.nextstate) as int;
        assert(r.states[s].arcs[i].nextstate == to);
        lemma_merged_alike(v, table, w, sets, q);
        assert forall|t: int| #[trigger]
            holds(members(table, to), t) <==> is_related(v, t, head(table, to)) && subset_reads(
                v,
                members(table, s),
                arc.ilabel,
                t,
            ) by {
            assert(holds(members(table, q), t) == holds(members(table, to), t));
        }
    }
    assert forall|s: int, j: int|
        0 <= s < r.n() && 0 <= j < v.arcs(head(table, s)).len() implies is_followed(
        table,
        r.states[s].arcs,
        #[trigger] v.arcs(head(table, s))[j],
    ) by {
        let from = v.arcs(head(table, s))[j];
        let arcs = w.states[s].arcs;
        assert(is_followed(table, arcs, from));
        let k = choose|k: int|
            0 <= k < arcs.len() && (#[trigger] arcs[k]).ilabel == from.ilabel && head(
                table,
                arcs[k].nextstate as int,
            ) == from.nextstate;
        assert(w.states[s].arcs[k].nextstate < w.n());
        lemma_merged_alike(v, table, w, sets, arcs[k].nextstate as int);
        assert(r.states[s].arcs[k].ilabel == from.ilabel);
    }
}

/// States that splits connect stand for one state and keep track of the same ones.
proof fn lemma_merged_alike<W: Divide>(
    v: FstV<W>,
    table: Seq<Headed<W>>,
    w: FstV<W>,
    sets: UnionFind,
    q: int,
)
    requires
        begins_well(v, table),
        follows(v, table, w),
        w.wf(),
        w.start == Some(0usize),
        sets.wf(),
        joins_splits(w, heads_of(table), sets),
        0 <= q < w.n(),
        q <= usize::MAX,
    ensures
        ({
            let to = merged_target(sets, q as usize) as int;
            &&& 0 <= to < w.n()
            &&& head(table, to) == head(table, q)
            &&& forall|t: int| #[trigger]
                holds(members(table, to), t) <==> holds(members(table, q), t)
        }),
{
    let heads = heads_of(table);
    let to = merged_target(sets, q as usize) as int;
    assert(sets.has(q));
    sets.lemma_rep(q);
    assert(sets.same(q, to));
    let color = |x: int| head_at(heads, x) as int;
    assert(respects(w, heads, color)) by {
        assert forall|p: (usize, usize)| #[trigger] is_split(w, heads, p) implies color(p.0 as int)
            == color(p.1 as int) by {}
    }
    assert(color(q) == color(to));
    assert forall|t: int| #[trigger] holds(members(table, to), t) <==> holds(members(table, q), t) by {
        let mark = |x: int|
            if holds(members(table, x), t) {
                1int
            } else {
                0int
            };
        assert(respects(w, heads, mark)) by {
            assert forall|p: (usize, usize)| #[trigger] is_split(w, heads, p) implies mark(
                p.0 as int,
            ) == mark(p.1 as int) by {
                let k = choose|k: nat| paired_in(w, heads, p, k);
                let x = lemma_pair_is_read(w, heads, p, k);
                lemma_members(v, table, w, x, p.0 as int, t);
                lemma_members(v, table, w, x, p.1 as int, t);
            }
        }
        assert(mark(q) == mark(to));
    }
}

/// A transition that goes clashes with one that leaves a state with a smaller head.
proof fn lemma_gone_clashes<W: Weight>(
    w: FstV<W>,
    heads: Seq<usize>,
    found: Seq<Candidate>,
    a: ArcId,
) -> (b: ArcId)
    requires
        are_candidates(w, heads, found),
        ambiguous_arcs(found).contains(a),
    ensures
        clash(w, heads, a, b),
{
    law_ranked(found);
    let ordered = ranked(found);
    let i = lemma_going_first(ordered, found.len() as int, a);
    let j = lemma_ranked_from(found, i);
    assert(clash(w, heads, found[j].a, found[j].b));
    found[j].b
}

proof fn lemma_going_first(ordered: Seq<Candidate>, k: int, a: ArcId) -> (i: int)
    requires
        0 <= k <= ordered.len(),
        going(ordered, k).contains(a),
    ensures
        0 <= i < k,
        ordered[i].a == a,
    decreases k,
{
    if k > 0 && going(ordered, k - 1).contains(a) {
        lemma_going_first(ordered, k - 1, a)
    } else {
        k - 1
    }
}

/// Whether ambiguities are being removed from `w`, which follows `v`.
pub open spec fn is_thinned<W: Weight>(
    v: FstV<W>,
    table: Seq<Headed<W>>,
    w: FstV<W>,
    found: Seq<Candidate>,
) -> bool {
    &&& begins_well(v, table)
    &&& follows(v, table, w)
    &&& w.wf()
    &&& w.start == Some(0usize)
    &&& is_countable(w)
    &&& no_splits(w, heads_of(table))
    &&& are_candidates(w, heads_of(table), found)
}

/// Of two states that could still agree and that some string leads to, whatever leads
/// to the one leads to a state that stands for what the other stands for.
proof fn lemma_other_way<W: Weight>(
    v: FstV<W>,
    table: Seq<Headed<W>>,
    w: FstV<W>,
    found: Seq<Candidate>,
    x: Seq<i32>,
    s: int,
    b: int,
) -> (to: int)
    requires
        is_thinned(v, table, w, found),
        0 <= s < w.n(),
        0 <= b < w.n(),
        reads_to(w, 0, x, s),
        paired(w, heads_of(table), as_pair(s as usize, b as usize)),
        share_future(v, head(table, b), head(table, s)),
    ensures
        0 <= to < w.n(),
        reads_to(w, 0, x, to),
        head(table, to) == head(table, b),
{
    let heads = heads_of(table);
    let p = as_pair(s as usize, b as usize);
    let k = choose|k: nat| paired_in(w, heads, p, k);
    let y = lemma_pair_is_read(w, heads, p, k);
    let g = head(table, b);
    lemma_members(v, table, w, y, s, g);
    lemma_members(v, table, w, y, b, g);
    assert(read_together(v, g, head(table, s)));
    assert(holds(members(table, s), g));
    lemma_members(v, table, w, x, s, g);
    lemma_lift(v, table, w, x, g)
}

/// A state reached by an arc that goes is reached as well, by the same string, from a
/// state with a smaller head.
proof fn lemma_other_arc<W: Weight>(
    v: FstV<W>,
    table: Seq<Headed<W>>,
    w: FstV<W>,
    found: Seq<Candidate>,
    x: Seq<i32>,
    s: int,
    k: int,
) -> (to: int)
    requires
        is_thinned(v, table, w, found),
        0 <= s < w.n(),
        reads_to(w, 0, x, s),
        0 <= k < w.arcs(s).len(),
        ambiguous_arcs(found).contains((s as usize, Some(k as usize))),
    ensures
        0 <= to < w.n(),
        reads_to(w, 0, x, to),
        head(table, to) < head(table, s),
        arc_reads(w.arcs(to), w.arcs(s)[k].ilabel, w.arcs(s)[k].nextstate as int),
{
    let heads = heads_of(table);
    assert(w.states[s].arcs.len() <= usize::MAX);
    let a: ArcId = (s as usize, Some(k as usize));
    let b = lemma_gone_clashes(w, heads, found, a);
    let p = choose|p: (usize, usize)| #[trigger]
        paired(w, heads, p) && expands(heads, p) && clash_at(w, heads, p, a, b);
    let n = choose|n: nat| paired_in(w, heads, p, n);
    let y = lemma_pair_is_read(w, heads, p, n);
    let z = b.0 as int;
    lemma_read_is_paired(w, heads, y, s, z);
    let j = b.1->0 as int;
    let label = w.arcs(s)[k].ilabel;
    let q = w.arcs(s)[k].nextstate as int;
    assert(follows_at(v, table, s, w.states[s].arcs[k]));
    assert(follows_at(v, table, z, w.states[z].arcs[j]));
    let h = head(table, q);
    assert(table[s].0 < v.n() && table[z].0 < v.n() && table[q].0 < v.n());
    assert(has_future(v, h));
    let f = choose|f: Seq<i32>| #[trigger] ends_on(v, h, f);
    lemma_ends_first(v, head(table, s), label, h, f);
    lemma_ends_first(v, head(table, z), label, h, f);
    assert(share_future(v, head(table, z), head(table, s)));
    let to = lemma_other_way(v, table, w, found, x, s, z);
    let arcs = v.arcs(head(table, z));
    let i = choose|i: int|
        0 <= i < arcs.len() && (#[trigger] arcs[i]).ilabel == label && arcs[i].nextstate == h;
    let r = lemma_arc_follows(v, table, w, to, i);
    lemma_reads_on(w, 0, x, to, label, r);
    assert(arc_reads(w.arcs(s), label, q));
    lemma_reads_on(w, 0, x, s, label, q);
    lemma_read_is_paired(w, heads, x.push(label), q, r);
    assert(q == r);
    to
}

/// Of the arcs by which a string leads to a state, one stays.
proof fn lemma_arc_that_stays<W: Weight>(
    v: FstV<W>,
    table: Seq<Headed<W>>,
    w: FstV<W>,
    found: Seq<Candidate>,
    x: Seq<i32>,
    s: int,
    k: int,
) -> (at: (int, int))
    requires
        is_thinned(v, table, w, found),
        0 <= s < w.n(),
        reads_to(w, 0, x, s),
        0 <= k < w.arcs(s).len(),
    ensures
        0 <= at.0 < w.n(),
        reads_to(w, 0, x, at.0),
        0 <= at.1 < w.arcs(at.0).len(),
        w.arcs(at.0)[at.1].ilabel == w.arcs(s)[k].ilabel,
        w.arcs(at.0)[at.1].nextstate == w.arcs(s)[k].nextstate,
        !ambiguous_arcs(found).contains((at.0 as usize, Some(at.1 as usize))),
    decreases head(table, s),
{
    if ambiguous_arcs(found).contains((s as usize, Some(k as usize))) {
        let to = lemma_other_arc(v, table, w, found, x, s, k);
        let label = w.arcs(s)[k].ilabel;
        let q = w.arcs(s)[k].nextstate;
        let j = choose|j: int|
            0 <= j < w.arcs(to).len() && (#[trigger] w.arcs(to)[j]).ilabel == label && w.arcs(
                to,
            )[j].nextstate == q;
        lemma_arc_that_stays(v, table, w, found, x, to, j)
    } else {
        (s, k)
    }
}

/// Whatever could be read still can.
proof fn lemma_still_read<W: Weight>(
    v: FstV<W>,
    table: Seq<Headed<W>>,
    w: FstV<W>,
    found: Seq<Candidate>,
    x: Seq<i32>,
    q: int,
)
    requires
        is_thinned(v, table, w, found),
        reads_to(w, 0, x, q),
    ensures
        reads_to(with_dead(w, ambiguous_arcs(found)), 0, x, q),
    decreases x.len(),
{
    if x.len() > 0 {
        let gone = ambiguous_arcs(found);
        let d = with_dead(w, gone);
        let before = x.drop_last();
        let label = x.last();
        let s = choose|s: int|
            0 <= s < w.n() && reads_to(w, 0, before, s) && #[trigger] arc_reads(
                w.arcs(s),
                label,
                q,
            );
        let k = choose|k: int|
            0 <= k < w.arcs(s).len() && (#[trigger] w.arcs(s)[k]).ilabel == label && w.arcs(
                s,
            )[k].nextstate == q;
        let at = lemma_arc_that_stays(v, table, w, found, before, s, k);
        lemma_still_read(v, table, w, found, before, at.0);
        assert(d.states[at.0] == cut_state(
            w.states[at.0],
            at.0 as usize,
            gone,
            w.n() as usize,
        ));
        assert(d.arcs(at.0)[at.1] == w.arcs(at.0)[at.1]);
        assert(arc_reads(d.arcs(at.0), label, q));
    }
}

/// Nothing can be read that could not before.
proof fn lemma_read_before<W: Weight>(w: FstV<W>, gone: Set<ArcId>, x: Seq<i32>, q: int)
    requires
        w.wf(),
        w.n() < usize::MAX,
        0 <= q < w.n(),
        reads_to(with_dead(w, gone), 0, x, q),
    ensures
        reads_to(w, 0, x, q),
    decreases x.len(),
{
    if x.len() > 0 {
        let d = with_dead(w, gone);
        let before = x.drop_last();
        let label = x.last();
        let s = choose|s: int|
            0 <= s < d.n() && reads_to(d, 0, before, s) && #[trigger] arc_reads(
                d.arcs(s),
                label,
                q,
            );
        let k = choose|k: int|
            0 <= k < d.arcs(s).len() && (#[trigger] d.arcs(s)[k]).ilabel == label && d.arcs(
                s,
            )[k].nextstate == q;
        assert(s < w.n());
        lemma_read_before(w, gone, before, s);
        assert(d.states[s] == cut_state(w.states[s], s as usize, gone, w.n() as usize));
        assert(w.arcs(s)[k] == d.arcs(s)[k]);
        assert(arc_reads(w.arcs(s), label, q));
    }
}

/// Whether a machine's states end where the states they stand for do.
pub open spec fn ends_alike<W: Weight>(
    v: FstV<W>,
    heads: Seq<usize>,
    w: FstV<W>,
) -> bool {
    forall|s: int|
        0 <= s < w.n() ==> {
            &&& v.fin(#[trigger] heads[s] as int) == W::spec_zero() ==> w.fin(s) == W::spec_zero()
            &&& v.fin(heads[s] as int) != W::spec_zero() ==> spec_is_final(w.fin(s))
                && spec_is_final(v.fin(heads[s] as int))
        }
}

/// Of the states to end in that a string leads to, one stays.
proof fn lemma_end_that_stays<W: Weight>(
    v: FstV<W>,
    table: Seq<Headed<W>>,
    w: FstV<W>,
    found: Seq<Candidate>,
    x: Seq<i32>,
    s: int,
) -> (to: int)
    requires
        is_thinned(v, table, w, found),
        ends_alike(v, heads_of(table), w),
        0 <= s < w.n(),
        reads_to(w, 0, x, s),
        w.is_final(s),
    ensures
        0 <= to < w.n(),
        reads_to(w, 0, x, to),
        w.is_final(to),
        !ambiguous_arcs(found).contains((to as usize, None)),
    decreases head(table, s),
{
    let heads = heads_of(table);
    let a: ArcId = (s as usize, None);
    if ambiguous_arcs(found).contains(a) {
        let b = lemma_gone_clashes(w, heads, found, a);
        let p = choose|p: (usize, usize)| #[trigger]
            paired(w, heads, p) && expands(heads, p) && clash_at(w, heads, p, a, b);
        let n = choose|n: nat| paired_in(w, heads, p, n);
        let y = lemma_pair_is_read(w, heads, p, n);
        let z = b.0 as int;
        lemma_read_is_paired(w, heads, y, s, z);
        assert(heads[s] == head(table, s) && heads[z] == head(table, z));
        assert(table[s].0 < v.n() && table[z].0 < v.n());
        let none = Seq::<i32>::empty();
        assert(reads_to(v, head(table, z), none, head(table, z)));
        assert(reads_to(v, head(table, s), none, head(table, s)));
        assert(ends_on(v, head(table, z), none));
        assert(ends_on(v, head(table, s), none));
        let to = lemma_other_way(v, table, w, found, x, s, z);
        assert(heads[to] == head(table, to));
        lemma_end_that_stays(v, table, w, found, x, to)
    } else {
        s
    }
}

/// Whether some successful path spells `x`, epsilons and all.
pub open spec fn is_spelled<W: Weight>(v: FstV<W>, x: Seq<i32>) -> bool {
    exists|run: Seq<Arc<W>>| #[trigger] succeeds(v, run) && spells(run) == x
}

proof fn lemma_run_reads<W: Weight>(v: FstV<W>, s: int, run: Seq<Arc<W>>)
    requires
        is_run(v, s, run),
    ensures
        reads_to(v, s, spells(run), end_of(s, run)),
    decreases run.len(),
{
    if run.len() > 0 {
        let rest = run.drop_last();
        assert forall|i: int| 0 <= i < rest.len() implies #[trigger] steps(v, s, rest, i) by {
            assert(steps(v, s, run, i));
            assert(state_at(s, rest, i) == state_at(s, run, i));
        }
        lemma_run_reads(v, s, rest);
        let n = run.len() as int;
        assert(steps(v, s, run, n - 1));
        let q = state_at(s, run, n - 1);
        assert(end_of(s, rest) == q);
        let k = choose|k: int| 0 <= k < v.arcs(q).len() && v.arcs(q)[k] == run[n - 1];
        assert(arc_reads(v.arcs(q), run[n - 1].ilabel, run[n - 1].nextstate as int));
        lemma_reads_on(
            v,
            s,
            spells(rest),
            q,
            run[n - 1].ilabel,
            run[n - 1].nextstate as int,
        );
        assert(spells(rest).push(run[n - 1].ilabel) =~= spells(run));
    } else {
        assert(spells(run).len() == 0);
    }
}

proof fn lemma_reads_run<W: Weight>(v: FstV<W>, s: int, x: Seq<i32>, t: int) -> (run: Seq<Arc<W>>)
    requires
        0 <= s < v.n(),
        reads_to(v, s, x, t),
    ensures
        is_run(v, s, run),
        spells(run) == x,
        end_of(s, run) == t,
    decreases x.len(),
{
    if x.len() == 0 {
        let run = Seq::<Arc<W>>::empty();
        assert(spells(run) =~= x);
        run
    } else {
        let label = x.last();
        let q = choose|q: int|
            0 <= q < v.n() && reads_to(v, s, x.drop_last(), q) && #[trigger] arc_reads(
                v.arcs(q),
                label,
                t,
            );
        let rest = lemma_reads_run(v, s, x.drop_last(), q);
        let k = choose|k: int|
            0 <= k < v.arcs(q).len() && (#[trigger] v.arcs(q)[k]).ilabel == label && v.arcs(
                q,
            )[k].nextstate == t;
        let run = rest.push(v.arcs(q)[k]);
        assert forall|i: int| 0 <= i < run.len() implies #[trigger] steps(v, s, run, i) by {
            assert(state_at(s, run, i) == state_at(s, rest, i));
            if i < rest.len() {
                assert(steps(v, s, rest, i));
            } else {
                assert(v.arcs(q).contains(v.arcs(q)[k]));
            }
        }
        assert(spells(rest).len() == rest.len());
        assert(spells(run) =~= x) by {
            assert forall|i: int| 0 <= i < run.len() implies spells(run)[i] == x[i] by {
                if i < rest.len() {
                    assert(spells(rest)[i] == x.drop_last()[i]);
                }
            }
        }
        run
    }
}

/// What is spelled is what leads to an end.
proof fn lemma_spelled<W: Weight>(v: FstV<W>, x: Seq<i32>)
    requires
        v.wf(),
        v.start is Some,
    ensures
        is_spelled(v, x) <==> exists|t: int|
            0 <= t < v.n() && #[trigger] reads_to(v, v.start->0 as int, x, t) && v.is_final(t),
{
    let s = v.start->0 as int;
    if is_spelled(v, x) {
        let run = choose|run: Seq<Arc<W>>| #[trigger] succeeds(v, run) && spells(run) == x;
        lemma_run_reads(v, s, run);
        lemma_reads_within(v, s, x, end_of(s, run));
    }
    if exists|t: int| 0 <= t < v.n() && #[trigger] reads_to(v, s, x, t) && v.is_final(t) {
        let t = choose|t: int|
            0 <= t < v.n() && #[trigger] reads_to(v, s, x, t) && v.is_final(t);
        let run = lemma_reads_run(v, s, x, t);
        assert(succeeds(v, run));
    }
}

/// Trimming keeps what is spelled.
proof fn lemma_trimming_spells<W: Weight>(v: FstV<W>, x: Seq<i32>)
    requires
        v.wf(),
        v.n() <= usize::MAX,
    ensures
        is_spelled(trimmed(v), x) <==> is_spelled(v, x),
{
    if is_spelled(v, x) {
        let run = choose|run: Seq<Arc<W>>| #[trigger] succeeds(v, run) && spells(run) == x;
        law_trimming_keeps_paths(v, run);
        assert(spells(kept_run(v, run)) =~= x);
    }
    if is_spelled(trimmed(v), x) {
        let run = choose|run: Seq<Arc<W>>| #[trigger]
            succeeds(trimmed(v), run) && spells(run) == x;
        let from = law_trimming_adds_no_path(v, run);
        assert(spells(from) =~= spells(run));
    }
}

/// Putting arcs in order changes nothing of what can be read.
proof fn lemma_sorting_reads<W: Weight>(v: FstV<W>, w: FstV<W>, s: int, x: Seq<i32>, t: int)
    requires
        is_arc_sorted(ByLabelAndTarget, v, w),
    ensures
        reads_to(v, s, x, t) <==> reads_to(w, s, x, t),
    decreases x.len(),
{
    if x.len() > 0 {
        let label = x.last();
        assert forall|q: int| 0 <= q < v.n() implies (#[trigger] arc_reads(v.arcs(q), label, t)
            <==> arc_reads(w.arcs(q), label, t)) && (reads_to(v, s, x.drop_last(), q) <==> reads_to(
            w,
            s,
            x.drop_last(),
            q,
        )) by {
            lemma_sorting_reads(v, w, s, x.drop_last(), q);
            let a = v.states[q].arcs;
            let b = w.states[q].arcs;
            assert(w.states[q].final_weight == v.states[q].final_weight);
            if arc_reads(a, label, t) {
                let k = choose|k: int|
                    0 <= k < a.len() && (#[trigger] a[k]).ilabel == label && a[k].nextstate == t;
                lemma_sorting_keeps_arcs(ByLabelAndTarget, a, b, a[k]);
                assert(a.contains(a[k]));
                let j = choose|j: int| 0 <= j < b.len() && b[j] == a[k];
                assert(b[j].ilabel == label);
            }
            if arc_reads(b, label, t) {
                let k = choose|k: int|
                    0 <= k < b.len() && (#[trigger] b[k]).ilabel == label && b[k].nextstate == t;
                lemma_sorting_keeps_arcs(ByLabelAndTarget, a, b, b[k]);
                assert(b.contains(b[k]));
                let j = choose|j: int| 0 <= j < a.len() && a[j] == b[k];
                assert(a[j].ilabel == label);
            }
        }
        if reads_to(v, s, x, t) {
            let q = choose|q: int|
                0 <= q < v.n() && reads_to(v, s, x.drop_last(), q) && #[trigger] arc_reads(
                    v.arcs(q),
                    label,
                    t,
                );
            assert(arc_reads(w.arcs(q), label, t));
        }
        if reads_to(w, s, x, t) {
            let q = choose|q: int|
                0 <= q < w.n() && reads_to(w, s, x.drop_last(), q) && #[trigger] arc_reads(
                    w.arcs(q),
                    label,
                    t,
                );
            assert(arc_reads(v.arcs(q), label, t) <==> arc_reads(w.arcs(q), label, t));
        }
    }
}

/// The machine that disambiguation sets out from spells what the input does, and each
/// of its states leads to an end.
pub proof fn lemma_source_spells<W: Weight>(v: FstV<W>, source: FstV<W>, x: Seq<i32>)
    requires
        v.wf(),
        v.n() <= usize::MAX,
        is_arc_sorted(ByLabelAndTarget, trimmed(v), source),
    ensures
        source.wf(),
        is_spelled(source, x) <==> is_spelled(v, x),
        forall|h: int| 0 <= h < source.n() ==> #[trigger] has_future(source, h),
{
    let t = trimmed(v);
    lemma_trimmed_wf(v);
    lemma_arc_sorted_wf(ByLabelAndTarget, t, source);
    lemma_trimming_spells(v, x);
    assert forall|q: int| 0 <= q < t.n() implies #[trigger] source.fin(q) == t.fin(q) by {
        assert(source.states[q].final_weight == t.states[q].final_weight);
    }
    if t.start is Some {
        let s = t.start->0 as int;
        lemma_spelled(t, x);
        lemma_spelled(source, x);
        assert forall|q: int| #[trigger] reads_to(t, s, x, q) <==> reads_to(source, s, x, q) by {
            lemma_sorting_reads(t, source, s, x, q);
        }
        if is_spelled(t, x) {
            let q = choose|q: int| 0 <= q < t.n() && #[trigger] reads_to(t, s, x, q) && t.is_final(q);
            assert(source.fin(q) == t.fin(q));
            assert(reads_to(source, s, x, q));
        }
        if is_spelled(source, x) {
            let q = choose|q: int|
                0 <= q < source.n() && #[trigger] reads_to(source, s, x, q) && source.is_final(q);
            assert(source.fin(q) == t.fin(q));
            assert(reads_to(t, s, x, q) <==> reads_to(source, s, x, q));
        }
    }
    law_trimmed_states_are_on_paths(v);
    assert forall|h: int| 0 <= h < source.n() implies #[trigger] has_future(source, h) by {
        assert(on_path(t, h));
        let g = full_graph(t);
        let f = choose|f: int| 0 <= f < t.n() && t.is_final(f) && #[trigger] reach(g, h, f);
        let k = choose|k: nat| reach_in(g, h, f, k);
        let y = lemma_reach_reads(t, h, f, k);
        lemma_sorting_reads(t, source, h, y, f);
        assert(source.fin(f) == t.fin(f));
        assert(ends_on(source, h, y));
    }
}

/// Whether, where a state stands for one that ends, neither weight came to nothing.
pub open spec fn loses_no_end<W: Weight>(d: Stages<W>) -> bool {
    forall|s: int|
        0 <= s < d.joined.n() && d.source.fin(#[trigger] d.heads[s] as int) != W::spec_zero()
            ==> spec_is_final(d.joined.fin(s)) && spec_is_final(d.source.fin(d.heads[s] as int))
}

/// The machine that ambiguities are removed from follows the heads.
proof fn lemma_joined_follows<W: Divide>(
    v: FstV<W>,
    delta: W::Delta,
    d: Stages<W>,
) -> (table: Seq<Headed<W>>)
    requires
        v.wf(),
        v.n() <= usize::MAX,
        are_all_stages(v, delta, d),
        is_countable(d.joined),
        d.source.start is Some,
        loses_no_end(d),
        spec_is_final(W::spec_one()),
    ensures
        d.heads == heads_of(table),
        is_thinned(d.source, table, d.joined, d.found),
        ends_alike(d.source, d.heads, d.joined),
{
    let source = d.source;
    let start = source.start->0;
    lemma_source_spells(v, source, Seq::empty());
    lemma_joined_apart(v, delta, d);
    let table = choose|table: Seq<Headed<W>>|
        {
            &&& #[trigger] is_unfolding::<W, Headed<W>, Heading<W>>(
                (source, delta),
                headed_start(start),
                true,
                table,
                d.built.states,
            )
            &&& d.heads == heads_of(table)
        };
    lemma_heads_fit(source, delta, start, table, d.built);
    lemma_built_wf(source, delta, FstV::empty(), d.built, d.heads);
    lemma_arc_sorted_wf(ByLabelAndTarget, d.built, d.sorted);
    lemma_built_follows(source, delta, start, table, d.built);
    lemma_sorted_follows(source, table, d.built, d.sorted);
    assert(begins_well(source, table));
    match d.merge {
        None => {},
        Some(sets) => {
            lemma_merged_follows(source, table, d.sorted, sets);
        },
    }
    assert forall|s: int| 0 <= s < d.joined.n() implies {
        &&& source.fin(#[trigger] d.heads[s] as int) == W::spec_zero() ==> d.joined.fin(s)
            == W::spec_zero()
        &&& source.fin(d.heads[s] as int) != W::spec_zero() ==> spec_is_final(d.joined.fin(s))
            && spec_is_final(source.fin(d.heads[s] as int))
    } by {
        assert(unfolds::<W, Headed<W>, Heading<W>>(
            (source, delta),
            table[s],
            d.built.states[s],
            table,
        ));
        assert(d.sorted.states[s].final_weight == d.built.states[s].final_weight);
        assert(d.heads[s] == table[s].0);
    }
    table
}

/// Disambiguation spells what the input spelled, no less and no more, where no end
/// that is kept came to weigh nothing.
pub proof fn law_disambiguating_keeps_what_is_spelled<W: Divide>(
    v: FstV<W>,
    delta: W::Delta,
    o: FstV<W>,
    d: Stages<W>,
    x: Seq<i32>,
)
    requires
        v.wf(),
        v.n() <= usize::MAX,
        are_all_stages(v, delta, d),
        is_countable(d.joined),
        loses_no_end(d),
        spec_is_final(W::spec_one()),
    ensures
        is_spelled(result_of(v, o, d), x) <==> is_spelled(v, x),
{
    let source = d.source;
    let w = d.joined;
    let r = result_of(v, o, d);
    let gone = ambiguous_arcs(d.found);
    let dead = with_dead(w, gone);
    lemma_source_spells(v, source, x);
    lemma_joined_apart(v, delta, d);
    assert(dead.wf()) by {
        assert forall|s: int, i: int|
            0 <= s < dead.n() && 0 <= i < dead.states[s].arcs.len() implies (
        #[trigger] dead.states[s].arcs[i]).nextstate < dead.n() by {
            if s < w.n() {
                assert(w.states[s].arcs[i].nextstate < w.n());
            }
        }
    }
    if gone.is_empty() {
        lemma_same_spelled(r, w, x);
    } else {
        lemma_trimming_spells(dead, x);
        lemma_same_spelled(r, trimmed(dead), x);
    }
    if source.start is None {
        assert(w.start is None);
    } else {
        let table = lemma_joined_follows(v, delta, d);
        lemma_joined_spells(source, table, w, d.found, x);
    }
}

proof fn lemma_same_spelled<W: Weight>(a: FstV<W>, b: FstV<W>, x: Seq<i32>)
    requires
        a.start == b.start,
        a.states == b.states,
    ensures
        is_spelled(a, x) <==> is_spelled(b, x),
{
    if is_spelled(a, x) {
        let run = choose|run: Seq<Arc<W>>| #[trigger] succeeds(a, run) && spells(run) == x;
        lemma_same_runs(a, b, run);
    }
    if is_spelled(b, x) {
        let run = choose|run: Seq<Arc<W>>| #[trigger] succeeds(b, run) && spells(run) == x;
        lemma_same_runs(b, a, run);
    }
}

/// Removing ambiguities keeps what is spelled.
proof fn lemma_joined_spells<W: Weight>(
    v: FstV<W>,
    table: Seq<Headed<W>>,
    w: FstV<W>,
    found: Seq<Candidate>,
    x: Seq<i32>,
)
    requires
        is_thinned(v, table, w, found),
        ends_alike(v, heads_of(table), w),
        with_dead(w, ambiguous_arcs(found)).wf(),
    ensures
        is_spelled(w, x) <==> is_spelled(v, x),
        is_spelled(with_dead(w, ambiguous_arcs(found)), x) <==> is_spelled(v, x),
{
    let gone = ambiguous_arcs(found);
    let dead = with_dead(w, gone);
    let heads = heads_of(table);
    let start = v.start->0 as int;
    lemma_spelled(v, x);
    lemma_spelled(w, x);
    lemma_spelled(dead, x);
    if is_spelled(v, x) {
        let h = choose|h: int| 0 <= h < v.n() && #[trigger] reads_to(v, start, x, h) && v.is_final(h);
        let s = lemma_lift(v, table, w, x, h);
        assert(heads[s] == head(table, s));
        assert(w.is_final(s));
        let q = lemma_end_that_stays(v, table, w, found, x, s);
        lemma_still_read(v, table, w, found, x, q);
        assert(dead.states[q] == cut_state(w.states[q], q as usize, gone, w.n() as usize));
        assert(dead.is_final(q));
    }
    if is_spelled(dead, x) {
        let q = choose|q: int|
            0 <= q < dead.n() && #[trigger] reads_to(dead, 0, x, q) && dead.is_final(q);
        assert(q < w.n());
        assert(dead.states[q] == cut_state(w.states[q], q as usize, gone, w.n() as usize));
        lemma_read_before(w, gone, x, q);
        assert(w.is_final(q));
    }
    if is_spelled(w, x) {
        let q = choose|q: int| 0 <= q < w.n() && #[trigger] reads_to(w, 0, x, q) && w.is_final(q);
        lemma_members(v, table, w, x, q, 0);
        assert(heads[q] == head(table, q));
        assert(table[q].0 < v.n());
        assert(v.is_final(head(table, q)));
    }
}

} // verus!
