//! What folding arcs into final weights leaves, and what its paths weigh.
use crate::arc::{Arc, EPSILON};
use crate::compose_laws::multiplies_freely;
use crate::connect::succeeds;
use crate::graph::{full_graph, reach, reach_in, reaches_final};
use crate::path_sums::{
    covers, lemma_goes_on, lemma_one_inside, lemma_product_inside, lemma_three_inside,
    lemma_two_inside, members, picks_paths,
};
use crate::paths::{
    accepted_weight, end_of, is_accepting, is_run, lemma_run_stays, reads, state_at, steps, weighs,
    writes,
};
use crate::prune_bounds::{
    adds_inside, lemma_add_inside, lemma_members_inside, lemma_total_last, lemma_total_of_weighs,
};
use crate::rmfinalepsilon::{
    folded_machine, folded_state, folded_weight, is_ending_arc, law_folding_adds_no_path,
    law_folding_keeps_paths, lemma_staying_among, lemma_staying_does_not_end, only_ends,
};
use crate::vector_fst::{all_members, state_is_member, FstV};
use crate::weight::Weight;
use vstd::prelude::*;

verus! {

/// What can be reached is reached by a run.
proof fn lemma_reached_by_run<W: Weight>(v: FstV<W>, s: int, t: int, k: nat) -> (run: Seq<
    Arc<W>,
>)
    requires
        v.wf(),
        0 <= s < v.n(),
        reach_in(full_graph(v), s, t, k),
    ensures
        is_run(v, s, run),
        end_of(s, run) == t,
        0 <= t < v.n(),
    decreases k,
{
    if k == 0 {
        Seq::empty()
    } else {
        let g = full_graph(v);
        let m = choose|m: int| #[trigger] g(s, m) && reach_in(g, m, t, (k - 1) as nat);
        let i = choose|i: int|
            0 <= i < v.arcs(s).len() && (#[trigger] v.arcs(s)[i]).nextstate == m;
        assert(v.states[s].arcs[i].nextstate < v.n());
        let rest = lemma_reached_by_run(v, m, t, (k - 1) as nat);
        let run = seq![v.arcs(s)[i]] + rest;
        assert(v.arcs(s).contains(v.arcs(s)[i]));
        assert forall|j: int| 0 <= j < run.len() implies #[trigger] steps(v, s, run, j) by {
            if j > 0 {
                assert(steps(v, m, rest, j - 1));
                assert(state_at(s, run, j) == state_at(m, rest, j - 1));
            }
        }
        if rest.len() > 0 {
            assert(run[run.len() - 1] == rest[rest.len() - 1]);
        }
        run
    }
}

/// Whether a run of at least one arc leads on from `s` to a final state.
pub open spec fn goes_on<W: Weight>(v: FstV<W>, s: int) -> bool {
    exists|run: Seq<Arc<W>>| #[trigger]
        is_run(v, s, run) && run.len() > 0 && v.is_final(end_of(s, run))
}

/// Folding leaves no arc to fold: one that reads and writes nothing, and leads to a state
/// that weighs something to end in, stays only if paths go on from there.
pub proof fn law_silent_arcs_stay_only_where_paths_go_on<W: Weight>(v: FstV<W>, s: int, i: int)
    requires
        v.wf(),
        0 <= s < v.n(),
        0 <= i < folded_machine(v).arcs(s).len(),
        folded_machine(v).arcs(s)[i].ilabel == EPSILON,
        folded_machine(v).arcs(s)[i].olabel == EPSILON,
        v.fin(folded_machine(v).arcs(s)[i].nextstate as int) != W::spec_zero(),
    ensures
        v.arcs(s).contains(folded_machine(v).arcs(s)[i]),
        goes_on(v, folded_machine(v).arcs(s)[i].nextstate as int),
{
    let arcs = v.arcs(s);
    let arc = folded_machine(v).arcs(s)[i];
    assert(folded_machine(v).states[s] == folded_state(v, s));
    lemma_staying_among(v, arcs, arcs.len() as int, i);
    lemma_staying_does_not_end(v, arcs, arcs.len() as int, i);
    let x = choose|x: int| 0 <= x < arcs.len() && arcs[x] == arc;
    assert(v.states[s].arcs[x].nextstate < v.n());
    let t = arc.nextstate as int;
    assert(!only_ends(v, t));
    let j = choose|j: int|
        0 <= j < v.arcs(t).len() && reaches_final(
            v,
            full_graph(v),
            (#[trigger] v.arcs(t)[j]).nextstate as int,
        );
    let m = v.arcs(t)[j].nextstate as int;
    assert(v.states[t].arcs[j].nextstate < v.n());
    let e = choose|e: int| 0 <= e < v.n() && #[trigger] v.is_final(e) && reach(full_graph(v), m, e);
    let k = choose|k: nat| reach_in(full_graph(v), m, e, k);
    let rest = lemma_reached_by_run(v, m, e, k);
    let run = seq![v.arcs(t)[j]] + rest;
    assert(v.arcs(t).contains(v.arcs(t)[j]));
    assert forall|y: int| 0 <= y < run.len() implies #[trigger] steps(v, t, run, y) by {
        if y > 0 {
            assert(steps(v, m, rest, y - 1));
            assert(state_at(t, run, y) == state_at(m, rest, y - 1));
        }
    }
    if rest.len() > 0 {
        assert(run[run.len() - 1] == rest[rest.len() - 1]);
    }
    assert(is_run(v, t, run));
}

proof fn lemma_freely_swap<W: Weight>(a: W, b: W)
    requires
        multiplies_freely::<W>(),
    ensures
        a.spec_times(b) == b.spec_times(a),
{
    reveal(multiplies_freely);
}

/// What ends in a state once arcs are folded is the best of what ended there, and of what
/// the folded arcs ended with.
proof fn lemma_folded_weight<W: Weight>(
    v: FstV<W>,
    weight: W,
    arcs: Seq<Arc<W>>,
    k: int,
)
    requires
        picks_paths(members::<W>()),
        adds_inside::<W>(),
        multiplies_freely::<W>(),
        all_members(v),
        weight.spec_member(),
        0 <= k <= arcs.len(),
        forall|i: int|
            0 <= i < arcs.len() ==> (#[trigger] arcs[i]).weight.spec_member() && arcs[i].nextstate
                < v.n(),
    ensures
        ({
            let w = folded_weight(v, weight, arcs, k);
            &&& w.spec_member()
            &&& covers(w, weight)
            &&& forall|i: int|
                0 <= i < k && is_ending_arc(v, #[trigger] arcs[i]) ==> covers(
                    w,
                    arcs[i].weight.spec_times(v.fin(arcs[i].nextstate as int)),
                )
            &&& w == weight || exists|i: int|
                0 <= i < k && is_ending_arc(v, #[trigger] arcs[i]) && w
                    == arcs[i].weight.spec_times(v.fin(arcs[i].nextstate as int))
        }),
    decreases k,
{
    let inside = members::<W>();
    lemma_one_inside(inside, weight);
    if k > 0 {
        lemma_folded_weight(v, weight, arcs, k - 1);
        let before = folded_weight(v, weight, arcs, k - 1);
        let w = folded_weight(v, weight, arcs, k);
        let arc = arcs[k - 1];
        if is_ending_arc(v, arc) {
            let fin = v.fin(arc.nextstate as int);
            assert(state_is_member(v.states[arc.nextstate as int]));
            let part = arc.weight.spec_times(fin);
            lemma_freely_swap(arc.weight, fin);
            lemma_product_inside(inside, arc.weight, fin);
            lemma_add_inside(part, before);
            lemma_two_inside(inside, part, before);
            lemma_three_inside(inside, w, before, weight);
            assert forall|i: int| 0 <= i < k && is_ending_arc(v, #[trigger] arcs[i]) implies covers(
                w,
                arcs[i].weight.spec_times(v.fin(arcs[i].nextstate as int)),
            ) by {
                if i < k - 1 {
                    let other = v.fin(arcs[i].nextstate as int);
                    assert(state_is_member(v.states[arcs[i].nextstate as int]));
                    lemma_product_inside(inside, arcs[i].weight, other);
                    lemma_three_inside(inside, w, before, arcs[i].weight.spec_times(other));
                }
            }
            if w != before {
                assert(is_ending_arc(v, arcs[k - 1]));
            }
        }
    }
}

proof fn lemma_folded_end<W: Weight>(v: FstV<W>, e: int)
    requires
        picks_paths(members::<W>()),
        adds_inside::<W>(),
        multiplies_freely::<W>(),
        v.wf(),
        all_members(v),
        0 <= e < v.n(),
    ensures
        ({
            let w = folded_machine(v).fin(e);
            let arcs = v.arcs(e);
            &&& w.spec_member()
            &&& covers(w, v.fin(e))
            &&& forall|i: int|
                0 <= i < arcs.len() && is_ending_arc(v, #[trigger] arcs[i]) ==> covers(
                    w,
                    arcs[i].weight.spec_times(v.fin(arcs[i].nextstate as int)),
                )
            &&& w == v.fin(e) || exists|i: int|
                0 <= i < arcs.len() && is_ending_arc(v, #[trigger] arcs[i]) && w
                    == arcs[i].weight.spec_times(v.fin(arcs[i].nextstate as int))
        }),
{
    let arcs = v.arcs(e);
    assert(folded_machine(v).states[e] == folded_state(v, e));
    assert(state_is_member(v.states[e]));
    assert forall|i: int| 0 <= i < arcs.len() implies (#[trigger] arcs[i]).weight.spec_member()
        && arcs[i].nextstate < v.n() by {
        assert(v.states[e].arcs[i].nextstate < v.n());
        assert(v.states[e].arcs[i].weight.spec_member());
    }
    lemma_folded_weight(v, v.fin(e), arcs, arcs.len() as int);
}

/// Folding makes no path worse: what a successful path reads, writes and weighs, some path of
/// the folded machine reads, writes, and weighs no worse.
pub proof fn law_folding_makes_no_path_worse<W: Weight>(
    v: FstV<W>,
    run: Seq<Arc<W>>,
) -> (base: Seq<Arc<W>>)
    requires
        picks_paths(members::<W>()),
        adds_inside::<W>(),
        multiplies_freely::<W>(),
        v.wf(),
        all_members(v),
        succeeds(v, run),
    ensures
        is_run(folded_machine(v), v.start->0 as int, base),
        reads(base) == reads(run),
        writes(base) == writes(run),
        covers(accepted_weight(folded_machine(v), base), accepted_weight(v, run)),
{
    let inside = members::<W>();
    let base = law_folding_keeps_paths(v, run);
    let s = v.start->0 as int;
    let f = folded_machine(v);
    lemma_members_inside(v);
    lemma_run_stays(v, s, run, run.len() as int);
    let end = v.fin(end_of(s, run));
    assert(state_is_member(v.states[end_of(s, run)]));
    assert(is_run(v, s, base)) by {
        assert forall|i: int| 0 <= i < base.len() implies #[trigger] steps(v, s, base, i) by {
            assert(steps(v, s, run, i));
            assert(state_at(s, base, i) == state_at(s, run, i));
        }
    }
    lemma_run_stays(v, s, base, base.len() as int);
    let e = end_of(s, base);
    lemma_folded_end(v, e);
    let folded = f.fin(e);
    let was = if base == run {
        end
    } else {
        run.last().weight.spec_times(end)
    };
    if base != run {
        let arc = run.last();
        let i = choose|i: int| 0 <= i < v.arcs(e).len() && v.arcs(e)[i] == arc;
        assert(is_ending_arc(v, v.arcs(e)[i]));
        assert(state_is_member(v.states[e]));
        assert(v.states[e].arcs[i].weight.spec_member());
        lemma_product_inside(inside, arc.weight, end);
        lemma_total_last(run, end);
        assert(end_of(s, run) == arc.nextstate);
    }
    assert(covers(folded, was));
    lemma_total_of_weighs(inside, v, s, base, was);
    lemma_total_of_weighs(inside, v, s, base, folded);
    lemma_three_inside(inside, folded, was, weighs(base));
    base
}

/// Folding makes no path better: what an accepting path of the folded machine reads, writes
/// and weighs, some accepting path reads, writes and weighs.
pub proof fn law_folding_makes_no_path_better<W: Weight>(
    v: FstV<W>,
    base: Seq<Arc<W>>,
) -> (run: Seq<Arc<W>>)
    requires
        picks_paths(members::<W>()),
        adds_inside::<W>(),
        multiplies_freely::<W>(),
        v.wf(),
        all_members(v),
        is_accepting(folded_machine(v), base),
    ensures
        is_accepting(v, run),
        reads(run) == reads(base),
        writes(run) == writes(base),
        accepted_weight(v, run) == accepted_weight(folded_machine(v), base),
{
    let inside = members::<W>();
    let s = v.start->0 as int;
    let f = folded_machine(v);
    let some = law_folding_adds_no_path(v, base);
    assert(is_run(v, s, base)) by {
        assert forall|i: int| 0 <= i < base.len() implies #[trigger] steps(v, s, base, i) by {
            assert(steps(v, s, some, i));
            assert(state_at(s, base, i) == state_at(s, some, i));
        }
    }
    lemma_run_stays(v, s, base, base.len() as int);
    let e = end_of(s, base);
    lemma_folded_end(v, e);
    let w = f.fin(e);
    if w == v.fin(e) {
        base
    } else {
        let arcs = v.arcs(e);
        let i = choose|i: int|
            0 <= i < arcs.len() && is_ending_arc(v, #[trigger] arcs[i]) && w
                == arcs[i].weight.spec_times(v.fin(arcs[i].nextstate as int));
        let arc = arcs[i];
        let run = base.push(arc);
        assert(v.states[e].arcs[i].nextstate < v.n());
        lemma_goes_on(v, s, base, i);
        lemma_total_last(run, v.fin(arc.nextstate as int));
        assert(run.drop_last() =~= base);
        assert(is_accepting(v, run));
        run
    }
}

} // verus!
