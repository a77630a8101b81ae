//! What the totals that are compared are totals of.
use crate::arc::{Arc, NO_LABEL};
use crate::arcsort::{is_arc_sorted, lemma_arc_sorted_wf, ArcCompare, ILabelCompare, OLabelCompare};
use crate::compose::composes;
use crate::compose_laws::{
    labels_are_plain, law_composed_paths_have_parts, law_paths_compose, lemma_same_runs,
    lemma_sorting_keeps_arcs, multiplies_freely, same_arcs,
};
use crate::composed_weights::{
    law_composition_holds_what_its_parts_hold, lemma_same_hold_the_same, writes_plainly,
};
use crate::connect::{
    kept_run, law_trimming_adds_no_path, law_trimming_keeps_paths, lemma_kept_arc_from,
    lemma_kept_state_at, lemma_rank_onto, lemma_trimmed_wf, path_states, succeeds, trimmed,
};
use crate::path_sums::{
    closeness_is_equality, covers, law_distance_is_that_of_the_best_path, leads_to,
    lemma_one_inside, lemma_product_inside, lemma_settled, lemma_three_inside, lemma_two_inside,
    members, picks_paths,
};
use crate::paths::{
    accepted_weight, end_of, is_accepting, is_run, lemma_alike, lemma_run_stays, reads, weighs,
    writes,
};
use crate::project::{
    law_projecting_adds_no_path, law_projecting_keeps_paths, one_sided, projected, ProjectType,
};
use crate::prune_bounds::{
    adds_inside, lemma_add_inside, lemma_members_inside, lemma_total_of_weighs,
};
use crate::push::{ending_sum, spec_total_weight};
use crate::push_sums::{lemma_behind_is_member, lemma_stays, stays_inside, zero_is_nothing};
use crate::randequivalent::{
    agree_on, differ_on, does_with, gives_up, is_readied, passes_over, sums_to, totals,
};
use crate::shortest_distance::is_distance;
use crate::vector_fst::{all_members, lemma_kept_states_len, state_is_member, FstV};
use crate::weight::Weight;
use vstd::prelude::*;

verus! {

/// Whether a product is nothing only where a factor is.
#[verifier::opaque]
pub open spec fn keeps_something<W: Weight>() -> bool {
    forall|a: W, b: W|
        a.spec_member() && b.spec_member() && a != W::spec_zero() && b != W::spec_zero()
            ==> #[trigger] a.spec_times(b) != W::spec_zero()
}

proof fn lemma_something<W: Weight>(a: W, b: W)
    requires
        keeps_something::<W>(),
        a.spec_member(),
        b.spec_member(),
        a != W::spec_zero(),
        b != W::spec_zero(),
    ensures
        a.spec_times(b) != W::spec_zero(),
{
    reveal(keeps_something);
}

proof fn lemma_freely<W: Weight>(a: W)
    requires
        multiplies_freely::<W>(),
    ensures
        W::spec_one().spec_times(a) == a,
        a.spec_times(W::spec_one()) == a,
{
    reveal(multiplies_freely);
    assert(a.spec_times(W::spec_one()) == W::spec_one().spec_times(a));
}

proof fn lemma_semiring<W: Weight>()
    requires
        picks_paths(members::<W>()),
        adds_inside::<W>(),
    ensures
        stays_inside::<W>(),
        zero_is_nothing::<W>(),
{
    let inside = members::<W>();
    assert(stays_inside::<W>()) by {
        reveal(stays_inside);
        assert forall|a: W, b: W|
            #![trigger a.spec_plus(b)]
            #![trigger a.spec_times(b)]
            a.spec_member() && b.spec_member() implies a.spec_plus(b).spec_member()
            && a.spec_times(b).spec_member() by {
            lemma_add_inside(a, b);
            lemma_product_inside(inside, a, b);
        }
    }
    assert(zero_is_nothing::<W>()) by {
        reveal(zero_is_nothing);
        lemma_one_inside(inside, W::spec_zero());
        assert forall|a: W|
            #![trigger a.spec_member()]
            a.spec_member() implies a.spec_plus(W::spec_zero()) == a && a.spec_times(W::spec_zero())
            == W::spec_zero() && W::spec_zero().spec_times(a) == W::spec_zero() by {
            lemma_one_inside(inside, a);
        }
    }
}

/// Whether `w` is what the accepting runs of `v` add up to: what the best of them weighs.
pub open spec fn all_runs_weigh<W: Weight>(v: FstV<W>, w: W) -> bool {
    &&& w == W::spec_zero() || exists|run: Seq<Arc<W>>| #[trigger]
        is_accepting(v, run) && accepted_weight(v, run) == w
    &&& forall|run: Seq<Arc<W>>| #[trigger]
        is_accepting(v, run) ==> covers(w, accepted_weight(v, run))
}

/// Whether the machine accepts along a run that reads `x` and writes `y`.
pub open spec fn relates<W: Weight>(
    v: FstV<W>,
    run: Seq<Arc<W>>,
    x: Seq<i32>,
    y: Seq<i32>,
) -> bool {
    is_accepting(v, run) && reads(run) == x && writes(run) == y
}

/// Whether `w` is what the accepting runs of `v` that read `x` and write `y` add up to: what
/// the best of them weighs, or the sum of nothing where there is none.
pub open spec fn runs_weigh<W: Weight>(v: FstV<W>, x: Seq<i32>, y: Seq<i32>, w: W) -> bool {
    &&& w == W::spec_zero() || exists|run: Seq<Arc<W>>| #[trigger]
        relates(v, run, x, y) && accepted_weight(v, run) == w
    &&& forall|run: Seq<Arc<W>>| #[trigger]
        relates(v, run, x, y) ==> covers(w, accepted_weight(v, run))
}

/// There is one weight that runs add up to.
pub proof fn law_runs_weigh_one_thing<W: Weight>(
    v: FstV<W>,
    x: Seq<i32>,
    y: Seq<i32>,
    a: W,
    b: W,
)
    requires
        picks_paths(members::<W>()),
        a.spec_member(),
        b.spec_member(),
        runs_weigh(v, x, y, a),
        runs_weigh(v, x, y, b),
    ensures
        a == b,
{
    let inside = members::<W>();
    lemma_one_inside(inside, a);
    lemma_one_inside(inside, b);
    lemma_two_inside(inside, a, b);
    if a == W::spec_zero() {
        if b != a {
            let run = choose|run: Seq<Arc<W>>| #[trigger]
                relates(v, run, x, y) && accepted_weight(v, run) == b;
            assert(covers(a, b));
        }
    } else {
        let run = choose|run: Seq<Arc<W>>| #[trigger]
            relates(v, run, x, y) && accepted_weight(v, run) == a;
        assert(covers(b, a));
        if b != W::spec_zero() {
            let other = choose|run: Seq<Arc<W>>| #[trigger]
                relates(v, run, x, y) && accepted_weight(v, run) == b;
            assert(covers(a, b));
        }
    }
}

proof fn lemma_ending_sum<W: Weight>(b: FstV<W>, d: Seq<W>, k: int)
    requires
        picks_paths(members::<W>()),
        adds_inside::<W>(),
        all_members(b),
        d.len() == b.n(),
        forall|s: int| 0 <= s < d.len() ==> (#[trigger] d[s]).spec_member(),
        0 <= k <= b.n(),
    ensures
        ({
            let w = ending_sum(b, d, k);
            &&& w.spec_member()
            &&& forall|s: int| 0 <= s < k ==> covers(w, (#[trigger] d[s]).spec_times(b.fin(s)))
            &&& w == W::spec_zero() || exists|s: int|
                0 <= s < k && w == (#[trigger] d[s]).spec_times(b.fin(s))
        }),
    decreases k,
{
    let inside = members::<W>();
    lemma_one_inside(inside, W::spec_zero());
    if k > 0 {
        lemma_ending_sum(b, d, k - 1);
        let before = ending_sum(b, d, k - 1);
        let w = ending_sum(b, d, k);
        assert(state_is_member(b.states[k - 1]));
        let part = d[k - 1].spec_times(b.fin(k - 1));
        lemma_product_inside(inside, d[k - 1], b.fin(k - 1));
        lemma_add_inside(before, part);
        lemma_two_inside(inside, before, part);
        assert forall|s: int| 0 <= s < k implies covers(
            w,
            (#[trigger] d[s]).spec_times(b.fin(s)),
        ) by {
            if s < k - 1 {
                assert(state_is_member(b.states[s]));
                lemma_product_inside(inside, d[s], b.fin(s));
                lemma_three_inside(inside, w, before, d[s].spec_times(b.fin(s)));
            }
        }
        if w != before {
            assert(w == d[k - 1].spec_times(b.fin(k - 1)));
        }
    }
}

/// The total of a machine is what its accepting runs add up to.
pub proof fn law_total_is_that_of_all_runs<W: Weight>(b: FstV<W>, delta: W::Delta, w: W)
    requires
        picks_paths(members::<W>()),
        adds_inside::<W>(),
        closeness_is_equality::<W>(delta),
        b.wf(),
        b.n() <= usize::MAX,
        all_members(b),
        sums_to(b, delta, w),
    ensures
        w.spec_member(),
        all_runs_weigh(b, w),
{
    let inside = members::<W>();
    lemma_semiring::<W>();
    lemma_members_inside(b);
    let d = choose|d: Seq<W>| #[trigger]
        is_distance(b, false, delta, d) && w == spec_total_weight(b, d, false);
    let k = lemma_settled(b, false, delta, d);
    assert forall|s: int| 0 <= s < d.len() implies (#[trigger] d[s]).spec_member() by {
        lemma_behind_is_member(b, k, s);
    }
    lemma_ending_sum(b, d, b.n() as int);
    if w != W::spec_zero() {
        let s = choose|s: int| 0 <= s < b.n() && w == (#[trigger] d[s]).spec_times(b.fin(s));
        law_distance_is_that_of_the_best_path(inside, b, delta, d, s);
        assert(state_is_member(b.states[s]));
        lemma_one_inside(inside, b.fin(s));
        lemma_one_inside(inside, d[s]);
        let run = choose|run: Seq<Arc<W>>| #[trigger] leads_to(b, s, run) && weighs(run) == d[s];
        lemma_total_of_weighs(inside, b, b.start->0 as int, run, b.fin(s));
        assert(is_accepting(b, run));
    }
    assert forall|run: Seq<Arc<W>>| #[trigger] is_accepting(b, run) implies covers(
        w,
        accepted_weight(b, run),
    ) by {
        let s = end_of(b.start->0 as int, run);
        assert(leads_to(b, s, run));
        law_distance_is_that_of_the_best_path(inside, b, delta, d, s);
        assert(state_is_member(b.states[s]));
        lemma_total_of_weighs(inside, b, b.start->0 as int, run, b.fin(s));
        lemma_product_inside(inside, d[s], b.fin(s));
        lemma_three_inside(inside, d[s], weighs(run), b.fin(s));
        lemma_three_inside(
            inside,
            w,
            d[s].spec_times(b.fin(s)),
            weighs(run).spec_times(b.fin(s)),
        );
    }
}

/// Whether a machine reads and writes labels.
pub open spec fn has_labels<W: Weight>(v: FstV<W>) -> bool {
    forall|s: int, i: int|
        0 <= s < v.n() && 0 <= i < v.arcs(s).len() ==> (#[trigger] v.arcs(s)[i]).ilabel != NO_LABEL
            && v.arcs(s)[i].olabel != NO_LABEL
}

/// Whether a machine accepts `x`, writing `y`, and nothing else, and adds nothing to its
/// weight.
pub open spec fn is_path_for<W: Weight>(path: FstV<W>, x: Seq<i32>, y: Seq<i32>) -> bool {
    &&& exists|run: Seq<Arc<W>>| #[trigger] is_accepting(path, run)
    &&& forall|run: Seq<Arc<W>>| #[trigger]
        is_accepting(path, run) ==> reads(run) == x && writes(run) == y && accepted_weight(
            path,
            run,
        ) == W::spec_one()
}

proof fn lemma_sorted_same<W: Weight, C: ArcCompare<W>>(comp: C, v: FstV<W>, w: FstV<W>)
    requires
        v.wf(),
        is_arc_sorted(comp, v, w),
    ensures
        same_arcs(v, w),
        w.wf(),
{
    lemma_arc_sorted_wf(comp, v, w);
    assert forall|s: int| 0 <= s < v.n() implies #[trigger] w.fin(s) == v.fin(s) by {
        assert(w.states[s].final_weight == v.states[s].final_weight);
    }
    assert forall|s: int, arc: Arc<W>| 0 <= s < v.n() implies (#[trigger] w.arcs(s).contains(arc)
        <==> v.arcs(s).contains(arc)) by {
        assert(w.states[s].final_weight == v.states[s].final_weight);
        lemma_sorting_keeps_arcs(comp, v.states[s].arcs, w.states[s].arcs, arc);
    }
}

proof fn lemma_same_have_labels<W: Weight>(v: FstV<W>, w: FstV<W>)
    requires
        same_arcs(v, w),
        has_labels(v),
    ensures
        has_labels(w),
{
    assert forall|s: int, i: int| 0 <= s < w.n() && 0 <= i < w.arcs(s).len() implies (
    #[trigger] w.arcs(s)[i]).ilabel != NO_LABEL && w.arcs(s)[i].olabel != NO_LABEL by {
        let arc = w.arcs(s)[i];
        assert(w.arcs(s).contains(arc));
        let j = choose|j: int| 0 <= j < v.arcs(s).len() && v.arcs(s)[j] == arc;
        assert(v.arcs(s)[j].ilabel != NO_LABEL);
    }
}

proof fn lemma_trimmed_holds<W: Weight>(v: FstV<W>)
    requires
        v.wf(),
        v.n() <= usize::MAX,
        all_members(v),
        has_labels(v),
    ensures
        all_members(trimmed(v)),
        has_labels(trimmed(v)),
{
    let keep = path_states(v);
    let n = v.n() as int;
    let t = trimmed(v);
    lemma_kept_states_len(v.states, keep, n);
    assert forall|j: int| 0 <= j < t.n() implies state_is_member(#[trigger] t.states[j]) && forall|
        i: int,
    |
        0 <= i < t.arcs(j).len() ==> (#[trigger] t.arcs(j)[i]).ilabel != NO_LABEL && t.arcs(
            j,
        )[i].olabel != NO_LABEL by {
        let x = lemma_rank_onto(keep, n, j);
        lemma_kept_state_at(v.states, keep, x, n);
        assert(state_is_member(v.states[x]));
        let arcs = v.states[x].arcs;
        assert forall|i: int| 0 <= i < t.arcs(j).len() implies (#[trigger] t.arcs(j)[i]).ilabel
            != NO_LABEL && t.arcs(j)[i].olabel != NO_LABEL && t.arcs(j)[i].weight.spec_member() by {
            let y = lemma_kept_arc_from(arcs, keep, arcs.len() as int, i);
            assert(v.arcs(x)[y].ilabel != NO_LABEL);
            assert(v.states[x].arcs[y].weight.spec_member());
        }
        assert forall|i: int| 0 <= i < t.states[j].arcs.len() implies (
        #[trigger] t.states[j].arcs[i]).weight.spec_member() by {
            assert(t.arcs(j)[i].weight.spec_member());
        }
    }
    assert forall|s: int, i: int| 0 <= s < t.n() && 0 <= i < t.arcs(s).len() implies (
    #[trigger] t.arcs(s)[i]).ilabel != NO_LABEL && t.arcs(s)[i].olabel != NO_LABEL by {
        assert(state_is_member(t.states[s]));
    }
}

proof fn lemma_projected_holds<W: Weight>(path: FstV<W>, side: ProjectType)
    requires
        path.wf(),
        path.start is Some,
        all_members(path),
        has_labels(path),
    ensures
        projected(path, side).wf(),
        projected(path, side).start == path.start,
        all_members(projected(path, side)),
        has_labels(projected(path, side)),
{
    let p = projected(path, side);
    assert(p.n() == path.n());
    assert forall|s: int, i: int| 0 <= s < p.n() && 0 <= i < p.arcs(s).len() implies #[trigger] p.arcs(
        s,
    )[i] == one_sided(path.arcs(s)[i], side) by {}
    assert forall|s: int, i: int| 0 <= s < p.n() && 0 <= i < p.states[s].arcs.len() implies (
    #[trigger] p.states[s].arcs[i]).nextstate < p.n() by {
        assert(p.arcs(s)[i] == one_sided(path.arcs(s)[i], side));
        assert(path.states[s].arcs[i].nextstate < path.n());
    }
    assert forall|s: int| 0 <= s < p.n() implies state_is_member(#[trigger] p.states[s]) by {
        assert(state_is_member(path.states[s]));
        assert forall|i: int| 0 <= i < p.states[s].arcs.len() implies (
        #[trigger] p.states[s].arcs[i]).weight.spec_member() by {
            assert(p.arcs(s)[i] == one_sided(path.arcs(s)[i], side));
            assert(path.states[s].arcs[i].weight.spec_member());
        }
    }
    assert forall|s: int, i: int| 0 <= s < p.n() && 0 <= i < p.arcs(s).len() implies (
    #[trigger] p.arcs(s)[i]).ilabel != NO_LABEL && p.arcs(s)[i].olabel != NO_LABEL by {
        assert(path.arcs(s)[i].ilabel != NO_LABEL);
    }
}

/// An accepting run of a machine whose weights are in the semiring succeeds, and the other
/// way round.
proof fn lemma_accepting_succeeds<W: Weight>(v: FstV<W>, run: Seq<Arc<W>>)
    requires
        v.wf(),
        all_members(v),
    ensures
        is_accepting(v, run) <==> succeeds(v, run),
        is_accepting(v, run) ==> v.fin(end_of(v.start->0 as int, run)).spec_member(),
{
    if v.start is Some && is_run(v, v.start->0 as int, run) {
        lemma_run_stays(v, v.start->0 as int, run, run.len() as int);
        assert(state_is_member(v.states[end_of(v.start->0 as int, run)]));
    }
}

/// A machine made ready has the runs of the machine.
proof fn lemma_readied_runs<W: Weight>(
    v: FstV<W>,
    l: FstV<W>,
    run: Seq<Arc<W>>,
) -> (kept: Seq<Arc<W>>)
    requires
        v.wf(),
        v.n() <= usize::MAX,
        all_members(v),
        has_labels(v),
        is_readied(v, l),
        is_accepting(v, run),
    ensures
        is_accepting(l, kept),
        reads(kept) == reads(run),
        writes(kept) == writes(run),
        accepted_weight(l, kept) == accepted_weight(v, run),
{
    let t = trimmed(v);
    lemma_trimmed_wf(v);
    lemma_trimmed_holds(v);
    lemma_sorted_same(ILabelCompare, t, l);
    lemma_accepting_succeeds(v, run);
    law_trimming_keeps_paths(v, run);
    let kept = kept_run(v, run);
    lemma_accepting_succeeds(t, kept);
    lemma_alike(kept, run, v.fin(end_of(v.start->0 as int, run)));
    lemma_same_runs(t, l, t.start->0 as int, kept);
    lemma_run_stays(t, t.start->0 as int, kept, kept.len() as int);
    assert(l.fin(end_of(t.start->0 as int, kept)) == t.fin(end_of(t.start->0 as int, kept)));
    kept
}

/// A machine made ready has no other runs.
proof fn lemma_readied_runs_from<W: Weight>(
    v: FstV<W>,
    l: FstV<W>,
    run: Seq<Arc<W>>,
) -> (from: Seq<Arc<W>>)
    requires
        v.wf(),
        v.n() <= usize::MAX,
        all_members(v),
        has_labels(v),
        is_readied(v, l),
        is_accepting(l, run),
    ensures
        is_accepting(v, from),
        reads(from) == reads(run),
        writes(from) == writes(run),
        accepted_weight(v, from) == accepted_weight(l, run),
{
    let t = trimmed(v);
    lemma_trimmed_wf(v);
    lemma_trimmed_holds(v);
    lemma_sorted_same(ILabelCompare, t, l);
    lemma_same_runs(t, l, l.start->0 as int, run);
    lemma_accepting_succeeds(t, run);
    let from = law_trimming_adds_no_path(v, run);
    lemma_accepting_succeeds(v, from);
    lemma_alike(run, from, v.fin(end_of(v.start->0 as int, from)));
    lemma_run_stays(t, t.start->0 as int, run, run.len() as int);
    assert(l.fin(end_of(t.start->0 as int, run)) == t.fin(end_of(t.start->0 as int, run)));
    from
}

/// The total that a machine gives a path is what exactly those of its accepting runs add up
/// to that read what the path reads and write what the path writes.
#[verifier::spinoff_prover]
#[verifier::rlimit(40)]
pub proof fn law_total_is_that_of_the_runs_along_the_path<W: Weight>(
    v: FstV<W>,
    l: FstV<W>,
    path: FstV<W>,
    x: Seq<i32>,
    y: Seq<i32>,
    delta: W::Delta,
    w: W,
)
    requires
        picks_paths(members::<W>()),
        adds_inside::<W>(),
        multiplies_freely::<W>(),
        keeps_something::<W>(),
        closeness_is_equality::<W>(delta),
        v.wf(),
        v.n() <= usize::MAX,
        all_members(v),
        has_labels(v),
        path.wf(),
        all_members(path),
        has_labels(path),
        is_path_for(path, x, y),
        is_readied(v, l),
        totals(l, path, delta, w),
    ensures
        w.spec_member(),
        runs_weigh(v, x, y, w),
{
    lemma_semiring::<W>();
    let through = choose|run: Seq<Arc<W>>| #[trigger] is_accepting(path, run);
    let b = choose|b: FstV<W>| #[trigger]
        does_with(l, path, b) && !gives_up(b) && sums_to(b, delta, w);
    let ins = projected(path, ProjectType::Input);
    let outs = projected(path, ProjectType::Output);
    let (t, s) = choose|t: FstV<W>, s: FstV<W>|
        {
            &&& composes(ins, l, FstV::empty(), true, t)
            &&& #[trigger] is_arc_sorted(OLabelCompare, t, s)
            &&& composes(s, outs, FstV::empty(), true, b)
        };
    lemma_trimmed_wf(v);
    lemma_trimmed_holds(v);
    lemma_sorted_same(ILabelCompare, trimmed(v), l);
    lemma_same_hold_the_same(trimmed(v), l);
    lemma_same_have_labels(trimmed(v), l);
    lemma_projected_holds(path, ProjectType::Input);
    lemma_projected_holds(path, ProjectType::Output);
    assert(writes_plainly(l));
    assert(labels_are_plain(ins, l));
    law_composition_holds_what_its_parts_hold(ins, l, FstV::empty(), t);
    lemma_sorted_same(OLabelCompare, t, s);
    lemma_same_hold_the_same(t, s);
    assert(writes_plainly(outs));
    assert(labels_are_plain(s, outs));
    law_composition_holds_what_its_parts_hold(s, outs, FstV::empty(), b);
    law_total_is_that_of_all_runs(b, delta, w);
    if w != W::spec_zero() {
        let run = choose|run: Seq<Arc<W>>| #[trigger]
            is_accepting(b, run) && accepted_weight(b, run) == w;
        let from = lemma_run_behind(v, l, path, x, y, t, s, b, run);
        assert(relates(v, from, x, y));
    }
    assert forall|run: Seq<Arc<W>>| #[trigger] relates(v, run, x, y) implies covers(
        w,
        accepted_weight(v, run),
    ) by {
        let made = lemma_run_ahead(v, l, path, x, y, through, t, s, b, run);
        assert(is_accepting(b, made));
    }
}

proof fn lemma_run_behind<W: Weight>(
    v: FstV<W>,
    l: FstV<W>,
    path: FstV<W>,
    x: Seq<i32>,
    y: Seq<i32>,
    t: FstV<W>,
    s: FstV<W>,
    b: FstV<W>,
    run: Seq<Arc<W>>,
) -> (from: Seq<Arc<W>>)
    requires
        multiplies_freely::<W>(),
        v.wf(),
        v.n() <= usize::MAX,
        all_members(v),
        has_labels(v),
        path.start is Some,
        is_path_for(path, x, y),
        is_readied(v, l),
        l.wf(),
        t.wf(),
        s.wf(),
        b.wf(),
        all_members(t),
        all_members(b),
        same_arcs(t, s),
        projected(path, ProjectType::Input).wf(),
        projected(path, ProjectType::Output).wf(),
        labels_are_plain(projected(path, ProjectType::Input), l),
        labels_are_plain(s, projected(path, ProjectType::Output)),
        composes(projected(path, ProjectType::Input), l, FstV::empty(), true, t),
        composes(s, projected(path, ProjectType::Output), FstV::empty(), true, b),
        is_accepting(b, run),
    ensures
        relates(v, from, x, y),
        accepted_weight(v, from) == accepted_weight(b, run),
{
    let ins = projected(path, ProjectType::Input);
    let outs = projected(path, ProjectType::Output);
    lemma_accepting_succeeds(b, run);
    let (first, last) = law_composed_paths_have_parts(s, outs, FstV::empty(), true, b, run);
    lemma_same_runs(t, s, s.start->0 as int, first);
    lemma_run_stays(t, t.start->0 as int, first, first.len() as int);
    assert(s.fin(end_of(s.start->0 as int, first)) == t.fin(end_of(s.start->0 as int, first)));
    lemma_accepting_succeeds(t, first);
    let (reading, middle) = law_composed_paths_have_parts(
        ins,
        l,
        FstV::empty(),
        true,
        t,
        first,
    );
    let a = law_projecting_adds_no_path(path, ProjectType::Input, reading);
    let z = law_projecting_adds_no_path(path, ProjectType::Output, last);
    assert(reads(a) == x && accepted_weight(path, a) == W::spec_one());
    assert(writes(z) == y && accepted_weight(path, z) == W::spec_one());
    lemma_freely(accepted_weight(l, middle));
    lemma_freely(accepted_weight(t, first));
    lemma_readied_runs_from(v, l, middle)
}

proof fn lemma_run_ahead<W: Weight>(
    v: FstV<W>,
    l: FstV<W>,
    path: FstV<W>,
    x: Seq<i32>,
    y: Seq<i32>,
    through: Seq<Arc<W>>,
    t: FstV<W>,
    s: FstV<W>,
    b: FstV<W>,
    run: Seq<Arc<W>>,
) -> (made: Seq<Arc<W>>)
    requires
        stays_inside::<W>(),
        multiplies_freely::<W>(),
        keeps_something::<W>(),
        v.wf(),
        v.n() <= usize::MAX,
        all_members(v),
        has_labels(v),
        is_path_for(path, x, y),
        is_accepting(path, through),
        is_readied(v, l),
        l.wf(),
        all_members(l),
        t.wf(),
        s.wf(),
        b.wf(),
        all_members(t),
        all_members(s),
        all_members(b),
        same_arcs(t, s),
        projected(path, ProjectType::Input).wf(),
        projected(path, ProjectType::Output).wf(),
        all_members(projected(path, ProjectType::Input)),
        all_members(projected(path, ProjectType::Output)),
        labels_are_plain(projected(path, ProjectType::Input), l),
        labels_are_plain(s, projected(path, ProjectType::Output)),
        composes(projected(path, ProjectType::Input), l, FstV::empty(), true, t),
        composes(s, projected(path, ProjectType::Output), FstV::empty(), true, b),
        relates(v, run, x, y),
    ensures
        is_accepting(b, made),
        accepted_weight(b, made) == accepted_weight(v, run),
{
    let ins = projected(path, ProjectType::Input);
    let outs = projected(path, ProjectType::Output);
    let middle = lemma_readied_runs(v, l, run);
    let reading = law_projecting_keeps_paths(path, ProjectType::Input, through);
    let writing = law_projecting_keeps_paths(path, ProjectType::Output, through);
    assert(reads(through) == x && writes(through) == y);
    lemma_accepting_succeeds(ins, reading);
    lemma_accepting_succeeds(outs, writing);
    lemma_accepting_succeeds(l, middle);
    let e1 = ins.fin(end_of(ins.start->0 as int, reading));
    let e2 = l.fin(end_of(l.start->0 as int, middle));
    lemma_something(e1, e2);
    lemma_stays(e1, e2);
    let first = law_paths_compose(ins, l, FstV::empty(), true, t, reading, middle);
    lemma_same_runs(t, s, t.start->0 as int, first);
    lemma_run_stays(t, t.start->0 as int, first, first.len() as int);
    assert(s.fin(end_of(t.start->0 as int, first)) == t.fin(end_of(t.start->0 as int, first)));
    lemma_accepting_succeeds(s, first);
    let e3 = s.fin(end_of(s.start->0 as int, first));
    let e4 = outs.fin(end_of(outs.start->0 as int, writing));
    lemma_something(e3, e4);
    lemma_stays(e3, e4);
    let made = law_paths_compose(s, outs, FstV::empty(), true, b, first, writing);
    lemma_freely(accepted_weight(l, middle));
    lemma_freely(accepted_weight(t, first));
    made
}

/// Machines that agree on a path whose totals can be compared give, to what it reads and
/// writes, weights that are alike: those that the accepting runs of each machine along it
/// add up to.
pub proof fn law_agreeing_machines_weigh_alike<W: Weight>(
    v1: FstV<W>,
    v2: FstV<W>,
    l: FstV<W>,
    r: FstV<W>,
    path: FstV<W>,
    x: Seq<i32>,
    y: Seq<i32>,
    delta: W::Delta,
) -> (weights: (W, W))
    requires
        picks_paths(members::<W>()),
        adds_inside::<W>(),
        multiplies_freely::<W>(),
        keeps_something::<W>(),
        closeness_is_equality::<W>(delta),
        v1.wf(),
        v1.n() <= usize::MAX,
        all_members(v1),
        has_labels(v1),
        v2.wf(),
        v2.n() <= usize::MAX,
        all_members(v2),
        has_labels(v2),
        path.wf(),
        all_members(path),
        has_labels(path),
        is_path_for(path, x, y),
        is_readied(v1, l),
        is_readied(v2, r),
        agree_on(l, r, path, delta),
        !passes_over(l, path),
        !passes_over(r, path),
    ensures
        runs_weigh(v1, x, y, weights.0),
        runs_weigh(v2, x, y, weights.1),
        weights.0.spec_approx(weights.1, delta),
{
    let (w1, w2) = choose|w1: W, w2: W| #[trigger]
        totals(l, path, delta, w1) && #[trigger] totals(r, path, delta, w2) && w1.spec_approx(
            w2,
            delta,
        );
    law_total_is_that_of_the_runs_along_the_path(v1, l, path, x, y, delta, w1);
    law_total_is_that_of_the_runs_along_the_path(v2, r, path, x, y, delta, w2);
    (w1, w2)
}

/// Machines that differ on a path give what it reads and writes weights that are not alike.
pub proof fn law_differing_machines_weigh_differently<W: Weight>(
    v1: FstV<W>,
    v2: FstV<W>,
    l: FstV<W>,
    r: FstV<W>,
    path: FstV<W>,
    x: Seq<i32>,
    y: Seq<i32>,
    delta: W::Delta,
) -> (weights: (W, W))
    requires
        picks_paths(members::<W>()),
        adds_inside::<W>(),
        multiplies_freely::<W>(),
        keeps_something::<W>(),
        closeness_is_equality::<W>(delta),
        v1.wf(),
        v1.n() <= usize::MAX,
        all_members(v1),
        has_labels(v1),
        v2.wf(),
        v2.n() <= usize::MAX,
        all_members(v2),
        has_labels(v2),
        path.wf(),
        all_members(path),
        has_labels(path),
        is_path_for(path, x, y),
        is_readied(v1, l),
        is_readied(v2, r),
        differ_on(l, r, path, delta),
    ensures
        runs_weigh(v1, x, y, weights.0),
        runs_weigh(v2, x, y, weights.1),
        !weights.0.spec_approx(weights.1, delta),
{
    let (w1, w2) = choose|w1: W, w2: W| #[trigger]
        totals(l, path, delta, w1) && #[trigger] totals(r, path, delta, w2) && !w1.spec_approx(
            w2,
            delta,
        );
    law_total_is_that_of_the_runs_along_the_path(v1, l, path, x, y, delta, w1);
    law_total_is_that_of_the_runs_along_the_path(v2, r, path, x, y, delta, w2);
    (w1, w2)
}

} // verus!
