//! What pruning leaves lies within the limit.
use crate::arc::Arc;
use crate::arc_filter::ArcFilter;
use crate::connect::{lemma_kept_arc_from, lemma_kept_state_at, lemma_rank_onto};
use crate::path_sums::{
    all_inside, closeness_is_equality, covers, is_good,
    law_distance_to_the_end_is_that_of_the_best_path, leads_to, lemma_arcs_inside, lemma_goes_on,
    lemma_multiply_along, lemma_one_inside, lemma_onward_sum, lemma_product_inside, lemma_settled,
    lemma_sum_inside, lemma_to_end, members, picks_paths, some_ending_weighs,
};
use crate::paths::{
    accepted_weight, end_of, is_accepting, is_ending, is_run, state_at, steps, total, weighs,
};
use crate::prune::{
    distance_at, front_at, limit_of, pruned, searched, sifted, visited_one, FrontV, PruneOptions,
    Pruning,
};
use crate::prune_laws::{are_distances, no_more};
use crate::shortest_distance::{is_distance, onward_sum, to_end};
use crate::vector_fst::{
    all_members, lemma_kept_states_len, lemma_rank_monotone, rank, state_is_member, FstV, StateV,
};
use crate::weight::{spec_natural_less, Weight};
use vstd::prelude::*;

verus! {

/// Whether sums of weights in the semiring are in it.
#[verifier::opaque]
pub open spec fn adds_inside<W: Weight>() -> bool {
    forall|a: W, b: W|
        a.spec_member() && b.spec_member() ==> (#[trigger] a.spec_plus(b)).spec_member()
}

/// A sum is in the semiring.
pub proof fn lemma_add_inside<W: Weight>(a: W, b: W)
    requires
        adds_inside::<W>(),
        a.spec_member(),
        b.spec_member(),
    ensures
        a.spec_plus(b).spec_member(),
{
    reveal(adds_inside);
}

/// The weights of a machine are in the semiring.
pub proof fn lemma_members_inside<W: Weight>(v: FstV<W>)
    requires
        all_members(v),
    ensures
        all_inside(v, members::<W>()),
{
    assert forall|s: int| 0 <= s < v.n() implies members::<W>()(#[trigger] v.fin(s)) by {
        assert(state_is_member(v.states[s]));
    }
    assert forall|s: int, i: int| 0 <= s < v.n() && 0 <= i < v.arcs(s).len() implies members::<
        W,
    >()((#[trigger] v.arcs(s)[i]).weight) by {
        assert(state_is_member(v.states[s]));
    }
}

proof fn lemma_onward_member<W: Weight>(arcs: Seq<Arc<W>>, d: Seq<W>, sum: W, k: int)
    requires
        picks_paths(members::<W>()),
        adds_inside::<W>(),
        0 <= k <= arcs.len(),
        sum.spec_member(),
        forall|j: int|
            0 <= j < arcs.len() ==> (#[trigger] arcs[j]).weight.spec_member() && arcs[j].nextstate
                < d.len(),
        forall|s: int| 0 <= s < d.len() ==> (#[trigger] d[s]).spec_member(),
    ensures
        onward_sum(arcs, d, sum, k).spec_member(),
    decreases k,
{
    if k > 0 {
        lemma_onward_member(arcs, d, sum, k - 1);
        let arc = arcs[k - 1];
        let there = d[arc.nextstate as int];
        lemma_product_inside(members::<W>(), arc.weight, there);
        lemma_add_inside(onward_sum(arcs, d, sum, k - 1), arc.weight.spec_times(there));
    }
}

/// Distances to the end are in the semiring.
pub proof fn lemma_distances_are_members<W: Weight>(v: FstV<W>, k: nat, s: int)
    requires
        picks_paths(members::<W>()),
        adds_inside::<W>(),
        v.wf(),
        all_members(v),
        0 <= s < v.n(),
    ensures
        to_end(v, k)[s].spec_member(),
    decreases k,
{
    lemma_one_inside(members::<W>(), W::spec_zero());
    if k > 0 {
        let d = to_end(v, (k - 1) as nat);
        assert forall|t: int| 0 <= t < d.len() implies (#[trigger] d[t]).spec_member() by {
            lemma_distances_are_members(v, (k - 1) as nat, t);
        }
        let arcs = v.arcs(s);
        assert(state_is_member(v.states[s]));
        assert forall|j: int| 0 <= j < arcs.len() implies (#[trigger] arcs[j]).weight.spec_member()
            && arcs[j].nextstate < d.len() by {
            assert(v.states[s].arcs[j].nextstate < v.n());
        }
        lemma_onward_member(arcs, d, v.fin(s), arcs.len() as int);
    }
}

/// Whether `run` leads to `s` and weighs `w`.
spec fn is_way<W: Weight>(v: FstV<W>, s: int, run: Seq<Arc<W>>, w: W) -> bool {
    leads_to(v, s, run) && weighs(run) == w
}

spec fn has_way<W: Weight>(v: FstV<W>, s: int, w: W) -> bool {
    exists|run: Seq<Arc<W>>| #[trigger] is_way(v, s, run, w)
}

/// Whether an arc that is left was an arc of `s` and, taken from `here` away, is within the
/// limit.
spec fn is_left_of<W: Weight, F: ArcFilter<W>>(
    opts: PruneOptions<W, F>,
    fdist: Seq<W>,
    limit: W,
    here: W,
    arcs: Seq<Arc<W>>,
    arc: Arc<W>,
) -> bool {
    &&& arcs.contains(arc)
    &&& opts.filter.accepts(arc) ==> no_more(
        here.spec_times(arc.weight).spec_times(distance_at(fdist, arc.nextstate as int)),
        limit,
    )
}

/// Whether what is left of a state, `here` away, is within the limit.
spec fn is_left<W: Weight, F: ArcFilter<W>>(
    opts: PruneOptions<W, F>,
    v: FstV<W>,
    fdist: Seq<W>,
    limit: W,
    here: W,
    state: StateV<W>,
    s: int,
) -> bool {
    &&& has_way(v, s, here)
    &&& state.final_weight != W::spec_zero() ==> state.final_weight == v.fin(s) && no_more(
        here.spec_times(v.fin(s)),
        limit,
    )
    &&& forall|j: int|
        0 <= j < state.arcs.len() ==> is_left_of(
            opts,
            fdist,
            limit,
            here,
            v.arcs(s),
            #[trigger] state.arcs[j],
        )
}

spec fn left_by_some_way<W: Weight, F: ArcFilter<W>>(
    opts: PruneOptions<W, F>,
    v: FstV<W>,
    fdist: Seq<W>,
    limit: W,
    state: StateV<W>,
    s: int,
) -> bool {
    exists|here: W| #[trigger] is_left(opts, v, fdist, limit, here, state, s)
}

/// Whether ways that have been found are ways.
spec fn finds_ways<W: Weight>(v: FstV<W>, front: FrontV<W>) -> bool {
    &&& front.sized(v.n())
    &&& forall|s: int| 0 <= s < v.n() ==> (#[trigger] front.idist[s]).spec_member()
    &&& forall|s: int|
        0 <= s < v.n() ==> #[trigger] front.idist[s] == W::spec_zero() || has_way(
            v,
            s,
            front.idist[s],
        )
    &&& forall|s: int| 0 <= s < v.n() && #[trigger] front.met[s] ==> has_way(v, s, front.idist[s])
}

spec fn stays_within<W: Weight, F: ArcFilter<W>>(
    opts: PruneOptions<W, F>,
    v: FstV<W>,
    fdist: Seq<W>,
    limit: W,
    p: Pruning<W>,
) -> bool {
    &&& finds_ways(v, p.front)
    &&& p.states.len() == v.n()
    &&& forall|s: int|
        0 <= s < v.n() && !(#[trigger] p.front.visited[s]) ==> p.states[s] == v.states[s]
    &&& forall|s: int|
        0 <= s < v.n() && #[trigger] p.front.visited[s] ==> left_by_some_way(
            opts,
            v,
            fdist,
            limit,
            p.states[s],
            s,
        )
}

proof fn lemma_turn_waits<W: Weight>(front: FrontV<W>, fdist: Seq<W>, k: int)
    requires
        0 <= k,
    ensures
        front.lightest(fdist, k) matches Some(b) ==> 0 <= b < k && front.waits(b),
    decreases k,
{
    if k > 0 {
        lemma_turn_waits(front, fdist, k - 1);
    }
}

proof fn lemma_way_on<W: Weight>(v: FstV<W>, s: int, here: W, i: int)
    requires
        v.wf(),
        0 <= i < v.arcs(s).len(),
        has_way(v, s, here),
    ensures
        has_way(v, v.arcs(s)[i].nextstate as int, here.spec_times(v.arcs(s)[i].weight)),
{
    let run = choose|run: Seq<Arc<W>>| #[trigger] is_way(v, s, run, here);
    lemma_goes_on(v, v.start->0 as int, run, i);
    let arc = v.arcs(s)[i];
    assert(is_way(v, arc.nextstate as int, run.push(arc), here.spec_times(arc.weight)));
}

proof fn lemma_sifted_ways<W: Weight, F: ArcFilter<W>>(
    opts: PruneOptions<W, F>,
    v: FstV<W>,
    fdist: Seq<W>,
    limit: W,
    here: W,
    front: FrontV<W>,
    s: int,
    k: int,
)
    requires
        picks_paths(members::<W>()),
        v.wf(),
        all_members(v),
        0 <= s < v.n(),
        0 <= k <= v.arcs(s).len(),
        here.spec_member(),
        has_way(v, s, here),
        finds_ways(v, front),
    ensures
        ({
            let r = sifted(opts, fdist, limit, here, front, v.arcs(s), k);
            &&& finds_ways(v, r.front)
            &&& r.front.visited == front.visited
            &&& forall|j: int|
                0 <= j < r.kept.len() ==> is_left_of(
                    opts,
                    fdist,
                    limit,
                    here,
                    v.arcs(s),
                    #[trigger] r.kept[j],
                )
        }),
    decreases k,
{
    if k > 0 {
        lemma_sifted_ways(opts, v, fdist, limit, here, front, s, k - 1);
        let p = sifted(opts, fdist, limit, here, front, v.arcs(s), k - 1);
        let r = sifted(opts, fdist, limit, here, front, v.arcs(s), k);
        let arc = v.arcs(s)[k - 1];
        let next = arc.nextstate as int;
        let way = here.spec_times(arc.weight);
        assert(v.arcs(s).contains(arc));
        assert(v.states[s].arcs[k - 1].nextstate < v.n());
        assert(state_is_member(v.states[s]));
        lemma_product_inside(members::<W>(), here, arc.weight);
        lemma_one_inside(members::<W>(), way);
        lemma_way_on(v, s, here, k - 1);
        if opts.filter.accepts(arc) && !spec_natural_less(
            limit,
            way.spec_times(distance_at(fdist, next)),
        ) {
            let old = p.front.idist[next];
            assert(r.front.idist =~= (if spec_natural_less(way, old) {
                p.front.idist.update(next, way)
            } else {
                p.front.idist
            }));
            assert(has_way(v, next, r.front.idist[next])) by {
                if !spec_natural_less(way, old) && old == W::spec_zero() {
                    assert(way == old);
                }
            }
            assert forall|t: int| 0 <= t < v.n() && #[trigger] r.front.met[t] implies has_way(
                v,
                t,
                r.front.idist[t],
            ) by {
                if t != next {
                    assert(p.front.met[t]);
                }
            }
        }
    }
}

proof fn lemma_visit_within<W: Weight, F: ArcFilter<W>>(
    opts: PruneOptions<W, F>,
    v: FstV<W>,
    fdist: Seq<W>,
    limit: W,
    p: Pruning<W>,
    s: int,
)
    requires
        picks_paths(members::<W>()),
        v.wf(),
        all_members(v),
        stays_within(opts, v, fdist, limit, p),
        p.front.lightest(fdist, v.n() as int) == Some(s),
    ensures
        stays_within(opts, v, fdist, limit, visited_one(opts, fdist, limit, p, s)),
{
    lemma_turn_waits(p.front, fdist, v.n() as int);
    let here = p.front.idist[s];
    assert(p.front.met[s] && !p.front.visited[s]);
    assert(p.states[s] == v.states[s]);
    let entered = FrontV { visited: p.front.visited.update(s, true), ..p.front };
    assert(finds_ways(v, entered)) by {
        assert(entered.idist == p.front.idist && entered.met == p.front.met);
    }
    lemma_sifted_ways(opts, v, fdist, limit, here, entered, s, v.arcs(s).len() as int);
    let q = visited_one(opts, fdist, limit, p, s);
    assert(is_left(opts, v, fdist, limit, here, q.states[s], s));
    assert forall|t: int| 0 <= t < v.n() && #[trigger] q.front.visited[t] implies left_by_some_way(
        opts,
        v,
        fdist,
        limit,
        q.states[t],
        t,
    ) by {
        if t != s {
            assert(p.front.visited[t]);
        }
    }
    assert forall|t: int| 0 <= t < v.n() && !(#[trigger] q.front.visited[t]) implies q.states[t]
        == v.states[t] by {
        assert(!p.front.visited[t]);
    }
}

proof fn lemma_search_within<W: Weight, F: ArcFilter<W>>(
    opts: PruneOptions<W, F>,
    v: FstV<W>,
    fdist: Seq<W>,
    limit: W,
    p: Pruning<W>,
    fuel: nat,
)
    requires
        picks_paths(members::<W>()),
        v.wf(),
        all_members(v),
        stays_within(opts, v, fdist, limit, p),
    ensures
        stays_within(opts, v, fdist, limit, searched(opts, fdist, limit, p, fuel)),
    decreases fuel,
{
    if fuel > 0 {
        if let Some(s) = p.front.lightest(fdist, p.front.idist.len() as int) {
            lemma_visit_within(opts, v, fdist, limit, p, s);
            lemma_search_within(
                opts,
                v,
                fdist,
                limit,
                visited_one(opts, fdist, limit, p, s),
                (fuel - 1) as nat,
            );
        }
    }
}

/// Whether some accepting path that ends in `s` weighs no more than the limit.
pub open spec fn ends_within<W: Weight>(v: FstV<W>, s: int, limit: W) -> bool {
    exists|run: Seq<Arc<W>>| #[trigger]
        leads_to(v, s, run) && is_accepting(v, run) && no_more(accepted_weight(v, run), limit)
}

/// Whether some accepting path that takes `arc` from `s` weighs no more than the limit.
pub open spec fn passes_within<W: Weight>(v: FstV<W>, s: int, arc: Arc<W>, limit: W) -> bool {
    exists|run: Seq<Arc<W>>, rest: Seq<Arc<W>>| #[trigger]
        is_within_through(v, s, run, arc, rest, limit)
}

/// Whether `run` leads to `s`, and going on by `arc` and `rest` accepts with no more than
/// the limit.
pub open spec fn is_within_through<W: Weight>(
    v: FstV<W>,
    s: int,
    run: Seq<Arc<W>>,
    arc: Arc<W>,
    rest: Seq<Arc<W>>,
    limit: W,
) -> bool {
    &&& leads_to(v, s, run)
    &&& is_accepting(v, run.push(arc) + rest)
    &&& no_more(accepted_weight(v, run.push(arc) + rest), limit)
}

/// Whether `limit` is what a path may weigh: the threshold and the weight of the best
/// accepting path, multiplied in the order asked for.
pub open spec fn is_limit<W: Weight, F>(opts: PruneOptions<W, F>, v: FstV<W>, limit: W) -> bool {
    exists|run: Seq<Arc<W>>|
        {
            &&& #[trigger] is_accepting(v, run)
            &&& forall|other: Seq<Arc<W>>| #[trigger]
                is_accepting(v, other) ==> covers(accepted_weight(v, run), accepted_weight(v, other))
            &&& limit == if opts.threshold_initial {
                opts.weight_threshold.spec_times(accepted_weight(v, run))
            } else {
                accepted_weight(v, run).spec_times(opts.weight_threshold)
            }
        }
}

/// What a run weighs to its end, arc after arc or from the end backwards.
pub proof fn lemma_total_of_weighs<W: Weight>(
    inside: spec_fn(W) -> bool,
    v: FstV<W>,
    s: int,
    run: Seq<Arc<W>>,
    end: W,
)
    requires
        picks_paths(inside),
        v.wf(),
        all_inside(v, inside),
        is_run(v, s, run),
        inside(end),
    ensures
        inside(weighs(run)),
        inside(total(run, end)),
        total(run, end) == weighs(run).spec_times(end),
    decreases run.len(),
{
    lemma_one_inside(inside, end);
    if run.len() > 0 {
        let less = run.drop_last();
        let last = run.len() - 1;
        let w = run[last].weight;
        assert(steps(v, s, run, last));
        let at = state_at(s, run, last);
        let i = choose|i: int| 0 <= i < v.arcs(at).len() && v.arcs(at)[i] == run[last];
        assert(inside(v.arcs(at)[i].weight));
        assert(is_run(v, s, less)) by {
            assert forall|j: int| 0 <= j < less.len() implies #[trigger] steps(v, s, less, j) by {
                assert(steps(v, s, run, j));
                assert(state_at(s, less, j) == state_at(s, run, j));
            }
        }
        lemma_product_inside(inside, w, end);
        lemma_total_of_weighs(inside, v, s, less, w.spec_times(end));
        lemma_total_last(run, end);
        lemma_product_inside(inside, weighs(less), w);
        lemma_multiply_along(inside, weighs(less), w, end);
    }
}

/// The last arc of a run may be taken to its end.
pub proof fn lemma_total_last<W: Weight>(run: Seq<Arc<W>>, end: W)
    requires
        run.len() > 0,
    ensures
        total(run, end) == total(run.drop_last(), run.last().weight.spec_times(end)),
    decreases run.len(),
{
    let less = run.drop_last();
    if run.len() > 1 {
        let rest = run.drop_first();
        lemma_total_last(rest, end);
        assert(rest.drop_last() =~= less.drop_first());
        assert(rest.last() == run.last());
        assert(less[0] == run[0]);
    } else {
        assert(run.drop_first() =~= Seq::empty());
        assert(less =~= Seq::empty());
        assert(total(run.drop_first(), end) == end);
    }
}

proof fn lemma_ends_within<W: Weight>(v: FstV<W>, s: int, here: W, limit: W)
    requires
        picks_paths(members::<W>()),
        v.wf(),
        all_members(v),
        0 <= s < v.n(),
        has_way(v, s, here),
        v.fin(s) != W::spec_zero(),
        no_more(here.spec_times(v.fin(s)), limit),
    ensures
        ends_within(v, s, limit),
{
    let run = choose|run: Seq<Arc<W>>| #[trigger] is_way(v, s, run, here);
    lemma_members_inside(v);
    assert(members::<W>()(v.fin(s)));
    lemma_total_of_weighs(members::<W>(), v, v.start->0 as int, run, v.fin(s));
    assert(is_accepting(v, run));
    assert(leads_to(v, s, run));
}

/// One run after another.
pub proof fn lemma_run_on<W: Weight>(
    v: FstV<W>,
    s: int,
    run: Seq<Arc<W>>,
    rest: Seq<Arc<W>>,
)
    requires
        v.wf(),
        is_run(v, s, run),
        is_run(v, end_of(s, run), rest),
    ensures
        is_run(v, s, run + rest),
        end_of(s, run + rest) == end_of(end_of(s, run), rest),
{
    let all = run + rest;
    let t = end_of(s, run);
    assert forall|i: int| 0 <= i < all.len() implies #[trigger] steps(v, s, all, i) by {
        if i < run.len() {
            assert(steps(v, s, run, i));
            assert(state_at(s, all, i) == state_at(s, run, i));
        } else {
            assert(steps(v, t, rest, i - run.len()));
            assert(state_at(s, all, i) == state_at(t, rest, i - run.len()));
        }
    }
    if rest.len() > 0 {
        assert(all[all.len() - 1] == rest[rest.len() - 1]);
    } else {
        assert(all =~= run);
    }
}

/// What one run after another weighs.
pub proof fn lemma_total_on<W: Weight>(run: Seq<Arc<W>>, rest: Seq<Arc<W>>, end: W)
    ensures
        total(run + rest, end) == total(run, total(rest, end)),
    decreases run.len(),
{
    if run.len() == 0 {
        assert(run + rest =~= rest);
    } else {
        lemma_total_on(run.drop_first(), rest, end);
        assert((run + rest).drop_first() =~= run.drop_first() + rest);
        assert((run + rest)[0] == run[0]);
    }
}

proof fn lemma_passes_within<W: Weight>(
    v: FstV<W>,
    fdist: Seq<W>,
    s: int,
    here: W,
    i: int,
    limit: W,
)
    requires
        picks_paths(members::<W>()),
        v.wf(),
        all_members(v),
        0 <= s < v.n(),
        has_way(v, s, here),
        here.spec_member(),
        0 <= i < v.arcs(s).len(),
        fdist.len() == v.n(),
        some_ending_weighs(
            v,
            v.arcs(s)[i].nextstate as int,
            fdist[v.arcs(s)[i].nextstate as int],
        ),
        limit != W::spec_zero(),
        limit.spec_member(),
        no_more(
            here.spec_times(v.arcs(s)[i].weight).spec_times(
                fdist[v.arcs(s)[i].nextstate as int],
            ),
            limit,
        ),
    ensures
        passes_within(v, s, v.arcs(s)[i], limit),
{
    let inside = members::<W>();
    lemma_members_inside(v);
    let arc = v.arcs(s)[i];
    let t = arc.nextstate as int;
    let way = here.spec_times(arc.weight);
    assert(v.states[s].arcs[i].nextstate < v.n());
    assert(inside(v.arcs(s)[i].weight));
    lemma_product_inside(inside, here, arc.weight);
    lemma_one_inside(inside, way);
    lemma_one_inside(inside, limit);
    let zero = W::spec_zero();
    if fdist[t] == zero {
        assert(way.spec_times(zero) == zero);
        assert(limit.spec_plus(zero) == limit);
        assert(spec_natural_less(limit, zero));
    }
    let run = choose|run: Seq<Arc<W>>| #[trigger] is_way(v, s, run, here);
    let rest = choose|rest: Seq<Arc<W>>| #[trigger]
        is_ending(v, t, rest) && total(rest, v.fin(end_of(t, rest))) == fdist[t];
    let s0 = v.start->0 as int;
    lemma_goes_on(v, s0, run, i);
    let on = run.push(arc);
    lemma_run_on(v, s0, on, rest);
    let end = v.fin(end_of(t, rest));
    assert(inside(v.fin(end_of(t, rest))));
    lemma_total_of_weighs(inside, v, t, rest, end);
    lemma_total_on(on, rest, end);
    lemma_total_of_weighs(inside, v, s0, on, fdist[t]);
    assert(is_within_through(v, s, run, arc, rest, limit));
}

/// What of a machine a part of it takes over: each state of the part is a state of the
/// machine, no two of them the same one.
pub open spec fn takes_states<W: Weight>(v: FstV<W>, o: FstV<W>, from: Seq<int>) -> bool {
    &&& from.len() == o.n()
    &&& forall|j: int| 0 <= j < from.len() ==> 0 <= #[trigger] from[j] < v.n()
    &&& forall|i: int, j: int| 0 <= i < j < from.len() ==> from[i] != from[j]
    &&& o.start matches Some(j) ==> j < o.n() && v.start == Some(from[j as int] as usize)
}

/// Whether an arc of the part was an arc of the machine, and lies on an accepting path
/// within the limit if it was looked at.
pub open spec fn arc_is_within<W: Weight, F: ArcFilter<W>>(
    opts: PruneOptions<W, F>,
    v: FstV<W>,
    o: FstV<W>,
    from: Seq<int>,
    j: int,
    arc: Arc<W>,
    limit: W,
) -> bool {
    exists|i: int|
        {
            let was = #[trigger] v.arcs(from[j])[i];
            &&& 0 <= i < v.arcs(from[j]).len()
            &&& arc.ilabel == was.ilabel
            &&& arc.olabel == was.olabel
            &&& arc.weight == was.weight
            &&& arc.nextstate < o.n()
            &&& from[arc.nextstate as int] == was.nextstate
            &&& opts.filter.accepts(was) && limit != W::spec_zero() ==> passes_within(
                v,
                from[j],
                was,
                limit,
            )
        }
}

/// What pruning leaves lies within the limit: each state it leaves was a state, each final
/// weight it leaves ends an accepting path that weighs no more than the limit, and each arc
/// it leaves, if it was looked at, lies on such a path.
pub proof fn law_what_pruning_leaves_is_within<W: Weight, F: ArcFilter<W>>(
    opts: PruneOptions<W, F>,
    v: FstV<W>,
    fdist: Seq<W>,
) -> (got: (Seq<int>, W))
    requires
        picks_paths(members::<W>()),
        adds_inside::<W>(),
        closeness_is_equality::<W>(opts.delta),
        v.wf(),
        v.n() <= usize::MAX,
        all_members(v),
        opts.weight_threshold.spec_member(),
        is_distance(v, true, opts.delta, fdist),
    ensures
        takes_states(v, pruned(opts, v, fdist), got.0),
        pruned(opts, v, fdist).n() > 0 ==> is_limit(opts, v, got.1),
        forall|j: int|
            0 <= j < pruned(opts, v, fdist).n() && #[trigger] pruned(opts, v, fdist).fin(j)
                != W::spec_zero() ==> pruned(opts, v, fdist).fin(j) == v.fin(got.0[j])
                && ends_within(v, got.0[j], got.1),
        forall|j: int, i: int|
            0 <= j < pruned(opts, v, fdist).n() && 0 <= i < pruned(opts, v, fdist).arcs(j).len()
                ==> arc_is_within(
                opts,
                v,
                pruned(opts, v, fdist),
                got.0,
                j,
                #[trigger] pruned(opts, v, fdist).arcs(j)[i],
                got.1,
            ),
{
    let o = pruned(opts, v, fdist);
    let inside = members::<W>();
    lemma_members_inside(v);
    lemma_one_inside(inside, W::spec_one());
    let k = lemma_settled(v, true, opts.delta, fdist);
    assert forall|s: int| 0 <= s < v.n() implies (#[trigger] fdist[s]).spec_member()
        && some_ending_weighs(v, s, fdist[s]) by {
        lemma_distances_are_members(v, k, s);
        lemma_to_end(inside, v, k, s);
    }
    if v.start is None || opts.state_threshold == Some(0usize) || distance_at(
        fdist,
        v.start->0 as int,
    ) == W::spec_zero() {
        (Seq::empty(), W::spec_zero())
    } else {
        let start = v.start->0 as int;
        let limit = limit_of(opts, fdist[start]);
        lemma_product_inside(inside, opts.weight_threshold, fdist[start]);
        lemma_product_inside(inside, fdist[start], opts.weight_threshold);
        assert(limit.spec_member());
        law_distance_to_the_end_is_that_of_the_best_path(inside, v, opts.delta, fdist, start);
        let best = choose|run: Seq<Arc<W>>| #[trigger]
            is_ending(v, start, run) && total(run, v.fin(end_of(start, run))) == fdist[start];
        assert(is_accepting(v, best));
        assert forall|other: Seq<Arc<W>>| #[trigger] is_accepting(v, other) implies covers(
            accepted_weight(v, best),
            accepted_weight(v, other),
        ) by {
            assert(is_ending(v, start, other));
        }
        assert(is_limit(opts, v, limit));
        let begins = !spec_natural_less(limit, fdist[start]);
        let first = Pruning { front: front_at::<W>(v.n(), start, begins), states: v.states };
        assert(stays_within(opts, v, fdist, limit, first)) by {
            let none = Seq::<Arc<W>>::empty();
            assert(weighs(none) == W::spec_one());
            assert(is_way(v, start, none, W::spec_one()));
        }
        lemma_search_within(opts, v, fdist, limit, first, v.n());
        let p = searched(opts, fdist, limit, first, v.n());
        let keep = p.front.visited;
        let n = v.n() as int;
        let left = v.with_states(p.states);
        lemma_kept_states_len(p.states, keep, n);
        assert(o.n() == rank(keep, n));
        let from = Seq::new(o.n(), |j: int| state_ranked(keep, n, j));
        assert forall|j: int| 0 <= j < o.n() implies 0 <= #[trigger] from[j] < n && keep[from[j]]
            && rank(keep, from[j]) == j by {
            let x = lemma_rank_onto(keep, n, j);
            assert(0 <= x < n && keep[x] && rank(keep, x) == j);
        }
        assert(takes_states(v, o, from)) by {
            if let Some(j) = o.start {
                lemma_kept_state_at(p.states, keep, start, n);
                lemma_rank_monotone(keep, 0, start);
                lemma_rank_monotone(keep, start, n);
                lemma_rank_apart(keep, from[j as int], start, n);
            }
            assert forall|i: int, j: int| 0 <= i < j < from.len() implies from[i] != from[j] by {
                assert(rank(keep, from[i]) == i);
                assert(rank(keep, from[j]) == j);
            }
        }
        assert forall|j: int| 0 <= j < o.n() implies {
            &&& o.states[j].final_weight == (#[trigger] p.states[from[j]]).final_weight
            &&& left_by_some_way(opts, v, fdist, limit, p.states[from[j]], from[j])
        } by {
            assert(rank(keep, from[j]) == j);
            lemma_kept_state_at(p.states, keep, from[j], n);
            assert(p.front.visited[from[j]]);
        }
        assert forall|j: int| 0 <= j < o.n() && #[trigger] o.fin(j) != W::spec_zero() implies o.fin(
            j,
        ) == v.fin(from[j]) && ends_within(v, from[j], limit) by {
            let s = from[j];
            assert(left_by_some_way(opts, v, fdist, limit, p.states[s], s));
            let here = choose|here: W| #[trigger]
                is_left(opts, v, fdist, limit, here, p.states[s], s);
            lemma_ends_within(v, s, here, limit);
        }
        assert forall|j: int, i: int| 0 <= j < o.n() && 0 <= i < o.arcs(j).len() implies
            arc_is_within(opts, v, o, from, j, #[trigger] o.arcs(j)[i], limit) by {
            let s = from[j];
            assert(rank(keep, s) == j);
            lemma_kept_state_at(p.states, keep, s, n);
            assert(left_by_some_way(opts, v, fdist, limit, p.states[s], s));
            let here = choose|here: W| #[trigger]
                is_left(opts, v, fdist, limit, here, p.states[s], s);
            let arcs = p.states[s].arcs;
            let x = lemma_kept_arc_from(arcs, keep, arcs.len() as int, i);
            let was = arcs[x];
            assert(is_left_of(opts, fdist, limit, here, v.arcs(s), arcs[x]));
            let y = choose|y: int| 0 <= y < v.arcs(s).len() && v.arcs(s)[y] == was;
            assert(v.states[s].arcs[y].nextstate < v.n());
            let t = was.nextstate as int;
            lemma_kept_state_at(p.states, keep, t, n);
            lemma_rank_monotone(keep, 0, t);
            lemma_rank_monotone(keep, t, n);
            lemma_rank_apart(keep, from[rank(keep, t) as int], t, n);
            if opts.filter.accepts(was) && limit != W::spec_zero() {
                let run = choose|run: Seq<Arc<W>>| #[trigger] is_way(v, s, run, here);
                lemma_total_of_weighs(inside, v, start, run, W::spec_one());
                lemma_passes_within(v, fdist, s, here, y, limit);
            }
            assert(o.arcs(j)[i].ilabel == v.arcs(from[j])[y].ilabel);
        }
        (from, limit)
    }
}

spec fn state_ranked(keep: Seq<bool>, n: int, j: int) -> int {
    choose|x: int| 0 <= x < n && #[trigger] keep[x] && rank(keep, x) == j
}

/// Two states that are kept and stand in the same place are the same.
proof fn lemma_rank_apart(keep: Seq<bool>, a: int, b: int, n: int)
    requires
        0 <= a < n <= keep.len(),
        0 <= b < n,
        keep[a],
        keep[b],
        rank(keep, a) == rank(keep, b),
    ensures
        a == b,
{
    if a < b {
        lemma_rank_monotone(keep, a + 1, b);
    } else if b < a {
        lemma_rank_monotone(keep, b + 1, a);
    }
}

/// Distances to the end are no more than what any way on from a state weighs.
pub proof fn law_distances_bound_every_way<W: Weight>(v: FstV<W>, delta: W::Delta, fdist: Seq<W>)
    requires
        picks_paths(members::<W>()),
        adds_inside::<W>(),
        closeness_is_equality::<W>(delta),
        v.wf(),
        all_members(v),
        is_distance(v, true, delta, fdist),
    ensures
        are_distances(v, fdist),
{
    let inside = members::<W>();
    lemma_members_inside(v);
    let k = lemma_settled(v, true, delta, fdist);
    assert forall|s: int| 0 <= s < fdist.len() implies (#[trigger] fdist[s]).spec_member() by {
        lemma_distances_are_members(v, k, s);
    }
    assert forall|s: int| 0 <= s < v.n() implies no_more(#[trigger] fdist[s], v.fin(s)) && forall|
        i: int,
    |
        0 <= i < v.arcs(s).len() ==> no_more(
            fdist[s],
            (#[trigger] v.arcs(s)[i]).weight.spec_times(fdist[v.arcs(s)[i].nextstate as int]),
        ) by {
        lemma_arcs_inside(inside, v, s);
        let arcs = v.arcs(s);
        assert forall|t: int| 0 <= t < fdist.len() implies is_good(inside, #[trigger] fdist[t]) by {
            assert(fdist[t].spec_member());
        }
        lemma_onward_sum(inside, arcs, fdist, v.fin(s), arcs.len() as int);
        assert(fdist[s] == onward_sum(arcs, fdist, v.fin(s), arcs.len() as int));
        lemma_sum_inside(inside, fdist[s], v.fin(s));
        assert forall|i: int| 0 <= i < v.arcs(s).len() implies no_more(
            fdist[s],
            (#[trigger] v.arcs(s)[i]).weight.spec_times(fdist[v.arcs(s)[i].nextstate as int]),
        ) by {
            let there = fdist[v.arcs(s)[i].nextstate as int];
            assert(covers(fdist[s], arcs[i].weight.spec_times(there)));
            lemma_product_inside(inside, arcs[i].weight, there);
            lemma_sum_inside(inside, fdist[s], arcs[i].weight.spec_times(there));
        }
    }
    assert forall|s: int, i: int| 0 <= s < v.n() && 0 <= i < v.arcs(s).len() implies no_more(
        fdist[s],
        (#[trigger] v.arcs(s)[i]).weight.spec_times(fdist[v.arcs(s)[i].nextstate as int]),
    ) by {
        assert(no_more(fdist[s], v.fin(s)));
    }
}

} // verus!
