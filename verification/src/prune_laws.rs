//! What pruning keeps.
use crate::arc::Arc;
use crate::arc_filter::ArcFilter;
use crate::connect::{lemma_kept_arc, lemma_kept_state_at};
use crate::paths::{
    accepted_weight, end_of, is_accepting, is_ending, lemma_after_first, lemma_alike,
    lemma_run_stays, reads, state_at, steps, total, writes,
};
use crate::prune::{
    distance_at, front_at, lemma_rank_set, limit_of, pruned, searched, sifted, visited_one, FrontV,
    PruneOptions, Pruning,
};
use crate::vector_fst::{
    all_members, lemma_rank_monotone, rank, restricted, state_is_member, FstV,
};
use crate::weight::{spec_natural_less, Weight};
use vstd::prelude::*;

verus! {

/// Whether `a` weighs no more than `b`.
pub open spec fn no_more<W: Weight>(a: W, b: W) -> bool {
    !spec_natural_less(b, a)
}

/// Whether the order that the sum picks from is one that multiplying keeps, in the
/// semiring: weights can be compared, none weighs more than the sum of nothing, and
/// products are ordered as their factors are, strictly so unless a factor is the sum of
/// nothing.
#[verifier::opaque]
pub open spec fn orders_paths<W: Weight>() -> bool {
    let zero = W::spec_zero();
    &&& zero.spec_member()
    &&& W::spec_one().spec_member()
    &&& forall|a: W, b: W|
        a.spec_member() && b.spec_member() ==> (#[trigger] a.spec_times(b)).spec_member()
    &&& forall|a: W, b: W, c: W|
        a.spec_member() && b.spec_member() && c.spec_member() && #[trigger] no_more(a, b)
            && #[trigger] no_more(b, c) ==> no_more(a, c)
    &&& forall|a: W, b: W|
        a.spec_member() && b.spec_member() && #[trigger] spec_natural_less(a, b) ==> no_more(a, b)
    &&& forall|a: W| a.spec_member() ==> #[trigger] no_more(a, zero)
    &&& forall|a: W, b: W, c: W|
        a.spec_member() && b.spec_member() && c.spec_member() && no_more(a, b) ==> no_more(
            #[trigger] c.spec_times(a),
            #[trigger] c.spec_times(b),
        )
    &&& forall|a: W, b: W, c: W|
        a.spec_member() && b.spec_member() && c.spec_member() && no_more(a, b) ==> no_more(
            #[trigger] a.spec_times(c),
            #[trigger] b.spec_times(c),
        )
    &&& forall|a: W, b: W, c: W|
        a.spec_member() && b.spec_member() && c.spec_member() && spec_natural_less(a, b) && c
            != zero ==> spec_natural_less(#[trigger] a.spec_times(c), #[trigger] b.spec_times(c))
    &&& forall|a: W, b: W, c: W| #[trigger]
        a.spec_times(b).spec_times(c) == a.spec_times(b.spec_times(c))
    &&& forall|a: W| #[trigger] W::spec_one().spec_times(a) == a
    &&& forall|a: W| a.spec_member() ==> #[trigger] a.spec_times(zero) == zero
    &&& forall|a: W| a.spec_member() ==> #[trigger] zero.spec_times(a) == zero
}

/// The semiring: products, and the sum and the product of nothing.
proof fn lemma_member<W: Weight>(a: W, b: W)
    requires
        orders_paths::<W>(),
    ensures
        a.spec_member() && b.spec_member() ==> a.spec_times(b).spec_member(),
        W::spec_zero().spec_member(),
        W::spec_one().spec_member(),
{
    reveal(orders_paths);
}

/// Comparing: three weights, and the sum of nothing.
proof fn lemma_compare<W: Weight>(a: W, b: W, c: W)
    requires
        orders_paths::<W>(),
        a.spec_member(),
        b.spec_member(),
        c.spec_member(),
    ensures
        no_more(a, b) && no_more(b, c) ==> no_more(a, c),
        spec_natural_less(a, b) ==> no_more(a, b),
        no_more(a, a),
        no_more(a, W::spec_zero()),
{
    reveal(orders_paths);
}

/// Comparing products.
proof fn lemma_compare_products<W: Weight>(a: W, b: W, c: W)
    requires
        orders_paths::<W>(),
        a.spec_member(),
        b.spec_member(),
        c.spec_member(),
    ensures
        no_more(a, b) ==> no_more(c.spec_times(a), c.spec_times(b)),
        no_more(a, b) ==> no_more(a.spec_times(c), b.spec_times(c)),
        spec_natural_less(a, b) && c != W::spec_zero() ==> spec_natural_less(
            a.spec_times(c),
            b.spec_times(c),
        ),
        a.spec_times(c).spec_member(),
        b.spec_times(c).spec_member(),
        c.spec_times(a).spec_member(),
        c.spec_times(b).spec_member(),
{
    reveal(orders_paths);
}

/// Multiplying.
proof fn lemma_multiply<W: Weight>(a: W, b: W, c: W)
    requires
        orders_paths::<W>(),
    ensures
        a.spec_times(b).spec_times(c) == a.spec_times(b.spec_times(c)),
        W::spec_one().spec_times(a) == a,
        a.spec_member() ==> a.spec_times(W::spec_zero()) == W::spec_zero(),
        a.spec_member() ==> W::spec_zero().spec_times(a) == W::spec_zero(),
{
    reveal(orders_paths);
}

/// Whether all are in the semiring.
pub open spec fn are_members<W: Weight>(weights: Seq<W>) -> bool {
    forall|i: int| 0 <= i < weights.len() ==> (#[trigger] weights[i]).spec_member()
}

/// What a way through a state weighs is in the semiring.
proof fn lemma_through<W: Weight>(front: FrontV<W>, fdist: Seq<W>, s: int)
    requires
        orders_paths::<W>(),
        are_members(front.idist),
        are_members(fdist),
        0 <= s < front.idist.len(),
    ensures
        front.through(fdist, s).spec_member(),
{
    lemma_member(front.idist[s], distance_at(fdist, s));
}

/// Whether distances are in the semiring, and no more than what any way on from a state
/// weighs.
pub open spec fn are_distances<W: Weight>(v: FstV<W>, fdist: Seq<W>) -> bool {
    &&& fdist.len() == v.n()
    &&& are_members(fdist)
    &&& forall|s: int, i: int|
        0 <= s < v.n() && 0 <= i < v.arcs(s).len() ==> no_more(
            fdist[s],
            (#[trigger] v.arcs(s)[i]).weight.spec_times(fdist[v.arcs(s)[i].nextstate as int]),
        )
    &&& forall|s: int| 0 <= s < v.n() ==> no_more(#[trigger] fdist[s], v.fin(s))
}

/// Whether an arc, taken from a state that is `here` away, is on a path within the limit.
pub open spec fn is_within<W: Weight>(fdist: Seq<W>, limit: W, here: W, arc: Arc<W>) -> bool {
    !spec_natural_less(
        limit,
        here.spec_times(arc.weight).spec_times(distance_at(fdist, arc.nextstate as int)),
    )
}

/// Whether what is within the limit of a state that has been visited is kept, and where
/// it leads has been met.
spec fn is_kept_at<W: Weight>(
    v: FstV<W>,
    fdist: Seq<W>,
    limit: W,
    p: Pruning<W>,
    s: int,
) -> bool {
    let here = p.front.idist[s];
    &&& forall|i: int|
        0 <= i < v.arcs(s).len() && is_within(fdist, limit, here, #[trigger] v.arcs(s)[i]) ==> {
            let arc = v.arcs(s)[i];
            &&& p.front.met[arc.nextstate as int]
            &&& no_more(p.front.idist[arc.nextstate as int], here.spec_times(arc.weight))
            &&& p.states[s].arcs.contains(arc)
        }
    &&& !spec_natural_less(limit, here.spec_times(v.fin(s))) ==> p.states[s].final_weight == v.fin(
        s,
    )
}

/// What the search keeps to.
spec fn keeps_to<W: Weight>(v: FstV<W>, fdist: Seq<W>, limit: W, p: Pruning<W>) -> bool {
    &&& p.front.sized(v.n())
    &&& are_members(p.front.idist)
    &&& p.states.len() == v.n()
    &&& forall|s: int| 0 <= s < v.n() && #[trigger] p.front.visited[s] ==> p.front.met[s]
    &&& forall|s: int|
        0 <= s < v.n() && !(#[trigger] p.front.met[s]) ==> p.front.idist[s] == W::spec_zero()
    &&& forall|s: int| 0 <= s < v.n() && !p.front.visited[s] ==> #[trigger] p.states[s] == v.states[s]
    &&& forall|s: int, t: int|
        0 <= s < v.n() && 0 <= t < v.n() && p.front.visited[s] && p.front.waits(t) ==> no_more(
            #[trigger] p.front.through(fdist, s),
            #[trigger] p.front.through(fdist, t),
        )
    &&& forall|s: int|
        0 <= s < v.n() && p.front.visited[s] ==> #[trigger] is_kept_at(v, fdist, limit, p, s)
}

/// The state whose turn it is is one that waits, and none that waits weighs less.
proof fn lemma_lightest<W: Weight>(front: FrontV<W>, fdist: Seq<W>, k: int)
    requires
        orders_paths::<W>(),
        are_members(front.idist),
        are_members(fdist),
        0 <= k <= front.idist.len(),
    ensures
        match front.lightest(fdist, k) {
            Some(b) => {
                &&& 0 <= b < k
                &&& front.waits(b)
                &&& forall|t: int|
                    0 <= t < k && front.waits(t) ==> no_more(
                        front.through(fdist, b),
                        #[trigger] front.through(fdist, t),
                    )
            },
            None => forall|t: int| 0 <= t < k ==> !(#[trigger] front.waits(t)),
        },
    decreases k,
{
    if k > 0 {
        lemma_lightest(front, fdist, k - 1);
        let x = front.through(fdist, k - 1);
        lemma_through(front, fdist, k - 1);
        if let Some(b) = front.lightest(fdist, k - 1) {
            let best = front.through(fdist, b);
            lemma_through(front, fdist, b);
            lemma_compare(x, best, best);
            if spec_natural_less(x, best) {
                assert forall|t: int| 0 <= t < k && front.waits(t) implies no_more(
                    x,
                    #[trigger] front.through(fdist, t),
                ) by {
                    lemma_through(front, fdist, t);
                    lemma_compare(x, best, front.through(fdist, t));
                }
            }
        }
    }
}

/// What looking at the arcs of a state comes to.
spec fn are_sifted<W: Weight>(
    fdist: Seq<W>,
    limit: W,
    here: W,
    before: FrontV<W>,
    arcs: Seq<Arc<W>>,
    k: int,
    after: FrontV<W>,
    kept: Seq<Arc<W>>,
) -> bool {
    let n = before.idist.len();
    &&& after.sized(n)
    &&& are_members(after.idist)
    &&& after.visited == before.visited
    &&& forall|t: int| 0 <= t < n && before.met[t] ==> #[trigger] after.met[t]
    &&& forall|t: int| 0 <= t < n ==> no_more(#[trigger] after.idist[t], before.idist[t])
    &&& forall|t: int|
        0 <= t < n && before.visited[t] ==> #[trigger] after.idist[t] == before.idist[t]
    &&& forall|t: int|
        0 <= t < n && !(#[trigger] after.met[t]) ==> after.idist[t] == before.idist[t]
    &&& forall|t: int|
        0 <= t < n && #[trigger] after.idist[t] != before.idist[t] ==> exists|j: int|
            0 <= j < k && (#[trigger] arcs[j]).nextstate == t && after.idist[t] == here.spec_times(
                arcs[j].weight,
            )
    &&& forall|j: int|
        0 <= j < k && is_within(fdist, limit, here, #[trigger] arcs[j]) ==> {
            &&& after.met[arcs[j].nextstate as int]
            &&& no_more(after.idist[arcs[j].nextstate as int], here.spec_times(arcs[j].weight))
            &&& kept.contains(arcs[j])
        }
}

/// Looking at the arcs of a state keeps what is within the limit.
proof fn lemma_sifted<W: Weight, F: ArcFilter<W>>(
    opts: PruneOptions<W, F>,
    fdist: Seq<W>,
    limit: W,
    here: W,
    front: FrontV<W>,
    arcs: Seq<Arc<W>>,
    k: int,
)
    requires
        orders_paths::<W>(),
        opts.state_threshold is None,
        here.spec_member(),
        are_members(front.idist),
        0 <= k <= arcs.len(),
        front.sized(front.idist.len()),
        forall|t: int| 0 <= t < front.idist.len() && #[trigger] front.visited[t] ==> front.met[t],
        forall|i: int|
            0 <= i < arcs.len() ==> opts.filter.accepts(#[trigger] arcs[i]) && arcs[i].nextstate
                < front.idist.len() && arcs[i].weight.spec_member(),
        forall|i: int|
            0 <= i < arcs.len() && is_within(fdist, limit, here, #[trigger] arcs[i])
                && front.visited[arcs[i].nextstate as int] ==> !spec_natural_less(
                here.spec_times(arcs[i].weight),
                front.idist[arcs[i].nextstate as int],
            ),
    ensures
        ({
            let r = sifted(opts, fdist, limit, here, front, arcs, k);
            are_sifted(fdist, limit, here, front, arcs, k, r.front, r.kept)
        }),
    decreases k,
{
    let n = front.idist.len();
    let r = sifted(opts, fdist, limit, here, front, arcs, k);
    if k <= 0 {
        assert forall|t: int| 0 <= t < n implies no_more(
            #[trigger] r.front.idist[t],
            front.idist[t],
        ) by {
            lemma_compare(front.idist[t], front.idist[t], front.idist[t]);
        }
    } else {
        lemma_sifted(opts, fdist, limit, here, front, arcs, k - 1);
        let p = sifted(opts, fdist, limit, here, front, arcs, k - 1);
        let arc = arcs[k - 1];
        let next = arc.nextstate as int;
        let way = here.spec_times(arc.weight);
        lemma_member(here, arc.weight);
        if is_within(fdist, limit, here, arc) {
            let old = p.front.idist[next];
            lemma_compare(way, old, old);
            lemma_compare(old, old, old);
            if front.visited[next] {
                assert(p.front.idist[next] == front.idist[next]);
                assert(!spec_natural_less(way, old));
            }
            assert(r.front.idist =~= (if spec_natural_less(way, old) {
                p.front.idist.update(next, way)
            } else {
                p.front.idist
            }));
            assert(no_more(r.front.idist[next], way)) by {
                lemma_compare(way, way, way);
            }
            assert(r.front.visited == p.front.visited);
            assert(r.front.met[next]);
            assert forall|t: int| 0 <= t < n implies no_more(
                #[trigger] r.front.idist[t],
                front.idist[t],
            ) by {
                assert(no_more(p.front.idist[t], front.idist[t]));
                lemma_compare(way, old, front.idist[t]);
            }
            assert forall|j: int| 0 <= j < k && is_within(
                fdist,
                limit,
                here,
                #[trigger] arcs[j],
            ) implies {
                &&& r.front.met[arcs[j].nextstate as int]
                &&& no_more(
                    r.front.idist[arcs[j].nextstate as int],
                    here.spec_times(arcs[j].weight),
                )
                &&& r.kept.contains(arcs[j])
            } by {
                if j < k - 1 {
                    let t = arcs[j].nextstate as int;
                    let w = here.spec_times(arcs[j].weight);
                    lemma_member(here, arcs[j].weight);
                    lemma_compare(r.front.idist[t], p.front.idist[t], w);
                    lemma_compare(way, old, old);
                    let x = choose|x: int| 0 <= x < p.kept.len() && p.kept[x] == arcs[j];
                    assert(r.kept[x] == arcs[j]);
                } else {
                    assert(r.kept[p.kept.len() as int] == arc);
                }
            }
            assert forall|t: int|
                0 <= t < n && #[trigger] r.front.idist[t] != front.idist[t] implies exists|j: int|
                0 <= j < k && (#[trigger] arcs[j]).nextstate == t && r.front.idist[t]
                    == here.spec_times(arcs[j].weight) by {
                if t == next && spec_natural_less(way, old) {
                    assert(arcs[k - 1].nextstate == t);
                } else {
                    assert(p.front.idist[t] != front.idist[t]);
                    let j = choose|j: int|
                        0 <= j < k - 1 && (#[trigger] arcs[j]).nextstate == t && p.front.idist[t]
                            == here.spec_times(arcs[j].weight);
                    assert(arcs[j].nextstate == t);
                }
            }
        } else {
            assert(r == p);
            assert forall|t: int|
                0 <= t < n && #[trigger] r.front.idist[t] != front.idist[t] implies exists|j: int|
                0 <= j < k && (#[trigger] arcs[j]).nextstate == t && r.front.idist[t]
                    == here.spec_times(arcs[j].weight) by {
                let j = choose|j: int|
                    0 <= j < k - 1 && (#[trigger] arcs[j]).nextstate == t && p.front.idist[t]
                        == here.spec_times(arcs[j].weight);
                assert(arcs[j].nextstate == t);
            }
        }
    }
}

/// Visiting the state whose turn it is keeps to what the search keeps to.
#[verifier::spinoff_prover]
#[verifier::rlimit(60)]
proof fn lemma_visit<W: Weight, F: ArcFilter<W>>(
    opts: PruneOptions<W, F>,
    v: FstV<W>,
    fdist: Seq<W>,
    limit: W,
    p: Pruning<W>,
    s: int,
)
    requires
        orders_paths::<W>(),
        v.wf(),
        all_members(v),
        opts.state_threshold is None,
        forall|x: int, i: int|
            0 <= x < v.n() && 0 <= i < v.arcs(x).len() ==> opts.filter.accepts(
                #[trigger] v.arcs(x)[i],
            ),
        are_distances(v, fdist),
        spec_natural_less(limit, W::spec_zero()),
        keeps_to(v, fdist, limit, p),
        p.front.lightest(fdist, v.n() as int) == Some(s),
    ensures
        keeps_to(v, fdist, limit, visited_one(opts, fdist, limit, p, s)),
        0 <= s < v.n(),
        !p.front.visited[s],
        ({
            let q = visited_one(opts, fdist, limit, p, s);
            &&& q.front.visited == p.front.visited.update(s, true)
            &&& forall|t: int| 0 <= t < v.n() && p.front.met[t] ==> #[trigger] q.front.met[t]
            &&& forall|t: int|
                0 <= t < v.n() ==> no_more(#[trigger] q.front.idist[t], p.front.idist[t])
        }),
{
    let n = v.n() as int;
    lemma_lightest(p.front, fdist, n);
    let here = p.front.idist[s];
    let arcs = v.arcs(s);
    assert(p.states[s] == v.states[s]);
    let entered = FrontV { visited: p.front.visited.update(s, true), ..p.front };
    let q = visited_one(opts, fdist, limit, p, s);
    let turn = p.front.through(fdist, s);
    lemma_through(p.front, fdist, s);
    lemma_compare(turn, turn, turn);
    assert(state_is_member(v.states[s]));
    // What an arc within the limit leads to by is no less than the state whose turn it is.
    assert forall|i: int| 0 <= i < arcs.len() implies no_more(
        turn,
        here.spec_times((#[trigger] arcs[i]).weight).spec_times(fdist[arcs[i].nextstate as int]),
    ) && arcs[i].nextstate < v.n() && opts.filter.accepts(arcs[i]) && arcs[i].weight.spec_member() by {
        assert(v.states[s].arcs[i].nextstate < v.n());
        let w = v.arcs(s)[i].weight;
        let f = fdist[v.arcs(s)[i].nextstate as int];
        assert(no_more(fdist[s], w.spec_times(f)));
        lemma_member(w, f);
        lemma_compare_products(fdist[s], w.spec_times(f), here);
        lemma_multiply(here, w, f);
        assert(opts.filter.accepts(v.arcs(s)[i]));
    }
    assert forall|i: int|
        0 <= i < arcs.len() && is_within(fdist, limit, here, #[trigger] arcs[i])
            && entered.visited[arcs[i].nextstate as int] implies !spec_natural_less(
        here.spec_times(arcs[i].weight),
        entered.idist[arcs[i].nextstate as int],
    ) by {
        let t = arcs[i].nextstate as int;
        let way = here.spec_times(arcs[i].weight);
        let f = fdist[t];
        lemma_member(here, arcs[i].weight);
        lemma_member(way, f);
        lemma_through(p.front, fdist, t);
        if spec_natural_less(way, entered.idist[t]) {
            if f == W::spec_zero() {
                lemma_multiply(way, way, way);
            } else {
                lemma_compare_products(way, entered.idist[t], f);
                assert(no_more(p.front.through(fdist, t), turn));
                lemma_compare(p.front.through(fdist, t), turn, way.spec_times(f));
            }
        }
    }
    lemma_sifted(opts, fdist, limit, here, entered, arcs, arcs.len() as int);
    let r = sifted(opts, fdist, limit, here, entered, arcs, arcs.len() as int);
    assert(q.front == r.front);
    assert(entered.met == p.front.met && entered.idist == p.front.idist);
    assert(r.front.idist[s] == here);
    assert forall|t: int| 0 <= t < n && q.front.waits(t) implies no_more(
        turn,
        #[trigger] q.front.through(fdist, t),
    ) by {
        lemma_member(turn, turn);
        if q.front.idist[t] != p.front.idist[t] {
            let j = choose|j: int|
                0 <= j < arcs.len() && (#[trigger] arcs[j]).nextstate == t && q.front.idist[t]
                    == here.spec_times(arcs[j].weight);
            assert(no_more(turn, here.spec_times(arcs[j].weight).spec_times(fdist[t])));
        } else if p.front.met[t] {
            assert(p.front.waits(t));
            assert(no_more(turn, p.front.through(fdist, t)));
        } else {
            let zero = W::spec_zero();
            assert(p.front.idist[t] == zero);
            lemma_multiply(fdist[t], fdist[t], fdist[t]);
            lemma_compare(turn, zero, zero);
        }
    }
    assert forall|x: int, t: int|
        0 <= x < n && 0 <= t < n && q.front.visited[x] && q.front.waits(t) implies no_more(
        #[trigger] q.front.through(fdist, x),
        #[trigger] q.front.through(fdist, t),
    ) by {
        assert(q.front.idist[x] == p.front.idist[x]);
        if x != s {
            assert(no_more(p.front.through(fdist, x), p.front.through(fdist, s)));
        }
        lemma_through(p.front, fdist, x);
        lemma_through(q.front, fdist, t);
        lemma_compare(p.front.through(fdist, x), turn, q.front.through(fdist, t));
    }
    assert forall|x: int| 0 <= x < n && q.front.visited[x] implies #[trigger] is_kept_at(
        v,
        fdist,
        limit,
        q,
        x,
    ) by {
        assert(q.front.idist[x] == p.front.idist[x]);
        if x != s {
            assert(is_kept_at(v, fdist, limit, p, x));
            assert(q.states[x] == p.states[x]);
            let there = p.front.idist[x];
            assert forall|i: int|
                0 <= i < v.arcs(x).len() && is_within(
                    fdist,
                    limit,
                    there,
                    #[trigger] v.arcs(x)[i],
                ) implies {
                let arc = v.arcs(x)[i];
                &&& q.front.met[arc.nextstate as int]
                &&& no_more(q.front.idist[arc.nextstate as int], there.spec_times(arc.weight))
                &&& q.states[x].arcs.contains(arc)
            } by {
                let t = v.arcs(x)[i].nextstate as int;
                assert(v.states[x].arcs[i].nextstate < v.n());
                assert(p.front.met[t]);
                assert(entered.met[t]);
                assert(state_is_member(v.states[x]));
                lemma_member(there, v.arcs(x)[i].weight);
                lemma_compare(
                    q.front.idist[t],
                    p.front.idist[t],
                    there.spec_times(v.arcs(x)[i].weight),
                );
                assert(no_more(r.front.idist[t], entered.idist[t]));
            }
        } else {
            assert forall|i: int|
                0 <= i < v.arcs(s).len() && is_within(
                    fdist,
                    limit,
                    here,
                    #[trigger] v.arcs(s)[i],
                ) implies {
                let arc = v.arcs(s)[i];
                &&& q.front.met[arc.nextstate as int]
                &&& no_more(q.front.idist[arc.nextstate as int], here.spec_times(arc.weight))
                &&& q.states[s].arcs.contains(arc)
            } by {
                assert(arcs[i] == v.arcs(s)[i]);
            }
        }
    }
    assert forall|x: int| 0 <= x < n && #[trigger] q.front.visited[x] implies q.front.met[x] by {
        assert(entered.met[x]);
    }
    assert forall|x: int| 0 <= x < n && !(#[trigger] q.front.met[x]) implies q.front.idist[x]
        == W::spec_zero() by {
        if p.front.met[x] {
            assert(entered.met[x]);
        }
    }
    assert forall|x: int| 0 <= x < n && !q.front.visited[x] implies #[trigger] q.states[x]
        == v.states[x] by {
        assert(q.states[x] == p.states[x]);
    }
}

/// Where all flags are set, the count is that of the flags.
proof fn lemma_all_set(flags: Seq<bool>, n: int)
    requires
        0 <= n <= flags.len(),
    ensures
        rank(flags, n) <= n,
        rank(flags, n) == n ==> forall|i: int| 0 <= i < n ==> #[trigger] flags[i],
    decreases n,
{
    if n > 0 {
        lemma_all_set(flags, n - 1);
    }
}

/// The search visits every state that it meets.
proof fn lemma_search<W: Weight, F: ArcFilter<W>>(
    opts: PruneOptions<W, F>,
    v: FstV<W>,
    fdist: Seq<W>,
    limit: W,
    p: Pruning<W>,
    fuel: nat,
)
    requires
        orders_paths::<W>(),
        v.wf(),
        all_members(v),
        opts.state_threshold is None,
        forall|x: int, i: int|
            0 <= x < v.n() && 0 <= i < v.arcs(x).len() ==> opts.filter.accepts(
                #[trigger] v.arcs(x)[i],
            ),
        are_distances(v, fdist),
        spec_natural_less(limit, W::spec_zero()),
        keeps_to(v, fdist, limit, p),
        v.n() - rank(p.front.visited, v.n() as int) <= fuel,
    ensures
        ({
            let q = searched(opts, fdist, limit, p, fuel);
            &&& keeps_to(v, fdist, limit, q)
            &&& forall|t: int| 0 <= t < v.n() && p.front.met[t] ==> #[trigger] q.front.met[t]
            &&& forall|t: int| 0 <= t < v.n() && #[trigger] q.front.met[t] ==> q.front.visited[t]
            &&& forall|t: int|
                0 <= t < v.n() ==> no_more(#[trigger] q.front.idist[t], p.front.idist[t])
        }),
    decreases fuel,
{
    let n = v.n() as int;
    lemma_all_set(p.front.visited, n);
    lemma_lightest(p.front, fdist, n);
    assert forall|t: int| 0 <= t < n implies no_more(
        #[trigger] p.front.idist[t],
        p.front.idist[t],
    ) by {
        lemma_compare(p.front.idist[t], p.front.idist[t], p.front.idist[t]);
    }
    if fuel > 0 {
        match p.front.lightest(fdist, n) {
            None => {
                assert forall|t: int| 0 <= t < n && #[trigger] p.front.met[t] implies
                    p.front.visited[t] by {
                    assert(!p.front.waits(t));
                }
            },
            Some(s) => {
                lemma_visit(opts, v, fdist, limit, p, s);
                let q = visited_one(opts, fdist, limit, p, s);
                lemma_rank_set(p.front.visited, s, n);
                lemma_search(opts, v, fdist, limit, q, (fuel - 1) as nat);
                let z = searched(opts, fdist, limit, p, fuel);
                assert forall|t: int| 0 <= t < n implies no_more(
                    #[trigger] z.front.idist[t],
                    p.front.idist[t],
                ) by {
                    lemma_compare(z.front.idist[t], q.front.idist[t], p.front.idist[t]);
                }
            },
        }
    }
}

/// What comes first of a run weighs, arc after arc, times what comes after.
spec fn weighs_to<W: Weight>(run: Seq<Arc<W>>, i: int) -> W
    decreases i,
{
    if i <= 0 {
        W::spec_one()
    } else {
        weighs_to(run, i - 1).spec_times(run[i - 1].weight)
    }
}

/// A run is what comes first of it and what comes after.
proof fn lemma_run_divides<W: Weight>(run: Seq<Arc<W>>, end: W, i: int)
    requires
        orders_paths::<W>(),
        0 <= i <= run.len(),
    ensures
        weighs_to(run, i).spec_times(total(run.skip(i), end)) == total(run, end),
    decreases i,
{
    if i == 0 {
        assert(run.skip(0) =~= run);
        lemma_multiply(total(run, end), end, end);
    } else {
        lemma_run_divides(run, end, i - 1);
        let rest = run.skip(i - 1);
        assert(rest[0] == run[i - 1]);
        assert(rest.drop_first() =~= run.skip(i));
        lemma_multiply(weighs_to(run, i - 1), run[i - 1].weight, total(run.skip(i), end));
    }
}

/// The distance of a state is no more than what a run from there weighs.
proof fn lemma_distance_of_run<W: Weight>(v: FstV<W>, fdist: Seq<W>, s: int, run: Seq<Arc<W>>)
    requires
        orders_paths::<W>(),
        v.wf(),
        all_members(v),
        are_distances(v, fdist),
        is_ending(v, s, run),
    ensures
        no_more(fdist[s], total(run, v.fin(end_of(s, run)))),
        total(run, v.fin(end_of(s, run))).spec_member(),
    decreases run.len(),
{
    assert(state_is_member(v.states[s]));
    if run.len() > 0 {
        lemma_after_first(v, s, run);
        let t = run[0].nextstate as int;
        let rest = run.drop_first();
        lemma_distance_of_run(v, fdist, t, rest);
        let i = choose|i: int| 0 <= i < v.arcs(s).len() && v.arcs(s)[i] == run[0];
        let w = v.arcs(s)[i].weight;
        let after = total(rest, v.fin(end_of(s, run)));
        assert(no_more(fdist[s], w.spec_times(fdist[t])));
        lemma_compare_products(fdist[t], after, w);
        lemma_compare(fdist[s], w.spec_times(fdist[t]), w.spec_times(after));
    } else {
        assert(no_more(fdist[s], v.fin(s)));
    }
}

/// A run within the limit is kept: the search visits its states by ways that weigh no
/// more than the run up to there.
proof fn lemma_run_is_kept<W: Weight>(
    v: FstV<W>,
    fdist: Seq<W>,
    limit: W,
    p: Pruning<W>,
    run: Seq<Arc<W>>,
    i: int,
)
    requires
        orders_paths::<W>(),
        v.wf(),
        all_members(v),
        limit.spec_member(),
        is_accepting(v, run),
        are_distances(v, fdist),
        keeps_to(v, fdist, limit, p),
        forall|t: int| 0 <= t < v.n() && #[trigger] p.front.met[t] ==> p.front.visited[t],
        p.front.met[v.start->0 as int],
        no_more(p.front.idist[v.start->0 as int], W::spec_one()),
        no_more(accepted_weight(v, run), limit),
        0 <= i <= run.len(),
    ensures
        ({
            let s = v.start->0 as int;
            let at = state_at(s, run, i);
            &&& 0 <= at < v.n()
            &&& p.front.visited[at]
            &&& no_more(p.front.idist[at], weighs_to(run, i))
            &&& weighs_to(run, i).spec_member()
            &&& i > 0 ==> p.states[state_at(s, run, i - 1)].arcs.contains(run[i - 1])
        }),
    decreases i,
{
    let s = v.start->0 as int;
    let end = v.fin(end_of(s, run));
    lemma_run_stays(v, s, run, i);
    lemma_member(end, end);
    if i > 0 {
        lemma_run_is_kept(v, fdist, limit, p, run, i - 1);
        let at = state_at(s, run, i - 1);
        let arc = run[i - 1];
        let t = arc.nextstate as int;
        let here = p.front.idist[at];
        let before = weighs_to(run, i - 1);
        assert(is_kept_at(v, fdist, limit, p, at));
        assert(steps(v, s, run, i - 1));
        let k = choose|k: int| 0 <= k < v.arcs(at).len() && v.arcs(at)[k] == arc;
        assert(state_is_member(v.states[at]));
        // The way there is no more than the run up to there.
        lemma_compare_products(here, before, arc.weight);
        let way = here.spec_times(arc.weight);
        let upto = before.spec_times(arc.weight);
        // What is left is no less than the distance.
        let rest = run.skip(i);
        assert(is_ending(v, t, rest)) by {
            assert forall|j: int| 0 <= j < rest.len() implies #[trigger] steps(v, t, rest, j) by {
                assert(steps(v, s, run, i + j));
                assert(state_at(s, run, i + j) == state_at(t, rest, j));
            }
            if rest.len() > 0 {
                assert(rest[rest.len() - 1] == run[run.len() - 1]);
            }
            assert(end_of(t, rest) == end_of(s, run));
        }
        assert(end_of(t, rest) == end_of(s, run)) by {
            if rest.len() > 0 {
                assert(rest[rest.len() - 1] == run[run.len() - 1]);
            }
        }
        lemma_distance_of_run(v, fdist, t, rest);
        let after = total(rest, end);
        lemma_run_divides(run, end, i);
        lemma_compare_products(way, upto, fdist[t]);
        lemma_compare_products(fdist[t], after, upto);
        lemma_compare(way.spec_times(fdist[t]), upto.spec_times(fdist[t]), upto.spec_times(after));
        lemma_compare(way.spec_times(fdist[t]), upto.spec_times(after), limit);
        assert(is_within(fdist, limit, here, v.arcs(at)[k]));
        lemma_compare(p.front.idist[t], way, upto);
    } else {
        assert(p.front.visited[s]);
    }
}

/// The run of what the kept states span that follows a run.
pub open spec fn spanned_run<W: Weight>(keep: Seq<bool>, run: Seq<Arc<W>>) -> Seq<Arc<W>> {
    Seq::new(
        run.len(),
        |i: int| Arc { nextstate: rank(keep, run[i].nextstate as int) as usize, ..run[i] },
    )
}

/// A run through kept states is still there.
proof fn lemma_spanned<W: Weight>(v: FstV<W>, keep: Seq<bool>, run: Seq<Arc<W>>)
    requires
        v.n() <= usize::MAX,
        keep.len() == v.n(),
        is_accepting(v, run),
        forall|i: int|
            0 <= i <= run.len() ==> {
                let at = #[trigger] state_at(v.start->0 as int, run, i);
                0 <= at < v.n() && keep[at]
            },
    ensures
        is_accepting(restricted(v, keep), spanned_run(keep, run)),
        accepted_weight(restricted(v, keep), spanned_run(keep, run)) == accepted_weight(v, run),
{
    let s = v.start->0 as int;
    let n = v.n() as int;
    let r = restricted(v, keep);
    let kept = spanned_run(keep, run);
    assert(state_at(s, run, 0) == s);
    lemma_kept_state_at(v.states, keep, s, n);
    lemma_rank_monotone(keep, 0, s);
    let start = rank(keep, s) as int;
    assert(r.start->0 == start);
    assert forall|i: int| 0 <= i < kept.len() implies #[trigger] steps(r, start, kept, i) by {
        assert(steps(v, s, run, i));
        let x = state_at(s, run, i);
        let y = run[i].nextstate as int;
        assert(state_at(s, run, i + 1) == y);
        lemma_kept_state_at(v.states, keep, x, n);
        lemma_rank_monotone(keep, 0, x);
        let a = choose|a: int| 0 <= a < v.arcs(x).len() && v.arcs(x)[a] == run[i];
        let j = lemma_kept_arc(v.arcs(x), keep, a, v.arcs(x).len() as int);
        assert(r.arcs(rank(keep, x) as int)[j] == kept[i]);
        assert(state_at(start, kept, i) == rank(keep, x));
    }
    let x = end_of(s, run);
    assert(state_at(s, run, run.len() as int) == x);
    lemma_kept_state_at(v.states, keep, x, n);
    lemma_rank_monotone(keep, 0, x);
    assert(end_of(start, kept) == rank(keep, x));
    lemma_alike(kept, run, v.fin(x));
}

/// Pruning keeps every path within the threshold: for each run that the machine accepts
/// along and that weighs no more than the limit, the pruned machine accepts along one that
/// reads and writes the same and weighs the same.
///
/// All weights have to be in the semiring, the order one that multiplying keeps, the
/// distances no more than what any way on weighs, and the limit less than the sum of
/// nothing; no number of states may have been set, and every arc has to be considered.
pub proof fn law_pruning_keeps_what_is_within<W: Weight, F: ArcFilter<W>>(
    opts: PruneOptions<W, F>,
    v: FstV<W>,
    fdist: Seq<W>,
    run: Seq<Arc<W>>,
) -> (kept: Seq<Arc<W>>)
    requires
        orders_paths::<W>(),
        v.wf(),
        v.n() <= usize::MAX,
        all_members(v),
        opts.weight_threshold.spec_member(),
        opts.state_threshold is None,
        forall|x: int, i: int|
            0 <= x < v.n() && 0 <= i < v.arcs(x).len() ==> opts.filter.accepts(
                #[trigger] v.arcs(x)[i],
            ),
        are_distances(v, fdist),
        is_accepting(v, run),
        fdist[v.start->0 as int] != W::spec_zero(),
        spec_natural_less(limit_of(opts, fdist[v.start->0 as int]), W::spec_zero()),
        no_more(accepted_weight(v, run), limit_of(opts, fdist[v.start->0 as int])),
    ensures
        is_accepting(pruned(opts, v, fdist), kept),
        reads(kept) == reads(run),
        writes(kept) == writes(run),
        accepted_weight(pruned(opts, v, fdist), kept) == accepted_weight(v, run),
{
    let s = v.start->0 as int;
    let n = v.n() as int;
    let limit = limit_of(opts, fdist[s]);
    let one = W::spec_one();
    lemma_distance_of_run(v, fdist, s, run);
    lemma_member(opts.weight_threshold, fdist[s]);
    lemma_member(fdist[s], opts.weight_threshold);
    lemma_compare(fdist[s], accepted_weight(v, run), limit);
    let begins = !spec_natural_less(limit, fdist[s]);
    let first = Pruning { front: front_at::<W>(v.n(), s, begins), states: v.states };
    assert(keeps_to(v, fdist, limit, first));
    lemma_search(opts, v, fdist, limit, first, v.n());
    let p = searched(opts, fdist, limit, first, v.n());
    assert(first.front.met[s]);
    assert(first.front.idist[s] == one);
    assert(p.front.met[s]);
    assert(no_more(p.front.idist[s], first.front.idist[s]));
    let left = v.with_states(p.states);
    assert forall|i: int| 0 <= i <= run.len() implies {
        let at = #[trigger] state_at(s, run, i);
        0 <= at < v.n() && p.front.visited[at]
    } by {
        lemma_run_is_kept(v, fdist, limit, p, run, i);
    }
    assert forall|i: int| 0 <= i < run.len() implies #[trigger] steps(left, s, run, i) by {
        lemma_run_is_kept(v, fdist, limit, p, run, i + 1);
        lemma_run_stays(v, s, run, i);
    }
    let x = end_of(s, run);
    lemma_run_is_kept(v, fdist, limit, p, run, run.len() as int);
    lemma_run_divides(run, v.fin(x), run.len() as int);
    assert(run.skip(run.len() as int).len() == 0);
    lemma_run_stays(v, s, run, run.len() as int);
    assert(state_is_member(v.states[x]));
    lemma_compare_products(p.front.idist[x], weighs_to(run, run.len() as int), v.fin(x));
    lemma_compare(
        p.front.idist[x].spec_times(v.fin(x)),
        accepted_weight(v, run),
        limit,
    );
    assert(is_kept_at(v, fdist, limit, p, x));
    assert(left.fin(x) == v.fin(x));
    lemma_spanned(left, p.front.visited, run);
    let kept = spanned_run(p.front.visited, run);
    lemma_alike(kept, run, v.fin(x));
    kept
}

} // verus!
