//! Pruning in place and pruning into a copy leave the same.
use crate::arc::Arc;
use crate::arc_filter::ArcFilter;
use crate::connect::{lemma_kept_state_at, lemma_rank_onto};
use crate::prune::{
    becomes, copied, copied_all, copied_one, copy_start, distance_at, front_at, grown,
    lemma_rank_set, limit_of, pruned, pruned_copy, searched, sifted, visited_one, with_copied,
    with_met, Copying, FrontV, PruneOptions, Pruning,
};
use crate::vector_fst::{kept_arcs, lemma_kept_states_len, lemma_rank_monotone, rank, FstV, StateV};
use crate::weight::{spec_natural_less, Weight};
use vstd::prelude::*;

verus! {

/// Whether a state has become one of the copy.
pub open spec fn is_copied(copy: Seq<Option<usize>>, s: int) -> bool {
    0 <= s < copy.len() && copy[s] is Some
}

/// Whether an arc of the copy is an arc that was kept.
pub open spec fn is_copy_of<W: Weight>(
    copy: Seq<Option<usize>>,
    made: Arc<W>,
    arc: Arc<W>,
) -> bool {
    is_copied(copy, arc.nextstate as int) && made == (Arc {
        nextstate: copy[arc.nextstate as int]->0,
        ..arc
    })
}

/// Whether a state of the copy is what is left of a state.
pub open spec fn is_state_copy<W: Weight>(
    copy: Seq<Option<usize>>,
    made: StateV<W>,
    state: StateV<W>,
) -> bool {
    &&& made.final_weight == state.final_weight
    &&& made.arcs.len() == state.arcs.len()
    &&& forall|j: int|
        0 <= j < state.arcs.len() ==> is_copy_of(copy, #[trigger] made.arcs[j], state.arcs[j])
}

/// Whether the search in place and the search that copies have come equally far.
spec fn are_abreast<W: Weight>(v: FstV<W>, p: Pruning<W>, c: Copying<W>) -> bool {
    let n = v.n();
    &&& p.front == c.front
    &&& p.front.sized(n)
    &&& p.states.len() == n
    &&& c.states.len() == rank(p.front.met, n as int)
    &&& forall|s: int| 0 <= s < n && #[trigger] p.front.visited[s] ==> p.front.met[s]
    &&& forall|s: int| 0 <= s < n ==> (#[trigger] p.front.met[s] <==> is_copied(c.copy, s))
    &&& c.copy.len() <= n
    &&& forall|s: int|
        0 <= s < n && #[trigger] p.front.met[s] ==> c.copy[s]->0 < c.states.len()
    &&& forall|s: int, t: int|
        0 <= s < n && 0 <= t < n && s != t && #[trigger] p.front.met[s] && #[trigger] p.front.met[t]
            ==> c.copy[s]->0 != c.copy[t]->0
    &&& forall|s: int|
        0 <= s < n && !(#[trigger] p.front.visited[s]) ==> p.states[s] == v.states[s]
    &&& forall|s: int|
        0 <= s < n && #[trigger] p.front.met[s] && !p.front.visited[s]
            ==> c.states[c.copy[s]->0 as int] == StateV::<W>::fresh()
    &&& forall|s: int|
        0 <= s < n && #[trigger] p.front.visited[s] ==> is_state_copy(
            c.copy,
            c.states[c.copy[s]->0 as int],
            p.states[s],
        )
}

proof fn lemma_lightest_waits<W: Weight>(front: FrontV<W>, fdist: Seq<W>, k: int)
    requires
        0 <= k,
    ensures
        front.lightest(fdist, k) matches Some(b) ==> 0 <= b < k && front.waits(b),
        front.lightest(fdist, k) is None ==> forall|b: int|
            0 <= b < k ==> !(#[trigger] front.waits(b)),
    decreases k,
{
    if k > 0 {
        lemma_lightest_waits(front, fdist, k - 1);
    }
}

/// The search in place while the first `k` arcs of `s` have been looked at.
spec fn sifting<W: Weight, F: ArcFilter<W>>(
    opts: PruneOptions<W, F>,
    v: FstV<W>,
    fdist: Seq<W>,
    limit: W,
    p: Pruning<W>,
    s: int,
    k: int,
) -> Pruning<W> {
    let here = p.front.idist[s];
    let entered = FrontV { visited: p.front.visited.update(s, true), ..p.front };
    let r = sifted(opts, fdist, limit, here, entered, v.arcs(s), k);
    Pruning {
        front: r.front,
        states: p.states.update(
            s,
            StateV {
                final_weight: if spec_natural_less(limit, here.spec_times(v.fin(s))) {
                    W::spec_zero()
                } else {
                    v.fin(s)
                },
                arcs: r.kept,
            },
        ),
    }
}

/// The search that copies, `s` having been entered.
spec fn entering<W: Weight>(v: FstV<W>, limit: W, c: Copying<W>, s: int) -> Copying<W> {
    let here = c.front.idist[s];
    let from = c.copy[s]->0 as int;
    Copying {
        front: FrontV { visited: c.front.visited.update(s, true), ..c.front },
        states: if spec_natural_less(limit, here.spec_times(v.fin(s))) {
            c.states
        } else {
            c.states.update(from, StateV { final_weight: v.fin(s), ..c.states[from] })
        },
        ..c
    }
}

#[verifier::spinoff_prover]
#[verifier::rlimit(60)]
proof fn lemma_arc_abreast<W: Weight>(
    v: FstV<W>,
    p: Pruning<W>,
    c: Copying<W>,
    s: int,
    arc: Arc<W>,
    way: W,
)
    requires
        v.n() <= usize::MAX,
        are_abreast(v, p, c),
        0 <= s < v.n(),
        p.front.visited[s],
        arc.nextstate < v.n(),
    ensures
        are_abreast(
            v,
            Pruning {
                front: with_met(
                    p.front.improved(arc.nextstate as int, way),
                    None,
                    arc.nextstate as int,
                ),
                states: p.states.update(
                    s,
                    StateV { arcs: p.states[s].arcs.push(arc), ..p.states[s] },
                ),
            },
            with_copied(c, c.copy[s]->0 as int, arc, way),
        ),
        with_copied(c, c.copy[s]->0 as int, arc, way).copy[s] == c.copy[s],
{
    let n = v.n() as int;
    let next = arc.nextstate as int;
    let from = c.copy[s]->0 as int;
    let front = with_met(p.front.improved(next, way), None, next);
    let q = Pruning {
        front,
        states: p.states.update(s, StateV { arcs: p.states[s].arcs.push(arc), ..p.states[s] }),
    };
    let d = with_copied(c, from, arc, way);
    let to = becomes(c.copy, next, c.states.len());
    assert(p.front.met[s]);
    lemma_rank_monotone(p.front.met, 0, n);
    // The fronts stay the same.
    assert(front.met =~= p.front.met.update(next, true)) by {
        if p.front.visited[next] {
            assert(p.front.met[next]);
        }
    }
    assert(d.front.met =~= front.met);
    assert(d.front =~= front);
    let wide = grown(c.copy, next);
    assert(wide[next] is Some <==> p.front.met[next]) by {
        if p.front.met[next] {
            assert(is_copied(c.copy, next));
        } else {
            assert(!is_copied(c.copy, next));
        }
    }
    if !p.front.met[next] {
        lemma_rank_set(p.front.met, next, n);
        assert(d.states.len() == c.states.len() + 1);
    } else {
        assert(p.front.met.update(next, true) =~= p.front.met);
        assert(d.states.len() == c.states.len());
        assert(is_copied(c.copy, next));
    }
    // Each state that had a copy keeps it.
    assert forall|t: int| 0 <= t < n && #[trigger] p.front.met[t] implies is_copied(d.copy, t)
        && d.copy[t] == c.copy[t] by {
        assert(is_copied(c.copy, t));
    }
    assert(d.copy[s] == c.copy[s]);
    assert forall|t: int| 0 <= t < n implies (#[trigger] front.met[t] <==> is_copied(d.copy, t)) by {
        assert(p.front.met[t] <==> is_copied(c.copy, t));
    }
    assert forall|t: int| 0 <= t < n && #[trigger] front.met[t] implies d.copy[t]->0
        < d.states.len() by {
        if t != next || p.front.met[next] {
            assert(p.front.met[t]);
        }
    }
    assert forall|t: int, u: int|
        0 <= t < n && 0 <= u < n && t != u && #[trigger] front.met[t]
            && #[trigger] front.met[u] implies d.copy[t]->0 != d.copy[u]->0 by {
        if t != next || p.front.met[next] {
            assert(p.front.met[t]);
        }
        if u != next || p.front.met[next] {
            assert(p.front.met[u]);
        }
    }
    assert forall|t: int| 0 <= t < n && #[trigger] front.visited[t] implies is_state_copy(
        d.copy,
        d.states[d.copy[t]->0 as int],
        q.states[t],
    ) by {
        assert(p.front.visited[t]);
        assert(p.front.met[t]);
        let was = c.states[c.copy[t]->0 as int];
        assert(is_state_copy(c.copy, was, p.states[t]));
        let made = d.states[d.copy[t]->0 as int];
        assert forall|j: int| 0 <= j < q.states[t].arcs.len() implies is_copy_of(
            d.copy,
            #[trigger] made.arcs[j],
            q.states[t].arcs[j],
        ) by {
            if j < p.states[t].arcs.len() {
                assert(is_copy_of(c.copy, was.arcs[j], p.states[t].arcs[j]));
                let there = p.states[t].arcs[j].nextstate as int;
                assert(is_copied(c.copy, there));
                assert(p.front.met[there]);
            } else {
                assert(t == s);
                assert(front.met[next]);
            }
        }
    }
    assert forall|t: int| 0 <= t < n && #[trigger] front.met[t] && !front.visited[t] implies d.states[
    d.copy[t]->0 as int] == StateV::<W>::fresh() by {
        if t != next || p.front.met[next] {
            assert(p.front.met[t]);
            assert(c.copy[t]->0 != c.copy[s]->0);
        }
    }
    assert forall|t: int| 0 <= t < n && !(#[trigger] front.visited[t]) implies q.states[t]
        == v.states[t] by {
        assert(!p.front.visited[t]);
    }
}

proof fn lemma_arcs_abreast<W: Weight, F: ArcFilter<W>>(
    opts: PruneOptions<W, F>,
    v: FstV<W>,
    fdist: Seq<W>,
    limit: W,
    p: Pruning<W>,
    c: Copying<W>,
    s: int,
    k: int,
)
    requires
        v.wf(),
        v.n() <= usize::MAX,
        opts.state_threshold is None,
        forall|i: int| 0 <= i < v.arcs(s).len() ==> opts.filter.accepts(#[trigger] v.arcs(s)[i]),
        are_abreast(v, p, c),
        0 <= s < v.n(),
        p.front.waits(s),
        0 <= k <= v.arcs(s).len(),
    ensures
        ({
            let made = copied(
                opts,
                fdist,
                limit,
                c.front.idist[s],
                c.copy[s]->0 as int,
                entering(v, limit, c, s),
                v.arcs(s),
                k,
            );
            let q = sifting(opts, v, fdist, limit, p, s, k);
            are_abreast(v, q, made) && made.copy[s] == c.copy[s] && q.front.visited[s]
        }),
    decreases k,
{
    let here = c.front.idist[s];
    let from = c.copy[s]->0 as int;
    let n = v.n() as int;
    assert(p.front.met[s]);
    assert(is_copied(c.copy, s));
    if k == 0 {
        let q = sifting(opts, v, fdist, limit, p, s, 0);
        let made = entering(v, limit, c, s);
        assert(p.states[s] == v.states[s]);
        assert(c.states[from] == StateV::<W>::fresh());
        assert forall|t: int| 0 <= t < n && #[trigger] q.front.visited[t] implies is_state_copy(
            made.copy,
            made.states[made.copy[t]->0 as int],
            q.states[t],
        ) by {
            if t != s {
                assert(p.front.visited[t]);
                assert(p.front.met[t]);
                assert(c.copy[t]->0 != c.copy[s]->0);
            }
        }
        assert forall|t: int|
            0 <= t < n && #[trigger] q.front.met[t] && !q.front.visited[t] implies made.states[
        made.copy[t]->0 as int] == StateV::<W>::fresh() by {
            assert(p.front.met[t] && !p.front.visited[t]);
            assert(c.copy[t]->0 != c.copy[s]->0);
        }
        assert forall|t: int| 0 <= t < n && !(#[trigger] q.front.visited[t]) implies q.states[t]
            == v.states[t] by {
            assert(!p.front.visited[t]);
        }
        assert forall|t: int| 0 <= t < n && #[trigger] q.front.visited[t] implies q.front.met[t] by {
            if t != s {
                assert(p.front.visited[t]);
            }
        }
    } else {
        lemma_arcs_abreast(opts, v, fdist, limit, p, c, s, k - 1);
        let arc = v.arcs(s)[k - 1];
        assert(opts.filter.accepts(v.arcs(s)[k - 1]));
        assert(v.states[s].arcs[k - 1].nextstate < v.n());
        let way = here.spec_times(arc.weight);
        let before = sifting(opts, v, fdist, limit, p, s, k - 1);
        let half = copied(
            opts,
            fdist,
            limit,
            here,
            from,
            entering(v, limit, c, s),
            v.arcs(s),
            k - 1,
        );
        if !spec_natural_less(
            limit,
            way.spec_times(distance_at(fdist, arc.nextstate as int)),
        ) {
            lemma_arc_abreast(v, before, half, s, arc, way);
            let q = sifting(opts, v, fdist, limit, p, s, k);
            assert(q.states =~= before.states.update(
                s,
                StateV { arcs: before.states[s].arcs.push(arc), ..before.states[s] },
            ));
        } else {
            assert(sifting(opts, v, fdist, limit, p, s, k) == before);
        }
    }
}

proof fn lemma_search_abreast<W: Weight, F: ArcFilter<W>>(
    opts: PruneOptions<W, F>,
    v: FstV<W>,
    fdist: Seq<W>,
    limit: W,
    p: Pruning<W>,
    c: Copying<W>,
    fuel: nat,
)
    requires
        v.wf(),
        v.n() <= usize::MAX,
        opts.state_threshold is None,
        forall|x: int, i: int|
            0 <= x < v.n() && 0 <= i < v.arcs(x).len() ==> opts.filter.accepts(
                #[trigger] v.arcs(x)[i],
            ),
        are_abreast(v, p, c),
        fuel + rank(p.front.visited, v.n() as int) >= v.n(),
    ensures
        ({
            let q = searched(opts, fdist, limit, p, fuel);
            let made = copied_all(opts, v, fdist, limit, c, fuel);
            &&& are_abreast(v, q, made)
            &&& forall|s: int| 0 <= s < v.n() ==> !(#[trigger] q.front.waits(s))
            &&& forall|s: int|
                0 <= s < v.n() && #[trigger] p.front.met[s] ==> q.front.met[s] && made.copy[s]
                    == c.copy[s]
        }),
    decreases fuel,
{
    let n = v.n() as int;
    lemma_lightest_waits(p.front, fdist, n);
    if fuel == 0 {
        assert forall|s: int| 0 <= s < v.n() implies !(#[trigger] p.front.waits(s)) by {
            if !p.front.visited[s] {
                lemma_rank_room(p.front.visited, s, n);
            }
        }
    } else if let Some(s) = p.front.lightest(fdist, n) {
        let k = v.arcs(s).len() as int;
        assert forall|i: int| 0 <= i < v.arcs(s).len() implies opts.filter.accepts(
            #[trigger] v.arcs(s)[i],
        ) by {}
        lemma_arcs_abreast(opts, v, fdist, limit, p, c, s, k);
        let q = visited_one(opts, fdist, limit, p, s);
        assert(p.states[s] == v.states[s]);
        assert(q == sifting(opts, v, fdist, limit, p, s, k));
        let made = copied_one(opts, v, fdist, limit, c, s);
        lemma_rank_set(p.front.visited, s, n);
        lemma_visited_stays(
            opts,
            fdist,
            limit,
            p.front.idist[s],
            FrontV { visited: p.front.visited.update(s, true), ..p.front },
            v.arcs(s),
            k,
        );
        lemma_copies_stay(
            opts,
            fdist,
            limit,
            c.front.idist[s],
            c.copy[s]->0 as int,
            entering(v, limit, c, s),
            v.arcs(s),
            k,
        );
        lemma_search_abreast(opts, v, fdist, limit, q, made, (fuel - 1) as nat);
        let last = searched(opts, fdist, limit, p, fuel);
        let end = copied_all(opts, v, fdist, limit, c, fuel);
        assert forall|t: int| 0 <= t < v.n() && #[trigger] p.front.met[t] implies last.front.met[t]
            && end.copy[t] == c.copy[t] by {
            assert(is_copied(c.copy, t));
            assert(is_copied(entering(v, limit, c, s).copy, t));
            assert(is_copied(made.copy, t) && made.copy[t] == c.copy[t]);
            assert(q.front.met[t]);
        }
    }
}

/// Looking at arcs visits no state.
proof fn lemma_visited_stays<W: Weight, F: ArcFilter<W>>(
    opts: PruneOptions<W, F>,
    fdist: Seq<W>,
    limit: W,
    here: W,
    front: FrontV<W>,
    arcs: Seq<Arc<W>>,
    k: int,
)
    ensures
        sifted(opts, fdist, limit, here, front, arcs, k).front.visited == front.visited,
    decreases k,
{
    if k > 0 {
        lemma_visited_stays(opts, fdist, limit, here, front, arcs, k - 1);
    }
}

/// Copying arcs keeps the copies there are.
proof fn lemma_copies_stay<W: Weight, F: ArcFilter<W>>(
    opts: PruneOptions<W, F>,
    fdist: Seq<W>,
    limit: W,
    here: W,
    from: int,
    c: Copying<W>,
    arcs: Seq<Arc<W>>,
    k: int,
)
    ensures
        forall|t: int|
            #[trigger] is_copied(c.copy, t) ==> is_copied(
                copied(opts, fdist, limit, here, from, c, arcs, k).copy,
                t,
            ) && copied(opts, fdist, limit, here, from, c, arcs, k).copy[t] == c.copy[t],
    decreases k,
{
    if k > 0 {
        lemma_copies_stay(opts, fdist, limit, here, from, c, arcs, k - 1);
    }
}

/// Where a flag is not set there is room for one more.
proof fn lemma_rank_room(flags: Seq<bool>, s: int, n: int)
    requires
        0 <= s < n <= flags.len(),
        !flags[s],
    ensures
        rank(flags, n) < n,
    decreases n,
{
    lemma_rank_monotone(flags, 0, n - 1);
    if s < n - 1 {
        lemma_rank_room(flags, s, n - 1);
    }
}

/// Whether two machines are the same but for the numbers of their states: `to` tells which
/// state of the second each state of the first is.
pub open spec fn are_the_same<W: Weight>(a: FstV<W>, b: FstV<W>, to: Seq<int>) -> bool {
    &&& to.len() == a.n()
    &&& a.n() == b.n()
    &&& forall|x: int| 0 <= x < to.len() ==> 0 <= #[trigger] to[x] < b.n()
    &&& forall|x: int, y: int| 0 <= x < y < to.len() ==> to[x] != to[y]
    &&& a.start matches Some(s) ==> s < a.n() && b.start == Some(to[s as int] as usize)
    &&& forall|x: int| 0 <= x < a.n() ==> #[trigger] a.fin(x) == b.fin(to[x])
    &&& forall|x: int| 0 <= x < a.n() ==> (#[trigger] a.arcs(x)).len() == b.arcs(to[x]).len()
    &&& forall|x: int, j: int|
        0 <= x < a.n() && 0 <= j < a.arcs(x).len() ==> {
            let here = #[trigger] a.arcs(x)[j];
            let there = b.arcs(to[x])[j];
            &&& here.ilabel == there.ilabel
            &&& here.olabel == there.olabel
            &&& here.weight == there.weight
            &&& here.nextstate < a.n()
            &&& to[here.nextstate as int] == there.nextstate
        }
}

/// Where all arcs lead to states that are kept, keeping them only numbers them anew.
proof fn lemma_all_arcs_kept<W: Weight>(arcs: Seq<Arc<W>>, keep: Seq<bool>, k: int)
    requires
        0 <= k <= arcs.len(),
        forall|i: int| 0 <= i < arcs.len() ==> keep[(#[trigger] arcs[i]).nextstate as int],
    ensures
        kept_arcs(arcs, keep, k).len() == k,
        forall|i: int|
            0 <= i < k ==> #[trigger] kept_arcs(arcs, keep, k)[i] == (Arc {
                nextstate: rank(keep, arcs[i].nextstate as int) as usize,
                ..arcs[i]
            }),
    decreases k,
{
    if k > 0 {
        lemma_all_arcs_kept(arcs, keep, k - 1);
    }
}

/// Pruning into a copy leaves what pruning in place leaves, but for the numbers of the
/// states, where every arc is considered and as many states may be kept as there are.
#[verifier::spinoff_prover]
#[verifier::rlimit(40)]
pub proof fn law_pruning_into_a_copy_is_pruning<W: Weight, F: ArcFilter<W>>(
    opts: PruneOptions<W, F>,
    v: FstV<W>,
    fdist: Seq<W>,
    o: FstV<W>,
) -> (to: Seq<int>)
    requires
        v.wf(),
        v.n() <= usize::MAX,
        v.start is Some,
        opts.state_threshold is None,
        forall|x: int, i: int|
            0 <= x < v.n() && 0 <= i < v.arcs(x).len() ==> opts.filter.accepts(
                #[trigger] v.arcs(x)[i],
            ),
        fdist.len() == v.n(),
        fdist[v.start->0 as int] != W::spec_zero(),
        !spec_natural_less(
            limit_of(opts, fdist[v.start->0 as int]),
            fdist[v.start->0 as int],
        ),
        o.start == Some(0usize),
        o.states == pruned_copy(opts, v, fdist).states,
    ensures
        are_the_same(pruned(opts, v, fdist), o, to),
{
    let start = v.start->0 as int;
    let n = v.n() as int;
    let limit = limit_of(opts, fdist[start]);
    let p = Pruning { front: front_at::<W>(v.n(), start, true), states: v.states };
    let c = copy_start::<W>(v.n(), start);
    lemma_rank_none(Seq::new(v.n(), |s: int| false), n);
    assert(p.front.met =~= Seq::new(v.n(), |s: int| false).update(start, true));
    lemma_rank_set(Seq::new(v.n(), |s: int| false), start, n);
    assert(are_abreast(v, p, c));
    lemma_search_abreast(opts, v, fdist, limit, p, c, v.n());
    let q = searched(opts, fdist, limit, p, v.n());
    let made = copied_all(opts, v, fdist, limit, c, v.n());
    assert(made == pruned_copy(opts, v, fdist));
    let keep = q.front.visited;
    let a = pruned(opts, v, fdist);
    assert(p.front.met[start]);
    assert(q.front.met[start]);
    assert(keep =~= q.front.met) by {
        assert forall|s: int| 0 <= s < n implies keep[s] == q.front.met[s] by {
            assert(!q.front.waits(s));
            if keep[s] {
                assert(q.front.visited[s]);
            }
        }
    }
    lemma_kept_states_len(q.states, keep, n);
    assert(a.n() == rank(keep, n));
    let to = Seq::new(a.n(), |x: int| made.copy[state_of(keep, n, x)]->0 as int);
    assert forall|x: int| 0 <= x < a.n() implies {
        let s = #[trigger] state_of(keep, n, x);
        &&& 0 <= s < n
        &&& keep[s]
        &&& rank(keep, s) == x
        &&& to[x] == made.copy[s]->0
        &&& q.front.visited[s]
        &&& q.front.met[s]
    } by {
        let s = lemma_rank_onto(keep, n, x);
        assert(0 <= s < n && keep[s] && rank(keep, s) == x);
    }
    assert forall|s: int| 0 <= s < n && keep[s] implies 0 <= #[trigger] rank(keep, s) < a.n()
        && state_of(keep, n, rank(keep, s) as int) == s by {
        lemma_rank_monotone(keep, 0, s);
        lemma_kept_state_at(q.states, keep, s, n);
        let t = state_of(keep, n, rank(keep, s) as int);
        assert(rank(keep, t) == rank(keep, s));
        if s < t {
            lemma_rank_monotone(keep, s + 1, t);
        } else if t < s {
            lemma_rank_monotone(keep, t + 1, s);
        }
    }
    assert forall|x: int| 0 <= x < to.len() implies 0 <= #[trigger] to[x] < o.n() by {
        let s = state_of(keep, n, x);
        assert(q.front.met[s]);
    }
    assert forall|x: int, y: int| 0 <= x < y < to.len() implies to[x] != to[y] by {
        let s = state_of(keep, n, x);
        let t = state_of(keep, n, y);
        assert(rank(keep, s) == x && rank(keep, t) == y);
        assert(q.front.met[s] && q.front.met[t]);
    }
    assert forall|x: int| 0 <= x < a.n() implies #[trigger] a.fin(x) == o.fin(to[x]) && a.arcs(
        x,
    ).len() == o.arcs(to[x]).len() && forall|j: int|
        0 <= j < a.arcs(x).len() ==> {
            let here = #[trigger] a.arcs(x)[j];
            let there = o.arcs(to[x])[j];
            &&& here.ilabel == there.ilabel
            &&& here.olabel == there.olabel
            &&& here.weight == there.weight
            &&& here.nextstate < a.n()
            &&& to[here.nextstate as int] == there.nextstate
        } by {
        let s = state_of(keep, n, x);
        assert(rank(keep, s) == x);
        lemma_kept_state_at(q.states, keep, s, n);
        assert(q.front.visited[s]);
        assert(is_state_copy(made.copy, made.states[made.copy[s]->0 as int], q.states[s]));
        let arcs = q.states[s].arcs;
        let there = made.states[made.copy[s]->0 as int].arcs;
        assert forall|i: int| 0 <= i < arcs.len() implies keep[(
        #[trigger] arcs[i]).nextstate as int] && 0 <= arcs[i].nextstate < n by {
            assert(is_copy_of(made.copy, there[i], arcs[i]));
            let t = arcs[i].nextstate as int;
            assert(is_copied(made.copy, t));
            assert(q.front.met[t]);
        }
        lemma_all_arcs_kept(arcs, keep, arcs.len() as int);
        assert forall|j: int| 0 <= j < a.arcs(x).len() implies {
            let here = #[trigger] a.arcs(x)[j];
            let other = o.arcs(to[x])[j];
            &&& here.ilabel == other.ilabel
            &&& here.olabel == other.olabel
            &&& here.weight == other.weight
            &&& here.nextstate < a.n()
            &&& to[here.nextstate as int] == other.nextstate
        } by {
            assert(is_copy_of(made.copy, there[j], arcs[j]));
            let t = arcs[j].nextstate as int;
            assert(keep[t]);
            let r = rank(keep, t) as int;
            assert(state_of(keep, n, r) == t);
            lemma_rank_monotone(keep, 0, t);
            lemma_rank_monotone(keep, t, n);
        }
    }
    assert forall|x: int, j: int| 0 <= x < a.n() && 0 <= j < a.arcs(x).len() implies {
        let here = #[trigger] a.arcs(x)[j];
        let there = o.arcs(to[x])[j];
        &&& here.ilabel == there.ilabel
        &&& here.olabel == there.olabel
        &&& here.weight == there.weight
        &&& here.nextstate < a.n()
        &&& to[here.nextstate as int] == there.nextstate
    } by {
        assert(a.fin(x) == o.fin(to[x]));
    }
    assert forall|x: int| 0 <= x < a.n() implies (#[trigger] a.arcs(x)).len() == o.arcs(
        to[x],
    ).len() by {
        assert(a.fin(x) == o.fin(to[x]));
    }
    assert(a.start == Some(rank(keep, start) as usize)) by {
        lemma_rank_monotone(keep, 0, start);
        lemma_rank_monotone(keep, start, n);
    }
    assert(state_of(keep, n, rank(keep, start) as int) == start);
    assert(c.copy[start] == Some(0usize));
    assert(made.copy[start] == Some(0usize));
    lemma_rank_monotone(keep, 0, start);
    lemma_rank_monotone(keep, start, n);
    to
}

/// The state that the `x`th state that is kept was.
spec fn state_of(keep: Seq<bool>, n: int, x: int) -> int {
    choose|s: int| 0 <= s < n && #[trigger] keep[s] && rank(keep, s) == x
}

/// Where no flag is set, none counts.
proof fn lemma_rank_none(flags: Seq<bool>, n: int)
    requires
        0 <= n <= flags.len(),
        forall|s: int| 0 <= s < flags.len() ==> !#[trigger] flags[s],
    ensures
        rank(flags, n) == 0,
    decreases n,
{
    if n > 0 {
        lemma_rank_none(flags, n - 1);
    }
}

} // verus!
