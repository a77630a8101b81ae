//! What the arcs that stand for others add up, whatever the semiring: each arc, once.
use crate::all_paths::{
    add_up, are_all_members, law_distances_add_up_all_paths, lemma_distribute, lists_paths,
    sums_distribute, weights_of,
};
use crate::arc::Arc;
use crate::path_sums::{closeness_is_equality, lemma_settled};
use crate::push_sums::{
    lemma_behind_is_member, lemma_nothing, lemma_stays, stays_inside, zero_is_nothing,
};
use crate::rmepsilon::{
    are_closures, closure_arcs, closure_final, epsilon_part, is_entered, is_epsilon, place_of,
    with_added, with_all_added, without_epsilons,
};
use crate::rmepsilon_laws::{is_like, lemma_epsilon_part, lemma_place_of};
use crate::shortest_distance::is_distance;
use crate::vector_fst::{all_members, state_is_member, FstV};
use crate::weight::Weight;
use vstd::prelude::*;

verus! {

/// Whether state `at.0`, as far away as `d` says, has an `at.1`th arc that reads or writes.
pub open spec fn stands_behind<W: Weight>(v: FstV<W>, d: Seq<W>, at: (int, int)) -> bool {
    &&& 0 <= at.0 < v.n()
    &&& 0 <= at.1 < v.arcs(at.0).len()
    &&& d[at.0] != W::spec_zero()
    &&& !is_epsilon(v.arcs(at.0)[at.1])
}

/// What each of the arcs weighs behind the way to it.
pub open spec fn weights_behind<W: Weight>(
    v: FstV<W>,
    d: Seq<W>,
    list: Seq<(int, int)>,
) -> Seq<W> {
    list.map_values(|at: (int, int)| d[at.0].spec_times(v.arcs(at.0)[at.1].weight))
}

/// Whether `list` holds each arc that reads or writes and is like `arc`, and each once.
pub open spec fn lists_behind<W: Weight>(
    v: FstV<W>,
    d: Seq<W>,
    arc: Arc<W>,
    list: Seq<(int, int)>,
) -> bool {
    &&& list.no_duplicates()
    &&& forall|at: (int, int)| #[trigger]
        list.contains(at) <==> stands_behind(v, d, at) && is_like(arc, v.arcs(at.0)[at.1])
}

spec fn is_gone(at: (int, int), k: int, j: int) -> bool {
    at.0 < k || (at.0 == k && at.1 < j)
}

/// Whether each arc has gathered those like it, up to the `j`th arc of state `k`.
spec fn have_gathered<W: Weight>(
    v: FstV<W>,
    d: Seq<W>,
    arcs: Seq<Arc<W>>,
    lists: Seq<Seq<(int, int)>>,
    k: int,
    j: int,
) -> bool {
    &&& arcs.len() == lists.len()
    &&& forall|x: int, y: int|
        0 <= x < arcs.len() && 0 <= y < arcs.len() && x != y ==> !is_like(
            #[trigger] arcs[x],
            #[trigger] arcs[y],
        )
    &&& forall|x: int|
        0 <= x < arcs.len() ==> (#[trigger] lists[x]).no_duplicates() && arcs[x].weight == add_up(
            weights_behind(v, d, lists[x]),
        )
    &&& forall|x: int, at: (int, int)|
        0 <= x < arcs.len() ==> (#[trigger] lists[x].contains(at) <==> is_gone(at, k, j)
            && stands_behind(v, d, at) && is_like(arcs[x], v.arcs(at.0)[at.1]))
    &&& forall|at: (int, int)|
        is_gone(at, k, j) && #[trigger] stands_behind(v, d, at) ==> has_like_arc(
            arcs,
            v.arcs(at.0)[at.1],
        )
}

/// Whether one of the arcs is like `arc`.
pub open spec fn has_like_arc<W: Weight>(arcs: Seq<Arc<W>>, arc: Arc<W>) -> bool {
    exists|x: int| 0 <= x < arcs.len() && is_like(#[trigger] arcs[x], arc)
}

proof fn lemma_no_place<W: Weight>(arcs: Seq<Arc<W>>, arc: Arc<W>, k: int, x: int)
    requires
        0 <= x < k <= arcs.len(),
        place_of(arcs, arc, k) is None,
    ensures
        !is_like(arcs[x], arc),
    decreases k,
{
    if x < k - 1 {
        lemma_no_place(arcs, arc, k - 1, x);
    }
}

#[verifier::spinoff_prover]
#[verifier::rlimit(60)]
proof fn lemma_gather_one<W: Weight>(
    v: FstV<W>,
    d: Seq<W>,
    arcs: Seq<Arc<W>>,
    lists: Seq<Seq<(int, int)>>,
    k: int,
    j: int,
) -> (more: Seq<Seq<(int, int)>>)
    requires
        stays_inside::<W>(),
        zero_is_nothing::<W>(),
        sums_distribute::<W>(),
        all_members(v),
        are_all_members(d),
        d.len() == v.n(),
        have_gathered(v, d, arcs, lists, k, j),
        stands_behind(v, d, (k, j)),
    ensures
        have_gathered(
            v,
            d,
            with_added(
                arcs,
                Arc { weight: d[k].spec_times(v.arcs(k)[j].weight), ..v.arcs(k)[j] },
            ),
            more,
            k,
            j + 1,
        ),
{
    let here = (k, j);
    let part = d[k].spec_times(v.arcs(k)[j].weight);
    let arc = Arc { weight: part, ..v.arcs(k)[j] };
    let made = with_added(arcs, arc);
    let n = arcs.len() as int;
    lemma_place_of(arcs, arc, n);
    assert(state_is_member(v.states[k]));
    assert(v.states[k].arcs[j].weight.spec_member());
    assert(d[k].spec_member());
    lemma_stays(d[k], v.arcs(k)[j].weight);
    let place = place_of(arcs, arc, n);
    let more = match place {
        Some(x) => lists.update(x, lists[x].push(here)),
        None => lists.push(seq![here]),
    };
    let at: int = match place {
        Some(x) => x,
        None => n,
    };
    assert(is_like(made[at], v.arcs(k)[j]));
    assert forall|x: int| 0 <= x < n implies is_like(#[trigger] made[x], arcs[x]) by {}
    assert forall|x: int| 0 <= x < made.len() && x != at implies !is_like(
        #[trigger] made[x],
        v.arcs(k)[j],
    ) by {
        assert(x < n);
        match place {
            Some(y) => {
                assert(!is_like(arcs[x], arcs[y]));
            },
            None => {
                lemma_no_place(arcs, arc, n, x);
            },
        }
    }
    assert forall|x: int, y: int| 0 <= x < made.len() && 0 <= y < made.len() && x != y implies
        !is_like(#[trigger] made[x], #[trigger] made[y]) by {
        if x < n && y < n {
            assert(!is_like(arcs[x], arcs[y]));
        } else if x == at {
            assert(!is_like(made[y], v.arcs(k)[j]));
        } else {
            assert(!is_like(made[x], v.arcs(k)[j]));
        }
    }
    assert forall|x: int| 0 <= x < made.len() implies (#[trigger] more[x]).no_duplicates()
        && made[x].weight == add_up(weights_behind(v, d, more[x])) by {
        if x == at {
            match place {
                Some(_) => {
                    let old = lists[x];
                    assert(lists[x].no_duplicates());
                    assert(!lists[x].contains(here));
                    assert(more[x] == old.push(here));
                    assert(weights_behind(v, d, more[x]).drop_last() =~= weights_behind(v, d, old));
                    assert forall|a: int, b: int|
                        0 <= a < more[x].len() && 0 <= b < more[x].len() && a != b implies more[x][a]
                        != more[x][b] by {
                        if a < old.len() {
                            assert(old.contains(old[a]));
                        }
                        if b < old.len() {
                            assert(old.contains(old[b]));
                        }
                    }
                },
                None => {
                    let weights = weights_behind(v, d, more[x]);
                    assert(weights.len() == 1);
                    assert(weights[0] == part);
                    assert(weights.drop_last() =~= Seq::empty());
                    assert(add_up(weights.drop_last()) == W::spec_zero());
                    lemma_distribute(part, part, part);
                },
            }
        } else {
            assert(more[x] == lists[x]);
            assert(lists[x].no_duplicates());
        }
    }
    assert forall|x: int, a: (int, int)| 0 <= x < made.len() implies (
    #[trigger] more[x].contains(a) <==> is_gone(a, k, j + 1) && stands_behind(v, d, a) && is_like(
        made[x],
        v.arcs(a.0)[a.1],
    )) by {
        if x < n {
            assert(lists[x].contains(a) <==> is_gone(a, k, j) && stands_behind(v, d, a) && is_like(
                arcs[x],
                v.arcs(a.0)[a.1],
            ));
        }
        if x == at {
            match place {
                Some(_) => {
                    let old = lists[x];
                    assert(more[x].contains(a) <==> old.contains(a) || a == here) by {
                        if more[x].contains(a) {
                            let b = choose|b: int| 0 <= b < more[x].len() && more[x][b] == a;
                            if b < old.len() {
                                assert(old[b] == a);
                            }
                        }
                        if old.contains(a) {
                            let b = choose|b: int| 0 <= b < old.len() && old[b] == a;
                            assert(more[x][b] == a);
                        }
                        if a == here {
                            assert(more[x][old.len() as int] == a);
                        }
                    }
                },
                None => {
                    assert(more[x].contains(a) <==> a == here) by {
                        assert(more[x][0] == here);
                    }
                    if is_gone(a, k, j) && stands_behind(v, d, a) && is_like(
                        made[x],
                        v.arcs(a.0)[a.1],
                    ) {
                        assert(has_like_arc(arcs, v.arcs(a.0)[a.1]));
                        let y = choose|y: int|
                            0 <= y < arcs.len() && is_like(#[trigger] arcs[y], v.arcs(a.0)[a.1]);
                        lemma_no_place(arcs, arc, n, y);
                    }
                },
            }
        } else {
            assert(more[x] == lists[x]);
            if a == here {
                assert(!is_like(made[x], v.arcs(k)[j]));
            }
        }
    }
    assert forall|a: (int, int)|
        is_gone(a, k, j + 1) && #[trigger] stands_behind(v, d, a) implies has_like_arc(
        made,
        v.arcs(a.0)[a.1],
    ) by {
        if a == here {
            assert(is_like(made[at], v.arcs(k)[j]));
        } else {
            assert(has_like_arc(arcs, v.arcs(a.0)[a.1]));
            let y = choose|y: int|
                0 <= y < arcs.len() && is_like(#[trigger] arcs[y], v.arcs(a.0)[a.1]);
            assert(is_like(made[y], arcs[y]));
        }
    }
    more
}

proof fn lemma_gathered_on<W: Weight>(
    v: FstV<W>,
    d: Seq<W>,
    arcs: Seq<Arc<W>>,
    lists: Seq<Seq<(int, int)>>,
    k: int,
    j: int,
    to_k: int,
    to_j: int,
)
    requires
        have_gathered(v, d, arcs, lists, k, j),
        forall|at: (int, int)| #[trigger]
            stands_behind(v, d, at) ==> (is_gone(at, k, j) <==> is_gone(at, to_k, to_j)),
    ensures
        have_gathered(v, d, arcs, lists, to_k, to_j),
{
    assert forall|x: int, a: (int, int)| 0 <= x < arcs.len() implies (
    #[trigger] lists[x].contains(a) <==> is_gone(a, to_k, to_j) && stands_behind(v, d, a)
        && is_like(arcs[x], v.arcs(a.0)[a.1])) by {
        assert(lists[x].contains(a) <==> is_gone(a, k, j) && stands_behind(v, d, a) && is_like(
            arcs[x],
            v.arcs(a.0)[a.1],
        ));
    }
}

proof fn lemma_gather_arcs<W: Weight>(
    v: FstV<W>,
    d: Seq<W>,
    arcs: Seq<Arc<W>>,
    lists: Seq<Seq<(int, int)>>,
    k: int,
    j: int,
) -> (more: Seq<Seq<(int, int)>>)
    requires
        stays_inside::<W>(),
        zero_is_nothing::<W>(),
        sums_distribute::<W>(),
        all_members(v),
        are_all_members(d),
        d.len() == v.n(),
        0 <= k < v.n(),
        0 <= j <= v.arcs(k).len(),
        d[k] != W::spec_zero(),
        have_gathered(v, d, arcs, lists, k, 0),
    ensures
        have_gathered(v, d, with_all_added(arcs, d[k], v.arcs(k), j), more, k, j),
    decreases j,
{
    if j == 0 {
        lists
    } else {
        let half = lemma_gather_arcs(v, d, arcs, lists, k, j - 1);
        let before = with_all_added(arcs, d[k], v.arcs(k), j - 1);
        if is_epsilon(v.arcs(k)[j - 1]) {
            assert forall|at: (int, int)| #[trigger] stands_behind(v, d, at) implies (is_gone(
                at,
                k,
                j - 1,
            ) <==> is_gone(at, k, j)) by {
                if at.0 == k && at.1 == j - 1 {
                    assert(!stands_behind(v, d, at));
                }
            }
            lemma_gathered_on(v, d, before, half, k, j - 1, k, j);
            half
        } else {
            assert(stands_behind(v, d, (k, j - 1)));
            lemma_gather_one(v, d, before, half, k, j - 1)
        }
    }
}

proof fn lemma_gather_all<W: Weight>(
    v: FstV<W>,
    d: Seq<W>,
    k: int,
) -> (lists: Seq<Seq<(int, int)>>)
    requires
        stays_inside::<W>(),
        zero_is_nothing::<W>(),
        sums_distribute::<W>(),
        all_members(v),
        are_all_members(d),
        d.len() == v.n(),
        0 <= k <= v.n(),
    ensures
        have_gathered(v, d, closure_arcs(v, d, k), lists, k, 0),
    decreases k,
{
    if k == 0 {
        Seq::empty()
    } else {
        let half = lemma_gather_all(v, d, k - 1);
        let before = closure_arcs(v, d, k - 1);
        if d[k - 1] == W::spec_zero() {
            assert forall|at: (int, int)| #[trigger] stands_behind(v, d, at) implies (is_gone(
                at,
                k - 1,
                0,
            ) <==> is_gone(at, k, 0)) by {}
            lemma_gathered_on(v, d, before, half, k - 1, 0, k, 0);
            half
        } else {
            let n = v.arcs(k - 1).len() as int;
            let more = lemma_gather_arcs(v, d, before, half, k - 1, n);
            assert forall|at: (int, int)| #[trigger] stands_behind(v, d, at) implies (is_gone(
                at,
                k - 1,
                n,
            ) <==> is_gone(at, k, 0)) by {}
            lemma_gathered_on(v, d, closure_arcs(v, d, k), more, k - 1, n, k, 0);
            more
        }
    }
}

proof fn lemma_final_adds_up<W: Weight>(v: FstV<W>, d: Seq<W>, k: int)
    requires
        stays_inside::<W>(),
        zero_is_nothing::<W>(),
        sums_distribute::<W>(),
        all_members(v),
        are_all_members(d),
        d.len() == v.n(),
        0 <= k <= v.n(),
    ensures
        closure_final(v, d, k).spec_member(),
        closure_final(v, d, k) == add_up(
            Seq::new(k as nat, |t: int| d[t].spec_times(v.fin(t))),
        ),
    decreases k,
{
    lemma_nothing(W::spec_zero());
    let weights = Seq::new(k as nat, |t: int| d[t].spec_times(v.fin(t)));
    if k > 0 {
        lemma_final_adds_up(v, d, k - 1);
        assert(weights.drop_last() =~= Seq::new(
            (k - 1) as nat,
            |t: int| d[t].spec_times(v.fin(t)),
        ));
        assert(state_is_member(v.states[k - 1]));
        assert(d[k - 1].spec_member());
        lemma_stays(d[k - 1], v.fin(k - 1));
        lemma_nothing(v.fin(k - 1));
        lemma_nothing(closure_final(v, d, k - 1));
        lemma_stays(closure_final(v, d, k - 1), d[k - 1].spec_times(v.fin(k - 1)));
    }
}

/// What leaves a state that is entered, once epsilons are removed: for each pair of labels
/// and each state that some arc behind silent paths leads to with them there is one arc, and
/// it weighs what those arcs weigh behind the silent paths, each added once. What ends there
/// is what ends behind the silent paths. And how far the silent paths lead is what all of
/// them weigh, each added once.
pub proof fn law_removing_epsilons_adds_each_arc_once<W: Weight>(
    v: FstV<W>,
    delta: W::Delta,
    distances: Seq<Seq<W>>,
    s: int,
) -> (got: (Seq<Seq<(int, int)>>, nat))
    requires
        stays_inside::<W>(),
        zero_is_nothing::<W>(),
        sums_distribute::<W>(),
        closeness_is_equality::<W>(delta),
        v.wf(),
        v.n() <= usize::MAX,
        all_members(v),
        are_closures(v, delta, distances),
        0 <= s < v.n(),
        is_entered(v, s),
    ensures
        ({
            let r = without_epsilons(v, distances);
            let d = distances[s];
            &&& got.0.len() == r.arcs(s).len()
            &&& forall|x: int|
                0 <= x < r.arcs(s).len() ==> lists_behind(
                    v,
                    d,
                    #[trigger] r.arcs(s)[x],
                    got.0[x],
                ) && r.arcs(s)[x].weight == add_up(weights_behind(v, d, got.0[x]))
            &&& forall|x: int, y: int|
                0 <= x < r.arcs(s).len() && 0 <= y < r.arcs(s).len() && x != y ==> !is_like(
                    #[trigger] r.arcs(s)[x],
                    #[trigger] r.arcs(s)[y],
                )
            &&& forall|at: (int, int)| #[trigger]
                stands_behind(v, d, at) ==> has_like_arc(r.arcs(s), v.arcs(at.0)[at.1])
            &&& r.fin(s) == add_up(Seq::new(v.n(), |t: int| d[t].spec_times(v.fin(t))))
            &&& forall|t: int|
                0 <= t < v.n() ==> adds_up_silent_paths(v, s, t, got.1, #[trigger] d[t])
        }),
{
    let r = without_epsilons(v, distances);
    let d = distances[s];
    let e = epsilon_part(v, s);
    let n = v.n() as int;
    lemma_epsilon_part(v, s);
    assert(is_distance(e, false, delta, d));
    let k = lemma_settled(e, false, delta, d);
    lemma_nothing(W::spec_zero());
    assert(all_members(e)) by {
        assert forall|t: int| 0 <= t < e.n() implies state_is_member(#[trigger] e.states[t]) by {
            assert forall|i: int| 0 <= i < e.states[t].arcs.len() implies (
            #[trigger] e.states[t].arcs[i]).weight.spec_member() by {
                let arc = e.arcs(t)[i];
                assert(e.arcs(t).contains(arc));
                let j = choose|j: int| 0 <= j < v.arcs(t).len() && v.arcs(t)[j] == arc;
                assert(state_is_member(v.states[t]));
                assert(v.states[t].arcs[j].weight.spec_member());
            }
        }
    }
    assert forall|t: int| 0 <= t < d.len() implies (#[trigger] d[t]).spec_member() by {
        lemma_behind_is_member(e, k, t);
    }
    let lists = lemma_gather_all(v, d, n);
    lemma_final_adds_up(v, d, n);
    assert(r.states[s].arcs == closure_arcs(v, d, n));
    assert forall|x: int| 0 <= x < r.arcs(s).len() implies lists_behind(
        v,
        d,
        #[trigger] r.arcs(s)[x],
        lists[x],
    ) && r.arcs(s)[x].weight == add_up(weights_behind(v, d, lists[x])) by {
        assert(lists[x].no_duplicates());
        assert forall|at: (int, int)| #[trigger] lists[x].contains(at) <==> stands_behind(v, d, at)
            && is_like(r.arcs(s)[x], v.arcs(at.0)[at.1]) by {
            assert(lists[x].contains(at) <==> is_gone(at, n, 0) && stands_behind(v, d, at)
                && is_like(r.arcs(s)[x], v.arcs(at.0)[at.1]));
        }
    }
    assert forall|at: (int, int)| #[trigger] stands_behind(v, d, at) implies has_like_arc(
        r.arcs(s),
        v.arcs(at.0)[at.1],
    ) by {
        assert(is_gone(at, n, 0));
    }
    assert forall|t: int| 0 <= t < v.n() implies adds_up_silent_paths(
        v,
        s,
        t,
        k,
        #[trigger] d[t],
    ) by {
        let list = law_distances_add_up_all_paths(e, k, t);
        assert(lists_paths(e, t, k, list) && d[t] == add_up(weights_of(e, list)));
    }
    (lists, k)
}

/// Whether `w` is what all paths from `s` to `t` weigh that neither read nor write and take
/// fewer than `k` arcs, each added once.
pub open spec fn adds_up_silent_paths<W: Weight>(
    v: FstV<W>,
    s: int,
    t: int,
    k: nat,
    w: W,
) -> bool {
    exists|list: Seq<Seq<int>>| #[trigger]
        lists_paths(epsilon_part(v, s), t, k, list) && w == add_up(
            weights_of(epsilon_part(v, s), list),
        )
}

} // verus!
