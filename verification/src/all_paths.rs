//! What distances add up, whatever the semiring: every path, once.
use crate::arc::Arc;
use crate::path_sums::{closeness_is_equality, lemma_settled};
use crate::push::{ending_sum, spec_total_weight};
use crate::push_sums::{
    lemma_nothing, lemma_stays, stays_inside, zero_is_nothing,
};
use crate::shortest_distance::{
    all_passed_on, from_start, is_distance, lemma_distance_len, onward_sum, passed_on, to_end,
};
use crate::vector_fst::{all_members, state_is_member, FstV};
use crate::weight::Weight;
use vstd::prelude::*;

verus! {

/// What weights add up to, one after the other.
pub open spec fn add_up<W: Weight>(weights: Seq<W>) -> W
    decreases weights.len(),
{
    if weights.len() == 0 {
        W::spec_zero()
    } else {
        add_up(weights.drop_last()).spec_plus(weights.last())
    }
}

/// Whether sums can be taken together either way, nothing added in front changes nothing, and
/// products of sums are sums of products.
#[verifier::opaque]
pub open spec fn sums_distribute<W: Weight>() -> bool {
    &&& forall|a: W, b: W, c: W|
        a.spec_member() && b.spec_member() && c.spec_member() ==> #[trigger] a.spec_plus(
            b,
        ).spec_plus(c) == a.spec_plus(b.spec_plus(c))
    &&& forall|a: W, b: W, c: W|
        a.spec_member() && b.spec_member() && c.spec_member() ==> #[trigger] a.spec_plus(
            b,
        ).spec_times(c) == a.spec_times(c).spec_plus(b.spec_times(c))
    &&& forall|a: W, b: W, c: W|
        a.spec_member() && b.spec_member() && c.spec_member() ==> #[trigger] c.spec_times(
            a.spec_plus(b),
        ) == c.spec_times(a).spec_plus(c.spec_times(b))
    &&& forall|a: W|
        #![trigger a.spec_member()]
        a.spec_member() ==> W::spec_zero().spec_plus(a) == a
}

/// Three weights: sums taken together either way, and multiplied.
pub proof fn lemma_distribute<W: Weight>(a: W, b: W, c: W)
    requires
        sums_distribute::<W>(),
        a.spec_member(),
        b.spec_member(),
        c.spec_member(),
    ensures
        a.spec_plus(b).spec_plus(c) == a.spec_plus(b.spec_plus(c)),
        a.spec_plus(b).spec_times(c) == a.spec_times(c).spec_plus(b.spec_times(c)),
        c.spec_times(a.spec_plus(b)) == c.spec_times(a).spec_plus(c.spec_times(b)),
        W::spec_zero().spec_plus(a) == a,
{
    reveal(sums_distribute);
}

/// Whether all weights are in the semiring.
pub open spec fn are_all_members<W: Weight>(weights: Seq<W>) -> bool {
    forall|i: int| 0 <= i < weights.len() ==> (#[trigger] weights[i]).spec_member()
}

/// A sum of weights in the semiring is in it.
pub proof fn lemma_add_up_member<W: Weight>(weights: Seq<W>)
    requires
        stays_inside::<W>(),
        zero_is_nothing::<W>(),
        are_all_members(weights),
    ensures
        add_up(weights).spec_member(),
    decreases weights.len(),
{
    lemma_nothing(W::spec_zero());
    if weights.len() > 0 {
        let less = weights.drop_last();
        assert forall|i: int| 0 <= i < less.len() implies (#[trigger] less[i]).spec_member() by {
            assert(weights[i].spec_member());
        }
        lemma_add_up_member(less);
        assert(weights[weights.len() - 1].spec_member());
        lemma_stays(add_up(less), weights.last());
    }
}

proof fn lemma_add_up_on<W: Weight>(a: Seq<W>, b: Seq<W>)
    requires
        stays_inside::<W>(),
        zero_is_nothing::<W>(),
        sums_distribute::<W>(),
        are_all_members(a),
        are_all_members(b),
    ensures
        add_up(a + b) == add_up(a).spec_plus(add_up(b)),
    decreases b.len(),
{
    lemma_add_up_member(a);
    if b.len() == 0 {
        assert(a + b =~= a);
        lemma_nothing(add_up(a));
    } else {
        let less = b.drop_last();
        assert forall|i: int| 0 <= i < less.len() implies (#[trigger] less[i]).spec_member() by {
            assert(b[i].spec_member());
        }
        lemma_add_up_on(a, less);
        lemma_add_up_member(less);
        assert((a + b).drop_last() =~= a + less);
        assert(b[b.len() - 1].spec_member());
        lemma_distribute(add_up(a), add_up(less), b.last());
    }
}

proof fn lemma_add_up_behind<W: Weight>(a: Seq<W>, w: W)
    requires
        stays_inside::<W>(),
        zero_is_nothing::<W>(),
        sums_distribute::<W>(),
        are_all_members(a),
        w.spec_member(),
    ensures
        add_up(a).spec_times(w) == add_up(a.map_values(|x: W| x.spec_times(w))),
        are_all_members(a.map_values(|x: W| x.spec_times(w))),
    decreases a.len(),
{
    let f = |x: W| x.spec_times(w);
    let made = a.map_values(f);
    assert forall|i: int| 0 <= i < made.len() implies (#[trigger] made[i]).spec_member() by {
        assert(a[i].spec_member());
        lemma_stays(a[i], w);
    }
    if a.len() == 0 {
        lemma_nothing(w);
    } else {
        let less = a.drop_last();
        assert forall|i: int| 0 <= i < less.len() implies (#[trigger] less[i]).spec_member() by {
            assert(a[i].spec_member());
        }
        lemma_add_up_behind(less, w);
        lemma_add_up_member(less);
        assert(made.drop_last() =~= less.map_values(f));
        assert(a[a.len() - 1].spec_member());
        lemma_distribute(add_up(less), a.last(), w);
    }
}

proof fn lemma_add_up_before<W: Weight>(a: Seq<W>, w: W)
    requires
        stays_inside::<W>(),
        zero_is_nothing::<W>(),
        sums_distribute::<W>(),
        are_all_members(a),
        w.spec_member(),
    ensures
        w.spec_times(add_up(a)) == add_up(a.map_values(|x: W| w.spec_times(x))),
        are_all_members(a.map_values(|x: W| w.spec_times(x))),
    decreases a.len(),
{
    let f = |x: W| w.spec_times(x);
    let made = a.map_values(f);
    assert forall|i: int| 0 <= i < made.len() implies (#[trigger] made[i]).spec_member() by {
        assert(a[i].spec_member());
        lemma_stays(w, a[i]);
    }
    if a.len() == 0 {
        lemma_nothing(w);
    } else {
        let less = a.drop_last();
        assert forall|i: int| 0 <= i < less.len() implies (#[trigger] less[i]).spec_member() by {
            assert(a[i].spec_member());
        }
        lemma_add_up_before(less, w);
        lemma_add_up_member(less);
        assert(made.drop_last() =~= less.map_values(f));
        assert(a[a.len() - 1].spec_member());
        lemma_distribute(add_up(less), a.last(), w);
    }
}

/// Where the path that takes the arcs of those numbers from `s` ends.
pub open spec fn leads<W: Weight>(v: FstV<W>, s: int, path: Seq<int>) -> int
    decreases path.len(),
{
    if path.len() == 0 {
        s
    } else {
        v.arcs(leads(v, s, path.drop_last()))[path.last()].nextstate as int
    }
}

/// Whether there are arcs of those numbers to take from `s`.
pub open spec fn is_path<W: Weight>(v: FstV<W>, s: int, path: Seq<int>) -> bool
    decreases path.len(),
{
    if path.len() == 0 {
        0 <= s < v.n()
    } else {
        &&& is_path(v, s, path.drop_last())
        &&& 0 <= path.last() < v.arcs(leads(v, s, path.drop_last())).len()
    }
}

/// What a path weighs, arc after arc.
pub open spec fn path_weight<W: Weight>(v: FstV<W>, s: int, path: Seq<int>) -> W
    decreases path.len(),
{
    if path.len() == 0 {
        W::spec_one()
    } else {
        path_weight(v, s, path.drop_last()).spec_times(
            v.arcs(leads(v, s, path.drop_last()))[path.last()].weight,
        )
    }
}

/// Whether `list` holds each path from the start to `t` of fewer than `k` arcs, and each once.
pub open spec fn lists_paths<W: Weight>(
    v: FstV<W>,
    t: int,
    k: nat,
    list: Seq<Seq<int>>,
) -> bool {
    &&& list.no_duplicates()
    &&& forall|path: Seq<int>| #[trigger]
        list.contains(path) <==> v.start is Some && is_path(v, v.start->0 as int, path) && leads(
            v,
            v.start->0 as int,
            path,
        ) == t && path.len() < k
}

/// What the paths of a list weigh.
pub open spec fn weights_of<W: Weight>(v: FstV<W>, list: Seq<Seq<int>>) -> Seq<W> {
    list.map_values(|path: Seq<int>| path_weight(v, v.start->0 as int, path))
}

proof fn lemma_path_stays<W: Weight>(v: FstV<W>, s: int, path: Seq<int>)
    requires
        v.wf(),
        is_path(v, s, path),
    ensures
        0 <= leads(v, s, path) < v.n(),
    decreases path.len(),
{
    if path.len() > 0 {
        let x = leads(v, s, path.drop_last());
        lemma_path_stays(v, s, path.drop_last());
        assert(v.states[x].arcs[path.last()].nextstate < v.n());
    }
}

proof fn lemma_path_member<W: Weight>(v: FstV<W>, s: int, path: Seq<int>)
    requires
        stays_inside::<W>(),
        zero_is_nothing::<W>(),
        v.wf(),
        all_members(v),
        is_path(v, s, path),
    ensures
        path_weight(v, s, path).spec_member(),
    decreases path.len(),
{
    lemma_nothing(W::spec_one());
    if path.len() > 0 {
        let less = path.drop_last();
        let x = leads(v, s, less);
        lemma_path_member(v, s, less);
        lemma_path_stays(v, s, less);
        assert(state_is_member(v.states[x]));
        assert(v.states[x].arcs[path.last()].weight.spec_member());
        lemma_stays(path_weight(v, s, less), v.arcs(x)[path.last()].weight);
    }
}

/// The lists once the first `i` arcs of a state have been followed, `lists` being what they
/// were and `here` the paths to that state.
spec fn followed<W: Weight>(
    arcs: Seq<Arc<W>>,
    here: Seq<Seq<int>>,
    lists: Seq<Seq<Seq<int>>>,
    i: int,
) -> Seq<Seq<Seq<int>>>
    decreases i,
{
    if i <= 0 {
        lists
    } else {
        let before = followed(arcs, here, lists, i - 1);
        let to = arcs[i - 1].nextstate as int;
        before.update(to, before[to] + here.map_values(|path: Seq<int>| path.push(i - 1)))
    }
}

/// The lists once the arcs of the first `t` states have been followed.
spec fn all_followed<W: Weight>(
    v: FstV<W>,
    lists: Seq<Seq<Seq<int>>>,
    t: int,
) -> Seq<Seq<Seq<int>>>
    decreases t,
{
    if t <= 0 {
        Seq::new(
            v.n(),
            |s: int|
                if v.start == Some(s as usize) {
                    seq![Seq::<int>::empty()]
                } else {
                    Seq::empty()
                },
        )
    } else {
        followed(
            v.arcs(t - 1),
            lists[t - 1],
            all_followed(v, lists, t - 1),
            v.arcs(t - 1).len() as int,
        )
    }
}

/// The paths of fewer than `k` arcs from the start to each state.
spec fn paths_in<W: Weight>(v: FstV<W>, k: nat) -> Seq<Seq<Seq<int>>>
    decreases k,
{
    if k == 0 {
        Seq::new(v.n(), |s: int| Seq::empty())
    } else {
        all_followed(v, paths_in(v, (k - 1) as nat), v.n() as int)
    }
}

spec fn is_before(s: int, i: int, to_s: int, to_i: int) -> bool {
    s < to_s || (s == to_s && i < to_i)
}

/// Whether `path` is one to `t` whose last arc has been followed.
spec fn has_been_followed<W: Weight>(
    v: FstV<W>,
    t: int,
    k: nat,
    to_s: int,
    to_i: int,
    path: Seq<int>,
) -> bool {
    let start = v.start->0 as int;
    &&& v.start is Some
    &&& is_path(v, start, path)
    &&& leads(v, start, path) == t
    &&& path.len() <= k
    &&& path.len() > 0 ==> is_before(
        leads(v, start, path.drop_last()),
        path.last(),
        to_s,
        to_i,
    )
}

/// Whether the lists hold what has been followed.
spec fn holds_followed<W: Weight>(
    v: FstV<W>,
    k: nat,
    to_s: int,
    to_i: int,
    lists: Seq<Seq<Seq<int>>>,
    sums: Seq<W>,
) -> bool {
    &&& lists.len() == v.n()
    &&& sums.len() == v.n()
    &&& forall|t: int|
        0 <= t < v.n() ==> (#[trigger] lists[t]).no_duplicates() && sums[t] == add_up(
            weights_of(v, lists[t]),
        )
    &&& forall|t: int, path: Seq<int>|
        0 <= t < v.n() ==> (#[trigger] lists[t].contains(path) <==> has_been_followed(
            v,
            t,
            k,
            to_s,
            to_i,
            path,
        ))
}

proof fn lemma_weights_are_members<W: Weight>(v: FstV<W>, list: Seq<Seq<int>>)
    requires
        stays_inside::<W>(),
        zero_is_nothing::<W>(),
        v.wf(),
        all_members(v),
        forall|path: Seq<int>| #[trigger]
            list.contains(path) ==> is_path(v, v.start->0 as int, path),
    ensures
        are_all_members(weights_of(v, list)),
{
    let weights = weights_of(v, list);
    assert forall|i: int| 0 <= i < weights.len() implies (#[trigger] weights[i]).spec_member() by {
        assert(list.contains(list[i]));
        lemma_path_member(v, v.start->0 as int, list[i]);
    }
}

#[verifier::spinoff_prover]
#[verifier::rlimit(60)]
proof fn lemma_one_followed<W: Weight>(
    v: FstV<W>,
    k: nat,
    s: int,
    i: int,
    here: Seq<Seq<int>>,
    lists: Seq<Seq<Seq<int>>>,
    sums: Seq<W>,
)
    requires
        stays_inside::<W>(),
        zero_is_nothing::<W>(),
        sums_distribute::<W>(),
        v.wf(),
        all_members(v),
        0 <= s < v.n(),
        0 <= i < v.arcs(s).len(),
        lists_paths(v, s, k, here),
        holds_followed(v, k, s, i, lists, sums),
    ensures
        ({
            let to = v.arcs(s)[i].nextstate as int;
            let more = here.map_values(|path: Seq<int>| path.push(i));
            let part = add_up(weights_of(v, here)).spec_times(v.arcs(s)[i].weight);
            holds_followed(
                v,
                k,
                s,
                i + 1,
                lists.update(to, lists[to] + more),
                sums.update(to, sums[to].spec_plus(part)),
            )
        }),
{
    let start = v.start->0 as int;
    let to = v.arcs(s)[i].nextstate as int;
    let w = v.arcs(s)[i].weight;
    assert(v.states[s].arcs[i].nextstate < v.n());
    assert(state_is_member(v.states[s]));
    assert(v.states[s].arcs[i].weight.spec_member());
    let more = here.map_values(|path: Seq<int>| path.push(i));
    let made = lists.update(to, lists[to] + more);
    let part = add_up(weights_of(v, here)).spec_times(w);
    let added = sums.update(to, sums[to].spec_plus(part));
    assert forall|path: Seq<int>| #[trigger] more.contains(path) <==> path.len() > 0 && path.last()
        == i && here.contains(path.drop_last()) by {
        if more.contains(path) {
            let x = choose|x: int| 0 <= x < more.len() && more[x] == path;
            assert(path == here[x].push(i));
            assert(path.drop_last() =~= here[x]);
        }
        if path.len() > 0 && path.last() == i && here.contains(path.drop_last()) {
            let x = choose|x: int| 0 <= x < here.len() && here[x] == path.drop_last();
            assert(more[x] =~= path);
            assert(more.contains(more[x]));
        }
    }
    // The sum goes on.
    lemma_weights_are_members(v, here);
    lemma_weights_are_members(v, lists[to]);
    lemma_add_up_behind(weights_of(v, here), w);
    assert(weights_of(v, more) =~= weights_of(v, here).map_values(|x: W| x.spec_times(w))) by {
        assert forall|x: int| 0 <= x < more.len() implies weights_of(v, more)[x] == weights_of(
            v,
            here,
        )[x].spec_times(w) by {
            assert(here.contains(here[x]));
            assert(more[x].drop_last() =~= here[x]);
        }
    }
    lemma_add_up_on(weights_of(v, lists[to]), weights_of(v, more));
    assert(weights_of(v, lists[to] + more) =~= weights_of(v, lists[to]) + weights_of(v, more));
    // No path is there twice.
    assert((lists[to] + more).no_duplicates()) by {
        let all = lists[to] + more;
        let n = lists[to].len() as int;
        assert forall|a: int, b: int| 0 <= a < all.len() && 0 <= b < all.len() && a != b implies
            all[a] != all[b] by {
            if a < n && b < n {
                assert(lists[to][a] != lists[to][b]);
            } else if a >= n && b >= n {
                assert(here[a - n] != here[b - n]);
                assert(all[a].drop_last() =~= here[a - n]);
                assert(all[b].drop_last() =~= here[b - n]);
            } else {
                let (old, new) = if a < n {
                    (a, b)
                } else {
                    (b, a)
                };
                assert(lists[to].contains(lists[to][old]));
                assert(has_been_followed(v, to, k, s, i, all[old]));
                let path = all[new];
                assert(path == here[new - n].push(i));
                assert(path.drop_last() =~= here[new - n]);
                assert(here.contains(here[new - n]));
            }
        }
    }
    assert forall|t: int| 0 <= t < v.n() implies (#[trigger] made[t]).no_duplicates() && added[t]
        == add_up(weights_of(v, made[t])) by {
        assert(lists[t].no_duplicates());
    }
    assert forall|t: int, path: Seq<int>| 0 <= t < v.n() implies (#[trigger] made[t].contains(path)
        <==> has_been_followed(v, t, k, s, i + 1, path)) by {
        assert(lists[t].contains(path) <==> has_been_followed(v, t, k, s, i, path));
        if t == to {
            let all = lists[to] + more;
            assert(all.contains(path) <==> lists[to].contains(path) || more.contains(path)) by {
                if all.contains(path) {
                    let x = choose|x: int| 0 <= x < all.len() && all[x] == path;
                    if x < lists[to].len() {
                        assert(lists[to][x] == path);
                    } else {
                        assert(more[x - lists[to].len()] == path);
                    }
                }
                if lists[to].contains(path) {
                    let x = choose|x: int| 0 <= x < lists[to].len() && lists[to][x] == path;
                    assert(all[x] == path);
                }
                if more.contains(path) {
                    let x = choose|x: int| 0 <= x < more.len() && more[x] == path;
                    assert(all[x + lists[to].len()] == path);
                }
            }
            if more.contains(path) {
                assert(here.contains(path.drop_last()));
            }
            if has_been_followed(v, t, k, s, i + 1, path) && !has_been_followed(
                v,
                t,
                k,
                s,
                i,
                path,
            ) {
                assert(path.len() > 0);
                assert(leads(v, start, path.drop_last()) == s && path.last() == i);
                assert(here.contains(path.drop_last()));
            }
        } else {
            assert(made[t] == lists[t]);
            if has_been_followed(v, t, k, s, i + 1, path) && path.len() > 0 {
                assert(leads(v, start, path) == t);
                if leads(v, start, path.drop_last()) == s && path.last() == i {
                    assert(leads(v, start, path) == to);
                }
            }
        }
    }
}

proof fn lemma_followed<W: Weight>(
    v: FstV<W>,
    k: nat,
    s: int,
    i: int,
    here: Seq<Seq<int>>,
    lists: Seq<Seq<Seq<int>>>,
    sums: Seq<W>,
)
    requires
        stays_inside::<W>(),
        zero_is_nothing::<W>(),
        sums_distribute::<W>(),
        v.wf(),
        all_members(v),
        0 <= s < v.n(),
        0 <= i <= v.arcs(s).len(),
        lists_paths(v, s, k, here),
        holds_followed(v, k, s, 0, lists, sums),
    ensures
        holds_followed(
            v,
            k,
            s,
            i,
            followed(v.arcs(s), here, lists, i),
            passed_on(v.arcs(s), add_up(weights_of(v, here)), sums, i),
        ),
    decreases i,
{
    if i > 0 {
        lemma_followed(v, k, s, i - 1, here, lists, sums);
        lemma_one_followed(
            v,
            k,
            s,
            i - 1,
            here,
            followed(v.arcs(s), here, lists, i - 1),
            passed_on(v.arcs(s), add_up(weights_of(v, here)), sums, i - 1),
        );
    }
}

proof fn lemma_all_followed<W: Weight>(
    v: FstV<W>,
    k: nat,
    lists: Seq<Seq<Seq<int>>>,
    d: Seq<W>,
    t: int,
)
    requires
        stays_inside::<W>(),
        zero_is_nothing::<W>(),
        sums_distribute::<W>(),
        v.wf(),
        v.n() <= usize::MAX,
        all_members(v),
        lists.len() == v.n(),
        d.len() == v.n(),
        0 <= t <= v.n(),
        forall|s: int|
            0 <= s < v.n() ==> lists_paths(v, s, k, #[trigger] lists[s]) && d[s] == add_up(
                weights_of(v, lists[s]),
            ),
    ensures
        holds_followed(v, k, t, 0, all_followed(v, lists, t), all_passed_on(v, d, t)),
    decreases t,
{
    if t == 0 {
        let first = all_followed(v, lists, 0);
        let sums = all_passed_on(v, d, 0);
        let none = Seq::<int>::empty();
        lemma_nothing(W::spec_one());
        lemma_distribute(W::spec_one(), W::spec_one(), W::spec_one());
        assert forall|x: int| 0 <= x < v.n() implies (#[trigger] first[x]).no_duplicates()
            && sums[x] == add_up(weights_of(v, first[x])) by {
            let weights = weights_of(v, first[x]);
            if v.start == Some(x as usize) {
                assert(weights.len() == 1);
                assert(weights[0] == W::spec_one());
                assert(weights.drop_last() =~= Seq::empty());
                assert(add_up(weights.drop_last()) == W::spec_zero());
            } else {
                assert(weights.len() == 0);
            }
        }
        assert forall|x: int, path: Seq<int>| 0 <= x < v.n() implies (
        #[trigger] first[x].contains(path) <==> has_been_followed(v, x, k, 0, 0, path)) by {
            if has_been_followed(v, x, k, 0, 0, path) {
                if path.len() > 0 {
                    lemma_path_stays(v, v.start->0 as int, path.drop_last());
                }
                assert(path =~= none);
                assert(first[x][0] == none);
                assert(first[x].contains(first[x][0]));
            }
            if first[x].contains(path) {
                assert(path =~= none);
            }
        }
    } else {
        lemma_all_followed(v, k, lists, d, t - 1);
        let s = t - 1;
        let n = v.arcs(s).len() as int;
        assert(lists_paths(v, s, k, lists[s]));
        lemma_followed(
            v,
            k,
            s,
            n,
            lists[s],
            all_followed(v, lists, s),
            all_passed_on(v, d, s),
        );
        let made = all_followed(v, lists, t);
        assert forall|x: int, path: Seq<int>| 0 <= x < v.n() implies (
        #[trigger] made[x].contains(path) <==> has_been_followed(v, x, k, t, 0, path)) by {
            assert(made[x].contains(path) <==> has_been_followed(v, x, k, s, n, path));
        }
    }
}

proof fn lemma_paths_in<W: Weight>(v: FstV<W>, k: nat, t: int)
    requires
        stays_inside::<W>(),
        zero_is_nothing::<W>(),
        sums_distribute::<W>(),
        v.wf(),
        v.n() <= usize::MAX,
        all_members(v),
        0 <= t < v.n(),
    ensures
        paths_in(v, k).len() == v.n(),
        lists_paths(v, t, k, paths_in(v, k)[t]),
        from_start(v, k)[t] == add_up(weights_of(v, paths_in(v, k)[t])),
    decreases k,
{
    if k > 0 {
        let less = (k - 1) as nat;
        let lists = paths_in(v, less);
        let d = from_start(v, less);
        lemma_distance_len(v, false, less);
        assert forall|s: int| 0 <= s < v.n() implies lists_paths(v, s, less, #[trigger] lists[s])
            && d[s] == add_up(weights_of(v, lists[s])) by {
            lemma_paths_in(v, less, s);
        }
        assert(lists.len() == v.n()) by {
            lemma_paths_in(v, less, t);
        }
        lemma_all_followed(v, less, lists, d, v.n() as int);
        let list = paths_in(v, k)[t];
        assert forall|path: Seq<int>| #[trigger] list.contains(path) <==> v.start is Some
            && is_path(v, v.start->0 as int, path) && leads(v, v.start->0 as int, path) == t
            && path.len() < k by {
            assert(list.contains(path) <==> has_been_followed(v, t, less, v.n() as int, 0, path));
            if v.start is Some && is_path(v, v.start->0 as int, path) && path.len() > 0 {
                lemma_path_stays(v, v.start->0 as int, path.drop_last());
            }
        }
    }
}

/// What paths from the start to a state add up to, of fewer than `k` arcs, is what all of
/// them weigh, each added once.
pub proof fn law_distances_add_up_all_paths<W: Weight>(v: FstV<W>, k: nat, t: int) -> (list: Seq<
    Seq<int>,
>)
    requires
        stays_inside::<W>(),
        zero_is_nothing::<W>(),
        sums_distribute::<W>(),
        v.wf(),
        v.n() <= usize::MAX,
        all_members(v),
        0 <= t < v.n(),
    ensures
        lists_paths(v, t, k, list),
        from_start(v, k)[t] == add_up(weights_of(v, list)),
{
    lemma_paths_in(v, k, t);
    paths_in(v, k)[t]
}

/// Whether there are arcs of those numbers to take from `s`, seen from the first on.
pub open spec fn goes<W: Weight>(v: FstV<W>, s: int, path: Seq<int>) -> bool
    decreases path.len(),
{
    if path.len() == 0 {
        0 <= s < v.n()
    } else {
        &&& 0 <= s < v.n()
        &&& 0 <= path[0] < v.arcs(s).len()
        &&& goes(v, v.arcs(s)[path[0]].nextstate as int, path.drop_first())
    }
}

/// What a path from `s` weighs together with ending where it leads.
pub open spec fn ending_weight<W: Weight>(v: FstV<W>, s: int, path: Seq<int>) -> W
    decreases path.len(),
{
    if path.len() == 0 {
        v.fin(s)
    } else {
        let arc = v.arcs(s)[path[0]];
        arc.weight.spec_times(ending_weight(v, arc.nextstate as int, path.drop_first()))
    }
}

/// Whether `list` holds each path from `s` of fewer than `k` arcs, and each once.
pub open spec fn lists_ways_on<W: Weight>(
    v: FstV<W>,
    s: int,
    k: nat,
    list: Seq<Seq<int>>,
) -> bool {
    &&& list.no_duplicates()
    &&& forall|path: Seq<int>| #[trigger]
        list.contains(path) <==> goes(v, s, path) && path.len() < k
}

/// What the paths of a list weigh together with ending where they lead.
pub open spec fn ending_weights<W: Weight>(
    v: FstV<W>,
    s: int,
    list: Seq<Seq<int>>,
) -> Seq<W> {
    list.map_values(|path: Seq<int>| ending_weight(v, s, path))
}

/// The ways on from a state by its first `j` arcs, `lists` being the ways on behind them.
spec fn ways_by<W: Weight>(
    arcs: Seq<Arc<W>>,
    lists: Seq<Seq<Seq<int>>>,
    j: int,
) -> Seq<Seq<int>>
    decreases j,
{
    if j <= 0 {
        seq![Seq::<int>::empty()]
    } else {
        ways_by(arcs, lists, j - 1) + lists[arcs[j - 1].nextstate as int].map_values(
            |path: Seq<int>| seq![j - 1] + path,
        )
    }
}

/// The ways on from each state of fewer than `k` arcs.
spec fn ways_in<W: Weight>(v: FstV<W>, k: nat) -> Seq<Seq<Seq<int>>>
    decreases k,
{
    if k == 0 {
        Seq::new(v.n(), |s: int| Seq::empty())
    } else {
        let lists = ways_in(v, (k - 1) as nat);
        Seq::new(v.n(), |s: int| ways_by(v.arcs(s), lists, v.arcs(s).len() as int))
    }
}

proof fn lemma_ending_member<W: Weight>(v: FstV<W>, s: int, path: Seq<int>)
    requires
        stays_inside::<W>(),
        v.wf(),
        all_members(v),
        goes(v, s, path),
    ensures
        ending_weight(v, s, path).spec_member(),
    decreases path.len(),
{
    assert(state_is_member(v.states[s]));
    if path.len() > 0 {
        let arc = v.arcs(s)[path[0]];
        lemma_ending_member(v, arc.nextstate as int, path.drop_first());
        assert(v.states[s].arcs[path[0]].weight.spec_member());
        lemma_stays(
            arc.weight,
            ending_weight(v, arc.nextstate as int, path.drop_first()),
        );
    }
}

proof fn lemma_endings_are_members<W: Weight>(v: FstV<W>, s: int, list: Seq<Seq<int>>)
    requires
        stays_inside::<W>(),
        v.wf(),
        all_members(v),
        forall|path: Seq<int>| #[trigger] list.contains(path) ==> goes(v, s, path),
    ensures
        are_all_members(ending_weights(v, s, list)),
{
    let weights = ending_weights(v, s, list);
    assert forall|i: int| 0 <= i < weights.len() implies (#[trigger] weights[i]).spec_member() by {
        assert(list.contains(list[i]));
        lemma_ending_member(v, s, list[i]);
    }
}

#[verifier::spinoff_prover]
#[verifier::rlimit(60)]
proof fn lemma_ways_by<W: Weight>(
    v: FstV<W>,
    k: nat,
    s: int,
    lists: Seq<Seq<Seq<int>>>,
    d: Seq<W>,
    j: int,
)
    requires
        stays_inside::<W>(),
        zero_is_nothing::<W>(),
        sums_distribute::<W>(),
        v.wf(),
        all_members(v),
        0 <= s < v.n(),
        0 <= j <= v.arcs(s).len(),
        lists.len() == v.n(),
        d.len() == v.n(),
        forall|t: int|
            0 <= t < v.n() ==> lists_ways_on(v, t, k, #[trigger] lists[t]) && d[t] == add_up(
                ending_weights(v, t, lists[t]),
            ),
    ensures
        ({
            let list = ways_by(v.arcs(s), lists, j);
            &&& list.no_duplicates()
            &&& forall|path: Seq<int>| #[trigger]
                list.contains(path) <==> goes(v, s, path) && path.len() <= k && (path.len() > 0
                    ==> path[0] < j)
            &&& onward_sum(v.arcs(s), d, v.fin(s), j) == add_up(ending_weights(v, s, list))
        }),
    decreases j,
{
    let list = ways_by(v.arcs(s), lists, j);
    if j == 0 {
        let none = Seq::<int>::empty();
        let weights = ending_weights(v, s, list);
        assert(state_is_member(v.states[s]));
        lemma_distribute(v.fin(s), v.fin(s), v.fin(s));
        assert(weights.len() == 1);
        assert(weights[0] == v.fin(s));
        assert(weights.drop_last() =~= Seq::empty());
        assert(add_up(weights.drop_last()) == W::spec_zero());
        assert forall|path: Seq<int>| #[trigger] list.contains(path) <==> goes(v, s, path)
            && path.len() <= k && (path.len() > 0 ==> path[0] < 0) by {
            if path.len() == 0 {
                assert(path =~= none);
                assert(list[0] == path);
            }
        }
    } else {
        lemma_ways_by(v, k, s, lists, d, j - 1);
        let before = ways_by(v.arcs(s), lists, j - 1);
        let arc = v.arcs(s)[j - 1];
        let t = arc.nextstate as int;
        assert(v.states[s].arcs[j - 1].nextstate < v.n());
        assert(state_is_member(v.states[s]));
        assert(v.states[s].arcs[j - 1].weight.spec_member());
        let behind = lists[t];
        assert(lists_ways_on(v, t, k, behind));
        let more = behind.map_values(|path: Seq<int>| seq![j - 1] + path);
        assert forall|x: int| 0 <= x < more.len() implies (#[trigger] more[x]).len() > 0
            && more[x][0] == j - 1 && more[x].drop_first() == behind[x] by {
            assert(more[x] == seq![j - 1] + behind[x]);
            assert(more[x].drop_first() =~= behind[x]);
        }
        assert forall|path: Seq<int>| #[trigger] more.contains(path) <==> path.len() > 0
            && path[0] == j - 1 && behind.contains(path.drop_first()) by {
            if more.contains(path) {
                let x = choose|x: int| 0 <= x < more.len() && more[x] == path;
                assert(behind.contains(behind[x]));
            }
            if path.len() > 0 && path[0] == j - 1 && behind.contains(path.drop_first()) {
                let x = choose|x: int| 0 <= x < behind.len() && behind[x] == path.drop_first();
                assert(more[x] =~= path);
            }
        }
        // The sum goes on.
        lemma_endings_are_members(v, t, behind);
        lemma_endings_are_members(v, s, before);
        lemma_add_up_before(ending_weights(v, t, behind), arc.weight);
        assert(ending_weights(v, s, more) =~= ending_weights(v, t, behind).map_values(
            |x: W| arc.weight.spec_times(x),
        )) by {
            assert forall|x: int| 0 <= x < more.len() implies ending_weights(v, s, more)[x]
                == arc.weight.spec_times(ending_weights(v, t, behind)[x]) by {
                assert(more[x].drop_first() == behind[x]);
            }
        }
        lemma_add_up_on(ending_weights(v, s, before), ending_weights(v, s, more));
        assert(ending_weights(v, s, before + more) =~= ending_weights(v, s, before)
            + ending_weights(v, s, more));
        // No path is there twice.
        let n = before.len() as int;
        assert forall|a: int, b: int| 0 <= a < list.len() && 0 <= b < list.len() && a != b implies
            list[a] != list[b] by {
            if a < n && b < n {
                assert(before[a] != before[b]);
            } else if a >= n && b >= n {
                assert(behind[a - n] != behind[b - n]);
                assert(more[a - n].drop_first() == behind[a - n]);
                assert(more[b - n].drop_first() == behind[b - n]);
            } else {
                let (old, new) = if a < n {
                    (a, b)
                } else {
                    (b, a)
                };
                assert(before.contains(before[old]));
                assert(more[new - n][0] == j - 1);
            }
        }
        assert forall|path: Seq<int>| #[trigger] list.contains(path) <==> goes(v, s, path)
            && path.len() <= k && (path.len() > 0 ==> path[0] < j) by {
            assert(list.contains(path) <==> before.contains(path) || more.contains(path)) by {
                if list.contains(path) {
                    let x = choose|x: int| 0 <= x < list.len() && list[x] == path;
                    if x < n {
                        assert(before[x] == path);
                    } else {
                        assert(more[x - n] == path);
                    }
                }
                if before.contains(path) {
                    let x = choose|x: int| 0 <= x < before.len() && before[x] == path;
                    assert(list[x] == path);
                }
                if more.contains(path) {
                    let x = choose|x: int| 0 <= x < more.len() && more[x] == path;
                    assert(list[x + n] == path);
                }
            }
            if path.len() > 0 && path[0] == j - 1 {
                assert(more.contains(path) <==> behind.contains(path.drop_first()));
            }
        }
    }
}

proof fn lemma_ways_in<W: Weight>(v: FstV<W>, k: nat, s: int)
    requires
        stays_inside::<W>(),
        zero_is_nothing::<W>(),
        sums_distribute::<W>(),
        v.wf(),
        all_members(v),
        0 <= s < v.n(),
    ensures
        lists_ways_on(v, s, k, ways_in(v, k)[s]),
        to_end(v, k)[s] == add_up(ending_weights(v, s, ways_in(v, k)[s])),
    decreases k,
{
    if k > 0 {
        let less = (k - 1) as nat;
        let lists = ways_in(v, less);
        let d = to_end(v, less);
        assert(lists.len() == v.n() && d.len() == v.n());
        assert forall|t: int| 0 <= t < v.n() implies lists_ways_on(v, t, less, #[trigger] lists[t])
            && d[t] == add_up(ending_weights(v, t, lists[t])) by {
            lemma_ways_in(v, less, t);
        }
        lemma_ways_by(v, less, s, lists, d, v.arcs(s).len() as int);
    }
}

/// What paths from a state to the end add up to, of fewer than `k` arcs, is what all of them
/// weigh, each added once.
pub proof fn law_distances_to_the_end_add_up_all_paths<W: Weight>(
    v: FstV<W>,
    k: nat,
    s: int,
) -> (list: Seq<Seq<int>>)
    requires
        stays_inside::<W>(),
        zero_is_nothing::<W>(),
        sums_distribute::<W>(),
        v.wf(),
        all_members(v),
        0 <= s < v.n(),
    ensures
        lists_ways_on(v, s, k, list),
        to_end(v, k)[s] == add_up(ending_weights(v, s, list)),
{
    lemma_ways_in(v, k, s);
    ways_in(v, k)[s]
}

/// What the paths of a list from the start weigh together with ending where they lead.
pub open spec fn totals_of<W: Weight>(v: FstV<W>, list: Seq<Seq<int>>) -> Seq<W> {
    list.map_values(
        |path: Seq<int>|
            path_weight(v, v.start->0 as int, path).spec_times(
                v.fin(leads(v, v.start->0 as int, path)),
            ),
    )
}

/// Whether `list` holds each path of fewer than `k` arcs from the start to one of the first
/// `n` states, and each once.
pub open spec fn lists_paths_below<W: Weight>(
    v: FstV<W>,
    n: int,
    k: nat,
    list: Seq<Seq<int>>,
) -> bool {
    &&& list.no_duplicates()
    &&& forall|path: Seq<int>| #[trigger]
        list.contains(path) <==> v.start is Some && is_path(v, v.start->0 as int, path) && 0
            <= leads(v, v.start->0 as int, path) < n && path.len() < k
}

proof fn lemma_totals_below<W: Weight>(v: FstV<W>, k: nat, n: int) -> (list: Seq<Seq<int>>)
    requires
        stays_inside::<W>(),
        zero_is_nothing::<W>(),
        sums_distribute::<W>(),
        v.wf(),
        v.n() <= usize::MAX,
        all_members(v),
        0 <= n <= v.n(),
    ensures
        lists_paths_below(v, n, k, list),
        are_all_members(totals_of(v, list)),
        ending_sum(v, from_start(v, k), n) == add_up(totals_of(v, list)),
    decreases n,
{
    if n == 0 {
        Seq::empty()
    } else {
        let before = lemma_totals_below(v, k, n - 1);
        let t = n - 1;
        let here = law_distances_add_up_all_paths(v, k, t);
        let start = v.start->0 as int;
        let fin = v.fin(t);
        assert(state_is_member(v.states[t]));
        lemma_weights_are_members(v, here);
        lemma_add_up_behind(weights_of(v, here), fin);
        assert(totals_of(v, here) =~= weights_of(v, here).map_values(|x: W| x.spec_times(fin))) by {
            assert forall|x: int| 0 <= x < here.len() implies totals_of(v, here)[x] == weights_of(
                v,
                here,
            )[x].spec_times(fin) by {
                assert(here.contains(here[x]));
            }
        }
        lemma_add_up_on(totals_of(v, before), totals_of(v, here));
        let all = before + here;
        let m = before.len() as int;
        assert(totals_of(v, all) =~= totals_of(v, before) + totals_of(v, here));
        assert forall|a: int, b: int| 0 <= a < all.len() && 0 <= b < all.len() && a != b implies
            all[a] != all[b] by {
            if a < m && b < m {
                assert(before[a] != before[b]);
            } else if a >= m && b >= m {
                assert(here[a - m] != here[b - m]);
            } else if a < m {
                assert(before.contains(before[a]));
                assert(here.contains(here[b - m]));
            } else {
                assert(before.contains(before[b]));
                assert(here.contains(here[a - m]));
            }
        }
        assert forall|path: Seq<int>| #[trigger] all.contains(path) <==> v.start is Some
            && is_path(v, start, path) && 0 <= leads(v, start, path) < n && path.len() < k by {
            assert(all.contains(path) <==> before.contains(path) || here.contains(path)) by {
                if all.contains(path) {
                    let x = choose|x: int| 0 <= x < all.len() && all[x] == path;
                    if x < m {
                        assert(before[x] == path);
                    } else {
                        assert(here[x - m] == path);
                    }
                }
                if before.contains(path) {
                    let x = choose|x: int| 0 <= x < before.len() && before[x] == path;
                    assert(all[x] == path);
                }
                if here.contains(path) {
                    let x = choose|x: int| 0 <= x < here.len() && here[x] == path;
                    assert(all[x + m] == path);
                }
            }
        }
        assert forall|x: int| 0 <= x < totals_of(v, all).len() implies (#[trigger] totals_of(
            v,
            all,
        )[x]).spec_member() by {
            if x < m {
                assert(totals_of(v, before)[x].spec_member());
            } else {
                assert(totals_of(v, here)[x - m].spec_member());
            }
        }
        all
    }
}

/// The total of a machine, taken from its start, is what all its paths weigh together with
/// where they end, each added once.
pub proof fn law_total_adds_up_all_paths<W: Weight>(
    v: FstV<W>,
    delta: W::Delta,
    d: Seq<W>,
) -> (got: (Seq<Seq<int>>, nat))
    requires
        stays_inside::<W>(),
        zero_is_nothing::<W>(),
        sums_distribute::<W>(),
        closeness_is_equality::<W>(delta),
        v.wf(),
        v.n() <= usize::MAX,
        all_members(v),
        is_distance(v, false, delta, d),
    ensures
        lists_paths_below(v, v.n() as int, got.1, got.0),
        spec_total_weight(v, d, false) == add_up(totals_of(v, got.0)),
{
    let k = lemma_settled(v, false, delta, d);
    let list = lemma_totals_below(v, k, v.n() as int);
    (list, k)
}

} // verus!
