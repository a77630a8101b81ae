//! What all paths from the start to a state, or from a state to the end, add up to.
use crate::arc::Arc;
use crate::error::OpenFstError;
use crate::vector_fst::{FstV, VectorFst};
use crate::weight::Weight;
use vstd::prelude::*;

verus! {

/// What the first `k` arcs add to `sum`, `dist` being what is added up behind them.
pub open spec fn onward_sum<W: Weight>(arcs: Seq<Arc<W>>, dist: Seq<W>, sum: W, k: int) -> W
    decreases k,
{
    if k <= 0 {
        sum
    } else {
        let arc = arcs[k - 1];
        onward_sum(arcs, dist, sum, k - 1).spec_plus(
            arc.weight.spec_times(dist[arc.nextstate as int]),
        )
    }
}

/// What all paths from each state to the end add up to that take fewer than `k`
/// arcs.
pub open spec fn to_end<W: Weight>(v: FstV<W>, k: nat) -> Seq<W>
    decreases k,
{
    if k == 0 {
        Seq::new(v.n(), |s: int| W::spec_zero())
    } else {
        let before = to_end(v, (k - 1) as nat);
        Seq::new(
            v.n(),
            |s: int| onward_sum(v.arcs(s), before, v.fin(s), v.arcs(s).len() as int),
        )
    }
}

/// What each state has once the first `i` arcs of state `t` have been followed,
/// `sums` being what it had and `here` what state `t` passes on.
pub open spec fn passed_on<W: Weight>(arcs: Seq<Arc<W>>, here: W, sums: Seq<W>, i: int) -> Seq<W>
    decreases i,
{
    if i <= 0 {
        sums
    } else {
        let before = passed_on(arcs, here, sums, i - 1);
        let to = arcs[i - 1].nextstate as int;
        before.update(to, before[to].spec_plus(here.spec_times(arcs[i - 1].weight)))
    }
}

/// What each state has once the arcs of the first `t` states have been followed.
pub open spec fn all_passed_on<W: Weight>(v: FstV<W>, dist: Seq<W>, t: int) -> Seq<W>
    decreases t,
{
    if t <= 0 {
        Seq::new(
            v.n(),
            |s: int|
                if v.start == Some(s as usize) {
                    W::spec_one()
                } else {
                    W::spec_zero()
                },
        )
    } else {
        passed_on(
            v.arcs(t - 1),
            dist[t - 1],
            all_passed_on(v, dist, t - 1),
            v.arcs(t - 1).len() as int,
        )
    }
}

/// What all paths from the start to each state add up to that take fewer than `k`
/// arcs.
pub open spec fn from_start<W: Weight>(v: FstV<W>, k: nat) -> Seq<W>
    decreases k,
{
    if k == 0 {
        Seq::new(v.n(), |s: int| W::spec_zero())
    } else {
        all_passed_on(v, from_start(v, (k - 1) as nat), v.n() as int)
    }
}

/// What all paths add up to that take fewer than `k` arcs, from the end or from the
/// start.
pub open spec fn distance_in<W: Weight>(v: FstV<W>, reverse: bool, k: nat) -> Seq<W> {
    if reverse {
        to_end(v, k)
    } else {
        from_start(v, k)
    }
}

/// Whether two lists of weights are within `delta` of each other.
pub open spec fn all_alike<W: Weight>(a: Seq<W>, b: Seq<W>, delta: W::Delta) -> bool {
    forall|s: int| 0 <= s < a.len() ==> (#[trigger] a[s]).spec_approx(b[s], delta)
}

/// Whether paths of more than `k` arcs add no more than `delta`.
pub open spec fn settles_at<W: Weight>(v: FstV<W>, reverse: bool, delta: W::Delta, k: nat) -> bool {
    all_alike(distance_in(v, reverse, k), distance_in(v, reverse, k + 1), delta)
}

/// Whether `dist` is what all paths add up to, longer and longer ones being added
/// until they add no more than `delta`.
pub open spec fn is_distance<W: Weight>(
    v: FstV<W>,
    reverse: bool,
    delta: W::Delta,
    dist: Seq<W>,
) -> bool {
    exists|k: nat| #[trigger] settles_first(v, reverse, delta, k) && dist == distance_in(
        v,
        reverse,
        k + 1,
    )
}

/// Whether `k` is the first number of arcs beyond which paths add no more than
/// `delta`.
pub open spec fn settles_first<W: Weight>(
    v: FstV<W>,
    reverse: bool,
    delta: W::Delta,
    k: nat,
) -> bool {
    settles_at(v, reverse, delta, k) && forall|j: nat|
        j < k ==> !(#[trigger] settles_at(v, reverse, delta, j))
}

proof fn lemma_arcs_lead<W: Weight>(v: FstV<W>, s: int)
    requires
        v.wf(),
        0 <= s < v.n(),
    ensures
        forall|i: int| 0 <= i < v.arcs(s).len() ==> (#[trigger] v.arcs(s)[i]).nextstate < v.n(),
{
    assert forall|i: int| 0 <= i < v.arcs(s).len() implies (#[trigger] v.arcs(s)[i]).nextstate
        < v.n() by {
        assert(v.states[s].arcs[i].nextstate < v.n());
    }
}

pub proof fn lemma_distance_len<W: Weight>(v: FstV<W>, reverse: bool, k: nat)
    requires
        v.wf(),
    ensures
        distance_in(v, reverse, k).len() == v.n(),
{
    if !reverse && k > 0 {
        lemma_passed_len(v, from_start(v, (k - 1) as nat), v.n() as int);
    }
}

proof fn lemma_passed_len<W: Weight>(v: FstV<W>, dist: Seq<W>, t: int)
    requires
        v.wf(),
        t <= v.n(),
    ensures
        all_passed_on(v, dist, t).len() == v.n(),
    decreases t,
{
    if t > 0 {
        lemma_passed_len(v, dist, t - 1);
        lemma_arcs_lead(v, t - 1);
        lemma_passed_on_len(
            v.arcs(t - 1),
            dist[t - 1],
            all_passed_on(v, dist, t - 1),
            v.arcs(t - 1).len() as int,
        );
    }
}

proof fn lemma_passed_on_len<W: Weight>(arcs: Seq<Arc<W>>, here: W, sums: Seq<W>, i: int)
    requires
        i <= arcs.len(),
        forall|j: int| 0 <= j < arcs.len() ==> (#[trigger] arcs[j]).nextstate < sums.len(),
    ensures
        passed_on(arcs, here, sums, i).len() == sums.len(),
    decreases i,
{
    if i > 0 {
        lemma_passed_on_len(arcs, here, sums, i - 1);
    }
}

/// What paths of one arc more add up to, to the end.
fn step_to_end<W: Weight>(fst: &VectorFst<W>, dist: &Vec<W>) -> (next: Vec<W>)
    requires
        fst@.wf(),
        dist@.len() == fst@.n(),
    ensures
        next@ =~= Seq::new(
            fst@.n(),
            |s: int|
                onward_sum(fst@.arcs(s), dist@, fst@.fin(s), fst@.arcs(s).len() as int),
        ),
{
    let ghost v = fst@;
    let n: usize = fst.num_states();
    let mut next: Vec<W> = Vec::new();
    let mut s: usize = 0;
    while s < n
        invariant
            s <= n,
            n == v.n(),
            v == fst@,
            v.wf(),
            dist@.len() == n,
            next@ =~= Seq::new(
                s as nat,
                |t: int| onward_sum(v.arcs(t), dist@, v.fin(t), v.arcs(t).len() as int),
            ),
        decreases n - s,
    {
        let arcs = fst.arcs(s);
        let mut sum = fst.final_weight(s);
        let mut i: usize = 0;
        while i < arcs.len()
            invariant
                i <= arcs@.len(),
                s < n,
                n == v.n(),
                v.wf(),
                arcs@ == v.arcs(s as int),
                dist@.len() == n,
                sum == onward_sum(arcs@, dist@, v.fin(s as int), i as int),
            decreases arcs@.len() - i,
        {
            assert(v.states[s as int].arcs[i as int].nextstate < v.n());
            let arc = &arcs[i];
            sum = sum.plus(&arc.weight.times(&dist[arc.nextstate]));
            i = i + 1;
        }
        next.push(sum);
        s = s + 1;
    }
    next
}

/// What paths of one arc more add up to, from the start.
fn step_from_start<W: Weight>(fst: &VectorFst<W>, dist: &Vec<W>) -> (next: Vec<W>)
    requires
        fst@.wf(),
        dist@.len() == fst@.n(),
    ensures
        next@ == all_passed_on(fst@, dist@, fst@.n() as int),
{
    let ghost v = fst@;
    let n: usize = fst.num_states();
    let start = fst.start();
    let mut next: Vec<W> = Vec::new();
    let mut s: usize = 0;
    while s < n
        invariant
            s <= n,
            n == v.n(),
            start == v.start,
            next@ =~= Seq::new(
                s as nat,
                |t: int|
                    if v.start == Some(t as usize) {
                        W::spec_one()
                    } else {
                        W::spec_zero()
                    },
            ),
        decreases n - s,
    {
        let begins = match start {
            Some(t) => t == s,
            None => false,
        };
        next.push(
            if begins {
                W::one()
            } else {
                W::zero()
            },
        );
        s = s + 1;
    }
    let mut t: usize = 0;
    while t < n
        invariant
            t <= n,
            n == v.n(),
            v == fst@,
            v.wf(),
            dist@.len() == n,
            next@ == all_passed_on(v, dist@, t as int),
        decreases n - t,
    {
        let arcs = fst.arcs(t);
        let ghost sums = next@;
        proof {
            lemma_passed_len(v, dist@, t as int);
        }
        let mut i: usize = 0;
        while i < arcs.len()
            invariant
                i <= arcs@.len(),
                t < n,
                n == v.n(),
                v.wf(),
                arcs@ == v.arcs(t as int),
                dist@.len() == n,
                sums.len() == n,
                next@ == passed_on(arcs@, dist@[t as int], sums, i as int),
            decreases arcs@.len() - i,
        {
            assert(v.states[t as int].arcs[i as int].nextstate < v.n());
            proof {
                lemma_arcs_lead(v, t as int);
                lemma_passed_on_len(arcs@, dist@[t as int], sums, i as int);
            }
            let arc = &arcs[i];
            let to: usize = arc.nextstate;
            let sum = next[to].plus(&dist[t].times(&arc.weight));
            next.set(to, sum);
            i = i + 1;
        }
        t = t + 1;
    }
    next
}

/// Whether two lists of weights are within `delta` of each other.
fn check_alike<W: Weight>(a: &Vec<W>, b: &Vec<W>, delta: &W::Delta) -> (alike: bool)
    requires
        a@.len() == b@.len(),
    ensures
        alike == all_alike(a@, b@, *delta),
{
    let mut s: usize = 0;
    while s < a.len()
        invariant
            s <= a@.len(),
            a@.len() == b@.len(),
            forall|t: int| 0 <= t < s ==> (#[trigger] a@[t]).spec_approx(b@[t], *delta),
        decreases a@.len() - s,
    {
        if !a[s].approx_equal(&b[s], delta) {
            assert(!a@[s as int].spec_approx(b@[s as int], *delta));
            return false;
        }
        s = s + 1;
    }
    true
}

/// What all paths add up to, from each state to the end or from the start to each
/// state. Longer and longer paths are added until they add no more than `delta`.
///
/// Paths that keep on adding are an error.
pub fn shortest_distance<W: Weight>(fst: &VectorFst<W>, reverse: bool, delta: &W::Delta) -> (
result: Result<Vec<W>, OpenFstError>)
    requires
        fst@.wf(),
    ensures
        match result {
            Ok(dist) => is_distance(fst@, reverse, *delta, dist@) && dist@.len() == fst@.n(),
            Err(e) => e is InvalidOperation && forall|k: nat|
                k < usize::MAX ==> !(#[trigger] settles_at(fst@, reverse, *delta, k)),
        },
{
    let ghost v = fst@;
    let n: usize = fst.num_states();
    let mut dist: Vec<W> = Vec::new();
    let mut s: usize = 0;
    while s < n
        invariant
            s <= n,
            dist@ =~= Seq::new(s as nat, |t: int| W::spec_zero()),
        decreases n - s,
    {
        dist.push(W::zero());
        s = s + 1;
    }
    assert(dist@ =~= distance_in(v, reverse, 0));
    let mut k: usize = 0;
    while k < usize::MAX
        invariant
            v == fst@,
            v.wf(),
            dist@ == distance_in(v, reverse, k as nat),
            dist@.len() == v.n(),
            forall|j: nat| j < k ==> !(#[trigger] settles_at(v, reverse, *delta, j)),
        decreases usize::MAX - k,
    {
        let next = if reverse {
            step_to_end(fst, &dist)
        } else {
            step_from_start(fst, &dist)
        };
        proof {
            assert(next@ =~= distance_in(v, reverse, (k + 1) as nat));
            lemma_distance_len(v, reverse, (k + 1) as nat);
        }
        if check_alike(&dist, &next, delta) {
            assert(settles_first(v, reverse, *delta, k as nat));
            return Ok(next);
        }
        dist = next;
        k = k + 1;
    }
    Err(OpenFstError::InvalidOperation("ShortestDistance: the distances do not settle"))
}

/// What all paths from each state to the end add up to.
pub fn shortest_distance_reverse<W: Weight>(fst: &VectorFst<W>, delta: &W::Delta) -> (result: Result<
    Vec<W>,
    OpenFstError,
>)
    requires
        fst@.wf(),
    ensures
        match result {
            Ok(dist) => is_distance(fst@, true, *delta, dist@) && dist@.len() == fst@.n(),
            Err(e) => e is InvalidOperation && forall|k: nat|
                k < usize::MAX ==> !(#[trigger] settles_at(fst@, true, *delta, k)),
        },
{
    shortest_distance(fst, true, delta)
}

/// What all paths from the start to each state add up to.
pub fn shortest_distance_forward<W: Weight>(fst: &VectorFst<W>, delta: &W::Delta) -> (result: Result<
    Vec<W>,
    OpenFstError,
>)
    requires
        fst@.wf(),
    ensures
        match result {
            Ok(dist) => is_distance(fst@, false, *delta, dist@) && dist@.len() == fst@.n(),
            Err(e) => e is InvalidOperation && forall|k: nat|
                k < usize::MAX ==> !(#[trigger] settles_at(fst@, false, *delta, k)),
        },
{
    shortest_distance(fst, false, delta)
}

} // verus!
