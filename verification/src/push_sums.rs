//! Where pushing leaves the weights: as early, or as late, as they can be.
use crate::arc::Arc;
use crate::path_sums::{closeness_is_equality, lemma_settled};
use crate::push::{is_pushed, looks_back, pushed_by};
use crate::reweight::{moved_weights, reweighted_arc, reweighted_final, start_mended, ReweightType};
use crate::shortest_distance::{
    all_passed_on, distance_in, from_start, is_distance, lemma_distance_len, onward_sum, passed_on,
    settles_at, settles_first, to_end,
};
use crate::vector_fst::{all_members, state_is_member, FstV};
use crate::weight::{Divide, DivideType, Weight};
use vstd::prelude::*;

verus! {

/// Sums and products of weights in the semiring are in it.
#[verifier::opaque]
pub open spec fn stays_inside<W: Weight>() -> bool {
    forall|a: W, b: W|
        #![trigger a.spec_plus(b)]
        #![trigger a.spec_times(b)]
        a.spec_member() && b.spec_member() ==> a.spec_plus(b).spec_member() && a.spec_times(
            b,
        ).spec_member()
}

/// The sum of nothing adds nothing, and takes away what it multiplies.
#[verifier::opaque]
pub open spec fn zero_is_nothing<W: Weight>() -> bool {
    &&& W::spec_zero().spec_member()
    &&& W::spec_one().spec_member()
    &&& forall|a: W|
        #![trigger a.spec_member()]
        a.spec_member() ==> a.spec_plus(W::spec_zero()) == a && a.spec_times(W::spec_zero())
            == W::spec_zero() && W::spec_zero().spec_times(a) == W::spec_zero()
}

/// Division on one side is exact: a weight divided by itself is the product of nothing, and
/// a sum is divided part by part.
#[verifier::opaque]
pub open spec fn divides_sums<W: Divide>(side: DivideType) -> bool {
    &&& forall|a: W|
        a.spec_member() && a != W::spec_zero() ==> #[trigger] a.spec_divide(a, side)
            == W::spec_one()
    &&& forall|a: W, b: W, c: W|
        a.spec_member() && b.spec_member() && c.spec_member() && c != W::spec_zero()
            ==> #[trigger] a.spec_plus(b).spec_divide(c, side) == a.spec_divide(c, side).spec_plus(
            b.spec_divide(c, side),
        )
    &&& forall|c: W|
        c.spec_member() && c != W::spec_zero() ==> #[trigger] W::spec_zero().spec_divide(c, side)
            == W::spec_zero()
    &&& forall|a: W, c: W|
        a.spec_member() && c.spec_member() && c != W::spec_zero() ==> (#[trigger] a.spec_divide(
            c,
            side,
        )).spec_member()
}

/// What is divided out behind one factor and put in front of the next is gone.
#[verifier::opaque]
pub open spec fn division_telescopes<W: Divide>() -> bool {
    forall|a: W, b: W, c: W, d: W|
        a.spec_member() && b.spec_member() && c.spec_member() && d.spec_member() && c
            != W::spec_zero() && d != W::spec_zero() ==> #[trigger] a.spec_divide(
            c,
            DivideType::Right,
        ).spec_times(c.spec_times(b).spec_divide(d, DivideType::Right)) == a.spec_times(
            b,
        ).spec_divide(d, DivideType::Right)
}

/// Sums and products stay in the semiring.
pub proof fn lemma_stays<W: Weight>(a: W, b: W)
    requires
        stays_inside::<W>(),
        a.spec_member(),
        b.spec_member(),
    ensures
        a.spec_plus(b).spec_member(),
        a.spec_times(b).spec_member(),
{
    reveal(stays_inside);
}

/// What the sum of nothing does.
pub proof fn lemma_nothing<W: Weight>(a: W)
    requires
        zero_is_nothing::<W>(),
    ensures
        W::spec_zero().spec_member(),
        W::spec_one().spec_member(),
        a.spec_member() ==> a.spec_plus(W::spec_zero()) == a && a.spec_times(W::spec_zero())
            == W::spec_zero() && W::spec_zero().spec_times(a) == W::spec_zero(),
{
    reveal(zero_is_nothing);
}

proof fn lemma_divided<W: Divide>(a: W, b: W, c: W, side: DivideType)
    requires
        divides_sums::<W>(side),
        a.spec_member(),
        b.spec_member(),
        c.spec_member(),
        c != W::spec_zero(),
    ensures
        c.spec_divide(c, side) == W::spec_one(),
        a.spec_plus(b).spec_divide(c, side) == a.spec_divide(c, side).spec_plus(
            b.spec_divide(c, side),
        ),
        W::spec_zero().spec_divide(c, side) == W::spec_zero(),
        a.spec_divide(c, side).spec_member(),
{
    reveal(divides_sums);
}

proof fn lemma_telescopes<W: Divide>(a: W, b: W, c: W, d: W)
    requires
        division_telescopes::<W>(),
        a.spec_member(),
        b.spec_member(),
        c.spec_member(),
        d.spec_member(),
        c != W::spec_zero(),
        d != W::spec_zero(),
    ensures
        a.spec_divide(c, DivideType::Right).spec_times(
            c.spec_times(b).spec_divide(d, DivideType::Right),
        ) == a.spec_times(b).spec_divide(d, DivideType::Right),
{
    reveal(division_telescopes);
}

/// Distances are what they are.
pub proof fn lemma_one_distance<W: Weight>(
    v: FstV<W>,
    reverse: bool,
    delta: W::Delta,
    a: Seq<W>,
    b: Seq<W>,
)
    requires
        is_distance(v, reverse, delta, a),
        is_distance(v, reverse, delta, b),
    ensures
        a == b,
{
    let j = choose|k: nat| #[trigger]
        settles_first(v, reverse, delta, k) && a == distance_in(v, reverse, k + 1);
    let k = choose|k: nat| #[trigger]
        settles_first(v, reverse, delta, k) && b == distance_in(v, reverse, k + 1);
    assert(settles_at(v, reverse, delta, j));
    assert(settles_at(v, reverse, delta, k));
    if j < k {
        assert(!settles_at(v, reverse, delta, j));
    }
    if k < j {
        assert(!settles_at(v, reverse, delta, k));
    }
}

/// What ends in a state and what leaves it by its first `k` arcs add up to, arcs aside that
/// lead where nothing can be gained, `d` being what can be gained.
pub open spec fn leaving_sum<W: Weight>(w: FstV<W>, d: Seq<W>, s: int, k: int) -> W
    decreases k,
{
    if k <= 0 {
        w.fin(s)
    } else {
        let arc = w.arcs(s)[k - 1];
        if d[arc.nextstate as int] == W::spec_zero() {
            leaving_sum(w, d, s, k - 1)
        } else {
            leaving_sum(w, d, s, k - 1).spec_plus(arc.weight)
        }
    }
}

/// What is pushed of a state that is not the start.
proof fn lemma_pushed_state<W: Divide>(
    v: FstV<W>,
    to: ReweightType,
    d: Seq<W>,
    s: int,
)
    requires
        v.wf(),
        v.n() < usize::MAX,
        d.len() == v.n(),
        0 <= s < v.n(),
        pushed_by(v, to, d, false).start != Some(s as usize),
    ensures
        ({
            let w = pushed_by(v, to, d, false);
            &&& s < w.n()
            &&& w.fin(s) == reweighted_final(v.fin(s), d[s], to)
            &&& w.arcs(s).len() == v.arcs(s).len()
            &&& forall|i: int|
                0 <= i < v.arcs(s).len() ==> #[trigger] w.arcs(s)[i] == reweighted_arc(
                    v.arcs(s)[i],
                    d[s],
                    d[v.arcs(s)[i].nextstate as int],
                    to,
                )
        }),
{
    let w = pushed_by(v, to, d, false);
    let moved = moved_weights(v, d, to);
    assert(moved.start == v.start);
    assert(moved.n() == v.n());
    if let Some(start) = v.start {
        let mended = start_mended(moved, d[start as int], to);
        assert(w.states == mended.states && w.start == mended.start);
        assert(mended.states[s] == moved.states[s]);
    } else {
        assert(w.states == moved.states);
    }
}

proof fn lemma_leaving<W: Divide>(v: FstV<W>, w: FstV<W>, d: Seq<W>, s: int, k: int)
    requires
        stays_inside::<W>(),
        zero_is_nothing::<W>(),
        divides_sums::<W>(DivideType::Left),
        v.wf(),
        all_members(v),
        d.len() == v.n(),
        0 <= s < v.n(),
        d[s] != W::spec_zero(),
        forall|t: int| 0 <= t < d.len() ==> (#[trigger] d[t]).spec_member(),
        w.fin(s) == reweighted_final(v.fin(s), d[s], ReweightType::ToInitial),
        w.arcs(s).len() == v.arcs(s).len(),
        forall|i: int|
            0 <= i < v.arcs(s).len() ==> #[trigger] w.arcs(s)[i] == reweighted_arc(
                v.arcs(s)[i],
                d[s],
                d[v.arcs(s)[i].nextstate as int],
                ReweightType::ToInitial,
            ),
        0 <= k <= v.arcs(s).len(),
    ensures
        onward_sum(v.arcs(s), d, v.fin(s), k).spec_member(),
        leaving_sum(w, d, s, k) == onward_sum(v.arcs(s), d, v.fin(s), k).spec_divide(
            d[s],
            DivideType::Left,
        ),
    decreases k,
{
    assert(state_is_member(v.states[s]));
    if k > 0 {
        lemma_leaving(v, w, d, s, k - 1);
        let arc = v.arcs(s)[k - 1];
        assert(v.states[s].arcs[k - 1].nextstate < v.n());
        let there = d[arc.nextstate as int];
        let before = onward_sum(v.arcs(s), d, v.fin(s), k - 1);
        lemma_stays(arc.weight, there);
        lemma_stays(before, arc.weight.spec_times(there));
        lemma_nothing(before);
        lemma_nothing(arc.weight);
        lemma_divided(before, arc.weight.spec_times(there), d[s], DivideType::Left);
        assert(w.arcs(s)[k - 1] == reweighted_arc(arc, d[s], there, ReweightType::ToInitial));
    }
}

/// Pushed towards the start, the weights sit as early as they can: what ends in a state and
/// what leaves it, for where something can be gained, add up to the product of nothing,
/// except at the start.
pub proof fn law_pushed_to_initial_adds_up_to_one<W: Divide>(
    v: FstV<W>,
    delta: W::Delta,
    d: Seq<W>,
    w: FstV<W>,
    s: int,
)
    requires
        stays_inside::<W>(),
        zero_is_nothing::<W>(),
        divides_sums::<W>(DivideType::Left),
        closeness_is_equality::<W>(delta),
        v.wf(),
        v.n() < usize::MAX,
        all_members(v),
        is_distance(v, true, delta, d),
        is_pushed(v, ReweightType::ToInitial, delta, false, w),
        0 <= s < v.n(),
        w.start != Some(s as usize),
        d[s] != W::spec_zero(),
    ensures
        leaving_sum(w, d, s, w.arcs(s).len() as int) == W::spec_one(),
{
    let to = ReweightType::ToInitial;
    let e = choose|e: Seq<W>| #[trigger]
        is_distance(v, looks_back(to), delta, e) && w == pushed_by(v, to, e, false);
    lemma_one_distance(v, true, delta, d, e);
    let k = lemma_settled(v, true, delta, d);
    assert forall|t: int| 0 <= t < d.len() implies (#[trigger] d[t]).spec_member() by {
        lemma_ahead_is_member(v, k, t);
    }
    lemma_pushed_state(v, to, d, s);
    lemma_leaving(v, w, d, s, v.arcs(s).len() as int);
    assert(d[s] == onward_sum(v.arcs(s), d, v.fin(s), v.arcs(s).len() as int));
    lemma_divided(d[s], d[s], d[s], DivideType::Left);
}

proof fn lemma_onward_is_member<W: Weight>(arcs: Seq<Arc<W>>, d: Seq<W>, sum: W, k: int)
    requires
        stays_inside::<W>(),
        0 <= k <= arcs.len(),
        sum.spec_member(),
        forall|j: int|
            0 <= j < arcs.len() ==> (#[trigger] arcs[j]).weight.spec_member() && arcs[j].nextstate
                < d.len(),
        forall|s: int| 0 <= s < d.len() ==> (#[trigger] d[s]).spec_member(),
    ensures
        onward_sum(arcs, d, sum, k).spec_member(),
    decreases k,
{
    if k > 0 {
        lemma_onward_is_member(arcs, d, sum, k - 1);
        let arc = arcs[k - 1];
        let there = d[arc.nextstate as int];
        lemma_stays(arc.weight, there);
        lemma_stays(onward_sum(arcs, d, sum, k - 1), arc.weight.spec_times(there));
    }
}

proof fn lemma_ahead_is_member<W: Weight>(v: FstV<W>, k: nat, s: int)
    requires
        stays_inside::<W>(),
        zero_is_nothing::<W>(),
        v.wf(),
        all_members(v),
        0 <= s < v.n(),
    ensures
        to_end(v, k)[s].spec_member(),
    decreases k,
{
    lemma_nothing(W::spec_zero());
    if k > 0 {
        let d = to_end(v, (k - 1) as nat);
        assert forall|t: int| 0 <= t < d.len() implies (#[trigger] d[t]).spec_member() by {
            lemma_ahead_is_member(v, (k - 1) as nat, t);
        }
        let arcs = v.arcs(s);
        assert(state_is_member(v.states[s]));
        assert forall|j: int| 0 <= j < arcs.len() implies (#[trigger] arcs[j]).weight.spec_member()
            && arcs[j].nextstate < d.len() by {
            assert(v.states[s].arcs[j].nextstate < v.n());
        }
        lemma_onward_is_member(arcs, d, v.fin(s), arcs.len() as int);
    }
}

/// Whether what arcs lead to from where something arrives is where something arrives.
pub open spec fn arrives_along<W: Weight>(v: FstV<W>, d: Seq<W>) -> bool {
    forall|s: int, i: int|
        0 <= s < v.n() && 0 <= i < v.arcs(s).len() && d[s] != W::spec_zero() ==> d[(
        #[trigger] v.arcs(s)[i]).nextstate as int] != W::spec_zero()
}

/// Whether `b` is what is left of `a` where `g` has been divided out.
spec fn is_left_of<W: Divide>(a: W, b: W, g: W) -> bool {
    &&& a.spec_member()
    &&& b.spec_member()
    &&& if g == W::spec_zero() {
        a == W::spec_zero() && b == W::spec_zero()
    } else {
        b == a.spec_divide(g, DivideType::Right)
    }
}

proof fn lemma_passed_divided<W: Divide>(
    v: FstV<W>,
    w: FstV<W>,
    d: Seq<W>,
    s: int,
    here: W,
    here2: W,
    sums: Seq<W>,
    sums2: Seq<W>,
    i: int,
    t: int,
)
    requires
        stays_inside::<W>(),
        zero_is_nothing::<W>(),
        divides_sums::<W>(DivideType::Right),
        division_telescopes::<W>(),
        v.wf(),
        all_members(v),
        d.len() == v.n(),
        sums.len() == v.n(),
        sums2.len() == v.n(),
        forall|x: int| 0 <= x < d.len() ==> (#[trigger] d[x]).spec_member(),
        arrives_along(v, d),
        0 <= s < v.n(),
        0 <= t < v.n(),
        0 <= i <= v.arcs(s).len(),
        w.arcs(s).len() == v.arcs(s).len(),
        forall|j: int|
            0 <= j < v.arcs(s).len() ==> #[trigger] w.arcs(s)[j] == reweighted_arc(
                v.arcs(s)[j],
                d[s],
                d[v.arcs(s)[j].nextstate as int],
                ReweightType::ToFinal,
            ),
        is_left_of(here, here2, d[s]),
        is_left_of(sums[t], sums2[t], d[t]),
    ensures
        passed_on(v.arcs(s), here, sums, i).len() == v.n(),
        passed_on(w.arcs(s), here2, sums2, i).len() == v.n(),
        is_left_of(
            passed_on(v.arcs(s), here, sums, i)[t],
            passed_on(w.arcs(s), here2, sums2, i)[t],
            d[t],
        ),
    decreases i,
{
    if i > 0 {
        lemma_passed_divided(v, w, d, s, here, here2, sums, sums2, i - 1, t);
        let arc = v.arcs(s)[i - 1];
        let x = passed_on(v.arcs(s), here, sums, i - 1)[t];
        let y = passed_on(w.arcs(s), here2, sums2, i - 1)[t];
        assert(v.states[s].arcs[i - 1].nextstate < v.n());
        assert(state_is_member(v.states[s]));
        assert(w.arcs(s)[i - 1] == reweighted_arc(
            arc,
            d[s],
            d[arc.nextstate as int],
            ReweightType::ToFinal,
        ));
        if arc.nextstate == t {
            let a = arc.weight;
            lemma_nothing(a);
            lemma_nothing(x);
            lemma_nothing(y);
            lemma_stays(here, a);
            lemma_stays(x, here.spec_times(a));
            if d[s] != W::spec_zero() {
                assert(d[v.arcs(s)[i - 1].nextstate as int] != W::spec_zero());
                lemma_telescopes(here, a, d[s], d[t]);
                lemma_divided(x, here.spec_times(a), d[t], DivideType::Right);
                lemma_divided(x.spec_plus(here.spec_times(a)), x, d[t], DivideType::Right);
            }
        }
    }
}

proof fn lemma_all_passed_divided<W: Divide>(
    v: FstV<W>,
    w: FstV<W>,
    d: Seq<W>,
    a: Seq<W>,
    b: Seq<W>,
    k: int,
    t: int,
)
    requires
        stays_inside::<W>(),
        zero_is_nothing::<W>(),
        divides_sums::<W>(DivideType::Right),
        division_telescopes::<W>(),
        v.wf(),
        v.n() < usize::MAX,
        all_members(v),
        v.start is Some,
        d.len() == v.n(),
        forall|x: int| 0 <= x < d.len() ==> (#[trigger] d[x]).spec_member(),
        d[v.start->0 as int] == W::spec_one(),
        W::spec_one() != W::spec_zero(),
        arrives_along(v, d),
        w == pushed_by(v, ReweightType::ToFinal, d, false),
        a.len() == v.n(),
        b.len() == v.n(),
        forall|s: int| 0 <= s < v.n() ==> is_left_of(#[trigger] a[s], b[s], d[s]),
        0 <= t < v.n(),
        0 <= k <= v.n(),
    ensures
        w.n() == v.n(),
        w.start == v.start,
        all_passed_on(v, a, k).len() == v.n(),
        all_passed_on(w, b, k).len() == v.n(),
        is_left_of(all_passed_on(v, a, k)[t], all_passed_on(w, b, k)[t], d[t]),
    decreases k,
{
    let to = ReweightType::ToFinal;
    let moved = moved_weights(v, d, to);
    assert(w.states == moved.states && w.start == v.start);
    assert(w.n() == v.n());
    lemma_nothing(W::spec_zero());
    lemma_nothing(W::spec_one());
    if k == 0 {
        if d[t] != W::spec_zero() {
            lemma_divided(W::spec_one(), W::spec_zero(), d[t], DivideType::Right);
        }
    } else {
        lemma_all_passed_divided(v, w, d, a, b, k - 1, t);
        let s = k - 1;
        assert forall|j: int| 0 <= j < v.arcs(s).len() implies #[trigger] w.arcs(s)[j]
            == reweighted_arc(v.arcs(s)[j], d[s], d[v.arcs(s)[j].nextstate as int], to) by {}
        assert(is_left_of(a[s], b[s], d[s]));
        lemma_passed_divided(
            v,
            w,
            d,
            s,
            a[s],
            b[s],
            all_passed_on(v, a, k - 1),
            all_passed_on(w, b, k - 1),
            v.arcs(s).len() as int,
            t,
        );
    }
}

proof fn lemma_from_start_divided<W: Divide>(
    v: FstV<W>,
    w: FstV<W>,
    d: Seq<W>,
    k: nat,
    t: int,
)
    requires
        stays_inside::<W>(),
        zero_is_nothing::<W>(),
        divides_sums::<W>(DivideType::Right),
        division_telescopes::<W>(),
        v.wf(),
        v.n() < usize::MAX,
        all_members(v),
        v.start is Some,
        d.len() == v.n(),
        forall|x: int| 0 <= x < d.len() ==> (#[trigger] d[x]).spec_member(),
        d[v.start->0 as int] == W::spec_one(),
        W::spec_one() != W::spec_zero(),
        arrives_along(v, d),
        w == pushed_by(v, ReweightType::ToFinal, d, false),
        0 <= t < v.n(),
    ensures
        w.n() == v.n(),
        from_start(w, k).len() == v.n(),
        is_left_of(from_start(v, k)[t], from_start(w, k)[t], d[t]),
    decreases k,
{
    let to = ReweightType::ToFinal;
    let moved = moved_weights(v, d, to);
    assert(w.states == moved.states);
    assert(w.n() == v.n());
    lemma_nothing(W::spec_zero());
    if k == 0 {
        if d[t] != W::spec_zero() {
            lemma_divided(W::spec_zero(), W::spec_zero(), d[t], DivideType::Right);
        }
    } else {
        let a = from_start(v, (k - 1) as nat);
        let b = from_start(w, (k - 1) as nat);
        lemma_distance_len(v, false, (k - 1) as nat);
        assert forall|s: int| 0 <= s < v.n() implies is_left_of(#[trigger] a[s], b[s], d[s]) by {
            lemma_from_start_divided(v, w, d, (k - 1) as nat, s);
        }
        assert(b.len() == v.n()) by {
            lemma_from_start_divided(v, w, d, (k - 1) as nat, t);
        }
        lemma_all_passed_divided(v, w, d, a, b, v.n() as int, t);
    }
}

proof fn lemma_passed_member<W: Weight>(
    arcs: Seq<Arc<W>>,
    here: W,
    sums: Seq<W>,
    i: int,
    t: int,
)
    requires
        stays_inside::<W>(),
        0 <= i <= arcs.len(),
        0 <= t < sums.len(),
        here.spec_member(),
        sums[t].spec_member(),
        forall|j: int|
            0 <= j < arcs.len() ==> (#[trigger] arcs[j]).weight.spec_member() && arcs[j].nextstate
                < sums.len(),
    ensures
        passed_on(arcs, here, sums, i).len() == sums.len(),
        passed_on(arcs, here, sums, i)[t].spec_member(),
    decreases i,
{
    if i > 0 {
        lemma_passed_member(arcs, here, sums, i - 1, t);
        let arc = arcs[i - 1];
        lemma_stays(here, arc.weight);
        lemma_stays(passed_on(arcs, here, sums, i - 1)[t], here.spec_times(arc.weight));
    }
}

proof fn lemma_all_passed_member<W: Weight>(v: FstV<W>, d: Seq<W>, k: int, t: int)
    requires
        stays_inside::<W>(),
        zero_is_nothing::<W>(),
        v.wf(),
        all_members(v),
        d.len() == v.n(),
        forall|s: int| 0 <= s < d.len() ==> (#[trigger] d[s]).spec_member(),
        0 <= k <= v.n(),
        0 <= t < v.n(),
    ensures
        all_passed_on(v, d, k).len() == v.n(),
        all_passed_on(v, d, k)[t].spec_member(),
    decreases k,
{
    lemma_nothing(W::spec_zero());
    if k > 0 {
        lemma_all_passed_member(v, d, k - 1, t);
        let arcs = v.arcs(k - 1);
        assert(state_is_member(v.states[k - 1]));
        assert forall|j: int| 0 <= j < arcs.len() implies (#[trigger] arcs[j]).weight.spec_member()
            && arcs[j].nextstate < v.n() by {
            assert(v.states[k - 1].arcs[j].nextstate < v.n());
        }
        lemma_passed_member(
            arcs,
            d[k - 1],
            all_passed_on(v, d, k - 1),
            arcs.len() as int,
            t,
        );
    }
}

/// Distances from the start are in the semiring.
pub proof fn lemma_behind_is_member<W: Weight>(v: FstV<W>, k: nat, t: int)
    requires
        stays_inside::<W>(),
        zero_is_nothing::<W>(),
        v.wf(),
        all_members(v),
        0 <= t < v.n(),
    ensures
        from_start(v, k)[t].spec_member(),
    decreases k,
{
    lemma_nothing(W::spec_zero());
    if k > 0 {
        let d = from_start(v, (k - 1) as nat);
        lemma_distance_len(v, false, (k - 1) as nat);
        assert forall|s: int| 0 <= s < d.len() implies (#[trigger] d[s]).spec_member() by {
            lemma_behind_is_member(v, (k - 1) as nat, s);
        }
        lemma_all_passed_member(v, d, v.n() as int, t);
    }
}

/// Pushed towards the end, the weights sit as late as they can: all paths from the start to
/// a state where something arrives add up to the product of nothing, and those of fewer
/// arcs to the part of it that they were.
pub proof fn law_pushed_to_final_adds_up_to_one<W: Divide>(
    v: FstV<W>,
    delta: W::Delta,
    d: Seq<W>,
    w: FstV<W>,
) -> (k: nat)
    requires
        stays_inside::<W>(),
        zero_is_nothing::<W>(),
        divides_sums::<W>(DivideType::Right),
        division_telescopes::<W>(),
        closeness_is_equality::<W>(delta),
        v.wf(),
        v.n() < usize::MAX,
        all_members(v),
        v.start is Some,
        is_distance(v, false, delta, d),
        W::spec_one() != W::spec_zero(),
        d[v.start->0 as int] == W::spec_one(),
        arrives_along(v, d),
        is_pushed(v, ReweightType::ToFinal, delta, false, w),
    ensures
        w.n() == v.n(),
        w.start == v.start,
        from_start(w, k + 1) == from_start(w, k),
        forall|t: int|
            0 <= t < v.n() && d[t] != W::spec_zero() ==> #[trigger] from_start(w, k)[t]
                == W::spec_one(),
        forall|t: int, j: nat|
            0 <= t < v.n() && d[t] != W::spec_zero() ==> #[trigger] from_start(w, j)[t]
                == from_start(v, j)[t].spec_divide(d[t], DivideType::Right),
{
    let to = ReweightType::ToFinal;
    let e = choose|e: Seq<W>| #[trigger]
        is_distance(v, looks_back(to), delta, e) && w == pushed_by(v, to, e, false);
    lemma_one_distance(v, false, delta, d, e);
    let k = lemma_settled(v, false, delta, d);
    assert forall|t: int| 0 <= t < d.len() implies (#[trigger] d[t]).spec_member() by {
        lemma_behind_is_member(v, k, t);
    }
    let moved = moved_weights(v, d, to);
    assert(w.states == moved.states && w.start == v.start);
    assert(w.n() == v.n());
    assert forall|t: int, j: nat|
        0 <= t < v.n() && d[t] != W::spec_zero() implies #[trigger] from_start(w, j)[t]
        == from_start(v, j)[t].spec_divide(d[t], DivideType::Right) by {
        lemma_from_start_divided(v, w, d, j, t);
    }
    assert forall|t: int|
        0 <= t < v.n() && d[t] != W::spec_zero() implies #[trigger] from_start(w, k)[t]
        == W::spec_one() by {
        lemma_from_start_divided(v, w, d, k, t);
        lemma_divided(d[t], d[t], d[t], DivideType::Right);
    }
    let start = v.start->0 as int;
    lemma_from_start_divided(v, w, d, k, start);
    lemma_from_start_divided(v, w, d, k + 1, start);
    assert forall|t: int| 0 <= t < v.n() implies #[trigger] from_start(w, k + 1)[t] == from_start(
        w,
        k,
    )[t] by {
        lemma_from_start_divided(v, w, d, k, t);
        lemma_from_start_divided(v, w, d, k + 1, t);
    }
    assert(from_start(w, k + 1) =~= from_start(w, k));
    k
}

} // verus!
