//! What distances say of the paths they add up, where a sum picks one of its parts.
use crate::arc::Arc;
use crate::paths::{
    end_of, is_ending, is_run, lemma_after_first, lemma_go_first, lemma_run_stays, state_at, steps,
    total, weighs,
};
use crate::shortest_distance::{
    all_passed_on, distance_in, from_start, is_distance, lemma_distance_len, onward_sum, passed_on,
    settles_at, settles_first, to_end,
};
use crate::vector_fst::FstV;
use crate::weight::Weight;
use vstd::prelude::*;

verus! {

/// Whether adding `b` to `a` changes nothing: `b` is no better than `a`.
pub open spec fn covers<W: Weight>(a: W, b: W) -> bool {
    a.spec_plus(b) == a
}

/// What holds of each weight that is inside: it is in the semiring, adding it to itself or
/// nothing to it changes nothing, and it multiplies with the sum and the product of nothing
/// as in a semiring.
#[verifier::opaque]
pub open spec fn keeps_alone<W: Weight>(inside: spec_fn(W) -> bool) -> bool {
    let zero = W::spec_zero();
    let one = W::spec_one();
    forall|a: W| #[trigger]
        inside(a) ==> {
            &&& a.spec_member()
            &&& a.spec_plus(a) == a
            &&& zero.spec_plus(a) == a
            &&& a.spec_plus(zero) == a
            &&& a.spec_times(zero) == zero
            &&& zero.spec_times(a) == zero
            &&& a.spec_times(one) == a
            &&& one.spec_times(a) == a
        }
}

/// Products of weights that are inside are inside, and a product is in the semiring only if
/// its factors are.
#[verifier::opaque]
pub open spec fn multiplies_inside<W: Weight>(inside: spec_fn(W) -> bool) -> bool {
    &&& forall|a: W, b: W| inside(a) && inside(b) ==> inside(#[trigger] a.spec_times(b))
    &&& forall|a: W, b: W|
        (#[trigger] a.spec_times(b)).spec_member() ==> a.spec_member() && b.spec_member()
}

/// A sum is in the semiring only if its parts are, and is then one of them; which does not
/// depend on the order they are taken in.
#[verifier::opaque]
pub open spec fn picks_one<W: Weight>(inside: spec_fn(W) -> bool) -> bool {
    &&& forall|a: W, b: W|
        (#[trigger] a.spec_plus(b)).spec_member() ==> a.spec_member() && b.spec_member()
    &&& forall|a: W, b: W|
        inside(a) && inside(b) && (#[trigger] a.spec_plus(b)).spec_member() ==> a.spec_plus(b) == a
            || a.spec_plus(b) == b
    &&& forall|a: W, b: W|
        inside(a) && inside(b) ==> #[trigger] a.spec_plus(b) == b.spec_plus(a)
}

/// Three weights can be added either way.
#[verifier::opaque]
pub open spec fn adds_along<W: Weight>(inside: spec_fn(W) -> bool) -> bool {
    forall|a: W, b: W, c: W|
        inside(a) && inside(b) && inside(c) ==> #[trigger] a.spec_plus(b).spec_plus(c)
            == a.spec_plus(b.spec_plus(c))
}

/// Three weights can be multiplied either way.
#[verifier::opaque]
pub open spec fn multiplies_along_inside<W: Weight>(inside: spec_fn(W) -> bool) -> bool {
    forall|a: W, b: W, c: W|
        inside(a) && inside(b) && inside(c) ==> #[trigger] a.spec_times(b).spec_times(c)
            == a.spec_times(b.spec_times(c))
}

/// Products keep to the order that the sum picks by.
#[verifier::opaque]
pub open spec fn multiplying_keeps_order<W: Weight>(inside: spec_fn(W) -> bool) -> bool {
    &&& forall|a: W, b: W, c: W|
        inside(a) && inside(b) && inside(c) && covers(a, b) ==> covers(
            #[trigger] c.spec_times(a),
            #[trigger] c.spec_times(b),
        )
    &&& forall|a: W, b: W, c: W|
        inside(a) && inside(b) && inside(c) && covers(a, b) ==> covers(
            #[trigger] a.spec_times(c),
            #[trigger] b.spec_times(c),
        )
}

/// Whether the weights that are `inside` are a semiring whose sum, wherever it is a weight
/// at all, is one of its parts, and whose product keeps to the order that the sum picks by.
pub open spec fn picks_paths<W: Weight>(inside: spec_fn(W) -> bool) -> bool {
    &&& inside(W::spec_zero())
    &&& inside(W::spec_one())
    &&& keeps_alone(inside)
    &&& multiplies_inside(inside)
    &&& picks_one(inside)
    &&& adds_along(inside)
    &&& multiplies_along_inside(inside)
    &&& multiplying_keeps_order(inside)
}

/// All weights that are in the semiring.
pub open spec fn members<W: Weight>() -> spec_fn(W) -> bool {
    |w: W| w.spec_member()
}

/// Whether weights that count as alike within `delta` are the same.
#[verifier::opaque]
pub open spec fn closeness_is_equality<W: Weight>(delta: W::Delta) -> bool {
    forall|a: W, b: W| #[trigger] a.spec_approx(b, delta) ==> a == b
}

/// One weight, the sum and the product of nothing.
pub proof fn lemma_one_inside<W: Weight>(inside: spec_fn(W) -> bool, a: W)
    requires
        picks_paths(inside),
    ensures
        inside(W::spec_zero()),
        inside(W::spec_one()),
        W::spec_zero().spec_member(),
        W::spec_one().spec_member(),
        inside(a) ==> a.spec_member() && covers(a, a) && covers(a, W::spec_zero())
            && W::spec_zero().spec_plus(a) == a && a.spec_plus(W::spec_zero()) == a
            && a.spec_times(W::spec_zero()) == W::spec_zero() && W::spec_zero().spec_times(a)
            == W::spec_zero() && a.spec_times(W::spec_one()) == a && W::spec_one().spec_times(a)
            == a,
{
    reveal(keeps_alone);
}

/// A product of two weights.
pub proof fn lemma_product_inside<W: Weight>(inside: spec_fn(W) -> bool, a: W, b: W)
    requires
        picks_paths(inside),
    ensures
        a.spec_times(b).spec_member() ==> a.spec_member() && b.spec_member(),
        inside(a) && inside(b) ==> inside(a.spec_times(b)),
{
    reveal(multiplies_inside);
}

/// Three weights added either way.
pub proof fn lemma_add_along<W: Weight>(inside: spec_fn(W) -> bool, a: W, b: W, c: W)
    requires
        picks_paths(inside),
        inside(a),
        inside(b),
        inside(c),
    ensures
        a.spec_plus(b).spec_plus(c) == a.spec_plus(b.spec_plus(c)),
{
    reveal(adds_along);
}

/// A sum of two weights.
pub proof fn lemma_sum_inside<W: Weight>(inside: spec_fn(W) -> bool, a: W, b: W)
    requires
        picks_paths(inside),
    ensures
        a.spec_plus(b).spec_member() ==> a.spec_member() && b.spec_member(),
        inside(a) && inside(b) ==> a.spec_plus(b) == b.spec_plus(a),
        inside(a) && inside(b) && a.spec_plus(b).spec_member() ==> (a.spec_plus(b) == a
            || a.spec_plus(b) == b),
{
    reveal(picks_one);
}

/// Two weights.
pub proof fn lemma_two_inside<W: Weight>(inside: spec_fn(W) -> bool, a: W, b: W)
    requires
        picks_paths(inside),
    ensures
        a.spec_plus(b).spec_member() ==> a.spec_member() && b.spec_member(),
        a.spec_times(b).spec_member() ==> a.spec_member() && b.spec_member(),
        inside(a) && inside(b) ==> inside(a.spec_times(b)) && a.spec_times(b).spec_member()
            && a.spec_plus(b) == b.spec_plus(a),
        inside(a) && inside(b) && a.spec_plus(b).spec_member() ==> (a.spec_plus(b) == a
            || a.spec_plus(b) == b) && covers(a.spec_plus(b), a) && covers(a.spec_plus(b), b)
            && inside(a.spec_plus(b)),
{
    lemma_sum_inside(inside, a, b);
    lemma_product_inside(inside, a, b);
    if inside(a) && inside(b) {
        lemma_one_inside(inside, a);
        lemma_one_inside(inside, b);
        lemma_one_inside(inside, a.spec_times(b));
        lemma_add_along(inside, a, b, b);
        lemma_add_along(inside, b, a, a);
    }
}

/// Products of weights of which one covers the other.
pub proof fn lemma_order_kept<W: Weight>(inside: spec_fn(W) -> bool, a: W, b: W, c: W)
    requires
        picks_paths(inside),
        inside(a),
        inside(b),
        inside(c),
        covers(a, b),
    ensures
        covers(c.spec_times(a), c.spec_times(b)),
        covers(a.spec_times(c), b.spec_times(c)),
{
    reveal(multiplying_keeps_order);
}

/// Three weights multiplied either way.
pub proof fn lemma_multiply_along<W: Weight>(inside: spec_fn(W) -> bool, a: W, b: W, c: W)
    requires
        picks_paths(inside),
        inside(a),
        inside(b),
        inside(c),
    ensures
        a.spec_times(b).spec_times(c) == a.spec_times(b.spec_times(c)),
{
    reveal(multiplies_along_inside);
}

/// Three weights.
pub proof fn lemma_three_inside<W: Weight>(inside: spec_fn(W) -> bool, a: W, b: W, c: W)
    requires
        picks_paths(inside),
        inside(a),
        inside(b),
        inside(c),
    ensures
        a.spec_times(b).spec_times(c) == a.spec_times(b.spec_times(c)),
        covers(a, b) ==> covers(c.spec_times(a), c.spec_times(b)),
        covers(a, b) ==> covers(a.spec_times(c), b.spec_times(c)),
        covers(a, b) && covers(b, c) ==> covers(a, c),
{
    lemma_multiply_along(inside, a, b, c);
    if covers(a, b) {
        lemma_order_kept(inside, a, b, c);
    }
    lemma_add_along(inside, a, b, c);
}

/// Whether all weights of a machine are inside.
pub open spec fn all_inside<W: Weight>(v: FstV<W>, inside: spec_fn(W) -> bool) -> bool {
    &&& forall|s: int| 0 <= s < v.n() ==> inside(#[trigger] v.fin(s))
    &&& forall|s: int, i: int|
        0 <= s < v.n() && 0 <= i < v.arcs(s).len() ==> inside((#[trigger] v.arcs(s)[i]).weight)
}

/// Whether a weight is inside as soon as it is in the semiring.
pub open spec fn is_good<W: Weight>(inside: spec_fn(W) -> bool, w: W) -> bool {
    w.spec_member() ==> inside(w)
}

proof fn lemma_passed_on<W: Weight>(
    inside: spec_fn(W) -> bool,
    arcs: Seq<Arc<W>>,
    here: W,
    sums: Seq<W>,
    i: int,
    t: int,
)
    requires
        picks_paths(inside),
        0 <= i <= arcs.len(),
        forall|j: int|
            0 <= j < arcs.len() ==> (#[trigger] arcs[j]).nextstate < sums.len() && inside(
                arcs[j].weight,
            ),
        0 <= t < sums.len(),
        is_good(inside, here),
        is_good(inside, sums[t]),
    ensures
        passed_on(arcs, here, sums, i).len() == sums.len(),
        ({
            let o = passed_on(arcs, here, sums, i)[t];
            o.spec_member() ==> {
                &&& inside(o)
                &&& inside(sums[t])
                &&& covers(o, sums[t])
                &&& forall|j: int|
                    0 <= j < i && (#[trigger] arcs[j]).nextstate == t ==> inside(here) && covers(
                        o,
                        here.spec_times(arcs[j].weight),
                    )
                &&& o == sums[t] || exists|j: int|
                    0 <= j < i && (#[trigger] arcs[j]).nextstate == t && o == here.spec_times(
                        arcs[j].weight,
                    )
            }
        }),
    decreases i,
{
    if i == 0 {
        lemma_one_inside(inside, sums[t]);
    } else {
        lemma_passed_on(inside, arcs, here, sums, i - 1, t);
        let before = passed_on(arcs, here, sums, i - 1);
        let arc = arcs[i - 1];
        let o = passed_on(arcs, here, sums, i)[t];
        if arc.nextstate == t && o.spec_member() {
            let part = here.spec_times(arc.weight);
            lemma_two_inside(inside, before[t], part);
            lemma_two_inside(inside, here, arc.weight);
            lemma_three_inside(inside, o, before[t], sums[t]);
            assert forall|j: int| 0 <= j < i && (#[trigger] arcs[j]).nextstate == t implies covers(
                o,
                here.spec_times(arcs[j].weight),
            ) by {
                if j < i - 1 {
                    lemma_two_inside(inside, here, arcs[j].weight);
                    lemma_three_inside(inside, o, before[t], here.spec_times(arcs[j].weight));
                }
            }
            if o != before[t] {
                assert(o == here.spec_times(arcs[i - 1].weight));
            }
        }
    }
}

/// Whether `o` is what state `t` has by itself, or what some arc passes on to it.
pub open spec fn stems_from<W: Weight>(v: FstV<W>, d: Seq<W>, t: int, o: W) -> bool {
    ||| o == W::spec_zero()
    ||| (v.start == Some(t as usize) && o == W::spec_one())
    ||| exists|s: int, i: int|
        0 <= s < v.n() && 0 <= i < v.arcs(s).len() && (#[trigger] v.arcs(s)[i]).nextstate == t
            && o == d[s].spec_times(v.arcs(s)[i].weight)
}

proof fn lemma_all_passed_on<W: Weight>(
    inside: spec_fn(W) -> bool,
    v: FstV<W>,
    d: Seq<W>,
    k: int,
    t: int,
)
    requires
        picks_paths(inside),
        v.wf(),
        all_inside(v, inside),
        0 <= k <= v.n(),
        d.len() == v.n(),
        forall|s: int| 0 <= s < v.n() ==> is_good(inside, #[trigger] d[s]),
        0 <= t < v.n(),
    ensures
        all_passed_on(v, d, k).len() == v.n(),
        ({
            let o = all_passed_on(v, d, k)[t];
            o.spec_member() ==> {
                &&& inside(o)
                &&& v.start == Some(t as usize) ==> covers(o, W::spec_one())
                &&& forall|s: int, i: int|
                    0 <= s < k && 0 <= i < v.arcs(s).len() && (#[trigger] v.arcs(s)[i]).nextstate
                        == t ==> inside(d[s]) && covers(o, d[s].spec_times(v.arcs(s)[i].weight))
                &&& stems_from(v, d, t, o)
            }
        }),
    decreases k,
{
    lemma_one_inside(inside, W::spec_one());
    lemma_one_inside(inside, W::spec_zero());
    if k > 0 {
        lemma_all_passed_on(inside, v, d, k - 1, t);
        let before = all_passed_on(v, d, k - 1);
        let arcs = v.arcs(k - 1);
        let here = d[k - 1];
        assert forall|j: int| 0 <= j < arcs.len() implies (#[trigger] arcs[j]).nextstate
            < before.len() && inside(arcs[j].weight) by {
            assert(v.states[k - 1].arcs[j].nextstate < v.n());
            assert(inside(v.arcs(k - 1)[j].weight));
        }
        lemma_passed_on(inside, arcs, here, before, arcs.len() as int, t);
        let o = all_passed_on(v, d, k)[t];
        if o.spec_member() {
            lemma_one_inside(inside, before[t]);
            if v.start == Some(t as usize) {
                lemma_three_inside(inside, o, before[t], W::spec_one());
            }
            assert forall|s: int, i: int|
                0 <= s < k && 0 <= i < v.arcs(s).len() && (#[trigger] v.arcs(s)[i]).nextstate
                    == t implies inside(d[s]) && covers(
                o,
                d[s].spec_times(v.arcs(s)[i].weight),
            ) by {
                if s < k - 1 {
                    lemma_two_inside(inside, d[s], v.arcs(s)[i].weight);
                    lemma_three_inside(
                        inside,
                        o,
                        before[t],
                        d[s].spec_times(v.arcs(s)[i].weight),
                    );
                } else {
                    assert(arcs[i].nextstate == t);
                }
            }
            if o != before[t] {
                let j = choose|j: int|
                    0 <= j < arcs.len() && (#[trigger] arcs[j]).nextstate == t && o
                        == here.spec_times(arcs[j].weight);
                assert(v.arcs(k - 1)[j].nextstate == t);
            }
        }
    }
}

/// Whether `run` leads from the start to `t`.
pub open spec fn leads_to<W: Weight>(v: FstV<W>, t: int, run: Seq<Arc<W>>) -> bool {
    v.start matches Some(s) && is_run(v, s as int, run) && end_of(s as int, run) == t
}

/// Whether `w` is what some path from the start to `t` weighs, or there is nothing.
pub open spec fn some_path_weighs<W: Weight>(v: FstV<W>, t: int, w: W) -> bool {
    w == W::spec_zero() || exists|run: Seq<Arc<W>>| #[trigger]
        leads_to(v, t, run) && weighs(run) == w
}

/// A run with one arc more.
pub proof fn lemma_goes_on<W: Weight>(v: FstV<W>, s: int, run: Seq<Arc<W>>, i: int)
    requires
        v.wf(),
        is_run(v, s, run),
        0 <= i < v.arcs(end_of(s, run)).len(),
    ensures
        ({
            let arc = v.arcs(end_of(s, run))[i];
            let on = run.push(arc);
            is_run(v, s, on) && end_of(s, on) == arc.nextstate && weighs(on) == weighs(
                run,
            ).spec_times(arc.weight)
        }),
{
    let t = end_of(s, run);
    let arc = v.arcs(t)[i];
    let on = run.push(arc);
    lemma_run_stays(v, s, run, run.len() as int);
    assert(v.arcs(t).contains(arc));
    assert forall|j: int| 0 <= j < on.len() implies #[trigger] steps(v, s, on, j) by {
        if j < run.len() {
            assert(steps(v, s, run, j));
            assert(state_at(s, on, j) == state_at(s, run, j));
        } else {
            assert(state_at(s, on, j) == t);
        }
    }
    assert(on.drop_last() =~= run);
}

/// What paths to a state add up to is what one of them weighs.
pub proof fn lemma_from_start<W: Weight>(
    inside: spec_fn(W) -> bool,
    v: FstV<W>,
    k: nat,
    t: int,
)
    requires
        picks_paths(inside),
        v.wf(),
        v.n() <= usize::MAX,
        all_inside(v, inside),
        0 <= t < v.n(),
    ensures
        is_good(inside, from_start(v, k)[t]),
        from_start(v, k)[t].spec_member() ==> some_path_weighs(v, t, from_start(v, k)[t]),
    decreases k,
{
    if k == 0 {
        lemma_one_inside(inside, W::spec_zero());
    } else {
        let d = from_start(v, (k - 1) as nat);
        lemma_distance_len(v, false, (k - 1) as nat);
        assert forall|s: int| 0 <= s < v.n() implies is_good(inside, #[trigger] d[s]) by {
            lemma_from_start(inside, v, (k - 1) as nat, s);
        }
        lemma_all_passed_on(inside, v, d, v.n() as int, t);
        let o = from_start(v, k)[t];
        if o.spec_member() && o != W::spec_zero() {
            if v.start == Some(t as usize) && o == W::spec_one() {
                let none = Seq::<Arc<W>>::empty();
                assert(leads_to(v, t, none));
                assert(weighs(none) == W::spec_one());
            } else {
                assert(stems_from(v, d, t, o));
                let (s, i) = choose|s: int, i: int|
                    0 <= s < v.n() && 0 <= i < v.arcs(s).len() && (#[trigger] v.arcs(
                        s,
                    )[i]).nextstate == t && o == d[s].spec_times(v.arcs(s)[i].weight);
                lemma_from_start(inside, v, (k - 1) as nat, s);
                let w = v.arcs(s)[i].weight;
                assert(inside(d[s]));
                lemma_one_inside(inside, d[s]);
                lemma_two_inside(inside, d[s], w);
                lemma_one_inside(inside, w);
                let run = choose|run: Seq<Arc<W>>| #[trigger]
                    leads_to(v, s, run) && weighs(run) == d[s];
                lemma_goes_on(v, v.start->0 as int, run, i);
                assert(leads_to(v, t, run.push(v.arcs(s)[i])));
            }
        }
    }
}

/// Distances that have settled are those that one more round gives.
pub proof fn lemma_settled<W: Weight>(
    v: FstV<W>,
    reverse: bool,
    delta: W::Delta,
    d: Seq<W>,
) -> (k: nat)
    requires
        v.wf(),
        closeness_is_equality::<W>(delta),
        is_distance(v, reverse, delta, d),
    ensures
        d.len() == v.n(),
        d == distance_in(v, reverse, k),
        d == distance_in(v, reverse, k + 1),
{
    let k = choose|k: nat| #[trigger]
        settles_first(v, reverse, delta, k) && d == distance_in(v, reverse, k + 1);
    lemma_distance_len(v, reverse, k);
    lemma_distance_len(v, reverse, k + 1);
    let a = distance_in(v, reverse, k);
    assert(settles_at(v, reverse, delta, k));
    assert forall|s: int| 0 <= s < a.len() implies a[s] == d[s] by {
        assert(a[s].spec_approx(d[s], delta));
        reveal(closeness_is_equality);
    }
    assert(a =~= d);
    k
}

/// The distance of a state is what some path from the start to it weighs, and no path from
/// the start to it is better.
pub proof fn law_distance_is_that_of_the_best_path<W: Weight>(
    inside: spec_fn(W) -> bool,
    v: FstV<W>,
    delta: W::Delta,
    d: Seq<W>,
    t: int,
)
    requires
        picks_paths(inside),
        closeness_is_equality::<W>(delta),
        v.wf(),
        v.n() <= usize::MAX,
        all_inside(v, inside),
        is_distance(v, false, delta, d),
        0 <= t < v.n(),
        d[t].spec_member(),
    ensures
        inside(d[t]),
        some_path_weighs(v, t, d[t]),
        forall|run: Seq<Arc<W>>| #[trigger] leads_to(v, t, run) ==> covers(d[t], weighs(run)),
{
    let k = lemma_settled(v, false, delta, d);
    lemma_from_start(inside, v, k, t);
    assert forall|run: Seq<Arc<W>>| #[trigger] leads_to(v, t, run) implies covers(
        d[t],
        weighs(run),
    ) by {
        lemma_no_path_is_better(inside, v, k, d, t, run);
    }
}

proof fn lemma_no_path_is_better<W: Weight>(
    inside: spec_fn(W) -> bool,
    v: FstV<W>,
    k: nat,
    d: Seq<W>,
    t: int,
    run: Seq<Arc<W>>,
)
    requires
        picks_paths(inside),
        v.wf(),
        v.n() <= usize::MAX,
        all_inside(v, inside),
        d.len() == v.n(),
        d == from_start(v, k),
        d == from_start(v, k + 1),
        0 <= t < v.n(),
        d[t].spec_member(),
        leads_to(v, t, run),
    ensures
        inside(d[t]),
        inside(weighs(run)),
        covers(d[t], weighs(run)),
    decreases run.len(),
{
    let s0 = v.start->0 as int;
    assert forall|s: int| 0 <= s < v.n() implies is_good(inside, #[trigger] d[s]) by {
        lemma_from_start(inside, v, k, s);
    }
    lemma_all_passed_on(inside, v, d, v.n() as int, t);
    lemma_one_inside(inside, W::spec_one());
    if run.len() > 0 {
        let less = run.drop_last();
        let last = run.len() - 1;
        let s = state_at(s0, run, last);
        assert(steps(v, s0, run, last));
        let i = choose|i: int| 0 <= i < v.arcs(s).len() && v.arcs(s)[i] == run[last];
        assert(v.arcs(s)[i].nextstate == t);
        assert(leads_to(v, s, less)) by {
            assert forall|j: int| 0 <= j < less.len() implies #[trigger] steps(
                v,
                s0,
                less,
                j,
            ) by {
                assert(steps(v, s0, run, j));
                assert(state_at(s0, less, j) == state_at(s0, run, j));
            }
        }
        let w = run[last].weight;
        assert(inside(v.arcs(s)[i].weight));
        lemma_one_inside(inside, d[s]);
        lemma_no_path_is_better(inside, v, k, d, s, less);
        lemma_two_inside(inside, d[s], w);
        lemma_two_inside(inside, weighs(less), w);
        lemma_three_inside(inside, d[s], weighs(less), w);
        lemma_three_inside(
            inside,
            d[t],
            d[s].spec_times(w),
            weighs(less).spec_times(w),
        );
    }
}

/// Whether `w` is what some path from `s` to the end weighs, or there is nothing.
pub open spec fn some_ending_weighs<W: Weight>(v: FstV<W>, s: int, w: W) -> bool {
    w == W::spec_zero() || exists|run: Seq<Arc<W>>| #[trigger]
        is_ending(v, s, run) && total(run, v.fin(end_of(s, run))) == w
}

/// What the arcs of a state add up to is what one of them adds, and none adds more.
pub proof fn lemma_onward_sum<W: Weight>(
    inside: spec_fn(W) -> bool,
    arcs: Seq<Arc<W>>,
    d: Seq<W>,
    sum: W,
    k: int,
)
    requires
        picks_paths(inside),
        0 <= k <= arcs.len(),
        inside(sum),
        forall|j: int|
            0 <= j < arcs.len() ==> inside((#[trigger] arcs[j]).weight) && arcs[j].nextstate
                < d.len(),
        forall|s: int| 0 <= s < d.len() ==> is_good(inside, #[trigger] d[s]),
    ensures
        ({
            let o = onward_sum(arcs, d, sum, k);
            o.spec_member() ==> {
                &&& inside(o)
                &&& covers(o, sum)
                &&& forall|j: int|
                    0 <= j < k ==> inside(d[(#[trigger] arcs[j]).nextstate as int]) && covers(
                        o,
                        arcs[j].weight.spec_times(d[arcs[j].nextstate as int]),
                    )
                &&& o == sum || exists|j: int|
                    0 <= j < k && o == (#[trigger] arcs[j]).weight.spec_times(
                        d[arcs[j].nextstate as int],
                    )
            }
        }),
    decreases k,
{
    lemma_one_inside(inside, sum);
    if k > 0 {
        lemma_onward_sum(inside, arcs, d, sum, k - 1);
        let before = onward_sum(arcs, d, sum, k - 1);
        let arc = arcs[k - 1];
        let there = d[arc.nextstate as int];
        let part = arc.weight.spec_times(there);
        let o = onward_sum(arcs, d, sum, k);
        if o.spec_member() {
            lemma_two_inside(inside, before, part);
            lemma_two_inside(inside, arc.weight, there);
            assert(is_good(inside, there));
            lemma_three_inside(inside, o, before, sum);
            assert forall|j: int| 0 <= j < k implies inside(
                d[(#[trigger] arcs[j]).nextstate as int],
            ) && covers(o, arcs[j].weight.spec_times(d[arcs[j].nextstate as int])) by {
                if j < k - 1 {
                    let one = arcs[j].weight.spec_times(d[arcs[j].nextstate as int]);
                    lemma_two_inside(inside, arcs[j].weight, d[arcs[j].nextstate as int]);
                    lemma_three_inside(inside, o, before, one);
                }
            }
            if o != before {
                assert(o == arcs[k - 1].weight.spec_times(d[arcs[k - 1].nextstate as int]));
            }
        }
    }
}

/// The weights of a state's arcs are inside.
pub proof fn lemma_arcs_inside<W: Weight>(inside: spec_fn(W) -> bool, v: FstV<W>, s: int)
    requires
        v.wf(),
        all_inside(v, inside),
        0 <= s < v.n(),
    ensures
        inside(v.fin(s)),
        forall|j: int|
            0 <= j < v.arcs(s).len() ==> inside((#[trigger] v.arcs(s)[j]).weight) && v.arcs(
                s,
            )[j].nextstate < v.n(),
{
    assert forall|j: int| 0 <= j < v.arcs(s).len() implies inside((#[trigger] v.arcs(s)[j]).weight)
        && v.arcs(s)[j].nextstate < v.n() by {
        assert(v.states[s].arcs[j].nextstate < v.n());
    }
}

/// What paths from a state to the end add up to is what one of them weighs.
pub proof fn lemma_to_end<W: Weight>(inside: spec_fn(W) -> bool, v: FstV<W>, k: nat, s: int)
    requires
        picks_paths(inside),
        v.wf(),
        all_inside(v, inside),
        0 <= s < v.n(),
    ensures
        is_good(inside, to_end(v, k)[s]),
        to_end(v, k)[s].spec_member() ==> some_ending_weighs(v, s, to_end(v, k)[s]),
    decreases k,
{
    if k == 0 {
        lemma_one_inside(inside, W::spec_zero());
    } else {
        let d = to_end(v, (k - 1) as nat);
        assert(d.len() == v.n());
        assert forall|t: int| 0 <= t < d.len() implies is_good(inside, #[trigger] d[t]) by {
            lemma_to_end(inside, v, (k - 1) as nat, t);
        }
        lemma_arcs_inside(inside, v, s);
        let arcs = v.arcs(s);
        lemma_onward_sum(inside, arcs, d, v.fin(s), arcs.len() as int);
        let o = to_end(v, k)[s];
        assert(o == onward_sum(arcs, d, v.fin(s), arcs.len() as int));
        if o.spec_member() && o != W::spec_zero() {
            if o == v.fin(s) {
                let none = Seq::<Arc<W>>::empty();
                assert(is_ending(v, s, none));
                assert(total(none, v.fin(end_of(s, none))) == o);
            } else {
                let j = choose|j: int|
                    0 <= j < arcs.len() && o == (#[trigger] arcs[j]).weight.spec_times(
                        d[arcs[j].nextstate as int],
                    );
                let arc = arcs[j];
                let t = arc.nextstate as int;
                lemma_to_end(inside, v, (k - 1) as nat, t);
                lemma_one_inside(inside, arc.weight);
                lemma_one_inside(inside, d[t]);
                let rest = choose|rest: Seq<Arc<W>>| #[trigger]
                    is_ending(v, t, rest) && total(rest, v.fin(end_of(t, rest))) == d[t];
                assert(v.arcs(s).contains(arc));
                lemma_go_first(v, s, arc, rest);
                assert(is_ending(v, s, seq![arc] + rest));
            }
        }
    }
}

/// The distance of a state to the end is what some path from it to the end weighs, and no
/// such path is better.
pub proof fn law_distance_to_the_end_is_that_of_the_best_path<W: Weight>(
    inside: spec_fn(W) -> bool,
    v: FstV<W>,
    delta: W::Delta,
    d: Seq<W>,
    s: int,
)
    requires
        picks_paths(inside),
        closeness_is_equality::<W>(delta),
        v.wf(),
        all_inside(v, inside),
        is_distance(v, true, delta, d),
        0 <= s < v.n(),
        d[s].spec_member(),
    ensures
        inside(d[s]),
        some_ending_weighs(v, s, d[s]),
        forall|run: Seq<Arc<W>>| #[trigger]
            is_ending(v, s, run) ==> covers(d[s], total(run, v.fin(end_of(s, run)))),
{
    let k = lemma_settled(v, true, delta, d);
    lemma_to_end(inside, v, k, s);
    assert forall|run: Seq<Arc<W>>| #[trigger] is_ending(v, s, run) implies covers(
        d[s],
        total(run, v.fin(end_of(s, run))),
    ) by {
        lemma_no_ending_is_better(inside, v, k, d, s, run);
    }
}

proof fn lemma_no_ending_is_better<W: Weight>(
    inside: spec_fn(W) -> bool,
    v: FstV<W>,
    k: nat,
    d: Seq<W>,
    s: int,
    run: Seq<Arc<W>>,
)
    requires
        picks_paths(inside),
        v.wf(),
        all_inside(v, inside),
        d == to_end(v, k),
        d == to_end(v, k + 1),
        0 <= s < v.n(),
        d[s].spec_member(),
        is_ending(v, s, run),
    ensures
        inside(d[s]),
        inside(total(run, v.fin(end_of(s, run)))),
        covers(d[s], total(run, v.fin(end_of(s, run)))),
    decreases run.len(),
{
    assert(d.len() == v.n());
    assert forall|t: int| 0 <= t < d.len() implies is_good(inside, #[trigger] d[t]) by {
        lemma_to_end(inside, v, k, t);
    }
    lemma_arcs_inside(inside, v, s);
    let arcs = v.arcs(s);
    lemma_onward_sum(inside, arcs, d, v.fin(s), arcs.len() as int);
    assert(d[s] == onward_sum(arcs, d, v.fin(s), arcs.len() as int));
    if run.len() > 0 {
        let arc = run[0];
        let rest = run.drop_first();
        let t = arc.nextstate as int;
        assert(steps(v, s, run, 0));
        let i = choose|i: int| 0 <= i < arcs.len() && arcs[i] == arc;
        lemma_after_first(v, s, run);
        let behind = total(rest, v.fin(end_of(t, rest)));
        assert(arcs[i].nextstate < v.n());
        lemma_one_inside(inside, d[t]);
        lemma_no_ending_is_better(inside, v, k, d, t, rest);
        lemma_two_inside(inside, arc.weight, behind);
        lemma_two_inside(inside, arc.weight, d[t]);
        lemma_three_inside(inside, d[t], behind, arc.weight);
        lemma_three_inside(
            inside,
            d[s],
            arc.weight.spec_times(d[t]),
            arc.weight.spec_times(behind),
        );
    }
}

} // verus!
