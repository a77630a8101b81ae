//! What removing the arcs that neither read nor write makes of the paths of a machine.
use crate::arc::Arc;
use crate::path_sums::{
    all_inside, closeness_is_equality, covers, is_good, law_distance_is_that_of_the_best_path,
    leads_to, lemma_from_start, lemma_multiply_along, lemma_one_inside, lemma_product_inside,
    lemma_settled, lemma_three_inside, lemma_two_inside, picks_paths,
};
use crate::paths::{
    accepted_weight, end_of, is_accepting, is_ending, is_run, lemma_after_first, lemma_go_first,
    lemma_labels_from_front, lemma_reads_concat, lemma_run_stays, lemma_writes_concat, reads,
    state_at, steps, total, weighs, writes,
};
use crate::prune_bounds::{lemma_run_on, lemma_total_of_weighs, lemma_total_on};
use crate::rmepsilon::{
    are_closures, closure_arcs, closure_final, epsilon_arcs, epsilon_part, is_entered, is_epsilon,
    place_of, with_added, with_all_added, without_epsilons,
};
use crate::shortest_distance::is_distance;
use crate::vector_fst::{all_members, state_is_member, FstV, StateV};
use crate::weight::Weight;
use vstd::prelude::*;

verus! {

/// Whether no arc of a run reads or writes.
pub open spec fn is_silent<W: Weight>(run: Seq<Arc<W>>) -> bool {
    forall|i: int| 0 <= i < run.len() ==> is_epsilon(#[trigger] run[i])
}

proof fn lemma_silent<W: Weight>(run: Seq<Arc<W>>)
    requires
        is_silent(run),
    ensures
        reads(run) == Seq::<i32>::empty(),
        writes(run) == Seq::<i32>::empty(),
    decreases run.len(),
{
    if run.len() > 0 {
        let less = run.drop_last();
        assert forall|i: int| 0 <= i < less.len() implies is_epsilon(#[trigger] less[i]) by {
            assert(is_epsilon(run[i]));
        }
        lemma_silent(less);
        assert(is_epsilon(run[run.len() - 1]));
    }
}

proof fn lemma_epsilon_arcs<W: Weight>(arcs: Seq<Arc<W>>, k: int, arc: Arc<W>)
    requires
        0 <= k <= arcs.len(),
    ensures
        epsilon_arcs(arcs, k).contains(arc) <==> is_epsilon(arc) && arcs.take(k).contains(arc),
    decreases k,
{
    let made = epsilon_arcs(arcs, k);
    if k > 0 {
        lemma_epsilon_arcs(arcs, k - 1, arc);
        let before = epsilon_arcs(arcs, k - 1);
        let less = arcs.take(k - 1);
        let more = arcs.take(k);
        assert(more =~= less.push(arcs[k - 1]));
        if made.contains(arc) {
            let i = choose|i: int| 0 <= i < made.len() && made[i] == arc;
            if i < before.len() {
                assert(before[i] == arc);
                let j = choose|j: int| 0 <= j < less.len() && less[j] == arc;
                assert(more[j] == arc);
            } else {
                assert(more[k - 1] == arc);
            }
        }
        if is_epsilon(arc) && more.contains(arc) {
            let j = choose|j: int| 0 <= j < more.len() && more[j] == arc;
            if j < k - 1 {
                assert(less[j] == arc);
                let i = choose|i: int| 0 <= i < before.len() && before[i] == arc;
                assert(made[i] == arc);
            } else {
                assert(made[before.len() as int] == arc);
            }
        }
    } else {
        assert(arcs.take(0) =~= Seq::empty());
    }
}

/// The machine of the arcs that neither read nor write.
pub proof fn lemma_epsilon_part<W: Weight>(v: FstV<W>, s: int)
    requires
        v.wf(),
        v.n() <= usize::MAX,
        0 <= s < v.n(),
    ensures
        ({
            let e = epsilon_part(v, s);
            &&& e.wf()
            &&& e.n() == v.n()
            &&& e.start == Some(s as usize)
            &&& forall|t: int, arc: Arc<W>|
                0 <= t < v.n() ==> (#[trigger] e.arcs(t).contains(arc) <==> is_epsilon(arc)
                    && v.arcs(t).contains(arc))
        }),
{
    let e = epsilon_part(v, s);
    assert forall|t: int, arc: Arc<W>| 0 <= t < v.n() implies (#[trigger] e.arcs(t).contains(arc)
        <==> is_epsilon(arc) && v.arcs(t).contains(arc)) by {
        let n = v.arcs(t).len() as int;
        lemma_epsilon_arcs(v.arcs(t), n, arc);
        assert(v.arcs(t).take(n) =~= v.arcs(t));
    }
    assert forall|t: int, i: int| 0 <= t < e.n() && 0 <= i < e.states[t].arcs.len() implies (
    #[trigger] e.states[t].arcs[i]).nextstate < e.n() by {
        let arc = e.arcs(t)[i];
        assert(e.arcs(t).contains(arc));
        let j = choose|j: int| 0 <= j < v.arcs(t).len() && v.arcs(t)[j] == arc;
        assert(v.states[t].arcs[j].nextstate < v.n());
    }
}

proof fn lemma_epsilon_part_inside<W: Weight>(inside: spec_fn(W) -> bool, v: FstV<W>, s: int)
    requires
        picks_paths(inside),
        v.wf(),
        v.n() <= usize::MAX,
        all_inside(v, inside),
        0 <= s < v.n(),
    ensures
        all_inside(epsilon_part(v, s), inside),
{
    lemma_epsilon_part(v, s);
    lemma_one_inside(inside, W::spec_zero());
    let e = epsilon_part(v, s);
    assert forall|t: int, i: int| 0 <= t < e.n() && 0 <= i < e.arcs(t).len() implies inside(
        (#[trigger] e.arcs(t)[i]).weight,
    ) by {
        let arc = e.arcs(t)[i];
        assert(e.arcs(t).contains(arc));
        let j = choose|j: int| 0 <= j < v.arcs(t).len() && v.arcs(t)[j] == arc;
        assert(inside(v.arcs(t)[j].weight));
    }
}

/// Whether `run` leads from `s` to `t` without reading or writing.
pub open spec fn goes_silently<W: Weight>(v: FstV<W>, s: int, t: int, run: Seq<Arc<W>>) -> bool {
    is_run(v, s, run) && end_of(s, run) == t && is_silent(run)
}

proof fn lemma_silent_runs<W: Weight>(v: FstV<W>, s: int, t: int, run: Seq<Arc<W>>)
    requires
        v.wf(),
        v.n() <= usize::MAX,
        0 <= s < v.n(),
    ensures
        leads_to(epsilon_part(v, s), t, run) <==> goes_silently(v, s, t, run),
{
    lemma_epsilon_part(v, s);
    let e = epsilon_part(v, s);
    if leads_to(e, t, run) {
        assert forall|i: int| 0 <= i < run.len() implies #[trigger] steps(v, s, run, i) && is_epsilon(
            run[i],
        ) by {
            assert(steps(e, s, run, i));
            assert(e.arcs(state_at(s, run, i)).contains(run[i]));
        }
        assert forall|i: int| 0 <= i < run.len() implies is_epsilon(#[trigger] run[i]) by {
            assert(steps(v, s, run, i));
        }
    }
    if goes_silently(v, s, t, run) {
        assert forall|i: int| 0 <= i < run.len() implies #[trigger] steps(e, s, run, i) by {
            assert(steps(v, s, run, i));
            assert(is_epsilon(run[i]));
            assert(e.arcs(state_at(s, run, i)).contains(run[i]));
        }
    }
}

/// Whether two arcs read, write and lead alike.
pub open spec fn is_like<W: Weight>(a: Arc<W>, b: Arc<W>) -> bool {
    a.ilabel == b.ilabel && a.olabel == b.olabel && a.nextstate == b.nextstate
}

/// The place of an arc is that of one like it.
pub proof fn lemma_place_of<W: Weight>(arcs: Seq<Arc<W>>, arc: Arc<W>, k: int)
    requires
        0 <= k <= arcs.len(),
    ensures
        place_of(arcs, arc, k) matches Some(i) ==> 0 <= i < k && is_like(arcs[i], arc),
    decreases k,
{
    if k > 0 {
        lemma_place_of(arcs, arc, k - 1);
    }
}

/// Whether state `k`, as far away as `d` says, has its `j`th arc to add.
spec fn is_added<W: Weight>(v: FstV<W>, d: Seq<W>, k: int, j: int) -> bool {
    &&& 0 <= k < v.n()
    &&& 0 <= j < v.arcs(k).len()
    &&& d[k] != W::spec_zero()
    &&& !is_epsilon(v.arcs(k)[j])
}

spec fn comes_before(k: int, j: int, to_k: int, to_j: int) -> bool {
    k < to_k || (k == to_k && j < to_j)
}

/// What an arc adds.
spec fn added<W: Weight>(v: FstV<W>, d: Seq<W>, k: int, j: int) -> W {
    d[k].spec_times(v.arcs(k)[j].weight)
}

/// Whether an arc of a closure is one that was added.
spec fn stems<W: Weight>(v: FstV<W>, d: Seq<W>, to_k: int, to_j: int, arc: Arc<W>) -> bool {
    exists|k: int, j: int|
        comes_before(k, j, to_k, to_j) && #[trigger] is_added(v, d, k, j) && is_like(
            arc,
            v.arcs(k)[j],
        ) && arc.weight == added(v, d, k, j)
}

/// Whether an arc of a closure takes in what was added.
spec fn takes_in<W: Weight>(
    inside: spec_fn(W) -> bool,
    v: FstV<W>,
    d: Seq<W>,
    arcs: Seq<Arc<W>>,
    k: int,
    j: int,
) -> bool {
    exists|i: int|
        0 <= i < arcs.len() && is_like(#[trigger] arcs[i], v.arcs(k)[j]) && (
        arcs[i].weight.spec_member() ==> inside(d[k]) && covers(arcs[i].weight, added(v, d, k, j)))
}

/// Whether the arcs are those of a closure, up to the `to_j`th arc of state `to_k`.
spec fn close_over<W: Weight>(
    inside: spec_fn(W) -> bool,
    v: FstV<W>,
    d: Seq<W>,
    arcs: Seq<Arc<W>>,
    to_k: int,
    to_j: int,
) -> bool {
    &&& forall|i: int|
        0 <= i < arcs.len() && (#[trigger] arcs[i]).weight.spec_member() ==> inside(arcs[i].weight)
            && stems(v, d, to_k, to_j, arcs[i])
    &&& forall|k: int, j: int|
        comes_before(k, j, to_k, to_j) && #[trigger] is_added(v, d, k, j) ==> takes_in(
            inside,
            v,
            d,
            arcs,
            k,
            j,
        )
}

#[verifier::spinoff_prover]
proof fn lemma_one_more<W: Weight>(
    inside: spec_fn(W) -> bool,
    v: FstV<W>,
    d: Seq<W>,
    arcs: Seq<Arc<W>>,
    k: int,
    j: int,
)
    requires
        picks_paths(inside),
        all_inside(v, inside),
        d.len() == v.n(),
        is_good(inside, d[k]),
        close_over(inside, v, d, arcs, k, j),
        is_added(v, d, k, j),
    ensures
        ({
            let arc = Arc { weight: added(v, d, k, j), ..v.arcs(k)[j] };
            close_over(inside, v, d, with_added(arcs, arc), k, j + 1)
        }),
{
    let part = added(v, d, k, j);
    let arc = Arc { weight: part, ..v.arcs(k)[j] };
    let made = with_added(arcs, arc);
    lemma_place_of(arcs, arc, arcs.len() as int);
    assert(inside(v.arcs(k)[j].weight));
    lemma_product_inside(inside, d[k], v.arcs(k)[j].weight);
    let place = place_of(arcs, arc, arcs.len() as int);
    let at: int = match place {
        Some(i) => i,
        None => arcs.len() as int,
    };
    assert(0 <= at < made.len());
    assert(is_like(made[at], v.arcs(k)[j]));
    if part.spec_member() {
        assert(inside(part));
        lemma_one_inside(inside, part);
    }
    if place is Some {
        let old = arcs[at].weight;
        lemma_two_inside(inside, old, part);
        assert(made[at].weight == old.spec_plus(part));
    } else {
        assert(made[at].weight == part);
    }
    assert forall|i: int| 0 <= i < made.len() && (#[trigger] made[i]).weight.spec_member() implies
        inside(made[i].weight) && stems(v, d, k, j + 1, made[i]) by {
        if i == at {
            if place is Some && made[at].weight == arcs[at].weight {
                assert(arcs[at].weight.spec_member());
                assert(stems(v, d, k, j, arcs[at]));
                let (x, y) = choose|x: int, y: int|
                    comes_before(x, y, k, j) && #[trigger] is_added(v, d, x, y) && is_like(
                        arcs[at],
                        v.arcs(x)[y],
                    ) && arcs[at].weight == added(v, d, x, y);
                assert(is_added(v, d, x, y));
            } else {
                if place is Some {
                    assert(arcs[at].weight.spec_member());
                    assert(inside(arcs[at].weight));
                }
                assert(made[at].weight == part);
                assert(is_added(v, d, k, j));
            }
        } else {
            assert(made[i] == arcs[i]);
            assert(stems(v, d, k, j, arcs[i]));
            let (x, y) = choose|x: int, y: int|
                comes_before(x, y, k, j) && #[trigger] is_added(v, d, x, y) && is_like(
                    arcs[i],
                    v.arcs(x)[y],
                ) && arcs[i].weight == added(v, d, x, y);
            assert(is_added(v, d, x, y));
        }
    }
    assert forall|x: int, y: int|
        comes_before(x, y, k, j + 1) && #[trigger] is_added(v, d, x, y) implies takes_in(
        inside,
        v,
        d,
        made,
        x,
        y,
    ) by {
        if x == k && y == j {
            if made[at].weight.spec_member() {
                if place is Some {
                    assert(arcs[at].weight.spec_member());
                    assert(inside(arcs[at].weight));
                }
                assert(part.spec_member());
                assert(covers(made[at].weight, part));
                assert(inside(d[k]));
            }
            assert(is_like(made[at], v.arcs(k)[j]));
        } else {
            assert(takes_in(inside, v, d, arcs, x, y));
            let i = choose|i: int|
                0 <= i < arcs.len() && is_like(#[trigger] arcs[i], v.arcs(x)[y]) && (
                arcs[i].weight.spec_member() ==> inside(d[x]) && covers(
                    arcs[i].weight,
                    added(v, d, x, y),
                ));
            if i == at && place is Some {
                if made[at].weight.spec_member() {
                    assert(arcs[at].weight.spec_member());
                    assert(inside(v.arcs(x)[y].weight));
                    lemma_product_inside(inside, d[x], v.arcs(x)[y].weight);
                    lemma_three_inside(
                        inside,
                        made[at].weight,
                        arcs[at].weight,
                        added(v, d, x, y),
                    );
                }
                assert(is_like(made[at], v.arcs(x)[y]));
            } else {
                assert(made[i] == arcs[i]);
            }
        }
    }
}

proof fn lemma_close_on<W: Weight>(
    inside: spec_fn(W) -> bool,
    v: FstV<W>,
    d: Seq<W>,
    arcs: Seq<Arc<W>>,
    k: int,
    j: int,
    to_k: int,
    to_j: int,
)
    requires
        close_over(inside, v, d, arcs, k, j),
        forall|x: int, y: int| #[trigger]
            is_added(v, d, x, y) ==> (comes_before(x, y, k, j) <==> comes_before(x, y, to_k, to_j)),
    ensures
        close_over(inside, v, d, arcs, to_k, to_j),
{
    assert forall|i: int| 0 <= i < arcs.len() && (#[trigger] arcs[i]).weight.spec_member() implies
        inside(arcs[i].weight) && stems(v, d, to_k, to_j, arcs[i]) by {
        assert(stems(v, d, k, j, arcs[i]));
        let (x, y) = choose|x: int, y: int|
            comes_before(x, y, k, j) && #[trigger] is_added(v, d, x, y) && is_like(
                arcs[i],
                v.arcs(x)[y],
            ) && arcs[i].weight == added(v, d, x, y);
        assert(is_added(v, d, x, y));
    }
    assert forall|x: int, y: int|
        comes_before(x, y, to_k, to_j) && #[trigger] is_added(v, d, x, y) implies takes_in(
        inside,
        v,
        d,
        arcs,
        x,
        y,
    ) by {
        assert(comes_before(x, y, k, j));
    }
}

proof fn lemma_all_added<W: Weight>(
    inside: spec_fn(W) -> bool,
    v: FstV<W>,
    d: Seq<W>,
    arcs: Seq<Arc<W>>,
    k: int,
    j: int,
)
    requires
        picks_paths(inside),
        all_inside(v, inside),
        d.len() == v.n(),
        0 <= k < v.n(),
        0 <= j <= v.arcs(k).len(),
        d[k] != W::spec_zero(),
        is_good(inside, d[k]),
        close_over(inside, v, d, arcs, k, 0),
    ensures
        close_over(inside, v, d, with_all_added(arcs, d[k], v.arcs(k), j), k, j),
    decreases j,
{
    if j > 0 {
        lemma_all_added(inside, v, d, arcs, k, j - 1);
        let before = with_all_added(arcs, d[k], v.arcs(k), j - 1);
        if is_epsilon(v.arcs(k)[j - 1]) {
            assert forall|x: int, y: int| #[trigger] is_added(v, d, x, y) implies (comes_before(
                x,
                y,
                k,
                j - 1,
            ) <==> comes_before(x, y, k, j)) by {
                if x == k && y == j - 1 {
                    assert(false);
                }
            }
            lemma_close_on(inside, v, d, before, k, j - 1, k, j);
        } else {
            assert(is_added(v, d, k, j - 1));
            lemma_one_more(inside, v, d, before, k, j - 1);
        }
    }
}

proof fn lemma_closure_arcs<W: Weight>(
    inside: spec_fn(W) -> bool,
    v: FstV<W>,
    d: Seq<W>,
    k: int,
)
    requires
        picks_paths(inside),
        all_inside(v, inside),
        d.len() == v.n(),
        0 <= k <= v.n(),
        forall|t: int| 0 <= t < d.len() ==> is_good(inside, #[trigger] d[t]),
    ensures
        close_over(inside, v, d, closure_arcs(v, d, k), k, 0),
    decreases k,
{
    if k > 0 {
        lemma_closure_arcs(inside, v, d, k - 1);
        let before = closure_arcs(v, d, k - 1);
        if d[k - 1] == W::spec_zero() {
            assert forall|x: int, y: int| #[trigger] is_added(v, d, x, y) implies (comes_before(
                x,
                y,
                k - 1,
                0,
            ) <==> comes_before(x, y, k, 0)) by {}
            lemma_close_on(inside, v, d, before, k - 1, 0, k, 0);
        } else {
            let n = v.arcs(k - 1).len() as int;
            lemma_all_added(inside, v, d, before, k - 1, n);
            let made = closure_arcs(v, d, k);
            assert forall|x: int, y: int| #[trigger] is_added(v, d, x, y) implies (comes_before(
                x,
                y,
                k - 1,
                n,
            ) <==> comes_before(x, y, k, 0)) by {}
            lemma_close_on(inside, v, d, made, k - 1, n, k, 0);
        }
    }
}

proof fn lemma_closure_final<W: Weight>(
    inside: spec_fn(W) -> bool,
    v: FstV<W>,
    d: Seq<W>,
    k: int,
)
    requires
        picks_paths(inside),
        all_inside(v, inside),
        d.len() == v.n(),
        0 <= k <= v.n(),
        forall|t: int| 0 <= t < d.len() ==> is_good(inside, #[trigger] d[t]),
    ensures
        ({
            let w = closure_final(v, d, k);
            w.spec_member() ==> {
                &&& inside(w)
                &&& forall|t: int|
                    0 <= t < k ==> inside(#[trigger] d[t]) && covers(w, d[t].spec_times(v.fin(t)))
                &&& w == W::spec_zero() || exists|t: int|
                    0 <= t < k && (#[trigger] d[t]) != W::spec_zero() && w == d[t].spec_times(
                        v.fin(t),
                    )
            }
        }),
    decreases k,
{
    lemma_one_inside(inside, W::spec_zero());
    if k > 0 {
        lemma_closure_final(inside, v, d, k - 1);
        let before = closure_final(v, d, k - 1);
        let w = closure_final(v, d, k);
        let here = d[k - 1];
        assert(inside(v.fin(k - 1)));
        lemma_one_inside(inside, v.fin(k - 1));
        if w.spec_member() {
            if here == W::spec_zero() {
                lemma_one_inside(inside, w);
                assert forall|t: int| 0 <= t < k implies inside(#[trigger] d[t]) && covers(
                    w,
                    d[t].spec_times(v.fin(t)),
                ) by {
                    if t < k - 1 {
                        assert(inside(d[t]));
                    }
                }
            } else {
                let part = here.spec_times(v.fin(k - 1));
                lemma_two_inside(inside, before, part);
                lemma_product_inside(inside, here, v.fin(k - 1));
                assert(is_good(inside, d[k - 1]));
                assert forall|t: int| 0 <= t < k implies inside(#[trigger] d[t]) && covers(
                    w,
                    d[t].spec_times(v.fin(t)),
                ) by {
                    if t < k - 1 {
                        assert(inside(d[t]));
                        assert(inside(v.fin(t)));
                        lemma_product_inside(inside, d[t], v.fin(t));
                        lemma_three_inside(inside, w, before, d[t].spec_times(v.fin(t)));
                    }
                }
                if w != before {
                    assert(d[k - 1] != W::spec_zero() && w == d[k - 1].spec_times(v.fin(k - 1)));
                }
            }
        }
    }
}

/// Whether state `s` of `r` is what is left of it: what ends there, and what leaves, is the
/// best of what ends and leaves wherever silent runs lead.
spec fn is_closed<W: Weight>(
    inside: spec_fn(W) -> bool,
    v: FstV<W>,
    s: int,
    state: StateV<W>,
) -> bool {
    &&& inside(state.final_weight)
    &&& forall|i: int| 0 <= i < state.arcs.len() ==> inside((#[trigger] state.arcs[i]).weight)
    &&& state.final_weight == W::spec_zero() || exists|t: int, run: Seq<Arc<W>>| #[trigger]
        goes_silently(v, s, t, run) && state.final_weight == weighs(run).spec_times(v.fin(t))
    &&& forall|i: int|
        0 <= i < state.arcs.len() ==> arc_stems(v, s, #[trigger] state.arcs[i])
    &&& forall|t: int, run: Seq<Arc<W>>| #[trigger]
        goes_silently(v, s, t, run) ==> covers(
            state.final_weight,
            weighs(run).spec_times(v.fin(t)),
        )
    &&& forall|t: int, run: Seq<Arc<W>>, j: int|
        #![trigger goes_silently(v, s, t, run), v.arcs(t)[j]]
        goes_silently(v, s, t, run) && 0 <= j < v.arcs(t).len() && !is_epsilon(v.arcs(t)[j])
            && weighs(run) != W::spec_zero() ==> arc_takes_in(
            state.arcs,
            v.arcs(t)[j],
            weighs(run).spec_times(v.arcs(t)[j].weight),
        )
}

/// Whether an arc is a silent run and then an arc that is not silent.
spec fn arc_stems<W: Weight>(v: FstV<W>, s: int, arc: Arc<W>) -> bool {
    exists|t: int, run: Seq<Arc<W>>, j: int|
        {
            &&& #[trigger] goes_silently(v, s, t, run)
            &&& 0 <= j < v.arcs(t).len()
            &&& !is_epsilon(v.arcs(t)[j])
            &&& is_like(arc, #[trigger] v.arcs(t)[j])
            &&& arc.weight == weighs(run).spec_times(v.arcs(t)[j].weight)
        }
}

/// Whether one of the arcs is like `arc` and covers `weight`.
spec fn arc_takes_in<W: Weight>(arcs: Seq<Arc<W>>, arc: Arc<W>, weight: W) -> bool {
    exists|i: int|
        0 <= i < arcs.len() && is_like(#[trigger] arcs[i], arc) && covers(arcs[i].weight, weight)
}

#[verifier::spinoff_prover]
#[verifier::rlimit(30)]
proof fn lemma_closed<W: Weight>(
    inside: spec_fn(W) -> bool,
    v: FstV<W>,
    delta: W::Delta,
    d: Seq<W>,
    s: int,
    state: StateV<W>,
)
    requires
        picks_paths(inside),
        closeness_is_equality::<W>(delta),
        v.wf(),
        v.n() <= usize::MAX,
        all_inside(v, inside),
        0 <= s < v.n(),
        is_distance(epsilon_part(v, s), false, delta, d),
        state.final_weight == closure_final(v, d, v.n() as int),
        state.arcs == closure_arcs(v, d, v.n() as int),
        state_is_member(state),
    ensures
        is_closed(inside, v, s, state),
{
    let e = epsilon_part(v, s);
    let n = v.n() as int;
    lemma_epsilon_part(v, s);
    lemma_epsilon_part_inside(inside, v, s);
    let k = lemma_settled(e, false, delta, d);
    assert forall|t: int| 0 <= t < d.len() implies is_good(inside, #[trigger] d[t]) by {
        lemma_from_start(inside, e, k, t);
    }
    lemma_closure_final(inside, v, d, n);
    lemma_closure_arcs(inside, v, d, n);
    // Every state that something arrives at is known by the best silent run to it.
    assert forall|t: int| 0 <= t < n implies #[trigger] known(inside, v, s, t, d[t]) by {
        assert(inside(d[t]));
        lemma_one_inside(inside, d[t]);
        law_distance_is_that_of_the_best_path(inside, e, delta, d, t);
        if d[t] != W::spec_zero() {
            let run = choose|run: Seq<Arc<W>>| #[trigger]
                leads_to(e, t, run) && weighs(run) == d[t];
            lemma_silent_runs(v, s, t, run);
            assert(goes_silently(v, s, t, run));
        }
        assert forall|run: Seq<Arc<W>>| #[trigger] goes_silently(v, s, t, run) implies covers(
            d[t],
            weighs(run),
        ) by {
            lemma_silent_runs(v, s, t, run);
            assert(leads_to(e, t, run));
        }
    }
    let w = state.final_weight;
    if w != W::spec_zero() {
        let t = choose|t: int|
            0 <= t < n && (#[trigger] d[t]) != W::spec_zero() && w == d[t].spec_times(v.fin(t));
        assert(known(inside, v, s, t, d[t]));
        let run = choose|run: Seq<Arc<W>>| #[trigger]
            goes_silently(v, s, t, run) && weighs(run) == d[t];
        assert(goes_silently(v, s, t, run) && w == weighs(run).spec_times(v.fin(t)));
    }
    assert forall|i: int| 0 <= i < state.arcs.len() implies inside(
        (#[trigger] state.arcs[i]).weight,
    ) && arc_stems(v, s, state.arcs[i]) by {
        assert(state.arcs[i].weight.spec_member());
        assert(stems(v, d, n, 0, state.arcs[i]));
        let (x, y) = choose|x: int, y: int|
            comes_before(x, y, n, 0) && #[trigger] is_added(v, d, x, y) && is_like(
                state.arcs[i],
                v.arcs(x)[y],
            ) && state.arcs[i].weight == added(v, d, x, y);
        assert(known(inside, v, s, x, d[x]));
        let run = choose|run: Seq<Arc<W>>| #[trigger]
            goes_silently(v, s, x, run) && weighs(run) == d[x];
        assert(goes_silently(v, s, x, run) && is_like(state.arcs[i], v.arcs(x)[y]));
    }
    assert forall|t: int, run: Seq<Arc<W>>| #[trigger] goes_silently(v, s, t, run) implies covers(
        w,
        weighs(run).spec_times(v.fin(t)),
    ) by {
        lemma_run_stays(v, s, run, run.len() as int);
        assert(known(inside, v, s, t, d[t]));
        assert(inside(v.fin(t)));
        lemma_total_of_weighs(inside, v, s, run, v.fin(t));
        lemma_product_inside(inside, d[t], v.fin(t));
        lemma_three_inside(inside, d[t], weighs(run), v.fin(t));
        lemma_three_inside(
            inside,
            w,
            d[t].spec_times(v.fin(t)),
            weighs(run).spec_times(v.fin(t)),
        );
    }
    assert forall|t: int, run: Seq<Arc<W>>, j: int|
        #![trigger goes_silently(v, s, t, run), v.arcs(t)[j]]
        goes_silently(v, s, t, run) && 0 <= j < v.arcs(t).len() && !is_epsilon(v.arcs(t)[j])
            && weighs(run) != W::spec_zero() implies arc_takes_in(
        state.arcs,
        v.arcs(t)[j],
        weighs(run).spec_times(v.arcs(t)[j].weight),
    ) by {
        lemma_run_stays(v, s, run, run.len() as int);
        assert(known(inside, v, s, t, d[t]));
        assert(covers(d[t], weighs(run)));
        lemma_total_of_weighs(inside, v, s, run, W::spec_one());
        lemma_one_inside(inside, weighs(run));
        let a = v.arcs(t)[j].weight;
        assert(inside(v.arcs(t)[j].weight));
        if d[t] == W::spec_zero() {
            assert(W::spec_zero().spec_plus(weighs(run)) == weighs(run));
        }
        assert(is_added(v, d, t, j));
        assert(takes_in(inside, v, d, state.arcs, t, j));
        let i = choose|i: int|
            0 <= i < state.arcs.len() && is_like(#[trigger] state.arcs[i], v.arcs(t)[j]) && (
            state.arcs[i].weight.spec_member() ==> inside(d[t]) && covers(
                state.arcs[i].weight,
                added(v, d, t, j),
            ));
        assert(state.arcs[i].weight.spec_member());
        lemma_product_inside(inside, d[t], a);
        lemma_product_inside(inside, weighs(run), a);
        lemma_three_inside(inside, d[t], weighs(run), a);
        lemma_three_inside(
            inside,
            state.arcs[i].weight,
            d[t].spec_times(a),
            weighs(run).spec_times(a),
        );
        assert(is_like(state.arcs[i], v.arcs(t)[j]));
    }
}

/// Whether `w` is what the best silent run from `s` to `t` weighs.
spec fn known<W: Weight>(
    inside: spec_fn(W) -> bool,
    v: FstV<W>,
    s: int,
    t: int,
    w: W,
) -> bool {
    &&& inside(w)
    &&& w == W::spec_zero() || exists|run: Seq<Arc<W>>| #[trigger]
        goes_silently(v, s, t, run) && weighs(run) == w
    &&& forall|run: Seq<Arc<W>>| #[trigger]
        goes_silently(v, s, t, run) ==> covers(w, weighs(run))
}

/// Whether `r` is `v` without the arcs that neither read nor write, with every weight in the
/// semiring.
pub open spec fn loses_epsilons<W: Weight>(v: FstV<W>, delta: W::Delta, r: FstV<W>) -> bool {
    &&& all_members(r)
    &&& exists|distances: Seq<Seq<W>>| #[trigger]
        are_closures(v, delta, distances) && r == without_epsilons(v, distances)
}

proof fn lemma_states_closed<W: Weight>(
    inside: spec_fn(W) -> bool,
    v: FstV<W>,
    delta: W::Delta,
    r: FstV<W>,
    s: int,
)
    requires
        picks_paths(inside),
        closeness_is_equality::<W>(delta),
        v.wf(),
        v.n() <= usize::MAX,
        all_inside(v, inside),
        loses_epsilons(v, delta, r),
        0 <= s < v.n(),
    ensures
        r.n() == v.n(),
        r.start == v.start,
        is_entered(v, s) ==> is_closed(inside, v, s, r.states[s]),
        !is_entered(v, s) ==> r.states[s] == v.states[s],
{
    let distances = choose|distances: Seq<Seq<W>>| #[trigger]
        are_closures(v, delta, distances) && r == without_epsilons(v, distances);
    if is_entered(v, s) {
        assert(state_is_member(r.states[s]));
        assert(is_distance(epsilon_part(v, s), false, delta, distances[s]));
        lemma_closed(inside, v, delta, distances[s], s, r.states[s]);
    }
}

/// What is left keeps to the weights that are inside.
pub proof fn lemma_left_inside<W: Weight>(
    inside: spec_fn(W) -> bool,
    v: FstV<W>,
    delta: W::Delta,
    r: FstV<W>,
)
    requires
        picks_paths(inside),
        closeness_is_equality::<W>(delta),
        v.wf(),
        v.n() <= usize::MAX,
        all_inside(v, inside),
        loses_epsilons(v, delta, r),
    ensures
        all_inside(r, inside),
        r.wf(),
        r.n() == v.n(),
        r.start == v.start,
{
    let distances = choose|distances: Seq<Seq<W>>| #[trigger]
        are_closures(v, delta, distances) && r == without_epsilons(v, distances);
    assert forall|s: int| 0 <= s < r.n() implies inside(#[trigger] r.fin(s)) by {
        lemma_states_closed(inside, v, delta, r, s);
        assert(inside(v.fin(s)));
    }
    assert forall|s: int, i: int| 0 <= s < r.n() && 0 <= i < r.arcs(s).len() implies inside(
        (#[trigger] r.arcs(s)[i]).weight,
    ) && r.arcs(s)[i].nextstate < v.n() by {
        lemma_states_closed(inside, v, delta, r, s);
        if is_entered(v, s) {
            assert(arc_stems(v, s, r.states[s].arcs[i]));
            let (t, run, j) = choose|t: int, run: Seq<Arc<W>>, j: int|
                {
                    &&& #[trigger] goes_silently(v, s, t, run)
                    &&& 0 <= j < v.arcs(t).len()
                    &&& !is_epsilon(v.arcs(t)[j])
                    &&& is_like(r.states[s].arcs[i], #[trigger] v.arcs(t)[j])
                    &&& r.states[s].arcs[i].weight == weighs(run).spec_times(v.arcs(t)[j].weight)
                };
            lemma_run_stays(v, s, run, run.len() as int);
            assert(v.states[t].arcs[j].nextstate < v.n());
        } else {
            assert(inside(v.arcs(s)[i].weight));
            assert(v.states[s].arcs[i].nextstate < v.n());
        }
    }
    assert forall|s: int, i: int| 0 <= s < r.n() && 0 <= i < r.states[s].arcs.len() implies (
    #[trigger] r.states[s].arcs[i]).nextstate < r.n() by {
        assert(r.arcs(s)[i].nextstate < v.n());
    }
}

/// A run taken apart.
proof fn lemma_apart<W: Weight>(v: FstV<W>, s: int, run: Seq<Arc<W>>, j: int)
    requires
        v.wf(),
        is_ending(v, s, run),
        0 <= j <= run.len(),
    ensures
        is_run(v, s, run.take(j)),
        end_of(s, run.take(j)) == state_at(s, run, j),
        is_ending(v, state_at(s, run, j), run.skip(j)),
        end_of(state_at(s, run, j), run.skip(j)) == end_of(s, run),
        run == run.take(j) + run.skip(j),
{
    let first = run.take(j);
    let rest = run.skip(j);
    let t = state_at(s, run, j);
    lemma_run_stays(v, s, run, j);
    assert(run =~= first + rest);
    assert forall|i: int| 0 <= i < first.len() implies #[trigger] steps(v, s, first, i) by {
        assert(steps(v, s, run, i));
        assert(state_at(s, first, i) == state_at(s, run, i));
    }
    assert forall|i: int| 0 <= i < rest.len() implies #[trigger] steps(v, t, rest, i) by {
        assert(steps(v, s, run, i + j));
        assert(state_at(t, rest, i) == state_at(s, run, i + j));
    }
    if rest.len() > 0 {
        assert(rest[rest.len() - 1] == run[run.len() - 1]);
    }
}

/// The first arc of a run that reads or writes, if there is one.
proof fn lemma_first_heard<W: Weight>(run: Seq<Arc<W>>) -> (j: int)
    ensures
        0 <= j <= run.len(),
        is_silent(run.take(j)),
        j < run.len() ==> !is_epsilon(run[j]),
    decreases run.len(),
{
    if run.len() == 0 {
        0
    } else {
        let less = run.drop_last();
        let j = lemma_first_heard(less);
        assert(run.take(j) =~= less.take(j));
        if j < less.len() {
            j
        } else if is_epsilon(run.last()) {
            let all = run.take(run.len() as int);
            assert forall|i: int| 0 <= i < all.len() implies is_epsilon(#[trigger] all[i]) by {
                if i < less.len() {
                    assert(less.take(j)[i] == run[i]);
                }
            }
            run.len() as int
        } else {
            j
        }
    }
}

/// Every run from a state that is entered, if it weighs anything, is still there: some run
/// of what is left reads and writes the same, and is no worse.
#[verifier::spinoff_prover]
#[verifier::rlimit(40)]
proof fn lemma_run_survives<W: Weight>(
    inside: spec_fn(W) -> bool,
    v: FstV<W>,
    delta: W::Delta,
    r: FstV<W>,
    s: int,
    run: Seq<Arc<W>>,
) -> (kept: Seq<Arc<W>>)
    requires
        picks_paths(inside),
        closeness_is_equality::<W>(delta),
        v.wf(),
        v.n() <= usize::MAX,
        all_inside(v, inside),
        loses_epsilons(v, delta, r),
        is_entered(v, s),
        is_ending(v, s, run),
        total(run, v.fin(end_of(s, run))) != W::spec_zero(),
    ensures
        is_ending(r, s, kept),
        reads(kept) == reads(run),
        writes(kept) == writes(run),
        inside(total(kept, r.fin(end_of(s, kept)))),
        inside(total(run, v.fin(end_of(s, run)))),
        covers(total(kept, r.fin(end_of(s, kept))), total(run, v.fin(end_of(s, run)))),
    decreases run.len(),
{
    lemma_left_inside(inside, v, delta, r);
    lemma_states_closed(inside, v, delta, r, s);
    let zero = W::spec_zero();
    let end = v.fin(end_of(s, run));
    assert(inside(v.fin(end_of(s, run))));
    lemma_total_of_weighs(inside, v, s, run, end);
    let j = lemma_first_heard(run);
    let first = run.take(j);
    let k = state_at(s, run, j);
    lemma_apart(v, s, run, j);
    lemma_silent(first);
    assert(goes_silently(v, s, k, first));
    let rest = run.skip(j);
    lemma_total_on(first, rest, end);
    let behind = total(rest, end);
    lemma_total_of_weighs(inside, v, k, rest, end);
    lemma_total_of_weighs(inside, v, s, first, behind);
    lemma_one_inside(inside, behind);
    lemma_one_inside(inside, weighs(first));
    assert(weighs(first) != zero && behind != zero);
    if j == run.len() {
        assert(rest =~= Seq::empty());
        assert(behind == end);
        let kept = Seq::<Arc<W>>::empty();
        let w = r.fin(s);
        assert(covers(r.states[s].final_weight, weighs(first).spec_times(v.fin(k))));
        lemma_one_inside(inside, total(run, end));
        if w == zero {
            assert(zero.spec_plus(total(run, end)) == total(run, end));
        }
        assert(first =~= run);
        assert(is_ending(r, s, kept));
        kept
    } else {
        let arc = run[j];
        assert(rest[0] == arc);
        lemma_after_first(v, k, rest);
        let more = rest.drop_first();
        let t = arc.nextstate as int;
        let x = choose|x: int| 0 <= x < v.arcs(k).len() && v.arcs(k)[x] == arc;
        assert(inside(v.arcs(k)[x].weight));
        assert(is_entered(v, t)) by {
            assert(v.states[k].arcs[x].nextstate == t);
        }
        let on = total(more, end);
        lemma_total_of_weighs(inside, v, t, more, end);
        lemma_one_inside(inside, arc.weight);
        assert(on != zero);
        let kept_more = lemma_run_survives(inside, v, delta, r, t, more);
        let kept_on = total(kept_more, r.fin(end_of(t, kept_more)));
        assert(arc_takes_in(
            r.states[s].arcs,
            v.arcs(k)[x],
            weighs(first).spec_times(v.arcs(k)[x].weight),
        ));
        let i = choose|i: int|
            0 <= i < r.states[s].arcs.len() && is_like(
                #[trigger] r.states[s].arcs[i],
                v.arcs(k)[x],
            ) && covers(r.states[s].arcs[i].weight, weighs(first).spec_times(v.arcs(k)[x].weight));
        let made = r.arcs(s)[i];
        assert(inside(r.arcs(s)[i].weight));
        assert(r.arcs(s).contains(made));
        lemma_go_first(r, s, made, kept_more);
        let kept = seq![made] + kept_more;
        lemma_labels_from_front(made, kept_more);
        lemma_labels_from_front(arc, more);
        lemma_reads_concat(first, rest);
        lemma_writes_concat(first, rest);
        assert(reads(kept) =~= reads(run));
        assert(writes(kept) =~= writes(run));
        // What it weighs.
        let a = made.weight;
        let b = weighs(first).spec_times(arc.weight);
        lemma_product_inside(inside, weighs(first), arc.weight);
        lemma_product_inside(inside, a, kept_on);
        lemma_product_inside(inside, a, on);
        lemma_product_inside(inside, b, on);
        lemma_three_inside(inside, kept_on, on, a);
        lemma_three_inside(inside, a, b, on);
        lemma_three_inside(inside, a.spec_times(kept_on), a.spec_times(on), b.spec_times(on));
        lemma_multiply_along(inside, weighs(first), arc.weight, on);
        kept
    }
}

/// Nothing else is there: every run of what is left, from a state that is entered, is a run
/// that was there, reads, writes and weighs the same.
#[verifier::spinoff_prover]
#[verifier::rlimit(40)]
proof fn lemma_run_was_there<W: Weight>(
    inside: spec_fn(W) -> bool,
    v: FstV<W>,
    delta: W::Delta,
    r: FstV<W>,
    s: int,
    run: Seq<Arc<W>>,
) -> (from: Seq<Arc<W>>)
    requires
        picks_paths(inside),
        closeness_is_equality::<W>(delta),
        v.wf(),
        v.n() <= usize::MAX,
        all_inside(v, inside),
        loses_epsilons(v, delta, r),
        is_entered(v, s),
        is_ending(r, s, run),
    ensures
        is_ending(v, s, from),
        reads(from) == reads(run),
        writes(from) == writes(run),
        total(from, v.fin(end_of(s, from))) == total(run, r.fin(end_of(s, run))),
    decreases run.len(),
{
    lemma_left_inside(inside, v, delta, r);
    lemma_states_closed(inside, v, delta, r, s);
    let zero = W::spec_zero();
    if run.len() == 0 {
        let w = r.states[s].final_weight;
        let (t, first) = choose|t: int, first: Seq<Arc<W>>| #[trigger]
            goes_silently(v, s, t, first) && w == weighs(first).spec_times(v.fin(t));
        lemma_run_stays(v, s, first, first.len() as int);
        assert(inside(v.fin(t)));
        lemma_total_of_weighs(inside, v, s, first, v.fin(t));
        lemma_one_inside(inside, weighs(first));
        assert(v.fin(t) != zero);
        lemma_silent(first);
        first
    } else {
        lemma_after_first(r, s, run);
        let rest = run.drop_first();
        let i = choose|i: int| 0 <= i < r.arcs(s).len() && r.arcs(s)[i] == run[0];
        assert(arc_stems(v, s, r.states[s].arcs[i]));
        let (k, first, j) = choose|k: int, first: Seq<Arc<W>>, j: int|
            {
                &&& #[trigger] goes_silently(v, s, k, first)
                &&& 0 <= j < v.arcs(k).len()
                &&& !is_epsilon(v.arcs(k)[j])
                &&& is_like(r.states[s].arcs[i], #[trigger] v.arcs(k)[j])
                &&& r.states[s].arcs[i].weight == weighs(first).spec_times(v.arcs(k)[j].weight)
            };
        let arc = v.arcs(k)[j];
        let t = arc.nextstate as int;
        lemma_run_stays(v, s, first, first.len() as int);
        assert(v.states[k].arcs[j].nextstate < v.n());
        assert(is_entered(v, t)) by {
            assert(v.states[k].arcs[j].nextstate == t);
        }
        let more = lemma_run_was_there(inside, v, delta, r, t, rest);
        let end = v.fin(end_of(t, more));
        assert(inside(v.fin(end_of(t, more))));
        let on = total(more, end);
        lemma_total_of_weighs(inside, v, t, more, end);
        assert(v.arcs(k).contains(arc));
        lemma_go_first(v, k, arc, more);
        let then = seq![arc] + more;
        lemma_run_on(v, s, first, then);
        let from = first + then;
        lemma_total_on(first, then, end);
        assert(inside(v.arcs(k)[j].weight));
        lemma_product_inside(inside, arc.weight, on);
        lemma_total_of_weighs(inside, v, s, first, arc.weight.spec_times(on));
        lemma_multiply_along(inside, weighs(first), arc.weight, on);
        lemma_silent(first);
        lemma_reads_concat(first, then);
        lemma_writes_concat(first, then);
        lemma_labels_from_front(arc, more);
        lemma_labels_from_front(run[0], rest);
        assert(reads(from) =~= reads(run));
        assert(writes(from) =~= writes(run));
        from
    }
}

/// Removing the arcs that neither read nor write keeps every path that weighs anything: some
/// path of the result reads and writes the same, and is no worse.
pub proof fn law_removing_epsilons_keeps_paths<W: Weight>(
    inside: spec_fn(W) -> bool,
    v: FstV<W>,
    delta: W::Delta,
    r: FstV<W>,
    run: Seq<Arc<W>>,
) -> (kept: Seq<Arc<W>>)
    requires
        picks_paths(inside),
        closeness_is_equality::<W>(delta),
        v.wf(),
        v.n() <= usize::MAX,
        all_inside(v, inside),
        loses_epsilons(v, delta, r),
        is_accepting(v, run),
        accepted_weight(v, run) != W::spec_zero(),
    ensures
        is_accepting(r, kept),
        reads(kept) == reads(run),
        writes(kept) == writes(run),
        inside(accepted_weight(r, kept)),
        inside(accepted_weight(v, run)),
        covers(accepted_weight(r, kept), accepted_weight(v, run)),
{
    let s = v.start->0 as int;
    assert(is_entered(v, s));
    lemma_left_inside(inside, v, delta, r);
    lemma_run_survives(inside, v, delta, r, s, run)
}

/// Removing the arcs that neither read nor write adds no path: every path of the result is
/// one that reads, writes and weighs the same.
pub proof fn law_removing_epsilons_adds_no_path<W: Weight>(
    inside: spec_fn(W) -> bool,
    v: FstV<W>,
    delta: W::Delta,
    r: FstV<W>,
    run: Seq<Arc<W>>,
) -> (from: Seq<Arc<W>>)
    requires
        picks_paths(inside),
        closeness_is_equality::<W>(delta),
        v.wf(),
        v.n() <= usize::MAX,
        all_inside(v, inside),
        loses_epsilons(v, delta, r),
        is_accepting(r, run),
    ensures
        is_accepting(v, from),
        reads(from) == reads(run),
        writes(from) == writes(run),
        accepted_weight(v, from) == accepted_weight(r, run),
{
    lemma_left_inside(inside, v, delta, r);
    let s = v.start->0 as int;
    assert(is_entered(v, s));
    lemma_run_was_there(inside, v, delta, r, s, run)
}

} // verus!
