//! What mapping arcs makes of the paths of a machine.
use crate::arc::{Arc, EPSILON};
use crate::arc_map::{
    final_arc, map_all, map_arcs, map_in_place, map_states, superfinal_state, SuperFinalMapper,
};
use crate::difference_laws::one_changes_nothing;
use crate::paths::{
    accepted_weight, end_of, is_accepting, is_run, lemma_run_stays, reads, state_at, steps, writes,
};
use crate::prune_bounds::lemma_total_last;
use crate::vector_fst::{FstV, StateV};
use crate::weight::Weight;
use vstd::prelude::*;

verus! {

/// The machine with one state that all paths end in.
pub open spec fn with_one_end<W: Weight>(v: FstV<W>) -> FstV<W> {
    map_in_place::<W, SuperFinalMapper>((), v)
}

/// The arc that a path takes to the one end.
pub open spec fn last_arc<W: Weight>(v: FstV<W>, s: int) -> Arc<W> {
    Arc { ilabel: EPSILON, olabel: EPSILON, weight: v.fin(s), nextstate: v.n() as usize }
}

proof fn lemma_arcs_left_alone<W: Weight>(arcs: Seq<Arc<W>>, k: int)
    requires
        0 <= k <= arcs.len(),
    ensures
        map_arcs::<W, W, SuperFinalMapper>((), arcs, k).1 == arcs.take(k),
    decreases k,
{
    if k > 0 {
        lemma_arcs_left_alone(arcs, k - 1);
        assert(arcs.take(k) =~= arcs.take(k - 1).push(arcs[k - 1]));
    } else {
        assert(arcs.take(0) =~= Seq::empty());
    }
}

proof fn lemma_states_end_at_one<W: Weight>(states: Seq<StateV<W>>, top: usize, k: int)
    requires
        0 <= k <= states.len(),
    ensures
        ({
            let p = map_states::<W, W, SuperFinalMapper>((), states, top, k);
            &&& p.failed is None
            &&& p.superfinal
            &&& p.done.len() == k
            &&& forall|s: int|
                0 <= s < k ==> #[trigger] p.done[s] == (StateV {
                    final_weight: W::spec_zero(),
                    arcs: if states[s].final_weight != W::spec_zero() {
                        states[s].arcs.push(
                            Arc { nextstate: top, ..final_arc(states[s].final_weight) },
                        )
                    } else {
                        states[s].arcs
                    },
                })
        }),
    decreases k,
{
    if k > 0 {
        lemma_states_end_at_one(states, top, k - 1);
        let arcs = states[k - 1].arcs;
        lemma_arcs_left_alone(arcs, arcs.len() as int);
        assert(arcs.take(arcs.len() as int) =~= arcs);
    }
}

proof fn lemma_one_end<W: Weight>(v: FstV<W>)
    requires
        v.wf(),
        v.n() < usize::MAX,
        v.start is Some,
    ensures
        ({
            let w = with_one_end(v);
            &&& w.start == v.start
            &&& w.n() == v.n() + 1
            &&& w.fin(v.n() as int) == W::spec_one()
            &&& w.arcs(v.n() as int).len() == 0
            &&& forall|s: int| 0 <= s < v.n() ==> #[trigger] w.fin(s) == W::spec_zero()
            &&& forall|s: int|
                0 <= s < v.n() ==> #[trigger] w.arcs(s) == (if v.fin(s) != W::spec_zero() {
                    v.arcs(s).push(last_arc(v, s))
                } else {
                    v.arcs(s)
                })
        }),
{
    lemma_states_end_at_one(v.states, v.n() as usize, v.n() as int);
    let w = with_one_end(v);
    let r = map_all::<W, W, SuperFinalMapper>((), v);
    assert(w.states =~= r.done + superfinal_state(true));
    assert forall|s: int| 0 <= s < v.n() implies #[trigger] w.fin(s) == W::spec_zero() by {
        assert(w.states[s] == r.done[s]);
    }
    assert forall|s: int| 0 <= s < v.n() implies #[trigger] w.arcs(s) == (if v.fin(s)
        != W::spec_zero() {
        v.arcs(s).push(last_arc(v, s))
    } else {
        v.arcs(s)
    }) by {
        assert(w.states[s] == r.done[s]);
    }
}

/// A machine whose final weights are forced through one state ends in that state alone, for
/// nothing.
pub proof fn law_one_state_ends<W: Weight>(v: FstV<W>, s: int)
    requires
        v.wf(),
        v.n() < usize::MAX,
        v.start is Some,
        0 <= s < with_one_end(v).n(),
    ensures
        with_one_end(v).fin(s) == (if s == v.n() {
            W::spec_one()
        } else {
            W::spec_zero()
        }),
{
    lemma_one_end(v);
}

/// Forcing final weights through one state keeps every path: it goes on to that state, reads
/// and writes the same, and weighs the same.
pub proof fn law_one_end_keeps_paths<W: Weight>(v: FstV<W>, run: Seq<Arc<W>>) -> (kept: Seq<
    Arc<W>,
>)
    requires
        v.wf(),
        v.n() < usize::MAX,
        W::spec_one() != W::spec_zero(),
        is_accepting(v, run),
    ensures
        is_accepting(with_one_end(v), kept),
        reads(kept) == reads(run),
        writes(kept) == writes(run),
        one_changes_nothing::<W>() ==> accepted_weight(with_one_end(v), kept) == accepted_weight(
            v,
            run,
        ),
{
    lemma_one_end(v);
    let w = with_one_end(v);
    let s = v.start->0 as int;
    let e = end_of(s, run);
    let last = last_arc(v, e);
    let kept = run.push(last);
    lemma_run_stays(v, s, run, run.len() as int);
    assert forall|i: int| 0 <= i < kept.len() implies #[trigger] steps(w, s, kept, i) by {
        let x = state_at(s, kept, i);
        if i < run.len() {
            assert(steps(v, s, run, i));
            assert(state_at(s, run, i) == x);
            let j = choose|j: int| 0 <= j < v.arcs(x).len() && v.arcs(x)[j] == run[i];
            assert(w.arcs(x)[j] == run[i]);
        } else {
            assert(x == e);
            assert(w.arcs(e)[v.arcs(e).len() as int] == last);
        }
    }
    assert(kept.drop_last() =~= run);
    if one_changes_nothing::<W>() {
        reveal(one_changes_nothing);
        lemma_total_last(kept, W::spec_one());
        assert(v.fin(e).spec_times(W::spec_one()) == v.fin(e));
    }
    kept
}

/// Forcing final weights through one state adds no path: every path is one that was there,
/// and then the way to that state.
pub proof fn law_one_end_adds_no_path<W: Weight>(v: FstV<W>, run: Seq<Arc<W>>) -> (from: Seq<
    Arc<W>,
>)
    requires
        v.wf(),
        v.n() < usize::MAX,
        v.start is Some,
        is_accepting(with_one_end(v), run),
    ensures
        is_accepting(v, from),
        reads(run) == reads(from),
        writes(run) == writes(from),
        one_changes_nothing::<W>() ==> accepted_weight(with_one_end(v), run) == accepted_weight(
            v,
            from,
        ),
{
    lemma_one_end(v);
    let w = with_one_end(v);
    let s = v.start->0 as int;
    let n = v.n() as int;
    assert(end_of(s, run) == n);
    let last = run.len() - 1;
    let from = run.drop_last();
    assert forall|i: int| 0 <= i < from.len() implies #[trigger] steps(v, s, from, i) by {
        lemma_steps_before_the_end(v, run, i);
        assert(state_at(s, from, i) == state_at(s, run, i));
    }
    lemma_run_stays(v, s, from, from.len() as int);
    let e = end_of(s, from);
    assert(steps(w, s, run, last));
    assert(state_at(s, run, last) == e);
    let j = choose|j: int| 0 <= j < w.arcs(e).len() && w.arcs(e)[j] == run[last];
    if j < v.arcs(e).len() {
        assert(v.states[e].arcs[j].nextstate < v.n());
    }
    assert(run[last] == last_arc(v, e));
    if one_changes_nothing::<W>() {
        reveal(one_changes_nothing);
        lemma_total_last(run, W::spec_one());
        assert(v.fin(e).spec_times(W::spec_one()) == v.fin(e));
    }
    from
}

proof fn lemma_steps_before_the_end<W: Weight>(v: FstV<W>, run: Seq<Arc<W>>, i: int)
    requires
        v.wf(),
        v.n() < usize::MAX,
        v.start is Some,
        is_run(with_one_end(v), v.start->0 as int, run),
        0 <= i < run.len() - 1,
    ensures
        steps(v, v.start->0 as int, run, i),
{
    lemma_one_end(v);
    let w = with_one_end(v);
    let s = v.start->0 as int;
    assert(steps(w, s, run, i));
    assert(steps(w, s, run, i + 1));
    let x = state_at(s, run, i);
    let j = choose|j: int| 0 <= j < w.arcs(x).len() && w.arcs(x)[j] == run[i];
    assert(x < v.n());
    if j >= v.arcs(x).len() {
        assert(run[i] == last_arc(v, x));
        assert(state_at(s, run, i + 1) == v.n());
        assert(w.arcs(v.n() as int).contains(run[i + 1]));
    }
    assert(v.arcs(x)[j] == run[i]);
}

} // verus!
