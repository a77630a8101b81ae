//! What machines that are isomorphic have in common.
use crate::arc::Arc;
use crate::isomorphic::{
    arcs_pair, are_isomorphic, in_arc_order, is_matching, law_ordering_permutes, states_pair,
    WeightCompare,
};
use crate::paths::{end_of, is_run, lemma_run_stays, state_at, steps};
use crate::vector_fst::FstV;
use crate::weight::Weight;
use vstd::prelude::*;

verus! {

proof fn lemma_order_holds<W: Weight, C: WeightCompare<W>>(
    comp: C,
    delta: W::Delta,
    arcs: Seq<Arc<W>>,
    arc: Arc<W>,
)
    ensures
        in_arc_order(comp, delta, arcs).len() == arcs.len(),
        in_arc_order(comp, delta, arcs).contains(arc) <==> arcs.contains(arc),
{
    broadcast use vstd::seq_lib::group_to_multiset_ensures;

    law_ordering_permutes(comp, delta, arcs, arcs.len() as int);
    let sorted = in_arc_order(comp, delta, arcs);
    assert(arcs.take(arcs.len() as int) =~= arcs);
    assert(sorted.to_multiset() == arcs.to_multiset());
    assert(sorted.contains(arc) <==> sorted.to_multiset().count(arc) > 0);
    assert(arcs.contains(arc) <==> arcs.to_multiset().count(arc) > 0);
}

/// Whether two runs go alike: arc by arc they have the same labels and weights within
/// `delta`.
pub open spec fn go_alike<W: Weight>(
    delta: W::Delta,
    a: Seq<Arc<W>>,
    b: Seq<Arc<W>>,
) -> bool {
    &&& a.len() == b.len()
    &&& forall|i: int|
        0 <= i < a.len() ==> (#[trigger] a[i]).ilabel == b[i].ilabel && a[i].olabel == b[i].olabel
            && a[i].weight.spec_approx(b[i].weight, delta)
}

/// From states that are matched, runs go alike.
proof fn lemma_matched_run<W: Weight, C: WeightCompare<W>>(
    comp: C,
    delta: W::Delta,
    v1: FstV<W>,
    v2: FstV<W>,
    pairs: Set<(usize, usize)>,
    run: Seq<Arc<W>>,
) -> (other: Seq<Arc<W>>)
    requires
        v1.wf(),
        v2.wf(),
        v1.start is Some,
        v2.start is Some,
        is_matching(comp, delta, v1, v2, pairs),
        is_run(v1, v1.start->0 as int, run),
    ensures
        is_run(v2, v2.start->0 as int, other),
        go_alike(delta, run, other),
        pairs.contains(
            (
                end_of(v1.start->0 as int, run) as usize,
                end_of(v2.start->0 as int, other) as usize,
            ),
        ),
    decreases run.len(),
{
    let s1 = v1.start->0 as int;
    let s2 = v2.start->0 as int;
    if run.len() == 0 {
        Seq::empty()
    } else {
        let less = run.drop_last();
        let last = run.len() - 1;
        assert(is_run(v1, s1, less)) by {
            assert forall|i: int| 0 <= i < less.len() implies #[trigger] steps(v1, s1, less, i) by {
                assert(steps(v1, s1, run, i));
                assert(state_at(s1, less, i) == state_at(s1, run, i));
            }
        }
        let before = lemma_matched_run(comp, delta, v1, v2, pairs, less);
        let x = end_of(s1, less);
        let y = end_of(s2, before);
        lemma_run_stays(v2, s2, before, before.len() as int);
        assert(steps(v1, s1, run, last));
        assert(state_at(s1, run, last) == x);
        let arc = run[last];
        let pair = (x as usize, y as usize);
        assert(states_pair(comp, delta, v1, v2, pairs, pair));
        let arcs1 = in_arc_order(comp, delta, v1.arcs(x));
        let arcs2 = in_arc_order(comp, delta, v2.arcs(y));
        lemma_order_holds(comp, delta, v1.arcs(x), arc);
        let i = choose|i: int| 0 <= i < arcs1.len() && arcs1[i] == arc;
        assert(arcs_pair(delta, arcs1, arcs2, pairs, i));
        lemma_order_holds(comp, delta, v2.arcs(y), arcs2[i]);
        assert(arcs2.contains(arcs2[i]));
        let made = arcs2[i];
        let other = before.push(made);
        assert forall|j: int| 0 <= j < other.len() implies #[trigger] steps(v2, s2, other, j) by {
            if j < before.len() {
                assert(steps(v2, s2, before, j));
                assert(state_at(s2, other, j) == state_at(s2, before, j));
            } else {
                assert(state_at(s2, other, j) == y);
            }
        }
        assert forall|j: int| 0 <= j < run.len() implies (#[trigger] run[j]).ilabel
            == other[j].ilabel && run[j].olabel == other[j].olabel && run[j].weight.spec_approx(
            other[j].weight,
            delta,
        ) by {
            if j < less.len() {
                assert(less[j] == run[j]);
                assert(before[j] == other[j]);
            }
        }
        other
    }
}

/// Where two machines are isomorphic, each run of the first from its start has a run of the
/// second that goes alike, and ends where as much ends, within `delta`.
pub proof fn law_isomorphic_machines_run_alike<W: Weight, C: WeightCompare<W>>(
    comp: C,
    delta: W::Delta,
    v1: FstV<W>,
    v2: FstV<W>,
    run: Seq<Arc<W>>,
) -> (other: Seq<Arc<W>>)
    requires
        v1.wf(),
        v2.wf(),
        v1.start is Some,
        are_isomorphic(comp, delta, v1, v2),
        is_run(v1, v1.start->0 as int, run),
    ensures
        v2.start is Some,
        is_run(v2, v2.start->0 as int, other),
        go_alike(delta, run, other),
        v1.fin(end_of(v1.start->0 as int, run)).spec_approx(
            v2.fin(end_of(v2.start->0 as int, other)),
            delta,
        ),
        v1.arcs(end_of(v1.start->0 as int, run)).len() == v2.arcs(
            end_of(v2.start->0 as int, other),
        ).len(),
{
    let pairs = choose|pairs: Set<(usize, usize)>| #[trigger]
        is_matching(comp, delta, v1, v2, pairs);
    let other = lemma_matched_run(comp, delta, v1, v2, pairs, run);
    let pair = (
        end_of(v1.start->0 as int, run) as usize,
        end_of(v2.start->0 as int, other) as usize,
    );
    assert(states_pair(comp, delta, v1, v2, pairs, pair));
    other
}

/// From states that are matched, runs of the second machine go alike too.
proof fn lemma_matched_run_back<W: Weight, C: WeightCompare<W>>(
    comp: C,
    delta: W::Delta,
    v1: FstV<W>,
    v2: FstV<W>,
    pairs: Set<(usize, usize)>,
    run: Seq<Arc<W>>,
) -> (other: Seq<Arc<W>>)
    requires
        v1.wf(),
        v2.wf(),
        v1.start is Some,
        v2.start is Some,
        is_matching(comp, delta, v1, v2, pairs),
        is_run(v2, v2.start->0 as int, run),
    ensures
        is_run(v1, v1.start->0 as int, other),
        go_alike(delta, other, run),
        pairs.contains(
            (
                end_of(v1.start->0 as int, other) as usize,
                end_of(v2.start->0 as int, run) as usize,
            ),
        ),
    decreases run.len(),
{
    let s1 = v1.start->0 as int;
    let s2 = v2.start->0 as int;
    if run.len() == 0 {
        Seq::empty()
    } else {
        let less = run.drop_last();
        let last = run.len() - 1;
        assert(is_run(v2, s2, less)) by {
            assert forall|i: int| 0 <= i < less.len() implies #[trigger] steps(v2, s2, less, i) by {
                assert(steps(v2, s2, run, i));
                assert(state_at(s2, less, i) == state_at(s2, run, i));
            }
        }
        let before = lemma_matched_run_back(comp, delta, v1, v2, pairs, less);
        let y = end_of(s2, less);
        let x = end_of(s1, before);
        lemma_run_stays(v1, s1, before, before.len() as int);
        assert(steps(v2, s2, run, last));
        assert(state_at(s2, run, last) == y);
        let arc = run[last];
        let pair = (x as usize, y as usize);
        assert(states_pair(comp, delta, v1, v2, pairs, pair));
        let arcs1 = in_arc_order(comp, delta, v1.arcs(x));
        let arcs2 = in_arc_order(comp, delta, v2.arcs(y));
        lemma_order_holds(comp, delta, v2.arcs(y), arc);
        let i = choose|i: int| 0 <= i < arcs2.len() && arcs2[i] == arc;
        lemma_order_holds(comp, delta, v1.arcs(x), arcs1[i]);
        assert(arcs_pair(delta, arcs1, arcs2, pairs, i));
        assert(arcs1.contains(arcs1[i]));
        let made = arcs1[i];
        let other = before.push(made);
        assert forall|j: int| 0 <= j < other.len() implies #[trigger] steps(v1, s1, other, j) by {
            if j < before.len() {
                assert(steps(v1, s1, before, j));
                assert(state_at(s1, other, j) == state_at(s1, before, j));
            } else {
                assert(state_at(s1, other, j) == x);
            }
        }
        assert forall|j: int| 0 <= j < other.len() implies (#[trigger] other[j]).ilabel
            == run[j].ilabel && other[j].olabel == run[j].olabel && other[j].weight.spec_approx(
            run[j].weight,
            delta,
        ) by {
            if j < less.len() {
                assert(less[j] == run[j]);
                assert(before[j] == other[j]);
            }
        }
        other
    }
}

/// Where two machines are isomorphic, each run of the second from its start has a run of the
/// first that goes alike, and ends where as much ends, within `delta`.
pub proof fn law_isomorphic_machines_run_alike_back<W: Weight, C: WeightCompare<W>>(
    comp: C,
    delta: W::Delta,
    v1: FstV<W>,
    v2: FstV<W>,
    run: Seq<Arc<W>>,
) -> (other: Seq<Arc<W>>)
    requires
        v1.wf(),
        v2.wf(),
        v2.start is Some,
        are_isomorphic(comp, delta, v1, v2),
        is_run(v2, v2.start->0 as int, run),
    ensures
        v1.start is Some,
        is_run(v1, v1.start->0 as int, other),
        go_alike(delta, other, run),
        v1.fin(end_of(v1.start->0 as int, other)).spec_approx(
            v2.fin(end_of(v2.start->0 as int, run)),
            delta,
        ),
{
    let pairs = choose|pairs: Set<(usize, usize)>| #[trigger]
        is_matching(comp, delta, v1, v2, pairs);
    let other = lemma_matched_run_back(comp, delta, v1, v2, pairs, run);
    let pair = (
        end_of(v1.start->0 as int, other) as usize,
        end_of(v2.start->0 as int, run) as usize,
    );
    assert(states_pair(comp, delta, v1, v2, pairs, pair));
    other
}

/// Two runs of the first machine end in the same state just where runs of the second that
/// match them do: states are told apart alike.
pub proof fn law_isomorphic_machines_tell_states_apart_alike<W: Weight, C: WeightCompare<W>>(
    comp: C,
    delta: W::Delta,
    v1: FstV<W>,
    v2: FstV<W>,
    run: Seq<Arc<W>>,
    other: Seq<Arc<W>>,
) -> (matched: (Seq<Arc<W>>, Seq<Arc<W>>))
    requires
        v1.wf(),
        v2.wf(),
        v1.start is Some,
        are_isomorphic(comp, delta, v1, v2),
        is_run(v1, v1.start->0 as int, run),
        is_run(v1, v1.start->0 as int, other),
    ensures
        v2.start is Some,
        is_run(v2, v2.start->0 as int, matched.0),
        is_run(v2, v2.start->0 as int, matched.1),
        go_alike(delta, run, matched.0),
        go_alike(delta, other, matched.1),
        end_of(v1.start->0 as int, run) == end_of(v1.start->0 as int, other) <==> end_of(
            v2.start->0 as int,
            matched.0,
        ) == end_of(v2.start->0 as int, matched.1),
{
    let pairs = choose|pairs: Set<(usize, usize)>| #[trigger]
        is_matching(comp, delta, v1, v2, pairs);
    let a = lemma_matched_run(comp, delta, v1, v2, pairs, run);
    let b = lemma_matched_run(comp, delta, v1, v2, pairs, other);
    let s1 = v1.start->0 as int;
    let s2 = v2.start->0 as int;
    let p = (end_of(s1, run) as usize, end_of(s2, a) as usize);
    let q = (end_of(s1, other) as usize, end_of(s2, b) as usize);
    assert(pairs.contains(p) && pairs.contains(q));
    (a, b)
}

/// A machine is isomorphic to itself, where every weight is like itself.
pub proof fn law_a_machine_is_isomorphic_to_itself<W: Weight, C: WeightCompare<W>>(
    comp: C,
    delta: W::Delta,
    v: FstV<W>,
)
    requires
        v.wf(),
        v.n() <= usize::MAX,
        forall|w: W| #[trigger] w.spec_approx(w, delta),
    ensures
        are_isomorphic(comp, delta, v, v),
{
    if v.start is Some {
        let pairs = Set::new(|p: (usize, usize)| p.0 == p.1 && p.0 < v.n());
        assert forall|p: (usize, usize)| #[trigger] pairs.contains(p) implies states_pair(
            comp,
            delta,
            v,
            v,
            pairs,
            p,
        ) by {
            let s = p.0 as int;
            let sorted = in_arc_order(comp, delta, v.arcs(s));
            assert forall|i: int| 0 <= i < sorted.len() implies #[trigger] arcs_pair(
                delta,
                sorted,
                sorted,
                pairs,
                i,
            ) by {
                lemma_order_holds(comp, delta, v.arcs(s), sorted[i]);
                assert(sorted.contains(sorted[i]));
                let j = choose|j: int| 0 <= j < v.arcs(s).len() && v.arcs(s)[j] == sorted[i];
                assert(v.states[s].arcs[j].nextstate < v.n());
                assert(pairs.contains((sorted[i].nextstate, sorted[i].nextstate)));
            }
        }
        assert(pairs.contains((v.start->0, v.start->0)));
        assert(is_matching(comp, delta, v, v, pairs));
    }
}

} // verus!
