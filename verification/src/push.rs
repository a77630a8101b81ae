//! Moving weight, and labels, towards one end of a machine.
//!
//! Pushing towards the initial state makes the sum of the arcs leaving each
//! non-initial state, together with its final weight, come to one, so a weight is
//! committed as early on a path as it can be, which is why a search over the
//! result prunes well. Pushing towards the final states does the same on the
//! reversed machine.
//!
//! What the machine accepts does not change; only where along a path the weight
//! sits.
use crate::arc::{Arc, EPSILON};
use crate::arc_map::{
    arc_map_to, lemma_adds_no_state, lemma_map_into_wf, map_all, map_into, RmWeightMapper,
};
use crate::error::OpenFstError;
use crate::factor_weight::{
    factor_weight, factors, lemma_factored_wf, FactorIterator, FactorWeightOptions, GallicFactor,
};
use crate::gallic_map::{FromGallicMapper, ToGallicMapper};
pub use crate::reweight::ReweightType;
use crate::graph::{full_graph, on_cycle};
use crate::paths::{
    accepted_weight, end_of, is_accepting, is_run, lemma_along, lemma_run_stays,
    lemma_total_behind, multiplies_along, reads, state_at, steps, total, writes,
};
use crate::reweight::{
    divides_exactly, initial_cyclic, is_initial_cyclic, law_reweighting_keeps_paths,
    lemma_run_goes, lemma_run_reaches, reweight, reweighted, weigh_along,
};
use crate::shortest_distance::{
    distance_in, is_distance, lemma_distance_len, settles_at, settles_first, shortest_distance,
};
use crate::string_weight::{GallicWeight, StringWeight, GALLIC_LEFT, GALLIC_RIGHT};
use crate::vector_fst::{copy_fst, lemma_forget_forget, named_after, FstV, StateV, VectorFst};
use crate::weight::{Divide, DivideType, Weight};
use vstd::prelude::*;

verus! {

/// Move the weights.
pub const PUSH_WEIGHTS: u8 = 0x01;

/// Move the labels.
pub const PUSH_LABELS: u8 = 0x02;

/// Divide the total weight out, so what is left sums to one.
pub const PUSH_REMOVE_TOTAL_WEIGHT: u8 = 0x04;

/// Divide the common prefix or suffix out of the labels.
pub const PUSH_REMOVE_COMMON_AFFIX: u8 = 0x08;

/// The sum over the first `k` states of distance times final weight.
pub open spec fn ending_sum<W: Weight>(v: FstV<W>, distance: Seq<W>, k: int) -> W
    decreases k,
{
    if k <= 0 {
        W::spec_zero()
    } else {
        ending_sum(v, distance, k - 1).spec_plus(distance[k - 1].spec_times(v.fin(k - 1)))
    }
}

/// The sum of every accepting path, read off a distance vector.
pub open spec fn spec_total_weight<W: Weight>(v: FstV<W>, distance: Seq<W>, reverse: bool) -> W {
    if reverse {
        match v.start {
            Some(s) => if s < distance.len() {
                distance[s as int]
            } else {
                W::spec_zero()
            },
            None => W::spec_zero(),
        }
    } else {
        ending_sum(v, distance, distance.len() as int)
    }
}

/// The sum of every accepting path, read off a distance vector already
/// computed.
///
/// Which end the distance was computed from decides how to read it: from the
/// final states it is the start state's entry, from the initial state it is the
/// sum over states of distance times final weight.
pub fn total_weight<W: Weight>(fst: &VectorFst<W>, distance: &Vec<W>, reverse: bool) -> (total: W)
    requires
        !reverse ==> distance@.len() <= fst@.n(),
    ensures
        total == spec_total_weight(fst@, distance@, reverse),
{
    if reverse {
        return match fst.start() {
            Some(s) => if s < distance.len() {
                distance[s].duplicate()
            } else {
                W::zero()
            },
            None => W::zero(),
        };
    }
    let mut sum = W::zero();
    let mut i: usize = 0;
    while i < distance.len()
        invariant
            i <= distance@.len(),
            distance@.len() <= fst@.n(),
            sum == ending_sum(fst@, distance@, i as int),
        decreases distance@.len() - i,
    {
        sum = sum.plus(&distance[i].times(&fst.final_weight(i)));
        i = i + 1;
    }
    sum
}

/// A state with `weight` divided out of all that leaves it.
pub open spec fn divided_state<W: Divide>(state: StateV<W>, weight: W) -> StateV<W> {
    StateV {
        final_weight: state.final_weight.spec_divide(weight, DivideType::Left),
        arcs: state.arcs.map_values(
            |arc: Arc<W>|
                Arc { weight: arc.weight.spec_divide(weight, DivideType::Left), ..arc },
        ),
    }
}

/// The machine with `weight` divided out of every accepting path. Where the start can be
/// come back to, a path may pass it again; there the weight is divided out of what leaves
/// a new start that goes where the old one goes.
pub open spec fn weight_removed<W: Divide>(v: FstV<W>, weight: W, at_final: bool) -> FstV<W> {
    if weight == W::spec_one() || weight == W::spec_zero() {
        v
    } else if at_final {
        v.with_states(
            Seq::new(
                v.n(),
                |s: int|
                    StateV {
                        final_weight: v.fin(s).spec_divide(weight, DivideType::Right),
                        arcs: v.arcs(s),
                    },
            ),
        )
    } else {
        match v.start {
            Some(s) => {
                let divided = divided_state(v.states[s as int], weight);
                if is_initial_cyclic(v) {
                    FstV {
                        start: Some(v.n() as usize),
                        ..v.with_states(v.states.push(divided))
                    }
                } else {
                    v.with_state(s as int, divided)
                }
            },
            None => v,
        }
    }
}

/// Divides `weight` out of every accepting path, at the final states when
/// `at_final` and at the initial state otherwise.
///
/// A path is divided once however often it passes the initial state: where that can be
/// come back to, the machine gets a new one.
pub fn remove_weight<W: Divide>(fst: &mut VectorFst<W>, weight: &W, at_final: bool)
    requires
        old(fst)@.wf(),
    ensures
        final(fst)@ == weight_removed(old(fst)@, *weight, at_final),
        final(fst)@.wf(),
{
    let ghost v = fst@;
    if weight.same(&W::one()) || weight.same(&W::zero()) {
        return;
    }
    proof {
        lemma_forget_forget(v);
    }
    if at_final {
        let ghost all = weight_removed(v, *weight, true);
        let n: usize = fst.num_states();
        fst.forget_properties();
        let mut s: usize = 0;
        while s < n
            invariant
                s <= n,
                n == v.n(),
                v.forget().forget() == v.forget(),
                all == weight_removed(v, *weight, true),
                all.n() == n,
                !(*weight == W::spec_one() || *weight == W::spec_zero()),
                fst@ == (FstV { states: fst@.states, ..v.forget() }),
                fst@.n() == n,
                forall|x: int| 0 <= x < s ==> #[trigger] fst@.states[x] == all.states[x],
                forall|x: int| s <= x < n ==> #[trigger] fst@.states[x] == v.states[x],
            decreases n - s,
        {
            assert(fst@.states[s as int] == v.states[s as int]);
            let divided = fst.final_weight(s).divide(weight, DivideType::Right);
            fst.set_final(s, divided);
            assert(fst@.states[s as int] == all.states[s as int]);
            s = s + 1;
        }
        assert(fst@.states =~= all.states);
        assert forall|x: int, i: int|
            0 <= x < all.n() && 0 <= i < all.states[x].arcs.len() implies (
        #[trigger] all.states[x].arcs[i]).nextstate < all.n() by {
            assert(v.states[x].arcs[i].nextstate < v.n());
        }
        return;
    }
    let start = match fst.start() {
        Some(s) => s,
        None => {
            return;
        },
    };
    let from = fst.arcs(start);
    let ghost all = divided_state(v.states[start as int], *weight).arcs;
    let mut arcs: Vec<Arc<W>> = Vec::new();
    let mut i: usize = 0;
    while i < from.len()
        invariant
            i <= from@.len(),
            from@ == v.states[start as int].arcs,
            all == divided_state(v.states[start as int], *weight).arcs,
            arcs@ =~= all.take(i as int),
        decreases from@.len() - i,
    {
        let arc = &from[i];
        arcs.push(
            Arc::new(
                arc.ilabel,
                arc.olabel,
                arc.weight.divide(weight, DivideType::Left),
                arc.nextstate,
            ),
        );
        i = i + 1;
    }
    assert(all.take(all.len() as int) =~= all);
    let divided = fst.final_weight(start).divide(weight, DivideType::Left);
    let again = initial_cyclic(&*fst);
    let at: usize = if again {
        fst.add_state()
    } else {
        start
    };
    fst.set_arcs(at, arcs);
    fst.set_final(at, divided);
    if again {
        fst.set_start(at);
    }
    proof {
        let w = weight_removed(v, *weight, false);
        assert(fst@.states =~= w.states);
        assert forall|x: int, i: int|
            0 <= x < w.n() && 0 <= i < w.states[x].arcs.len() implies (
        #[trigger] w.states[x].arcs[i]).nextstate < w.n() by {
            if x < v.n() {
                assert(v.states[x].arcs[i].nextstate < v.n());
            } else {
                assert(v.states[start as int].arcs[i].nextstate < v.n());
            }
        }
    }
}

/// Whether dividing `weight` out, where it is divided out, is exact: multiplying by it
/// again gives back what was there.
pub open spec fn divides_out_exactly<W: Divide>(v: FstV<W>, weight: W, at_final: bool) -> bool {
    &&& multiplies_along::<W>()
    &&& if at_final {
        &&& W::spec_zero().spec_times(weight) == W::spec_zero()
        &&& forall|s: int|
            0 <= s < v.n() ==> (#[trigger] v.fin(s)).spec_divide(
                weight,
                DivideType::Right,
            ).spec_times(weight) == v.fin(s)
    } else {
        let s = v.start->0 as int;
        &&& weight.spec_times(W::spec_zero()) == W::spec_zero()
        &&& weight.spec_times(v.fin(s).spec_divide(weight, DivideType::Left)) == v.fin(s)
        &&& forall|i: int|
            0 <= i < v.arcs(s).len() ==> weight.spec_times(
                (#[trigger] v.arcs(s)[i]).weight.spec_divide(weight, DivideType::Left),
            ) == v.arcs(s)[i].weight
    }
}

/// Removing a weight divides it out of every accepting path once, however often the path
/// passes the start: the path is still there, with its labels, and multiplying what it
/// weighs now by the weight gives back what it weighed, where division is exact.
pub proof fn law_removed_weight_multiplies_back<W: Divide>(
    v: FstV<W>,
    weight: W,
    at_final: bool,
    run: Seq<Arc<W>>,
) -> (kept: Seq<Arc<W>>)
    requires
        v.wf(),
        v.n() <= usize::MAX,
        weight != W::spec_one(),
        weight != W::spec_zero(),
        divides_out_exactly(v, weight, at_final),
        is_accepting(v, run),
    ensures
        is_accepting(weight_removed(v, weight, at_final), kept),
        kept.len() == run.len(),
        forall|i: int|
            0 <= i < run.len() ==> (#[trigger] kept[i]).ilabel == run[i].ilabel && kept[i].olabel
                == run[i].olabel && kept[i].nextstate == run[i].nextstate,
        at_final ==> kept == run,
        ({
            let now = accepted_weight(weight_removed(v, weight, at_final), kept);
            if at_final {
                now.spec_times(weight) == accepted_weight(v, run)
            } else {
                weight.spec_times(now) == accepted_weight(v, run)
            }
        }),
{
    let r = weight_removed(v, weight, at_final);
    let s = v.start->0 as int;
    let e = end_of(s, run);
    let end = v.fin(e);
    lemma_run_stays(v, s, run, run.len() as int);
    if at_final {
        assert forall|i: int| 0 <= i < run.len() implies #[trigger] steps(r, s, run, i) by {
            assert(steps(v, s, run, i));
            assert(r.arcs(state_at(s, run, i)) == v.arcs(state_at(s, run, i)));
        }
        let divided = end.spec_divide(weight, DivideType::Right);
        assert(v.fin(e).spec_divide(weight, DivideType::Right).spec_times(weight) == v.fin(e));
        assert(r.fin(e) == divided);
        lemma_total_behind(run, divided, weight);
        run
    } else {
        let at = r.start->0 as int;
        let state = divided_state(v.states[s], weight);
        assert(r.states[at] == state);
        if run.len() == 0 {
            assert(r.fin(at) == end.spec_divide(weight, DivideType::Left));
            run
        } else {
            let w = run[0].weight.spec_divide(weight, DivideType::Left);
            let first = Arc { weight: w, ..run[0] };
            let kept = run.update(0, first);
            let cyclic = is_initial_cyclic(v);
            assert forall|i: int| 0 < i <= run.len() implies 0 <= #[trigger] state_at(s, run, i)
                < v.n() && (cyclic || state_at(s, run, i) != s) by {
                lemma_run_stays(v, s, run, i);
                if state_at(s, run, i) == s {
                    lemma_run_goes(v, s, run, 0);
                    lemma_run_reaches(v, s, run, 1, i);
                    assert(on_cycle(full_graph(v), s));
                }
            }
            assert forall|i: int| 0 <= i < kept.len() implies #[trigger] steps(r, at, kept, i) by {
                assert(steps(v, s, run, i));
                let x = state_at(s, run, i);
                if i == 0 {
                    let k = choose|k: int| 0 <= k < v.arcs(s).len() && v.arcs(s)[k] == run[0];
                    assert(r.arcs(at)[k] == first);
                } else {
                    assert(state_at(at, kept, i) == x);
                    assert(r.states[x] == v.states[x]);
                }
            }
            assert(steps(v, s, run, 0));
            let k = choose|k: int| 0 <= k < v.arcs(s).len() && v.arcs(s)[k] == run[0];
            assert(weight.spec_times(v.arcs(s)[k].weight.spec_divide(weight, DivideType::Left))
                == v.arcs(s)[k].weight);
            assert(state_at(s, run, run.len() as int) == e);
            assert(r.states[e] == v.states[e]);
            assert(end_of(at, kept) == e);
            assert(kept.drop_first() =~= run.drop_first());
            let rest = total(run.drop_first(), end);
            lemma_along(weight, w, rest);
            kept
        }
    }
}

/// Whether distances are taken from the end, which pushing towards the start needs.
pub open spec fn looks_back(to: ReweightType) -> bool {
    to is ToInitial
}

/// What pushing the weights of `v` by `distance` makes of it.
pub open spec fn pushed_by<W: Divide>(
    v: FstV<W>,
    to: ReweightType,
    distance: Seq<W>,
    remove_total_weight: bool,
) -> FstV<W> {
    let moved = reweighted(v, distance, to);
    if remove_total_weight {
        weight_removed(moved, spec_total_weight(v, distance, looks_back(to)), !looks_back(to))
    } else {
        moved
    }
}

/// Whether `w` is `v` with its weights pushed towards one end.
pub open spec fn is_pushed<W: Divide>(
    v: FstV<W>,
    to: ReweightType,
    delta: W::Delta,
    remove_total_weight: bool,
    w: FstV<W>,
) -> bool {
    exists|distance: Seq<W>| #[trigger]
        is_distance(v, looks_back(to), delta, distance) && w == pushed_by(
            v,
            to,
            distance,
            remove_total_weight,
        )
}

/// Pushing changes the weight of no path: for each run that the machine accepts along,
/// the pushed machine accepts along one that reads and writes the same and weighs the
/// same, unless the total weight is taken away. That takes division that is exact, and
/// distances that weigh something along the run.
pub proof fn law_pushing_keeps_paths<W: Divide>(
    v: FstV<W>,
    to: ReweightType,
    delta: W::Delta,
    w: FstV<W>,
    run: Seq<Arc<W>>,
) -> (kept: Seq<Arc<W>>)
    requires
        v.wf(),
        v.n() < usize::MAX,
        is_pushed(v, to, delta, false, w),
        is_accepting(v, run),
        forall|distance: Seq<W>| #[trigger]
            is_distance(v, looks_back(to), delta, distance) ==> divides_exactly(v, distance, to)
                && weigh_along(distance, v.start->0 as int, run),
    ensures
        w.start is Some,
        is_run(w, w.start->0 as int, kept),
        reads(kept) == reads(run),
        writes(kept) == writes(run),
        accepted_weight(w, kept) == accepted_weight(v, run),
{
    let distance = choose|distance: Seq<W>| #[trigger]
        is_distance(v, looks_back(to), delta, distance) && w == pushed_by(v, to, distance, false);
    let k = choose|k: nat| #[trigger]
        settles_first(v, looks_back(to), delta, k) && distance == distance_in(
            v,
            looks_back(to),
            k + 1,
        );
    lemma_distance_len(v, looks_back(to), k + 1);
    law_reweighting_keeps_paths(v, distance, to, run)
}

/// Whether the distances that pushing needs keep on changing.
pub open spec fn never_settles<W: Weight>(v: FstV<W>, reverse: bool, delta: W::Delta) -> bool {
    forall|k: nat| k < usize::MAX ==> !(#[trigger] settles_at(v, reverse, delta, k))
}

/// Moves the weights of `fst` towards one end, in place.
pub fn push_weights<W: Divide>(
    fst: &mut VectorFst<W>,
    to: ReweightType,
    delta: &W::Delta,
    remove_total_weight: bool,
) -> (result: Result<(), OpenFstError>)
    requires
        old(fst)@.wf(),
        old(fst)@.n() < usize::MAX,
    ensures
        result is Ok ==> is_pushed(old(fst)@, to, *delta, remove_total_weight, final(fst)@)
            && final(fst)@.wf(),
        result matches Err(e) ==> e is InvalidOperation && final(fst)@ == old(fst)@
            && never_settles(old(fst)@, looks_back(to), *delta),
{
    // Pushing towards the initial state needs to know what each state can still
    // reach, which is the distance computed backwards.
    let reverse = to == ReweightType::ToInitial;
    let distance = match shortest_distance(&*fst, reverse, delta) {
        Ok(distance) => distance,
        Err(e) => {
            return Err(e);
        },
    };
    if remove_total_weight {
        let total = total_weight(&*fst, &distance, reverse);
        reweight(fst, &distance, to);
        remove_weight(fst, &total, !reverse);
    } else {
        reweight(fst, &distance, to);
    }
    Ok(())
}

/// Moves the weights towards the initial state, in place.
pub fn push_weights_to_initial<W: Divide>(
    fst: &mut VectorFst<W>,
    delta: &W::Delta,
    remove_total_weight: bool,
) -> (result: Result<(), OpenFstError>)
    requires
        old(fst)@.wf(),
        old(fst)@.n() < usize::MAX,
    ensures
        result is Ok ==> is_pushed(
            old(fst)@,
            ReweightType::ToInitial,
            *delta,
            remove_total_weight,
            final(fst)@,
        ) && final(fst)@.wf(),
        result matches Err(e) ==> e is InvalidOperation && final(fst)@ == old(fst)@
            && never_settles(old(fst)@, true, *delta),
{
    push_weights(fst, ReweightType::ToInitial, delta, remove_total_weight)
}

/// As [`push_weights_to_initial`], the other way.
pub fn push_weights_to_final<W: Divide>(
    fst: &mut VectorFst<W>,
    delta: &W::Delta,
    remove_total_weight: bool,
) -> (result: Result<(), OpenFstError>)
    requires
        old(fst)@.wf(),
        old(fst)@.n() < usize::MAX,
    ensures
        result is Ok ==> is_pushed(
            old(fst)@,
            ReweightType::ToFinal,
            *delta,
            remove_total_weight,
            final(fst)@,
        ) && final(fst)@.wf(),
        result matches Err(e) ==> e is InvalidOperation && final(fst)@ == old(fst)@
            && never_settles(old(fst)@, false, *delta),
{
    push_weights(fst, ReweightType::ToFinal, delta, remove_total_weight)
}

/// The machine with the labels it writes moved into its weights.
pub open spec fn labels_in<W: Weight, const G: u8>(v: FstV<W>) -> FstV<GallicWeight<W, G>> {
    map_into::<W, GallicWeight<W, G>, ToGallicMapper<G>>((), v, FstV::empty())
}

/// The machine without its weights.
pub open spec fn weights_out<W: Weight>(v: FstV<W>) -> FstV<W> {
    map_into::<W, W, RmWeightMapper>((), v, FstV::empty())
}

/// The machine over which the distances are taken: where only the labels are moved,
/// the weights are left out.
pub open spec fn measured<W: Weight, const G: u8>(v: FstV<W>, flags: u8) -> FstV<
    GallicWeight<W, G>,
> {
    if flags & PUSH_WEIGHTS != 0 {
        labels_in(v)
    } else {
        labels_in(weights_out(v))
    }
}

/// The halves of a total that are to be divided out.
pub open spec fn asked_for<W: Weight, const G: u8>(
    total: GallicWeight<W, G>,
    flags: u8,
) -> GallicWeight<W, G> {
    GallicWeight {
        labels: if flags & PUSH_REMOVE_COMMON_AFFIX != 0 {
            total.labels
        } else {
            StringWeight::spec_one()
        },
        weight: if flags & PUSH_REMOVE_TOTAL_WEIGHT != 0 {
            total.weight
        } else {
            W::spec_one()
        },
    }
}

/// The machine with its labels in its weights, and both pushed.
pub open spec fn labels_pushed<W: Divide, const G: u8>(
    v: FstV<W>,
    to: ReweightType,
    flags: u8,
    distance: Seq<GallicWeight<W, G>>,
) -> FstV<GallicWeight<W, G>> {
    let moved = reweighted(labels_in(v), distance, to);
    if flags & (PUSH_REMOVE_TOTAL_WEIGHT | PUSH_REMOVE_COMMON_AFFIX) != 0 {
        let total = spec_total_weight(labels_in(v), distance, looks_back(to));
        weight_removed(moved, asked_for(total, flags), !looks_back(to))
    } else {
        moved
    }
}

/// How strings that one arc cannot carry are spread over several.
pub open spec fn spread_options<W: Weight>() -> FactorWeightOptions<W::Delta> {
    FactorWeightOptions {
        delta: W::spec_default_delta(),
        mode: 0x03,
        final_ilabel: EPSILON,
        final_olabel: EPSILON,
        increment_final_ilabel: false,
        increment_final_olabel: false,
    }
}

/// Whether `f` is what pushing the labels of `v` comes to, before they are moved back
/// out of the weights.
pub open spec fn is_label_pushed<W: Divide, const G: u8>(
    v: FstV<W>,
    to: ReweightType,
    flags: u8,
    delta: W::Delta,
    f: FstV<GallicWeight<W, G>>,
) -> bool {
    exists|distance: Seq<GallicWeight<W, G>>| #[trigger]
        is_distance(measured(v, flags), looks_back(to), delta, distance) && factors::<
            GallicWeight<W, G>,
            GallicFactor<W, G>,
        >(spread_options::<W>(), labels_pushed(v, to, flags, distance), FstV::empty(), f)
}

/// Whether the labels can be moved back out of the weights of `f`.
pub open spec fn labels_come_out<W: Weight, const G: u8>(f: FstV<GallicWeight<W, G>>) -> bool {
    f.n() < usize::MAX && (f.start is Some ==> {
        let r = map_all::<GallicWeight<W, G>, W, FromGallicMapper<G>>((EPSILON, false), f);
        r.failed is None && !r.model.1
    })
}

/// What moving the labels of `f` back out of its weights leaves where `o` was.
pub open spec fn labels_out<W: Weight, const G: u8>(
    f: FstV<GallicWeight<W, G>>,
    v: FstV<W>,
    o: FstV<W>,
) -> FstV<W> {
    FstV {
        osymbols: v.osymbols,
        ..map_into::<GallicWeight<W, G>, W, FromGallicMapper<G>>((EPSILON, false), f, o)
    }
}

/// Whether `r` is what pushing `v` leaves where `o` was.
pub open spec fn is_push<W: Divide, const G: u8>(
    v: FstV<W>,
    to: ReweightType,
    flags: u8,
    delta: W::Delta,
    o: FstV<W>,
    r: FstV<W>,
) -> bool {
    let copy = FstV { start: v.start, states: v.states, ..named_after(v, o) };
    if flags & PUSH_LABELS == 0 {
        if flags & PUSH_WEIGHTS == 0 {
            r == copy
        } else {
            is_pushed(copy, to, delta, flags & PUSH_REMOVE_TOTAL_WEIGHT != 0, r)
        }
    } else {
        exists|f: FstV<GallicWeight<W, G>>| #[trigger]
            is_label_pushed::<W, G>(v, to, flags, delta, f) && labels_come_out(f) && r
                == labels_out(f, v, o)
    }
}

/// Whether `v` cannot be pushed: the distances keep on changing, or a weight comes out
/// that no single arc can carry.
pub open spec fn cannot_push<W: Divide, const G: u8>(
    v: FstV<W>,
    to: ReweightType,
    flags: u8,
    delta: W::Delta,
    o: FstV<W>,
) -> bool {
    let copy = FstV { start: v.start, states: v.states, ..named_after(v, o) };
    if flags & PUSH_LABELS == 0 {
        flags & PUSH_WEIGHTS != 0 && never_settles(copy, looks_back(to), delta)
    } else {
        ||| never_settles(measured::<W, G>(v, flags), looks_back(to), delta)
        ||| exists|f: FstV<GallicWeight<W, G>>| #[trigger]
            is_label_pushed::<W, G>(v, to, flags, delta, f) && !labels_come_out(f)
    }
}

/// Moving labels into weights leaves a machine in order, with the states it has.
pub proof fn lemma_labels_in<W: Weight, const G: u8>(v: FstV<W>)
    requires
        v.wf(),
        v.n() < usize::MAX,
    ensures
        labels_in::<W, G>(v).wf(),
        map_all::<W, GallicWeight<W, G>, ToGallicMapper<G>>((), v).failed is None,
        labels_in::<W, G>(v).n() == (if v.start is Some {
            v.n()
        } else {
            0
        }),
{
    lemma_adds_no_state::<W, GallicWeight<W, G>, ToGallicMapper<G>>(
        (),
        v.states,
        v.n() as usize,
        v.n() as int,
    );
    lemma_map_into_wf::<W, GallicWeight<W, G>, ToGallicMapper<G>>((), v, FstV::empty());
}

proof fn lemma_weights_out<W: Weight>(v: FstV<W>)
    requires
        v.wf(),
        v.n() < usize::MAX,
    ensures
        weights_out(v).wf(),
        map_all::<W, W, RmWeightMapper>((), v).failed is None,
        weights_out(v).start == v.start,
        weights_out(v).n() == (if v.start is Some {
            v.n()
        } else {
            0
        }),
{
    lemma_adds_no_state::<W, W, RmWeightMapper>((), v.states, v.n() as usize, v.n() as int);
    lemma_map_into_wf::<W, W, RmWeightMapper>((), v, FstV::empty());
}

/// The distances that pushing labels goes by.
fn label_distance<W: Divide, const G: u8>(
    ifst: &VectorFst<W>,
    gfst: &VectorFst<GallicWeight<W, G>>,
    reverse: bool,
    flags: u8,
    delta: &W::Delta,
) -> (result: Result<Vec<GallicWeight<W, G>>, OpenFstError>)
    requires
        ifst@.wf(),
        ifst@.n() < usize::MAX,
        gfst@ == labels_in::<W, G>(ifst@),
        gfst@.wf(),
    ensures
        match result {
            Ok(distance) => {
                &&& is_distance(measured::<W, G>(ifst@, flags), reverse, *delta, distance@)
                &&& distance@.len() == gfst@.n()
            },
            Err(e) => e is InvalidOperation && never_settles(
                measured::<W, G>(ifst@, flags),
                reverse,
                *delta,
            ),
        },
{
    if flags & PUSH_WEIGHTS != 0 {
        return shortest_distance(gfst, reverse, delta);
    }
    // Only the labels are being moved, so the distances have to be worked out over the
    // labels alone.
    proof {
        lemma_labels_in::<W, G>(ifst@);
        lemma_weights_out(ifst@);
        lemma_labels_in::<W, G>(weights_out(ifst@));
    }
    let mut unweighted: VectorFst<W> = VectorFst::new();
    let mut rm_weight = RmWeightMapper;
    if let Err(e) = arc_map_to(ifst, &mut unweighted, &mut rm_weight) {
        return Err(e);
    }
    let mut gunweighted: VectorFst<GallicWeight<W, G>> = VectorFst::new();
    let mut mapper = ToGallicMapper::<G>::new();
    if let Err(e) = arc_map_to(&unweighted, &mut gunweighted, &mut mapper) {
        return Err(e);
    }
    shortest_distance(&gunweighted, reverse, delta)
}

/// What both directions do.
fn push_impl<W: Divide, const G: u8>(
    ifst: &VectorFst<W>,
    ofst: &mut VectorFst<W>,
    to: ReweightType,
    flags: u8,
    delta: &W::Delta,
) -> (result: Result<(), OpenFstError>)
    requires
        ifst@.wf(),
        ifst@.n() < usize::MAX,
    ensures
        match result {
            Ok(_) => is_push::<W, G>(ifst@, to, flags, *delta, old(ofst)@, final(ofst)@),
            Err(e) => e is InvalidOperation && cannot_push::<W, G>(
                ifst@,
                to,
                flags,
                *delta,
                old(ofst)@,
            ),
        },
{
    let reverse = to == ReweightType::ToInitial;
    if flags & PUSH_LABELS == 0 {
        copy_fst(ifst, ofst);
        proof {
            let copy = ofst@;
            assert forall|s: int, i: int|
                0 <= s < copy.n() && 0 <= i < copy.states[s].arcs.len() implies (
            #[trigger] copy.states[s].arcs[i]).nextstate < copy.n() by {
                assert(ifst@.states[s].arcs[i].nextstate < ifst@.n());
            }
        }
        if flags & PUSH_WEIGHTS != 0 {
            return push_weights(ofst, to, delta, flags & PUSH_REMOVE_TOTAL_WEIGHT != 0);
        }
        return Ok(());
    }
    // Labels are pushed by moving them into the weight, where the machinery for weights
    // already applies, and taking them back out again.
    let mut gfst: VectorFst<GallicWeight<W, G>> = VectorFst::new();
    let mut mapper = ToGallicMapper::<G>::new();
    proof {
        lemma_labels_in::<W, G>(ifst@);
    }
    if let Err(e) = arc_map_to(ifst, &mut gfst, &mut mapper) {
        return Err(e);
    }
    let ghost g = gfst@;
    let distance = match label_distance(ifst, &gfst, reverse, flags, delta) {
        Ok(distance) => distance,
        Err(e) => {
            return Err(e);
        },
    };
    if flags & (PUSH_REMOVE_TOTAL_WEIGHT | PUSH_REMOVE_COMMON_AFFIX) != 0 {
        let total = total_weight(&gfst, &distance, reverse);
        // Only the halves that were asked for are divided out.
        let labels = if flags & PUSH_REMOVE_COMMON_AFFIX != 0 {
            total.labels.duplicate()
        } else {
            StringWeight::one()
        };
        let weight = if flags & PUSH_REMOVE_TOTAL_WEIGHT != 0 {
            total.weight.duplicate()
        } else {
            W::one()
        };
        reweight(&mut gfst, &distance, to);
        remove_weight(&mut gfst, &GallicWeight::from_parts(labels, weight), !reverse);
    } else {
        reweight(&mut gfst, &distance, to);
    }
    assert(gfst@ == labels_pushed(ifst@, to, flags, distance@));
    // A gallic weight may now hold several labels, which one arc cannot carry, so it is
    // spread over a chain of arcs before being taken apart.
    let mut factored: VectorFst<GallicWeight<W, G>> = VectorFst::new();
    let spread = FactorWeightOptions::new(W::default_delta());
    factor_weight(&gfst, &mut factored, GallicFactor::new, &spread);
    let ghost f = factored@;
    proof {
        assert(spread == spread_options::<W>());
        assert(factors::<GallicWeight<W, G>, GallicFactor<W, G>>(
            spread_options::<W>(),
            labels_pushed(ifst@, to, flags, distance@),
            FstV::empty(),
            f,
        ));
        lemma_factored_wf::<GallicWeight<W, G>, GallicFactor<W, G>>(
            spread,
            gfst@,
            FstV::empty(),
            f,
        );
        assert(is_label_pushed::<W, G>(ifst@, to, flags, *delta, f));
    }
    if factored.num_states() == usize::MAX {
        return Err(OpenFstError::InvalidOperation("Push: too many states"));
    }
    let mut back = FromGallicMapper::<G>::new();
    if let Err(e) = arc_map_to(&factored, ofst, &mut back) {
        return Err(e);
    }
    if back.error() {
        return Err(
            OpenFstError::InvalidOperation("Push: a weight came out that no single arc can carry"),
        );
    }
    ofst.set_output_symbols(ifst.output_symbols());
    Ok(())
}

/// Moves the weights and labels of `ifst` towards the initial state.
///
/// `flags` is some combination of [`PUSH_WEIGHTS`], [`PUSH_LABELS`],
/// [`PUSH_REMOVE_TOTAL_WEIGHT`] and [`PUSH_REMOVE_COMMON_AFFIX`].
///
/// Labels travel through the left gallic semiring, whose string half keeps the longest
/// common prefix and so distributes on the left, which is the side this direction
/// divides on.
pub fn push_to_initial<W: Divide>(
    ifst: &VectorFst<W>,
    ofst: &mut VectorFst<W>,
    flags: u8,
    delta: &W::Delta,
) -> (result: Result<(), OpenFstError>)
    requires
        ifst@.wf(),
        ifst@.n() < usize::MAX,
    ensures
        match result {
            Ok(_) => is_push::<W, GALLIC_LEFT>(
                ifst@,
                ReweightType::ToInitial,
                flags,
                *delta,
                old(ofst)@,
                final(ofst)@,
            ),
            Err(e) => e is InvalidOperation && cannot_push::<W, GALLIC_LEFT>(
                ifst@,
                ReweightType::ToInitial,
                flags,
                *delta,
                old(ofst)@,
            ),
        },
{
    push_impl::<W, GALLIC_LEFT>(ifst, ofst, ReweightType::ToInitial, flags, delta)
}

/// Moves the weights and labels of `ifst` towards the final states.
///
/// Labels travel through the right gallic semiring, for the mirror of the reason
/// [`push_to_initial`] uses the left one.
pub fn push_to_final<W: Divide>(
    ifst: &VectorFst<W>,
    ofst: &mut VectorFst<W>,
    flags: u8,
    delta: &W::Delta,
) -> (result: Result<(), OpenFstError>)
    requires
        ifst@.wf(),
        ifst@.n() < usize::MAX,
    ensures
        match result {
            Ok(_) => is_push::<W, GALLIC_RIGHT>(
                ifst@,
                ReweightType::ToFinal,
                flags,
                *delta,
                old(ofst)@,
                final(ofst)@,
            ),
            Err(e) => e is InvalidOperation && cannot_push::<W, GALLIC_RIGHT>(
                ifst@,
                ReweightType::ToFinal,
                flags,
                *delta,
                old(ofst)@,
            ),
        },
{
    push_impl::<W, GALLIC_RIGHT>(ifst, ofst, ReweightType::ToFinal, flags, delta)
}

} // verus!
