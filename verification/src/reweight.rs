//! Moving weight along the arcs of a machine by a potential for each state.
use crate::arc::{Arc, EPSILON};
use crate::components::{are_components, components_of, tells};
use crate::graph::{
    any_arc, full_graph, has_arc, lemma_reach_edge, lemma_reach_refl, lemma_reach_step, mutual,
    on_cycle, reach,
};
use crate::paths::{
    accepted_weight, end_of, is_accepting, is_ending, is_run, lemma_after_first, lemma_along,
    lemma_labels_from_front, lemma_run_stays, multiplies_along, reads, state_at, steps, total,
    writes,
};
use crate::properties::{K_CO_ACCESSIBLE, K_FST_PROPERTIES, K_WEIGHT_INVARIANT_PROPERTIES};
use crate::vector_fst::{lemma_forget_forget, set_bits, FstV, StateV, VectorFst};
use crate::weight::{spec_is_final, Divide, DivideType, Weight};
use vstd::prelude::*;

verus! {

/// Which end of the machine to move weight towards.
#[derive(Debug, Clone, Copy, PartialEq, Eq, Structural)]
pub enum ReweightType {
    /// Towards the initial state.
    ToInitial,
    /// Towards the final states.
    ToFinal,
}

/// What an arc weighs between states of two potentials.
pub open spec fn reweighted_arc<W: Divide>(
    arc: Arc<W>,
    here: W,
    there: W,
    to: ReweightType,
) -> Arc<W> {
    if here == W::spec_zero() || there == W::spec_zero() {
        arc
    } else {
        Arc {
            weight: match to {
                ReweightType::ToInitial => arc.weight.spec_times(there).spec_divide(
                    here,
                    DivideType::Left,
                ),
                ReweightType::ToFinal => here.spec_times(arc.weight).spec_divide(
                    there,
                    DivideType::Right,
                ),
            },
            ..arc
        }
    }
}

/// What a path that ends in a state of a potential takes on.
pub open spec fn reweighted_final<W: Divide>(weight: W, here: W, to: ReweightType) -> W {
    match to {
        ReweightType::ToInitial => if here == W::spec_zero() {
            weight
        } else {
            weight.spec_divide(here, DivideType::Left)
        },
        ReweightType::ToFinal => here.spec_times(weight),
    }
}

/// A state with weight moved by the potentials.
pub open spec fn reweighted_state<W: Divide>(
    state: StateV<W>,
    potential: Seq<W>,
    s: int,
    to: ReweightType,
) -> StateV<W> {
    StateV {
        final_weight: reweighted_final(state.final_weight, potential[s], to),
        arcs: state.arcs.map_values(
            |arc: Arc<W>|
                reweighted_arc(arc, potential[s], potential[arc.nextstate as int], to),
        ),
    }
}

/// What has to be put back at the start, which the potential there took away.
pub open spec fn start_weight<W: Divide>(here: W, to: ReweightType) -> W {
    match to {
        ReweightType::ToInitial => here,
        ReweightType::ToFinal => W::spec_one().spec_divide(here, DivideType::Right),
    }
}

/// A state with `weight` put in front of all that leaves it.
pub open spec fn weight_in_front<W: Weight>(state: StateV<W>, weight: W) -> StateV<W> {
    StateV {
        final_weight: weight.spec_times(state.final_weight),
        arcs: state.arcs.map_values(
            |arc: Arc<W>| Arc { weight: weight.spec_times(arc.weight), ..arc },
        ),
    }
}

/// Whether the start can be come back to.
pub open spec fn is_initial_cyclic<W: Weight>(v: FstV<W>) -> bool {
    v.start matches Some(s) && on_cycle(full_graph(v), s as int)
}

/// The machine with what its start lost put back: in front of what leaves the start,
/// or on an arc to it from a new start where it can be come back to.
pub open spec fn start_mended<W: Divide>(v: FstV<W>, here: W, to: ReweightType) -> FstV<W> {
    let s = v.start->0;
    let weight = start_weight(here, to);
    if here == W::spec_one() || here == W::spec_zero() {
        v
    } else if !is_initial_cyclic(v) {
        v.with_state(s as int, weight_in_front(v.states[s as int], weight))
    } else {
        FstV {
            start: Some(v.n() as usize),
            ..v.with_states(
                v.states.push(
                    StateV {
                        final_weight: W::spec_zero(),
                        arcs: seq![
                            Arc { ilabel: EPSILON, olabel: EPSILON, weight, nextstate: s },
                        ],
                    },
                ),
            )
        }
    }
}

/// The machine with weight moved by the potentials, before its start is mended.
pub open spec fn moved_weights<W: Divide>(v: FstV<W>, potential: Seq<W>, to: ReweightType) -> FstV<
    W,
> {
    v.with_states(Seq::new(v.n(), |s: int| reweighted_state(v.states[s], potential, s, to)))
}

/// The machine with weight moved by the potentials.
pub open spec fn reweighted<W: Divide>(v: FstV<W>, potential: Seq<W>, to: ReweightType) -> FstV<W> {
    let moved = moved_weights(v, potential, to);
    let mended = if v.start is Some {
        start_mended(moved, potential[v.start->0 as int], to)
    } else {
        moved
    };
    FstV {
        props: set_bits(
            mended.props,
            mended.props & K_FST_PROPERTIES & K_WEIGHT_INVARIANT_PROPERTIES & !K_CO_ACCESSIBLE,
            K_FST_PROPERTIES,
        ),
        ..mended
    }
}

/// Whether the start can be come back to.
pub fn initial_cyclic<W: Weight>(fst: &VectorFst<W>) -> (b: bool)
    requires
        fst@.wf(),
    ensures
        b == is_initial_cyclic(fst@),
{
    let ghost v = fst@;
    let start = match fst.start() {
        Some(s) => s,
        None => {
            return false;
        },
    };
    let scc = components_of(fst);
    let arcs = fst.arcs(start);
    let mut i: usize = 0;
    while i < arcs.len()
        invariant
            i <= arcs@.len(),
            start < v.n(),
            v.wf(),
            v.start == Some(start),
            v == fst@,
            arcs@ == v.arcs(start as int),
            are_components(v, scc@),
            forall|j: int|
                0 <= j < i ==> !mutual(
                    full_graph(v),
                    start as int,
                    (#[trigger] arcs@[j]).nextstate as int,
                ),
        decreases arcs@.len() - i,
    {
        assert(v.states[start as int].arcs[i as int].nextstate < v.n());
        let next: usize = arcs[i].nextstate;
        assert(tells(v, scc@, start as int, next as int));
        if scc[start] == scc[next] {
            proof {
                assert(v.arcs(start as int)[i as int].nextstate == next);
                assert(has_arc(v, any_arc(), start as int, next as int));
                assert(full_graph(v)(start as int, next as int));
            }
            return true;
        }
        i = i + 1;
    }
    proof {
        if on_cycle(full_graph(v), start as int) {
            let t = choose|t: int| #[trigger]
                full_graph(v)(start as int, t) && reach(
                    full_graph(v),
                    t,
                    start as int,
                );
            lemma_reach_edge(full_graph(v), start as int, t);
            let j = choose|j: int|
                0 <= j < v.arcs(start as int).len() && (#[trigger] v.arcs(
                    start as int,
                )[j]).nextstate == t;
            assert(mutual(full_graph(v), start as int, t));
            assert(arcs@[j].nextstate == t);
        }
    }
    false
}

/// Moves weight towards one end by a potential for each state.
pub fn reweight<W: Divide>(fst: &mut VectorFst<W>, potential: &Vec<W>, to: ReweightType)
    requires
        old(fst)@.wf(),
        potential@.len() == old(fst)@.n(),
        old(fst)@.n() < usize::MAX,
    ensures
        final(fst)@ == reweighted(old(fst)@, potential@, to),
        final(fst)@.wf(),
{
    let ghost v = fst@;
    let ghost moved = moved_weights(v, potential@, to);
    let n: usize = fst.num_states();
    let zero = W::zero();
    proof {
        lemma_forget_forget(v);
    }
    let mut s: usize = 0;
    while s < n
        invariant
            s <= n,
            n == v.n(),
            v.wf(),
            zero == W::spec_zero(),
            potential@.len() == n,
            v.forget().forget() == v.forget(),
            fst@.n() == n,
            fst@ == (FstV { states: fst@.states, props: fst@.props, ..v }),
            fst@.forget().props == v.forget().props,
            s > 0 ==> fst@.props == v.forget().props,
            forall|x: int|
                0 <= x < s ==> #[trigger] fst@.states[x] == reweighted_state(
                    v.states[x],
                    potential@,
                    x,
                    to,
                ),
            forall|x: int| s <= x < n ==> #[trigger] fst@.states[x] == v.states[x],
        decreases n - s,
    {
        assert(fst@.states[s as int] == v.states[s as int]);
        let here = &potential[s];
        let dead = here.same(&zero);
        let from = fst.arcs(s);
        let mut arcs: Vec<Arc<W>> = Vec::new();
        let ghost all = reweighted_state(v.states[s as int], potential@, s as int, to).arcs;
        let mut i: usize = 0;
        while i < from.len()
            invariant
                i <= from@.len(),
                s < n,
                n == v.n(),
                v.wf(),
                zero == W::spec_zero(),
                from@ == v.states[s as int].arcs,
                potential@.len() == n,
                *here == potential@[s as int],
                dead == (*here == W::spec_zero()),
                all == reweighted_state(v.states[s as int], potential@, s as int, to).arcs,
                arcs@ =~= all.take(i as int),
            decreases from@.len() - i,
        {
            let arc = &from[i];
            assert(v.states[s as int].arcs[i as int].nextstate < v.n());
            let there = &potential[arc.nextstate];
            let weight = if dead || there.same(&zero) {
                arc.weight.duplicate()
            } else {
                match to {
                    ReweightType::ToInitial => arc.weight.times(there).divide(
                        here,
                        DivideType::Left,
                    ),
                    ReweightType::ToFinal => here.times(&arc.weight).divide(
                        there,
                        DivideType::Right,
                    ),
                }
            };
            arcs.push(Arc::new(arc.ilabel, arc.olabel, weight, arc.nextstate));
            i = i + 1;
        }
        assert(all.take(all.len() as int) =~= all);
        let weight = fst.final_weight(s);
        let ending = match to {
            ReweightType::ToInitial => {
                if dead {
                    weight
                } else {
                    weight.divide(here, DivideType::Left)
                }
            },
            ReweightType::ToFinal => here.times(&weight),
        };
        let ghost before = fst@;
        fst.set_final(s, ending);
        fst.set_arcs(s, arcs);
        proof {
            lemma_forget_forget(before);
            assert(fst@.states[s as int] == reweighted_state(
                v.states[s as int],
                potential@,
                s as int,
                to,
            ));
        }
        s = s + 1;
    }
    fst.forget_properties();
    proof {
        assert(fst@.states =~= moved.states);
        assert(fst@ == moved);
        assert forall|x: int, i: int|
            0 <= x < moved.n() && 0 <= i < moved.states[x].arcs.len() implies (
        #[trigger] moved.states[x].arcs[i]).nextstate < moved.n() by {
            assert(v.states[x].arcs[i].nextstate < v.n());
        }
    }
    if let Some(start) = fst.start() {
        let here = &potential[start];
        let one = W::one();
        if !here.same(&one) && !here.same(&zero) {
            let weight = match to {
                ReweightType::ToInitial => here.duplicate(),
                ReweightType::ToFinal => one.divide(here, DivideType::Right),
            };
            if !initial_cyclic(&*fst) {
                let from = fst.arcs(start);
                let ghost all = weight_in_front(moved.states[start as int], weight).arcs;
                let mut arcs: Vec<Arc<W>> = Vec::new();
                let mut i: usize = 0;
                while i < from.len()
                    invariant
                        i <= from@.len(),
                        from@ == moved.states[start as int].arcs,
                        all == weight_in_front(moved.states[start as int], weight).arcs,
                        arcs@ =~= all.take(i as int),
                    decreases from@.len() - i,
                {
                    let arc = &from[i];
                    arcs.push(
                        Arc::new(
                            arc.ilabel,
                            arc.olabel,
                            weight.times(&arc.weight),
                            arc.nextstate,
                        ),
                    );
                    i = i + 1;
                }
                assert(all.take(all.len() as int) =~= all);
                let ending = weight.times(&fst.final_weight(start));
                fst.set_final(start, ending);
                fst.set_arcs(start, arcs);
                proof {
                    lemma_forget_forget(moved);
                    let mended = start_mended(moved, potential@[start as int], to);
                    assert(fst@.states =~= mended.states);
                    assert forall|x: int, i: int|
                        0 <= x < fst@.n() && 0 <= i < fst@.states[x].arcs.len() implies (
                    #[trigger] fst@.states[x].arcs[i]).nextstate < fst@.n() by {
                        assert(moved.states[x].arcs[i].nextstate < moved.n());
                    }
                }
            } else {
                let s: usize = fst.add_state();
                fst.add_arc(s, Arc::new(EPSILON, EPSILON, weight, start));
                fst.set_start(s);
                proof {
                    lemma_forget_forget(moved);
                    let mended = start_mended(moved, potential@[start as int], to);
                    assert(fst@.states =~= mended.states) by {
                        assert(fst@.states[s as int].arcs =~= mended.states[s as int].arcs);
                    }
                    assert forall|x: int, i: int|
                        0 <= x < fst@.n() && 0 <= i < fst@.states[x].arcs.len() implies (
                    #[trigger] fst@.states[x].arcs[i]).nextstate < fst@.n() by {
                        if x < s {
                            assert(moved.states[x].arcs[i].nextstate < moved.n());
                        }
                    }
                }
            }
        }
    }
    let props: u64 = fst.known_properties(K_FST_PROPERTIES);
    fst.set_properties(
        props & K_WEIGHT_INVARIANT_PROPERTIES & !K_CO_ACCESSIBLE,
        K_FST_PROPERTIES,
    );
}

/// Whether multiplying by One in front changes no weight.
#[verifier::opaque]
pub open spec fn one_leads_nothing<W: Weight>() -> bool {
    forall|w: W| #[trigger] W::spec_one().spec_times(w) == w
}

/// Whether multiplying by `a` again gives back `x`, which has been divided by it.
pub open spec fn divides_back<W: Divide>(to: ReweightType, a: W, x: W) -> bool {
    match to {
        ReweightType::ToInitial => a.spec_times(x.spec_divide(a, DivideType::Left)) == x,
        ReweightType::ToFinal => x.spec_divide(a, DivideType::Right).spec_times(a) == x,
    }
}

/// Whether every division that moving weight by the potentials makes is exact: dividing
/// undoes multiplying, where it is divided by a potential that weighs something. Weights
/// multiply one after the other however they are taken together.
pub open spec fn divides_exactly<W: Divide>(
    v: FstV<W>,
    potential: Seq<W>,
    to: ReweightType,
) -> bool {
    &&& multiplies_along::<W>()
    &&& one_leads_nothing::<W>()
    &&& match to {
        ReweightType::ToInitial => {
            &&& forall|s: int, i: int|
                0 <= s < v.n() && 0 <= i < v.arcs(s).len() && spec_is_final(potential[s])
                    ==> divides_back(
                    to,
                    potential[s],
                    (#[trigger] v.arcs(s)[i]).weight.spec_times(
                        potential[v.arcs(s)[i].nextstate as int],
                    ),
                )
            &&& forall|s: int|
                0 <= s < v.n() && spec_is_final(potential[s]) && #[trigger] v.fin(s)
                    != W::spec_zero() ==> divides_back(to, potential[s], v.fin(s))
        },
        ReweightType::ToFinal => {
            &&& forall|s: int, i: int|
                0 <= s < v.n() && 0 <= i < v.arcs(s).len() && spec_is_final(
                    potential[(#[trigger] v.arcs(s)[i]).nextstate as int],
                ) ==> divides_back(
                    to,
                    potential[v.arcs(s)[i].nextstate as int],
                    potential[s].spec_times(v.arcs(s)[i].weight),
                )
            &&& v.start matches Some(s) && divides_back(to, potential[s as int], W::spec_one())
        },
    }
}

/// Factors can be taken together either way.
proof fn lemma_taken_together<W: Divide>(a: W, b: W, c: W)
    requires
        multiplies_along::<W>(),
        one_leads_nothing::<W>(),
    ensures
        a.spec_times(b.spec_times(c)) == a.spec_times(b).spec_times(c),
        W::spec_one().spec_times(a) == a,
{
    lemma_along(a, b, c);
    reveal(one_leads_nothing);
}

/// Whether the potentials of the states along a run weigh something, and are in the
/// semiring.
pub open spec fn weigh_along<W: Weight>(potential: Seq<W>, s: int, run: Seq<Arc<W>>) -> bool {
    forall|i: int|
        0 <= i <= run.len() ==> spec_is_final(potential[#[trigger] state_at(s, run, i)])
}

/// The run that follows a run from `s` once weight has been moved.
pub open spec fn moved_run<W: Divide>(
    potential: Seq<W>,
    to: ReweightType,
    s: int,
    run: Seq<Arc<W>>,
) -> Seq<Arc<W>> {
    Seq::new(
        run.len(),
        |i: int|
            reweighted_arc(
                run[i],
                potential[state_at(s, run, i)],
                potential[run[i].nextstate as int],
                to,
            ),
    )
}

/// What a run weighs once weight has been moved: what the potential of its first state
/// says is missing in front of it, or is there in front of it.
pub open spec fn is_balanced<W: Divide>(to: ReweightType, here: W, before: W, after: W) -> bool {
    match to {
        ReweightType::ToInitial => here.spec_times(after) == before,
        ReweightType::ToFinal => after == here.spec_times(before),
    }
}

/// Moving weight moves it along each run: what the run loses or gains is what the
/// potential of its first state says.
pub proof fn law_weight_moves_along_runs<W: Divide>(
    v: FstV<W>,
    potential: Seq<W>,
    to: ReweightType,
    s: int,
    run: Seq<Arc<W>>,
)
    requires
        v.wf(),
        potential.len() == v.n(),
        weigh_along(potential, s, run),
        divides_exactly(v, potential, to),
        is_ending(v, s, run),
    ensures
        is_run(moved_weights(v, potential, to), s, moved_run(potential, to, s, run)),
        end_of(s, moved_run(potential, to, s, run)) == end_of(s, run),
        is_balanced(
            to,
            potential[s],
            total(run, v.fin(end_of(s, run))),
            total(
                moved_run(potential, to, s, run),
                moved_weights(v, potential, to).fin(end_of(s, run)),
            ),
        ),
    decreases run.len(),
{
    let m = moved_weights(v, potential, to);
    let moved = moved_run(potential, to, s, run);
    assert forall|i: int| 0 <= i < moved.len() implies #[trigger] steps(m, s, moved, i) by {
        lemma_run_stays(v, s, run, i);
        assert(steps(v, s, run, i));
        let at = state_at(s, run, i);
        assert(state_at(s, moved, i) == at);
        let k = choose|k: int| 0 <= k < v.arcs(at).len() && v.arcs(at)[k] == run[i];
        assert(m.arcs(at)[k] == moved[i]);
    }
    if run.len() > 0 {
        lemma_after_first(v, s, run);
        let t = run[0].nextstate as int;
        let rest = run.drop_first();
        assert(weigh_along(potential, t, rest)) by {
            assert forall|i: int| 0 <= i <= rest.len() implies spec_is_final(
                potential[#[trigger] state_at(t, rest, i)],
            ) by {
                assert(state_at(s, run, i + 1) == state_at(t, rest, i));
            }
        }
        assert(state_at(s, run, 0) == s && state_at(s, run, 1) == t);
        law_weight_moves_along_runs(v, potential, to, t, rest);
        assert(moved.drop_first() =~= moved_run(potential, to, t, rest)) by {
            assert forall|i: int| 0 <= i < rest.len() implies moved.drop_first()[i] == moved_run(
                potential,
                to,
                t,
                rest,
            )[i] by {
                assert(state_at(s, run, i + 1) == state_at(t, rest, i));
            }
        }
        let here = potential[s];
        let there = potential[t];
        let w = run[0].weight;
        let end = v.fin(end_of(s, run));
        let after = total(moved.drop_first(), m.fin(end_of(s, run)));
        let before = total(rest, end);
        let i = choose|i: int| 0 <= i < v.arcs(s).len() && v.arcs(s)[i] == run[0];
        assert(v.arcs(s)[i].weight == w);
        match to {
            ReweightType::ToInitial => {
                let x = w.spec_times(there);
                assert(divides_back(to, here, x));
                lemma_taken_together(here, x.spec_divide(here, DivideType::Left), after);
                lemma_taken_together(w, there, after);
            },
            ReweightType::ToFinal => {
                let x = here.spec_times(w);
                assert(divides_back(to, there, x));
                lemma_taken_together(x.spec_divide(there, DivideType::Right), there, before);
                lemma_taken_together(here, w, before);
            },
        }
    } else {
        lemma_run_stays(v, s, run, 0);
        assert(state_at(s, run, 0) == s);
        assert(m.states[s] == reweighted_state(v.states[s], potential, s, to));
        assert(v.fin(s) != W::spec_zero());
    }
}

/// What is put back at the start makes up for what the potential there took away.
proof fn lemma_start_makes_up<W: Divide>(to: ReweightType, here: W, before: W, after: W)
    requires
        multiplies_along::<W>(),
        one_leads_nothing::<W>(),
        to is ToFinal ==> divides_back(to, here, W::spec_one()),
        is_balanced(to, here, before, after),
    ensures
        start_weight(here, to).spec_times(after) == before,
{
    if to is ToFinal {
        let one = W::spec_one();
        let back = one.spec_divide(here, DivideType::Right);
        lemma_taken_together(back, here, before);
        lemma_taken_together(before, before, before);
    }
}

/// A run comes to each of its states from the one before.
pub proof fn lemma_run_reaches<W: Weight>(v: FstV<W>, s: int, run: Seq<Arc<W>>, i: int, j: int)
    requires
        v.wf(),
        is_run(v, s, run),
        0 <= i <= j <= run.len(),
    ensures
        reach(full_graph(v), state_at(s, run, i), state_at(s, run, j)),
    decreases j - i,
{
    lemma_run_stays(v, s, run, i);
    if i == j {
        lemma_reach_refl(full_graph(v), state_at(s, run, i));
    } else {
        lemma_run_reaches(v, s, run, i + 1, j);
        lemma_run_goes(v, s, run, i);
        lemma_reach_step(
            full_graph(v),
            state_at(s, run, i),
            state_at(s, run, i + 1),
            state_at(s, run, j),
        );
    }
}

/// A run goes along arcs.
pub proof fn lemma_run_goes<W: Weight>(v: FstV<W>, s: int, run: Seq<Arc<W>>, i: int)
    requires
        v.wf(),
        is_run(v, s, run),
        0 <= i < run.len(),
    ensures
        (full_graph(v))(state_at(s, run, i), state_at(s, run, i + 1)),
{
    lemma_run_stays(v, s, run, i);
    assert(steps(v, s, run, i));
    let at = state_at(s, run, i);
    let k = choose|k: int| 0 <= k < v.arcs(at).len() && v.arcs(at)[k] == run[i];
    assert(v.arcs(at)[k].nextstate == state_at(s, run, i + 1));
    assert(has_arc(v, any_arc::<W>(), at, state_at(s, run, i + 1)));
}

/// Moving weight changes the weight of no path: for each run that the machine accepts
/// along, the machine with weight moved accepts along one that reads and writes the same
/// and weighs the same. That takes division that is exact, and potentials that weigh
/// something along the run.
pub proof fn law_reweighting_keeps_paths<W: Divide>(
    v: FstV<W>,
    potential: Seq<W>,
    to: ReweightType,
    run: Seq<Arc<W>>,
) -> (kept: Seq<Arc<W>>)
    requires
        v.wf(),
        v.n() < usize::MAX,
        potential.len() == v.n(),
        divides_exactly(v, potential, to),
        is_accepting(v, run),
        weigh_along(potential, v.start->0 as int, run),
    ensures
        ({
            let r = reweighted(v, potential, to);
            &&& r.start is Some
            &&& is_run(r, r.start->0 as int, kept)
            &&& reads(kept) == reads(run)
            &&& writes(kept) == writes(run)
            &&& accepted_weight(r, kept) == accepted_weight(v, run)
        }),
{
    let s = v.start->0 as int;
    let m = moved_weights(v, potential, to);
    let r = reweighted(v, potential, to);
    let here = potential[s];
    let weight = start_weight(here, to);
    law_weight_moves_along_runs(v, potential, to, s, run);
    let moved = moved_run(potential, to, s, run);
    let end = end_of(s, run);
    let before = total(run, v.fin(end));
    let after = total(moved, m.fin(end));
    assert(state_at(s, run, 0) == s);
    lemma_start_makes_up(to, here, before, after);
    lemma_alike_labels(moved, run);
    lemma_moved_wf(v, potential, to);
    lemma_run_stays(m, s, moved, moved.len() as int);
    if here == W::spec_one() {
        lemma_taken_together(after, after, after);
        lemma_taken_together(before, before, before);
        assert forall|i: int| 0 <= i < moved.len() implies #[trigger] steps(r, s, moved, i) by {
            assert(steps(m, s, moved, i));
        }
        moved
    } else if !is_initial_cyclic(m) {
        let front = weight_in_front(m.states[s], weight);
        assert(r.states =~= m.states.update(s, front));
        if moved.len() == 0 {
            assert(r.fin(s) == weight.spec_times(m.fin(s)));
            moved
        } else {
            let first = Arc { weight: weight.spec_times(moved[0].weight), ..moved[0] };
            let kept = moved.update(0, first);
            assert forall|i: int| 0 < i <= moved.len() implies state_at(s, moved, i) != s by {
                if state_at(s, moved, i) == s {
                    lemma_run_goes(m, s, moved, 0);
                    lemma_run_reaches(m, s, moved, 1, i);
                    assert(on_cycle(full_graph(m), s));
                }
            }
            assert forall|i: int| 0 <= i < kept.len() implies #[trigger] steps(r, s, kept, i) by {
                assert(steps(m, s, moved, i));
                assert(state_at(s, kept, i) == state_at(s, moved, i));
                let at = state_at(s, moved, i);
                if i == 0 {
                    let k = choose|k: int| 0 <= k < m.arcs(s).len() && m.arcs(s)[k] == moved[0];
                    assert(r.arcs(s)[k] == first);
                } else {
                    assert(r.states[at] == m.states[at]);
                }
            }
            let rest = moved.drop_first();
            assert(kept.drop_first() =~= rest);
            assert(end_of(s, kept) == end);
            assert(r.fin(end) == m.fin(end)) by {
                assert(state_at(s, moved, moved.len() as int) != s);
                assert(r.states[end] == m.states[end]);
            }
            let tail = total(rest, m.fin(end));
            lemma_taken_together(weight, moved[0].weight, tail);
            lemma_alike_labels(kept, moved);
            kept
        }
    } else {
        let into = Arc { ilabel: EPSILON, olabel: EPSILON, weight, nextstate: s as usize };
        let kept = seq![into] + moved;
        let n = v.n() as int;
        assert(r.states =~= m.states.push(
            StateV { final_weight: W::spec_zero(), arcs: seq![into] },
        ));
        assert forall|i: int| 0 <= i < kept.len() implies #[trigger] steps(r, n, kept, i) by {
            if i == 0 {
                assert(r.arcs(n)[0] == into);
            } else {
                assert(steps(m, s, moved, i - 1));
                let at = state_at(s, moved, i - 1);
                assert(state_at(n, kept, i) == at);
                assert(r.states[at] == m.states[at]);
            }
        }
        assert(kept.drop_first() =~= moved);
        assert(end_of(n, kept) == end) by {
            if moved.len() > 0 {
                assert(kept[kept.len() - 1] == moved[moved.len() - 1]);
            }
        }
        assert(r.states[end] == m.states[end]);
        lemma_labels_from_front(into, moved);
        assert(reads(kept) =~= reads(moved));
        assert(writes(kept) =~= writes(moved));
        kept
    }
}

/// Runs with the same labels read the same and write the same.
proof fn lemma_alike_labels<W: Weight>(a: Seq<Arc<W>>, b: Seq<Arc<W>>)
    requires
        a.len() == b.len(),
        forall|i: int|
            0 <= i < a.len() ==> (#[trigger] a[i]).ilabel == b[i].ilabel && a[i].olabel
                == b[i].olabel,
    ensures
        reads(a) == reads(b),
        writes(a) == writes(b),
    decreases a.len(),
{
    if a.len() > 0 {
        lemma_alike_labels(a.drop_last(), b.drop_last());
    }
}

/// Moving weight keeps a machine in order.
proof fn lemma_moved_wf<W: Divide>(v: FstV<W>, potential: Seq<W>, to: ReweightType)
    requires
        v.wf(),
    ensures
        moved_weights(v, potential, to).wf(),
{
    let m = moved_weights(v, potential, to);
    assert forall|s: int, i: int| 0 <= s < m.n() && 0 <= i < m.states[s].arcs.len() implies (
    #[trigger] m.states[s].arcs[i]).nextstate < m.n() by {
        assert(v.states[s].arcs[i].nextstate < v.n());
    }
}

/// Moving weight and putting back what the start lost keeps a machine in order.
pub proof fn lemma_reweighted_wf<W: Divide>(v: FstV<W>, potential: Seq<W>, to: ReweightType)
    requires
        v.wf(),
        v.n() < usize::MAX,
    ensures
        reweighted(v, potential, to).wf(),
{
    let m = moved_weights(v, potential, to);
    let r = reweighted(v, potential, to);
    lemma_moved_wf(v, potential, to);
    assert forall|s: int, i: int| 0 <= s < r.n() && 0 <= i < r.states[s].arcs.len() implies (
    #[trigger] r.states[s].arcs[i]).nextstate < r.n() by {
        if s < m.n() {
            assert(r.states[s].arcs.len() == m.states[s].arcs.len());
            assert(r.states[s].arcs[i].nextstate == m.states[s].arcs[i].nextstate);
            assert(m.states[s].arcs[i].nextstate < m.n());
        }
    }
}

} // verus!
