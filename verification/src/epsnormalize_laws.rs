//! Where a normalized machine has its epsilons.
use crate::arc::{Arc, EPSILON, NO_STATE};
use crate::arc_map::{final_arc, lemma_plain, map_all, map_arcs, map_into, map_states, plain_state};
use crate::connect::{
    lemma_kept_arc_from, lemma_kept_state_at, lemma_rank_onto, lemma_trimmed_wf, on_path,
    path_states, trimmed,
};
use crate::epsnormalize::{
    closes, facing, lemma_inverted_wf, normalizes, turned_back, EpsNormalizeType,
};
use crate::factor_weight::{
    arc_steps, arcs_steps, element_steps, element_unfolds, factors, final_steps, is_factored,
    lemma_factored_wf, Element, FactorIterator, FactorWeightOptions, GallicFactor,
};
use crate::gallic_map::{from_gallic, FromGallicMapper, ToGallicMapper};
use crate::graph::{full_graph, reach_in};
use crate::invert::swapped;
use crate::paths::{is_run, state_at, steps};
use crate::push::{labels_come_out, labels_in, lemma_labels_in, spread_options};
use crate::rmepsilon::{
    are_closures, closure_arcs, is_entered, is_epsilon, lemma_place, lemma_without_epsilons_wf,
    with_all_added, without_epsilons,
};
use crate::string_weight::GallicWeight;
use crate::unfold::numbered;
use crate::vector_fst::{all_members, lemma_kept_states_len, FstV, StateV};
use crate::weight::Weight;
use vstd::prelude::*;

verus! {

/// Whether a machine has an arc that reads or writes, with the labels of `arc` and
/// leading where it leads.
pub open spec fn has_like<W: Weight>(v: FstV<W>, arc: Arc<W>) -> bool {
    exists|s: int, i: int|
        0 <= s < v.n() && 0 <= i < v.states[s].arcs.len() && (
        #[trigger] v.states[s].arcs[i]).nextstate == arc.nextstate && v.states[s].arcs[i].ilabel
            == arc.ilabel && v.states[s].arcs[i].olabel == arc.olabel && !is_epsilon(
            v.states[s].arcs[i],
        )
}

/// Whether all arcs are like arcs of a machine that read or write.
spec fn are_like<W: Weight>(v: FstV<W>, arcs: Seq<Arc<W>>) -> bool {
    forall|j: int| 0 <= j < arcs.len() ==> has_like(v, #[trigger] arcs[j])
}

proof fn lemma_added_are_like<W: Weight>(
    v: FstV<W>,
    arcs: Seq<Arc<W>>,
    weight: W,
    s: int,
    k: int,
)
    requires
        0 <= s < v.n(),
        0 <= k <= v.arcs(s).len(),
        are_like(v, arcs),
    ensures
        are_like(v, with_all_added(arcs, weight, v.arcs(s), k)),
    decreases k,
{
    if k > 0 {
        lemma_added_are_like(v, arcs, weight, s, k - 1);
        let before = with_all_added(arcs, weight, v.arcs(s), k - 1);
        let now = with_all_added(arcs, weight, v.arcs(s), k);
        let from = v.states[s].arcs[k - 1];
        if !is_epsilon(from) {
            let arc = Arc { weight: weight.spec_times(from.weight), ..from };
            assert(has_like(v, arc));
            lemma_place(before, arc, before.len() as int);
            assert forall|j: int| 0 <= j < now.len() implies has_like(v, #[trigger] now[j]) by {
                if j < before.len() {
                    assert(has_like(v, before[j]));
                    assert(now[j].ilabel == before[j].ilabel && now[j].olabel == before[j].olabel
                        && now[j].nextstate == before[j].nextstate);
                }
            }
        }
    }
}

proof fn lemma_closure_is_like<W: Weight>(v: FstV<W>, distance: Seq<W>, k: int)
    requires
        0 <= k <= v.n(),
    ensures
        are_like(v, closure_arcs(v, distance, k)),
    decreases k,
{
    if k > 0 {
        lemma_closure_is_like(v, distance, k - 1);
        lemma_added_are_like(
            v,
            closure_arcs(v, distance, k - 1),
            distance[k - 1],
            k - 1,
            v.arcs(k - 1).len() as int,
        );
    }
}

/// What is reached from a state that something leads to is led to itself.
proof fn lemma_reached_are_entered<W: Weight>(
    v: FstV<W>,
    distances: Seq<Seq<W>>,
    s: int,
    t: int,
    k: nat,
)
    requires
        v.wf(),
        0 <= s < v.n(),
        is_entered(v, s),
        reach_in(full_graph(without_epsilons(v, distances)), s, t, k),
    ensures
        is_entered(v, t),
    decreases k,
{
    if k > 0 {
        let r = without_epsilons(v, distances);
        let g = full_graph(r);
        let m = choose|m: int| #[trigger] g(s, m) && reach_in(g, m, t, (k - 1) as nat);
        let i = choose|i: int|
            0 <= i < r.arcs(s).len() && (#[trigger] r.arcs(s)[i]).nextstate == m;
        lemma_closure_is_like(v, distances[s], v.n() as int);
        assert(has_like(v, closure_arcs(v, distances[s], v.n() as int)[i]));
        let (a, j) = choose|a: int, j: int|
            0 <= a < v.n() && 0 <= j < v.states[a].arcs.len() && (
            #[trigger] v.states[a].arcs[j]).nextstate == m && !is_epsilon(v.states[a].arcs[j]);
        assert(v.states[a].arcs[j].nextstate < v.n());
        lemma_reached_are_entered(v, distances, m, t, (k - 1) as nat);
    }
}

/// Whether no arc of a machine reads nothing.
pub open spec fn reads_always<W: Weight>(v: FstV<W>) -> bool {
    forall|s: int, i: int|
        0 <= s < v.n() && 0 <= i < v.states[s].arcs.len() ==> (
        #[trigger] v.states[s].arcs[i]).ilabel != EPSILON
}

/// Whether every arc of a machine writes what it reads.
pub open spec fn writes_what_it_reads<W: Weight>(v: FstV<W>) -> bool {
    forall|s: int, i: int|
        0 <= s < v.n() && 0 <= i < v.states[s].arcs.len() ==> (
        #[trigger] v.states[s].arcs[i]).ilabel == v.states[s].arcs[i].olabel
}

/// Once epsilons are removed, every arc that a path can take reads or writes.
pub proof fn law_no_epsilon_is_left<W: Weight>(v: FstV<W>, distances: Seq<Seq<W>>)
    requires
        v.wf(),
        v.n() <= usize::MAX,
    ensures
        forall|s: int, i: int|
            0 <= s < trimmed(without_epsilons(v, distances)).n() && 0 <= i < trimmed(
                without_epsilons(v, distances),
            ).arcs(s).len() ==> !is_epsilon(
                #[trigger] trimmed(without_epsilons(v, distances)).arcs(s)[i],
            ),
{
    let r = without_epsilons(v, distances);
    let t = trimmed(r);
    let keep = path_states(r);
    let n = r.n() as int;
    lemma_kept_states_len(r.states, keep, n);
    assert forall|s: int, i: int| 0 <= s < t.n() && 0 <= i < t.arcs(s).len() implies !is_epsilon(
        #[trigger] t.arcs(s)[i],
    ) by {
        let x = lemma_rank_onto(keep, n, s);
        lemma_kept_state_at(r.states, keep, x, n);
        assert(on_path(r, x));
        let start = r.start->0 as int;
        let k = choose|k: nat| reach_in(full_graph(r), start, x, k);
        lemma_reached_are_entered(v, distances, start, x, k);
        let arcs = r.states[x].arcs;
        let j = lemma_kept_arc_from(arcs, keep, arcs.len() as int, i);
        lemma_closure_is_like(v, distances[x], v.n() as int);
        assert(has_like(v, closure_arcs(v, distances[x], v.n() as int)[j]));
    }
}

/// What an arc of a machine without its epsilons has: the labels of an arc that was there.
proof fn lemma_left_arc_is_like<W: Weight>(v: FstV<W>, distances: Seq<Seq<W>>, s: int, i: int)
    requires
        v.wf(),
        v.n() <= usize::MAX,
        writes_what_it_reads(v),
        0 <= s < trimmed(without_epsilons(v, distances)).n(),
        0 <= i < trimmed(without_epsilons(v, distances)).arcs(s).len(),
    ensures
        trimmed(without_epsilons(v, distances)).arcs(s)[i].ilabel == trimmed(
            without_epsilons(v, distances),
        ).arcs(s)[i].olabel,
{
    let r = without_epsilons(v, distances);
    let keep = path_states(r);
    let n = r.n() as int;
    lemma_kept_states_len(r.states, keep, n);
    let x = lemma_rank_onto(keep, n, s);
    lemma_kept_state_at(r.states, keep, x, n);
    assert(on_path(r, x));
    let start = r.start->0 as int;
    let k = choose|k: nat| reach_in(full_graph(r), start, x, k);
    lemma_reached_are_entered(v, distances, start, x, k);
    let arcs = r.states[x].arcs;
    let j = lemma_kept_arc_from(arcs, keep, arcs.len() as int, i);
    lemma_closure_is_like(v, distances[x], v.n() as int);
    assert(has_like(v, closure_arcs(v, distances[x], v.n() as int)[j]));
}

/// Once the epsilons of an acceptor are removed, all its paths read at every arc.
proof fn lemma_trimmed_reads<W: Weight>(v: FstV<W>, distances: Seq<Seq<W>>)
    requires
        v.wf(),
        v.n() <= usize::MAX,
        writes_what_it_reads(v),
    ensures
        reads_always(trimmed(without_epsilons(v, distances))),
{
    let t = trimmed(without_epsilons(v, distances));
    law_no_epsilon_is_left(v, distances);
    assert forall|s: int, i: int| 0 <= s < t.n() && 0 <= i < t.states[s].arcs.len() implies (
    #[trigger] t.states[s].arcs[i]).ilabel != EPSILON by {
        assert(!is_epsilon(t.arcs(s)[i]));
        lemma_left_arc_is_like(v, distances, s, i);
    }
}

/// Moving labels into weights leaves arcs that write what they read.
proof fn lemma_labels_in_reads<W: Weight, const G: u8>(v: FstV<W>)
    requires
        v.wf(),
        v.n() < usize::MAX,
    ensures
        writes_what_it_reads(labels_in::<W, G>(v)),
{
    let g = labels_in::<W, G>(v);
    if v.start is Some {
        lemma_plain::<W, GallicWeight<W, G>, ToGallicMapper<G>>(
            (),
            v.states,
            v.n() as usize,
            v.n() as int,
        );
        assert forall|s: int, i: int| 0 <= s < g.n() && 0 <= i < g.states[s].arcs.len() implies (
        #[trigger] g.states[s].arcs[i]).ilabel == g.states[s].arcs[i].olabel by {
            assert(g.states[s] == plain_state::<W, GallicWeight<W, G>, ToGallicMapper<G>>(
                (),
                v.states[s],
            ));
        }
    }
}

/// Whether a step reads nothing only if it leads to where nothing but weight is left.
spec fn steps_well<W: Weight>(n: nat, ilabel: i32, to: Element<W>) -> bool {
    &&& to.state matches Some(s) ==> s < n && ilabel != EPSILON
    &&& to.state is None ==> ilabel == EPSILON
}

proof fn lemma_arcs_step_well<W: Weight, FI: FactorIterator<W>>(
    opts: FactorWeightOptions<W::Delta>,
    owed: W,
    v: FstV<W>,
    s: int,
    k: int,
    i: int,
)
    requires
        v.wf(),
        reads_always(v),
        0 <= s < v.n(),
        0 <= k <= v.arcs(s).len(),
        0 <= i < arcs_steps::<W, FI>(opts, owed, v.arcs(s), k).len(),
    ensures
        ({
            let step = arcs_steps::<W, FI>(opts, owed, v.arcs(s), k)[i];
            step.to.state is Some && steps_well(v.n(), step.ilabel, step.to)
        }),
    decreases k,
{
    if k > 0 {
        let before = arcs_steps::<W, FI>(opts, owed, v.arcs(s), k - 1);
        let more = arc_steps::<W, FI>(opts, owed, v.arcs(s)[k - 1]);
        let all = arcs_steps::<W, FI>(opts, owed, v.arcs(s), k);
        if i < before.len() {
            lemma_arcs_step_well::<W, FI>(opts, owed, v, s, k - 1, i);
            assert(all[i] == before[i]);
        } else {
            assert(all[i] == more[i - before.len()]);
            assert(v.states[s].arcs[k - 1].nextstate < v.n());
            assert(v.states[s].arcs[k - 1].ilabel != EPSILON);
        }
    }
}

/// An arc of a machine with its weights split reads nothing only if it leads to where
/// nothing but weight is left; from there no arc reads anything.
proof fn lemma_factored_step<W: Weight, FI: FactorIterator<W>>(
    opts: FactorWeightOptions<W::Delta>,
    v: FstV<W>,
    start: usize,
    table: Seq<Element<W>>,
    f: FstV<W>,
    s: int,
    i: int,
)
    requires
        v.wf(),
        reads_always(v),
        opts.final_ilabel == EPSILON,
        !opts.increment_final_ilabel,
        is_factored::<W, FI>(opts, v, start, table, f.states),
        0 <= s < f.n(),
        table[s].state matches Some(x) ==> x < v.n(),
        0 <= i < f.states[s].arcs.len(),
    ensures
        ({
            let arc = f.states[s].arcs[i];
            &&& arc.nextstate < f.n()
            &&& steps_well(v.n(), arc.ilabel, table[arc.nextstate as int])
            &&& table[s].state is None ==> table[arc.nextstate as int].state is None
        }),
{
    let key = table[s];
    let all = element_steps::<W, FI>(opts, v, key);
    assert(element_unfolds::<W, FI>(opts, v, key, f.states[s], table));
    assert(numbered(all[i], f.states[s].arcs[i], table));
    let last = final_steps::<W, FI>(opts, v, key);
    match key.state {
        Some(x) => {
            let arcs = v.arcs(x as int);
            let first = arcs_steps::<W, FI>(opts, key.weight, arcs, arcs.len() as int);
            if i < first.len() {
                assert(all[i] == first[i]);
                lemma_arcs_step_well::<W, FI>(
                    opts,
                    key.weight,
                    v,
                    x as int,
                    arcs.len() as int,
                    i,
                );
            } else {
                assert(all[i] == last[i - first.len()]);
            }
        },
        None => {
            assert(all[i] == last[i]);
        },
    }
}

/// Whether an arc of what the labels are moved out into does as the `j`th arc of `from`
/// does, or is the one that a final weight became.
spec fn comes_out<W: Weight, V: Weight>(from: Seq<Arc<V>>, arc: Arc<W>, j: int, top: usize) -> bool {
    ||| j < from.len() && arc.ilabel == from[j].ilabel && arc.nextstate == from[j].nextstate
    ||| arc.ilabel == EPSILON && arc.nextstate == top
}

proof fn lemma_arcs_come_out<W: Weight, const G: u8>(
    m: (i32, bool),
    arcs: Seq<Arc<GallicWeight<W, G>>>,
    k: int,
)
    requires
        0 <= k <= arcs.len(),
        forall|i: int| 0 <= i < arcs.len() ==> (#[trigger] arcs[i]).nextstate != NO_STATE,
    ensures
        ({
            let (p, done) = map_arcs::<GallicWeight<W, G>, W, FromGallicMapper<G>>(m, arcs, k);
            &&& p.0 == m.0
            &&& done.len() == k
            &&& forall|j: int|
                0 <= j < k ==> (#[trigger] done[j]).ilabel == arcs[j].ilabel && done[j].nextstate
                    == arcs[j].nextstate
        }),
    decreases k,
{
    if k > 0 {
        lemma_arcs_come_out::<W, G>(m, arcs, k - 1);
        let (p, before) = map_arcs::<GallicWeight<W, G>, W, FromGallicMapper<G>>(m, arcs, k - 1);
        let (q, done) = map_arcs::<GallicWeight<W, G>, W, FromGallicMapper<G>>(m, arcs, k);
        assert(arcs[k - 1].nextstate != NO_STATE);
        assert(done == before.push(from_gallic(p.0, arcs[k - 1])));
    }
}

proof fn lemma_states_come_out<W: Weight, const G: u8>(
    states: Seq<StateV<GallicWeight<W, G>>>,
    top: usize,
    k: int,
)
    requires
        0 <= k <= states.len(),
        forall|s: int, i: int|
            0 <= s < states.len() && 0 <= i < states[s].arcs.len() ==> (
            #[trigger] states[s].arcs[i]).nextstate != NO_STATE,
    ensures
        ({
            let r = map_states::<GallicWeight<W, G>, W, FromGallicMapper<G>>(
                (EPSILON, false),
                states,
                top,
                k,
            );
            &&& r.failed is None
            &&& r.model.0 == EPSILON
            &&& r.done.len() == k
            &&& forall|s: int, j: int|
                0 <= s < k && 0 <= j < r.done[s].arcs.len() ==> comes_out(
                    states[s].arcs,
                    #[trigger] r.done[s].arcs[j],
                    j,
                    top,
                )
        }),
    decreases k,
{
    if k > 0 {
        lemma_states_come_out::<W, G>(states, top, k - 1);
        let m = (EPSILON, false);
        let p = map_states::<GallicWeight<W, G>, W, FromGallicMapper<G>>(m, states, top, k - 1);
        let r = map_states::<GallicWeight<W, G>, W, FromGallicMapper<G>>(m, states, top, k);
        let state = states[k - 1];
        assert forall|i: int| 0 <= i < state.arcs.len() implies (
        #[trigger] state.arcs[i]).nextstate != NO_STATE by {
            assert(states[k - 1].arcs[i].nextstate != NO_STATE);
        }
        let n = state.arcs.len() as int;
        lemma_arcs_come_out::<W, G>(p.model, state.arcs, n);
        let (q, arcs) = map_arcs::<GallicWeight<W, G>, W, FromGallicMapper<G>>(
            p.model,
            state.arcs,
            n,
        );
        let last = from_gallic(q.0, final_arc(state.final_weight));
        assert(last.ilabel == EPSILON);
        assert forall|s: int, j: int|
            0 <= s < k && 0 <= j < r.done[s].arcs.len() implies comes_out(
            states[s].arcs,
            #[trigger] r.done[s].arcs[j],
            j,
            top,
        ) by {
            if s < k - 1 {
                assert(r.done[s] == p.done[s]);
                assert(comes_out(states[s].arcs, p.done[s].arcs[j], j, top));
            } else if j < n {
                assert(r.done[s].arcs[j] == arcs[j]);
            }
        }
    }
}

/// The label of an arc on the side that is normalized.
pub open spec fn label_on<W>(which: EpsNormalizeType, arc: Arc<W>) -> i32 {
    match which {
        EpsNormalizeType::Input => arc.ilabel,
        EpsNormalizeType::Output => arc.olabel,
    }
}

/// Whether nothing is left to read from a state of the machine that the labels were
/// moved out into.
spec fn is_spent<W: Weight, const G: u8>(table: Seq<Element<GallicWeight<W, G>>>, s: int) -> bool {
    s >= table.len() || table[s].state is None
}

/// From where nothing is left to read, nothing is read; and where nothing is read,
/// nothing is left to read.
proof fn lemma_reads_first<W: Weight, const G: u8>(
    v: FstV<GallicWeight<W, G>>,
    start: usize,
    table: Seq<Element<GallicWeight<W, G>>>,
    f: FstV<GallicWeight<W, G>>,
    out: FstV<W>,
    run: Seq<Arc<W>>,
    i: int,
    j: int,
)
    requires
        v.wf(),
        reads_always(v),
        v.start == Some(start),
        is_factored::<GallicWeight<W, G>, GallicFactor<W, G>>(
            spread_options::<W>(),
            v,
            start,
            table,
            f.states,
        ),
        f.start == Some(0usize),
        f.wf(),
        f.n() < usize::MAX,
        out.states == map_into::<GallicWeight<W, G>, W, FromGallicMapper<G>>(
            (EPSILON, false),
            f,
            FstV::empty(),
        ).states,
        is_run(out, 0, run),
        0 <= i <= j <= run.len(),
    ensures
        ({
            let q = state_at(0, run, j);
            &&& q < table.len() ==> (table[q].state matches Some(x) ==> x < v.n())
            &&& i < j && run[i].ilabel == EPSILON ==> is_spent(table, q) && run[j - 1].ilabel
                == EPSILON
        }),
    decreases j,
{
    if j > 0 {
        let opts = spread_options::<W>();
        let before = if i < j {
            i
        } else {
            j - 1
        };
        lemma_reads_first(v, start, table, f, out, run, before, j - 1);
        assert(steps(out, 0, run, j - 1));
        let p = state_at(0, run, j - 1);
        let arc = run[j - 1];
        let k = choose|k: int| 0 <= k < out.arcs(p).len() && out.arcs(p)[k] == arc;
        let n = f.n() as int;
        let top = f.n() as usize;
        assert forall|s: int, x: int|
            0 <= s < f.states.len() && 0 <= x < f.states[s].arcs.len() implies (
        #[trigger] f.states[s].arcs[x]).nextstate != NO_STATE by {
            assert(f.states[s].arcs[x].nextstate < f.n());
        }
        lemma_states_come_out::<W, G>(f.states, top, n);
        let r = map_all::<GallicWeight<W, G>, W, FromGallicMapper<G>>((EPSILON, false), f);
        if p < n {
            assert(out.states[p] == r.done[p]);
            assert(comes_out(f.states[p].arcs, r.done[p].arcs[k], k, top));
            if k < f.states[p].arcs.len() && arc.ilabel == f.states[p].arcs[k].ilabel
                && arc.nextstate == f.states[p].arcs[k].nextstate {
                lemma_factored_step::<GallicWeight<W, G>, GallicFactor<W, G>>(
                    opts,
                    v,
                    start,
                    table,
                    f,
                    p,
                    k,
                );
            }
        }
    }
}

/// Along every path of a normalized machine, no label follows an epsilon on the side
/// that is normalized.
pub proof fn law_no_label_follows_an_epsilon<W: Weight, const G: u8>(
    v: FstV<W>,
    which: EpsNormalizeType,
    f: FstV<GallicWeight<W, G>>,
    o: FstV<W>,
    run: Seq<Arc<W>>,
    i: int,
    j: int,
)
    requires
        v.wf(),
        v.n() < usize::MAX,
        normalizes::<W, G>(v, which, f),
        labels_come_out(f),
        turned_back(f, which, v, o).start is Some,
        is_run(turned_back(f, which, v, o), turned_back(f, which, v, o).start->0 as int, run),
        0 <= i < j < run.len(),
        label_on(which, run[i]) == EPSILON,
    ensures
        label_on(which, run[j]) == EPSILON,
{
    let back = turned_back(f, which, v, o);
    let faced = facing(v, which);
    if which is Output {
        lemma_inverted_wf(v);
    }
    let g = labels_in::<W, G>(faced);
    lemma_labels_in::<W, G>(faced);
    lemma_labels_in_reads::<W, G>(faced);
    let r = choose|r: FstV<GallicWeight<W, G>>| #[trigger]
        closes(v, which, r) && all_members(r) && factors::<
            GallicWeight<W, G>,
            GallicFactor<W, G>,
        >(spread_options::<W>(), trimmed(r), FstV::empty(), f);
    let distances = choose|distances: Seq<Seq<GallicWeight<W, G>>>| #[trigger]
        are_closures(g, W::spec_default_delta(), distances) && r == without_epsilons(g, distances);
    lemma_without_epsilons_wf(g, distances);
    lemma_trimmed_wf(r);
    lemma_trimmed_reads(g, distances);
    let t = trimmed(r);
    lemma_factored_wf::<GallicWeight<W, G>, GallicFactor<W, G>>(
        spread_options::<W>(),
        t,
        FstV::empty(),
        f,
    );
    let out = map_into::<GallicWeight<W, G>, W, FromGallicMapper<G>>((EPSILON, false), f, o);
    assert(f.start is Some);
    let start = t.start->0;
    let table = choose|table: Seq<Element<GallicWeight<W, G>>>| #[trigger]
        is_factored::<GallicWeight<W, G>, GallicFactor<W, G>>(
            spread_options::<W>(),
            t,
            start,
            table,
            f.states,
        );
    let along = match which {
        EpsNormalizeType::Input => run,
        EpsNormalizeType::Output => run.map_values(|arc: Arc<W>| swapped(arc)),
    };
    assert(is_run(out, 0, along)) by {
        assert forall|k: int| 0 <= k < along.len() implies #[trigger] steps(out, 0, along, k) by {
            assert(steps(back, 0, run, k));
            let p = state_at(0, run, k);
            assert(state_at(0, along, k) == p);
            if which is Output {
                let x = choose|x: int| 0 <= x < back.arcs(p).len() && back.arcs(p)[x] == run[k];
                assert(swapped(out.arcs(p)[x]) == run[k]);
                assert(along[k] == out.arcs(p)[x]);
                assert(out.arcs(p).contains(along[k]));
            } else {
                assert(out.arcs(p).contains(along[k]));
            }
        }
    }
    assert(along[i].ilabel == EPSILON);
    lemma_reads_first(t, start, table, f, out, along, i, j + 1);
}

} // verus!
