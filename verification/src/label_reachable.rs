//! Asking, before following an arc, whether anything can still be matched.
//!
//! Composition wastes most of its work on states that turn out to lead nowhere.
//! Looking ahead avoids that by asking of one machine, at each of its states, "is
//! there any path from here that starts with this label?" Answering that per state
//! and label would take a table the size of states times labels, which is why the
//! answer is kept as a *set of intervals* instead.
//!
//! The trick is a relabelling. Every arc carrying a label is redirected to a state
//! that stands for the label alone, and those states are numbered. Asking whether a
//! label is reachable is then asking whether its number is in the set of what the
//! state reaches.
use crate::accumulator::{range_end, DefaultAccumulator, WeightAccumulator};
use crate::arc::{Arc, EPSILON, NO_LABEL};
use crate::error::OpenFstError;
use crate::graph::{
    any_arc, arc_graph, full_graph, has_arc, lemma_closed, lemma_reach_edge, lemma_reach_refl,
    lemma_reach_step, lemma_reach_trans, reach, reach_in, Graph,
};
use crate::hash_table::Table;
use crate::interval_set::{held, IntervalSet};
use crate::matcher::{label_on, said_sorted, side_label, sorted_by};
use crate::vector_fst::{rank, FstV, StateV, VectorFst};
use crate::weight::Weight;
use std::rc::Rc;
use vstd::prelude::*;

verus! {

/// What a state that a path may end in reaches, besides the labels on arcs.
pub const FINAL_LABEL: i32 = -1;

/// Whether a path may end in `s`.
pub open spec fn finishes<W: Weight>(v: FstV<W>, s: int) -> bool {
    v.fin(s) != W::spec_zero()
}

/// The labels met so far, with one more.
pub open spec fn noted(keys: Seq<i32>, key: i32) -> Seq<i32> {
    if keys.contains(key) {
        keys
    } else {
        keys.push(key)
    }
}

/// The labels met so far, with those on the first `k` arcs.
pub open spec fn noted_arcs<W>(arcs: Seq<Arc<W>>, input: bool, keys: Seq<i32>, k: int) -> Seq<i32>
    decreases k,
{
    if k <= 0 {
        keys
    } else {
        let before = noted_arcs(arcs, input, keys, k - 1);
        let label = side_label(arcs[k - 1], !input);
        if label == EPSILON {
            before
        } else {
            noted(before, label)
        }
    }
}

/// The labels met so far, with those of state `s`: those on its arcs, and one more
/// where a path may end.
pub open spec fn noted_state<W: Weight>(v: FstV<W>, input: bool, keys: Seq<i32>, s: int) -> Seq<
    i32,
> {
    let on_arcs = noted_arcs(v.arcs(s), input, keys, v.arcs(s).len() as int);
    if finishes(v, s) {
        noted(on_arcs, FINAL_LABEL)
    } else {
        on_arcs
    }
}

/// The labels of the first `k` states, in the order in which they are met.
pub open spec fn noted_states<W: Weight>(v: FstV<W>, input: bool, k: int) -> Seq<i32>
    decreases k,
{
    if k <= 0 {
        Seq::empty()
    } else {
        noted_state(v, input, noted_states(v, input, k - 1), k - 1)
    }
}

/// The labels that can be asked about.
pub open spec fn reach_keys<W: Weight>(v: FstV<W>, input: bool) -> Seq<i32> {
    noted_states(v, input, v.n() as int)
}

/// The arc, leading to the state that stands for its label if it carries one.
pub open spec fn led_to_label<W>(arc: Arc<W>, input: bool, n: nat, keys: Seq<i32>) -> Arc<W> {
    let label = side_label(arc, !input);
    if label == EPSILON {
        arc
    } else {
        Arc { nextstate: (n + keys.index_of(label)) as usize, ..arc }
    }
}

/// The arcs of a state led to the states that stand for labels. Being final is
/// reaching one more label, so that "can this state still finish?" is the same
/// question as any other.
pub open spec fn spread_arcs<W: Weight>(v: FstV<W>, input: bool, keys: Seq<i32>, s: int) -> Seq<
    Arc<W>,
> {
    let led = Seq::new(
        v.arcs(s).len(),
        |i: int| led_to_label(v.arcs(s)[i], input, v.n(), keys),
    );
    if finishes(v, s) {
        led.push(
            Arc {
                ilabel: NO_LABEL,
                olabel: NO_LABEL,
                weight: v.fin(s),
                nextstate: (v.n() + keys.index_of(FINAL_LABEL)) as usize,
            },
        )
    } else {
        led
    }
}

/// Whether one of the first `k` states has an arc to `t`.
pub open spec fn entered_from<W: Weight>(
    v: FstV<W>,
    input: bool,
    keys: Seq<i32>,
    k: int,
    t: int,
) -> bool {
    exists|s: int, i: int|
        0 <= s < k && 0 <= i < spread_arcs(v, input, keys, s).len() && (#[trigger] spread_arcs(
            v,
            input,
            keys,
            s,
        )[i]).nextstate == t
}

/// The arcs to those of the first `k` states that no arc leads to.
pub open spec fn opening_arcs<W: Weight>(v: FstV<W>, input: bool, keys: Seq<i32>, k: int) -> Seq<
    Arc<W>,
>
    decreases k,
{
    if k <= 0 {
        Seq::empty()
    } else {
        let before = opening_arcs(v, input, keys, k - 1);
        if entered_from(v, input, keys, v.n() as int, k - 1) {
            before
        } else {
            before.push(
                Arc {
                    ilabel: EPSILON,
                    olabel: EPSILON,
                    weight: W::spec_one(),
                    nextstate: (k - 1) as usize,
                },
            )
        }
    }
}

/// The states of the machine in which every arc that carries a label leads to the
/// state that stands for it: those of the machine, one for each label, where a walk
/// ends, and one to start from.
pub open spec fn transformed_states<W: Weight>(v: FstV<W>, input: bool, keys: Seq<i32>) -> Seq<
    StateV<W>,
> {
    Seq::new(
        v.n() + keys.len() + 1,
        |s: int|
            if s < v.n() {
                StateV {
                    final_weight: W::spec_zero(),
                    arcs: spread_arcs(v, input, keys, s),
                }
            } else if s < v.n() + keys.len() {
                StateV { final_weight: W::spec_one(), arcs: Seq::empty() }
            } else {
                StateV {
                    final_weight: W::spec_zero(),
                    arcs: opening_arcs(v, input, keys, (v.n() + keys.len()) as int),
                }
            },
    )
}

/// Whether `v` has an arc that leads on from `s` to `t` without a label on the side
/// asked for.
pub open spec fn quiet_arcs<W: Weight>(input: bool) -> spec_fn(Arc<W>) -> bool {
    |arc: Arc<W>| side_label(arc, !input) == EPSILON
}

/// The steps that read or write nothing.
pub open spec fn quiet_graph<W: Weight>(v: FstV<W>, input: bool) -> Graph {
    arc_graph(v, quiet_arcs(input))
}

/// Whether `t` has an arc with the label `key`; for [`FINAL_LABEL`], a path that
/// ends in `t` will do as well.
pub open spec fn shows<W: Weight>(v: FstV<W>, input: bool, t: int, key: i32) -> bool {
    ||| exists|i: int|
        0 <= i < v.arcs(t).len() && side_label(#[trigger] v.arcs(t)[i], !input) == key
    ||| key == FINAL_LABEL && finishes(v, t)
}

/// Whether a path from `s` can start with the label `key`, steps without a label
/// aside.
pub open spec fn can_show<W: Weight>(v: FstV<W>, input: bool, s: int, key: i32) -> bool {
    exists|t: int|
        0 <= t < v.n() && #[trigger] reach(quiet_graph(v, input), s, t) && shows(v, input, t, key)
}

/// The labels met, met again, or newly met, keep their places.
proof fn lemma_noted(keys: Seq<i32>, key: i32)
    requires
        keys.no_duplicates(),
    ensures
        noted(keys, key).no_duplicates(),
        noted(keys, key).contains(key),
        keys.is_prefix_of(noted(keys, key)),
        forall|k: i32| #[trigger] noted(keys, key).contains(k) <==> keys.contains(k) || k == key,
{
    let after = noted(keys, key);
    if !keys.contains(key) {
        assert(after[keys.len() as int] == key);
        assert forall|k: i32| keys.contains(k) implies #[trigger] after.contains(k) by {
            let i = choose|i: int| 0 <= i < keys.len() && keys[i] == k;
            assert(after[i] == k);
        }
    }
    assert(keys =~= after.subrange(0, keys.len() as int));
}

/// What the labels on the first `k` arcs are.
proof fn lemma_noted_arcs<W>(arcs: Seq<Arc<W>>, input: bool, keys: Seq<i32>, k: int)
    requires
        keys.no_duplicates(),
        0 <= k <= arcs.len(),
    ensures
        noted_arcs(arcs, input, keys, k).no_duplicates(),
        keys.is_prefix_of(noted_arcs(arcs, input, keys, k)),
        forall|i: int|
            0 <= i < k && side_label(#[trigger] arcs[i], !input) != EPSILON ==> noted_arcs(
                arcs,
                input,
                keys,
                k,
            ).contains(side_label(arcs[i], !input)),
    decreases k,
{
    if k > 0 {
        lemma_noted_arcs(arcs, input, keys, k - 1);
        let before = noted_arcs(arcs, input, keys, k - 1);
        lemma_noted(before, side_label(arcs[k - 1], !input));
        let after = noted_arcs(arcs, input, keys, k);
        assert(keys =~= after.subrange(0, keys.len() as int));
    } else {
        assert(keys =~= keys.subrange(0, keys.len() as int));
    }
}

/// What the labels of the first `k` states are.
pub proof fn lemma_noted_states<W: Weight>(v: FstV<W>, input: bool, k: int)
    requires
        0 <= k <= v.n(),
    ensures
        noted_states(v, input, k).no_duplicates(),
        forall|s: int, i: int|
            0 <= s < k && 0 <= i < v.arcs(s).len() && side_label(#[trigger] v.arcs(s)[i], !input)
                != EPSILON ==> noted_states(v, input, k).contains(side_label(v.arcs(s)[i], !input)),
        forall|s: int|
            0 <= s < k && #[trigger] finishes(v, s) ==> noted_states(v, input, k).contains(
                FINAL_LABEL,
            ),
    decreases k,
{
    if k > 0 {
        lemma_noted_states(v, input, k - 1);
        let keys = noted_states(v, input, k - 1);
        let arcs = v.arcs(k - 1);
        lemma_noted_arcs(arcs, input, keys, arcs.len() as int);
        let on_arcs = noted_arcs(arcs, input, keys, arcs.len() as int);
        lemma_noted(on_arcs, FINAL_LABEL);
        let after = noted_states(v, input, k);
        assert(on_arcs.is_prefix_of(after));
        assert forall|key: i32| keys.contains(key) implies #[trigger] after.contains(key) by {
            let i = choose|i: int| 0 <= i < keys.len() && keys[i] == key;
            assert(on_arcs[i] == key);
            assert(after[i] == key);
        }
        assert forall|key: i32| on_arcs.contains(key) implies #[trigger] after.contains(key) by {
            let i = choose|i: int| 0 <= i < on_arcs.len() && on_arcs[i] == key;
            assert(after[i] == key);
        }
    }
}



/// The labels that can be asked about, numbered in the order in which they are met.
fn keys_of<W: Weight>(fst: &VectorFst<W>, input: bool) -> (keys: Table<i32>)
    ensures
        keys.wf(),
        keys@ == reach_keys(fst@, input),
{
    let ghost v = fst@;
    let zero = W::zero();
    let mut keys: Table<i32> = Table::new();
    let n: usize = fst.num_states();
    let mut s: usize = 0;
    while s < n
        invariant
            v == fst@,
            n == v.n(),
            s <= n,
            zero == W::spec_zero(),
            keys.wf(),
            keys@ == noted_states(v, input, s as int),
        decreases n - s,
    {
        let ghost before = keys@;
        let arcs = fst.arcs(s);
        let mut i: usize = 0;
        while i < arcs.len()
            invariant
                arcs@ == v.arcs(s as int),
                i <= arcs@.len(),
                keys.wf(),
                keys@ == noted_arcs(arcs@, input, before, i as int),
            decreases arcs@.len() - i,
        {
            let label: i32 = label_on(&arcs[i], !input);
            if label != EPSILON {
                keys.insert(label);
            }
            i += 1;
        }
        let weight = fst.final_weight(s);
        if !weight.same(&zero) {
            keys.insert(FINAL_LABEL);
        }
        s += 1;
    }
    keys
}

/// The state that stands for a label that is numbered.
fn label_state(keys: &Table<i32>, n: usize, key: i32, Ghost(total): Ghost<nat>) -> (state: usize)
    requires
        keys.wf(),
        keys@.contains(key),
        n + keys@.len() < total <= usize::MAX,
    ensures
        state == n + keys@.index_of(key),
        n <= state < n + keys@.len(),
{
    let found = keys.find(&key);
    proof {
        keys.lemma_distinct();
    }
    let ghost at = keys@.index_of(key);
    assert(0 <= at < keys@.len() && keys@[at] == key) by {
        let i = choose|i: int| 0 <= i < keys@.len() && keys@[i] == key;
        assert(keys@[i] == key);
    }
    match found {
        Some(i) => {
            assert(i == at);
            n + i
        },
        None => n,
    }
}

/// The arcs of a state led to the states that stand for labels.
fn spread<W: Weight>(
    fst: &VectorFst<W>,
    input: bool,
    keys: &Table<i32>,
    s: usize,
    Ghost(total): Ghost<nat>,
) -> (out: Vec<Arc<W>>)
    requires
        fst@.wf(),
        s < fst@.n(),
        keys.wf(),
        keys@ == reach_keys(fst@, input),
        fst@.n() + keys@.len() < total <= usize::MAX,
    ensures
        out@ == spread_arcs(fst@, input, keys@, s as int),
        forall|i: int|
            0 <= i < out@.len() ==> (#[trigger] out@[i]).nextstate < fst@.n() + keys@.len(),
{
    let ghost v = fst@;
    let n: usize = fst.num_states();
    proof {
        lemma_noted_states(v, input, v.n() as int);
    }
    let arcs = fst.arcs(s);
    let mut out: Vec<Arc<W>> = Vec::new();
    let mut i: usize = 0;
    while i < arcs.len()
        invariant
            v == fst@,
            v.wf(),
            s < n == v.n(),
            arcs@ == v.arcs(s as int),
            i <= arcs@.len(),
            keys.wf(),
            keys@ == reach_keys(v, input),
            n + keys@.len() < total <= usize::MAX,
            forall|i: int|
                0 <= i < arcs@.len() && side_label(#[trigger] arcs@[i], !input) != EPSILON
                    ==> keys@.contains(side_label(arcs@[i], !input)),
            out@.len() == i,
            forall|j: int|
                0 <= j < i ==> #[trigger] out@[j] == led_to_label(arcs@[j], input, v.n(), keys@),
            forall|j: int| 0 <= j < i ==> (#[trigger] out@[j]).nextstate < n + keys@.len(),
        decreases arcs@.len() - i,
    {
        let label: i32 = label_on(&arcs[i], !input);
        assert(v.states[s as int].arcs[i as int].nextstate < v.n());
        if label == EPSILON {
            out.push(arcs[i].duplicate());
        } else {
            let next: usize = label_state(keys, n, label, Ghost(total));
            out.push(arcs[i].redirected(next));
        }
        i += 1;
    }
    let zero = W::zero();
    let weight = fst.final_weight(s);
    if !weight.same(&zero) {
        assert(finishes(v, s as int));
        let next: usize = label_state(keys, n, FINAL_LABEL, Ghost(total));
        out.push(Arc::new(NO_LABEL, NO_LABEL, weight, next));
    }
    assert(out@ =~= spread_arcs(v, input, keys@, s as int));
    out
}

/// Marks the states that the arcs lead to.
fn mark_entered<W: Weight>(arcs: &Vec<Arc<W>>, entered: &mut Vec<bool>)
    requires
        forall|i: int| 0 <= i < arcs@.len() ==> (#[trigger] arcs@[i]).nextstate < old(entered)@.len(),
    ensures
        final(entered)@.len() == old(entered)@.len(),
        forall|t: int|
            0 <= t < old(entered)@.len() ==> (#[trigger] final(entered)@[t] <==> old(entered)@[t] || (
            exists|i: int| 0 <= i < arcs@.len() && (#[trigger] arcs@[i]).nextstate == t)),
{
    let mut i: usize = 0;
    while i < arcs.len()
        invariant
            i <= arcs@.len(),
            entered@.len() == old(entered)@.len(),
            forall|i: int|
                0 <= i < arcs@.len() ==> (#[trigger] arcs@[i]).nextstate < entered@.len(),
            forall|t: int|
                0 <= t < entered@.len() ==> (#[trigger] entered@[t] <==> old(entered)@[t] || (
                exists|j: int| 0 <= j < i && (#[trigger] arcs@[j]).nextstate == t)),
        decreases arcs@.len() - i,
    {
        let next: usize = arcs[i].nextstate;
        let ghost before = entered@;
        entered.set(next, true);
        assert forall|t: int| 0 <= t < entered@.len() implies (#[trigger] entered@[t] <==> old(
            entered,
        )@[t] || (exists|j: int| 0 <= j < i + 1 && (#[trigger] arcs@[j]).nextstate == t)) by {
            if t == next {
                assert(arcs@[i as int].nextstate == t);
            } else {
                assert(entered@[t] == before[t]);
            }
        }
        i += 1;
    }
}

/// The machine in which every arc that carries a label leads to the state that
/// stands for it, and the labels in the order of those states.
pub fn transform<W: Weight>(fst: &VectorFst<W>, input: bool) -> (result: (VectorFst<W>, Table<i32>))
    requires
        fst@.wf(),
    ensures
        result.1.wf(),
        result.1@ == reach_keys(fst@, input),
        result.0@.states == transformed_states(fst@, input, result.1@),
        result.0@.start == Some((fst@.n() + result.1@.len()) as usize),
        result.0@.wf(),
{
    let ghost v = fst@;
    let n: usize = fst.num_states();
    let keys = keys_of(fst, input);
    let count: usize = keys.len();
    let mut out: VectorFst<W> = VectorFst::new();
    out.add_states(n);
    let mut k: usize = 0;
    while k < count
        invariant
            k <= count,
            out@.n() == n + k,
            forall|t: int| 0 <= t < n ==> #[trigger] out@.states[t] == StateV::<W>::fresh(),
            forall|t: int|
                n <= t < n + k ==> #[trigger] out@.states[t] == (StateV {
                    final_weight: W::spec_one(),
                    arcs: Seq::empty(),
                }),
        decreases count - k,
    {
        let state: usize = out.add_state();
        let one = W::one();
        out.set_final(state, one);
        k += 1;
    }
    let start: usize = out.add_state();
    out.set_start(start);
    let total: usize = out.num_states();
    let mut entered: Vec<bool> = Vec::new();
    let mut t: usize = 0;
    while t < total
        invariant
            t <= total,
            entered@.len() == t,
            forall|j: int| 0 <= j < t ==> !(#[trigger] entered@[j]),
        decreases total - t,
    {
        entered.push(false);
        t += 1;
    }
    let mut s: usize = 0;
    while s < n
        invariant
            v == fst@,
            v.wf(),
            n == v.n(),
            s <= n,
            keys.wf(),
            keys@ == reach_keys(v, input),
            count == keys@.len(),
            total == n + count + 1,
            start == n + count,
            out@.n() == total,
            out@.start == Some(start),
            forall|t: int|
                0 <= t < s ==> #[trigger] out@.states[t] == (StateV {
                    final_weight: W::spec_zero(),
                    arcs: spread_arcs(v, input, keys@, t),
                }),
            forall|t: int| s <= t < n ==> #[trigger] out@.states[t] == StateV::<W>::fresh(),
            forall|t: int|
                n <= t < start ==> #[trigger] out@.states[t] == (StateV {
                    final_weight: W::spec_one(),
                    arcs: Seq::empty(),
                }),
            out@.states[start as int] == StateV::<W>::fresh(),
            forall|t: int, i: int|
                0 <= t < s && 0 <= i < spread_arcs(v, input, keys@, t).len() ==> (
                #[trigger] spread_arcs(v, input, keys@, t)[i]).nextstate < start,
            entered@.len() == total,
            forall|t: int|
                0 <= t < total ==> (#[trigger] entered@[t] <==> entered_from(
                    v,
                    input,
                    keys@,
                    s as int,
                    t,
                )),
        decreases n - s,
    {
        let arcs = spread(fst, input, &keys, s, Ghost(total as nat));
        let ghost before = entered@;
        mark_entered(&arcs, &mut entered);
        assert forall|t: int| 0 <= t < total implies (#[trigger] entered@[t] <==> entered_from(
            v,
            input,
            keys@,
            s + 1,
            t,
        )) by {
            if before[t] {
                assert(entered_from(v, input, keys@, s as int, t));
                let (x, i) = choose|x: int, i: int|
                    0 <= x < s && 0 <= i < spread_arcs(v, input, keys@, x).len() && (
                    #[trigger] spread_arcs(v, input, keys@, x)[i]).nextstate == t;
                assert(spread_arcs(v, input, keys@, x)[i].nextstate == t);
            }
            if exists|i: int| 0 <= i < arcs@.len() && (#[trigger] arcs@[i]).nextstate == t {
                let i = choose|i: int| 0 <= i < arcs@.len() && (#[trigger] arcs@[i]).nextstate == t;
                assert(spread_arcs(v, input, keys@, s as int)[i].nextstate == t);
            }
            if entered_from(v, input, keys@, s + 1, t) {
                let (x, i) = choose|x: int, i: int|
                    0 <= x < s + 1 && 0 <= i < spread_arcs(v, input, keys@, x).len() && (
                    #[trigger] spread_arcs(v, input, keys@, x)[i]).nextstate == t;
                if x == s {
                    assert(arcs@[i].nextstate == t);
                } else {
                    assert(entered_from(v, input, keys@, s as int, t));
                }
            }
        }
        out.set_arcs(s, arcs);
        s += 1;
    }
    let mut open: Vec<Arc<W>> = Vec::new();
    let mut t: usize = 0;
    while t < start
        invariant
            v == fst@,
            n == v.n(),
            start == n + keys@.len() < total,
            t <= start,
            entered@.len() == total,
            forall|t: int|
                0 <= t < total ==> (#[trigger] entered@[t] <==> entered_from(
                    v,
                    input,
                    keys@,
                    n as int,
                    t,
                )),
            open@ == opening_arcs(v, input, keys@, t as int),
            forall|i: int| 0 <= i < open@.len() ==> (#[trigger] open@[i]).nextstate < t,
        decreases start - t,
    {
        if !entered[t] {
            let one = W::one();
            open.push(Arc::new(EPSILON, EPSILON, one, t));
        }
        t += 1;
    }
    out.set_arcs(start, open);
    assert(out@.states =~= transformed_states(v, input, keys@));
    assert(out@.wf()) by {
        assert forall|s: int, i: int|
            0 <= s < out@.n() && 0 <= i < out@.states[s].arcs.len() implies (
        #[trigger] out@.states[s].arcs[i]).nextstate < out@.n() by {
            assert(out@.states[s] == transformed_states(v, input, keys@)[s]);
            if s < n {
                assert(spread_arcs(v, input, keys@, s)[i].nextstate < start);
            }
        }
    }
    (out, keys)
}

/// Which states `s` reaches.
fn states_from<W: Weight>(fst: &VectorFst<W>, s: usize) -> (flags: Vec<bool>)
    requires
        fst@.wf(),
        s < fst@.n(),
    ensures
        flags@.len() == fst@.n(),
        forall|t: int|
            0 <= t < fst@.n() ==> (#[trigger] flags@[t] <==> reach(full_graph(fst@), s as int, t)),
{
    let ghost v = fst@;
    let ghost g = full_graph(v);
    let n: usize = fst.num_states();
    let mut flags: Vec<bool> = Vec::new();
    let mut t: usize = 0;
    while t < n
        invariant
            t <= n,
            flags@.len() == t,
            forall|j: int| 0 <= j < t ==> !(#[trigger] flags@[j]),
        decreases n - t,
    {
        flags.push(false);
        t += 1;
    }
    flags.set(s, true);
    let mut open: Vec<usize> = Vec::new();
    open.push(s);
    proof {
        lemma_reach_refl(g, s as int);
        lemma_rank_bound(flags@, n as int);
        assert(open@[0] == s);
    }
    while open.len() > 0
        invariant
            v == fst@,
            v.wf(),
            g == full_graph(v),
            n == v.n(),
            flags@.len() == n,
            s < n,
            flags@[s as int],
            rank(flags@, n as int) <= n,
            forall|t: int|
                0 <= t < n && #[trigger] flags@[t] ==> reach(g, s as int, t),
            forall|i: int| 0 <= i < open@.len() ==> (#[trigger] open@[i]) < n && flags@[open@[i] as int],
            forall|x: int|
                0 <= x < n && #[trigger] flags@[x] && !open@.contains(x as usize) ==> followed(
                    v,
                    flags@,
                    x,
                    v.arcs(x).len() as int,
                ),
        decreases n - rank(flags@, n as int), open@.len(),
    {
        let ghost waiting = open@;
        let ghost seen = flags@;
        let x: usize = match open.pop() {
            Some(x) => x,
            None => s,
        };
        assert(x == waiting.last());
        let ghost rest = open@;
        assert forall|y: usize| waiting.contains(y) && y != x implies #[trigger] rest.contains(y) by {
            let i = choose|i: int| 0 <= i < waiting.len() && waiting[i] == y;
            assert(rest[i] == y);
        }
        let arcs = fst.arcs(x);
        let mut i: usize = 0;
        while i < arcs.len()
            invariant
                v == fst@,
                v.wf(),
                g == full_graph(v),
                n == v.n(),
                flags@.len() == n,
                x < n,
                s < n,
                flags@[s as int],
                arcs@ == v.arcs(x as int),
                i <= arcs@.len(),
                reach(g, s as int, x as int),
                rank(flags@, n as int) <= n,
                rank(seen, n as int) <= rank(flags@, n as int),
                rank(seen, n as int) == rank(flags@, n as int) ==> open@ == rest,
                forall|t: int|
                    0 <= t < n && #[trigger] flags@[t] ==> reach(g, s as int, t),
                forall|i: int|
                    0 <= i < open@.len() ==> (#[trigger] open@[i]) < n && flags@[open@[i] as int],
                followed(v, flags@, x as int, i as int),
                forall|y: int|
                    0 <= y < n && #[trigger] flags@[y] && y != x && !open@.contains(y as usize)
                        ==> followed(v, flags@, y, v.arcs(y).len() as int),
            decreases arcs@.len() - i,
        {
            let next: usize = arcs[i].nextstate;
            assert(v.states[x as int].arcs[i as int].nextstate < v.n());
            if !flags[next] {
                let ghost before = flags@;
                let ghost queue = open@;
                flags.set(next, true);
                open.push(next);
                proof {
                    assert(v.arcs(x as int)[i as int].nextstate == next);
                    assert(g(x as int, next as int));
                    lemma_reach_on(g, s as int, x as int, next as int);
                    lemma_rank_set(before, next as int, n as int);
                    lemma_rank_bound(flags@, n as int);
                    assert(open@[queue.len() as int] == next);
                    assert forall|y: int|
                        0 <= y < n && #[trigger] flags@[y] && y != x && !open@.contains(
                            y as usize,
                        ) implies followed(v, flags@, y, v.arcs(y).len() as int) by {
                        assert(y != next);
                        assert(before[y]);
                        if queue.contains(y as usize) {
                            let j = choose|j: int| 0 <= j < queue.len() && queue[j] == y as usize;
                            assert(open@[j] == y as usize);
                        }
                        assert(followed(v, before, y, v.arcs(y).len() as int));
                    }
                }
            }
            i += 1;
        }
    }
    proof {
        assert forall|t: int| 0 <= t < n implies (#[trigger] flags@[t] <==> reach(g, s as int, t)) by {
            if reach(g, s as int, t) {
                let inside = |y: int| 0 <= y < n && flags@[y];
                assert forall|x: int, y: int| inside(x) && #[trigger] g(x, y) implies inside(y) by {
                    assert(has_arc(v, any_arc(), x, y));
                    let i = choose|i: int|
                        0 <= i < v.arcs(x).len() && (#[trigger] v.arcs(x)[i]).nextstate == y
                            && any_arc()(v.arcs(x)[i]);
                    assert(flags@[x]);
                    assert(open@.len() == 0);
                    assert(!open@.contains(x as usize));
                    assert(followed(v, flags@, x, v.arcs(x).len() as int));
                    assert(v.states[x].arcs[i].nextstate < v.n());
                }
                lemma_closed(g, inside, s as int, t);
            }
        }
    }
    flags
}

/// Whether the first `k` arcs of `x` lead to states with their flag set.
spec fn followed<W: Weight>(v: FstV<W>, flags: Seq<bool>, x: int, k: int) -> bool {
    forall|i: int| 0 <= i < k ==> flags[(#[trigger] v.arcs(x)[i]).nextstate as int]
}

/// One step further is still reached.
proof fn lemma_reach_on(g: Graph, s: int, m: int, t: int)
    requires
        reach(g, s, m),
        g(m, t),
    ensures
        reach(g, s, t),
{
    lemma_reach_edge(g, m, t);
    lemma_reach_trans(g, s, m, t);
}

/// No more flags are set than there are.
proof fn lemma_rank_bound(flags: Seq<bool>, n: int)
    requires
        0 <= n <= flags.len(),
    ensures
        rank(flags, n) <= n,
    decreases n,
{
    if n > 0 {
        lemma_rank_bound(flags, n - 1);
    }
}

/// Setting a flag that was not set makes one more.
proof fn lemma_rank_set(flags: Seq<bool>, i: int, n: int)
    requires
        0 <= n <= flags.len(),
        0 <= i < flags.len(),
        !flags[i],
    ensures
        rank(flags.update(i, true), n) == rank(flags, n) + (if i < n {
            1nat
        } else {
            0nat
        }),
    decreases n,
{
    if n > 0 {
        lemma_rank_set(flags, i, n - 1);
    }
}

/// A walk in the transformed machine that ends at the state for a label is a walk
/// without labels in the machine, to a state that shows the label.
proof fn lemma_walk_back<W: Weight>(
    v: FstV<W>,
    input: bool,
    keys: Seq<i32>,
    out: FstV<W>,
    s: int,
    k: int,
    steps: nat,
)
    requires
        v.wf(),
        keys == reach_keys(v, input),
        out.states == transformed_states(v, input, keys),
        v.n() + keys.len() < usize::MAX,
        0 <= s < v.n(),
        0 <= k < keys.len(),
        reach_in(full_graph(out), s, v.n() + k, steps),
    ensures
        can_show(v, input, s, keys[k]),
    decreases steps,
{
    let g = full_graph(out);
    let quiet = quiet_graph(v, input);
    lemma_noted_states(v, input, v.n() as int);
    assert(steps > 0);
    let m = choose|m: int| #[trigger]
        g(s, m) && reach_in(g, m, v.n() + k, (steps - 1) as nat);
    assert(has_arc(out, any_arc(), s, m));
    let i = choose|i: int|
        0 <= i < out.arcs(s).len() && (#[trigger] out.arcs(s)[i]).nextstate == m && any_arc()(
            out.arcs(s)[i],
        );
    let arcs = spread_arcs(v, input, keys, s);
    assert(out.arcs(s) == arcs);
    if i < v.arcs(s).len() && side_label(v.arcs(s)[i], !input) == EPSILON {
        assert(arcs[i] == v.arcs(s)[i]);
        assert(v.states[s].arcs[i].nextstate < v.n());
        lemma_walk_back(v, input, keys, out, m, k, (steps - 1) as nat);
        let t = choose|t: int|
            0 <= t < v.n() && #[trigger] reach(quiet, m, t) && shows(v, input, t, keys[k]);
        assert(has_arc(v, quiet_arcs(input), s, m)) by {
            assert(v.arcs(s)[i].nextstate == m);
        }
        lemma_reach_step(quiet, s, m, t);
        assert(reach(quiet, s, t));
    } else {
        // The arc leads to a state that stands for a label, which has no arcs.
        let key = if i < v.arcs(s).len() {
            side_label(v.arcs(s)[i], !input)
        } else {
            FINAL_LABEL
        };
        if i < v.arcs(s).len() {
            assert(arcs[i] == led_to_label(v.arcs(s)[i], input, v.n(), keys));
            assert(shows(v, input, s, key));
        } else {
            assert(finishes(v, s));
            assert(shows(v, input, s, key));
        }
        assert(keys.contains(key));
        let at = keys.index_of(key);
        assert(0 <= at < keys.len() && keys[at] == key) by {
            let j = choose|j: int| 0 <= j < keys.len() && keys[j] == key;
            assert(keys[j] == key);
        }
        assert(m == v.n() + at);
        if steps > 1 {
            let x = choose|x: int| #[trigger]
                g(m, x) && reach_in(g, x, v.n() + k, (steps - 2) as nat);
            assert(has_arc(out, any_arc(), m, x));
            assert(out.arcs(m).len() == 0);
            assert(false);
        }
        assert(m == v.n() + k);
        lemma_reach_refl(quiet, s);
        assert(reach(quiet, s, s));
    }
}

/// A walk without labels in the machine is one in the transformed machine.
proof fn lemma_walk_on<W: Weight>(
    v: FstV<W>,
    input: bool,
    keys: Seq<i32>,
    out: FstV<W>,
    s: int,
    t: int,
    steps: nat,
)
    requires
        v.wf(),
        out.states == transformed_states(v, input, keys),
        0 <= s < v.n(),
        reach_in(quiet_graph(v, input), s, t, steps),
    ensures
        reach(full_graph(out), s, t),
    decreases steps,
{
    let g = full_graph(out);
    let quiet = quiet_graph(v, input);
    if steps == 0 {
        lemma_reach_refl(g, s);
    } else {
        let m = choose|m: int| #[trigger] quiet(s, m) && reach_in(quiet, m, t, (steps - 1) as nat);
        assert(has_arc(v, quiet_arcs(input), s, m));
        let i = choose|i: int|
            0 <= i < v.arcs(s).len() && (#[trigger] v.arcs(s)[i]).nextstate == m && quiet_arcs(
                input,
            )(v.arcs(s)[i]);
        assert(v.states[s].arcs[i].nextstate < v.n());
        lemma_walk_on(v, input, keys, out, m, t, (steps - 1) as nat);
        let arcs = spread_arcs(v, input, keys, s);
        assert(arcs[i] == v.arcs(s)[i]);
        assert(out.arcs(s)[i].nextstate == m);
        assert(has_arc(out, any_arc(), s, m));
        lemma_reach_step(g, s, m, t);
    }
}

/// A state reaches the state that stands for a label exactly when a path from it can
/// start with the label.
pub proof fn law_label_states_are_reached_by_what_shows_the_label<W: Weight>(
    v: FstV<W>,
    input: bool,
    out: FstV<W>,
    s: int,
    k: int,
)
    requires
        v.wf(),
        out.states == transformed_states(v, input, reach_keys(v, input)),
        v.n() + reach_keys(v, input).len() < usize::MAX,
        0 <= s < v.n(),
        0 <= k < reach_keys(v, input).len(),
    ensures
        reach(full_graph(out), s, v.n() + k) <==> can_show(v, input, s, reach_keys(v, input)[k]),
{
    let keys = reach_keys(v, input);
    let g = full_graph(out);
    let quiet = quiet_graph(v, input);
    lemma_noted_states(v, input, v.n() as int);
    if reach(g, s, v.n() + k) {
        let target = v.n() + k;
        let steps = choose|steps: nat| reach_in(g, s, target, steps);
        lemma_walk_back(v, input, keys, out, s, k, steps);
    }
    if can_show(v, input, s, keys[k]) {
        let key = keys[k];
        let t = choose|t: int|
            0 <= t < v.n() && #[trigger] reach(quiet, s, t) && shows(v, input, t, key);
        let steps = choose|steps: nat| reach_in(quiet, s, t, steps);
        lemma_walk_on(v, input, keys, out, s, t, steps);
        let arcs = spread_arcs(v, input, keys, t);
        let at = keys.index_of(key);
        assert(at == k) by {
            assert(keys[k] == key);
        }
        let i = if exists|i: int|
            0 <= i < v.arcs(t).len() && side_label(#[trigger] v.arcs(t)[i], !input) == key {
            choose|i: int|
                0 <= i < v.arcs(t).len() && side_label(#[trigger] v.arcs(t)[i], !input) == key
        } else {
            v.arcs(t).len() as int
        };
        lemma_keys_are_labels(v, input, v.n() as int, k);
        if i < v.arcs(t).len() {
            assert(arcs[i] == led_to_label(v.arcs(t)[i], input, v.n(), keys));
        }
        assert(out.arcs(t)[i].nextstate == v.n() + k);
        assert(has_arc(out, any_arc(), t, v.n() + k));
        lemma_reach_on(g, s, t, v.n() + k);
    }
}

/// Epsilon is never among the labels that can be asked about.
proof fn lemma_keys_are_labels<W: Weight>(v: FstV<W>, input: bool, k: int, i: int)
    requires
        0 <= k <= v.n(),
        0 <= i < noted_states(v, input, k).len(),
    ensures
        noted_states(v, input, k)[i] != EPSILON,
    decreases k,
{
    if k > 0 {
        let keys = noted_states(v, input, k - 1);
        let arcs = v.arcs(k - 1);
        assert forall|j: int| 0 <= j < keys.len() implies #[trigger] keys[j] != EPSILON by {
            lemma_keys_are_labels(v, input, k - 1, j);
        }
        lemma_arc_keys_are_labels(arcs, input, keys, arcs.len() as int);
    }
}

/// The labels on arcs add no epsilon.
proof fn lemma_arc_keys_are_labels<W>(arcs: Seq<Arc<W>>, input: bool, keys: Seq<i32>, k: int)
    requires
        forall|j: int| 0 <= j < keys.len() ==> #[trigger] keys[j] != EPSILON,
        0 <= k <= arcs.len(),
    ensures
        forall|j: int|
            0 <= j < noted_arcs(arcs, input, keys, k).len() ==> #[trigger] noted_arcs(
                arcs,
                input,
                keys,
                k,
            )[j] != EPSILON,
    decreases k,
{
    if k > 0 {
        lemma_arc_keys_are_labels(arcs, input, keys, k - 1);
        let before = noted_arcs(arcs, input, keys, k - 1);
        let after = noted_arcs(arcs, input, keys, k);
        assert forall|j: int| 0 <= j < after.len() implies #[trigger] after[j] != EPSILON by {
            if j < before.len() {
                assert(after[j] == before[j]);
            }
        }
    }
}

/// Which labels each state of a machine can still reach.
pub struct LabelReachableData {
    reach_input: bool,
    labels: Table<i32>,
    indices: Vec<usize>,
    final_index: Option<usize>,
    interval_sets: Vec<IntervalSet>,
}

/// What a table of reachable labels says.
pub struct ReachV {
    /// Whether the labels read are meant, rather than those written.
    pub reach_input: bool,
    /// The labels that have a number.
    pub labels: Seq<i32>,
    /// The number of each.
    pub indices: Seq<usize>,
    /// The number that stands for a path ending.
    pub final_index: Option<usize>,
    /// The numbers that each state reaches.
    pub sets: Seq<Set<int>>,
}

impl ReachV {
    /// The number of `label`, if it has one.
    pub open spec fn index_of(self, label: i32) -> Option<usize> {
        if self.labels.contains(label) {
            Some(self.indices[self.labels.index_of(label)])
        } else {
            None
        }
    }

    /// Whether `state` reaches the label with the number `index`, of which zero is
    /// none.
    pub open spec fn reaches(self, state: Option<usize>, index: usize) -> bool {
        &&& index != 0
        &&& state matches Some(s) && s < self.sets.len() && self.sets[s as int].contains(
            index as int,
        )
    }

    /// Whether `state` reaches `label`.
    pub open spec fn reaches_label(self, state: Option<usize>, label: i32) -> bool {
        self.index_of(label) matches Some(index) && self.reaches(state, index)
    }

    /// Whether `state` reaches the end of a path.
    pub open spec fn reaches_final(self, state: Option<usize>) -> bool {
        self.final_index matches Some(index) && state matches Some(s) && s < self.sets.len()
            && self.sets[s as int].contains(index as int)
    }

    /// Whether this says of the machine which labels its states can show.
    pub open spec fn describes<W: Weight>(self, v: FstV<W>) -> bool {
        &&& self.sets.len() == v.n()
        &&& self.labels == reach_keys(v, self.reach_input)
        &&& self.indices.len() == self.labels.len()
        &&& forall|k: int|
            0 <= k < self.labels.len() ==> #[trigger] self.indices[k] == k + 1
        &&& self.final_index == self.index_of(FINAL_LABEL)
        &&& forall|s: int, i: int|
            0 <= s < v.n() ==> (#[trigger] self.sets[s].contains(i) <==> 1 <= i
                <= self.labels.len() && can_show(v, self.reach_input, s, self.labels[i - 1]))
    }
}

impl View for LabelReachableData {
    type V = ReachV;

    closed spec fn view(&self) -> ReachV {
        ReachV {
            reach_input: self.reach_input,
            labels: self.labels@,
            indices: self.indices@,
            final_index: self.final_index,
            sets: Seq::new(
                self.interval_sets@.len(),
                |s: int| Set::new(|i: int| held(self.interval_sets@[s]@, i)),
            ),
        }
    }
}

impl LabelReachableData {
    /// Whether every label that is numbered has its number.
    pub closed spec fn wf(&self) -> bool {
        self.labels.wf() && self.labels@.len() == self.indices@.len()
    }

    /// Whether the labels read are meant, rather than those written.
    pub fn reach_input(&self) -> (b: bool)
        ensures
            b == self@.reach_input,
    {
        self.reach_input
    }

    /// The number of `label`, if it has one.
    pub fn index_of(&self, label: i32) -> (index: Option<usize>)
        requires
            self.wf(),
        ensures
            index == self@.index_of(label),
    {
        let found = self.labels.find(&label);
        match found {
            Some(i) => {
                proof {
                    self.labels.lemma_distinct();
                    assert(self.labels@.contains(self.labels@[i as int]));
                    let at = self.labels@.index_of(label);
                    assert(0 <= at < self.labels@.len() && self.labels@[at] == label);
                    assert(at == i);
                }
                Some(self.indices[i])
            },
            None => None,
        }
    }

    /// The number that stands for a path ending, if there is one.
    pub fn final_index(&self) -> (index: Option<usize>)
        ensures
            index == self@.final_index,
    {
        self.final_index
    }

    /// The numbers that `state` reaches.
    pub fn interval_set(&self, state: usize) -> (set: Option<&IntervalSet>)
        ensures
            set is Some <==> state < self@.sets.len(),
            set matches Some(set) ==> forall|i: int| #[trigger]
                held(set@, i) <==> self@.sets[state as int].contains(i),
    {
        if state < self.interval_sets.len() {
            Some(&self.interval_sets[state])
        } else {
            None
        }
    }

    /// Puts a table together from its parts.
    pub fn from_parts(
        reach_input: bool,
        labels: Table<i32>,
        indices: Vec<usize>,
        final_index: Option<usize>,
        interval_sets: Vec<IntervalSet>,
    ) -> (data: Self)
        requires
            labels.wf(),
            labels@.len() == indices@.len(),
        ensures
            data.wf(),
            data@.reach_input == reach_input,
            data@.labels == labels@,
            data@.indices == indices@,
            data@.final_index == final_index,
            data@.sets.len() == interval_sets@.len(),
            forall|s: int, i: int|
                0 <= s < interval_sets@.len() ==> (#[trigger] data@.sets[s].contains(i) <==> held(
                    interval_sets@[s]@,
                    i,
                )),
    {
        LabelReachableData { reach_input, labels, indices, final_index, interval_sets }
    }

    /// The labels that have a number, each with it.
    pub fn label_indices(&self) -> (pairs: Vec<(i32, usize)>)
        requires
            self.wf(),
        ensures
            pairs@.len() == self@.labels.len(),
            forall|k: int|
                0 <= k < pairs@.len() ==> #[trigger] pairs@[k] == (
                    self@.labels[k],
                    self@.indices[k],
                ),
    {
        let mut pairs: Vec<(i32, usize)> = Vec::new();
        let mut k: usize = 0;
        while k < self.indices.len()
            invariant
                self.wf(),
                k <= self.indices@.len(),
                pairs@.len() == k,
                forall|j: int|
                    0 <= j < k ==> #[trigger] pairs@[j] == (self@.labels[j], self@.indices[j]),
            decreases self.indices@.len() - k,
        {
            pairs.push((*self.labels.get(k), self.indices[k]));
            k += 1;
        }
        pairs
    }

    /// How many labels have a number.
    pub fn num_labels(&self) -> (n: usize)
        ensures
            n == self@.labels.len(),
    {
        self.labels.len()
    }

    /// The numbers that each state reaches.
    pub fn interval_sets(&self) -> (sets: &Vec<IntervalSet>)
        ensures
            sets@.len() == self@.sets.len(),
            forall|s: int, i: int|
                0 <= s < sets@.len() ==> (#[trigger] held(sets@[s]@, i) <==> self@.sets[s].contains(
                    i,
                )),
    {
        &self.interval_sets
    }

    /// How many states there are.
    pub fn len(&self) -> (n: usize)
        ensures
            n == self@.sets.len(),
    {
        self.interval_sets.len()
    }

    /// Whether there are no states.
    pub fn is_empty(&self) -> (b: bool)
        ensures
            b <==> self@.sets.len() == 0,
    {
        self.interval_sets.len() == 0
    }

    /// Whether `state` reaches the label with the number `index`.
    fn reaches(&self, state: Option<usize>, index: usize) -> (b: bool)
        ensures
            b == self@.reaches(state, index),
    {
        if index == 0 {
            return false;
        }
        match state {
            Some(s) => s < self.interval_sets.len() && self.interval_sets[s].member(index),
            None => false,
        }
    }

    /// Whether `state` reaches `label`.
    pub fn reaches_label(&self, state: Option<usize>, label: i32) -> (b: bool)
        requires
            self.wf(),
        ensures
            b == self@.reaches_label(state, label),
    {
        match self.index_of(label) {
            Some(index) => self.reaches(state, index),
            None => false,
        }
    }

    /// Whether `state` reaches the end of a path.
    pub fn reaches_final(&self, state: Option<usize>) -> (b: bool)
        ensures
            b == self@.reaches_final(state),
    {
        match (self.final_index, state) {
            (Some(index), Some(s)) => s < self.interval_sets.len() && self.interval_sets[s].member(
                index,
            ),
            _ => false,
        }
    }

    /// Finds out which labels each state of `fst` can still reach.
    pub fn new<W: Weight>(fst: &VectorFst<W>, reach_input: bool) -> (data: Self)
        requires
            fst@.wf(),
        ensures
            data.wf(),
            data@.reach_input == reach_input,
            data@.describes(fst@),
    {
        let ghost v = fst@;
        let n: usize = fst.num_states();
        let (transformed, labels) = transform(fst, reach_input);
        let total: usize = transformed.num_states();
        let count: usize = labels.len();
        let ghost keys = labels@;
        proof {
            labels.lemma_distinct();
        }
        let mut indices: Vec<usize> = Vec::new();
        let mut k: usize = 0;
        while k < count
            invariant
                k <= count < usize::MAX,
                indices@.len() == k,
                forall|j: int| 0 <= j < k ==> #[trigger] indices@[j] == j + 1,
            decreases count - k,
        {
            indices.push(k + 1);
            k += 1;
        }
        let final_index: Option<usize> = match labels.find(&FINAL_LABEL) {
            Some(i) => {
                proof {
                    assert(keys.contains(keys[i as int]));
                    assert(keys.index_of(FINAL_LABEL) == i);
                }
                Some(i + 1)
            },
            None => None,
        };
        let mut interval_sets: Vec<IntervalSet> = Vec::new();
        let mut s: usize = 0;
        while s < n
            invariant
                v == fst@,
                v.wf(),
                n == v.n(),
                s <= n,
                transformed@.wf(),
                transformed@.states == transformed_states(v, reach_input, keys),
                keys == reach_keys(v, reach_input),
                keys.len() == count,
                total == transformed@.n() == n + count + 1,
                interval_sets@.len() == s,
                forall|t: int, i: int|
                    0 <= t < s ==> (#[trigger] held(interval_sets@[t]@, i) <==> 1 <= i <= count
                        && can_show(v, reach_input, t, keys[i - 1])),
            decreases n - s,
        {
            let flags = states_from(&transformed, s);
            let mut shown: Vec<bool> = Vec::new();
            let mut k: usize = 0;
            while k < count
                invariant
                    k <= count,
                    n == v.n(),
                    n + count < total == transformed@.n(),
                    flags@.len() == total,
                    forall|t: int|
                        0 <= t < total ==> (#[trigger] flags@[t] <==> reach(
                            full_graph(transformed@),
                            s as int,
                            t,
                        )),
                    shown@.len() == k,
                    forall|j: int|
                        0 <= j < k ==> (#[trigger] shown@[j] <==> reach(
                            full_graph(transformed@),
                            s as int,
                            n + j,
                        )),
                decreases count - k,
            {
                shown.push(flags[n + k]);
                k += 1;
            }
            let set = IntervalSet::from_flags(&shown);
            assert forall|i: int| #[trigger] held(set@, i) <==> 1 <= i <= count && can_show(
                v,
                reach_input,
                s as int,
                keys[i - 1],
            ) by {
                if 1 <= i <= count {
                    law_label_states_are_reached_by_what_shows_the_label(
                        v,
                        reach_input,
                        transformed@,
                        s as int,
                        i - 1,
                    );
                    assert(shown@[i - 1] <==> reach(full_graph(transformed@), s as int, n + (i - 1)));
                }
            }
            interval_sets.push(set);
            s += 1;
        }
        LabelReachableData { reach_input, labels, indices, final_index, interval_sets }
    }
}

/// Whether the arc at place `i` carries a label that `state` reaches.
pub open spec fn hits<W>(r: ReachV, state: Option<usize>, arcs: Seq<Arc<W>>, input: bool, i: int) -> bool {
    r.reaches_label(state, side_label(arcs[i], !input))
}

/// Whether the arcs from `begin` up to `end` that carry a label which `state`
/// reaches are spanned by `found`.
pub open spec fn spans_hits<W>(
    r: ReachV,
    state: Option<usize>,
    arcs: Seq<Arc<W>>,
    input: bool,
    begin: int,
    end: int,
    found: Option<(usize, usize)>,
) -> bool {
    match found {
        Some((first, last)) => {
            &&& begin <= first < last <= end
            &&& hits(r, state, arcs, input, first as int)
            &&& hits(r, state, arcs, input, last - 1)
            &&& forall|i: int|
                begin <= i < end && #[trigger] hits(r, state, arcs, input, i) ==> first <= i < last
        },
        None => forall|i: int| begin <= i < end ==> !(#[trigger] hits(r, state, arcs, input, i)),
    }
}

/// The arcs from `begin` up to `end` that carry a label which `state` reaches: the
/// first of them, and one past the last.
pub open spec fn hit_span<W>(
    r: ReachV,
    state: Option<usize>,
    arcs: Seq<Arc<W>>,
    input: bool,
    begin: int,
    end: int,
) -> Option<(usize, usize)>
    decreases end - begin,
{
    if end <= begin {
        None
    } else {
        let before = hit_span(r, state, arcs, input, begin, end - 1);
        if hits(r, state, arcs, input, end - 1) {
            match before {
                Some((first, _)) => Some((first, end as usize)),
                None => Some(((end - 1) as usize, end as usize)),
            }
        } else {
            before
        }
    }
}

/// What the arcs from `begin` up to `end` that carry a label which `state` reaches
/// weigh together.
pub open spec fn hit_sum<W: Weight>(
    adder: spec_fn(W, W) -> W,
    r: ReachV,
    state: Option<usize>,
    arcs: Seq<Arc<W>>,
    input: bool,
    begin: int,
    end: int,
) -> W
    decreases end - begin,
{
    if end <= begin {
        W::spec_zero()
    } else {
        let before = hit_sum(adder, r, state, arcs, input, begin, end - 1);
        if hits(r, state, arcs, input, end - 1) {
            adder(before, arcs[end - 1].weight)
        } else {
            before
        }
    }
}

impl LabelReachableData {
    /// The arcs from `begin` up to `end` that carry a label which `state` reaches:
    /// the first of them, and one past the last.
    pub fn find_hits<W: Weight>(
        &self,
        state: Option<usize>,
        arcs: &Vec<Arc<W>>,
        input: bool,
        begin: usize,
        end: usize,
    ) -> (found: Option<(usize, usize)>)
        requires
            self.wf(),
        ensures
            found == hit_span(
                self@,
                state,
                arcs@,
                input,
                begin as int,
                range_end(arcs@, end as int),
            ),
            spans_hits(
                self@,
                state,
                arcs@,
                input,
                begin as int,
                range_end(arcs@, end as int),
                found,
            ),
    {
        let last: usize = if end <= arcs.len() {
            end
        } else {
            arcs.len()
        };
        let mut found: Option<(usize, usize)> = None;
        let mut i: usize = begin;
        while i < last
            invariant
                self.wf(),
                begin <= i,
                i <= last || i == begin,
                last <= arcs@.len(),
                found == hit_span(self@, state, arcs@, input, begin as int, i as int),
                spans_hits(self@, state, arcs@, input, begin as int, i as int, found),
            decreases last - i,
        {
            let label: i32 = label_on(&arcs[i], !input);
            if self.reaches_label(state, label) {
                found = match found {
                    None => Some((i, i + 1)),
                    Some((first, _)) => Some((first, i + 1)),
                };
            }
            i += 1;
        }
        found
    }

    /// What the arcs from `begin` up to `end` that carry a label which `state`
    /// reaches weigh together.
    pub fn weigh_hits<W: Weight, Acc: WeightAccumulator<W>>(
        &self,
        accumulator: &Acc,
        state: Option<usize>,
        arcs: &Vec<Arc<W>>,
        input: bool,
        begin: usize,
        end: usize,
    ) -> (weight: W)
        requires
            self.wf(),
            end <= arcs@.len(),
        ensures
            weight == hit_sum(
                accumulator.adder(),
                self@,
                state,
                arcs@,
                input,
                begin as int,
                end as int,
            ),
    {
        let mut weight = W::zero();
        let mut i: usize = begin;
        while i < end
            invariant
                self.wf(),
                begin <= i,
                i <= end || i == begin,
                end <= arcs@.len(),
                weight == hit_sum(
                    accumulator.adder(),
                    self@,
                    state,
                    arcs@,
                    input,
                    begin as int,
                    i as int,
                ),
            decreases end - i,
        {
            let label: i32 = label_on(&arcs[i], !input);
            if self.reaches_label(state, label) {
                weight = accumulator.sum(&weight, &arcs[i].weight);
            }
            i += 1;
        }
        weight
    }
}

/// Answers, state by state, which labels can still be reached.
pub struct LabelReachable<W, Acc> {
    data: Rc<LabelReachableData>,
    state: Option<usize>,
    accumulator: Acc,
    reach_fst_input: bool,
    reach_begin: Option<usize>,
    reach_end: Option<usize>,
    reach_weight: W,
}

impl<W: Weight, Acc: WeightAccumulator<W>> LabelReachable<W, Acc> {
    /// The table that answers are read from.
    pub closed spec fn table(&self) -> LabelReachableData {
        *self.data
    }

    /// The state that is asked about.
    pub closed spec fn place(&self) -> Option<usize> {
        self.state
    }

    /// Sums weights.
    pub closed spec fn acc(&self) -> Acc {
        self.accumulator
    }

    /// Whether the labels that the other machine reads are looked at.
    pub closed spec fn side(&self) -> bool {
        self.reach_fst_input
    }

    /// The arcs that the last range was found to hold.
    pub closed spec fn found(&self) -> (Option<usize>, Option<usize>) {
        (self.reach_begin, self.reach_end)
    }

    /// What they weigh together.
    pub closed spec fn found_weight(&self) -> W {
        self.reach_weight
    }

    /// Finds out which labels each state of `fst` can still reach.
    pub fn with_accumulator(fst: &VectorFst<W>, reach_input: bool, accumulator: Acc) -> (reachable:
        Self)
        requires
            fst@.wf(),
        ensures
            reachable.table().wf(),
            reachable.table()@.reach_input == reach_input,
            reachable.table()@.describes(fst@),
            reachable.place() is None,
            reachable.acc() == accumulator,
    {
        let data = LabelReachableData::new(fst, reach_input);
        Self::from_data(Rc::new(data), accumulator)
    }

    /// Answers from a table that is there already.
    pub fn from_data(data: Rc<LabelReachableData>, accumulator: Acc) -> (reachable: Self)
        ensures
            reachable.table() == *data,
            reachable.place() is None,
            reachable.acc() == accumulator,
            !reachable.side(),
            reachable.found() == (None::<usize>, None::<usize>),
            reachable.found_weight() == W::spec_zero(),
    {
        LabelReachable {
            data,
            state: None,
            accumulator,
            reach_fst_input: false,
            reach_begin: None,
            reach_end: None,
            reach_weight: W::zero(),
        }
    }

    /// The table, which several can share.
    pub fn data(&self) -> (data: &Rc<LabelReachableData>)
        ensures
            **data == self.table(),
    {
        &self.data
    }

    /// What sums weights.
    pub fn accumulator(&self) -> (accumulator: &Acc)
        ensures
            *accumulator == self.acc(),
    {
        &self.accumulator
    }

    /// Says which state is asked about.
    pub fn set_state(&mut self, state: usize)
        ensures
            final(self).table() == old(self).table(),
            final(self).place() == Some(state),
            final(self).acc() == old(self).acc(),
            final(self).side() == old(self).side(),
            final(self).found() == old(self).found(),
            final(self).found_weight() == old(self).found_weight(),
    {
        self.state = Some(state);
    }

    /// The number of `label`, if it has one.
    pub fn relabel(&self, label: i32) -> (index: Option<usize>)
        requires
            self.table().wf(),
        ensures
            index == self.table()@.index_of(label),
    {
        self.data.index_of(label)
    }

    /// Whether the label with the number `index` can still be reached.
    pub fn reach(&self, index: usize) -> (b: bool)
        ensures
            b == self.table()@.reaches(self.place(), index),
    {
        self.data.reaches(self.state, index)
    }

    /// Whether a path can still end.
    pub fn reach_final(&self) -> (b: bool)
        ensures
            b == self.table()@.reaches_final(self.place()),
    {
        self.data.reaches_final(self.state)
    }

    /// Prepares for questions about the arcs of `fst`, which has to be sorted on the
    /// side that is read.
    pub fn reach_init(&mut self, fst: &VectorFst<W>, reach_input: bool) -> (result: Result<
        (),
        OpenFstError,
    >)
        ensures
            !said_sorted(fst@, !reach_input) ==> result == Err::<(), OpenFstError>(
                OpenFstError::InvalidOperation(
                    "LabelReachable: the FST looked ahead over is not sorted on the side being read",
                ),
            ),
            said_sorted(fst@, !reach_input) ==> (result is Ok <==> old(self).acc().takes(fst@)),
            final(self).table() == old(self).table(),
            final(self).place() == old(self).place(),
            final(self).acc().adder() == old(self).acc().adder(),
            final(self).side() == reach_input,
            final(self).found() == old(self).found(),
            final(self).found_weight() == old(self).found_weight(),
    {
        self.reach_fst_input = reach_input;
        if !sorted_by(fst, !reach_input) {
            return Err(
                OpenFstError::InvalidOperation(
                    "LabelReachable: the FST looked ahead over is not sorted on the side being read",
                ),
            );
        }
        self.accumulator.init(fst)
    }

    /// Whether one of the arcs from `begin` up to `end` carries a label that can
    /// still be reached. The first and the last of them, and what they all weigh
    /// together if that is asked for, can be read off afterwards.
    pub fn reach_range(
        &mut self,
        arcs: &Vec<Arc<W>>,
        begin: usize,
        end: usize,
        compute_weight: bool,
    ) -> (any: bool)
        requires
            old(self).table().wf(),
        ensures
            final(self).table() == old(self).table(),
            final(self).place() == old(self).place(),
            final(self).acc().adder() == old(self).acc().adder(),
            final(self).side() == old(self).side(),
            any <==> exists|i: int|
                begin <= i < range_end(arcs@, end as int) && #[trigger] hits(
                    old(self).table()@,
                    old(self).place(),
                    arcs@,
                    old(self).side(),
                    i,
                ),
            !any ==> final(self).found() == (None::<usize>, None::<usize>)
                && final(self).found_weight() == W::spec_zero(),
            any ==> {
                &&& final(self).found().0 is Some && final(self).found().1 is Some
                &&& spans_hits(
                    old(self).table()@,
                    old(self).place(),
                    arcs@,
                    old(self).side(),
                    begin as int,
                    range_end(arcs@, end as int),
                    Some((final(self).found().0->0, final(self).found().1->0)),
                )
                &&& final(self).found_weight() == (if compute_weight {
                    hit_sum(
                        old(self).acc().adder(),
                        old(self).table()@,
                        old(self).place(),
                        arcs@,
                        old(self).side(),
                        final(self).found().0->0 as int,
                        final(self).found().1->0 as int,
                    )
                } else {
                    W::spec_zero()
                })
            },
    {
        self.reach_begin = None;
        self.reach_end = None;
        self.reach_weight = W::zero();
        if let Some(state) = self.state {
            self.accumulator.set_state(state);
        }
        match self.data.find_hits(self.state, arcs, self.reach_fst_input, begin, end) {
            None => false,
            Some((first, last)) => {
                self.reach_begin = Some(first);
                self.reach_end = Some(last);
                if compute_weight {
                    self.reach_weight = self.data.weigh_hits(
                        &self.accumulator,
                        self.state,
                        arcs,
                        self.reach_fst_input,
                        first,
                        last,
                    );
                }
                assert(hits(self.table()@, self.place(), arcs@, self.side(), first as int));
                true
            },
        }
    }

    /// The first arc that was found, if any was.
    pub fn reach_begin(&self) -> (begin: Option<usize>)
        ensures
            begin == self.found().0,
    {
        self.reach_begin
    }

    /// One past the last arc that was found, if any was.
    pub fn reach_end(&self) -> (end: Option<usize>)
        ensures
            end == self.found().1,
    {
        self.reach_end
    }

    /// What the arcs that were found weigh together.
    pub fn reach_weight(&self) -> (weight: &W)
        ensures
            *weight == self.found_weight(),
    {
        &self.reach_weight
    }
}

impl<W: Weight> LabelReachable<W, DefaultAccumulator> {
    /// Finds out which labels each state of `fst` can still reach.
    pub fn new(fst: &VectorFst<W>, reach_input: bool) -> (reachable: Self)
        requires
            fst@.wf(),
        ensures
            reachable.table().wf(),
            reachable.table()@.reach_input == reach_input,
            reachable.table()@.describes(fst@),
            reachable.place() is None,
            reachable.acc() == DefaultAccumulator,
    {
        Self::with_accumulator(fst, reach_input, DefaultAccumulator)
    }
}

/// A label that is on some arc is still reached, by the table's account, exactly when
/// a path from the state can start with it; and so is the end of a path.
pub proof fn law_the_table_answers_for_the_machine<W: Weight>(r: ReachV, v: FstV<W>, s: usize, label: i32)
    requires
        r.describes(v),
        s < v.n(),
        label != EPSILON,
    ensures
        r.reaches_label(Some(s), label) <==> r.labels.contains(label) && can_show(
            v,
            r.reach_input,
            s as int,
            label,
        ),
        r.reaches_final(Some(s)) <==> r.labels.contains(FINAL_LABEL) && can_show(
            v,
            r.reach_input,
            s as int,
            FINAL_LABEL,
        ),
{
    assert forall|key: i32| r.labels.contains(key) implies {
        let k = #[trigger] r.labels.index_of(key);
        0 <= k < r.labels.len() && r.labels[k] == key && r.indices[k] == k + 1
    } by {
        let i = choose|i: int| 0 <= i < r.labels.len() && r.labels[i] == key;
        assert(r.labels[i] == key);
    }
    let k = r.labels.index_of(label);
    let f = r.labels.index_of(FINAL_LABEL);
    assert(r.sets[s as int].contains(k + 1) <==> 1 <= k + 1 <= r.labels.len() && can_show(
        v,
        r.reach_input,
        s as int,
        r.labels[k + 1 - 1],
    ));
    assert(r.sets[s as int].contains(f + 1) <==> 1 <= f + 1 <= r.labels.len() && can_show(
        v,
        r.reach_input,
        s as int,
        r.labels[f + 1 - 1],
    ));
}

} // verus!
