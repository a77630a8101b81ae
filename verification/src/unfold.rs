//! Machines built by following a start outwards, state by state.
use crate::arc::Arc;
use crate::hash_table::{Key, Table};
use crate::vector_fst::{lemma_forget_forget, FstV, StateV, VectorFst};
use crate::weight::Weight;
use vstd::prelude::*;

verus! {

/// An arc that leads to a value, which has no number yet.
pub struct Step<W, K> {
    /// The label read.
    pub ilabel: i32,
    /// The label written.
    pub olabel: i32,
    /// The weight taken on.
    pub weight: W,
    /// Where it leads.
    pub to: K,
}

/// What a machine built outwards is built from: the arcs that leave a value, and
/// what a path that ends there takes on.
pub trait Unfolding<W: Weight, K: Key>: Sized {
    /// What the arcs depend on.
    type Model;

    /// Whether the arcs can be computed.
    spec fn ready(&self) -> bool;

    /// What the arcs depend on.
    spec fn model(&self) -> Self::Model;

    /// Whether `key` is one of the values that may be met.
    spec fn fits(model: Self::Model, key: K) -> bool;

    /// Whether nothing can be built from `key`.
    spec fn fails(model: Self::Model, key: K) -> bool;

    /// The arcs that leave `key`.
    spec fn steps(model: Self::Model, key: K) -> Seq<Step<W, K>>;

    /// What a path that ends in `key` takes on.
    spec fn ending(model: Self::Model, key: K) -> W;

    /// The arcs that leave `key`, and what a path that ends there takes on.
    fn expand(&mut self, key: &K) -> (expansion: Option<(Vec<Step<W, K>>, W)>)
        requires
            old(self).ready(),
            Self::fits(old(self).model(), *key),
        ensures
            final(self).ready(),
            final(self).model() == old(self).model(),
            expansion is None <==> Self::fails(old(self).model(), *key),
            expansion matches Some(e) ==> {
                &&& e.0@ == Self::steps(old(self).model(), *key)
                &&& e.1 == Self::ending(old(self).model(), *key)
                &&& forall|i: int|
                    0 <= i < e.0@.len() ==> Self::fits(old(self).model(), (#[trigger] e.0@[i]).to)
            },
    ;
}

/// Whether an arc is a step whose end has been given its number.
pub open spec fn numbered<W, K>(step: Step<W, K>, arc: Arc<W>, table: Seq<K>) -> bool {
    &&& arc.ilabel == step.ilabel
    &&& arc.olabel == step.olabel
    &&& arc.weight == step.weight
    &&& arc.nextstate < table.len()
    &&& table[arc.nextstate as int] == step.to
}

/// Whether arcs are the first of the steps.
pub open spec fn arcs_follow<W, K>(
    steps: Seq<Step<W, K>>,
    arcs: Seq<Arc<W>>,
    table: Seq<K>,
) -> bool {
    &&& arcs.len() <= steps.len()
    &&& forall|i: int| 0 <= i < arcs.len() ==> numbered(steps[i], #[trigger] arcs[i], table)
}

/// Whether a state is what its value unfolds to.
pub open spec fn unfolds<W: Weight, K: Key, U: Unfolding<W, K>>(
    model: U::Model,
    key: K,
    state: StateV<W>,
    table: Seq<K>,
) -> bool {
    &&& !U::fails(model, key)
    &&& state.arcs.len() == U::steps(model, key).len()
    &&& arcs_follow(U::steps(model, key), state.arcs, table)
    &&& state.final_weight == U::ending(model, key)
}

/// The greater of two.
pub open spec fn greater(a: int, b: int) -> int {
    if a < b {
        b
    } else {
        a
    }
}

/// How many states have been met once the first `j` arcs of a state have been
/// followed, `before` having been met until then.
pub open spec fn met_at<W>(arcs: Seq<Arc<W>>, j: int, before: int) -> int
    decreases j,
{
    if j <= 0 {
        before
    } else {
        greater(met_at(arcs, j - 1, before), arcs[j - 1].nextstate + 1)
    }
}

/// Whether an arc leads to a state met before or to the next one.
pub open spec fn arc_in_order<W>(arcs: Seq<Arc<W>>, j: int, before: int) -> bool {
    arcs[j].nextstate <= met_at(arcs, j, before)
}

/// Whether each arc leads to a state met before or to the next one.
pub open spec fn arcs_in_order<W>(arcs: Seq<Arc<W>>, before: int) -> bool {
    forall|j: int| 0 <= j < arcs.len() ==> #[trigger] arc_in_order(arcs, j, before)
}

/// Where a walk through a machine has come to.
#[verifier::ext_equal]
pub struct Walk {
    /// The states met whose arcs have not been followed yet.
    pub pending: Seq<int>,
    /// How many states have been met.
    pub met: int,
}

/// The states `from` up to `to`.
pub open spec fn numbers(from: int, to: int) -> Seq<int> {
    Seq::new((to - from) as nat, |i: int| from + i)
}

impl Walk {
    /// The state whose turn it is: the one met last, or the one met first.
    pub open spec fn pick(self, last: bool) -> int {
        if last {
            self.pending.last()
        } else {
            self.pending[0]
        }
    }

    /// Those whose turn it is not.
    pub open spec fn rest(self, last: bool) -> Seq<int> {
        if last {
            self.pending.drop_last()
        } else {
            self.pending.drop_first()
        }
    }

    /// The walk once the arcs of the state whose turn it is have been followed.
    pub open spec fn after<W>(self, arcs: Seq<Arc<W>>, last: bool) -> Walk {
        let met = met_at(arcs, arcs.len() as int, self.met);
        Walk { pending: self.rest(last) + numbers(self.met, met), met }
    }
}

/// The walk through a machine once the arcs of `k` states have been followed.
pub open spec fn walk<W>(states: Seq<StateV<W>>, last: bool, k: int) -> Walk
    decreases k,
{
    if k <= 0 {
        Walk { pending: seq![0int], met: 1 }
    } else {
        let w = walk(states, last, k - 1);
        w.after(states[w.pick(last)].arcs, last)
    }
}

/// Whether it is some state's turn after `k` states, and its arcs are in order.
pub open spec fn turn_in_order<W>(states: Seq<StateV<W>>, last: bool, k: int) -> bool {
    let w = walk(states, last, k);
    w.pending.len() > 0 && arcs_in_order(states[w.pick(last)].arcs, w.met)
}

/// Whether states are numbered in the order in which a walk through them meets
/// them. The walk takes the state met last first, or the one met first.
pub open spec fn in_order<W>(states: Seq<StateV<W>>, last: bool) -> bool {
    let n = states.len() as int;
    &&& walk(states, last, n).met == n
    &&& walk(states, last, n).pending.len() == 0
    &&& forall|k: int| 0 <= k < n ==> #[trigger] turn_in_order(states, last, k)
}

/// Whether no value is there twice.
#[verifier::opaque]
pub open spec fn distinct<K>(table: Seq<K>) -> bool {
    table.no_duplicates()
}

/// A value that is there once has one number.
pub proof fn lemma_one_number<K>(table: Seq<K>, i: int, j: int)
    requires
        distinct(table),
        0 <= i < table.len(),
        0 <= j < table.len(),
        table[i] == table[j],
    ensures
        i == j,
{
    reveal(distinct);
}

/// Whether the states are what `start` unfolds to, `table` holding the value of
/// each.
pub open spec fn is_unfolding<W: Weight, K: Key, U: Unfolding<W, K>>(
    model: U::Model,
    start: K,
    last: bool,
    table: Seq<K>,
    states: Seq<StateV<W>>,
) -> bool {
    &&& distinct(table)
    &&& table.len() == states.len()
    &&& table.len() > 0
    &&& table[0] == start
    &&& in_order(states, last)
    &&& forall|s: int|
        0 <= s < states.len() ==> unfolds::<W, K, U>(
            model,
            table[s],
            #[trigger] states[s],
            table,
        )
}

/// Whether the machine is what `start` unfolds to.
pub open spec fn unfolded<W: Weight, K: Key, U: Unfolding<W, K>>(
    model: U::Model,
    start: K,
    last: bool,
    v: FstV<W>,
) -> bool {
    &&& v.start == Some(0usize)
    &&& exists|table: Seq<K>| #[trigger]
        is_unfolding::<W, K, U>(model, start, last, table, v.states)
}

/// What a value unfolds to is a machine in order.
pub proof fn lemma_unfolded_wf<W: Weight, K: Key, U: Unfolding<W, K>>(
    model: U::Model,
    start: K,
    last: bool,
    v: FstV<W>,
)
    requires
        unfolded::<W, K, U>(model, start, last, v),
    ensures
        v.wf(),
{
    let table = choose|table: Seq<K>| #[trigger]
        is_unfolding::<W, K, U>(model, start, last, table, v.states);
    assert forall|s: int, i: int|
        0 <= s < v.n() && 0 <= i < v.states[s].arcs.len() implies (
    #[trigger] v.states[s].arcs[i]).nextstate < v.n() by {
        assert(unfolds::<W, K, U>(model, table[s], v.states[s], table));
        assert(numbered(U::steps(model, table[s])[i], v.states[s].arcs[i], table));
    }
}

/// What the arcs of a state meet are values that its steps lead to.
proof fn lemma_arcs_keep<W: Weight, K: Key>(
    steps: Seq<Step<W, K>>,
    arcs: Seq<Arc<W>>,
    table: Seq<K>,
    inside: spec_fn(K) -> bool,
    before: int,
    j: int,
)
    requires
        0 <= j <= arcs.len(),
        0 <= before <= table.len(),
        arcs_follow(steps, arcs, table),
        arcs_in_order(arcs, before),
        forall|i: int| 0 <= i < steps.len() ==> inside((#[trigger] steps[i]).to),
        forall|x: int| 0 <= x < before ==> inside(#[trigger] table[x]),
    ensures
        before <= met_at(arcs, j, before) <= table.len(),
        forall|x: int| 0 <= x < met_at(arcs, j, before) ==> inside(#[trigger] table[x]),
    decreases j,
{
    if j > 0 {
        lemma_arcs_keep(steps, arcs, table, inside, before, j - 1);
        assert(arc_in_order(arcs, j - 1, before));
        assert(numbered(steps[j - 1], arcs[j - 1], table));
    }
}

/// What holds of the start, and of where the steps lead from what it holds of, holds of
/// every value met.
pub proof fn lemma_unfolding_keeps<W: Weight, K: Key, U: Unfolding<W, K>>(
    model: U::Model,
    start: K,
    last: bool,
    table: Seq<K>,
    states: Seq<StateV<W>>,
    inside: spec_fn(K) -> bool,
)
    requires
        is_unfolding::<W, K, U>(model, start, last, table, states),
        inside(start),
        forall|key: K, i: int|
            inside(key) && 0 <= i < U::steps(model, key).len() ==> inside(
                (#[trigger] U::steps(model, key)[i]).to,
            ),
    ensures
        forall|s: int| 0 <= s < table.len() ==> inside(#[trigger] table[s]),
{
    lemma_walk_keeps::<W, K, U>(model, start, last, table, states, inside, states.len() as int);
}

proof fn lemma_walk_keeps<W: Weight, K: Key, U: Unfolding<W, K>>(
    model: U::Model,
    start: K,
    last: bool,
    table: Seq<K>,
    states: Seq<StateV<W>>,
    inside: spec_fn(K) -> bool,
    k: int,
)
    requires
        is_unfolding::<W, K, U>(model, start, last, table, states),
        inside(start),
        forall|key: K, i: int|
            inside(key) && 0 <= i < U::steps(model, key).len() ==> inside(
                (#[trigger] U::steps(model, key)[i]).to,
            ),
        0 <= k <= states.len(),
    ensures
        ({
            let w = walk(states, last, k);
            &&& 0 < w.met <= table.len()
            &&& forall|x: int| 0 <= x < w.met ==> inside(#[trigger] table[x])
            &&& forall|i: int| 0 <= i < w.pending.len() ==> 0 <= #[trigger] w.pending[i] < w.met
        }),
    decreases k,
{
    if k > 0 {
        lemma_walk_keeps::<W, K, U>(model, start, last, table, states, inside, k - 1);
        let w = walk(states, last, k - 1);
        assert(turn_in_order(states, last, k - 1));
        let s = w.pick(last);
        assert(0 <= s < w.met);
        let arcs = states[s].arcs;
        assert(unfolds::<W, K, U>(model, table[s], states[s], table));
        let steps = U::steps(model, table[s]);
        assert forall|i: int| 0 <= i < steps.len() implies inside((#[trigger] steps[i]).to) by {
            assert(inside(table[s]));
            assert(inside(U::steps(model, table[s])[i].to));
        }
        lemma_arcs_keep(steps, arcs, table, inside, w.met, arcs.len() as int);
        let after = walk(states, last, k);
        let rest = w.rest(last);
        assert forall|i: int| 0 <= i < after.pending.len() implies 0
            <= #[trigger] after.pending[i] < after.met by {
            if i < rest.len() {
                if last {
                    assert(rest[i] == w.pending[i]);
                } else {
                    assert(rest[i] == w.pending[i + 1]);
                }
            }
        }
    }
}

/// Whether `from` has a step to `to`.
pub open spec fn leads<W: Weight, K: Key, U: Unfolding<W, K>>(
    model: U::Model,
    from: K,
    to: K,
) -> bool {
    !U::fails(model, from) && exists|i: int|
        0 <= i < U::steps(model, from).len() && (#[trigger] U::steps(model, from)[i]).to == to
}

/// Whether following steps leads from `start` to `key` in `n`.
pub open spec fn meets_in<W: Weight, K: Key, U: Unfolding<W, K>>(
    model: U::Model,
    start: K,
    key: K,
    n: nat,
) -> bool
    decreases n,
{
    if n == 0 {
        start == key
    } else {
        exists|mid: K|
            meets_in::<W, K, U>(model, start, mid, (n - 1) as nat) && #[trigger] leads::<W, K, U>(
                model,
                mid,
                key,
            )
    }
}

/// Whether following steps leads from `start` to `key`.
pub open spec fn meets<W: Weight, K: Key, U: Unfolding<W, K>>(
    model: U::Model,
    start: K,
    key: K,
) -> bool {
    exists|n: nat| #[trigger] meets_in::<W, K, U>(model, start, key, n)
}

/// Whether following steps leads from `start` to a value that nothing can be built
/// from.
pub open spec fn meets_failure<W: Weight, K: Key, U: Unfolding<W, K>>(
    model: U::Model,
    start: K,
) -> bool {
    exists|key: K| #[trigger] meets::<W, K, U>(model, start, key) && U::fails(model, key)
}

/// Whether following steps leads from `start` to more values than `limit`.
pub open spec fn meets_more<W: Weight, K: Key, U: Unfolding<W, K>>(
    model: U::Model,
    start: K,
    limit: Option<usize>,
) -> bool {
    limit is Some && exists|keys: Seq<K>|
        distinct(keys) && keys.len() > limit->0 && #[trigger] all_met::<W, K, U>(
            model,
            start,
            keys,
        )
}

/// Whether following steps leads from `start` to each of `keys`.
pub open spec fn all_met<W: Weight, K: Key, U: Unfolding<W, K>>(
    model: U::Model,
    start: K,
    keys: Seq<K>,
) -> bool {
    forall|i: int| 0 <= i < keys.len() ==> meets::<W, K, U>(model, start, #[trigger] keys[i])
}

/// Whether there are no more states than `limit`, which a machine without arcs is
/// not held to.
pub open spec fn within<W>(states: Seq<StateV<W>>, limit: Option<usize>) -> bool {
    limit matches Some(l) ==> states.len() <= l || forall|s: int|
        0 <= s < states.len() ==> (#[trigger] states[s]).arcs.len() == 0
}

proof fn lemma_meets_start<W: Weight, K: Key, U: Unfolding<W, K>>(model: U::Model, start: K)
    ensures
        meets::<W, K, U>(model, start, start),
{
    assert(meets_in::<W, K, U>(model, start, start, 0));
}

proof fn lemma_meets_step<W: Weight, K: Key, U: Unfolding<W, K>>(
    model: U::Model,
    start: K,
    from: K,
    i: int,
)
    requires
        meets::<W, K, U>(model, start, from),
        !U::fails(model, from),
        0 <= i < U::steps(model, from).len(),
    ensures
        meets::<W, K, U>(model, start, U::steps(model, from)[i].to),
{
    let n = choose|n: nat| #[trigger] meets_in::<W, K, U>(model, start, from, n);
    let to = U::steps(model, from)[i].to;
    assert(leads::<W, K, U>(model, from, to));
    assert(meets_in::<W, K, U>(model, start, to, (n + 1) as nat));
}

proof fn lemma_met_at_same<W>(a: Seq<Arc<W>>, b: Seq<Arc<W>>, j: int, before: int)
    requires
        0 <= j <= a.len(),
        j <= b.len(),
        forall|i: int| 0 <= i < j ==> a[i] == b[i],
    ensures
        met_at(a, j, before) == met_at(b, j, before),
    decreases j,
{
    if j > 0 {
        lemma_met_at_same(a, b, j - 1, before);
    }
}

proof fn lemma_met_at_grows<W>(arcs: Seq<Arc<W>>, j: int, before: int)
    ensures
        met_at(arcs, j, before) >= before,
    decreases j,
{
    if j > 0 {
        lemma_met_at_grows(arcs, j - 1, before);
    }
}

/// Whether `order` is the order in which states had their turn.
pub open spec fn had_turn<W>(states: Seq<StateV<W>>, last: bool, order: Seq<int>, i: int) -> bool {
    &&& 0 <= order[i] < states.len()
    &&& order[i] == walk(states, last, i).pick(last)
    &&& turn_in_order(states, last, i)
}

proof fn lemma_walk_same<W>(
    a: Seq<StateV<W>>,
    b: Seq<StateV<W>>,
    last: bool,
    order: Seq<int>,
    k: int,
)
    requires
        0 <= k <= order.len(),
        forall|i: int| 0 <= i < order.len() ==> #[trigger] had_turn(a, last, order, i),
        forall|i: int| 0 <= i < order.len() ==> a[#[trigger] order[i]] == b[order[i]],
    ensures
        walk(a, last, k) == walk(b, last, k),
    decreases k,
{
    if k > 0 {
        lemma_walk_same(a, b, last, order, k - 1);
        assert(had_turn(a, last, order, k - 1));
        assert(a[order[k - 1]] == b[order[k - 1]]);
    }
}

/// What there is of a machine while it is being built: `table` numbers the states
/// met, of which those in `order` have their arcs.
#[verifier::opaque]
pub open spec fn partial<W: Weight, K: Key, U: Unfolding<W, K>>(
    model: U::Model,
    start: K,
    last: bool,
    table: Seq<K>,
    states: Seq<StateV<W>>,
    order: Seq<int>,
) -> bool {
    let w = walk(states, last, order.len() as int);
    &&& table.len() == states.len()
    &&& table.len() > 0
    &&& table[0] == start
    &&& w.met <= table.len()
    &&& order.len() + w.pending.len() == w.met
    &&& w.pending.no_duplicates()
    &&& forall|i: int|
        0 <= i < w.pending.len() ==> 0 <= #[trigger] w.pending[i] < w.met && !order.contains(
            w.pending[i],
        )
    &&& forall|s: int|
        0 <= s < w.met ==> #[trigger] w.pending.contains(s) || order.contains(s)
    &&& forall|s: int|
        0 <= s < states.len() && !order.contains(s) ==> #[trigger] states[s] == StateV::<
            W,
        >::fresh()
    &&& forall|i: int| 0 <= i < order.len() ==> #[trigger] had_turn(states, last, order, i)
    &&& forall|i: int| 0 <= i < order.len() ==> #[trigger] order[i] < w.met
    &&& forall|s: int|
        0 <= s < states.len() && #[trigger] order.contains(s) ==> unfolds::<W, K, U>(
            model,
            table[s],
            states[s],
            table,
        )
}

proof fn lemma_partial_start<W: Weight, K: Key, U: Unfolding<W, K>>(
    model: U::Model,
    start: K,
    last: bool,
)
    ensures
        partial::<W, K, U>(
            model,
            start,
            last,
            seq![start],
            seq![StateV::<W>::fresh()],
            Seq::empty(),
        ),
{
    reveal(partial);
    let w = walk(seq![StateV::<W>::fresh()], last, 0);
    assert(w.pending[0] == 0);
    assert(w.pending.contains(0));
}

/// A state more, with nothing to it yet, takes nothing from what there is.
proof fn lemma_partial_push<W: Weight, K: Key, U: Unfolding<W, K>>(
    model: U::Model,
    start: K,
    last: bool,
    table: Seq<K>,
    states: Seq<StateV<W>>,
    order: Seq<int>,
    key: K,
)
    requires
        partial::<W, K, U>(model, start, last, table, states, order),
    ensures
        partial::<W, K, U>(
            model,
            start,
            last,
            table.push(key),
            states.push(StateV::<W>::fresh()),
            order,
        ),
        walk(states.push(StateV::<W>::fresh()), last, order.len() as int) == walk(
            states,
            last,
            order.len() as int,
        ),
{
    reveal(partial);
    let more = states.push(StateV::<W>::fresh());
    assert forall|i: int| 0 <= i < order.len() implies states[#[trigger] order[i]]
        == more[order[i]] by {
        assert(had_turn(states, last, order, i));
    }
    lemma_walk_same(states, more, last, order, order.len() as int);
    assert forall|i: int| 0 <= i < order.len() implies #[trigger] had_turn(
        more,
        last,
        order,
        i,
    ) by {
        assert(had_turn(states, last, order, i));
        lemma_walk_same(states, more, last, order, i);
    }
    assert forall|s: int| 0 <= s < more.len() && #[trigger] order.contains(s) implies unfolds::<
        W,
        K,
        U,
    >(model, table.push(key)[s], more[s], table.push(key)) by {
        let i = choose|i: int| 0 <= i < order.len() && order[i] == s;
        assert(had_turn(states, last, order, i));
        assert(order.contains(s));
    }
}

/// A state that has had its turn, with all its arcs and its final weight, is done.
proof fn lemma_partial_done<W: Weight, K: Key, U: Unfolding<W, K>>(
    model: U::Model,
    start: K,
    last: bool,
    table: Seq<K>,
    states: Seq<StateV<W>>,
    order: Seq<int>,
    s: int,
)
    requires
        0 <= s < states.len(),
        partial::<W, K, U>(
            model,
            start,
            last,
            table,
            states.update(s, StateV::fresh()),
            order,
        ),
        ({
            let w = walk(states.update(s, StateV::fresh()), last, order.len() as int);
            &&& w.pending.len() > 0
            &&& w.pick(last) == s
            &&& arcs_in_order(states[s].arcs, w.met)
            &&& met_at(states[s].arcs, states[s].arcs.len() as int, w.met) == table.len()
        }),
        unfolds::<W, K, U>(model, table[s], states[s], table),
    ensures
        partial::<W, K, U>(model, start, last, table, states, order.push(s)),
        walk(states, last, (order.len() + 1) as int) == walk(
            states.update(s, StateV::fresh()),
            last,
            order.len() as int,
        ).after(states[s].arcs, last),
{
    reveal(partial);
    let blank = states.update(s, StateV::fresh());
    let k = order.len() as int;
    let w = walk(blank, last, k);
    let more = order.push(s);
    let slot = if last {
        w.pending.len() - 1
    } else {
        0
    };
    assert(w.pending[slot] == s);
    assert(!order.contains(s));
    assert forall|i: int| 0 <= i < order.len() implies blank[#[trigger] order[i]]
        == states[order[i]] by {
        assert(had_turn(blank, last, order, i));
        assert(order.contains(order[i]));
    }
    lemma_walk_same(blank, states, last, order, k);
    assert forall|i: int| 0 <= i < more.len() implies #[trigger] had_turn(
        states,
        last,
        more,
        i,
    ) by {
        if i < k {
            assert(had_turn(blank, last, order, i));
            lemma_walk_same(blank, states, last, order, i);
            assert(order.contains(order[i]));
        }
    }
    lemma_met_at_grows(states[s].arcs, states[s].arcs.len() as int, w.met);
    let next = w.after(states[s].arcs, last);
    let fresh = numbers(w.met, next.met);
    let rest = w.rest(last);
    assert(walk(states, last, k + 1) == next);
    assert(next.pending =~= rest + fresh);
    let shift: int = if last {
        0
    } else {
        1
    };
    assert forall|i: int| 0 <= i < rest.len() implies #[trigger] rest[i] == w.pending[i + shift]
        && rest[i] != s by {
        assert(w.pending[i + shift] != w.pending[slot]);
    }
    assert forall|i: int| 0 <= i < next.pending.len() implies 0 <= #[trigger] next.pending[i]
        < next.met && !more.contains(next.pending[i]) by {
        if i < rest.len() {
            assert(next.pending[i] == rest[i]);
            let p = w.pending[i + shift];
            assert(!order.contains(p));
            if more.contains(p) {
                let j = choose|j: int| 0 <= j < more.len() && more[j] == p;
                if j < k {
                    assert(order[j] == p);
                }
            }
        } else {
            let p = next.pending[i];
            assert(p == fresh[i - rest.len()]);
            if more.contains(p) {
                let j = choose|j: int| 0 <= j < more.len() && more[j] == p;
                if j < k {
                    assert(order[j] == p);
                    assert(order[j] < w.met);
                }
            }
        }
    }
    assert(next.pending.no_duplicates()) by {
        assert forall|i: int, j: int|
            0 <= i < next.pending.len() && 0 <= j < next.pending.len() && i
                != j implies next.pending[i] != next.pending[j] by {
            if i < rest.len() {
                assert(next.pending[i] == rest[i]);
                assert(rest[i] == w.pending[i + shift]);
            } else {
                assert(next.pending[i] == fresh[i - rest.len()]);
            }
            if j < rest.len() {
                assert(next.pending[j] == rest[j]);
                assert(rest[j] == w.pending[j + shift]);
            } else {
                assert(next.pending[j] == fresh[j - rest.len()]);
            }
        }
    }
    assert forall|x: int| 0 <= x < next.met implies #[trigger] next.pending.contains(x)
        || more.contains(x) by {
        if x >= w.met {
            assert(fresh[x - w.met] == x);
            assert(next.pending[rest.len() + (x - w.met)] == x);
        } else if x == s {
            assert(more[k] == s);
        } else if w.pending.contains(x) {
            let j = choose|j: int| 0 <= j < w.pending.len() && w.pending[j] == x;
            assert(j != slot);
            assert(rest[j - shift] == x);
            assert(next.pending[j - shift] == x);
        } else {
            let j = choose|j: int| 0 <= j < order.len() && order[j] == x;
            assert(more[j] == x);
        }
    }
    assert forall|x: int| 0 <= x < states.len() && !more.contains(x) implies #[trigger] states[x]
        == StateV::<W>::fresh() by {
        assert(more[k] == s);
        if order.contains(x) {
            let j = choose|j: int| 0 <= j < order.len() && order[j] == x;
            assert(more[j] == x);
        }
        assert(blank[x] == states[x]);
    }
    assert forall|x: int| 0 <= x < states.len() && #[trigger] more.contains(x) implies unfolds::<
        W,
        K,
        U,
    >(model, table[x], states[x], table) by {
        let j = choose|j: int| 0 <= j < more.len() && more[j] == x;
        if j < k {
            assert(order[j] == x);
            assert(order.contains(x));
            assert(blank[x] == states[x]);
        }
    }
    assert forall|i: int| 0 <= i < more.len() implies #[trigger] more[i] < next.met by {
        if i < k {
            assert(order[i] < w.met);
        }
    }
}

/// Numbers the ends of `steps` and adds them as the arcs of state `s`.
fn add_steps<W: Weight, K: Key, U: Unfolding<W, K>>(
    ofst: &mut VectorFst<W>,
    table: &mut Table<K>,
    s: usize,
    steps: &Vec<Step<W, K>>,
    limit: Option<usize>,
    Ghost(model): Ghost<U::Model>,
    Ghost(start): Ghost<K>,
    Ghost(last): Ghost<bool>,
    Ghost(order): Ghost<Seq<int>>,
) -> (fitted: bool)
    requires
        old(table).wf(),
        s < old(ofst)@.n(),
        old(ofst)@.states[s as int] == StateV::<W>::fresh(),
        old(ofst)@.n() == old(table)@.len(),
        partial::<W, K, U>(model, start, last, old(table)@, old(ofst)@.states, order),
        walk(old(ofst)@.states, last, order.len() as int).met == old(table)@.len(),
        forall|i: int|
            0 <= i < old(table)@.len() ==> U::fits(model, #[trigger] old(table)@[i]) && meets::<
                W,
                K,
                U,
            >(model, start, old(table)@[i]),
        forall|i: int|
            0 <= i < steps@.len() ==> U::fits(model, (#[trigger] steps@[i]).to) && meets::<
                W,
                K,
                U,
            >(model, start, steps@[i].to),
    ensures
        final(table).wf(),
        final(ofst)@.forget() == (FstV { states: final(ofst)@.states, ..old(ofst)@ }).forget(),
        !fitted ==> meets_more::<W, K, U>(model, start, limit),
        fitted && steps@.len() > 0 && limit is Some ==> final(table)@.len() <= limit->0,
        steps@.len() == 0 ==> final(ofst)@ == old(ofst)@,
        fitted ==> {
            &&& final(table)@.len() >= old(table)@.len()
            &&& forall|i: int| 0 <= i < old(table)@.len() ==> final(table)@[i] == old(table)@[i]
            &&& forall|i: int|
                0 <= i < final(table)@.len() ==> U::fits(model, #[trigger] final(table)@[i])
                    && meets::<W, K, U>(model, start, final(table)@[i])
            &&& final(ofst)@.n() == final(table)@.len()
            &&& final(ofst)@.fin(s as int) == W::spec_zero()
            &&& final(ofst)@.arcs(s as int).len() == steps@.len()
            &&& arcs_follow(steps@, final(ofst)@.arcs(s as int), final(table)@)
            &&& arcs_in_order(final(ofst)@.arcs(s as int), old(table)@.len() as int)
            &&& met_at(
                final(ofst)@.arcs(s as int),
                steps@.len() as int,
                old(table)@.len() as int,
            ) == final(table)@.len()
            &&& partial::<W, K, U>(
                model,
                start,
                last,
                final(table)@,
                final(ofst)@.states.update(s as int, StateV::fresh()),
                order,
            )
            &&& walk(
                final(ofst)@.states.update(s as int, StateV::fresh()),
                last,
                order.len() as int,
            ) == walk(old(ofst)@.states, last, order.len() as int)
        },
{
    let ghost base = table@.len() as int;
    let ghost v0 = ofst@;
    let ghost w0 = walk(ofst@.states, last, order.len() as int);
    let mut j: usize = 0;
    proof {
        assert(ofst@.states.update(s as int, StateV::fresh()) =~= ofst@.states);
    }
    while j < steps.len()
        invariant
            j <= steps@.len(),
            table.wf(),
            s < ofst@.n(),
            table@.len() >= old(table)@.len(),
            forall|i: int| 0 <= i < old(table)@.len() ==> table@[i] == old(table)@[i],
            forall|i: int|
                0 <= i < table@.len() ==> U::fits(model, #[trigger] table@[i]) && meets::<
                    W,
                    K,
                    U,
                >(model, start, table@[i]),
            forall|i: int|
                0 <= i < steps@.len() ==> U::fits(model, (#[trigger] steps@[i]).to) && meets::<
                    W,
                    K,
                    U,
                >(model, start, steps@[i].to),
            ofst@.forget() == (FstV { states: ofst@.states, ..v0 }).forget(),
            ofst@.n() == table@.len(),
            ofst@.fin(s as int) == W::spec_zero(),
            ofst@.arcs(s as int).len() == j,
            arcs_follow(steps@, ofst@.arcs(s as int), table@),
            arcs_in_order(ofst@.arcs(s as int), base),
            met_at(ofst@.arcs(s as int), j as int, base) == table@.len(),
            partial::<W, K, U>(
                model,
                start,
                last,
                table@,
                ofst@.states.update(s as int, StateV::fresh()),
                order,
            ),
            walk(ofst@.states.update(s as int, StateV::fresh()), last, order.len() as int) == w0,
            j > 0 && limit is Some ==> table@.len() <= limit->0,
            j == 0 ==> ofst@ == v0,
            v0 == old(ofst)@,
        decreases steps@.len() - j,
    {
        let step = &steps[j];
        let ghost v1 = ofst@;
        let ghost t1 = table@;
        let ghost blank1 = v1.states.update(s as int, StateV::fresh());
        let known: usize = table.len();
        let to: usize = table.insert(step.to.key_copy());
        if to == known {
            ofst.add_state();
        }
        let ghost v2 = ofst@;
        if let Some(most) = limit {
            if table.len() > most {
                proof {
                    table.lemma_distinct();
                    reveal(distinct);
                    assert forall|i: int| 0 <= i < table@.len() implies meets::<W, K, U>(
                        model,
                        start,
                        #[trigger] table@[i],
                    ) by {
                        if i < t1.len() {
                            assert(table@[i] == t1[i]);
                        } else {
                            assert(table@[i] == step.to);
                        }
                    }
                    assert(all_met::<W, K, U>(model, start, table@));
                    lemma_forget_forget(v0);
                    lemma_forget_forget(v1);
                }
                return false;
            }
        }
        proof {
            if to == known {
                if t1.contains(step.to) {
                    let i = choose|i: int| 0 <= i < t1.len() && t1[i] == step.to;
                    assert(table@ == t1);
                }
                lemma_partial_push::<W, K, U>(
                    model,
                    start,
                    last,
                    t1,
                    blank1,
                    order,
                    step.to,
                );
                assert(v2.states.update(s as int, StateV::fresh()) =~= blank1.push(
                    StateV::<W>::fresh(),
                ));
            } else {
                if !t1.contains(step.to) {
                    table.lemma_distinct();
                    assert(table@[known as int] == step.to);
                    assert(table@[to as int] == table@[known as int]);
                }
            }
            lemma_forget_forget(v1);
            lemma_forget_forget(v2);
            lemma_forget_forget(v0);
        }
        ofst.add_arc(s, Arc::new(step.ilabel, step.olabel, step.weight.duplicate(), to));
        proof {
            let arcs1 = v1.arcs(s as int);
            let arcs = ofst@.arcs(s as int);
            assert(v2.arcs(s as int) == arcs1);
            assert(arcs == arcs1.push(arcs[j as int]));
            lemma_met_at_same(arcs, arcs1, j as int, base);
            assert forall|k: int| 0 <= k < arcs.len() implies #[trigger] arc_in_order(
                arcs,
                k,
                base,
            ) by {
                lemma_met_at_same(arcs, arcs1, k, base);
                if k < j {
                    assert(arcs[k] == arcs1[k]);
                    assert(arc_in_order(arcs1, k, base));
                }
            }
            assert forall|k: int| 0 <= k < arcs.len() implies numbered(
                steps@[k],
                #[trigger] arcs[k],
                table@,
            ) by {
                if k < j {
                    assert(arcs[k] == arcs1[k]);
                    assert(numbered(steps@[k], arcs1[k], t1));
                }
            }
            assert(ofst@.states.update(s as int, StateV::fresh()) =~= v2.states.update(
                s as int,
                StateV::fresh(),
            ));
            lemma_forget_forget(ofst@);
        }
        j = j + 1;
    }
    true
}

/// What the state whose turn it is looks like.
proof fn lemma_turn<W: Weight, K: Key, U: Unfolding<W, K>>(
    model: U::Model,
    start: K,
    last: bool,
    table: Seq<K>,
    states: Seq<StateV<W>>,
    order: Seq<int>,
)
    requires
        partial::<W, K, U>(model, start, last, table, states, order),
    ensures
        ({
            let w = walk(states, last, order.len() as int);
            &&& order.len() + w.pending.len() == w.met
            &&& w.pending.len() > 0 ==> 0 <= w.pick(last) < states.len() && states[w.pick(last)]
                == StateV::<W>::fresh()
        }),
{
    reveal(partial);
    let w = walk(states, last, order.len() as int);
    if w.pending.len() > 0 {
        let i = if last {
            w.pending.len() - 1
        } else {
            0
        };
        assert(0 <= w.pending[i] < w.met);
    }
}

/// A machine with no state left to have its turn is whole.
proof fn lemma_whole<W: Weight, K: Key, U: Unfolding<W, K>>(
    model: U::Model,
    start: K,
    last: bool,
    table: Seq<K>,
    states: Seq<StateV<W>>,
    order: Seq<int>,
)
    requires
        distinct(table),
        partial::<W, K, U>(model, start, last, table, states, order),
        walk(states, last, order.len() as int).pending.len() == 0,
        walk(states, last, order.len() as int).met == table.len(),
    ensures
        is_unfolding::<W, K, U>(model, start, last, table, states),
{
    reveal(partial);
    let w = walk(states, last, order.len() as int);
    assert forall|s: int| 0 <= s < states.len() implies unfolds::<W, K, U>(
        model,
        table[s],
        #[trigger] states[s],
        table,
    ) by {
        assert(!w.pending.contains(s));
        assert(order.contains(s));
    }
    assert forall|k: int| 0 <= k < states.len() implies #[trigger] turn_in_order(
        states,
        last,
        k,
    ) by {
        assert(had_turn(states, last, order, k));
    }
}

/// Builds in `ofst`, which has no states, the machine that `start` unfolds to, and
/// returns the value of each state. Where a value is met that nothing can be built
/// from, or more values than `limit`, there is no such machine.
pub fn unfold<W: Weight, K: Key, U: Unfolding<W, K>>(
    unfolding: &mut U,
    start: K,
    last: bool,
    limit: Option<usize>,
    ofst: &mut VectorFst<W>,
) -> (built: Option<Table<K>>)
    requires
        old(unfolding).ready(),
        U::fits(old(unfolding).model(), start),
        old(ofst)@.n() == 0,
    ensures
        final(unfolding).ready(),
        final(unfolding).model() == old(unfolding).model(),
        final(ofst)@ == (FstV {
            start: Some(0usize),
            states: final(ofst)@.states,
            ..old(ofst)@
        }).forget(),
        match built {
            Some(table) => {
                &&& table.wf()
                &&& is_unfolding::<W, K, U>(
                    old(unfolding).model(),
                    start,
                    last,
                    table@,
                    final(ofst)@.states,
                )
                &&& forall|i: int|
                    0 <= i < table@.len() ==> U::fits(
                        old(unfolding).model(),
                        #[trigger] table@[i],
                    )
                &&& within(final(ofst)@.states, limit)
            },
            None => meets_failure::<W, K, U>(old(unfolding).model(), start) || meets_more::<
                W,
                K,
                U,
            >(old(unfolding).model(), start, limit),
        },
{
    let ghost model = unfolding.model();
    let ghost v0 = ofst@;
    let ghost start_key = start;
    let mut table: Table<K> = Table::new();
    table.insert(start);
    ofst.add_state();
    ofst.set_start(0);
    let mut pending: Vec<usize> = Vec::new();
    pending.push(0);
    let mut head: usize = 0;
    let ghost mut order: Seq<int> = Seq::empty();
    proof {
        lemma_forget_forget(v0);
        lemma_forget_forget(v0.with_new_state());
        lemma_partial_start::<W, K, U>(model, start_key, last);
        lemma_meets_start::<W, K, U>(model, start_key);
        assert(table@ =~= seq![start_key]);
        assert(ofst@.states =~= seq![StateV::<W>::fresh()]);
        assert(walk(ofst@.states, last, 0).pending =~= seq![0int]);
    }
    while head < pending.len()
        invariant
            unfolding.ready(),
            unfolding.model() == model,
            model == old(unfolding).model(),
            start_key == start,
            v0 == old(ofst)@,
            table.wf(),
            table@.len() == ofst@.n(),
            partial::<W, K, U>(model, start_key, last, table@, ofst@.states, order),
            walk(ofst@.states, last, order.len() as int).met == table@.len(),
            head <= pending@.len(),
            last ==> head == 0,
            walk(ofst@.states, last, order.len() as int).pending.len() == pending@.len() - head,
            forall|i: int|
                0 <= i < pending@.len() - head ==> #[trigger] walk(
                    ofst@.states,
                    last,
                    order.len() as int,
                ).pending[i] == pending@[i + head],
            ofst@ == (FstV { start: Some(0usize), states: ofst@.states, ..v0 }).forget(),
            within(ofst@.states, limit),
            forall|i: int|
                0 <= i < table@.len() ==> U::fits(model, #[trigger] table@[i]) && meets::<
                    W,
                    K,
                    U,
                >(model, start_key, table@[i]),
        decreases usize::MAX - order.len(),
    {
        let ghost w = walk(ofst@.states, last, order.len() as int);
        let ghost p0 = pending@;
        let ghost h0 = head;
        proof {
            lemma_turn::<W, K, U>(model, start_key, last, table@, ofst@.states, order);
            assert(w.pending[0] == p0[h0 as int]);
            assert(w.pending[w.pending.len() - 1] == p0[p0.len() - 1]);
        }
        let s: usize = if last {
            let top: usize = pending[pending.len() - 1];
            pending.pop();
            top
        } else {
            head = head + 1;
            pending[head - 1]
        };
        assert(s == w.pick(last));
        let ghost t1 = table@;
        let ghost v1 = ofst@;
        let known: usize = table.len();
        let expansion = unfolding.expand(table.get(s));
        match expansion {
            None => {
                proof {
                    lemma_forget_forget(v0);
                    assert(meets::<W, K, U>(model, start_key, table@[s as int]));
                }
                return None;
            },
            Some((steps, weight)) => {
                proof {
                    assert forall|i: int| 0 <= i < steps@.len() implies meets::<W, K, U>(
                        model,
                        start_key,
                        (#[trigger] steps@[i]).to,
                    ) by {
                        lemma_meets_step::<W, K, U>(model, start_key, t1[s as int], i);
                    }
                }
                let fitted = add_steps::<W, K, U>(
                    ofst,
                    &mut table,
                    s,
                    &steps,
                    limit,
                    Ghost(model),
                    Ghost(start_key),
                    Ghost(last),
                    Ghost(order),
                );
                let ghost v2 = ofst@;
                if !fitted {
                    proof {
                        lemma_forget_forget(v0);
                        lemma_forget_forget(v1);
                        lemma_forget_forget(v2);
                    }
                    ofst.forget_properties();
                    return None;
                }
                ofst.set_final(s, weight);
                proof {
                    let states = ofst@.states;
                    assert(table@[s as int] == t1[s as int]);
                    assert(states[s as int].arcs == v2.arcs(s as int));
                    assert(states.update(s as int, StateV::fresh()) =~= v2.states.update(
                        s as int,
                        StateV::fresh(),
                    ));
                    lemma_partial_done::<W, K, U>(
                        model,
                        start_key,
                        last,
                        table@,
                        states,
                        order,
                        s as int,
                    );
                    order = order.push(s as int);
                    lemma_forget_forget(v0);
                    lemma_forget_forget(v1);
                    lemma_forget_forget(v2);
                }
                let met: usize = table.len();
                let mut next: usize = known;
                let ghost base = pending@;
                while next < met
                    invariant
                        known <= next <= met,
                        pending@ == base + Seq::new(
                            (next - known) as nat,
                            |i: int| (known + i) as usize,
                        ),
                    decreases met - next,
                {
                    pending.push(next);
                    next = next + 1;
                    assert(pending@ =~= base + Seq::new(
                        (next - known) as nat,
                        |i: int| (known + i) as usize,
                    ));
                }
                proof {
                    let w1 = walk(ofst@.states, last, order.len() as int);
                    let rest = w.rest(last);
                    assert(w1.pending =~= rest + numbers(known as int, met as int));
                    assert forall|i: int|
                        0 <= i < pending@.len() - head implies #[trigger] w1.pending[i]
                        == pending@[i + head] by {
                        if i < rest.len() {
                            if last {
                                assert(w.pending[i] == p0[i + h0]);
                            } else {
                                assert(w.pending[i + 1] == p0[i + 1 + h0]);
                            }
                        }
                    }
                    lemma_turn::<W, K, U>(model, start_key, last, table@, ofst@.states, order);
                    if limit is Some && steps@.len() == 0 && !(ofst@.n() <= limit->0) {
                        assert(table@.len() == t1.len());
                        assert forall|x: int| 0 <= x < ofst@.n() implies (
                        #[trigger] ofst@.states[x]).arcs.len() == 0 by {
                            if x != s {
                                assert(ofst@.states[x] == v1.states[x]);
                            }
                        }
                    }
                }
            },
        }
    }
    proof {
        table.lemma_distinct();
        reveal(distinct);
        lemma_whole::<W, K, U>(model, start_key, last, table@, ofst@.states, order);
    }
    Some(table)
}

/// What a value unfolds to is one machine: there is no choice in it.
pub proof fn law_unfolding_is_unique<W: Weight, K: Key, U: Unfolding<W, K>>(
    model: U::Model,
    start: K,
    last: bool,
    table1: Seq<K>,
    states1: Seq<StateV<W>>,
    table2: Seq<K>,
    states2: Seq<StateV<W>>,
)
    requires
        is_unfolding::<W, K, U>(model, start, last, table1, states1),
        is_unfolding::<W, K, U>(model, start, last, table2, states2),
    ensures
        table1 == table2,
        states1 == states2,
{
    let n1 = states1.len() as int;
    let n2 = states2.len() as int;
    if n1 <= n2 {
        lemma_same_walk::<W, K, U>(model, start, last, table1, states1, table2, states2, n1);
        if n1 < n2 {
            assert(turn_in_order(states2, last, n1));
        }
    } else {
        lemma_same_walk::<W, K, U>(model, start, last, table1, states1, table2, states2, n2);
        assert(turn_in_order(states1, last, n2));
    }
    assert(table1 =~= table2);
    assert forall|s: int| 0 <= s < n1 implies states1[s] == states2[s] by {
        let a = states1[s];
        let b = states2[s];
        assert(unfolds::<W, K, U>(model, table1[s], a, table1));
        assert(unfolds::<W, K, U>(model, table2[s], b, table2));
        let steps = U::steps(model, table1[s]);
        assert forall|j: int| 0 <= j < a.arcs.len() implies a.arcs[j] == b.arcs[j] by {
            assert(numbered(steps[j], a.arcs[j], table1));
            assert(numbered(steps[j], b.arcs[j], table2));
            lemma_one_number(table1, a.arcs[j].nextstate as int, b.arcs[j].nextstate as int);
        }
        assert(a.arcs =~= b.arcs);
    }
    assert(states1 =~= states2);
}

/// The walks through two unfoldings come the same way, and meet the same values.
proof fn lemma_same_walk<W: Weight, K: Key, U: Unfolding<W, K>>(
    model: U::Model,
    start: K,
    last: bool,
    table1: Seq<K>,
    states1: Seq<StateV<W>>,
    table2: Seq<K>,
    states2: Seq<StateV<W>>,
    k: int,
)
    requires
        is_unfolding::<W, K, U>(model, start, last, table1, states1),
        is_unfolding::<W, K, U>(model, start, last, table2, states2),
        0 <= k <= states1.len(),
        k <= states2.len(),
    ensures
        walk(states1, last, k) == walk(states2, last, k),
        0 < walk(states1, last, k).met <= table1.len(),
        walk(states1, last, k).met <= table2.len(),
        forall|i: int| 0 <= i < walk(states1, last, k).met ==> table1[i] == table2[i],
        forall|i: int|
            0 <= i < walk(states1, last, k).pending.len() ==> 0 <= #[trigger] walk(
                states1,
                last,
                k,
            ).pending[i] < walk(states1, last, k).met,
    decreases k,
{
    if k > 0 {
        lemma_same_walk::<W, K, U>(model, start, last, table1, states1, table2, states2, k - 1);
        let w = walk(states1, last, k - 1);
        assert(turn_in_order(states1, last, k - 1));
        assert(turn_in_order(states2, last, k - 1));
        let s = w.pick(last);
        let slot = if last {
            w.pending.len() - 1
        } else {
            0
        };
        assert(0 <= w.pending[slot] < w.met);
        let arcs1 = states1[s].arcs;
        let arcs2 = states2[s].arcs;
        assert(unfolds::<W, K, U>(model, table1[s], states1[s], table1));
        assert(unfolds::<W, K, U>(model, table2[s], states2[s], table2));
        lemma_same_arcs::<W, K>(
            U::steps(model, table1[s]),
            arcs1,
            table1,
            arcs2,
            table2,
            w.met,
            arcs1.len() as int,
        );
        assert(arcs1 =~= arcs2);
        lemma_met_at_grows(arcs1, arcs1.len() as int, w.met);
        let next = walk(states1, last, k);
        let rest = w.rest(last);
        assert forall|i: int| 0 <= i < next.pending.len() implies 0 <= #[trigger] next.pending[i]
            < next.met by {
            if i < rest.len() {
                let shift: int = if last {
                    0
                } else {
                    1
                };
                assert(next.pending[i] == w.pending[i + shift]);
            }
        }
    }
}

proof fn lemma_same_arcs<W, K>(
    steps: Seq<Step<W, K>>,
    arcs1: Seq<Arc<W>>,
    table1: Seq<K>,
    arcs2: Seq<Arc<W>>,
    table2: Seq<K>,
    before: int,
    j: int,
)
    requires
        0 <= before <= table1.len(),
        before <= table2.len(),
        distinct(table1),
        distinct(table2),
        arcs_follow(steps, arcs1, table1),
        arcs_follow(steps, arcs2, table2),
        arcs_in_order(arcs1, before),
        arcs_in_order(arcs2, before),
        arcs1.len() == arcs2.len(),
        0 <= j <= arcs1.len(),
        forall|i: int| 0 <= i < before ==> table1[i] == table2[i],
    ensures
        forall|i: int| 0 <= i < j ==> arcs1[i] == arcs2[i],
        met_at(arcs1, j, before) == met_at(arcs2, j, before),
        met_at(arcs1, j, before) <= table1.len(),
        met_at(arcs1, j, before) <= table2.len(),
        forall|i: int| 0 <= i < met_at(arcs1, j, before) ==> table1[i] == table2[i],
    decreases j,
{
    if j > 0 {
        lemma_same_arcs(steps, arcs1, table1, arcs2, table2, before, j - 1);
        let a1 = arcs1[j - 1];
        let a2 = arcs2[j - 1];
        let seen = met_at(arcs1, j - 1, before);
        lemma_met_at_grows(arcs1, j - 1, before);
        assert(numbered(steps[j - 1], a1, table1));
        assert(numbered(steps[j - 1], a2, table2));
        assert(arc_in_order(arcs1, j - 1, before));
        assert(arc_in_order(arcs2, j - 1, before));
        if a2.nextstate < seen {
            lemma_one_number(table1, a2.nextstate as int, a1.nextstate as int);
        } else if a1.nextstate < seen {
            lemma_one_number(table2, a1.nextstate as int, a2.nextstate as int);
        }
        assert(a1.nextstate == a2.nextstate);
    }
}

} // verus!
