//! Deciding whether two machines say the same thing.
//!
//! This is the classic near-linear algorithm for the equivalence of two
//! deterministic acceptors:
//!
//! > Aho, A. V., Hopcroft, J. E. and Ullman, J. D. 1974. *The Design and
//! > Analysis of Computer Algorithms*, Addison-Wesley, section 4.7.
//!
//! Reading the two in step, a state of one and a state of the other reached by
//! the same string are put into the same class; the two are equivalent exactly
//! when no class ends up holding a final state and a non-final one. A missing
//! transition is treated as one into a dead state, so the two do not have to be
//! complete.
use crate::arc::Arc;
use crate::arc_map::{arc_map, lemma_mapped_wf, lemma_plain, map_all, map_in_place, QuantizeMapper};
use crate::concat::{check_symbols, symbols_agree};
use crate::encode::{encode, remembering, EncodeMapper, EncodeModel, EncodeTableV, EncodeType, Triple, ENCODE_FLAGS};
use crate::error::OpenFstError;
use crate::graph::{
    lemma_closed, lemma_reach_edge, lemma_reach_refl, lemma_reach_trans, reach, reach_in, Graph,
};
use crate::hash_table::Table;
use crate::inspect::{
    acceptor, input_deterministic, no_epsilons, said_acceptor, said_input_deterministic,
    said_no_epsilons, said_unweighted, unweighted,
};
use crate::properties::K_ERROR;
use crate::push::{is_pushed, never_settles, push_weights_to_initial, ReweightType};
use crate::union_find::UnionFind;
use crate::vector_fst::{FstV, VectorFst};
use crate::weight::{Divide, Weight};
use vstd::prelude::*;

verus! {

/// Where the last of the first `k` arcs that reads `label` leads. An arc that weighs
/// zero leads nowhere, so it is as if it were not there.
pub open spec fn goes<W: Weight>(arcs: Seq<Arc<W>>, label: i32, k: int) -> Option<usize>
    decreases k,
{
    if k <= 0 {
        None
    } else if arcs[k - 1].ilabel == label && arcs[k - 1].weight != W::spec_zero() {
        Some(arcs[k - 1].nextstate)
    } else {
        goes(arcs, label, k - 1)
    }
}

/// Where reading `label` leads, if anywhere.
pub open spec fn next_state<W: Weight>(v: FstV<W>, state: Option<usize>, label: i32) -> Option<
    usize,
> {
    match state {
        Some(s) => goes(v.arcs(s as int), label, v.arcs(s as int).len() as int),
        None => None,
    }
}

/// Where reading a string leads, if anywhere.
pub open spec fn state_after<W: Weight>(v: FstV<W>, string: Seq<i32>) -> Option<usize>
    decreases string.len(),
{
    if string.len() == 0 {
        v.start
    } else {
        next_state(v, state_after(v, string.drop_last()), string.last())
    }
}

/// Whether a deterministic acceptor accepts a string.
pub open spec fn accepts_string<W: Weight>(v: FstV<W>, string: Seq<i32>) -> bool {
    state_after(v, string) matches Some(s) && v.fin(s as int) != W::spec_zero()
}

/// Whether two deterministic acceptors accept the same strings.
pub open spec fn same_language<W: Weight>(v1: FstV<W>, v2: FstV<W>) -> bool {
    forall|string: Seq<i32>| #[trigger] accepts_string(v1, string) == accepts_string(v2, string)
}

/// The state that stands for "there is no transition here" in both machines.
const DEAD_STATE: usize = 0;

/// A state of one of the two machines, as a single number.
///
/// The two machines' states have to share one union-find, so they are interleaved:
/// state `s` of the first is `2s + 1`, of the second `2s + 2`, and 0 is the
/// dead state both share.
spec fn id_of(state: Option<usize>, which: int) -> int {
    match state {
        None => 0,
        Some(s) => 2 * s + which,
    }
}

/// A state of one of the two machines, as a single number.
fn map_state(state: Option<usize>, which: usize) -> (id: usize)
    requires
        state matches Some(s) ==> 2 * s + which <= usize::MAX,
    ensures
        id == id_of(state, which as int),
{
    match state {
        None => DEAD_STATE,
        Some(s) => 2 * s + which,
    }
}

/// The state of the first machine that a number stands for.
spec fn first_of(id: int) -> Option<usize> {
    if id == 0 {
        None
    } else {
        Some(((id - 1) / 2) as usize)
    }
}

/// The state of the second machine that a number stands for.
spec fn second_of(id: int) -> Option<usize> {
    if id == 0 {
        None
    } else {
        Some(((id - 2) / 2) as usize)
    }
}

/// Where reading `label` leads, in the machine that a number belongs to.
spec fn step<W: Weight>(v1: FstV<W>, v2: FstV<W>, id: int, label: i32) -> int {
    if id % 2 == 1 {
        id_of(next_state(v1, first_of(id), label), 1)
    } else {
        id_of(next_state(v2, second_of(id), label), 2)
    }
}

/// Whether a number is a final state of the machine it belongs to.
spec fn ends<W: Weight>(v1: FstV<W>, v2: FstV<W>, id: int) -> bool {
    if id == 0 {
        false
    } else if id % 2 == 1 {
        v1.fin((id - 1) / 2) != W::spec_zero()
    } else {
        v2.fin((id - 2) / 2) != W::spec_zero()
    }
}

/// Whether a number is the dead state or a state of the first machine.
spec fn is_first<W: Weight>(v1: FstV<W>, id: int) -> bool {
    id == 0 || (id > 0 && id % 2 == 1 && (id - 1) / 2 < v1.n())
}

/// Whether a number is the dead state or a state of the second machine.
spec fn is_second<W: Weight>(v2: FstV<W>, id: int) -> bool {
    id == 0 || (id > 0 && id % 2 == 0 && (id - 2) / 2 < v2.n())
}

/// Whether the mapped state is final in the first machine.
fn first_ends<W: Weight>(fst1: &VectorFst<W>, id: usize, Ghost(v2): Ghost<FstV<W>>) -> (b: bool)
    requires
        is_first(fst1@, id as int),
    ensures
        b == ends(fst1@, v2, id as int),
{
    if id == DEAD_STATE {
        return false;
    }
    !fst1.final_weight((id - 1) / 2).same(&W::zero())
}

/// Whether the mapped state is final in the second machine.
fn second_ends<W: Weight>(fst2: &VectorFst<W>, id: usize, Ghost(v1): Ghost<FstV<W>>) -> (b: bool)
    requires
        is_second(fst2@, id as int),
    ensures
        b == ends(v1, fst2@, id as int),
{
    if id == DEAD_STATE {
        return false;
    }
    !fst2.final_weight((id - 2) / 2).same(&W::zero())
}

proof fn lemma_goes_leads<W: Weight>(v: FstV<W>, s: int, label: i32, k: int)
    requires
        v.wf(),
        0 <= s < v.n(),
        0 <= k <= v.arcs(s).len(),
    ensures
        goes(v.arcs(s), label, k) matches Some(t) ==> t < v.n(),
    decreases k,
{
    if k > 0 {
        lemma_goes_leads(v, s, label, k - 1);
        assert(v.states[s].arcs[k - 1].nextstate < v.n());
    }
}

/// The number of the state that the first machine is in after a string, and of that
/// the second is in.
spec fn pair_after<W: Weight>(v1: FstV<W>, v2: FstV<W>, string: Seq<i32>) -> (int, int) {
    (id_of(state_after(v1, string), 1), id_of(state_after(v2, string), 2))
}

/// Where a step leads the pair that a string leads to.
proof fn lemma_pair_step<W: Weight>(v1: FstV<W>, v2: FstV<W>, string: Seq<i32>, label: i32)
    requires
        v1.wf(),
        v2.wf(),
    ensures
        ({
            let (a, b) = pair_after(v1, v2, string);
            &&& pair_after(v1, v2, string.push(label)) == (
                step(v1, v2, a, label),
                step(v1, v2, b, label),
            )
            &&& is_first(v1, a)
            &&& is_second(v2, b)
            &&& ends(v1, v2, a) == accepts_string(v1, string)
            &&& ends(v1, v2, b) == accepts_string(v2, string)
        }),
{
    lemma_state_after_in(v1, string);
    lemma_state_after_in(v2, string);
    assert(string.push(label).drop_last() =~= string);
    assert(string.push(label).last() == label);
}

proof fn lemma_state_after_in<W: Weight>(v: FstV<W>, string: Seq<i32>)
    requires
        v.wf(),
    ensures
        state_after(v, string) matches Some(s) ==> s < v.n(),
    decreases string.len(),
{
    if string.len() > 0 {
        lemma_state_after_in(v, string.drop_last());
        if let Some(s) = state_after(v, string.drop_last()) {
            lemma_goes_leads(v, s as int, string.last(), v.arcs(s as int).len() as int);
        }
    }
}

/// What is held to be the same: what is in one class, and the pairs still to be
/// looked at.
spec fn held(sets: UnionFind, pending: Seq<(usize, usize)>) -> Graph {
    |x: int, y: int|
        sets.same(x, y) || is_pending(pending, x, y) || is_pending(pending, y, x)
}

spec fn is_pending(pending: Seq<(usize, usize)>, x: int, y: int) -> bool {
    exists|i: int| 0 <= i < pending.len() && pending[i].0 == x && (#[trigger] pending[i]).1 == y
}

proof fn lemma_held_sym(sets: UnionFind, pending: Seq<(usize, usize)>, x: int, y: int, k: nat)
    requires
        reach_in(held(sets, pending), x, y, k),
    ensures
        reach(held(sets, pending), y, x),
    decreases k,
{
    let g = held(sets, pending);
    if k == 0 {
        lemma_reach_refl(g, x);
    } else {
        let m = choose|m: int| #[trigger] g(x, m) && reach_in(g, m, y, (k - 1) as nat);
        lemma_held_sym(sets, pending, m, y, (k - 1) as nat);
        assert(g(m, x));
        lemma_reach_edge(g, m, x);
        lemma_reach_trans(g, y, m, x);
    }
}

/// What is held together by one relation is held together by another that holds
/// each of its pairs together.
proof fn lemma_held_grows(g: Graph, h: Graph, x: int, y: int)
    requires
        forall|a: int, b: int| #[trigger] g(a, b) ==> reach(h, a, b),
        reach(g, x, y),
    ensures
        reach(h, x, y),
{
    let inside = |z: int| reach(h, x, z);
    lemma_reach_refl(h, x);
    assert forall|a: int, b: int| inside(a) && #[trigger] g(a, b) implies inside(b) by {
        lemma_reach_trans(h, x, a, b);
    }
    lemma_closed(g, inside, x, y);
}

/// How many of the numbers below `n` stand for their class.
spec fn roots(sets: UnionFind, n: int) -> nat
    decreases n,
{
    if n <= 0 {
        0
    } else {
        roots(sets, n - 1) + (if sets.rep(n - 1) == n - 1 {
            1nat
        } else {
            0nat
        })
    }
}

proof fn lemma_roots_fall(before: UnionFind, after: UnionFind, n: int, z: int)
    requires
        forall|x: int|
            0 <= x < n && #[trigger] after.rep(x) == x ==> before.rep(x) == x,
    ensures
        roots(after, n) <= roots(before, n),
        0 <= z < n && before.rep(z) == z && after.rep(z) != z ==> roots(after, n) < roots(before, n),
    decreases n,
{
    if n > 0 {
        lemma_roots_fall(before, after, n - 1, z);
        assert(after.rep(n - 1) == n - 1 ==> before.rep(n - 1) == n - 1);
    }
}

/// What holds while classes are being merged.
#[verifier::opaque]
spec fn merging<W: Weight>(
    v1: FstV<W>,
    v2: FstV<W>,
    n: int,
    sets: UnionFind,
    pending: Seq<(usize, usize)>,
) -> bool {
    let g = held(sets, pending);
    &&& sets.wf()
    &&& forall|x: int| 0 <= x < n ==> #[trigger] sets.has(x)
    &&& forall|x: int, y: int| #[trigger] sets.same(x, y) ==> ends(v1, v2, x) == ends(v1, v2, y)
    &&& forall|i: int| 0 <= i < pending.len() ==> #[trigger] pair_ok(v1, v2, n, pending[i])
    &&& forall|x: int, y: int, label: i32|
        #![trigger sets.same(x, y), step(v1, v2, x, label)]
        sets.same(x, y) ==> reach(g, step(v1, v2, x, label), step(v1, v2, y, label))
    &&& reach(g, id_of(v1.start, 1), id_of(v2.start, 2))
}

/// Whether a pair is a state of each machine, reached by one string, both final or
/// neither.
spec fn pair_ok<W: Weight>(v1: FstV<W>, v2: FstV<W>, n: int, pair: (usize, usize)) -> bool {
    &&& is_first(v1, pair.0 as int)
    &&& is_second(v2, pair.1 as int)
    &&& pair.0 < n
    &&& pair.1 < n
    &&& ends(v1, v2, pair.0 as int) == ends(v1, v2, pair.1 as int)
    &&& exists|u: Seq<i32>| #[trigger] pair_after(v1, v2, u) == (pair.0 as int, pair.1 as int)
}

/// A pair already held to be the same needs no looking at.
proof fn lemma_skip<W: Weight>(
    v1: FstV<W>,
    v2: FstV<W>,
    n: int,
    sets: UnionFind,
    pending: Seq<(usize, usize)>,
)
    requires
        merging(v1, v2, n, sets, pending),
        pending.len() > 0,
        sets.same(pending[0].0 as int, pending[0].1 as int),
    ensures
        merging(v1, v2, n, sets, pending.drop_first()),
{
    reveal(merging);
    let rest = pending.drop_first();
    let g = held(sets, pending);
    let h = held(sets, rest);
    assert forall|a: int, b: int| #[trigger] g(a, b) implies reach(h, a, b) by {
        if !sets.same(a, b) {
            lemma_pending_rest(sets, pending, a, b);
        }
        assert(h(a, b));
        lemma_reach_edge(h, a, b);
    }
    assert forall|x: int, y: int, label: i32|
        #![trigger sets.same(x, y), step(v1, v2, x, label)]
        sets.same(x, y) implies reach(h, step(v1, v2, x, label), step(v1, v2, y, label)) by {
        lemma_held_grows(g, h, step(v1, v2, x, label), step(v1, v2, y, label));
    }
    lemma_held_grows(g, h, id_of(v1.start, 1), id_of(v2.start, 2));
    assert forall|i: int| 0 <= i < rest.len() implies #[trigger] pair_ok(v1, v2, n, rest[i]) by {
        assert(pair_ok(v1, v2, n, pending[i + 1]));
    }
}

proof fn lemma_pending_rest(sets: UnionFind, pending: Seq<(usize, usize)>, a: int, b: int)
    requires
        pending.len() > 0,
        held(sets, pending)(a, b),
        !sets.same(a, b),
    ensures
        is_pending(pending.drop_first(), a, b) || is_pending(pending.drop_first(), b, a) || (
        pending[0].0 == a && pending[0].1 == b) || (pending[0].0 == b && pending[0].1 == a),
{
    let rest = pending.drop_first();
    if is_pending(pending, a, b) {
        let i = choose|i: int|
            0 <= i < pending.len() && pending[i].0 == a && (#[trigger] pending[i]).1 == b;
        if i > 0 {
            assert(rest[i - 1].1 == b && rest[i - 1].0 == a);
        }
    } else {
        let i = choose|i: int|
            0 <= i < pending.len() && pending[i].0 == b && (#[trigger] pending[i]).1 == a;
        if i > 0 {
            assert(rest[i - 1].1 == a && rest[i - 1].0 == b);
        }
    }
}

/// Whether `pairs` holds where the two states of a pair lead, for every label that
/// leads either of them anywhere.
spec fn covers<W: Weight>(
    v1: FstV<W>,
    v2: FstV<W>,
    pair: (usize, usize),
    pairs: Seq<(usize, usize)>,
) -> bool {
    forall|label: i32|
        #![trigger step(v1, v2, pair.0 as int, label)]
        {
            let a = step(v1, v2, pair.0 as int, label);
            let b = step(v1, v2, pair.1 as int, label);
            (a == 0 && b == 0) || is_pending(pairs, a, b)
        }
}

/// Merging a pair keeps all that holds, once where the pair leads is pending.
proof fn lemma_merge<W: Weight>(
    v1: FstV<W>,
    v2: FstV<W>,
    n: int,
    sets: UnionFind,
    pending: Seq<(usize, usize)>,
    after: UnionFind,
    more: Seq<(usize, usize)>,
)
    requires
        merging(v1, v2, n, sets, pending),
        pending.len() > 0,
        after.wf(),
        forall|z: int| #[trigger] after.has(z) <==> sets.has(z),
        ({
            let a = pending[0].0 as int;
            let b = pending[0].1 as int;
            forall|x: int, y: int| #[trigger]
                after.same(x, y) <==> sets.same(x, y) || (sets.same(x, a) && sets.same(y, b)) || (
                sets.same(x, b) && sets.same(y, a))
        }),
        covers(v1, v2, pending[0], more),
        forall|i: int| 0 <= i < more.len() ==> #[trigger] pair_ok(v1, v2, n, more[i]),
    ensures
        merging(v1, v2, n, after, pending.drop_first() + more),
{
    reveal(merging);
    let rest = pending.drop_first() + more;
    let g = held(sets, pending);
    let h = held(after, rest);
    let p = pending[0];
    let a = p.0 as int;
    let b = p.1 as int;
    assert(pair_ok(v1, v2, n, p));
    assert(sets.has(a) && sets.has(b));
    assert(sets.same(a, a) && sets.same(b, b));
    assert(after.same(a, b));
    assert forall|x: int, y: int| #[trigger] g(x, y) implies reach(h, x, y) by {
        if sets.same(x, y) {
            assert(after.same(x, y));
        } else {
            lemma_pending_rest(sets, pending, x, y);
            if is_pending(pending.drop_first(), x, y) {
                lemma_pending_more(pending.drop_first(), more, x, y);
            } else if is_pending(pending.drop_first(), y, x) {
                lemma_pending_more(pending.drop_first(), more, y, x);
            } else {
                assert(after.same(x, y));
            }
        }
        assert(h(x, y));
        lemma_reach_edge(h, x, y);
    }
    assert forall|x: int, y: int| #[trigger] after.same(x, y) implies ends(v1, v2, x) == ends(
        v1,
        v2,
        y,
    ) by {
        if !sets.same(x, y) {
            if sets.same(x, a) && sets.same(y, b) {
            } else {
                assert(sets.same(x, b) && sets.same(y, a));
            }
        }
    }
    assert forall|x: int, y: int, label: i32|
        #![trigger after.same(x, y), step(v1, v2, x, label)]
        after.same(x, y) implies reach(h, step(v1, v2, x, label), step(v1, v2, y, label)) by {
        let sx = step(v1, v2, x, label);
        let sy = step(v1, v2, y, label);
        let sa = step(v1, v2, a, label);
        let sb = step(v1, v2, b, label);
        lemma_ends_meet(v1, v2, after, pending, more, label);
        if sets.same(x, y) {
            lemma_held_grows(g, h, sx, sy);
        } else if sets.same(x, a) && sets.same(y, b) {
            assert(reach(g, sx, sa));
            lemma_held_grows(g, h, sx, sa);
            assert(sets.same(b, y));
            assert(step(v1, v2, b, label) == sb);
            assert(reach(g, sb, sy));
            lemma_held_grows(g, h, sb, sy);
            lemma_reach_trans(h, sx, sa, sb);
            lemma_reach_trans(h, sx, sb, sy);
        } else {
            assert(sets.same(x, b) && sets.same(y, a));
            assert(reach(g, sx, sb));
            lemma_held_grows(g, h, sx, sb);
            assert(sets.same(a, y));
            assert(step(v1, v2, a, label) == sa);
            assert(reach(g, sa, sy));
            lemma_held_grows(g, h, sa, sy);
            let k = choose|k: nat| reach_in(h, sa, sb, k);
            lemma_held_sym(after, rest, sa, sb, k);
            lemma_reach_trans(h, sx, sb, sa);
            lemma_reach_trans(h, sx, sa, sy);
        }
    }
    lemma_held_grows(g, h, id_of(v1.start, 1), id_of(v2.start, 2));
    assert forall|i: int| 0 <= i < rest.len() implies #[trigger] pair_ok(v1, v2, n, rest[i]) by {
        let first = pending.drop_first();
        if i < first.len() {
            assert(rest[i] == pending[i + 1]);
            assert(pair_ok(v1, v2, n, pending[i + 1]));
        } else {
            assert(rest[i] == more[i - first.len()]);
            assert(pair_ok(v1, v2, n, more[i - first.len()]));
        }
    }
}

proof fn lemma_pending_more(
    first: Seq<(usize, usize)>,
    more: Seq<(usize, usize)>,
    x: int,
    y: int,
)
    requires
        is_pending(first, x, y) || is_pending(more, x, y),
    ensures
        is_pending(first + more, x, y),
{
    let all = first + more;
    if is_pending(first, x, y) {
        let i = choose|i: int|
            0 <= i < first.len() && first[i].0 == x && (#[trigger] first[i]).1 == y;
        assert(all[i].1 == y && all[i].0 == x);
    } else {
        let i = choose|i: int|
            0 <= i < more.len() && more[i].0 == x && (#[trigger] more[i]).1 == y;
        assert(all[first.len() + i] == more[i]);
        assert(all[first.len() + i].1 == y && all[first.len() + i].0 == x);
    }
}

/// Where a merged pair leads is held together.
proof fn lemma_ends_meet<W: Weight>(
    v1: FstV<W>,
    v2: FstV<W>,
    after: UnionFind,
    pending: Seq<(usize, usize)>,
    more: Seq<(usize, usize)>,
    label: i32,
)
    requires
        pending.len() > 0,
        covers(v1, v2, pending[0], more),
    ensures
        reach(
            held(after, pending.drop_first() + more),
            step(v1, v2, pending[0].0 as int, label),
            step(v1, v2, pending[0].1 as int, label),
        ),
{
    let rest = pending.drop_first() + more;
    let h = held(after, rest);
    let sa = step(v1, v2, pending[0].0 as int, label);
    let sb = step(v1, v2, pending[0].1 as int, label);
    if sa == 0 && sb == 0 {
        lemma_reach_refl(h, 0);
    } else {
        lemma_pending_more(pending.drop_first(), more, sa, sb);
        assert(h(sa, sb));
        lemma_reach_edge(h, sa, sb);
    }
}

/// Classes that no pair is left to change prove the machines to be equivalent.
proof fn lemma_merged<W: Weight>(v1: FstV<W>, v2: FstV<W>, n: int, sets: UnionFind)
    requires
        v1.wf(),
        v2.wf(),
        merging(v1, v2, n, sets, Seq::empty()),
        n > 0,
        2 * v1.n() < n,
        2 * v2.n() < n,
    ensures
        same_language(v1, v2),
{
    assert forall|string: Seq<i32>| #[trigger]
        accepts_string(v1, string) == accepts_string(v2, string) by {
        lemma_same_after(v1, v2, n, sets, string);
        lemma_pair_step(v1, v2, string, 0);
        reveal(merging);
        let (a, b) = pair_after(v1, v2, string);
        assert(sets.same(a, b));
    }
}

proof fn lemma_same_after<W: Weight>(
    v1: FstV<W>,
    v2: FstV<W>,
    n: int,
    sets: UnionFind,
    string: Seq<i32>,
)
    requires
        v1.wf(),
        v2.wf(),
        merging(v1, v2, n, sets, Seq::empty()),
        n > 0,
        2 * v1.n() < n,
        2 * v2.n() < n,
    ensures
        sets.same(pair_after(v1, v2, string).0, pair_after(v1, v2, string).1),
    decreases string.len(),
{
    reveal(merging);
    let (a, b) = pair_after(v1, v2, string);
    lemma_pair_step(v1, v2, string, 0);
    assert(sets.has(a));
    if string.len() == 0 {
        lemma_held_same(sets, a, b);
    } else {
        let before = string.drop_last();
        let label = string.last();
        assert(before.push(label) =~= string);
        lemma_same_after(v1, v2, n, sets, before);
        let (x, y) = pair_after(v1, v2, before);
        lemma_pair_step(v1, v2, before, label);
        assert(sets.same(x, y));
        assert(reach(held(sets, Seq::empty()), step(v1, v2, x, label), step(v1, v2, y, label)));
        lemma_held_same(sets, a, b);
    }
}

proof fn lemma_held_same(sets: UnionFind, x: int, y: int)
    requires
        sets.has(x),
        reach(held(sets, Seq::empty()), x, y),
    ensures
        sets.same(x, y),
{
    let g = held(sets, Seq::empty());
    let inside = |z: int| sets.same(x, z);
    assert forall|a: int, b: int| inside(a) && #[trigger] g(a, b) implies inside(b) by {}
    lemma_closed(g, inside, x, y);
}

/// Notes where the arcs of a state lead, label by label: in the first place of each
/// pair for a state of the first machine, in the second for one of the second.
fn note_targets<W: Weight>(
    fst: &VectorFst<W>,
    s: usize,
    which: usize,
    labels: &mut Table<i32>,
    to: &mut Vec<(usize, usize)>,
)
    requires
        fst@.wf(),
        s < fst@.n(),
        which == 1 || which == 2,
        2 * fst@.n() + 2 <= usize::MAX,
        old(labels).wf(),
        old(labels)@.len() == old(to)@.len(),
        forall|i: int|
            0 <= i < old(to)@.len() ==> (if which == 1 {
                (#[trigger] old(to)@[i]).0
            } else {
                old(to)@[i].1
            }) == 0,
    ensures
        final(labels).wf(),
        final(labels)@.len() == final(to)@.len(),
        old(labels)@.len() <= final(labels)@.len(),
        forall|i: int| 0 <= i < old(labels)@.len() ==> final(labels)@[i] == old(labels)@[i],
        forall|i: int|
            0 <= i < final(to)@.len() ==> (if which == 1 {
                (#[trigger] final(to)@[i]).0
            } else {
                final(to)@[i].1
            }) == id_of(
                goes(
                    fst@.arcs(s as int),
                    final(labels)@[i],
                    fst@.arcs(s as int).len() as int,
                ),
                which as int,
            ),
        forall|i: int|
            0 <= i < final(to)@.len() ==> (if which == 1 {
                (#[trigger] final(to)@[i]).1
            } else {
                final(to)@[i].0
            }) == (if i < old(to)@.len() {
                if which == 1 {
                    old(to)@[i].1
                } else {
                    old(to)@[i].0
                }
            } else {
                0
            }),
        forall|label: i32|
            !(#[trigger] final(labels)@.contains(label)) ==> goes(
                fst@.arcs(s as int),
                label,
                fst@.arcs(s as int).len() as int,
            ) is None,
{
    let ghost v = fst@;
    let ghost all = v.arcs(s as int);
    let ghost labels0 = labels@;
    let ghost to0 = to@;
    let arcs = fst.arcs(s);
    let zero = W::zero();
    let mut k: usize = 0;
    while k < arcs.len()
        invariant
            k <= arcs@.len(),
            arcs@ == all,
            all == v.arcs(s as int),
            v.wf(),
            s < v.n(),
            2 * v.n() + 2 <= usize::MAX,
            which == 1 || which == 2,
            zero == W::spec_zero(),
            labels.wf(),
            labels@.len() == to@.len(),
            labels0.len() == to0.len(),
            labels0.len() <= labels@.len(),
            forall|i: int| 0 <= i < labels0.len() ==> labels@[i] == labels0[i],
            forall|i: int|
                0 <= i < to@.len() ==> (if which == 1 {
                    (#[trigger] to@[i]).0
                } else {
                    to@[i].1
                }) == id_of(goes(all, labels@[i], k as int), which as int),
            forall|i: int|
                0 <= i < to@.len() ==> (if which == 1 {
                    (#[trigger] to@[i]).1
                } else {
                    to@[i].0
                }) == (if i < to0.len() {
                    if which == 1 {
                        to0[i].1
                    } else {
                        to0[i].0
                    }
                } else {
                    0
                }),
            forall|label: i32|
                !(#[trigger] labels@.contains(label)) ==> goes(all, label, k as int) is None,
        decreases arcs@.len() - k,
    {
        let arc = &arcs[k];
        assert(v.states[s as int].arcs[k as int].nextstate < v.n());
        if !arc.weight.same(&zero) {
            let ghost l1 = labels@;
            let ghost t1 = to@;
            let i: usize = labels.insert(arc.ilabel);
            if i == to.len() {
                to.push((DEAD_STATE, DEAD_STATE));
            }
            let target: usize = map_state(Some(arc.nextstate), which);
            let pair: (usize, usize) = to[i];
            if which == 1 {
                to.set(i, (target, pair.1));
            } else {
                to.set(i, (pair.0, target));
            }
            proof {
                labels.lemma_distinct();
                if l1.contains(arc.ilabel) {
                    assert(labels@ == l1);
                } else {
                    assert(labels@ == l1.push(arc.ilabel));
                    if i < l1.len() {
                        assert(labels@[i as int] == labels@[l1.len() as int]);
                    }
                }
                assert forall|j: int| 0 <= j < to@.len() implies (if which == 1 {
                    (#[trigger] to@[j]).0
                } else {
                    to@[j].1
                }) == id_of(goes(all, labels@[j], k + 1), which as int) by {
                    if j != i {
                        assert(labels@[j] != labels@[i as int]);
                        assert(to@[j] == t1[j]);
                    }
                }
                assert forall|label: i32| !(#[trigger] labels@.contains(label)) implies goes(
                    all,
                    label,
                    k + 1,
                ) is None by {
                    assert(labels@.contains(labels@[i as int]));
                    if l1.contains(label) {
                        let j = choose|j: int| 0 <= j < l1.len() && l1[j] == label;
                        assert(labels@[j] == label);
                    }
                }
            }
        }
        k = k + 1;
    }
}

/// Decides whether two deterministic acceptors accept the same strings.
fn decide<W: Weight>(fst1: &VectorFst<W>, fst2: &VectorFst<W>) -> (same: bool)
    requires
        fst1@.wf(),
        fst2@.wf(),
        2 * fst1@.n() + 3 < usize::MAX,
        2 * fst2@.n() + 3 < usize::MAX,
    ensures
        same == same_language(fst1@, fst2@),
{
    let ghost v1 = fst1@;
    let ghost v2 = fst2@;
    let n1: usize = fst1.num_states();
    let n2: usize = fst2.num_states();
    let n: usize = 2 * (if n1 < n2 {
        n2
    } else {
        n1
    }) + 3;
    let mut sets = UnionFind::new();
    let mut x: usize = 0;
    while x < n
        invariant
            x <= n,
            n < usize::MAX,
            sets.wf(),
            forall|y: int| #[trigger] sets.has(y) <==> 0 <= y < x,
            forall|y: int| 0 <= y < x ==> #[trigger] sets.rep(y) == y,
        decreases n - x,
    {
        let ghost before = sets;
        sets.make_set(x);
        assert forall|y: int| 0 <= y < x + 1 implies #[trigger] sets.rep(y) == y by {
            if y < x {
                assert(before.has(y));
            } else {
                assert(!before.has(x as int));
            }
        }
        x = x + 1;
    }
    let start1: usize = map_state(fst1.start(), 1);
    let start2: usize = map_state(fst2.start(), 2);
    let ends1 = first_ends(fst1, start1, Ghost(v2));
    let ends2 = second_ends(fst2, start2, Ghost(v1));
    proof {
        lemma_pair_step(v1, v2, Seq::empty(), 0);
        assert(pair_after(v1, v2, Seq::empty()) == (start1 as int, start2 as int));
    }
    if ends1 != ends2 {
        assert(accepts_string(v1, Seq::empty()) != accepts_string(v2, Seq::empty()));
        return false;
    }
    let mut queue: Vec<(usize, usize)> = Vec::new();
    queue.push((start1, start2));
    let mut head: usize = 0;
    proof {
        reveal(merging);
        let pending = queue@.skip(0);
        let g = held(sets, pending);
        assert(pending =~= queue@);
        assert(pending[0].1 == start2 && pending[0].0 == start1);
        assert(g(start1 as int, start2 as int));
        lemma_reach_edge(g, start1 as int, start2 as int);
        assert forall|a: int, b: int, label: i32|
            #![trigger sets.same(a, b), step(v1, v2, a, label)]
            sets.same(a, b) implies reach(g, step(v1, v2, a, label), step(v1, v2, b, label)) by {
            assert(a == b);
            lemma_reach_refl(g, step(v1, v2, a, label));
        }
        assert forall|i: int| 0 <= i < pending.len() implies #[trigger] pair_ok(
            v1,
            v2,
            n as int,
            pending[i],
        ) by {
            assert(pair_after(v1, v2, Seq::empty()) == (start1 as int, start2 as int));
        }
        assert(merging(v1, v2, n as int, sets, pending));
    }
    while head < queue.len()
        invariant
            v1 == fst1@,
            v2 == fst2@,
            v1.wf(),
            v2.wf(),
            2 * v1.n() + 3 < usize::MAX,
            2 * v2.n() + 3 < usize::MAX,
            2 * v1.n() + 3 <= n,
            2 * v2.n() + 3 <= n,
            head <= queue@.len(),
            sets.wf(),
            forall|y: int| #[trigger] sets.has(y) <==> 0 <= y < n,
            merging(v1, v2, n as int, sets, queue@.skip(head as int)),
        decreases roots(sets, n as int), queue@.len() - head,
    {
        let ghost pending = queue@.skip(head as int);
        let (s1, s2): (usize, usize) = queue[head];
        assert(pending[0] == (s1, s2));
        head = head + 1;
        assert(queue@.skip(head as int) =~= pending.drop_first());
        assert(pair_ok(v1, v2, n as int, pending[0])) by {
            reveal(merging);
        }
        let rep1: usize = match sets.find_set(s1) {
            Some(r) => r,
            None => s1,
        };
        let rep2: usize = match sets.find_set(s2) {
            Some(r) => r,
            None => s2,
        };
        if rep1 == rep2 {
            // Already known to be the same state; nothing new to check.
            proof {
                assert(sets.same(s1 as int, s2 as int));
                lemma_skip(v1, v2, n as int, sets, pending);
            }
        } else {
            let ghost before = sets;
            sets.union(s1, s2);
            proof {
                let z = choose|z: int|
                    before.has(z) && before.rep(z) == z && #[trigger] sets.rep(z) != z;
                assert forall|y: int| 0 <= y < n && #[trigger] sets.rep(y) == y implies before.rep(
                    y,
                ) == y by {
                    assert(before.has(y));
                }
                lemma_roots_fall(before, sets, n as int, z);
            }
            // Where the same label leads in each machine. A label with no arc in
            // one of the two leads to the dead state there.
            let mut labels: Table<i32> = Table::new();
            let mut to: Vec<(usize, usize)> = Vec::new();
            if s1 != DEAD_STATE {
                note_targets(fst1, (s1 - 1) / 2, 1, &mut labels, &mut to);
            }
            let ghost labels1 = labels@;
            let ghost to1 = to@;
            assert forall|i: int| 0 <= i < to1.len() implies (#[trigger] to1[i]).0 == step(
                v1,
                v2,
                s1 as int,
                labels1[i],
            ) && to1[i].1 == 0 by {}
            assert forall|label: i32| !(#[trigger] labels1.contains(label)) implies step(
                v1,
                v2,
                s1 as int,
                label,
            ) == 0 by {}
            if s2 != DEAD_STATE {
                note_targets(fst2, (s2 - 2) / 2, 2, &mut labels, &mut to);
            }
            proof {
                labels.lemma_distinct();
                assert forall|i: int| 0 <= i < to@.len() implies #[trigger] to@[i].0 == step(
                    v1,
                    v2,
                    s1 as int,
                    labels@[i],
                ) && to@[i].1 == step(v1, v2, s2 as int, labels@[i]) by {
                    if i < to1.len() {
                        assert(to1[i].0 == step(v1, v2, s1 as int, labels1[i]));
                        assert(to@[i].1 == step(v1, v2, s2 as int, labels@[i]));
                    } else {
                        assert(to@[i].1 == step(v1, v2, s2 as int, labels@[i]));
                        if labels1.contains(labels@[i]) {
                            let j = choose|j: int|
                                0 <= j < labels1.len() && labels1[j] == labels@[i];
                            assert(labels@[j] == labels@[i]);
                        }
                    }
                }
            }
            let ghost base = queue@;
            let ghost u = choose|u: Seq<i32>| #[trigger]
                pair_after(v1, v2, u) == (s1 as int, s2 as int);
            let mut i: usize = 0;
            assert(base + to@.take(0) =~= base);
            while i < to.len()
                invariant
                    i <= to@.len(),
                    v1 == fst1@,
                    v2 == fst2@,
                    v1.wf(),
                    v2.wf(),
                    2 * v1.n() + 3 <= n,
                    2 * v2.n() + 3 <= n,
                    labels@.len() == to@.len(),
                    pair_ok(v1, v2, n as int, (s1, s2)),
                    pair_after(v1, v2, u) == (s1 as int, s2 as int),
                    forall|j: int|
                        0 <= j < to@.len() ==> #[trigger] to@[j].0 == step(
                            v1,
                            v2,
                            s1 as int,
                            labels@[j],
                        ) && to@[j].1 == step(v1, v2, s2 as int, labels@[j]),
                    forall|j: int| 0 <= j < i ==> #[trigger] pair_ok(v1, v2, n as int, to@[j]),
                    queue@ == base + to@.take(i as int),
                decreases to@.len() - i,
            {
                let (to1, to2): (usize, usize) = to[i];
                proof {
                    let label = labels@[i as int];
                    lemma_pair_step(v1, v2, u, label);
                    lemma_pair_step(v1, v2, u.push(label), 0);
                    assert(to@[i as int].0 == to1);
                    assert(pair_after(v1, v2, u.push(label)) == (to1 as int, to2 as int));
                }
                if first_ends(fst1, to1, Ghost(v2)) != second_ends(fst2, to2, Ghost(v1)) {
                    // One accepts here and the other does not: a string tells them
                    // apart.
                    assert(accepts_string(v1, u.push(labels@[i as int])) != accepts_string(
                        v2,
                        u.push(labels@[i as int]),
                    ));
                    return false;
                }
                queue.push((to1, to2));
                assert(pair_ok(v1, v2, n as int, to@[i as int]));
                i = i + 1;
                assert(queue@ =~= base + to@.take(i as int));
            }
            proof {
                assert(to@.take(to@.len() as int) =~= to@);
                assert(queue@.skip(head as int) =~= pending.drop_first() + to@);
                assert(covers(v1, v2, pending[0], to@)) by {
                    assert forall|label: i32|
                        #![trigger step(v1, v2, pending[0].0 as int, label)]
                        {
                            let a = step(v1, v2, pending[0].0 as int, label);
                            let b = step(v1, v2, pending[0].1 as int, label);
                            (a == 0 && b == 0) || is_pending(to@, a, b)
                        } by {
                        if labels@.contains(label) {
                            let j = choose|j: int| 0 <= j < labels@.len() && labels@[j] == label;
                            assert(to@[j].0 == step(v1, v2, s1 as int, labels@[j]));
                            assert(to@[j].1 == step(v1, v2, s2 as int, labels@[j]));
                        } else {
                            if labels1.contains(label) {
                                let j = choose|j: int|
                                    0 <= j < labels1.len() && labels1[j] == label;
                                assert(labels@[j] == label);
                            }
                        }
                    }
                }
                lemma_merge(v1, v2, n as int, before, pending, sets, to@);
            }
        }
    }
    proof {
        assert(queue@.skip(head as int) =~= Seq::empty());
        lemma_merged(v1, v2, n as int, sets);
    }
    true
}

/// Whether a machine is said to be an epsilon-free deterministic acceptor.
pub open spec fn is_decidable<W: Weight>(v: FstV<W>) -> bool {
    said_no_epsilons(v) && said_input_deterministic(v) && said_acceptor(v)
}

/// Whether a machine is said to be an epsilon-free deterministic acceptor.
fn check_decidable<W: Weight>(fst: &VectorFst<W>) -> (b: bool)
    ensures
        b == is_decidable(fst@),
{
    no_epsilons(fst) && input_deterministic(fst) && acceptor(fst)
}

/// Whether either of two machines is marked as being in error.
pub open spec fn marked<W: Weight>(v1: FstV<W>, v2: FstV<W>) -> bool {
    v1.props & K_ERROR != 0 || v2.props & K_ERROR != 0
}

/// What is decided of two machines once their arguments have been checked: whether
/// they accept the same strings, or an error where they would and one of them is
/// marked as being in error.
pub open spec fn decided<W: Weight>(
    v1: FstV<W>,
    v2: FstV<W>,
    result: Result<bool, OpenFstError>,
) -> bool {
    match result {
        Ok(same) => same == same_language(v1, v2) && (same ==> !marked(v1, v2)),
        Err(e) => e is InvalidOperation && same_language(v1, v2) && marked(v1, v2),
    }
}

/// Decides, and reports a machine marked as being in error.
fn decide_marked<W: Weight>(fst1: &VectorFst<W>, fst2: &VectorFst<W>) -> (result: Result<
    bool,
    OpenFstError,
>)
    requires
        fst1@.wf(),
        fst2@.wf(),
        2 * fst1@.n() + 3 < usize::MAX,
        2 * fst2@.n() + 3 < usize::MAX,
    ensures
        decided(fst1@, fst2@, result),
{
    if !decide(fst1, fst2) {
        return Ok(false);
    }
    if fst1.known_properties(K_ERROR) != 0 || fst2.known_properties(K_ERROR) != 0 {
        return Err(
            OpenFstError::InvalidOperation(
                "Equivalent: one of the FSTs is marked as being in error",
            ),
        );
    }
    Ok(true)
}

/// An encoder of labels and weights with an empty table.
pub open spec fn fresh_encoder<W: Weight>() -> EncodeModel<W> {
    EncodeModel {
        flags: ENCODE_FLAGS,
        encode_type: EncodeType::Encode,
        table: EncodeTableV {
            flags: ENCODE_FLAGS,
            triples: Seq::<Triple<W>>::empty(),
            isymbols: None,
            osymbols: None,
        },
        error: false,
    }
}

/// The encoder once it has encoded a machine.
pub open spec fn encoder_after<W: Weight>(m: EncodeModel<W>, v: FstV<W>) -> EncodeModel<W> {
    if v.start is Some {
        map_all::<W, W, EncodeMapper<W>>(remembering(m, v), v).model
    } else {
        remembering(m, v)
    }
}

/// What encoding makes of a machine.
pub open spec fn encoded<W: Weight>(m: EncodeModel<W>, v: FstV<W>) -> FstV<W> {
    map_in_place::<W, EncodeMapper<W>>(remembering(m, v), v)
}

/// The machine with its weights rounded.
pub open spec fn quantized<W: Weight>(v: FstV<W>, delta: W::Delta) -> FstV<W> {
    map_in_place::<W, QuantizeMapper<W>>(delta, v)
}

/// Whether `e1` and `e2` are two machines with their weights made part of their
/// labels: pushed towards the start, rounded, and encoded by one encoder.
pub open spec fn weights_folded<W: Divide>(
    v1: FstV<W>,
    v2: FstV<W>,
    delta: W::Delta,
    e1: FstV<W>,
    e2: FstV<W>,
) -> bool {
    exists|p1: FstV<W>, p2: FstV<W>|
        {
            &&& #[trigger] is_pushed(v1, ReweightType::ToInitial, delta, false, p1)
            &&& #[trigger] is_pushed(v2, ReweightType::ToInitial, delta, false, p2)
            &&& e1 == encoded(fresh_encoder::<W>(), quantized(p1, delta))
            &&& e2 == encoded(
                encoder_after(fresh_encoder::<W>(), quantized(p1, delta)),
                quantized(p2, delta),
            )
        }
}

/// A copy of `fst` with its weights pushed towards the start and rounded.
pub fn pushed_and_quantized<W: Divide>(fst: &VectorFst<W>, delta: &W::Delta) -> (result: Result<
    VectorFst<W>,
    OpenFstError,
>)
    requires
        fst@.wf(),
        fst@.n() + 3 < usize::MAX,
    ensures
        match result {
            Ok(copy) => copy@.wf() && copy@.n() <= fst@.n() + 1 && exists|p: FstV<W>| #[trigger]
                is_pushed(fst@, ReweightType::ToInitial, *delta, false, p) && copy@ == quantized(
                    p,
                    *delta,
                ),
            Err(e) => e is InvalidOperation && never_settles(fst@, true, *delta),
        },
{
    let mut copy = fst.duplicate();
    match push_weights_to_initial(&mut copy, delta, false) {
        Ok(()) => {},
        Err(e) => {
            return Err(e);
        },
    }
    let ghost p = copy@;
    let mut mapper: QuantizeMapper<W> = QuantizeMapper::new(*delta);
    proof {
        lemma_pushed_size(fst@, *delta, p);
        lemma_quantizing(p, *delta);
    }
    match arc_map(&mut copy, &mut mapper) {
        Ok(()) => Ok(copy),
        Err(e) => Err(e),
    }
}

/// Pushing adds at most one state.
pub proof fn lemma_pushed_size<W: Divide>(v: FstV<W>, delta: W::Delta, p: FstV<W>)
    requires
        v.wf(),
        is_pushed(v, ReweightType::ToInitial, delta, false, p),
    ensures
        p.n() <= v.n() + 1,
{
    if v.start is Some {
        assert(v.start->0 < v.n());
    }
}

/// Rounding the weights succeeds and keeps a machine in order.
pub proof fn lemma_quantizing<W: Weight>(v: FstV<W>, delta: W::Delta)
    requires
        v.wf(),
        v.n() < usize::MAX,
    ensures
        map_all::<W, W, QuantizeMapper<W>>(delta, v).failed is None,
        quantized(v, delta).wf(),
        quantized(v, delta).n() == v.n(),
{
    lemma_plain::<W, W, QuantizeMapper<W>>(delta, v.states, v.n() as usize, v.n() as int);
    lemma_mapped_wf::<W, QuantizeMapper<W>>(delta, v);
}

/// Encoding labels and weights succeeds and keeps a machine in order.
pub proof fn lemma_encoding<W: Weight>(m: EncodeModel<W>, v: FstV<W>)
    requires
        v.wf(),
        v.n() < usize::MAX,
        m.encode_type is Encode,
        m.flags == ENCODE_FLAGS,
    ensures
        map_all::<W, W, EncodeMapper<W>>(remembering(m, v), v).failed is None,
        encoded(m, v).wf(),
        encoded(m, v).n() <= v.n() + 1,
{
    let flags = m.flags;
    assert(flags & 0x02u8 != 0) by (bit_vector)
        requires
            flags == 0x03u8,
    ;
    lemma_mapped_wf::<W, EncodeMapper<W>>(remembering(m, v), v);
}

/// Encoding changes neither what is encoded nor which way.
pub proof fn lemma_encoder_stays<W: Weight>(m: EncodeModel<W>, v: FstV<W>)
    ensures
        encoder_after(m, v).flags == m.flags,
        encoder_after(m, v).encode_type == m.encode_type,
{
    lemma_map_states_stay(remembering(m, v), v, v.n() as int);
}

proof fn lemma_map_states_stay<W: Weight>(m: EncodeModel<W>, v: FstV<W>, k: int)
    ensures
        ({
            let r = crate::arc_map::map_states::<W, W, EncodeMapper<W>>(
                m,
                v.states,
                v.n() as usize,
                k,
            );
            r.model.flags == m.flags && r.model.encode_type == m.encode_type
        }),
    decreases k,
{
    if k > 0 {
        lemma_map_states_stay(m, v, k - 1);
        let p = crate::arc_map::map_states::<W, W, EncodeMapper<W>>(
            m,
            v.states,
            v.n() as usize,
            k - 1,
        );
        let arcs = v.states[k - 1].arcs;
        lemma_map_arcs_stay(p.model, arcs, arcs.len() as int);
    }
}

proof fn lemma_map_arcs_stay<W: Weight>(m: EncodeModel<W>, arcs: Seq<Arc<W>>, k: int)
    ensures
        ({
            let r = crate::arc_map::map_arcs::<W, W, EncodeMapper<W>>(m, arcs, k).0;
            r.flags == m.flags && r.encode_type == m.encode_type
        }),
    decreases k,
{
    if k > 0 {
        lemma_map_arcs_stay(m, arcs, k - 1);
    }
}

/// Whether two machines can be compared at all: their labels are named alike, and
/// both are said to be epsilon-free deterministic acceptors.
pub open spec fn are_comparable<W: Weight>(v1: FstV<W>, v2: FstV<W>) -> bool {
    symbols_agree(v1, v2) && is_decidable(v1) && is_decidable(v2)
}

/// Whether `fst1` and `fst2` accept the same strings at the same weights.
///
/// Both have to be epsilon-free deterministic acceptors, which is why the
/// question is answerable in near-linear time. A weighted pair is pushed,
/// quantized and encoded first, which turns the weights into part of the labels
/// and leaves two unweighted acceptors.
pub fn equivalent<W: Divide>(fst1: &VectorFst<W>, fst2: &VectorFst<W>, delta: &W::Delta) -> (
result: Result<bool, OpenFstError>)
    requires
        fst1@.wf(),
        fst2@.wf(),
        2 * fst1@.n() + 9 < usize::MAX,
        2 * fst2@.n() + 9 < usize::MAX,
    ensures
        !symbols_agree(fst1@, fst2@) ==> (result matches Err(e) && e is SymbolTable),
        symbols_agree(fst1@, fst2@) && !are_comparable(fst1@, fst2@) ==> (result matches Err(e)
            && e is InvalidOperation),
        are_comparable(fst1@, fst2@) && said_unweighted(fst1@) && said_unweighted(fst2@)
            ==> decided(fst1@, fst2@, result),
        are_comparable(fst1@, fst2@) && !(said_unweighted(fst1@) && said_unweighted(fst2@)) ==> (
        result matches Err(e) && e is InvalidOperation && (never_settles(fst1@, true, *delta)
            || never_settles(fst2@, true, *delta))) || exists|e1: FstV<W>, e2: FstV<W>| #[trigger]
            weights_folded(fst1@, fst2@, *delta, e1, e2) && (if is_decidable(e1) && is_decidable(
                e2,
            ) {
                decided(e1, e2, result)
            } else {
                result matches Err(e) && e is InvalidOperation
            }),
{
    if !check_symbols(fst1, fst2) {
        return Err(
            OpenFstError::SymbolTable("Equivalent: the two FSTs' symbol tables do not agree"),
        );
    }
    if !check_decidable(fst1) {
        return Err(
            OpenFstError::InvalidOperation(
                "Equivalent: the 1st argument is not an epsilon-free deterministic acceptor",
            ),
        );
    }
    if !check_decidable(fst2) {
        return Err(
            OpenFstError::InvalidOperation(
                "Equivalent: the 2nd argument is not an epsilon-free deterministic acceptor",
            ),
        );
    }
    // Weights are compared by making them part of the labels: pushing puts each
    // path's weight in a canonical place, and encoding folds it into the label.
    if !unweighted(fst1) || !unweighted(fst2) {
        let mut copy1 = match pushed_and_quantized(fst1, delta) {
            Ok(copy) => copy,
            Err(e) => {
                return Err(e);
            },
        };
        let mut copy2 = match pushed_and_quantized(fst2, delta) {
            Ok(copy) => copy,
            Err(e) => {
                return Err(e);
            },
        };
        let ghost q1 = copy1@;
        let ghost q2 = copy2@;
        // The same encoder for both, so that the same weight becomes the same
        // label in each.
        let mut encoder: EncodeMapper<W> = EncodeMapper::new(ENCODE_FLAGS);
        let flags: u8 = ENCODE_FLAGS;
        assert(flags & flags == flags) by (bit_vector);
        assert(encoder@ == fresh_encoder::<W>());
        proof {
            lemma_encoding(fresh_encoder::<W>(), q1);
        }
        let encoded1 = encode(&mut copy1, &mut encoder);
        assert(encoded1 is Ok);
        proof {
            lemma_encoder_stays(fresh_encoder::<W>(), q1);
            lemma_encoding(encoder@, q2);
        }
        let encoded2 = encode(&mut copy2, &mut encoder);
        assert(encoded2 is Ok);
        proof {
            let p1 = choose|p: FstV<W>| #[trigger]
                is_pushed(fst1@, ReweightType::ToInitial, *delta, false, p) && q1 == quantized(
                    p,
                    *delta,
                );
            let p2 = choose|p: FstV<W>| #[trigger]
                is_pushed(fst2@, ReweightType::ToInitial, *delta, false, p) && q2 == quantized(
                    p,
                    *delta,
                );
            assert(weights_folded(fst1@, fst2@, *delta, copy1@, copy2@));
        }
        if !check_decidable(&copy1) || !check_decidable(&copy2) {
            return Err(
                OpenFstError::InvalidOperation(
                    "Equivalent: an argument is not an epsilon-free deterministic acceptor",
                ),
            );
        }
        return decide_marked(&copy1, &copy2);
    }
    decide_marked(fst1, fst2)
}

} // verus!
