//! Which pairs of states could still spell the same thing to the end.
use crate::arc::Arc;
use crate::connect::{on_path, path_states, states_on_paths};
use crate::determinize::{arc_reads, reads_to};
use crate::graph::{full_graph, reach, reach_in};
use crate::hash_table::Table;
use crate::unfold::{
    is_unfolding, lemma_unfolded_wf, numbered, unfold, unfolded, unfolds, Step, Unfolding,
};
use crate::vector_fst::{FstV, VectorFst};
use crate::weight::{spec_is_final, Weight};
use vstd::prelude::*;

verus! {

/// The pairs that the first arc of a pair and the first `k` arcs of the other side
/// lead to, reading the same label.
pub open spec fn matches_of<W: Weight>(arc: Arc<W>, arcs: Seq<Arc<W>>, k: int) -> Seq<
    Step<W, (usize, usize)>,
>
    decreases k,
{
    if k <= 0 {
        Seq::empty()
    } else {
        let before = matches_of(arc, arcs, k - 1);
        if arcs[k - 1].ilabel == arc.ilabel {
            before.push(
                Step {
                    ilabel: arc.ilabel,
                    olabel: arc.ilabel,
                    weight: W::spec_one(),
                    to: (arc.nextstate, arcs[k - 1].nextstate),
                },
            )
        } else {
            before
        }
    }
}

/// The pairs that the first `k` arcs of one side and the arcs of the other lead to,
/// reading the same label.
pub open spec fn pair_steps<W: Weight>(arcs1: Seq<Arc<W>>, arcs2: Seq<Arc<W>>, k: int) -> Seq<
    Step<W, (usize, usize)>,
>
    decreases k,
{
    if k <= 0 {
        Seq::empty()
    } else {
        pair_steps(arcs1, arcs2, k - 1) + matches_of(arcs1[k - 1], arcs2, arcs2.len() as int)
    }
}

/// Whether a step is taken by an arc of each side that read the same label.
pub open spec fn is_pair_step<W: Weight>(
    arcs1: Seq<Arc<W>>,
    arcs2: Seq<Arc<W>>,
    label: i32,
    to: (usize, usize),
) -> bool {
    arc_reads(arcs1, label, to.0 as int) && arc_reads(arcs2, label, to.1 as int)
}

proof fn lemma_matches_are<W: Weight>(arc: Arc<W>, arcs: Seq<Arc<W>>, k: int, i: int)
    requires
        0 <= k <= arcs.len(),
        0 <= i < matches_of(arc, arcs, k).len(),
    ensures
        ({
            let step = matches_of(arc, arcs, k)[i];
            &&& step.ilabel == arc.ilabel
            &&& step.to.0 == arc.nextstate
            &&& arc_reads(arcs, arc.ilabel, step.to.1 as int)
        }),
    decreases k,
{
    let before = matches_of(arc, arcs, k - 1);
    if i < before.len() {
        lemma_matches_are(arc, arcs, k - 1, i);
        assert(matches_of(arc, arcs, k)[i] == before[i]);
    } else {
        assert(arcs[k - 1].ilabel == arc.ilabel);
    }
}

proof fn lemma_matches_all<W: Weight>(arc: Arc<W>, arcs: Seq<Arc<W>>, k: int, j: int) -> (i: int)
    requires
        0 <= j < k <= arcs.len(),
        arcs[j].ilabel == arc.ilabel,
    ensures
        0 <= i < matches_of(arc, arcs, k).len(),
        matches_of(arc, arcs, k)[i].to == (arc.nextstate, arcs[j].nextstate),
        matches_of(arc, arcs, k)[i].ilabel == arc.ilabel,
    decreases k,
{
    if j == k - 1 {
        matches_of(arc, arcs, k).len() - 1
    } else {
        let i = lemma_matches_all(arc, arcs, k - 1, j);
        assert(matches_of(arc, arcs, k)[i] == matches_of(arc, arcs, k - 1)[i]);
        i
    }
}

proof fn lemma_pair_steps_are<W: Weight>(arcs1: Seq<Arc<W>>, arcs2: Seq<Arc<W>>, k: int, i: int)
    requires
        0 <= k <= arcs1.len(),
        0 <= i < pair_steps(arcs1, arcs2, k).len(),
    ensures
        is_pair_step(
            arcs1,
            arcs2,
            pair_steps(arcs1, arcs2, k)[i].ilabel,
            pair_steps(arcs1, arcs2, k)[i].to,
        ),
    decreases k,
{
    let before = pair_steps(arcs1, arcs2, k - 1);
    if i < before.len() {
        lemma_pair_steps_are(arcs1, arcs2, k - 1, i);
        assert(pair_steps(arcs1, arcs2, k)[i] == before[i]);
    } else {
        let n = arcs2.len() as int;
        lemma_matches_are(arcs1[k - 1], arcs2, n, i - before.len());
        assert(pair_steps(arcs1, arcs2, k)[i] == matches_of(arcs1[k - 1], arcs2, n)[i
            - before.len()]);
        assert(arcs1[k - 1].ilabel == pair_steps(arcs1, arcs2, k)[i].ilabel);
    }
}

proof fn lemma_pair_steps_all<W: Weight>(
    arcs1: Seq<Arc<W>>,
    arcs2: Seq<Arc<W>>,
    k: int,
    x: int,
    j: int,
) -> (i: int)
    requires
        0 <= x < k <= arcs1.len(),
        0 <= j < arcs2.len(),
        arcs1[x].ilabel == arcs2[j].ilabel,
    ensures
        0 <= i < pair_steps(arcs1, arcs2, k).len(),
        pair_steps(arcs1, arcs2, k)[i].to == (arcs1[x].nextstate, arcs2[j].nextstate),
        pair_steps(arcs1, arcs2, k)[i].ilabel == arcs1[x].ilabel,
    decreases k,
{
    let before = pair_steps(arcs1, arcs2, k - 1);
    if x == k - 1 {
        let n = arcs2.len() as int;
        let i = lemma_matches_all(arcs1[x], arcs2, n, j);
        assert(pair_steps(arcs1, arcs2, k)[before.len() + i] == matches_of(arcs1[x], arcs2, n)[i]);
        before.len() + i
    } else {
        let i = lemma_pair_steps_all(arcs1, arcs2, k - 1, x, j);
        assert(pair_steps(arcs1, arcs2, k)[i] == before[i]);
        i
    }
}

/// The machine paired with itself, state by state.
pub struct Pairing<'a, W> {
    fst: &'a VectorFst<W>,
}

impl<'a, W: Weight> Unfolding<W, (usize, usize)> for Pairing<'a, W> {
    type Model = FstV<W>;

    closed spec fn ready(&self) -> bool {
        true
    }

    closed spec fn model(&self) -> FstV<W> {
        self.fst@
    }

    open spec fn fits(v: FstV<W>, key: (usize, usize)) -> bool {
        v.wf() && key.0 < v.n() && key.1 < v.n()
    }

    open spec fn fails(v: FstV<W>, key: (usize, usize)) -> bool {
        false
    }

    open spec fn steps(v: FstV<W>, key: (usize, usize)) -> Seq<Step<W, (usize, usize)>> {
        let arcs = v.arcs(key.0 as int);
        pair_steps(arcs, v.arcs(key.1 as int), arcs.len() as int)
    }

    open spec fn ending(v: FstV<W>, key: (usize, usize)) -> W {
        if v.fin(key.0 as int) != W::spec_zero() && v.fin(key.1 as int) != W::spec_zero() {
            W::spec_one()
        } else {
            W::spec_zero()
        }
    }

    fn expand(&mut self, key: &(usize, usize)) -> (expansion: Option<
        (Vec<Step<W, (usize, usize)>>, W),
    >) {
        let ghost v = self.fst@;
        let (s1, s2) = *key;
        let arcs1 = self.fst.arcs(s1);
        let arcs2 = self.fst.arcs(s2);
        let mut steps: Vec<Step<W, (usize, usize)>> = Vec::new();
        let mut x: usize = 0;
        while x < arcs1.len()
            invariant
                x <= arcs1@.len(),
                steps@ == pair_steps(arcs1@, arcs2@, x as int),
            decreases arcs1@.len() - x,
        {
            let arc = &arcs1[x];
            let ghost before = steps@;
            let mut j: usize = 0;
            assert(before + matches_of(*arc, arcs2@, 0) =~= before);
            while j < arcs2.len()
                invariant
                    j <= arcs2@.len(),
                    steps@ == before + matches_of(*arc, arcs2@, j as int),
                decreases arcs2@.len() - j,
            {
                if arcs2[j].ilabel == arc.ilabel {
                    steps.push(
                        Step {
                            ilabel: arc.ilabel,
                            olabel: arc.ilabel,
                            weight: W::one(),
                            to: (arc.nextstate, arcs2[j].nextstate),
                        },
                    );
                }
                j = j + 1;
                assert(steps@ =~= before + matches_of(*arc, arcs2@, j as int));
            }
            x = x + 1;
        }
        proof {
            assert forall|i: int| 0 <= i < steps@.len() implies Self::fits(
                v,
                (#[trigger] steps@[i]).to,
            ) by {
                lemma_pair_steps_are(arcs1@, arcs2@, arcs1@.len() as int, i);
                let to = steps@[i].to;
                let label = steps@[i].ilabel;
                let a = choose|a: int|
                    0 <= a < arcs1@.len() && (#[trigger] arcs1@[a]).ilabel == label
                        && arcs1@[a].nextstate == to.0;
                let b = choose|b: int|
                    0 <= b < arcs2@.len() && (#[trigger] arcs2@[b]).ilabel == label
                        && arcs2@[b].nextstate == to.1;
                assert(v.states[s1 as int].arcs[a].nextstate < v.n());
                assert(v.states[s2 as int].arcs[b].nextstate < v.n());
            }
        }
        let zero = W::zero();
        let ends = !self.fst.final_weight(s1).same(&zero) && !self.fst.final_weight(s2).same(&zero);
        let weight = if ends {
            W::one()
        } else {
            zero
        };
        Some((steps, weight))
    }
}

/// Whether some string leads from the start to `a` and also to `b`.
pub open spec fn read_together<W: Weight>(v: FstV<W>, a: int, b: int) -> bool {
    v.start is Some && exists|x: Seq<i32>|
        reads_to(v, v.start->0 as int, x, a) && #[trigger] reads_to(v, v.start->0 as int, x, b)
}

/// Whether reading `x` from `a` leads to a state that weighs something to end in.
pub open spec fn ends_on<W: Weight>(v: FstV<W>, a: int, x: Seq<i32>) -> bool {
    exists|t: int| 0 <= t < v.n() && #[trigger] reads_to(v, a, x, t) && v.fin(t) != W::spec_zero()
}

/// Whether some path to an end from `a` carries the same labels as some path to an
/// end from `b`.
pub open spec fn share_future<W: Weight>(v: FstV<W>, a: int, b: int) -> bool {
    exists|x: Seq<i32>| #[trigger] ends_on(v, a, x) && ends_on(v, b, x)
}

/// Whether `a` and `b`, where one string may lead, could still spell the same thing to
/// the end. Where even the product of nothing is no weight to end with, nothing does.
pub open spec fn is_related<W: Weight>(v: FstV<W>, a: int, b: int) -> bool {
    &&& spec_is_final(W::spec_one())
    &&& read_together(v, a, b)
    &&& share_future(v, a, b)
}

/// What can be reached is what some string leads to.
pub proof fn lemma_reach_reads<W: Weight>(p: FstV<W>, s: int, t: int, k: nat) -> (x: Seq<i32>)
    requires
        p.wf(),
        0 <= s < p.n(),
        reach_in(full_graph(p), s, t, k),
    ensures
        reads_to(p, s, x, t),
        0 <= t < p.n(),
    decreases k,
{
    if k == 0 {
        Seq::empty()
    } else {
        let m = choose|m: int| #[trigger]
            full_graph(p)(s, m) && reach_in(full_graph(p), m, t, (k - 1) as nat);
        let i = choose|i: int|
            0 <= i < p.arcs(s).len() && (#[trigger] p.arcs(s)[i]).nextstate == m;
        assert(p.states[s].arcs[i].nextstate < p.n());
        let rest = lemma_reach_reads(p, m, t, (k - 1) as nat);
        lemma_reads_first(p, s, p.arcs(s)[i].ilabel, m, rest, t);
        seq![p.arcs(s)[i].ilabel] + rest
    }
}

/// An arc and then a string.
pub proof fn lemma_reads_first<W: Weight>(
    p: FstV<W>,
    s: int,
    label: i32,
    m: int,
    rest: Seq<i32>,
    t: int,
)
    requires
        0 <= s < p.n(),
        arc_reads(p.arcs(s), label, m),
        reads_to(p, m, rest, t),
    ensures
        reads_to(p, s, seq![label] + rest, t),
    decreases rest.len(),
{
    let all = seq![label] + rest;
    if rest.len() == 0 {
        assert(all.drop_last() =~= Seq::empty());
        assert(all.last() == label);
        assert(reads_to(p, s, all.drop_last(), s));
    } else {
        let q = choose|q: int|
            0 <= q < p.n() && reads_to(p, m, rest.drop_last(), q) && #[trigger] arc_reads(
                p.arcs(q),
                rest.last(),
                t,
            );
        lemma_reads_first(p, s, label, m, rest.drop_last(), q);
        assert(all.drop_last() =~= seq![label] + rest.drop_last());
        assert(all.last() == rest.last());
    }
}

/// Where a string leads can be reached.
pub proof fn lemma_reads_reach<W: Weight>(p: FstV<W>, s: int, x: Seq<i32>, t: int)
    requires
        reads_to(p, s, x, t),
    ensures
        reach(full_graph(p), s, t),
    decreases x.len(),
{
    if x.len() == 0 {
        crate::graph::lemma_reach_refl(full_graph(p), s);
    } else {
        let q = choose|q: int|
            0 <= q < p.n() && reads_to(p, s, x.drop_last(), q) && #[trigger] arc_reads(
                p.arcs(q),
                x.last(),
                t,
            );
        lemma_reads_reach(p, s, x.drop_last(), q);
        let i = choose|i: int|
            0 <= i < p.arcs(q).len() && (#[trigger] p.arcs(q)[i]).ilabel == x.last() && p.arcs(
                q,
            )[i].nextstate == t;
        assert(full_graph(p)(q, t));
        crate::graph::lemma_reach_edge(full_graph(p), q, t);
        crate::graph::lemma_reach_trans(full_graph(p), s, q, t);
    }
}

/// What the paired machine reads, both sides read.
proof fn lemma_pair_reads<W: Weight>(
    v: FstV<W>,
    table: Seq<(usize, usize)>,
    p: FstV<W>,
    s: int,
    x: Seq<i32>,
    t: int,
)
    requires
        p.n() == table.len(),
        pairs_unfold(v, table, p),
        0 <= s < p.n(),
        0 <= t < p.n(),
        forall|i: int| 0 <= i < table.len() ==> (#[trigger] table[i]).0 < v.n() && table[i].1
            < v.n(),
        reads_to(p, s, x, t),
    ensures
        reads_to(v, table[s].0 as int, x, table[t].0 as int),
        reads_to(v, table[s].1 as int, x, table[t].1 as int),
    decreases x.len(),
{
    if x.len() > 0 {
        let q = choose|q: int|
            0 <= q < p.n() && reads_to(p, s, x.drop_last(), q) && #[trigger] arc_reads(
                p.arcs(q),
                x.last(),
                t,
            );
        lemma_pair_reads(v, table, p, s, x.drop_last(), q);
        let i = choose|i: int|
            0 <= i < p.arcs(q).len() && (#[trigger] p.arcs(q)[i]).ilabel == x.last() && p.arcs(
                q,
            )[i].nextstate == t;
        assert(unfolds::<W, (usize, usize), Pairing<W>>(v, table[q], p.states[q], table));
        let arcs1 = v.arcs(table[q].0 as int);
        let arcs2 = v.arcs(table[q].1 as int);
        let steps = pair_steps(arcs1, arcs2, arcs1.len() as int);
        assert(numbered(steps[i], p.arcs(q)[i], table));
        lemma_pair_steps_are(arcs1, arcs2, arcs1.len() as int, i);
        assert(arc_reads(arcs1, x.last(), table[t].0 as int));
        assert(arc_reads(arcs2, x.last(), table[t].1 as int));
    }
}

/// Whether each state of `p` is what its pair unfolds to.
pub open spec fn pairs_unfold<W: Weight>(
    v: FstV<W>,
    table: Seq<(usize, usize)>,
    p: FstV<W>,
) -> bool {
    forall|s: int|
        0 <= s < p.states.len() ==> unfolds::<W, (usize, usize), Pairing<W>>(
            v,
            table[s],
            #[trigger] p.states[s],
            table,
        )
}

/// What both sides read, the paired machine reads.
proof fn lemma_both_read<W: Weight>(
    v: FstV<W>,
    table: Seq<(usize, usize)>,
    p: FstV<W>,
    s: int,
    x: Seq<i32>,
    a: int,
    b: int,
) -> (t: int)
    requires
        p.n() == table.len(),
        pairs_unfold(v, table, p),
        0 <= s < p.n(),
        forall|i: int| 0 <= i < table.len() ==> (#[trigger] table[i]).0 < v.n() && table[i].1
            < v.n(),
        reads_to(v, table[s].0 as int, x, a),
        reads_to(v, table[s].1 as int, x, b),
    ensures
        0 <= t < p.n(),
        reads_to(p, s, x, t),
        table[t].0 == a,
        table[t].1 == b,
    decreases x.len(),
{
    if x.len() == 0 {
        s
    } else {
        let qa = choose|q: int|
            0 <= q < v.n() && reads_to(v, table[s].0 as int, x.drop_last(), q)
                && #[trigger] arc_reads(v.arcs(q), x.last(), a);
        let qb = choose|q: int|
            0 <= q < v.n() && reads_to(v, table[s].1 as int, x.drop_last(), q)
                && #[trigger] arc_reads(v.arcs(q), x.last(), b);
        let q = lemma_both_read(v, table, p, s, x.drop_last(), qa, qb);
        let arcs1 = v.arcs(qa);
        let arcs2 = v.arcs(qb);
        let i = choose|i: int|
            0 <= i < arcs1.len() && (#[trigger] arcs1[i]).ilabel == x.last() && arcs1[i].nextstate
                == a;
        let j = choose|j: int|
            0 <= j < arcs2.len() && (#[trigger] arcs2[j]).ilabel == x.last() && arcs2[j].nextstate
                == b;
        let k = lemma_pair_steps_all(arcs1, arcs2, arcs1.len() as int, i, j);
        assert(unfolds::<W, (usize, usize), Pairing<W>>(v, table[q], p.states[q], table));
        let steps = pair_steps(arcs1, arcs2, arcs1.len() as int);
        assert(numbered(steps[k], p.arcs(q)[k], table));
        let t = p.arcs(q)[k].nextstate as int;
        assert(arc_reads(p.arcs(q), x.last(), t));
        t
    }
}

/// A pair is on a path of the paired machine if and only if it is related.
proof fn lemma_related<W: Weight>(v: FstV<W>, table: Seq<(usize, usize)>, p: FstV<W>, id: int)
    requires
        v.wf(),
        v.start is Some,
        p.start == Some(0usize),
        p.wf(),
        is_unfolding::<W, (usize, usize), Pairing<W>>(
            v,
            (v.start->0, v.start->0),
            true,
            table,
            p.states,
        ),
        forall|i: int| 0 <= i < table.len() ==> (#[trigger] table[i]).0 < v.n() && table[i].1
            < v.n(),
        0 <= id < p.n(),
    ensures
        on_path(p, id) <==> is_related(v, table[id].0 as int, table[id].1 as int),
{
    let a = table[id].0 as int;
    let b = table[id].1 as int;
    let s = v.start->0 as int;
    assert(pairs_unfold(v, table, p));
    if on_path(p, id) {
        let k = choose|k: nat| reach_in(full_graph(p), 0, id, k);
        let x = lemma_reach_reads(p, 0, id, k);
        lemma_pair_reads(v, table, p, 0, x, id);
        assert(reads_to(v, s, x, a) && reads_to(v, s, x, b));
        let f = choose|f: int|
            0 <= f < p.n() && p.is_final(f) && #[trigger] reach(full_graph(p), id, f);
        let k2 = choose|k2: nat| reach_in(full_graph(p), id, f, k2);
        let y = lemma_reach_reads(p, id, f, k2);
        lemma_pair_reads(v, table, p, id, y, f);
        assert(unfolds::<W, (usize, usize), Pairing<W>>(v, table[f], p.states[f], table));
        assert(reads_to(v, a, y, table[f].0 as int));
        assert(reads_to(v, b, y, table[f].1 as int));
        assert(ends_on(v, a, y) && ends_on(v, b, y));
    }
    if is_related(v, a, b) {
        let x = choose|x: Seq<i32>| reads_to(v, s, x, a) && #[trigger] reads_to(v, s, x, b);
        let i = lemma_both_read(v, table, p, 0, x, a, b);
        assert(table[i] == table[id]);
        crate::unfold::lemma_one_number(table, i, id);
        lemma_reads_reach(p, 0, x, id);
        let y = choose|y: Seq<i32>| #[trigger] ends_on(v, a, y) && ends_on(v, b, y);
        let ta = choose|t: int|
            0 <= t < v.n() && #[trigger] reads_to(v, a, y, t) && v.fin(t) != W::spec_zero();
        let tb = choose|t: int|
            0 <= t < v.n() && #[trigger] reads_to(v, b, y, t) && v.fin(t) != W::spec_zero();
        let f = lemma_both_read(v, table, p, id, y, ta, tb);
        lemma_reads_reach(p, id, y, f);
        assert(unfolds::<W, (usize, usize), Pairing<W>>(v, table[f], p.states[f], table));
        assert(p.is_final(f));
    }
}

/// Which pairs of states could still spell the same thing to the end.
///
/// Two states are related when some path from one to a final state carries the same
/// labels as some path from the other, which is exactly co-accessibility in the
/// machine paired with itself over matching labels. Only the pairs that one string
/// leads to are looked at.
pub fn common_future<W: Weight>(fst: &VectorFst<W>) -> (related: Table<(usize, usize)>)
    requires
        fst@.wf(),
    ensures
        related.wf(),
        forall|a: usize, b: usize| #[trigger]
            related@.contains((a, b)) <==> is_related(fst@, a as int, b as int),
{
    let ghost v = fst@;
    let mut related: Table<(usize, usize)> = Table::new();
    let start: usize = match fst.start() {
        Some(s) => s,
        None => {
            return related;
        },
    };
    let mut pairing = Pairing { fst };
    let mut product: VectorFst<W> = VectorFst::new();
    let built = unfold(&mut pairing, (start, start), true, None, &mut product);
    match built {
        None => {
            assert(false);
            related
        },
        Some(pairs) => {
            let ghost p = product@;
            let ghost table = pairs@;
            proof {
                assert(unfolded::<W, (usize, usize), Pairing<W>>(v, (start, start), true, p));
                lemma_unfolded_wf::<W, (usize, usize), Pairing<W>>(v, (start, start), true, p);
            }
            let flags = states_on_paths(&product);
            let n: usize = pairs.len();
            let mut id: usize = 0;
            while id < n
                invariant
                    id <= n,
                    n == table.len(),
                    n == p.n(),
                    flags@ == path_states(p),
                    pairs.wf(),
                    pairs@ == table,
                    related.wf(),
                    forall|i: int| 0 <= i < related@.len() ==> on_path_at(p, table, #[trigger] related@[i]),
                    forall|i: int|
                        0 <= i < id && on_path(p, i) ==> related@.contains(#[trigger] table[i]),
                decreases n - id,
            {
                if flags[id] {
                    let pair = *pairs.get(id);
                    let ghost before = related@;
                    related.insert(pair);
                    proof {
                        assert forall|i: int| 0 <= i < related@.len() implies on_path_at(
                            p,
                            table,
                            #[trigger] related@[i],
                        ) by {
                            if i < before.len() {
                                assert(related@[i] == before[i]);
                            } else {
                                assert(table[id as int] == related@[i]);
                            }
                        }
                        assert forall|i: int| 0 <= i <= id && on_path(p, i) implies related@.contains(
                            #[trigger] table[i],
                        ) by {
                            if i < id {
                                let j = choose|j: int| 0 <= j < before.len() && before[j] == table[i];
                                assert(related@[j] == table[i]);
                            }
                        }
                    }
                }
                id = id + 1;
            }
            proof {
                assert forall|a: usize, b: usize| #[trigger] related@.contains((a, b))
                    <==> is_related(v, a as int, b as int) by {
                    if related@.contains((a, b)) {
                        let i = choose|i: int| 0 <= i < related@.len() && related@[i] == (a, b);
                        assert(on_path_at(p, table, related@[i]));
                        let x = choose|x: int|
                            0 <= x < p.n() && #[trigger] table[x] == (a, b) && on_path(p, x);
                        lemma_related(v, table, p, x);
                    }
                    if is_related(v, a as int, b as int) {
                        let s = start as int;
                        let x = choose|x: Seq<i32>|
                            reads_to(v, s, x, a as int) && #[trigger] reads_to(v, s, x, b as int);
                        assert(pairs_unfold(v, table, p));
                        let i = lemma_both_read(v, table, p, 0, x, a as int, b as int);
                        lemma_related(v, table, p, i);
                        assert(related@.contains(table[i]));
                    }
                }
            }
            related
        },
    }
}

/// Whether a pair stands for a state that is on a path.
pub open spec fn on_path_at<W: Weight>(
    p: FstV<W>,
    table: Seq<(usize, usize)>,
    pair: (usize, usize),
) -> bool {
    exists|x: int| 0 <= x < p.n() && #[trigger] table[x] == pair && on_path(p, x)
}

} // verus!
