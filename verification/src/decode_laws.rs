//! What is left of a machine that is encoded and decoded again.
use crate::arc::Arc;
use crate::arc_map::{map_all, map_in_place};
use crate::connect::{path_states, trimmed};
use crate::encode::{
    decoded_machine, remembering, reversed, EncodeMapper, EncodeModel, ENCODE_WEIGHTS,
};
use crate::encode_laws::{
    are_encodable, is_encoder, law_machines_come_back, with_ending, with_endings,
};
use crate::graph::{full_graph, reach, reach_in, reaches_final};
use crate::rmfinalepsilon::{
    final_folded, folded_machine, folded_state, folded_weight, is_ending_arc,
    lemma_staying_among, only_ends, staying_arcs,
};
use crate::vector_fst::{kept_arcs, kept_states, rank, FstV};
use crate::weight::Weight;
use vstd::prelude::*;

verus! {

/// Whether `w` has the states of `v`, and perhaps more behind them.
spec fn goes_beyond<W: Weight>(v: FstV<W>, w: FstV<W>) -> bool {
    &&& v.wf()
    &&& w.start == v.start
    &&& v.n() <= w.n()
    &&& forall|s: int| 0 <= s < v.n() ==> #[trigger] w.states[s] == v.states[s]
}

/// What leads from one state of a machine to another leads there with more states behind.
proof fn lemma_same_ways<W: Weight>(v: FstV<W>, w: FstV<W>, a: int, b: int, k: nat)
    requires
        goes_beyond(v, w),
        0 <= a < v.n(),
    ensures
        reach_in(full_graph(w), a, b, k) <==> reach_in(full_graph(v), a, b, k),
        reach_in(full_graph(w), a, b, k) ==> 0 <= b < v.n(),
    decreases k,
{
    let gv = full_graph(v);
    let gw = full_graph(w);
    if k > 0 {
        assert(w.states[a] == v.states[a]);
        assert(w.arcs(a) == v.arcs(a));
        assert forall|m: int| #[trigger] gw(a, m) implies gv(a, m) && 0 <= m < v.n() by {
            let i = choose|i: int|
                0 <= i < w.arcs(a).len() && (#[trigger] w.arcs(a)[i]).nextstate == m;
            assert(v.arcs(a)[i].nextstate == m);
            assert(v.states[a].arcs[i].nextstate < v.n());
        }
        assert forall|m: int| #[trigger] gv(a, m) implies gw(a, m) && 0 <= m < v.n() by {
            let i = choose|i: int|
                0 <= i < v.arcs(a).len() && (#[trigger] v.arcs(a)[i]).nextstate == m;
            assert(w.arcs(a)[i].nextstate == m);
            assert(v.states[a].arcs[i].nextstate < v.n());
        }
        if reach_in(gw, a, b, k) {
            let m = choose|m: int| #[trigger] gw(a, m) && reach_in(gw, m, b, (k - 1) as nat);
            assert(gv(a, m));
            lemma_same_ways(v, w, m, b, (k - 1) as nat);
        }
        if reach_in(gv, a, b, k) {
            let m = choose|m: int| #[trigger] gv(a, m) && reach_in(gv, m, b, (k - 1) as nat);
            assert(gw(a, m));
            lemma_same_ways(v, w, m, b, (k - 1) as nat);
        }
    }
}

proof fn lemma_same_reach<W: Weight>(v: FstV<W>, w: FstV<W>, a: int, b: int)
    requires
        goes_beyond(v, w),
        0 <= a < v.n(),
    ensures
        reach(full_graph(w), a, b) <==> reach(full_graph(v), a, b),
        reach(full_graph(w), a, b) ==> 0 <= b < v.n(),
{
    if reach(full_graph(w), a, b) {
        let k = choose|k: nat| reach_in(full_graph(w), a, b, k);
        lemma_same_ways(v, w, a, b, k);
    }
    if reach(full_graph(v), a, b) {
        let k = choose|k: nat| reach_in(full_graph(v), a, b, k);
        lemma_same_ways(v, w, a, b, k);
    }
}

proof fn lemma_same_finals_reached<W: Weight>(v: FstV<W>, w: FstV<W>, s: int)
    requires
        goes_beyond(v, w),
        0 <= s < v.n(),
    ensures
        reaches_final(w, full_graph(w), s) <==> reaches_final(v, full_graph(v), s),
{
    if reaches_final(w, full_graph(w), s) {
        let f = choose|f: int| 0 <= f < w.n() && w.is_final(f) && #[trigger]
            reach(full_graph(w), s, f);
        lemma_same_reach(v, w, s, f);
        assert(w.states[f] == v.states[f]);
        assert(v.is_final(f) && reach(full_graph(v), s, f));
    }
    if reaches_final(v, full_graph(v), s) {
        let f = choose|f: int| 0 <= f < v.n() && v.is_final(f) && #[trigger]
            reach(full_graph(v), s, f);
        lemma_same_reach(v, w, s, f);
        assert(w.states[f] == v.states[f]);
        assert(w.is_final(f) && reach(full_graph(w), s, f));
    }
}

/// States behind a machine that nothing leads to are trimmed away.
proof fn lemma_trimmed_alike<W: Weight>(v: FstV<W>, w: FstV<W>)
    requires
        goes_beyond(v, w),
    ensures
        trimmed(w).start == trimmed(v).start,
        trimmed(w).states == trimmed(v).states,
{
    let kv = path_states(v);
    let kw = path_states(w);
    let n = v.n() as int;
    assert forall|s: int| 0 <= s < w.n() implies #[trigger] kw[s] == (s < n && kv[s]) by {
        if v.start is Some {
            lemma_same_reach(v, w, v.start->0 as int, s);
            if s < n {
                lemma_same_finals_reached(v, w, s);
            }
        }
    }
    lemma_same_kept(v, w, kv, kw, n);
    lemma_none_kept_behind(w, kw, n, w.n() as int);
    if v.start is Some {
        lemma_same_rank(kv, kw, v.start->0 as int);
    }
}

proof fn lemma_same_rank(kv: Seq<bool>, kw: Seq<bool>, k: int)
    requires
        k <= kv.len() <= kw.len(),
        forall|s: int| 0 <= s < kv.len() ==> #[trigger] kw[s] == kv[s],
    ensures
        rank(kw, k) == rank(kv, k),
    decreases k,
{
    if k > 0 {
        lemma_same_rank(kv, kw, k - 1);
        assert(kw[k - 1] == kv[k - 1]);
    }
}

proof fn lemma_same_kept_arcs<W: Weight>(
    v: FstV<W>,
    s: int,
    kv: Seq<bool>,
    kw: Seq<bool>,
    k: int,
)
    requires
        v.wf(),
        0 <= s < v.n(),
        0 <= k <= v.states[s].arcs.len(),
        kv.len() == v.n(),
        kv.len() <= kw.len(),
        forall|x: int| 0 <= x < kv.len() ==> #[trigger] kw[x] == kv[x],
    ensures
        kept_arcs(v.states[s].arcs, kw, k) == kept_arcs(v.states[s].arcs, kv, k),
    decreases k,
{
    if k > 0 {
        lemma_same_kept_arcs(v, s, kv, kw, k - 1);
        let t = v.states[s].arcs[k - 1].nextstate as int;
        assert(t < v.n());
        assert(kw[t] == kv[t]);
        lemma_same_rank(kv, kw, t);
    }
}

proof fn lemma_same_kept<W: Weight>(v: FstV<W>, w: FstV<W>, kv: Seq<bool>, kw: Seq<bool>, k: int)
    requires
        goes_beyond(v, w),
        0 <= k <= v.n(),
        kv.len() == v.n(),
        kw.len() == w.n(),
        forall|x: int| 0 <= x < kv.len() ==> #[trigger] kw[x] == kv[x],
    ensures
        kept_states(w.states, kw, k) == kept_states(v.states, kv, k),
    decreases k,
{
    if k > 0 {
        lemma_same_kept(v, w, kv, kw, k - 1);
        assert(w.states[k - 1] == v.states[k - 1]);
        assert(kw[k - 1] == kv[k - 1]);
        lemma_same_kept_arcs(v, k - 1, kv, kw, v.states[k - 1].arcs.len() as int);
    }
}

proof fn lemma_none_kept_behind<W: Weight>(w: FstV<W>, kw: Seq<bool>, n: int, k: int)
    requires
        0 <= n <= k <= w.n(),
        kw.len() == w.n(),
        forall|s: int| n <= s < w.n() ==> !(#[trigger] kw[s]),
    ensures
        kept_states(w.states, kw, k) == kept_states(w.states, kw, n),
    decreases k,
{
    if k > n {
        lemma_none_kept_behind(w, kw, n, k - 1);
    }
}

/// Whether One times a weight and Zero added is the weight, for the weights that paths of
/// `v` end with.
pub open spec fn endings_are_kept<W: Weight>(v: FstV<W>) -> bool {
    &&& W::spec_one() != W::spec_zero()
    &&& forall|s: int|
        0 <= s < v.n() && #[trigger] v.fin(s) != W::spec_zero()
            ==> W::spec_one().spec_times(v.fin(s)).spec_plus(W::spec_zero()) == v.fin(s)
}

/// The arcs that do not lead where paths only end stay.
proof fn lemma_all_stay<W: Weight>(x: FstV<W>, arcs: Seq<Arc<W>>, weight: W, k: int)
    requires
        0 <= k <= arcs.len(),
        forall|i: int| 0 <= i < k ==> !is_ending_arc(x, #[trigger] arcs[i]),
    ensures
        staying_arcs(x, arcs, k) == arcs.take(k),
        folded_weight(x, weight, arcs, k) == weight,
    decreases k,
{
    if k > 0 {
        lemma_all_stay(x, arcs, weight, k - 1);
        assert(arcs.take(k) =~= arcs.take(k - 1).push(arcs[k - 1]));
        assert(!is_ending_arc(x, arcs[k - 1]));
    } else {
        assert(arcs.take(0) =~= Seq::empty());
    }
}

/// Folding the arcs that final weights had become gives the states back.
proof fn lemma_endings_fold_back<W: Weight>(flags: u8, v: FstV<W>, x: FstV<W>, s: int)
    requires
        v.wf(),
        v.n() < usize::MAX,
        flags & ENCODE_WEIGHTS != 0,
        endings_are_kept(v),
        x.states == with_endings(flags, v),
        0 <= s < v.n(),
    ensures
        folded_state(x, s) == v.states[s],
{
    let n = v.n() as int;
    let state = v.states[s];
    assert(x.states[s] == with_ending(flags, state, n as usize));
    let arcs = x.arcs(s);
    let k = state.arcs.len() as int;
    assert forall|i: int| 0 <= i < k implies !is_ending_arc(x, #[trigger] arcs[i]) by {
        let t = state.arcs[i].nextstate as int;
        assert(v.states[s].arcs[i].nextstate < v.n());
        assert(arcs[i] == state.arcs[i]);
        assert(x.states[t] == with_ending(flags, v.states[t], n as usize));
        assert(x.fin(t) == W::spec_zero());
    }
    lemma_all_stay(x, arcs, x.fin(s), k);
    assert(arcs.take(k) =~= state.arcs);
    if state.final_weight != W::spec_zero() {
        assert(arcs.len() == k + 1);
        let over = arcs[k];
        assert(over.nextstate == n);
        assert(x.states[n].arcs.len() == 0);
        assert(x.arcs(n).len() == 0);
        assert(x.fin(n) == W::spec_one());
        assert(only_ends(x, n));
        assert(is_ending_arc(x, over));
        assert(staying_arcs(x, arcs, k + 1) == staying_arcs(x, arcs, k));
        assert(folded_weight(x, x.fin(s), arcs, k + 1) == W::spec_one().spec_times(
            v.fin(s),
        ).spec_plus(W::spec_zero()));
    } else {
        assert(arcs.len() == k);
    }
}

/// Folding looks at nothing but the start and the states.
proof fn lemma_folded_alike<W: Weight>(v: FstV<W>, x: FstV<W>)
    requires
        v.wf(),
        v.start is Some,
        x.start == v.start,
        x.states == v.states,
    ensures
        final_folded(x).start == final_folded(v).start,
        final_folded(x).states == final_folded(v).states,
{
    let fv = folded_machine(v);
    let fx = folded_machine(x);
    assert forall|s: int| 0 <= s < v.n() implies #[trigger] fx.states[s] == fv.states[s] by {
        lemma_same_folding(v, x, s, v.arcs(s).len() as int);
        assert(x.arcs(s) == v.arcs(s));
        assert(x.fin(s) == v.fin(s));
    }
    assert forall|s: int, i: int| 0 <= s < fv.n() && 0 <= i < fv.states[s].arcs.len() implies (
    #[trigger] fv.states[s].arcs[i]).nextstate < fv.n() by {
        lemma_staying_among(v, v.arcs(s), v.arcs(s).len() as int, i);
        let j = choose|j: int|
            0 <= j < v.arcs(s).len() && v.arcs(s)[j] == folded_state(v, s).arcs[i];
        assert(v.states[s].arcs[j].nextstate < v.n());
    }
    lemma_trimmed_alike(fv, fx);
}

proof fn lemma_same_folding<W: Weight>(v: FstV<W>, x: FstV<W>, s: int, k: int)
    requires
        v.wf(),
        x.start == v.start,
        x.states == v.states,
        0 <= s < v.n(),
        0 <= k <= v.arcs(s).len(),
    ensures
        staying_arcs(x, v.arcs(s), k) == staying_arcs(v, v.arcs(s), k),
        folded_weight(x, v.fin(s), v.arcs(s), k) == folded_weight(v, v.fin(s), v.arcs(s), k),
    decreases k,
{
    if k > 0 {
        lemma_same_folding(v, x, s, k - 1);
        let t = v.arcs(s)[k - 1].nextstate as int;
        assert(v.states[s].arcs[k - 1].nextstate < v.n());
        assert(x.arcs(t) == v.arcs(t) && x.fin(t) == v.fin(t));
        assert forall|i: int| 0 <= i < v.arcs(t).len() implies reaches_final(
            x,
            full_graph(x),
            (#[trigger] v.arcs(t)[i]).nextstate as int,
        ) == reaches_final(v, full_graph(v), v.arcs(t)[i].nextstate as int) by {
            assert(v.states[t].arcs[i].nextstate < v.n());
            lemma_same_finals_reached(v, x, v.arcs(t)[i].nextstate as int);
        }
        assert(only_ends(x, t) == only_ends(v, t));
    }
}

/// A machine that is encoded and decoded again is the machine, trimmed: where weights are
/// encoded, final weights turned into arcs are final weights again, and each state that is
/// on a successful path has its arcs and its final weight back; where they are not,
/// decoding has folded the epsilon arcs that only led to an end, and nothing else. The
/// symbol tables are back either way.
///
/// No arc of the machine may read a label that stands for no label, and there may be no
/// more triples than there are labels.
pub proof fn law_decoding_gives_the_machine_back<W: Weight>(m: EncodeModel<W>, v: FstV<W>)
    requires
        v.wf(),
        v.start is Some,
        v.n() < usize::MAX,
        is_encoder(m),
        forall|s: int| 0 <= s < v.n() ==> are_encodable((#[trigger] v.states[s]).arcs),
        map_all::<W, W, EncodeMapper<W>>(remembering(m, v), v).model.table.triples.len()
            <= i32::MAX,
        m.flags & ENCODE_WEIGHTS != 0 ==> endings_are_kept(v),
    ensures
        ({
            let after = map_all::<W, W, EncodeMapper<W>>(remembering(m, v), v).model;
            let encoded = map_in_place::<W, EncodeMapper<W>>(remembering(m, v), v);
            let decoded = decoded_machine(after, encoded);
            let expected = if m.flags & ENCODE_WEIGHTS != 0 {
                trimmed(v)
            } else {
                final_folded(v)
            };
            &&& decoded.start == expected.start
            &&& decoded.states == expected.states
            &&& decoded.isymbols == v.isymbols
            &&& decoded.osymbols == v.osymbols
        }),
{
    law_machines_come_back(m, v);
    let after = map_all::<W, W, EncodeMapper<W>>(remembering(m, v), v).model;
    let encoded = map_in_place::<W, EncodeMapper<W>>(remembering(m, v), v);
    let x = map_in_place::<W, EncodeMapper<W>>(reversed(after), encoded);
    if m.flags & ENCODE_WEIGHTS != 0 {
        let folded = folded_machine(x);
        assert forall|s: int| 0 <= s < v.n() implies #[trigger] folded.states[s]
            == v.states[s] by {
            lemma_endings_fold_back(m.flags, v, x, s);
        }
        lemma_trimmed_alike(v, folded);
    } else {
        assert(x.states =~= v.states) by {
            assert forall|s: int| 0 <= s < v.n() implies x.states[s] == v.states[s] by {
                assert(with_endings(m.flags, v)[s] == with_ending(
                    m.flags,
                    v.states[s],
                    v.n() as usize,
                ));
            }
        }
        lemma_folded_alike(v, x);
    }
}

} // verus!
