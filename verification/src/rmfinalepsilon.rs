//! Folding epsilon arcs to states where paths only end into final weights.
use crate::arc::{Arc, EPSILON};
use crate::cc_visitors::SccVisitor;
use crate::connect::{connect, lemma_run_on_paths, succeeds, trimmed};
use crate::dfs_visit::{dfs_visit_any, law_whole_search_visits_all, legal, DfsVisitor, Search};
use crate::graph::{full_graph, reaches_final};
use crate::paths::{
    end_of, is_accepting, is_run, lemma_run_stays, reads, state_at, steps, writes,
};
use crate::vector_fst::{lemma_forget_forget, FstV, StateV, VectorFst};
use crate::weight::Weight;
use vstd::prelude::*;

verus! {

/// Whether a path that ends in `s` cannot have gone on from there: `s` is final, and
/// none of its arcs leads to a final state.
pub open spec fn only_ends<W: Weight>(v: FstV<W>, s: int) -> bool {
    &&& v.fin(s) != W::spec_zero()
    &&& forall|i: int|
        0 <= i < v.arcs(s).len() ==> !reaches_final(
            v,
            full_graph(v),
            (#[trigger] v.arcs(s)[i]).nextstate as int,
        )
}

/// Whether an arc reads and writes nothing, and leads to where paths only end.
pub open spec fn is_ending_arc<W: Weight>(v: FstV<W>, arc: Arc<W>) -> bool {
    arc.ilabel == EPSILON && arc.olabel == EPSILON && only_ends(v, arc.nextstate as int)
}

/// Those of the first `k` arcs that stay.
pub open spec fn staying_arcs<W: Weight>(v: FstV<W>, arcs: Seq<Arc<W>>, k: int) -> Seq<Arc<W>>
    decreases k,
{
    if k <= 0 {
        Seq::empty()
    } else if is_ending_arc(v, arcs[k - 1]) {
        staying_arcs(v, arcs, k - 1)
    } else {
        staying_arcs(v, arcs, k - 1).push(arcs[k - 1])
    }
}

/// What `weight` becomes with those of the first `k` arcs that do not stay.
pub open spec fn folded_weight<W: Weight>(v: FstV<W>, weight: W, arcs: Seq<Arc<W>>, k: int) -> W
    decreases k,
{
    if k <= 0 {
        weight
    } else {
        let before = folded_weight(v, weight, arcs, k - 1);
        let arc = arcs[k - 1];
        if is_ending_arc(v, arc) {
            v.fin(arc.nextstate as int).spec_times(arc.weight).spec_plus(before)
        } else {
            before
        }
    }
}

/// A state with its ending arcs folded into its final weight.
pub open spec fn folded_state<W: Weight>(v: FstV<W>, s: int) -> StateV<W> {
    let arcs = v.arcs(s);
    StateV {
        final_weight: folded_weight(v, v.fin(s), arcs, arcs.len() as int),
        arcs: staying_arcs(v, arcs, arcs.len() as int),
    }
}

/// The machine with its ending arcs folded into final weights.
pub open spec fn folded_machine<W: Weight>(v: FstV<W>) -> FstV<W> {
    v.with_states(Seq::new(v.n(), |s: int| folded_state(v, s)))
}

/// The machine with its ending arcs folded into final weights, trimmed.
pub open spec fn final_folded<W: Weight>(v: FstV<W>) -> FstV<W> {
    if v.start is None {
        trimmed(v)
    } else {
        trimmed(folded_machine(v))
    }
}

/// Which states lead to a final one.
fn leading_to_final<W: Weight>(fst: &VectorFst<W>) -> (leads: Vec<bool>)
    requires
        fst@.wf(),
        fst@.start is Some,
    ensures
        leads@.len() == fst@.n(),
        forall|s: int|
            0 <= s < fst@.n() ==> #[trigger] leads@[s] == reaches_final(fst@, full_graph(fst@), s),
{
    let ghost v = fst@;
    let n: usize = fst.num_states();
    let mut visitor = SccVisitor::new(fst, 0);
    dfs_visit_any(fst, &mut visitor);
    let ghost m = choose|m: Search<W>|
        {
            &&& #[trigger] visitor.done(v, m)
            &&& legal(v, m)
            &&& m.next_call(v) is None
            &&& m.accept == crate::graph::any_arc::<W>()
            &&& !m.single
        };
    proof {
        assert(visitor.found(v, m));
        law_whole_search_visits_all(v, m);
    }
    let coaccess = visitor.coaccess();
    assert forall|s: int| 0 <= s < n implies (#[trigger] coaccess@.contains(s) <==> reaches_final(
        v,
        full_graph(v),
        s,
    )) by {
        assert(m.disc.contains(s as usize));
    }
    let mut leads: Vec<bool> = Vec::new();
    let mut s: usize = 0;
    while s < n
        invariant
            s <= n,
            n == v.n(),
            leads@.len() == s,
            forall|x: int|
                0 <= x < n ==> (#[trigger] coaccess@.contains(x) <==> reaches_final(
                    v,
                    full_graph(v),
                    x,
                )),
            forall|x: int|
                0 <= x < s ==> #[trigger] leads@[x] == reaches_final(v, full_graph(v), x),
        decreases n - s,
    {
        let b: bool = coaccess.contains(s);
        assert(coaccess@.contains(s as int) <==> reaches_final(v, full_graph(v), s as int));
        leads.push(b);
        s = s + 1;
    }
    leads
}

/// Which states are where paths only end.
fn ends_of<W: Weight>(fst: &VectorFst<W>) -> (ends: Vec<bool>)
    requires
        fst@.wf(),
        fst@.start is Some,
    ensures
        ends@.len() == fst@.n(),
        forall|s: int| 0 <= s < fst@.n() ==> #[trigger] ends@[s] == only_ends(fst@, s),
{
    let ghost v = fst@;
    let leads = leading_to_final(fst);
    let n: usize = fst.num_states();
    let zero = W::zero();
    let mut ends: Vec<bool> = Vec::new();
    let mut s: usize = 0;
    while s < n
        invariant
            s <= n,
            n == v.n(),
            v == fst@,
            v.wf(),
            zero == W::spec_zero(),
            ends@.len() == s,
            leads@.len() == n,
            forall|x: int|
                0 <= x < n ==> #[trigger] leads@[x] == reaches_final(v, full_graph(v), x),
            forall|x: int| 0 <= x < s ==> #[trigger] ends@[x] == only_ends(v, x),
        decreases n - s,
    {
        let arcs = fst.arcs(s);
        let mut ending = !fst.final_weight(s).same(&zero);
        let mut i: usize = 0;
        while i < arcs.len()
            invariant
                i <= arcs@.len(),
                s < n,
                n == v.n(),
                v.wf(),
                arcs@ == v.arcs(s as int),
                leads@.len() == n,
                forall|x: int|
                    0 <= x < n ==> #[trigger] leads@[x] == reaches_final(v, full_graph(v), x),
                ending == (v.fin(s as int) != W::spec_zero() && forall|j: int|
                    0 <= j < i ==> !reaches_final(
                        v,
                        full_graph(v),
                        (#[trigger] arcs@[j]).nextstate as int,
                    )),
            decreases arcs@.len() - i,
        {
            assert(v.states[s as int].arcs[i as int].nextstate < v.n());
            if leads[arcs[i].nextstate] {
                assert(reaches_final(v, full_graph(v), arcs@[i as int].nextstate as int));
                ending = false;
            }
            i = i + 1;
        }
        ends.push(ending);
        s = s + 1;
    }
    ends
}

/// Folds epsilon arcs to states where paths only end into final weights, and trims
/// the machine.
pub fn rm_final_epsilon<W: Weight>(fst: &mut VectorFst<W>)
    requires
        old(fst)@.wf(),
    ensures
        final(fst)@ == final_folded(old(fst)@),
        final(fst)@.wf(),
{
    let ghost v = fst@;
    if fst.start().is_none() {
        connect(fst);
        return;
    }
    let ends = ends_of(&*fst);
    let n: usize = fst.num_states();
    let mut finals: Vec<W> = Vec::new();
    let mut t: usize = 0;
    while t < n
        invariant
            t <= n,
            n == v.n(),
            v == fst@,
            finals@.len() == t,
            forall|x: int| 0 <= x < t ==> #[trigger] finals@[x] == v.fin(x),
        decreases n - t,
    {
        finals.push(fst.final_weight(t));
        t = t + 1;
    }
    proof {
        lemma_forget_forget(v);
    }
    let mut s: usize = 0;
    while s < n
        invariant
            s <= n,
            n == v.n(),
            v.wf(),
            v.forget().forget() == v.forget(),
            fst@.n() == n,
            fst@ == (FstV { states: fst@.states, props: fst@.props, ..v }),
            fst@.forget().props == v.forget().props,
            ends@.len() == n,
            finals@.len() == n,
            forall|x: int| 0 <= x < n ==> #[trigger] ends@[x] == only_ends(v, x),
            forall|x: int| 0 <= x < n ==> #[trigger] finals@[x] == v.fin(x),
            forall|x: int| 0 <= x < s ==> #[trigger] fst@.states[x] == folded_state(v, x),
            forall|x: int| s <= x < n ==> #[trigger] fst@.states[x] == v.states[x],
        decreases n - s,
    {
        let mut weight = fst.final_weight(s);
        let mut arcs: Vec<Arc<W>> = Vec::new();
        let from = fst.arcs(s);
        assert(fst@.states[s as int] == v.states[s as int]);
        let ghost all = v.arcs(s as int);
        let mut i: usize = 0;
        while i < from.len()
            invariant
                i <= from@.len(),
                s < n,
                n == v.n(),
                v.wf(),
                from@ == v.arcs(s as int),
                all == v.arcs(s as int),
                ends@.len() == n,
                finals@.len() == n,
                forall|x: int| 0 <= x < n ==> #[trigger] ends@[x] == only_ends(v, x),
                forall|x: int| 0 <= x < n ==> #[trigger] finals@[x] == v.fin(x),
                arcs@ == staying_arcs(v, all, i as int),
                weight == folded_weight(v, v.fin(s as int), all, i as int),
            decreases from@.len() - i,
        {
            let arc = &from[i];
            assert(v.states[s as int].arcs[i as int].nextstate < v.n());
            // Sums up all epsilon arcs.
            if arc.ilabel == EPSILON && arc.olabel == EPSILON && ends[arc.nextstate] {
                weight = finals[arc.nextstate].times(&arc.weight).plus(&weight);
            } else {
                arcs.push(arc.duplicate());
            }
            i = i + 1;
        }
        let ghost before = fst@;
        fst.set_final(s, weight);
        fst.set_arcs(s, arcs);
        assert(fst@.states[s as int] == folded_state(v, s as int));
        proof {
            lemma_forget_forget(before);
        }
        s = s + 1;
    }
    let ghost folded = v.with_states(Seq::new(v.n(), |x: int| folded_state(v, x)));
    proof {
        assert(fst@.states =~= folded.states);
        assert(fst@.forget() == folded.forget()) by {
            lemma_forget_forget(v);
        }
        assert forall|x: int, i: int|
            0 <= x < fst@.n() && 0 <= i < fst@.states[x].arcs.len() implies (
        #[trigger] fst@.states[x].arcs[i]).nextstate < fst@.n() by {
            lemma_staying_among(v, v.arcs(x), v.arcs(x).len() as int, i);
            let j = choose|j: int|
                0 <= j < v.arcs(x).len() && v.arcs(x)[j] == folded_state(v, x).arcs[i];
            assert(v.states[x].arcs[j].nextstate < v.n());
        }
        lemma_trimmed_forgets(fst@, folded);
    }
    connect(fst);
}

pub proof fn lemma_staying_among<W: Weight>(v: FstV<W>, arcs: Seq<Arc<W>>, k: int, i: int)
    requires
        0 <= k <= arcs.len(),
        0 <= i < staying_arcs(v, arcs, k).len(),
    ensures
        exists|j: int| 0 <= j < k && arcs[j] == staying_arcs(v, arcs, k)[i],
    decreases k,
{
    let before = staying_arcs(v, arcs, k - 1);
    if i < before.len() {
        lemma_staying_among(v, arcs, k - 1, i);
    } else {
        assert(arcs[k - 1] == staying_arcs(v, arcs, k)[i]);
    }
}

/// Trimming forgets all it is told of a machine.
proof fn lemma_trimmed_forgets<W: Weight>(a: FstV<W>, b: FstV<W>)
    requires
        a.forget() == b.forget(),
    ensures
        trimmed(a) == trimmed(b),
{
    assert(a.states == a.forget().states);
    assert(b.states == b.forget().states);
    assert(full_graph(a) =~= full_graph(b)) by {
        assert forall|s: int, t: int| #[trigger] full_graph(a)(s, t) == full_graph(b)(s, t) by {
            if full_graph(a)(s, t) {
                let i = choose|i: int|
                    0 <= i < a.arcs(s).len() && (#[trigger] a.arcs(s)[i]).nextstate == t;
                assert(b.arcs(s)[i].nextstate == t);
            }
            if full_graph(b)(s, t) {
                let i = choose|i: int|
                    0 <= i < b.arcs(s).len() && (#[trigger] b.arcs(s)[i]).nextstate == t;
                assert(a.arcs(s)[i].nextstate == t);
            }
        }
    }
    assert(crate::connect::path_states(a) =~= crate::connect::path_states(b)) by {
        assert forall|s: int| 0 <= s < a.n() implies crate::connect::on_path(a, s)
            == crate::connect::on_path(b, s) by {
            assert(reaches_final(a, full_graph(a), s) == reaches_final(b, full_graph(b), s)) by {
                if reaches_final(a, full_graph(a), s) {
                    let f = choose|f: int|
                        0 <= f < a.n() && a.is_final(f) && #[trigger] crate::graph::reach(
                            full_graph(a),
                            s,
                            f,
                        );
                    assert(b.is_final(f));
                }
                if reaches_final(b, full_graph(b), s) {
                    let f = choose|f: int|
                        0 <= f < b.n() && b.is_final(f) && #[trigger] crate::graph::reach(
                            full_graph(b),
                            s,
                            f,
                        );
                    assert(a.is_final(f));
                }
            }
        }
    }
}

/// An arc that does not only end stays.
proof fn lemma_staying_has<W: Weight>(v: FstV<W>, arcs: Seq<Arc<W>>, k: int, i: int)
    requires
        0 <= i < k <= arcs.len(),
        !is_ending_arc(v, arcs[i]),
    ensures
        staying_arcs(v, arcs, k).contains(arcs[i]),
    decreases k,
{
    let all = staying_arcs(v, arcs, k);
    if i == k - 1 {
        assert(all.last() == arcs[i]);
    } else {
        lemma_staying_has(v, arcs, k - 1, i);
        let before = staying_arcs(v, arcs, k - 1);
        let j = choose|j: int| 0 <= j < before.len() && before[j] == arcs[i];
        assert(all[j] == arcs[i]);
    }
}

/// Nothing is folded into a final weight where no arc only ends.
proof fn lemma_nothing_folded<W: Weight>(v: FstV<W>, weight: W, arcs: Seq<Arc<W>>, k: int)
    requires
        0 <= k <= arcs.len(),
        forall|i: int| 0 <= i < k ==> !is_ending_arc(v, #[trigger] arcs[i]),
    ensures
        folded_weight(v, weight, arcs, k) == weight,
    decreases k,
{
    if k > 0 {
        lemma_nothing_folded(v, weight, arcs, k - 1);
    }
}

/// A successful path is still there once ending arcs have been folded, up to the last of
/// its arcs if that is one of them: what it weighed to end there is among what the final
/// weight is the sum of. The path reads and writes what it did.
pub proof fn law_folding_keeps_paths<W: Weight>(v: FstV<W>, run: Seq<Arc<W>>) -> (base: Seq<Arc<W>>)
    requires
        v.wf(),
        succeeds(v, run),
    ensures
        is_run(folded_machine(v), v.start->0 as int, base),
        reads(base) == reads(run),
        writes(base) == writes(run),
        base == run || (run.len() > 0 && base == run.drop_last() && is_ending_arc(v, run.last())
            && v.arcs(end_of(v.start->0 as int, base)).contains(run.last())),
{
    let s = v.start->0 as int;
    let f = folded_machine(v);
    let n = run.len() as int;
    assert forall|i: int| 0 <= i < n - 1 implies !is_ending_arc(v, #[trigger] run[i]) by {
        let t = run[i].nextstate as int;
        lemma_run_on_paths(v, run, i + 2);
        assert(steps(v, s, run, i + 1));
        assert(state_at(s, run, i + 1) == t);
        let j = choose|j: int| 0 <= j < v.arcs(t).len() && v.arcs(t)[j] == run[i + 1];
        assert(v.arcs(t)[j].nextstate == state_at(s, run, i + 2));
    }
    let base = if n > 0 && is_ending_arc(v, run[n - 1]) {
        run.drop_last()
    } else {
        run
    };
    assert forall|i: int| 0 <= i < base.len() implies #[trigger] steps(f, s, base, i) by {
        assert(steps(v, s, run, i));
        let p = state_at(s, run, i);
        assert(state_at(s, base, i) == p);
        let j = choose|j: int| 0 <= j < v.arcs(p).len() && v.arcs(p)[j] == run[i];
        lemma_staying_has(v, v.arcs(p), v.arcs(p).len() as int, j);
        assert(f.states[p] == folded_state(v, p));
    }
    if base.len() < n {
        assert(steps(v, s, run, n - 1));
        assert(state_at(s, run, n - 1) == end_of(s, base));
    }
    base
}

/// Folding adds no path: where a path ends once ending arcs have been folded, it ended
/// before, or went on by one of those arcs.
pub proof fn law_folding_adds_no_path<W: Weight>(v: FstV<W>, base: Seq<Arc<W>>) -> (run: Seq<Arc<W>>)
    requires
        v.wf(),
        is_accepting(folded_machine(v), base),
    ensures
        is_accepting(v, run),
        reads(run) == reads(base),
        writes(run) == writes(base),
        run == base || (run.len() > 0 && base == run.drop_last() && is_ending_arc(v, run.last())),
{
    let s = v.start->0 as int;
    let f = folded_machine(v);
    assert forall|i: int| 0 <= i < base.len() implies #[trigger] steps(v, s, base, i) by {
        assert(steps(f, s, base, i));
        let p = state_at(s, base, i);
        assert(f.states[p] == folded_state(v, p));
        let j = choose|j: int| 0 <= j < f.arcs(p).len() && f.arcs(p)[j] == base[i];
        lemma_staying_among(v, v.arcs(p), v.arcs(p).len() as int, j);
    }
    let e = end_of(s, base);
    lemma_run_stays(v, s, base, base.len() as int);
    let arcs = v.arcs(e);
    assert(f.states[e] == folded_state(v, e));
    if v.fin(e) != W::spec_zero() {
        base
    } else {
        if forall|i: int| 0 <= i < arcs.len() ==> !is_ending_arc(v, #[trigger] arcs[i]) {
            lemma_nothing_folded(v, v.fin(e), arcs, arcs.len() as int);
        }
        let i = choose|i: int| 0 <= i < arcs.len() && is_ending_arc(v, #[trigger] arcs[i]);
        let run = base.push(arcs[i]);
        assert(v.states[e].arcs[i].nextstate < v.n());
        assert forall|k: int| 0 <= k < run.len() implies #[trigger] steps(v, s, run, k) by {
            if k < base.len() {
                assert(steps(v, s, base, k));
                assert(state_at(s, run, k) == state_at(s, base, k));
            } else {
                assert(state_at(s, run, k) == e);
            }
        }
        assert(run.drop_last() =~= base);
        run
    }
}

/// An arc that stays does not end.
pub proof fn lemma_staying_does_not_end<W: Weight>(v: FstV<W>, arcs: Seq<Arc<W>>, k: int, j: int)
    requires
        0 <= k <= arcs.len(),
        0 <= j < staying_arcs(v, arcs, k).len(),
    ensures
        !is_ending_arc(v, staying_arcs(v, arcs, k)[j]),
    decreases k,
{
    let before = staying_arcs(v, arcs, k - 1);
    if j < before.len() {
        lemma_staying_does_not_end(v, arcs, k - 1, j);
    }
}

} // verus!
