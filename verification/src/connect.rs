//! Trimming a machine, and collapsing what goes round in it.
use crate::arc::Arc;
use crate::cc_visitors::SccVisitor;
use crate::dfs_visit::{dfs_visit_any, law_whole_search_visits_all, legal, lemma_search_wf, DfsVisitor, Search};
use crate::graph::{
    full_graph, lemma_closed, lemma_reach_edge, lemma_reach_refl, lemma_reach_step,
    lemma_reach_trans, mutual, on_cycle, reach, reach_in, reaches_final,
};
use crate::paths::{end_of, is_run, state_at, steps};
use crate::properties::{K_ACCESSIBLE, K_ACYCLIC, K_CO_ACCESSIBLE, K_INITIAL_ACYCLIC};
use crate::vector_fst::{
    kept_arcs, kept_states, lemma_kept_states_len, lemma_rank_monotone, rank, restricted, set_bits,
    FstV, StateV, VectorFst,
};
use crate::weight::Weight;
use vstd::prelude::*;

verus! {

/// Whether some path from the start to a final state goes through `s`.
pub open spec fn on_path<W: Weight>(v: FstV<W>, s: int) -> bool {
    &&& v.start is Some
    &&& reach(full_graph(v), v.start->0 as int, s)
    &&& reaches_final(v, full_graph(v), s)
}

/// Which states are on a path from the start to a final state.
pub open spec fn path_states<W: Weight>(v: FstV<W>) -> Seq<bool> {
    Seq::new(v.n(), |s: int| on_path(v, s))
}

/// The machine without the states and arcs that are on no successful path.
pub open spec fn trimmed<W: Weight>(v: FstV<W>) -> FstV<W> {
    let r = restricted(v, path_states(v));
    FstV {
        props: set_bits(r.props, K_ACCESSIBLE | K_CO_ACCESSIBLE, K_ACCESSIBLE | K_CO_ACCESSIBLE),
        ..r
    }
}

/// Tells of each state whether it is on a path from the start to a final state.
pub fn states_on_paths<W: Weight>(fst: &VectorFst<W>) -> (flags: Vec<bool>)
    requires
        fst@.wf(),
    ensures
        flags@ == path_states(fst@),
{
    let ghost v = fst@;
    let nstates: usize = fst.num_states();
    let mut visitor = SccVisitor::new(fst, 0);
    dfs_visit_any(fst, &mut visitor);
    let ghost m = choose|m: Search<W>|
        {
            &&& #[trigger] visitor.done(v, m)
            &&& legal(v, m)
            &&& m.next_call(v) is None
            &&& m.accept == crate::graph::any_arc::<W>()
            &&& !m.single
        };
    proof {
        assert(visitor.found(v, m));
        law_whole_search_visits_all(v, m);
        lemma_search_wf(v, m);
    }
    let access = visitor.access();
    let coaccess = visitor.coaccess();
    assert forall|s: int| 0 <= s < nstates implies ((access@.contains(s)
        && #[trigger] coaccess@.contains(s)) <==> on_path(v, s)) by {
        if v.start is Some {
            assert(m.disc.contains(s as usize));
            assert(v.start == Some(m.disc[0]));
        }
    }
    let mut flags: Vec<bool> = Vec::new();
    let mut s: usize = 0;
    while s < nstates
        invariant
            s <= nstates,
            nstates == v.n(),
            forall|x: int|
                0 <= x < nstates ==> ((access@.contains(x) && #[trigger] coaccess@.contains(x))
                    <==> on_path(v, x)),
            flags@ == path_states(v).take(s as int),
        decreases nstates - s,
    {
        let reached: bool = access.contains(s);
        let reaching: bool = coaccess.contains(s);
        assert((reached && reaching) <==> on_path(v, s as int));
        flags.push(reached && reaching);
        s = s + 1;
        assert(flags@ =~= path_states(v).take(s as int));
    }
    assert(flags@ =~= path_states(v));
    flags
}

/// Trims an FST, removing states and arcs that are not on successful paths.
/// This version modifies its input.
///
/// Complexity:
///   Time:  O(V + E)
///   Space: O(V + E)
/// where V = # of states and E = # of arcs.
pub fn connect<W: Weight>(fst: &mut VectorFst<W>)
    requires
        old(fst)@.wf(),
    ensures
        final(fst)@ == trimmed(old(fst)@),
        final(fst)@.wf(),
{
    let ghost v = fst@;
    let flags = states_on_paths(&*fst);
    let nstates: usize = fst.num_states();
    proof {
        lemma_trimmed_wf(v);
    }
    let mut dstates: Vec<usize> = Vec::new();
    let mut s: usize = 0;
    while s < nstates
        invariant
            s <= nstates,
            nstates == v.n(),
            flags@ == path_states(v),
            forall|x: usize| #[trigger] dstates@.contains(x) <==> x < s && !on_path(v, x as int),
        decreases nstates - s,
    {
        let ghost before = dstates@;
        if !flags[s] {
            dstates.push(s);
            proof {
                crate::tarjan::lemma_push_has(before, s);
            }
        }
        s = s + 1;
    }
    fst.delete_states(&dstates);
    assert(Seq::new(v.n(), |s: int| !dstates@.contains(s as usize)) =~= path_states(v)) by {
        assert forall|s: int| 0 <= s < v.n() implies !dstates@.contains(s as usize) == on_path(v, s) by {
            assert(dstates@.contains(s as usize) <==> !on_path(v, s));
        }
    }

    // Deleting states narrows the property bits on general grounds, but what is
    // left after this is by construction on a successful path.
    fst.set_properties(K_ACCESSIBLE | K_CO_ACCESSIBLE, K_ACCESSIBLE | K_CO_ACCESSIBLE);
}

/// The final weight of component `c`: the sum over its states below `n`.
pub open spec fn condensed_final<W: Weight>(v: FstV<W>, scc: Seq<usize>, c: int, n: int) -> W
    decreases n,
{
    if n <= 0 {
        W::spec_zero()
    } else if scc[n - 1] == c && v.is_final(n - 1) {
        condensed_final(v, scc, c, n - 1).spec_plus(v.fin(n - 1))
    } else {
        condensed_final(v, scc, c, n - 1)
    }
}

/// The first `k` of `arcs` that leave component `c`, between components.
pub open spec fn leaving_arcs<W: Weight>(arcs: Seq<Arc<W>>, scc: Seq<usize>, c: int, k: int) -> Seq<Arc<W>>
    decreases k,
{
    if k <= 0 {
        Seq::empty()
    } else {
        let rest = leaving_arcs(arcs, scc, c, k - 1);
        let arc = arcs[k - 1];
        if scc[arc.nextstate as int] != c {
            rest.push(Arc { nextstate: scc[arc.nextstate as int], ..arc })
        } else {
            rest
        }
    }
}

/// The arcs of component `c`: those of its states below `n` that leave it.
pub open spec fn condensed_arcs<W: Weight>(v: FstV<W>, scc: Seq<usize>, c: int, n: int) -> Seq<Arc<W>>
    decreases n,
{
    if n <= 0 {
        Seq::empty()
    } else if scc[n - 1] == c {
        condensed_arcs(v, scc, c, n - 1) + leaving_arcs(
            v.arcs(n - 1),
            scc,
            c,
            v.arcs(n - 1).len() as int,
        )
    } else {
        condensed_arcs(v, scc, c, n - 1)
    }
}

/// The states of the machine that the components of the states below `n` make.
pub open spec fn condensed_states<W: Weight>(v: FstV<W>, scc: Seq<usize>, count: nat, n: int) -> Seq<
    StateV<W>,
> {
    Seq::new(
        count,
        |c: int|
            StateV {
                final_weight: condensed_final(v, scc, c, n),
                arcs: condensed_arcs(v, scc, c, n),
            },
    )
}

/// Whether `scc` numbers the strongly connected components of a machine that has
/// a start, from 0 to `count`, so that arcs never lead to a lower number.
pub open spec fn numbers_components<W: Weight>(v: FstV<W>, scc: Seq<usize>, count: nat) -> bool {
    let g = full_graph(v);
    &&& scc.len() == v.n()
    &&& forall|x: int| 0 <= x < v.n() ==> #[trigger] scc[x] < count
    &&& forall|x: int, y: int|
        0 <= x < v.n() && 0 <= y < v.n() ==> (#[trigger] scc[x] == #[trigger] scc[y] <==> mutual(
            g,
            x,
            y,
        ))
    &&& forall|x: int, y: int| 0 <= x < v.n() && #[trigger] g(x, y) ==> scc[x] <= scc[y]
    &&& forall|c: int| 0 <= c < count ==> #[trigger] scc.contains(c as usize)
}

/// Returns an acyclic FST where each SCC in the input FST has been condensed to
/// a single state with transitions between SCCs retained and within SCCs dropped.
/// Also populates `scc` with a mapping from input to output states.
pub fn condense<W: Weight>(ifst: &VectorFst<W>, ofst: &mut VectorFst<W>, scc: &mut Vec<usize>)
    requires
        ifst@.wf(),
    ensures
        ifst@.start is None ==> final(scc)@.len() == 0 && final(ofst)@ == (FstV {
            start: None,
            states: Seq::empty(),
            ..old(ofst)@
        }).forget(),
        ifst@.start matches Some(s) ==> {
            let count = final(ofst)@.n();
            &&& numbers_components(ifst@, final(scc)@, count)
            &&& final(ofst)@.start == Some(final(scc)@[s as int])
            &&& final(ofst)@.states == condensed_states(
                ifst@,
                final(scc)@,
                count,
                ifst@.n() as int,
            )
            &&& final(ofst)@.isymbols == old(ofst)@.isymbols
            &&& final(ofst)@.osymbols == old(ofst)@.osymbols
            &&& final(ofst)@.props == set_bits(
                old(ofst)@.forget().props,
                K_ACYCLIC | K_INITIAL_ACYCLIC,
                K_ACYCLIC | K_INITIAL_ACYCLIC,
            )
        },
{
    ofst.delete_all_states();
    let ghost v = ifst@;
    let nstates: usize = ifst.num_states();
    let mut visitor = SccVisitor::new(ifst, 0);
    dfs_visit_any(ifst, &mut visitor);
    let ghost m = choose|m: Search<W>|
        {
            &&& #[trigger] visitor.done(v, m)
            &&& legal(v, m)
            &&& m.next_call(v) is None
            &&& m.accept == crate::graph::any_arc::<W>()
            &&& !m.single
        };
    proof {
        assert(visitor.found(v, m));
        law_whole_search_visits_all(v, m);
        lemma_search_wf(v, m);
    }
    scc.clear();
    let mut i: usize = 0;
    while i < visitor.scc().len()
        invariant
            i <= visitor.components().len(),
            scc@ =~= visitor.components().take(i as int),
        decreases visitor.components().len() - i,
    {
        scc.push(visitor.scc()[i]);
        i = i + 1;
    }
    assert(scc@ =~= visitor.components());
    let start: usize = match ifst.start() {
        Some(s) => s,
        None => {
            assert(scc@.len() == 0);
            return ;
        },
    };
    let count: usize = visitor.num_components();
    assert(numbers_components(v, scc@, count as nat)) by {
        assert(m.disc.contains((v.n() - 1) as usize));
        let d = choose|d: int| 0 <= d < m.disc.len() && m.disc[d] == (v.n() - 1) as usize;
        assert(m.disc[d] < scc@.len());
        assert forall|x: int, y: int| 0 <= x < v.n() && 0 <= y < v.n() implies (
        #[trigger] scc@[x] == #[trigger] scc@[y] <==> mutual(full_graph(v), x, y)) by {
            assert(m.disc.contains(x as usize) && m.disc.contains(y as usize));
            let a = choose|a: int| 0 <= a < m.disc.len() && m.disc[a] == x as usize;
            let b = choose|b: int| 0 <= b < m.disc.len() && m.disc[b] == y as usize;
            assert(scc@[m.disc[a] as int] == scc@[m.disc[b] as int] <==> mutual(
                full_graph(v),
                m.disc[a] as int,
                m.disc[b] as int,
            ));
        }
        assert forall|x: int| 0 <= x < v.n() implies #[trigger] scc@[x] < count by {
            assert(m.disc.contains(x as usize));
            let a = choose|a: int| 0 <= a < m.disc.len() && m.disc[a] == x as usize;
            assert(scc@[m.disc[a] as int] < count);
        }
        assert forall|x: int, y: int| 0 <= x < v.n() && #[trigger] full_graph(v)(x, y) implies scc@[x]
            <= scc@[y] by {
            assert(m.disc.contains(x as usize));
            let a = choose|a: int| 0 <= a < m.disc.len() && m.disc[a] == x as usize;
            assert(full_graph(v)(m.disc[a] as int, y));
        }
        assert forall|c: int| 0 <= c < count implies #[trigger] scc@.contains(c as usize) by {
            assert(crate::cc_visitors::numbered(m.disc, visitor.components(), c));
            let a = choose|a: int|
                0 <= a < m.disc.len() && visitor.components()[#[trigger] m.disc[a] as int] == c;
            assert(m.disc[a] < scc@.len());
            assert(scc@[m.disc[a] as int] == c as usize);
        }
    }
    ofst.add_states(count);
    let ghost base = ofst@;
    assert(base.states =~= condensed_states(v, scc@, count as nat, 0));
    proof {
        crate::vector_fst::lemma_forget_forget(old(ofst)@);
    }
    let mut s: usize = 0;
    while s < nstates
        invariant
            s <= nstates,
            nstates == v.n(),
            v == ifst@,
            v.wf(),
            v.start == Some(start),
            numbers_components(v, scc@, count as nat),
            ofst@.states == condensed_states(v, scc@, count as nat, s as int),
            ofst@.start == (if start < s {
                Some(scc@[start as int])
            } else {
                None
            }),
            ofst@.isymbols == old(ofst)@.isymbols,
            ofst@.osymbols == old(ofst)@.osymbols,
            ofst@.props == old(ofst)@.forget().props,
        decreases nstates - s,
    {
        let c: usize = scc[s];
        let ghost before = ofst@;
        proof {
            crate::vector_fst::lemma_forget_forget(old(ofst)@);
        }
        if s == start {
            ofst.set_start(c);
        }
        if ifst.is_final(s) {
            let weight = ifst.final_weight(s);
            let curr_final = ofst.final_weight(c);
            ofst.set_final(c, curr_final.plus(&weight));
        }
        let ghost mid = ofst@;
        assert(mid.states =~= Seq::new(
            count as nat,
            |k: int|
                StateV {
                    final_weight: condensed_final(v, scc@, k, s + 1),
                    arcs: condensed_arcs(v, scc@, k, s as int),
                },
        ));
        let narcs: usize = ifst.num_arcs(s);
        let mut i: usize = 0;
        assert(condensed_arcs(v, scc@, c as int, s as int) + leaving_arcs(
            v.arcs(s as int),
            scc@,
            c as int,
            0,
        ) =~= condensed_arcs(v, scc@, c as int, s as int));
        while i < narcs
            invariant
                i <= narcs,
                s < nstates,
                nstates == v.n(),
                v == ifst@,
                v.wf(),
                narcs == v.arcs(s as int).len(),
                c == scc@[s as int],
                numbers_components(v, scc@, count as nat),
                ofst@.start == mid.start,
                ofst@.isymbols == mid.isymbols,
                ofst@.osymbols == mid.osymbols,
                ofst@.props == mid.props,
                mid.props == old(ofst)@.forget().props,
                ofst@.states.len() == count,
                mid.states.len() == count,
                forall|k: int| 0 <= k < count && k != c ==> #[trigger] ofst@.states[k] == mid.states[k],
                ofst@.states[c as int].final_weight == mid.states[c as int].final_weight,
                ofst@.states[c as int].arcs == condensed_arcs(v, scc@, c as int, s as int)
                    + leaving_arcs(v.arcs(s as int), scc@, c as int, i as int),
            decreases narcs - i,
        {
            let arc = ifst.arc(s, i);
            assert(v.states[s as int].arcs[i as int].nextstate < v.n());
            let nextc: usize = scc[arc.nextstate];
            proof {
                crate::vector_fst::lemma_forget_forget(old(ofst)@);
            }
            if nextc != c {
                ofst.add_arc(c, arc.redirected(nextc));
                assert(ofst@.states[c as int].arcs =~= condensed_arcs(v, scc@, c as int, s as int)
                    + leaving_arcs(v.arcs(s as int), scc@, c as int, i + 1));
            }
            i = i + 1;
        }
        assert(ofst@.states =~= condensed_states(v, scc@, count as nat, s + 1));
        s = s + 1;
    }
    ofst.set_properties(K_ACYCLIC | K_INITIAL_ACYCLIC, K_ACYCLIC | K_INITIAL_ACYCLIC);
}

/// Where a kept state ends up, and with what.
pub proof fn lemma_kept_state_at<W: Weight>(states: Seq<StateV<W>>, keep: Seq<bool>, x: int, n: int)
    requires
        0 <= x < n <= keep.len(),
        keep[x],
    ensures
        0 <= rank(keep, x) < kept_states(states, keep, n).len(),
        kept_states(states, keep, n)[rank(keep, x) as int] == (StateV {
            final_weight: states[x].final_weight,
            arcs: kept_arcs(states[x].arcs, keep, states[x].arcs.len() as int),
        }),
    decreases n,
{
    lemma_kept_states_len(states, keep, n - 1);
    lemma_kept_states_len(states, keep, n);
    if x < n - 1 {
        lemma_kept_state_at(states, keep, x, n - 1);
    }
}

/// Every state of what is kept was a state.
pub proof fn lemma_rank_onto(keep: Seq<bool>, n: int, i: int) -> (x: int)
    requires
        0 <= n <= keep.len(),
        0 <= i < rank(keep, n),
    ensures
        0 <= x < n,
        keep[x],
        rank(keep, x) == i,
    decreases n,
{
    if keep[n - 1] && rank(keep, n - 1) == i {
        n - 1
    } else {
        lemma_rank_onto(keep, n - 1, i)
    }
}

pub proof fn lemma_kept_arc<W: Weight>(arcs: Seq<Arc<W>>, keep: Seq<bool>, i: int, n: int) -> (j: int)
    requires
        0 <= i < n <= arcs.len(),
        keep[arcs[i].nextstate as int],
    ensures
        0 <= j < kept_arcs(arcs, keep, n).len(),
        kept_arcs(arcs, keep, n)[j] == (Arc {
            nextstate: rank(keep, arcs[i].nextstate as int) as usize,
            ..arcs[i]
        }),
    decreases n,
{
    if i == n - 1 {
        kept_arcs(arcs, keep, n - 1).len() as int
    } else {
        lemma_kept_arc(arcs, keep, i, n - 1)
    }
}

proof fn lemma_kept_edge<W: Weight>(v: FstV<W>, x: int, y: int)
    requires
        v.wf(),
        v.n() <= usize::MAX,
        full_graph(v)(x, y),
        on_path(v, x),
        on_path(v, y),
        0 <= x < v.n(),
        0 <= y < v.n(),
    ensures
        full_graph(trimmed(v))(
            rank(path_states(v), x) as int,
            rank(path_states(v), y) as int,
        ),
{
    let keep = path_states(v);
    let t = trimmed(v);
    let i = choose|i: int| 0 <= i < v.arcs(x).len() && (#[trigger] v.arcs(x)[i]).nextstate == y;
    lemma_kept_state_at(v.states, keep, x, v.n() as int);
    let j = lemma_kept_arc(v.arcs(x), keep, i, v.arcs(x).len() as int);
    lemma_rank_monotone(keep, 0, y);
    lemma_rank_monotone(keep, y, v.n() as int);
    assert(rank(keep, y) <= y);
    assert(t.arcs(rank(keep, x) as int)[j].nextstate == rank(keep, y));
}

proof fn lemma_kept_way<W: Weight>(v: FstV<W>, x: int, y: int, k: nat)
    requires
        v.wf(),
        v.n() <= usize::MAX,
        0 <= x < v.n(),
        on_path(v, x),
        reach_in(full_graph(v), x, y, k),
        reaches_final(v, full_graph(v), y),
    ensures
        0 <= y < v.n(),
        on_path(v, y),
        reach(
            full_graph(trimmed(v)),
            rank(path_states(v), x) as int,
            rank(path_states(v), y) as int,
        ),
    decreases k,
{
    let g = full_graph(v);
    let h = full_graph(trimmed(v));
    let keep = path_states(v);
    if k == 0 {
        lemma_reach_refl(h, rank(keep, x) as int);
    } else {
        let z = choose|z: int| #[trigger] g(x, z) && reach_in(g, z, y, (k - 1) as nat);
        let i = choose|i: int| 0 <= i < v.arcs(x).len() && (#[trigger] v.arcs(x)[i]).nextstate == z;
        assert(v.states[x].arcs[i].nextstate < v.n());
        assert(reach(g, z, y));
        crate::tarjan::lemma_reaches_final_step(v, g, z, y);
        lemma_reach_edge(g, x, z);
        lemma_reach_trans(g, v.start->0 as int, x, z);
        lemma_kept_way(v, z, y, (k - 1) as nat);
        lemma_kept_edge(v, x, z);
        lemma_reach_step(h, rank(keep, x) as int, rank(keep, z) as int, rank(keep, y) as int);
    }
}

/// Every state of a trimmed machine is on a successful path of it, and every
/// state that was on one is still there, with the same final weight.
pub proof fn law_trimmed_states_are_on_paths<W: Weight>(v: FstV<W>)
    requires
        v.wf(),
        v.n() <= usize::MAX,
    ensures
        trimmed(v).n() == rank(path_states(v), v.n() as int),
        forall|i: int| 0 <= i < trimmed(v).n() ==> #[trigger] on_path(trimmed(v), i),
        forall|x: int|
            0 <= x < v.n() && #[trigger] on_path(v, x) ==> trimmed(v).fin(
                rank(path_states(v), x) as int,
            ) == v.fin(x),
{
    let keep = path_states(v);
    let t = trimmed(v);
    let g = full_graph(v);
    let h = full_graph(t);
    let n = v.n() as int;
    lemma_kept_states_len(v.states, keep, n);
    assert forall|x: int| 0 <= x < v.n() && #[trigger] on_path(v, x) implies t.fin(
        rank(keep, x) as int,
    ) == v.fin(x) by {
        assert(keep[x]);
        lemma_kept_state_at(v.states, keep, x, n);
    }
    assert forall|i: int| 0 <= i < t.n() implies #[trigger] on_path(t, i) by {
        let x = lemma_rank_onto(keep, n, i);
        assert(on_path(v, x));
        let start = v.start->0 as int;
        let k = choose|k: nat| reach_in(g, start, x, k);
        lemma_reach_refl(g, start);
        crate::tarjan::lemma_reaches_final_step(v, g, start, x);
        assert(on_path(v, start));
        lemma_kept_way(v, start, x, k);
        assert(keep[start]);
        lemma_rank_monotone(keep, 0, start);
        assert(rank(keep, start) <= start);
        assert(t.start == Some(rank(keep, start) as usize));
        let f = choose|f: int| 0 <= f < v.n() && v.is_final(f) && #[trigger] reach(g, x, f);
        let l = choose|l: nat| reach_in(g, x, f, l);
        lemma_reach_refl(g, f);
        assert(reaches_final(v, g, f));
        lemma_kept_way(v, x, f, l);
        assert(keep[f]);
        lemma_kept_state_at(v.states, keep, f, n);
        assert(t.is_final(rank(keep, f) as int));
        assert(reach(h, i, rank(keep, f) as int));
    }
}

proof fn lemma_leaving_arcs<W: Weight>(arcs: Seq<Arc<W>>, scc: Seq<usize>, c: int, k: int, j: int)
    requires
        0 <= k <= arcs.len(),
        0 <= j < leaving_arcs(arcs, scc, c, k).len(),
    ensures
        exists|i: int|
            0 <= i < k && leaving_arcs(arcs, scc, c, k)[j].nextstate == scc[(
            #[trigger] arcs[i]).nextstate as int] && scc[arcs[i].nextstate as int] != c,
    decreases k,
{
    if k > 0 {
        if j < leaving_arcs(arcs, scc, c, k - 1).len() {
            lemma_leaving_arcs(arcs, scc, c, k - 1, j);
            let i = choose|i: int|
                0 <= i < k - 1 && leaving_arcs(arcs, scc, c, k - 1)[j].nextstate == scc[(
                #[trigger] arcs[i]).nextstate as int] && scc[arcs[i].nextstate as int] != c;
            assert(arcs[i] == arcs[i]);
        } else {
            assert(arcs[k - 1] == arcs[k - 1]);
        }
    }
}

proof fn lemma_condensed_rises<W: Weight>(v: FstV<W>, scc: Seq<usize>, count: nat, c: int, n: int, j: int)
    requires
        v.wf(),
        numbers_components(v, scc, count),
        0 <= n <= v.n(),
        0 <= j < condensed_arcs(v, scc, c, n).len(),
    ensures
        c < condensed_arcs(v, scc, c, n)[j].nextstate < count,
    decreases n,
{
    if n > 0 {
        let rest = condensed_arcs(v, scc, c, n - 1);
        if j < rest.len() {
            lemma_condensed_rises(v, scc, count, c, n - 1, j);
        } else {
            let arcs = v.arcs(n - 1);
            lemma_leaving_arcs(arcs, scc, c, arcs.len() as int, j - rest.len());
            let i = choose|i: int|
                0 <= i < arcs.len() && leaving_arcs(arcs, scc, c, arcs.len() as int)[j
                    - rest.len()].nextstate == scc[(#[trigger] arcs[i]).nextstate as int]
                    && scc[arcs[i].nextstate as int] != c;
            assert(v.states[n - 1].arcs[i].nextstate < v.n());
            assert(full_graph(v)(n - 1, arcs[i].nextstate as int));
        }
    }
}

/// Condensing leaves nothing that goes round.
pub proof fn law_condensed_is_acyclic<W: Weight>(v: FstV<W>, o: FstV<W>, scc: Seq<usize>, c: int)
    requires
        v.wf(),
        numbers_components(v, scc, o.n()),
        o.states == condensed_states(v, scc, o.n(), v.n() as int),
    ensures
        !on_cycle(full_graph(o), c),
{
    let g = full_graph(o);
    assert forall|x: int, y: int| #[trigger] g(x, y) implies x < y by {
        let j = choose|j: int| 0 <= j < o.arcs(x).len() && (#[trigger] o.arcs(x)[j]).nextstate == y;
        lemma_condensed_rises(v, scc, o.n(), x, v.n() as int, j);
    }
    if on_cycle(g, c) {
        let t = choose|t: int| #[trigger] g(c, t) && reach(g, t, c);
        let inside = |y: int| y > c;
        lemma_closed(g, inside, t, c);
    }
}

/// Whether `run` is a successful path: it leads from the start to a final state.
pub open spec fn succeeds<W: Weight>(v: FstV<W>, run: Seq<Arc<W>>) -> bool {
    &&& v.start is Some
    &&& is_run(v, v.start->0 as int, run)
    &&& v.is_final(end_of(v.start->0 as int, run))
}

/// Each kept arc was there, and led to a state that is kept.
pub proof fn lemma_kept_arc_from<W: Weight>(arcs: Seq<Arc<W>>, keep: Seq<bool>, n: int, j: int) -> (i:
    int)
    requires
        0 <= n <= arcs.len(),
        0 <= j < kept_arcs(arcs, keep, n).len(),
    ensures
        0 <= i < n,
        keep[arcs[i].nextstate as int],
        kept_arcs(arcs, keep, n)[j] == (Arc {
            nextstate: rank(keep, arcs[i].nextstate as int) as usize,
            ..arcs[i]
        }),
    decreases n,
{
    let before = kept_arcs(arcs, keep, n - 1);
    if j < before.len() {
        lemma_kept_arc_from(arcs, keep, n - 1, j)
    } else {
        n - 1
    }
}

/// A trimmed machine is in order.
pub proof fn lemma_trimmed_wf<W: Weight>(v: FstV<W>)
    requires
        v.wf(),
        v.n() <= usize::MAX,
    ensures
        trimmed(v).wf(),
        trimmed(v).n() <= v.n(),
{
    let keep = path_states(v);
    let t = trimmed(v);
    let n = v.n() as int;
    lemma_kept_states_len(v.states, keep, n);
    lemma_rank_monotone(keep, 0, n);
    if let Some(s) = v.start {
        if keep[s as int] {
            lemma_kept_state_at(v.states, keep, s as int, n);
            lemma_rank_monotone(keep, 0, s as int);
        }
    }
    assert forall|x: int, j: int| 0 <= x < t.n() && 0 <= j < t.states[x].arcs.len() implies (
    #[trigger] t.states[x].arcs[j]).nextstate < t.n() by {
        let y = lemma_rank_onto(keep, n, x);
        lemma_kept_state_at(v.states, keep, y, n);
        let arcs = v.states[y].arcs;
        let i = lemma_kept_arc_from(arcs, keep, arcs.len() as int, j);
        assert(v.states[y].arcs[i].nextstate < v.n());
        let z = arcs[i].nextstate as int;
        lemma_kept_state_at(v.states, keep, z, n);
        lemma_rank_monotone(keep, 0, z);
    }
}

/// The run of the trimmed machine that follows a run.
pub open spec fn kept_run<W: Weight>(v: FstV<W>, run: Seq<Arc<W>>) -> Seq<Arc<W>> {
    Seq::new(
        run.len(),
        |i: int|
            Arc {
                nextstate: rank(path_states(v), run[i].nextstate as int) as usize,
                ..run[i]
            },
    )
}

/// Every successful path of the trimmed machine follows one that was there.
pub proof fn law_trimming_adds_no_path<W: Weight>(v: FstV<W>, run: Seq<Arc<W>>) -> (from: Seq<
    Arc<W>,
>)
    requires
        v.wf(),
        v.n() <= usize::MAX,
        succeeds(trimmed(v), run),
    ensures
        succeeds(v, from),
        run == kept_run(v, from),
        trimmed(v).fin(end_of(trimmed(v).start->0 as int, run)) == v.fin(
            end_of(v.start->0 as int, from),
        ),
{
    let keep = path_states(v);
    let t = trimmed(v);
    let s = v.start->0 as int;
    lemma_trimmed_wf(v);
    assert(keep[s]);
    lemma_rank_monotone(keep, 0, s);
    let from = lemma_run_from(v, run, run.len() as int);
    assert(run =~= kept_run(v, from)) by {
        assert(run.take(run.len() as int) =~= run);
    }
    let x = end_of(s, from);
    lemma_kept_state_at(v.states, keep, x, v.n() as int);
    lemma_rank_monotone(keep, 0, x);
    assert(end_of(t.start->0 as int, run) == rank(keep, x));
    from
}

proof fn lemma_run_from<W: Weight>(v: FstV<W>, run: Seq<Arc<W>>, k: int) -> (from: Seq<Arc<W>>)
    requires
        v.wf(),
        v.n() <= usize::MAX,
        trimmed(v).start is Some,
        is_run(trimmed(v), trimmed(v).start->0 as int, run),
        0 <= k <= run.len(),
    ensures
        from.len() == k,
        is_run(v, v.start->0 as int, from),
        run.take(k) == kept_run(v, from),
        0 <= end_of(v.start->0 as int, from) < v.n(),
        path_states(v)[end_of(v.start->0 as int, from)],
    decreases k,
{
    let keep = path_states(v);
    let t = trimmed(v);
    let s = v.start->0 as int;
    let n = v.n() as int;
    assert(keep[s]);
    if k == 0 {
        let from = Seq::<Arc<W>>::empty();
        assert(run.take(0) =~= kept_run(v, from));
        from
    } else {
        let before = lemma_run_from(v, run, k - 1);
        let x = end_of(s, before);
        lemma_kept_state_at(v.states, keep, x, n);
        lemma_rank_monotone(keep, 0, x);
        lemma_rank_monotone(keep, 0, s);
        assert(steps(t, t.start->0 as int, run, k - 1));
        assert(state_at(t.start->0 as int, run, k - 1) == rank(keep, x)) by {
            if k - 1 > 0 {
                assert(run.take(k - 1)[k - 2] == kept_run(v, before)[k - 2]);
            }
        }
        let at = rank(keep, x) as int;
        let j = choose|j: int| 0 <= j < t.arcs(at).len() && t.arcs(at)[j] == run[k - 1];
        let arcs = v.states[x].arcs;
        let i = lemma_kept_arc_from(arcs, keep, arcs.len() as int, j);
        assert(v.states[x].arcs[i].nextstate < v.n());
        let from = before.push(arcs[i]);
        assert(v.arcs(x).contains(arcs[i]));
        assert forall|y: int| 0 <= y < from.len() implies #[trigger] steps(v, s, from, y) by {
            if y < k - 1 {
                assert(steps(v, s, before, y));
                assert(state_at(s, from, y) == state_at(s, before, y));
            } else {
                assert(state_at(s, from, y) == x);
            }
        }
        assert(run.take(k) =~= kept_run(v, from)) by {
            assert forall|y: int| 0 <= y < k implies run.take(k)[y] == kept_run(v, from)[y] by {
                if y < k - 1 {
                    assert(run.take(k - 1)[y] == kept_run(v, before)[y]);
                }
            }
        }
        from
    }
}

/// Every successful path is still there once the machine is trimmed.
pub proof fn law_trimming_keeps_paths<W: Weight>(v: FstV<W>, run: Seq<Arc<W>>)
    requires
        v.wf(),
        v.n() <= usize::MAX,
        succeeds(v, run),
    ensures
        succeeds(trimmed(v), kept_run(v, run)),
        trimmed(v).fin(end_of(trimmed(v).start->0 as int, kept_run(v, run))) == v.fin(
            end_of(v.start->0 as int, run),
        ),
{
    let keep = path_states(v);
    let t = trimmed(v);
    let s = v.start->0 as int;
    let n = v.n() as int;
    let kept = kept_run(v, run);
    lemma_trimmed_wf(v);
    lemma_run_on_paths(v, run, 0);
    assert(keep[s]);
    lemma_kept_state_at(v.states, keep, s, n);
    lemma_rank_monotone(keep, 0, s);
    assert forall|i: int| 0 <= i < kept.len() implies #[trigger] steps(
        t,
        t.start->0 as int,
        kept,
        i,
    ) by {
        assert(steps(v, s, run, i));
        let x = state_at(s, run, i);
        lemma_run_on_paths(v, run, i);
        lemma_run_on_paths(v, run, i + 1);
        let y = run[i].nextstate as int;
        assert(state_at(s, run, i + 1) == y);
        assert(keep[x] && keep[y]);
        lemma_kept_state_at(v.states, keep, x, n);
        lemma_rank_monotone(keep, 0, x);
        let a = choose|a: int| 0 <= a < v.arcs(x).len() && v.arcs(x)[a] == run[i];
        let j = lemma_kept_arc(v.arcs(x), keep, a, v.arcs(x).len() as int);
        assert(t.arcs(rank(keep, x) as int)[j] == kept[i]);
        assert(state_at(t.start->0 as int, kept, i) == rank(keep, x));
    }
    let x = end_of(s, run);
    lemma_run_on_paths(v, run, run.len() as int);
    assert(keep[x]);
    lemma_kept_state_at(v.states, keep, x, n);
    lemma_rank_monotone(keep, 0, x);
    assert(end_of(t.start->0 as int, kept) == rank(keep, x));
}

/// Every state that a successful path passes is on a path.
pub proof fn lemma_run_on_paths<W: Weight>(v: FstV<W>, run: Seq<Arc<W>>, i: int)
    requires
        v.wf(),
        succeeds(v, run),
        0 <= i <= run.len(),
    ensures
        0 <= state_at(v.start->0 as int, run, i) < v.n(),
        on_path(v, state_at(v.start->0 as int, run, i)),
{
    let s = v.start->0 as int;
    crate::paths::lemma_run_stays(v, s, run, i);
    crate::paths::lemma_run_stays(v, s, run, run.len() as int);
    lemma_run_reaches(v, run, 0, i);
    lemma_run_reaches(v, run, i, run.len() as int);
    assert(reach(full_graph(v), state_at(s, run, i), end_of(s, run)));
}

proof fn lemma_run_reaches<W: Weight>(v: FstV<W>, run: Seq<Arc<W>>, i: int, j: int)
    requires
        v.wf(),
        v.start is Some,
        is_run(v, v.start->0 as int, run),
        0 <= i <= j <= run.len(),
    ensures
        reach(
            full_graph(v),
            state_at(v.start->0 as int, run, i),
            state_at(v.start->0 as int, run, j),
        ),
    decreases j - i,
{
    let s = v.start->0 as int;
    let g = full_graph(v);
    if i == j {
        lemma_reach_refl(g, state_at(s, run, i));
    } else {
        lemma_run_reaches(v, run, i, j - 1);
        let x = state_at(s, run, j - 1);
        assert(steps(v, s, run, j - 1));
        let a = choose|a: int| 0 <= a < v.arcs(x).len() && v.arcs(x)[a] == run[j - 1];
        assert(g(x, run[j - 1].nextstate as int)) by {
            assert(v.arcs(x)[a].nextstate == run[j - 1].nextstate);
        }
        lemma_reach_edge(g, x, run[j - 1].nextstate as int);
        lemma_reach_trans(g, state_at(s, run, i), x, state_at(s, run, j));
    }
}

/// A trimmed machine with a state has a start.
pub proof fn lemma_trimmed_start<W: Weight>(v: FstV<W>)
    ensures
        trimmed(v).start is Some || trimmed(v).n() == 0,
{
    let keep = path_states(v);
    if trimmed(v).n() > 0 {
        lemma_kept_states_len(v.states, keep, v.n() as int);
        let x = lemma_rank_onto(keep, v.n() as int, 0);
        assert(on_path(v, x));
        let start = v.start->0 as int;
        lemma_reach_refl(full_graph(v), start);
        crate::tarjan::lemma_reaches_final_step(v, full_graph(v), start, x);
    }
}

/// Whether some arc of the input leaves component `c` and has become `arc`: it reads, writes
/// and weighs the same, and leads to a state of the component that `arc` leads to.
pub open spec fn comes_from_between<W: Weight>(
    v: FstV<W>,
    scc: Seq<usize>,
    c: int,
    arc: Arc<W>,
) -> bool {
    exists|s: int, i: int|
        {
            &&& 0 <= s < v.n()
            &&& 0 <= i < v.arcs(s).len()
            &&& scc[s] == c
            &&& (#[trigger] v.arcs(s)[i]).ilabel == arc.ilabel
            &&& v.arcs(s)[i].olabel == arc.olabel
            &&& v.arcs(s)[i].weight == arc.weight
            &&& scc[v.arcs(s)[i].nextstate as int] == arc.nextstate
            &&& arc.nextstate != c
        }
}

/// Whether component `c` has an arc to component `d` with the labels and the weight of `arc`.
pub open spec fn goes_between<W: Weight>(o: FstV<W>, c: int, d: usize, arc: Arc<W>) -> bool {
    exists|j: int|
        {
            &&& 0 <= j < o.arcs(c).len()
            &&& (#[trigger] o.arcs(c)[j]).ilabel == arc.ilabel
            &&& o.arcs(c)[j].olabel == arc.olabel
            &&& o.arcs(c)[j].weight == arc.weight
            &&& o.arcs(c)[j].nextstate == d
        }
}

proof fn lemma_leaving_arc_from<W: Weight>(
    arcs: Seq<Arc<W>>,
    scc: Seq<usize>,
    c: int,
    k: int,
    j: int,
) -> (i: int)
    requires
        0 <= k <= arcs.len(),
        0 <= j < leaving_arcs(arcs, scc, c, k).len(),
    ensures
        0 <= i < k,
        scc[arcs[i].nextstate as int] != c,
        leaving_arcs(arcs, scc, c, k)[j] == (Arc {
            nextstate: scc[arcs[i].nextstate as int],
            ..arcs[i]
        }),
    decreases k,
{
    let rest = leaving_arcs(arcs, scc, c, k - 1);
    if j < rest.len() {
        lemma_leaving_arc_from(arcs, scc, c, k - 1, j)
    } else {
        k - 1
    }
}

proof fn lemma_leaving_arc_to<W: Weight>(
    arcs: Seq<Arc<W>>,
    scc: Seq<usize>,
    c: int,
    k: int,
    i: int,
) -> (j: int)
    requires
        0 <= i < k <= arcs.len(),
        scc[arcs[i].nextstate as int] != c,
    ensures
        0 <= j < leaving_arcs(arcs, scc, c, k).len(),
        leaving_arcs(arcs, scc, c, k)[j] == (Arc {
            nextstate: scc[arcs[i].nextstate as int],
            ..arcs[i]
        }),
    decreases k,
{
    if i == k - 1 {
        leaving_arcs(arcs, scc, c, k - 1).len() as int
    } else {
        lemma_leaving_arc_to(arcs, scc, c, k - 1, i)
    }
}

proof fn lemma_condensed_arc_from<W: Weight>(
    v: FstV<W>,
    scc: Seq<usize>,
    c: int,
    n: int,
    j: int,
) -> (at: (int, int))
    requires
        0 <= n <= v.n(),
        0 <= j < condensed_arcs(v, scc, c, n).len(),
    ensures
        0 <= at.0 < n,
        0 <= at.1 < v.arcs(at.0).len(),
        scc[at.0] == c,
        scc[v.arcs(at.0)[at.1].nextstate as int] != c,
        condensed_arcs(v, scc, c, n)[j] == (Arc {
            nextstate: scc[v.arcs(at.0)[at.1].nextstate as int],
            ..v.arcs(at.0)[at.1]
        }),
    decreases n,
{
    let rest = condensed_arcs(v, scc, c, n - 1);
    if j < rest.len() {
        lemma_condensed_arc_from(v, scc, c, n - 1, j)
    } else {
        let arcs = v.arcs(n - 1);
        let i = lemma_leaving_arc_from(arcs, scc, c, arcs.len() as int, j - rest.len());
        (n - 1, i)
    }
}

proof fn lemma_condensed_arc_to<W: Weight>(
    v: FstV<W>,
    scc: Seq<usize>,
    c: int,
    n: int,
    s: int,
    i: int,
) -> (j: int)
    requires
        0 <= s < n <= v.n(),
        0 <= i < v.arcs(s).len(),
        scc[s] == c,
        scc[v.arcs(s)[i].nextstate as int] != c,
    ensures
        0 <= j < condensed_arcs(v, scc, c, n).len(),
        condensed_arcs(v, scc, c, n)[j] == (Arc {
            nextstate: scc[v.arcs(s)[i].nextstate as int],
            ..v.arcs(s)[i]
        }),
    decreases n,
{
    let rest = condensed_arcs(v, scc, c, n - 1);
    if s == n - 1 {
        let arcs = v.arcs(s);
        let j = lemma_leaving_arc_to(arcs, scc, c, arcs.len() as int, i);
        rest.len() + j
    } else {
        lemma_condensed_arc_to(v, scc, c, n - 1, s, i)
    }
}

/// Condensing keeps every arc between components, with its labels and its weight, and has
/// no other.
pub proof fn law_condensing_keeps_arcs_between<W: Weight>(
    v: FstV<W>,
    o: FstV<W>,
    scc: Seq<usize>,
)
    requires
        v.wf(),
        numbers_components(v, scc, o.n()),
        o.states == condensed_states(v, scc, o.n(), v.n() as int),
    ensures
        forall|s: int, i: int|
            0 <= s < v.n() && 0 <= i < v.arcs(s).len() && scc[(#[trigger] v.arcs(
                s,
            )[i]).nextstate as int] != scc[s] ==> goes_between(
                o,
                scc[s] as int,
                scc[v.arcs(s)[i].nextstate as int],
                v.arcs(s)[i],
            ),
        forall|c: int, j: int|
            0 <= c < o.n() && 0 <= j < o.arcs(c).len() ==> comes_from_between(
                v,
                scc,
                c,
                #[trigger] o.arcs(c)[j],
            ),
{
    assert forall|s: int, i: int|
        0 <= s < v.n() && 0 <= i < v.arcs(s).len() && scc[(#[trigger] v.arcs(
            s,
        )[i]).nextstate as int] != scc[s] implies goes_between(
        o,
        scc[s] as int,
        scc[v.arcs(s)[i].nextstate as int],
        v.arcs(s)[i],
    ) by {
        let c = scc[s] as int;
        let j = lemma_condensed_arc_to(v, scc, c, v.n() as int, s, i);
        assert(o.states[c].arcs == condensed_arcs(v, scc, c, v.n() as int));
        assert(o.arcs(c)[j].ilabel == v.arcs(s)[i].ilabel);
    }
    assert forall|c: int, j: int|
        0 <= c < o.n() && 0 <= j < o.arcs(c).len() implies comes_from_between(
        v,
        scc,
        c,
        #[trigger] o.arcs(c)[j],
    ) by {
        assert(o.states[c].arcs == condensed_arcs(v, scc, c, v.n() as int));
        let (s, i) = lemma_condensed_arc_from(v, scc, c, v.n() as int, j);
        assert(v.arcs(s)[i].ilabel == o.arcs(c)[j].ilabel);
    }
}

/// Whether `finals` lists the final states of component `c`, in order, each once.
pub open spec fn lists_finals<W: Weight>(
    v: FstV<W>,
    scc: Seq<usize>,
    c: int,
    finals: Seq<int>,
) -> bool {
    &&& forall|i: int|
        0 <= i < finals.len() ==> 0 <= #[trigger] finals[i] < v.n() && scc[finals[i]] == c
            && v.is_final(finals[i])
    &&& forall|i: int, j: int| 0 <= i < j < finals.len() ==> finals[i] < finals[j]
    &&& forall|s: int|
        0 <= s < v.n() && scc[s] == c && #[trigger] v.is_final(s) ==> finals.contains(s)
}

/// A state of a condensed machine weighs, to end in, what the final states of its component
/// weigh together.
pub proof fn law_condensing_adds_final_weights<W: Weight>(
    v: FstV<W>,
    o: FstV<W>,
    scc: Seq<usize>,
    c: int,
    finals: Seq<int>,
)
    requires
        v.wf(),
        numbers_components(v, scc, o.n()),
        o.states == condensed_states(v, scc, o.n(), v.n() as int),
        0 <= c < o.n(),
        lists_finals(v, scc, c, finals),
    ensures
        o.fin(c) == finals.fold_left(W::spec_zero(), |sum: W, s: int| sum.spec_plus(v.fin(s))),
{
    let n = v.n() as int;
    lemma_finals_added(v, scc, c, finals, n);
}

proof fn lemma_finals_added<W: Weight>(
    v: FstV<W>,
    scc: Seq<usize>,
    c: int,
    finals: Seq<int>,
    n: int,
)
    requires
        0 <= n <= v.n(),
        forall|i: int|
            0 <= i < finals.len() ==> 0 <= #[trigger] finals[i] < n && scc[finals[i]] == c
                && v.is_final(finals[i]),
        forall|i: int, j: int| 0 <= i < j < finals.len() ==> finals[i] < finals[j],
        forall|s: int|
            0 <= s < n && scc[s] == c && #[trigger] v.is_final(s) ==> finals.contains(s),
    ensures
        condensed_final(v, scc, c, n) == finals.fold_left(
            W::spec_zero(),
            |sum: W, s: int| sum.spec_plus(v.fin(s)),
        ),
    decreases n,
{
    let f = |sum: W, s: int| sum.spec_plus(v.fin(s));
    if n == 0 {
        assert(finals.len() == 0) by {
            if finals.len() > 0 {
                assert(finals[0] < 0);
            }
        }
    } else if scc[n - 1] == c && v.is_final(n - 1) {
        assert(finals.contains(n - 1));
        let k = choose|k: int| 0 <= k < finals.len() && finals[k] == n - 1;
        let last = finals.len() - 1;
        if k < last {
            assert(finals[k] < finals[last]);
            assert(finals[last] < n);
        }
        let less = finals.drop_last();
        assert forall|i: int| 0 <= i < less.len() implies 0 <= #[trigger] less[i] < n - 1
            && scc[less[i]] == c && v.is_final(less[i]) by {
            assert(less[i] == finals[i]);
            assert(finals[i] < finals[last]);
        }
        assert forall|s: int| 0 <= s < n - 1 && scc[s] == c && #[trigger] v.is_final(
            s,
        ) implies less.contains(s) by {
            let i = choose|i: int| 0 <= i < finals.len() && finals[i] == s;
            assert(less[i] == s);
        }
        lemma_finals_added(v, scc, c, less, n - 1);
    } else {
        assert forall|i: int| 0 <= i < finals.len() implies 0 <= #[trigger] finals[i] < n - 1
            && scc[finals[i]] == c && v.is_final(finals[i]) by {
            assert(finals[i] < n);
        }
        lemma_finals_added(v, scc, c, finals, n - 1);
    }
}

} // verus!
