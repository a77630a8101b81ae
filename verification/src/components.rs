//! The parts of a machine that can be gone round in.
use crate::cc_visitors::SccVisitor;
use crate::dfs_visit::{dfs_visit_any, law_whole_search_visits_all, legal, DfsVisitor, Search};
use crate::graph::{
    any_arc, arc_graph, full_graph, has_arc, lemma_reach_edge, mutual, on_cycle, reach,
};
use crate::inspect::said;
use crate::properties::{K_ACYCLIC, K_CYCLIC};
use crate::vector_fst::{FstV, VectorFst};
use crate::weight::Weight;
use vstd::prelude::*;

verus! {

/// Whether two states have the same number exactly when each can be reached from
/// the other.
pub open spec fn tells<W: Weight>(v: FstV<W>, scc: Seq<usize>, a: int, b: int) -> bool {
    scc[a] == scc[b] <==> mutual(full_graph(v), a, b)
}

/// Whether an arc leads to a state of no smaller number.
pub open spec fn leads_up<W: Weight>(v: FstV<W>, scc: Seq<usize>, s: int, i: int) -> bool {
    scc[s] <= scc[v.arcs(s)[i].nextstate as int]
}

/// Whether `scc` numbers the components of a machine, arcs leading to numbers no
/// smaller.
pub open spec fn are_components<W: Weight>(v: FstV<W>, scc: Seq<usize>) -> bool {
    &&& scc.len() == v.n()
    &&& forall|a: int, b: int| 0 <= a < v.n() && 0 <= b < v.n() ==> #[trigger] tells(v, scc, a, b)
    &&& forall|s: int, i: int|
        0 <= s < v.n() && 0 <= i < v.arcs(s).len() ==> #[trigger] leads_up(v, scc, s, i)
}

/// The number of the component of each state.
#[verifier::spinoff_prover]
#[verifier::rlimit(60)]
pub fn components_of<W: Weight>(fst: &VectorFst<W>) -> (scc: Vec<usize>)
    requires
        fst@.wf(),
        fst@.start is Some,
    ensures
        are_components(fst@, scc@),
{
    let ghost v = fst@;
    let mut visitor = SccVisitor::new(fst, 0);
    dfs_visit_any(fst, &mut visitor);
    let ghost m = choose|m: Search<W>|
        {
            &&& #[trigger] visitor.done(v, m)
            &&& legal(v, m)
            &&& m.next_call(v) is None
            &&& m.accept == any_arc::<W>()
            &&& !m.single
        };
    let n: usize = fst.num_states();
    assert(are_components(v, visitor.components())) by {
        assert(n == v.n());
        assert(visitor.found(v, m));
        law_whole_search_visits_all(v, m);
        lemma_found(visitor, v, m);
    }
    copy_numbers(visitor.scc())
}

fn copy_numbers(from: &Vec<usize>) -> (copy: Vec<usize>)
    ensures
        copy@ == from@,
{
    let mut copy: Vec<usize> = Vec::new();
    let mut i: usize = 0;
    while i < from.len()
        invariant
            i <= from@.len(),
            copy@ =~= from@.take(i as int),
        decreases from@.len() - i,
    {
        copy.push(from[i]);
        i = i + 1;
    }
    assert(from@.take(from@.len() as int) =~= from@);
    copy
}

/// Where a search that has visited every state met `a`.
proof fn lemma_met<W: Weight>(visitor: SccVisitor<W>, v: FstV<W>, m: Search<W>, a: int) -> (i: int)
    requires
        visitor.found(v, m),
        forall|s: usize| s < v.n() ==> #[trigger] m.disc.contains(s),
        0 <= a < v.n(),
        v.n() <= usize::MAX,
    ensures
        0 <= i < m.disc.len(),
        m.disc[i] == a,
        a < visitor.components().len() <= v.n(),
{
    assert(m.disc.contains(a as usize));
    let i = choose|i: int| 0 <= i < m.disc.len() && m.disc[i] == a as usize;
    i
}

#[verifier::spinoff_prover]
#[verifier::rlimit(60)]
proof fn lemma_tells<W: Weight>(
    visitor: SccVisitor<W>,
    v: FstV<W>,
    m: Search<W>,
    a: int,
    b: int,
    i: int,
    j: int,
)
    requires
        visitor.found(v, m),
        m.accept == any_arc::<W>(),
        0 <= i < m.disc.len(),
        0 <= j < m.disc.len(),
        m.disc[i] == a,
        m.disc[j] == b,
    ensures
        tells(v, visitor.components(), a, b),
{
}

#[verifier::spinoff_prover]
#[verifier::rlimit(60)]
proof fn lemma_leads_up<W: Weight>(
    visitor: SccVisitor<W>,
    v: FstV<W>,
    m: Search<W>,
    s: int,
    k: int,
    i: int,
)
    requires
        visitor.found(v, m),
        m.accept == any_arc::<W>(),
        0 <= i < m.disc.len(),
        m.disc[i] == s,
        0 <= s < v.n(),
        0 <= k < v.arcs(s).len(),
    ensures
        leads_up(v, visitor.components(), s, k),
{
    let g = arc_graph(v, m.accept);
    let y = v.arcs(s)[k].nextstate as int;
    assert(has_arc(v, m.accept, s, y));
    assert(g(m.disc[i] as int, y));
}

proof fn lemma_found<W: Weight>(visitor: SccVisitor<W>, v: FstV<W>, m: Search<W>)
    requires
        v.wf(),
        v.n() <= usize::MAX,
        visitor.found(v, m),
        m.accept == any_arc::<W>(),
        forall|s: usize| s < v.n() ==> #[trigger] m.disc.contains(s),
    ensures
        are_components(v, visitor.components()),
{
    let scc = visitor.components();
    if v.n() > 0 {
        let i = lemma_met(visitor, v, m, v.n() - 1);
    } else {
        lemma_no_more(visitor, v, m);
    }
    assert forall|a: int, b: int| 0 <= a < v.n() && 0 <= b < v.n() implies #[trigger] tells(
        v,
        scc,
        a,
        b,
    ) by {
        let i = lemma_met(visitor, v, m, a);
        let j = lemma_met(visitor, v, m, b);
        lemma_tells(visitor, v, m, a, b, i, j);
    }
    assert forall|s: int, k: int|
        0 <= s < v.n() && 0 <= k < v.arcs(s).len() implies #[trigger] leads_up(v, scc, s, k) by {
        let i = lemma_met(visitor, v, m, s);
        lemma_leads_up(visitor, v, m, s, k, i);
    }
}

proof fn lemma_no_more<W: Weight>(visitor: SccVisitor<W>, v: FstV<W>, m: Search<W>)
    requires
        visitor.found(v, m),
    ensures
        visitor.components().len() <= v.n(),
{
}

/// Whether some state of the machine can be come back to.
pub open spec fn is_cyclic<W: Weight>(v: FstV<W>) -> bool {
    exists|s: int| 0 <= s < v.n() && #[trigger] on_cycle(full_graph(v), s)
}

/// Whether a machine is said to be one that can be gone round in.
pub open spec fn said_cyclic<W: Weight>(v: FstV<W>) -> bool {
    said(v, K_CYCLIC, K_ACYCLIC, is_cyclic(v))
}

/// Whether a machine is said to be one that can be gone round in.
pub fn cyclic<W: Weight>(fst: &VectorFst<W>) -> (b: bool)
    requires
        fst@.wf(),
        fst@.start is Some || fst@.n() == 0,
    ensures
        b == said_cyclic(fst@),
{
    if fst.known_properties(K_CYCLIC) != 0 {
        return true;
    }
    if fst.known_properties(K_ACYCLIC) != 0 {
        return false;
    }
    let ghost v = fst@;
    let n: usize = fst.num_states();
    if n == 0 {
        return false;
    }
    let scc = components_of(fst);
    let mut s: usize = 0;
    while s < n
        invariant
            s <= n,
            v == fst@,
            v.wf(),
            n == v.n(),
            v.props & K_CYCLIC == 0,
            v.props & K_ACYCLIC == 0,
            are_components(v, scc@),
            forall|x: int, i: int|
                0 <= x < s && 0 <= i < v.states[x].arcs.len() ==> scc@[x]
                    != scc@[(#[trigger] v.states[x].arcs[i]).nextstate as int],
        decreases n - s,
    {
        let arcs = fst.arcs(s);
        let mut i: usize = 0;
        while i < arcs.len()
            invariant
                s < n,
                v == fst@,
                v.wf(),
                n == v.n(),
                v.props & K_CYCLIC == 0,
                v.props & K_ACYCLIC == 0,
                are_components(v, scc@),
                i <= arcs@.len(),
                arcs@ == v.states[s as int].arcs,
                forall|x: int, j: int|
                    (0 <= x < s && 0 <= j < v.states[x].arcs.len()) || (x == s && 0 <= j < i)
                        ==> scc@[x] != scc@[(#[trigger] v.states[x].arcs[j]).nextstate as int],
            decreases arcs@.len() - i,
        {
            assert(v.states[s as int].arcs[i as int].nextstate < v.n());
            let t: usize = arcs[i].nextstate;
            if scc[s] == scc[t] {
                proof {
                    assert(tells(v, scc@, s as int, t as int));
                    assert(v.arcs(s as int)[i as int].nextstate == t);
                    assert(full_graph(v)(s as int, t as int));
                    assert(on_cycle(full_graph(v), s as int));
                }
                return true;
            }
            i = i + 1;
        }
        s = s + 1;
    }
    proof {
        if is_cyclic(v) {
            let x = choose|x: int| 0 <= x < v.n() && #[trigger] on_cycle(full_graph(v), x);
            let g = full_graph(v);
            let t = choose|t: int| #[trigger] g(x, t) && reach(g, t, x);
            let i = choose|i: int| 0 <= i < v.arcs(x).len() && (#[trigger] v.arcs(x)[i]).nextstate == t;
            assert(v.states[x].arcs[i].nextstate < v.n());
            lemma_reach_edge(g, x, t);
            assert(tells(v, scc@, x, t));
        }
    }
    false
}

} // verus!
