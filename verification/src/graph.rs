//! Reachability in a graph given by its edges.
use crate::arc::Arc;
use crate::vector_fst::FstV;
use crate::weight::Weight;
use vstd::prelude::*;

verus! {

/// A graph: whether there is an edge from one point to another.
pub type Graph = spec_fn(int, int) -> bool;

/// Whether `t` is `k` edges away from `s`.
pub open spec fn reach_in(g: Graph, s: int, t: int, k: nat) -> bool
    decreases k,
{
    if k == 0 {
        s == t
    } else {
        exists|m: int| #[trigger] g(s, m) && reach_in(g, m, t, (k - 1) as nat)
    }
}

/// Whether `t` can be reached from `s`, by no edges or more.
pub open spec fn reach(g: Graph, s: int, t: int) -> bool {
    exists|k: nat| reach_in(g, s, t, k)
}

/// Whether each can be reached from the other.
pub open spec fn mutual(g: Graph, s: int, t: int) -> bool {
    reach(g, s, t) && reach(g, t, s)
}

/// Whether `s` can be come back to by at least one edge.
pub open spec fn on_cycle(g: Graph, s: int) -> bool {
    exists|t: int| #[trigger] g(s, t) && reach(g, t, s)
}

/// Every point reaches itself.
pub proof fn lemma_reach_refl(g: Graph, s: int)
    ensures
        reach(g, s, s),
{
    assert(reach_in(g, s, s, 0));
}

/// An edge is a way.
pub proof fn lemma_reach_edge(g: Graph, s: int, t: int)
    requires
        g(s, t),
    ensures
        reach(g, s, t),
{
    assert(reach_in(g, t, t, 0));
    assert(reach_in(g, s, t, 1));
}

/// A first edge and a way is a way.
pub proof fn lemma_reach_step(g: Graph, s: int, m: int, t: int)
    requires
        g(s, m),
        reach(g, m, t),
    ensures
        reach(g, s, t),
{
    let k = choose|k: nat| reach_in(g, m, t, k);
    assert(reach_in(g, s, t, k + 1));
}

proof fn lemma_reach_in_trans(g: Graph, a: int, b: int, c: int, k: nat)
    requires
        reach_in(g, a, b, k),
        reach(g, b, c),
    ensures
        reach(g, a, c),
    decreases k,
{
    if k > 0 {
        let m = choose|m: int| #[trigger] g(a, m) && reach_in(g, m, b, (k - 1) as nat);
        lemma_reach_in_trans(g, m, b, c, (k - 1) as nat);
        lemma_reach_step(g, a, m, c);
    }
}

/// A way and a way is a way.
pub proof fn lemma_reach_trans(g: Graph, a: int, b: int, c: int)
    requires
        reach(g, a, b),
        reach(g, b, c),
    ensures
        reach(g, a, c),
{
    let k = choose|k: nat| reach_in(g, a, b, k);
    lemma_reach_in_trans(g, a, b, c, k);
}

proof fn lemma_closed_in(g: Graph, inside: spec_fn(int) -> bool, s: int, t: int, k: nat)
    requires
        forall|x: int, y: int| inside(x) && #[trigger] g(x, y) ==> inside(y),
        inside(s),
        reach_in(g, s, t, k),
    ensures
        inside(t),
    decreases k,
{
    if k > 0 {
        let m = choose|m: int| #[trigger] g(s, m) && reach_in(g, m, t, (k - 1) as nat);
        lemma_closed_in(g, inside, m, t, (k - 1) as nat);
    }
}

/// What no edge leaves, no way leaves.
pub proof fn lemma_closed(g: Graph, inside: spec_fn(int) -> bool, s: int, t: int)
    requires
        forall|x: int, y: int| inside(x) && #[trigger] g(x, y) ==> inside(y),
        inside(s),
        reach(g, s, t),
    ensures
        inside(t),
{
    let k = choose|k: nat| reach_in(g, s, t, k);
    lemma_closed_in(g, inside, s, t, k);
}

/// The graph of the arcs of a machine that `accept` looks at.
pub open spec fn arc_graph<W: Weight>(v: FstV<W>, accept: spec_fn(Arc<W>) -> bool) -> Graph {
    |s: int, t: int| has_arc(v, accept, s, t)
}

/// Whether some arc that `accept` looks at leads from `s` to `t`.
pub open spec fn has_arc<W: Weight>(v: FstV<W>, accept: spec_fn(Arc<W>) -> bool, s: int, t: int) -> bool {
    0 <= s < v.n() && exists|i: int|
        0 <= i < v.arcs(s).len() && (#[trigger] v.arcs(s)[i]).nextstate == t && accept(v.arcs(s)[i])
}

/// Looking at every arc.
pub open spec fn any_arc<W: Weight>() -> spec_fn(Arc<W>) -> bool {
    |arc: Arc<W>| true
}

/// The graph of all arcs of a machine.
pub open spec fn full_graph<W: Weight>(v: FstV<W>) -> Graph {
    arc_graph(v, any_arc())
}

/// Whether a state where a path may end can be reached from `s`.
pub open spec fn reaches_final<W: Weight>(v: FstV<W>, g: Graph, s: int) -> bool {
    exists|f: int| 0 <= f < v.n() && v.is_final(f) && #[trigger] reach(g, s, f)
}

} // verus!
