//! Why one depth-first search finds the strongly connected components.
//!
//! The search keeps a stack of the states whose component is still open. Each
//! of them belongs to one frame of the search, the deepest that was discovered
//! no later, and lies on a cycle with it. A frame whose low link is its own
//! number therefore closes exactly the component above it on the stack.
use crate::arc::Arc;
use crate::dfs_visit::{
    frame_wf, lemma_next_arc, linked, next_arc, on_stack, search_wf, DfsCall, Frame, Search,
};
use crate::graph::{
    arc_graph, has_arc, lemma_closed, lemma_reach_edge, lemma_reach_refl, lemma_reach_trans,
    mutual, on_cycle, reach, reach_in, reaches_final, Graph,
};
use crate::vector_fst::FstV;
use crate::weight::Weight;
use vstd::prelude::*;

verus! {

/// The part of a search that the components depend on.
#[verifier::reject_recursive_types(W)]
pub struct Stage<W> {
    /// Which arcs are followed.
    pub accept: spec_fn(Arc<W>) -> bool,
    /// The discovered states, in the order of discovery.
    pub disc: Seq<usize>,
    /// The finished states, in the order of finishing.
    pub fin: Seq<usize>,
    /// The states that are discovered and unfinished, the deepest last.
    pub stack: Seq<Frame>,
}

/// What the search for components writes down.
pub struct Marks {
    /// The number of each discovered state.
    pub dfn: Seq<usize>,
    /// The least number known to be reachable from each state on the stack.
    pub low: Seq<usize>,
    /// The states whose component is open.
    pub open: Seq<usize>,
    /// The component of each closed state.
    pub scc: Seq<usize>,
    /// How many components are closed.
    pub nscc: int,
}

/// The part of a search that the components depend on.
pub open spec fn stage<W: Weight>(m: Search<W>) -> Stage<W> {
    Stage { accept: m.accept, disc: m.disc, fin: m.fin, stack: m.stack }
}

impl<W: Weight> Stage<W> {
    /// The arcs that are followed, as a graph.
    pub open spec fn graph(self, v: FstV<W>) -> Graph {
        arc_graph(v, self.accept)
    }

    /// Whether the `j`th arc of `x` is followed and behind.
    pub open spec fn behind(self, v: FstV<W>, x: int, j: int) -> bool {
        &&& 0 <= j < v.arcs(x).len()
        &&& (self.accept)(v.arcs(x)[j])
        &&& self.fin.contains(x as usize) || exists|k: int|
            0 <= k < self.stack.len() && (#[trigger] self.stack[k]).s == x && j < self.stack[k].next
    }

    /// Whether the component of `x` is closed.
    pub open spec fn closed(self, t: Marks, x: int) -> bool {
        0 <= x <= usize::MAX && self.disc.contains(x as usize) && !t.open.contains(x as usize)
    }

    /// Whether the open state `x` belongs to frame `k`.
    pub open spec fn owns(self, t: Marks, k: int, x: int) -> bool {
        &&& 0 <= k < self.stack.len()
        &&& self.stack[k].num <= t.dfn[x]
        &&& k + 1 < self.stack.len() ==> t.dfn[x] < self.stack[k + 1].num
    }
}

/// The numbers and the stack of open states.
pub open spec fn marks_wf<W: Weight>(c: Stage<W>, t: Marks) -> bool {
    &&& t.dfn.len() == t.low.len()
    &&& t.dfn.len() == t.scc.len()
    &&& forall|i: int| 0 <= i < c.disc.len() ==> (#[trigger] c.disc[i]) < t.dfn.len()
    &&& forall|i: int| 0 <= i < c.disc.len() ==> t.dfn[(#[trigger] c.disc[i]) as int] == i
    &&& forall|a: int| 0 <= a < t.open.len() ==> c.disc.contains(#[trigger] t.open[a])
    &&& forall|a: int, b: int|
        0 <= a < b < t.open.len() ==> t.dfn[(#[trigger] t.open[a]) as int]
            < t.dfn[(#[trigger] t.open[b]) as int]
    &&& forall|k: int| 0 <= k < c.stack.len() ==> t.open.contains((#[trigger] c.stack[k]).s)
}

/// What holds of the closed components.
pub open spec fn components<W: Weight>(v: FstV<W>, c: Stage<W>, t: Marks) -> bool {
    let g = c.graph(v);
    &&& 0 <= t.nscc <= c.disc.len()
    &&& forall|x: int, y: int| c.closed(t, x) && #[trigger] g(x, y) ==> c.closed(t, y)
    &&& forall|x: int| #[trigger] c.closed(t, x) ==> t.scc[x] < t.nscc
    &&& forall|x: int, y: int| #[trigger]
        c.closed(t, x) && #[trigger] c.closed(t, y) ==> (t.scc[x] == t.scc[y] <==> mutual(g, x, y))
    &&& forall|x: int, y: int| c.closed(t, x) && #[trigger] g(x, y) ==> t.scc[y] <= t.scc[x]
    &&& forall|n: int|
        0 <= n < t.nscc ==> #[trigger] inhabited(c, t, n)
}

/// Whether some closed state is in component `n`.
pub open spec fn inhabited<W: Weight>(c: Stage<W>, t: Marks, n: int) -> bool {
    exists|x: int| #[trigger] c.closed(t, x) && t.scc[x] == n
}

/// What holds of the open states.
pub open spec fn owners<W: Weight>(v: FstV<W>, c: Stage<W>, t: Marks) -> bool {
    let g = c.graph(v);
    &&& c.stack.len() == 0 ==> t.open.len() == 0
    &&& forall|a: int|
        0 <= a < t.open.len() && c.stack.len() > 0 ==> t.dfn[(#[trigger] t.open[a]) as int]
            >= c.stack[0].num
    &&& forall|a: int, k: int|
        0 <= a < t.open.len() && #[trigger] c.owns(t, k, t.open[a] as int) ==> mutual(
            g,
            c.stack[k].s as int,
            t.open[a] as int,
        )
}

/// What holds of the low links.
pub open spec fn low_links<W: Weight>(v: FstV<W>, c: Stage<W>, t: Marks) -> bool {
    let g = c.graph(v);
    &&& forall|k: int| 0 <= k < c.stack.len() ==> low_link(g, t, (#[trigger] c.stack[k]).s as int)
    &&& forall|a: int, k: int, j: int|
        0 <= a < t.open.len() && #[trigger] c.owns(t, k, t.open[a] as int) && #[trigger] c.behind(
            v,
            t.open[a] as int,
            j,
        ) && t.open.contains(v.arcs(t.open[a] as int)[j].nextstate) ==> t.low[c.stack[k].s as int]
            <= t.dfn[v.arcs(t.open[a] as int)[j].nextstate as int]
    &&& forall|x: int, j: int|
        0 <= x < v.n() && #[trigger] c.behind(v, x, j) ==> c.disc.contains(v.arcs(x)[j].nextstate)
    &&& forall|a: int, k: int, j: int|
        0 <= a < t.open.len() && 1 <= k < c.stack.len() && t.dfn[t.open[a] as int]
            < (#[trigger] c.stack[k]).num && #[trigger] c.behind(v, t.open[a] as int, j)
            && t.dfn[v.arcs(t.open[a] as int)[j].nextstate as int] >= c.stack[k].num ==> t.open[a]
            == c.stack[k - 1].s && j == c.stack[k - 1].next - 1
}

/// Whether the low link of `s` is the number of an open state that `s` reaches.
pub open spec fn low_link(g: Graph, t: Marks, s: int) -> bool {
    &&& t.low[s] <= t.dfn[s]
    &&& exists|a: int|
        0 <= a < t.open.len() && t.dfn[(#[trigger] t.open[a]) as int] == t.low[s] && reach(
            g,
            s,
            t.open[a] as int,
        )
}

/// What the search for components keeps to.
pub open spec fn tarjan<W: Weight>(v: FstV<W>, c: Stage<W>, t: Marks) -> bool {
    &&& marks_wf(c, t)
    &&& components(v, c, t)
    &&& owners(v, c, t)
    &&& low_links(v, c, t)
}

/// Every open state belongs to some frame.
pub proof fn lemma_owner<W: Weight>(v: FstV<W>, c: Stage<W>, t: Marks, x: usize) -> (k: int)
    requires
        owners(v, c, t),
        t.open.contains(x),
        forall|k: int, l: int|
            0 <= k < l < c.stack.len() ==> (#[trigger] c.stack[k]).num < (#[trigger] c.stack[l]).num,
    ensures
        c.owns(t, k, x as int),
{
    let a = choose|a: int| 0 <= a < t.open.len() && t.open[a] == x;
    assert(t.dfn[t.open[a] as int] >= c.stack[0].num);
    lemma_owner_below(c, t, x, (c.stack.len() - 1) as int)
}

proof fn lemma_owner_below<W: Weight>(c: Stage<W>, t: Marks, x: usize, top: int) -> (k: int)
    requires
        0 <= top < c.stack.len(),
        c.stack[0].num <= t.dfn[x as int],
        top + 1 < c.stack.len() ==> t.dfn[x as int] < c.stack[top + 1].num,
    ensures
        c.owns(t, k, x as int),
    decreases top,
{
    if c.stack[top].num <= t.dfn[x as int] {
        top
    } else {
        lemma_owner_below(c, t, x, top - 1)
    }
}

/// What `x` is discovered means for its number.
pub proof fn lemma_number<W: Weight>(c: Stage<W>, t: Marks, x: usize)
    requires
        marks_wf(c, t),
        c.disc.contains(x),
    ensures
        x < t.dfn.len(),
        t.dfn[x as int] < c.disc.len(),
        c.disc[t.dfn[x as int] as int] == x,
{
    let i = choose|i: int| 0 <= i < c.disc.len() && c.disc[i] == x;
    assert(t.dfn[c.disc[i] as int] == i);
}

/// Each frame reaches the frames below it.
pub proof fn lemma_frames_reach<W: Weight>(v: FstV<W>, m: Search<W>, k: int, l: int)
    requires
        search_wf(v, m),
        0 <= k <= l < m.stack.len(),
    ensures
        reach(stage(m).graph(v), m.stack[k].s as int, m.stack[l].s as int),
    decreases l - k,
{
    let g = stage(m).graph(v);
    if k == l {
        lemma_reach_refl(g, m.stack[k].s as int);
    } else {
        lemma_frames_reach(v, m, k, l - 1);
        assert(linked(v, m, l));
        assert(frame_wf(v, m, m.stack[l - 1]));
        let p = m.stack[l - 1];
        assert(v.arcs(p.s as int)[p.next - 1].nextstate == m.stack[l].s);
        assert(has_arc(v, m.accept, p.s as int, m.stack[l].s as int));
        lemma_reach_edge(g, p.s as int, m.stack[l].s as int);
        lemma_reach_trans(g, m.stack[k].s as int, p.s as int, m.stack[l].s as int);
    }
}

/// Discovering a state puts one arc behind, the one it was reached by.
pub proof fn lemma_behind_init<W: Weight>(v: FstV<W>, m: Search<W>, s: usize, root: usize, ok: bool)
    requires
        v.wf(),
        v.n() <= usize::MAX,
        search_wf(v, m),
        m.next_call(v) == Some(DfsCall::Init { s, root }),
    ensures
        forall|x: int, j: int|
            0 <= x < v.n() ==> (#[trigger] stage(m.after(DfsCall::Init { s, root }, ok)).behind(
                v,
                x,
                j,
            ) <==> stage(m).behind(v, x, j) || (m.pending == Some(j) && x == m.stack.last().s)),
{
    let c = stage(m);
    let c2 = stage(m.after(DfsCall::Init { s, root }, ok));
    assert forall|x: int, j: int| 0 <= x < v.n() implies (#[trigger] c2.behind(v, x, j)
        <==> c.behind(v, x, j) || (m.pending == Some(j) && x == m.stack.last().s)) by {
        if m.pending is Some {
            let f = m.stack.last();
            assert(frame_wf(v, m, m.stack[m.stack.len() - 1]));
            lemma_next_arc(m.accept, v.arcs(f.s as int), f.next);
        }
        if c.behind(v, x, j) && !c.fin.contains(x as usize) {
            let k = choose|k: int|
                0 <= k < c.stack.len() && (#[trigger] c.stack[k]).s == x && j < c.stack[k].next;
            assert(c2.stack[k].s == x && j < c2.stack[k].next);
        }
        if m.pending == Some(j) && x == m.stack.last().s {
            assert(c2.stack[m.stack.len() - 1].s == x);
        }
        if c2.behind(v, x, j) && !c2.fin.contains(x as usize) {
            let k = choose|k: int|
                0 <= k < c2.stack.len() && (#[trigger] c2.stack[k]).s == x && j < c2.stack[k].next;
            assert(k < c.stack.len());
            if k == c.stack.len() - 1 && m.pending is Some && j >= c.stack[k].next {
                assert(j == m.pending->0);
            } else {
                assert(c.stack[k].s == x && j < c.stack[k].next);
            }
        }
    }
}

/// Walking an arc puts it behind, and no other.
pub proof fn lemma_behind_advance<W: Weight>(v: FstV<W>, m: Search<W>, m2: Search<W>, i: int)
    requires
        search_wf(v, m),
        m.stack.len() > 0,
        i == next_arc(m.accept, v.arcs(m.stack.last().s as int), m.stack.last().next),
        i < v.arcs(m.stack.last().s as int).len(),
        m2.stack == m.advanced(i + 1),
        m2.fin == m.fin,
        m2.accept == m.accept,
    ensures
        forall|x: int, j: int|
            0 <= x < v.n() ==> (#[trigger] stage(m2).behind(v, x, j) <==> stage(m).behind(v, x, j)
                || (j == i && x == m.stack.last().s)),
{
    let c = stage(m);
    let c2 = stage(m2);
    let f = m.stack.last();
    assert(frame_wf(v, m, m.stack[m.stack.len() - 1]));
    lemma_next_arc(m.accept, v.arcs(f.s as int), f.next);
    assert forall|x: int, j: int| 0 <= x < v.n() implies (#[trigger] c2.behind(v, x, j)
        <==> c.behind(v, x, j) || (j == i && x == m.stack.last().s)) by {
        if c.behind(v, x, j) && !c.fin.contains(x as usize) {
            let k = choose|k: int|
                0 <= k < c.stack.len() && (#[trigger] c.stack[k]).s == x && j < c.stack[k].next;
            assert(c2.stack[k].s == x && j < c2.stack[k].next);
        }
        if j == i && x == m.stack.last().s {
            assert(c2.stack[m.stack.len() - 1].s == x);
        }
        if c2.behind(v, x, j) && !c2.fin.contains(x as usize) {
            let k = choose|k: int|
                0 <= k < c2.stack.len() && (#[trigger] c2.stack[k]).s == x && j < c2.stack[k].next;
            if !(k == c.stack.len() - 1 && j >= c.stack[k].next) {
                assert(c.stack[k].s == x && j < c.stack[k].next);
            }
        }
    }
}

/// Finishing a state whose arcs ran out puts no arc behind.
pub proof fn lemma_behind_finish<W: Weight>(v: FstV<W>, m: Search<W>, ok: bool)
    requires
        search_wf(v, m),
        v.n() <= usize::MAX,
        m.ok,
        m.next_call(v) matches Some(DfsCall::Finish { .. }),
    ensures
        forall|x: int, j: int|
            0 <= x < v.n() ==> (#[trigger] stage(m.after(m.next_call(v)->0, ok)).behind(v, x, j)
                <==> stage(m).behind(v, x, j)),
{
    let c = stage(m);
    let c2 = stage(m.after(m.next_call(v)->0, ok));
    let f = m.stack.last();
    assert(frame_wf(v, m, m.stack[m.stack.len() - 1]));
    lemma_next_arc(m.accept, v.arcs(f.s as int), f.next);
    lemma_push_has(m.fin, f.s);
    assert forall|x: int, j: int| 0 <= x < v.n() implies (#[trigger] c2.behind(v, x, j)
        <==> c.behind(v, x, j)) by {
        if c.behind(v, x, j) && !c.fin.contains(x as usize) {
            let k = choose|k: int|
                0 <= k < c.stack.len() && (#[trigger] c.stack[k]).s == x && j < c.stack[k].next;
            if k < c2.stack.len() {
                assert(c2.stack[k].s == x && j < c2.stack[k].next);
            }
        }
        if c2.behind(v, x, j) && !c.behind(v, x, j) {
            if x == f.s {
                assert(c.stack[c.stack.len() - 1].s == x);
                assert(j >= f.next);
                assert(false);
            }
            if !c2.fin.contains(x as usize) {
                let k = choose|k: int|
                    0 <= k < c2.stack.len() && (#[trigger] c2.stack[k]).s == x && j
                        < c2.stack[k].next;
                assert(c.stack[k].s == x);
            }
        }
    }
}

/// A sequence with one more element has that and what it had.
pub proof fn lemma_push_has<T>(s: Seq<T>, x: T)
    ensures
        forall|y: T| #[trigger] s.push(x).contains(y) <==> s.contains(y) || y == x,
{
    assert forall|y: T| s.contains(y) || y == x implies #[trigger] s.push(x).contains(y) by {
        if y == x {
            assert(s.push(x)[s.len() as int] == x);
        } else {
            let i = choose|i: int| 0 <= i < s.len() && s[i] == y;
            assert(s.push(x)[i] == y);
        }
    }
    assert forall|y: T| #[trigger] s.push(x).contains(y) implies s.contains(y) || y == x by {
        let i = choose|i: int| 0 <= i < s.push(x).len() && s.push(x)[i] == y;
        if i < s.len() {
            assert(s[i] == y);
        }
    }
}

/// What discovering `s` does to the marks.
pub open spec fn marks_init(t: Marks, t2: Marks, s: usize, num: int) -> bool {
    &&& t2.dfn.len() >= t.dfn.len()
    &&& s < t2.dfn.len()
    &&& t2.low.len() == t2.dfn.len()
    &&& t2.scc.len() == t2.dfn.len()
    &&& t2.dfn[s as int] == num
    &&& t2.low[s as int] == num
    &&& t2.open == t.open.push(s)
    &&& t2.nscc == t.nscc
    &&& forall|x: int| 0 <= x < t.dfn.len() && x != s ==> (#[trigger] t2.dfn[x]) == t.dfn[x]
    &&& forall|x: int| 0 <= x < t.dfn.len() && x != s ==> (#[trigger] t2.low[x]) == t.low[x]
    &&& forall|x: int| 0 <= x < t.dfn.len() ==> (#[trigger] t2.scc[x]) == t.scc[x]
}

/// Discovering a state keeps what the search keeps to.
#[verifier::spinoff_prover]
#[verifier::rlimit(80)]
pub proof fn lemma_tarjan_init<W: Weight>(
    v: FstV<W>,
    m: Search<W>,
    t: Marks,
    t2: Marks,
    s: usize,
    root: usize,
    ok: bool,
)
    requires
        v.wf(),
        v.n() <= usize::MAX,
        search_wf(v, m),
        search_wf(v, m.after(DfsCall::Init { s, root }, ok)),
        !m.disc.contains(s),
        m.next_call(v) == Some(DfsCall::Init { s, root }),
        tarjan(v, stage(m), t),
        marks_init(t, t2, s, m.disc.len() as int),
    ensures
        tarjan(v, stage(m.after(DfsCall::Init { s, root }, ok)), t2),
{
    let c = stage(m);
    let m2 = m.after(DfsCall::Init { s, root }, ok);
    let c2 = stage(m2);
    let g = c.graph(v);
    let num = m.disc.len() as int;
    lemma_push_has(m.disc, s);
    lemma_push_has(t.open, s);
    lemma_behind_init(v, m, s, root, ok);
    assert(c2.graph(v) == g);
    assert forall|x: usize| #[trigger] c.disc.contains(x) implies x < t.dfn.len() && t2.dfn[x as int]
        == t.dfn[x as int] && t.dfn[x as int] < num && x != s by {
        lemma_number(c, t, x);
    }
    assert forall|a: int| 0 <= a < t.open.len() implies c.disc.contains(#[trigger] t.open[a])
        && t2.open[a] == t.open[a] by {}
    assert(t2.open[t.open.len() as int] == s);
    assert forall|k: int| 0 <= k < c.stack.len() implies c2.stack[k].num == (#[trigger] c.stack[k]).num
        && c2.stack[k].s == c.stack[k].s && c.disc.contains(c.stack[k].s) by {
        assert(frame_wf(v, m, m.stack[k]));
    }
    // the numbers
    assert(marks_wf(c2, t2)) by {
        assert forall|i: int| 0 <= i < c2.disc.len() implies t2.dfn[(#[trigger] c2.disc[i]) as int] == i
            && c2.disc[i] < t2.dfn.len() by {
            if i < num {
                assert(c.disc.contains(c.disc[i]));
            }
        }
        assert forall|a: int, b: int| 0 <= a < b < t2.open.len() implies t2.dfn[(
        #[trigger] t2.open[a]) as int] < t2.dfn[(#[trigger] t2.open[b]) as int] by {
            assert(c.disc.contains(t.open[a]));
            if b < t.open.len() {
                assert(c.disc.contains(t.open[b]));
            }
        }
        assert forall|k: int| 0 <= k < c2.stack.len() implies t2.open.contains(
            (#[trigger] c2.stack[k]).s,
        ) by {
            if k < c.stack.len() {
                assert(t.open.contains(c.stack[k].s));
            }
        }
    }
    // the closed components
    assert forall|x: int| #[trigger] c2.closed(t2, x) <==> c.closed(t, x) by {
        if c.closed(t, x) {
            assert(c.disc.contains(x as usize));
        }
    }
    assert(components(v, c2, t2)) by {
        assert forall|x: int| #[trigger] c2.closed(t2, x) implies t2.scc[x] == t.scc[x] by {
            assert(c.disc.contains(x as usize));
        }
        assert forall|x: int, y: int| #[trigger]
            c2.closed(t2, x) && #[trigger] c2.closed(t2, y) implies (t2.scc[x] == t2.scc[y]
            <==> mutual(g, x, y)) by {
            assert(c.closed(t, x) && c.closed(t, y));
        }
        assert forall|x: int| #[trigger] c2.closed(t2, x) implies t2.scc[x] < t2.nscc by {
            assert(c.closed(t, x));
        }
        assert forall|x: int, y: int| c2.closed(t2, x) && #[trigger] g(x, y) implies c2.closed(t2, y)
            && t2.scc[y] <= t2.scc[x] by {
            assert(c.closed(t, x));
            assert(c.closed(t, y));
            assert(c2.closed(t2, y));
        }
        assert forall|n: int| 0 <= n < t2.nscc implies #[trigger] inhabited(c2, t2, n) by {
            assert(inhabited(c, t, n));
            let x = choose|x: int| #[trigger] c.closed(t, x) && t.scc[x] == n;
            assert(c2.closed(t2, x));
        }
    }
    // who belongs to whom
    assert forall|a: int, k: int| 0 <= a < t.open.len() && #[trigger] c2.owns(
        t2,
        k,
        t.open[a] as int,
    ) implies k < c.stack.len() && c.owns(t, k, t.open[a] as int) by {
        assert(c.disc.contains(t.open[a]));
    }
    assert(owners(v, c2, t2)) by {
        lemma_reach_refl(g, s as int);
        assert forall|a: int| 0 <= a < t2.open.len() && c2.stack.len() > 0 implies t2.dfn[(
        #[trigger] t2.open[a]) as int] >= c2.stack[0].num by {
            if a < t.open.len() {
                assert(c.disc.contains(t.open[a]));
            } else if c.stack.len() > 0 {
                assert(frame_wf(v, m, m.stack[0]));
            }
        }
        assert forall|a: int, k: int|
            0 <= a < t2.open.len() && #[trigger] c2.owns(t2, k, t2.open[a] as int) implies mutual(
            g,
            c2.stack[k].s as int,
            t2.open[a] as int,
        ) by {
            if a < t.open.len() {
                assert(c.owns(t, k, t.open[a] as int));
            } else {
                assert(k == c2.stack.len() - 1);
            }
        }
    }
    // the low links
    assert(low_links(v, c2, t2)) by {
        assert forall|k: int| 0 <= k < c2.stack.len() implies low_link(
            g,
            t2,
            (#[trigger] c2.stack[k]).s as int,
        ) by {
            if k < c.stack.len() {
                assert(low_link(g, t, c.stack[k].s as int));
                assert(c.disc.contains(c.stack[k].s));
                let a = choose|a: int|
                    0 <= a < t.open.len() && t.dfn[(#[trigger] t.open[a]) as int] == t.low[c.stack[k].s as int]
                        && reach(g, c.stack[k].s as int, t.open[a] as int);
                assert(c.disc.contains(t.open[a]));
                assert(t2.open[a] == t.open[a]);
            } else {
                lemma_reach_refl(g, s as int);
                assert(t2.open[t.open.len() as int] == s);
            }
        }
        assert forall|x: int, j: int| 0 <= x < v.n() && #[trigger] c2.behind(v, x, j) implies c2.disc.contains(
            v.arcs(x)[j].nextstate,
        ) by {
            if c.behind(v, x, j) {
                assert(c.disc.contains(v.arcs(x)[j].nextstate));
            }
        }
        assert forall|a: int, k: int, j: int|
            0 <= a < t2.open.len() && #[trigger] c2.owns(t2, k, t2.open[a] as int)
                && #[trigger] c2.behind(v, t2.open[a] as int, j) && t2.open.contains(
                v.arcs(t2.open[a] as int)[j].nextstate,
            ) implies t2.low[c2.stack[k].s as int] <= t2.dfn[v.arcs(
            t2.open[a] as int,
        )[j].nextstate as int] by {
            let x = t2.open[a];
            let y = v.arcs(x as int)[j].nextstate;
            assert(c2.disc.contains(x));
            if a < t.open.len() {
                assert(c.disc.contains(x));
                assert(x < v.n());
                assert(c.owns(t, k, x as int));
                assert(c.disc.contains(c.stack[k].s));
                if c.behind(v, x as int, j) {
                    assert(c.disc.contains(y));
                    assert(t.open.contains(y));
                } else {
                    assert(x == m.stack.last().s && y == s);
                    assert(low_link(g, t, c.stack[k].s as int));
                    assert(t.dfn[c.stack[k].s as int] < num);
                }
            } else {
                assert(s < v.n());
                if c.behind(v, s as int, j) {
                    if m.fin.contains(s) {
                        let i = choose|i: int| 0 <= i < m.fin.len() && m.fin[i] == s;
                        assert(m.disc.contains(m.fin[i]));
                    } else {
                        let l = choose|l: int|
                            0 <= l < c.stack.len() && (#[trigger] c.stack[l]).s == s && j
                                < c.stack[l].next;
                        assert(c.disc.contains(c.stack[l].s));
                    }
                } else {
                    assert(c.disc.contains(c.stack[c.stack.len() - 1].s));
                }
            }
        }
        assert forall|a: int, k: int, j: int|
            0 <= a < t2.open.len() && 1 <= k < c2.stack.len() && t2.dfn[t2.open[a] as int] < (
            #[trigger] c2.stack[k]).num && #[trigger] c2.behind(v, t2.open[a] as int, j)
                && t2.dfn[v.arcs(t2.open[a] as int)[j].nextstate as int]
                >= c2.stack[k].num implies t2.open[a] == c2.stack[k - 1].s && j == c2.stack[k
            - 1].next - 1 by {
            let x = t2.open[a];
            let y = v.arcs(x as int)[j].nextstate;
            assert(a < t.open.len()) by {
                if a == t.open.len() {
                    assert(x == s);
                    if k < c.stack.len() {
                        assert(frame_wf(v, m, m.stack[k]));
                    }
                }
            }
            assert(c.disc.contains(x));
            assert(x < v.n());
            if c.behind(v, x as int, j) {
                assert(c.disc.contains(y));
                if k < c.stack.len() {
                    assert(t.open[a] == c.stack[k - 1].s && j == c.stack[k - 1].next - 1);
                    assert(frame_wf(v, m, m.stack[k]));
                    assert(k - 1 < c.stack.len() - 1);
                    assert(c2.stack[k - 1] == c.stack[k - 1]);
                }
            } else {
                assert(x == m.stack.last().s && m.pending == Some(j));
                if k < c.stack.len() {
                    assert(frame_wf(v, m, m.stack[k]));
                    assert(frame_wf(v, m, m.stack[c.stack.len() - 1]));
                    assert(t.dfn[x as int] == c.stack.last().num);
                    assert(false);
                }
            }
        }
    }
}

/// Walking an arc to a discovered state keeps what the search keeps to, where
/// the low link takes that state into account.
pub proof fn lemma_tarjan_advance<W: Weight>(
    v: FstV<W>,
    m: Search<W>,
    m2: Search<W>,
    t: Marks,
    t2: Marks,
    i: int,
)
    requires
        v.wf(),
        search_wf(v, m),
        m.stack.len() > 0,
        i == next_arc(m.accept, v.arcs(m.stack.last().s as int), m.stack.last().next),
        i < v.arcs(m.stack.last().s as int).len(),
        m2.stack == m.advanced(i + 1),
        m2.fin == m.fin,
        m2.disc == m.disc,
        m2.accept == m.accept,
        tarjan(v, stage(m), t),
        m.disc.contains(v.arcs(m.stack.last().s as int)[i].nextstate),
        ({
            let x = m.stack.last().s as int;
            let y = v.arcs(x)[i].nextstate;
            &&& t2.low.len() == t.low.len()
            &&& forall|z: int| 0 <= z < t.low.len() && z != x ==> (#[trigger] t2.low[z]) == t.low[z]
            &&& t2.low[x] <= t.low[x]
            &&& t2.low[x] == t.low[x] || (t.open.contains(y) && t2.low[x] == t.dfn[y as int])
            &&& t.open.contains(y) ==> t2.low[x] <= t.dfn[y as int]
            &&& t2 == (Marks { low: t2.low, ..t })
        }),
    ensures
        tarjan(v, stage(m2), t2),
{
    let c = stage(m);
    let c2 = stage(m2);
    let g = c.graph(v);
    let top = m.stack.len() - 1;
    let f = m.stack.last();
    let y = v.arcs(f.s as int)[i].nextstate;
    lemma_behind_advance(v, m, m2, i);
    assert(frame_wf(v, m, m.stack[top]));
    lemma_next_arc(m.accept, v.arcs(f.s as int), f.next);
    assert(has_arc(v, m.accept, f.s as int, y as int));
    assert(c2.graph(v) == g);
    assert forall|k: int| 0 <= k < c.stack.len() implies c2.stack[k].num == (#[trigger] c.stack[k]).num
        && c2.stack[k].s == c.stack[k].s by {}
    assert(marks_wf(c2, t2)) by {
        assert forall|k: int| 0 <= k < c2.stack.len() implies t2.open.contains(
            (#[trigger] c2.stack[k]).s,
        ) by {
            assert(t.open.contains(c.stack[k].s));
        }
    }
    assert forall|x: int| #[trigger] c2.closed(t2, x) <==> c.closed(t, x) by {}
    assert(components(v, c2, t2)) by {
        assert forall|x: int, z: int| #[trigger]
            c2.closed(t2, x) && #[trigger] c2.closed(t2, z) implies (t2.scc[x] == t2.scc[z]
            <==> mutual(g, x, z)) by {
            assert(c.closed(t, x) && c.closed(t, z));
        }
        assert forall|x: int| #[trigger] c2.closed(t2, x) implies t2.scc[x] < t2.nscc by {
            assert(c.closed(t, x));
        }
        assert forall|x: int, z: int| c2.closed(t2, x) && #[trigger] g(x, z) implies c2.closed(t2, z)
            && t2.scc[z] <= t2.scc[x] by {
            assert(c.closed(t, x));
            assert(c.closed(t, z));
            assert(c2.closed(t2, z));
        }
        assert forall|n: int| 0 <= n < t2.nscc implies #[trigger] inhabited(c2, t2, n) by {
            assert(inhabited(c, t, n));
            let x = choose|x: int| #[trigger] c.closed(t, x) && t.scc[x] == n;
            assert(c2.closed(t2, x));
        }
    }
    assert forall|k: int, x: int| #[trigger] c2.owns(t2, k, x) <==> c.owns(t, k, x) by {
        if 0 <= k < c.stack.len() {
            assert(c2.stack[k].num == c.stack[k].num);
            if k + 1 < c.stack.len() {
                assert(c2.stack[k + 1].num == c.stack[k + 1].num);
            }
        }
    }
    assert(owners(v, c2, t2)) by {
        assert forall|a: int, k: int|
            0 <= a < t2.open.len() && #[trigger] c2.owns(t2, k, t2.open[a] as int) implies mutual(
            g,
            c2.stack[k].s as int,
            t2.open[a] as int,
        ) by {
            assert(c.owns(t, k, t.open[a] as int));
        }
    }
    assert(low_links(v, c2, t2)) by {
        assert forall|k: int| 0 <= k < c2.stack.len() implies low_link(
            g,
            t2,
            (#[trigger] c2.stack[k]).s as int,
        ) by {
            let z = c.stack[k].s as int;
            assert(low_link(g, t, z));
            assert(frame_wf(v, m, m.stack[k]));
            lemma_number(c, t, c.stack[k].s);
            let a = choose|a: int|
                0 <= a < t.open.len() && t.dfn[(#[trigger] t.open[a]) as int] == t.low[z] && reach(
                    g,
                    z,
                    t.open[a] as int,
                );
            if z == f.s && t2.low[z] != t.low[z] {
                let b = choose|b: int| 0 <= b < t.open.len() && t.open[b] == y;
                lemma_reach_edge(g, z, y as int);
                assert(t2.open[b] == y);
            } else {
                assert(t2.open[a] == t.open[a]);
            }
        }
        assert forall|x: int, j: int| 0 <= x < v.n() && #[trigger] c2.behind(v, x, j) implies c2.disc.contains(
            v.arcs(x)[j].nextstate,
        ) by {
            if c.behind(v, x, j) {
            }
        }
        assert forall|a: int, k: int, j: int|
            0 <= a < t2.open.len() && #[trigger] c2.owns(t2, k, t2.open[a] as int)
                && #[trigger] c2.behind(v, t2.open[a] as int, j) && t2.open.contains(
                v.arcs(t2.open[a] as int)[j].nextstate,
            ) implies t2.low[c2.stack[k].s as int] <= t2.dfn[v.arcs(
            t2.open[a] as int,
        )[j].nextstate as int] by {
            let x = t.open[a];
            assert(c.disc.contains(x));
            assert(x < v.n());
            assert(c.owns(t, k, x as int));
            assert(frame_wf(v, m, m.stack[k]));
            lemma_number(c, t, c.stack[k].s);
            if !c.behind(v, x as int, j) {
                assert(x == f.s);
                lemma_number(c, t, x);
                assert(t.dfn[x as int] == f.num);
                if k < top {
                    assert(c.stack[k + 1].num <= f.num) by {
                        if k + 1 < top {
                            assert(c.stack[k + 1].num < c.stack[top].num);
                        }
                    }
                }
                assert(k == top);
            }
        }
        assert forall|a: int, k: int, j: int|
            0 <= a < t2.open.len() && 1 <= k < c2.stack.len() && t2.dfn[t2.open[a] as int] < (
            #[trigger] c2.stack[k]).num && #[trigger] c2.behind(v, t2.open[a] as int, j)
                && t2.dfn[v.arcs(t2.open[a] as int)[j].nextstate as int]
                >= c2.stack[k].num implies t2.open[a] == c2.stack[k - 1].s && j == c2.stack[k
            - 1].next - 1 by {
            let x = t.open[a];
            assert(c.disc.contains(x));
            assert(x < v.n());
            if c.behind(v, x as int, j) {
                assert(t.dfn[t.open[a] as int] < c.stack[k].num);
                assert(t.open[a] == c.stack[k - 1].s && j == c.stack[k - 1].next - 1);
            } else {
                assert(x == f.s);
                lemma_number(c, t, x);
                assert(t.dfn[x as int] == f.num);
                assert(c.stack[k].num <= f.num) by {
                    if k < top {
                        assert(c.stack[k].num < c.stack[top].num);
                    }
                }
                assert(false);
            }
        }
    }
}

/// How many of the open states lie below those that belong to `s`.
pub open spec fn cut(t: Marks, s: usize, n: int) -> bool {
    &&& 0 <= n < t.open.len()
    &&& t.open[n] == s
}

/// Where `s` stands on the stack of open states, what is above it was
/// discovered later and what is below it earlier.
pub proof fn lemma_cut<W: Weight>(c: Stage<W>, t: Marks, s: usize, n: int)
    requires
        marks_wf(c, t),
        cut(t, s, n),
    ensures
        forall|a: int| 0 <= a < n ==> t.dfn[(#[trigger] t.open[a]) as int] < t.dfn[s as int],
        forall|a: int|
            n <= a < t.open.len() ==> t.dfn[(#[trigger] t.open[a]) as int] >= t.dfn[s as int],
        forall|x: usize| #[trigger]
            t.open.take(n).contains(x) <==> t.open.contains(x) && t.dfn[x as int] < t.dfn[s as int],
{
    assert forall|a: int| 0 <= a < n implies t.dfn[(#[trigger] t.open[a]) as int] < t.dfn[s as int] by {
        assert(t.dfn[t.open[a] as int] < t.dfn[t.open[n] as int]);
    }
    assert forall|a: int| n <= a < t.open.len() implies t.dfn[(#[trigger] t.open[a]) as int]
        >= t.dfn[s as int] by {
        if a > n {
            assert(t.dfn[t.open[n] as int] < t.dfn[t.open[a] as int]);
        }
    }
    assert forall|x: usize| #[trigger] t.open.take(n).contains(x) <==> t.open.contains(x)
        && t.dfn[x as int] < t.dfn[s as int] by {
        if t.open.take(n).contains(x) {
            let a = choose|a: int| 0 <= a < n && t.open.take(n)[a] == x;
            assert(t.open[a] == x);
        }
        if t.open.contains(x) && t.dfn[x as int] < t.dfn[s as int] {
            let a = choose|a: int| 0 <= a < t.open.len() && t.open[a] == x;
            assert(a < n);
            assert(t.open.take(n)[a] == x);
        }
    }
}

/// Finishing a state whose low link lies below it keeps what the search keeps
/// to: the states that belonged to it now belong to the one above it.
#[verifier::spinoff_prover]
#[verifier::rlimit(80)]
pub proof fn lemma_tarjan_finish_open<W: Weight>(
    v: FstV<W>,
    m: Search<W>,
    t: Marks,
    t2: Marks,
    ok: bool,
)
    requires
        v.wf(),
        v.n() <= usize::MAX,
        search_wf(v, m),
        m.ok,
        m.next_call(v) matches Some(DfsCall::Finish { .. }),
        tarjan(v, stage(m), t),
        t.low[m.stack.last().s as int] < t.dfn[m.stack.last().s as int],
        m.stack.len() > 1 ==> {
            let s = m.stack.last().s as int;
            let p = m.stack[m.stack.len() - 2].s as int;
            let l = if t.low[s] < t.low[p] {
                t.low[s]
            } else {
                t.low[p]
            };
            t2 == (Marks { low: t.low.update(p, l), ..t })
        },
    ensures
        m.stack.len() > 1,
        tarjan(v, stage(m.after(m.next_call(v)->0, ok)), t2),
{
    let c = stage(m);
    let m2 = m.after(m.next_call(v)->0, ok);
    let c2 = stage(m2);
    let g = c.graph(v);
    let top = m.stack.len() - 1;
    let f = m.stack.last();
    let s = f.s as int;
    assert(frame_wf(v, m, m.stack[top]));
    lemma_number(c, t, f.s);
    assert(low_link(g, t, m.stack[top].s as int));
    let ly = choose|a: int|
        0 <= a < t.open.len() && t.dfn[(#[trigger] t.open[a]) as int] == t.low[s] && reach(
            g,
            s,
            t.open[a] as int,
        );
    assert(t.dfn[t.open[ly] as int] >= c.stack[0].num);
    assert(m.stack.len() > 1);
    let q = m.stack[top - 1];
    let p = q.s as int;
    assert(frame_wf(v, m, m.stack[top - 1]));
    lemma_number(c, t, q.s);
    lemma_behind_finish(v, m, ok);
    assert(c2.graph(v) == g);
    assert(c2.stack =~= c.stack.drop_last());
    // the frame above reaches and is reached
    lemma_frames_reach(v, m, top - 1, top);
    let y = t.open[ly];
    let ky = lemma_owner(v, c, t, y);
    assert(ky <= top - 1) by {
        if ky == top {
            assert(c.stack[top].num <= t.dfn[y as int]);
        }
    }
    assert(c.owns(t, ky, t.open[ly] as int));
    lemma_frames_reach(v, m, ky, top - 1);
    lemma_reach_trans(g, s, y as int, c.stack[ky].s as int);
    lemma_reach_trans(g, s, c.stack[ky].s as int, p);
    assert(mutual(g, p, s));
    assert(marks_wf(c2, t2)) by {
        assert forall|k: int| 0 <= k < c2.stack.len() implies t2.open.contains(
            (#[trigger] c2.stack[k]).s,
        ) by {
            assert(t.open.contains(c.stack[k].s));
        }
    }
    assert forall|x: int| #[trigger] c2.closed(t2, x) <==> c.closed(t, x) by {}
    assert(components(v, c2, t2)) by {
        assert forall|x: int, z: int| #[trigger]
            c2.closed(t2, x) && #[trigger] c2.closed(t2, z) implies (t2.scc[x] == t2.scc[z]
            <==> mutual(g, x, z)) by {
            assert(c.closed(t, x) && c.closed(t, z));
        }
        assert forall|x: int| #[trigger] c2.closed(t2, x) implies t2.scc[x] < t2.nscc by {
            assert(c.closed(t, x));
        }
        assert forall|x: int, z: int| c2.closed(t2, x) && #[trigger] g(x, z) implies c2.closed(t2, z)
            && t2.scc[z] <= t2.scc[x] by {
            assert(c.closed(t, x));
            assert(c.closed(t, z));
            assert(c2.closed(t2, z));
        }
        assert forall|n: int| 0 <= n < t2.nscc implies #[trigger] inhabited(c2, t2, n) by {
            assert(inhabited(c, t, n));
            let x = choose|x: int| #[trigger] c.closed(t, x) && t.scc[x] == n;
            assert(c2.closed(t2, x));
        }
    }
    assert forall|k: int, x: int| #[trigger] c2.owns(t2, k, x) implies c.owns(t, k, x) || (k == top
        - 1 && c.owns(t, top, x)) by {
        if k < top - 1 {
            assert(c2.stack[k + 1] == c.stack[k + 1]);
        }
    }
    assert(owners(v, c2, t2)) by {
        assert forall|a: int, k: int|
            0 <= a < t2.open.len() && #[trigger] c2.owns(t2, k, t2.open[a] as int) implies mutual(
            g,
            c2.stack[k].s as int,
            t2.open[a] as int,
        ) by {
            let x = t.open[a] as int;
            if !c.owns(t, k, x) {
                assert(c.owns(t, top, x));
                lemma_reach_trans(g, p, s, x);
                lemma_reach_trans(g, x, s, p);
            }
        }
    }
    assert(low_links(v, c2, t2)) by {
        assert forall|k: int| 0 <= k < c2.stack.len() implies low_link(
            g,
            t2,
            (#[trigger] c2.stack[k]).s as int,
        ) by {
            let z = c.stack[k].s as int;
            assert(low_link(g, t, z));
            assert(frame_wf(v, m, m.stack[k]));
            lemma_number(c, t, c.stack[k].s);
            let a = choose|a: int|
                0 <= a < t.open.len() && t.dfn[(#[trigger] t.open[a]) as int] == t.low[z] && reach(
                    g,
                    z,
                    t.open[a] as int,
                );
            if z == p && t2.low[z] != t.low[z] {
                lemma_reach_trans(g, p, s, y as int);
                assert(t2.open[ly] == y);
            } else {
                assert(t2.open[a] == t.open[a]);
            }
        }
        assert forall|x: int, j: int| 0 <= x < v.n() && #[trigger] c2.behind(v, x, j) implies c2.disc.contains(
            v.arcs(x)[j].nextstate,
        ) by {
            assert(c.behind(v, x, j));
        }
        assert forall|a: int, k: int, j: int|
            0 <= a < t2.open.len() && #[trigger] c2.owns(t2, k, t2.open[a] as int)
                && #[trigger] c2.behind(v, t2.open[a] as int, j) && t2.open.contains(
                v.arcs(t2.open[a] as int)[j].nextstate,
            ) implies t2.low[c2.stack[k].s as int] <= t2.dfn[v.arcs(
            t2.open[a] as int,
        )[j].nextstate as int] by {
            let x = t.open[a];
            assert(c.disc.contains(x));
            assert(x < v.n());
            assert(c.behind(v, x as int, j));
            assert(frame_wf(v, m, m.stack[k]));
            lemma_number(c, t, c.stack[k].s);
            if c.owns(t, k, x as int) {
                assert(t.low[c.stack[k].s as int] <= t.dfn[v.arcs(x as int)[j].nextstate as int]);
            } else {
                assert(c.owns(t, top, t.open[a] as int));
                assert(t.low[c.stack[top].s as int] <= t.dfn[v.arcs(x as int)[j].nextstate as int]);
            }
        }
        assert forall|a: int, k: int, j: int|
            0 <= a < t2.open.len() && 1 <= k < c2.stack.len() && t2.dfn[t2.open[a] as int] < (
            #[trigger] c2.stack[k]).num && #[trigger] c2.behind(v, t2.open[a] as int, j)
                && t2.dfn[v.arcs(t2.open[a] as int)[j].nextstate as int]
                >= c2.stack[k].num implies t2.open[a] == c2.stack[k - 1].s && j == c2.stack[k
            - 1].next - 1 by {
            let x = t.open[a];
            assert(c.disc.contains(x));
            assert(x < v.n());
            assert(c.behind(v, x as int, j));
            assert(t.dfn[t.open[a] as int] < c.stack[k].num);
            assert(t.open[a] == c.stack[k - 1].s && j == c.stack[k - 1].next - 1);
        }
    }
}

/// When a state whose low link is its own number is finished, what belongs to
/// it is a component, and nothing leads from it to what stays open.
pub proof fn lemma_component_leaves<W: Weight>(v: FstV<W>, m: Search<W>, t: Marks, x: int, y: int)
    requires
        v.wf(),
        v.n() <= usize::MAX,
        search_wf(v, m),
        m.ok,
        m.next_call(v) matches Some(DfsCall::Finish { .. }),
        tarjan(v, stage(m), t),
        t.low[m.stack.last().s as int] == t.dfn[m.stack.last().s as int],
        0 <= x < v.n(),
        t.open.contains(x as usize),
        t.dfn[x] >= t.dfn[m.stack.last().s as int],
        stage(m).graph(v)(x, y),
    ensures
        stage(m).closed(t, y) || (0 <= y < v.n() && t.open.contains(y as usize) && t.dfn[y]
            >= t.dfn[m.stack.last().s as int]),
        exists|j: int| #[trigger]
            stage(m).behind(v, x, j) && v.arcs(x)[j].nextstate == y,
{
    let c = stage(m);
    let g = c.graph(v);
    let top = m.stack.len() - 1;
    let f = m.stack.last();
    assert(frame_wf(v, m, m.stack[top]));
    lemma_number(c, t, f.s);
    let a = choose|a: int| 0 <= a < t.open.len() && t.open[a] == x as usize;
    assert(c.disc.contains(t.open[a]));
    lemma_number(c, t, x as usize);
    assert(c.owns(t, top, t.open[a] as int));
    let j = choose|j: int|
        0 <= j < v.arcs(x).len() && (#[trigger] v.arcs(x)[j]).nextstate == y && (m.accept)(
            v.arcs(x)[j],
        );
    assert(v.states[x].arcs[j].nextstate < v.n());
    assert(c.behind(v, x, j)) by {
        let i = t.dfn[x] as int;
        assert(m.fin.contains(m.disc[i]) || on_stack(m, m.disc[i]));
        if !m.fin.contains(x as usize) {
            let k = choose|k: int| 0 <= k < m.stack.len() && (#[trigger] m.stack[k]).s == m.disc[i];
            assert(frame_wf(v, m, m.stack[k]));
            assert(t.dfn[x] == m.stack[k].num);
            if k < top {
                assert(m.stack[k].num < m.stack[top].num);
            }
            assert(k == top);
            lemma_next_arc(m.accept, v.arcs(f.s as int), f.next);
            assert(j < f.next);
        }
    }
    assert(c.disc.contains(v.arcs(x)[j].nextstate));
    if t.open.contains(y as usize) {
        assert(c.behind(v, t.open[a] as int, j));
        assert(t.low[c.stack[top].s as int] <= t.dfn[v.arcs(x)[j].nextstate as int]);
    }
}

/// Finishing a state whose low link is its own number closes what belonged to
/// it, as one component.
#[verifier::spinoff_prover]
#[verifier::rlimit(80)]
proof fn lemma_components_close<W: Weight>(
    v: FstV<W>,
    m: Search<W>,
    t: Marks,
    t2: Marks,
    n: int,
    ok: bool,
)
    requires
        v.wf(),
        v.n() <= usize::MAX,
        search_wf(v, m),
        m.ok,
        m.next_call(v) matches Some(DfsCall::Finish { .. }),
        tarjan(v, stage(m), t),
        t.low[m.stack.last().s as int] == t.dfn[m.stack.last().s as int],
        cut(t, m.stack.last().s, n),
        t2.dfn == t.dfn,
        t2.low == t.low,
        t2.open == t.open.take(n),
        t2.nscc == t.nscc + 1,
        t2.scc.len() == t.scc.len(),
        forall|x: int|
            0 <= x < t.scc.len() ==> (#[trigger] t2.scc[x]) == (if t.open.contains(x as usize)
                && t.dfn[x] >= t.dfn[m.stack.last().s as int] {
                t.nscc
            } else {
                t.scc[x] as int
            }),
    ensures
        components(v, stage(m.after(m.next_call(v)->0, ok)), t2),
{
    let c = stage(m);
    let m2 = m.after(m.next_call(v)->0, ok);
    let c2 = stage(m2);
    let g = c.graph(v);
    let top = m.stack.len() - 1;
    let f = m.stack.last();
    let s = f.s as int;
    assert(frame_wf(v, m, m.stack[top]));
    lemma_number(c, t, f.s);
    lemma_cut(c, t, f.s, n);
    lemma_behind_finish(v, m, ok);
    assert(c2.graph(v) == g);
    assert(c2.stack =~= c.stack.drop_last());
    assert forall|x: usize| #[trigger] c.disc.contains(x) implies x < t.dfn.len() && x < v.n() by {
        lemma_number(c, t, x);
        assert(c.disc[t.dfn[x as int] as int] < v.n());
    }
    let closing = |x: int|
        0 <= x < v.n() && t.open.contains(x as usize) && t.dfn[x] >= t.dfn[s];
    assert forall|x: int| #[trigger] closing(x) implies c.disc.contains(x as usize) && mutual(
        g,
        s,
        x,
    ) by {
        let a = choose|a: int| 0 <= a < t.open.len() && t.open[a] == x as usize;
        assert(c.disc.contains(t.open[a]));
        assert(c.owns(t, top, t.open[a] as int));
    }
    assert forall|x: int| #[trigger] c2.closed(t2, x) <==> c.closed(t, x) || closing(x) by {
        if c2.closed(t2, x) && !c.closed(t, x) {
            assert(c.disc.contains(x as usize));
            assert(t.open.contains(x as usize));
        }
        if closing(x) {
            let a = choose|a: int| 0 <= a < t.open.len() && t.open[a] == x as usize;
            assert(c.disc.contains(t.open[a]));
        }
    }

    assert forall|x: int| #[trigger] c2.closed(t2, x) implies t2.scc[x] == (if closing(x) {
        t.nscc
    } else {
        t.scc[x] as int
    }) && t2.scc[x] < t2.nscc by {
        assert(c.disc.contains(x as usize));
        if !closing(x) {
            assert(c.closed(t, x));
        }
    }
    assert forall|x: int, z: int| c2.closed(t2, x) && #[trigger] g(x, z) implies c2.closed(t2, z)
        && t2.scc[z] <= t2.scc[x] by {
        if closing(x) {
            lemma_component_leaves(v, m, t, x, z);
            assert(c2.closed(t2, z));
        } else {
            assert(c.closed(t, x));
            assert(c.closed(t, z));
            assert(c2.closed(t2, z));
            assert(!closing(z));
        }
    }
    assert forall|x: int, z: int| #[trigger]
        c2.closed(t2, x) && #[trigger] c2.closed(t2, z) implies (t2.scc[x] == t2.scc[z]
        <==> mutual(g, x, z)) by {
        let inside = |w: int| c.closed(t, w);
        if closing(x) && closing(z) {
            lemma_reach_trans(g, x, s, z);
            lemma_reach_trans(g, z, s, x);
        } else if closing(x) {
            assert(c.closed(t, z));
            assert(t.scc[z] < t.nscc);
            if mutual(g, x, z) {
                lemma_closed(g, inside, z, x);
                assert(c.closed(t, x));
            }
        } else if closing(z) {
            assert(c.closed(t, x));
            assert(t.scc[x] < t.nscc);
            if mutual(g, x, z) {
                lemma_closed(g, inside, x, z);
                assert(c.closed(t, z));
            }
        } else {
            assert(c.closed(t, x) && c.closed(t, z));
        }
    }
    assert forall|i: int| 0 <= i < t2.nscc implies #[trigger] inhabited(c2, t2, i) by {
        if i < t.nscc {
            assert(inhabited(c, t, i));
            let x = choose|x: int| #[trigger] c.closed(t, x) && t.scc[x] == i;
            assert(c2.closed(t2, x));
            assert(!closing(x));
        } else {
            assert(t.open.contains(f.s));
            assert(closing(s));
            assert(c2.closed(t2, s));
        }
    }
    lemma_component_count(v, c2, t2);
}

/// Closing a component leaves the numbers in order.
#[verifier::spinoff_prover]
#[verifier::rlimit(80)]
proof fn lemma_marks_close<W: Weight>(
    v: FstV<W>,
    m: Search<W>,
    t: Marks,
    t2: Marks,
    n: int,
    ok: bool,
)
    requires
        v.wf(),
        v.n() <= usize::MAX,
        search_wf(v, m),
        m.ok,
        m.next_call(v) matches Some(DfsCall::Finish { .. }),
        tarjan(v, stage(m), t),
        t.low[m.stack.last().s as int] == t.dfn[m.stack.last().s as int],
        cut(t, m.stack.last().s, n),
        t2.dfn == t.dfn,
        t2.low == t.low,
        t2.open == t.open.take(n),
        t2.nscc == t.nscc + 1,
        t2.scc.len() == t.scc.len(),
        forall|x: int|
            0 <= x < t.scc.len() ==> (#[trigger] t2.scc[x]) == (if t.open.contains(x as usize)
                && t.dfn[x] >= t.dfn[m.stack.last().s as int] {
                t.nscc
            } else {
                t.scc[x] as int
            }),
    ensures
        marks_wf(stage(m.after(m.next_call(v)->0, ok)), t2),
{
    let c = stage(m);
    let m2 = m.after(m.next_call(v)->0, ok);
    let c2 = stage(m2);
    let g = c.graph(v);
    let top = m.stack.len() - 1;
    let f = m.stack.last();
    let s = f.s as int;
    assert(frame_wf(v, m, m.stack[top]));
    lemma_number(c, t, f.s);
    lemma_cut(c, t, f.s, n);
    lemma_behind_finish(v, m, ok);
    assert(c2.graph(v) == g);
    assert(c2.stack =~= c.stack.drop_last());
    assert forall|x: usize| #[trigger] c.disc.contains(x) implies x < t.dfn.len() && x < v.n() by {
        lemma_number(c, t, x);
        assert(c.disc[t.dfn[x as int] as int] < v.n());
    }
    let closing = |x: int|
        0 <= x < v.n() && t.open.contains(x as usize) && t.dfn[x] >= t.dfn[s];
    assert forall|x: int| #[trigger] closing(x) implies c.disc.contains(x as usize) && mutual(
        g,
        s,
        x,
    ) by {
        let a = choose|a: int| 0 <= a < t.open.len() && t.open[a] == x as usize;
        assert(c.disc.contains(t.open[a]));
        assert(c.owns(t, top, t.open[a] as int));
    }
    assert forall|x: int| #[trigger] c2.closed(t2, x) <==> c.closed(t, x) || closing(x) by {
        if c2.closed(t2, x) && !c.closed(t, x) {
            assert(c.disc.contains(x as usize));
            assert(t.open.contains(x as usize));
        }
        if closing(x) {
            let a = choose|a: int| 0 <= a < t.open.len() && t.open[a] == x as usize;
            assert(c.disc.contains(t.open[a]));
        }
    }
    assert forall|a: int| 0 <= a < t2.open.len() implies c2.disc.contains(#[trigger] t2.open[a]) by {
        assert(c.disc.contains(t.open[a]));
    }
    assert forall|a: int, b: int| 0 <= a < b < t2.open.len() implies t2.dfn[(
    #[trigger] t2.open[a]) as int] < t2.dfn[(#[trigger] t2.open[b]) as int] by {
        assert(t.dfn[t.open[a] as int] < t.dfn[t.open[b] as int]);
    }
    assert forall|k: int| 0 <= k < c2.stack.len() implies t2.open.contains(
        (#[trigger] c2.stack[k]).s,
    ) by {
        assert(t.open.contains(c.stack[k].s));
        assert(frame_wf(v, m, m.stack[k]));
        lemma_number(c, t, c.stack[k].s);
        assert(c.stack[k].num < c.stack[top].num);
    }
}

/// Closing a component leaves the other open states where they belong.
#[verifier::spinoff_prover]
#[verifier::rlimit(80)]
proof fn lemma_owners_close<W: Weight>(
    v: FstV<W>,
    m: Search<W>,
    t: Marks,
    t2: Marks,
    n: int,
    ok: bool,
)
    requires
        v.wf(),
        v.n() <= usize::MAX,
        search_wf(v, m),
        m.ok,
        m.next_call(v) matches Some(DfsCall::Finish { .. }),
        tarjan(v, stage(m), t),
        t.low[m.stack.last().s as int] == t.dfn[m.stack.last().s as int],
        cut(t, m.stack.last().s, n),
        t2.dfn == t.dfn,
        t2.low == t.low,
        t2.open == t.open.take(n),
        t2.nscc == t.nscc + 1,
        t2.scc.len() == t.scc.len(),
        forall|x: int|
            0 <= x < t.scc.len() ==> (#[trigger] t2.scc[x]) == (if t.open.contains(x as usize)
                && t.dfn[x] >= t.dfn[m.stack.last().s as int] {
                t.nscc
            } else {
                t.scc[x] as int
            }),
    ensures
        owners(v, stage(m.after(m.next_call(v)->0, ok)), t2),
{
    let c = stage(m);
    let m2 = m.after(m.next_call(v)->0, ok);
    let c2 = stage(m2);
    let g = c.graph(v);
    let top = m.stack.len() - 1;
    let f = m.stack.last();
    let s = f.s as int;
    assert(frame_wf(v, m, m.stack[top]));
    lemma_number(c, t, f.s);
    lemma_cut(c, t, f.s, n);
    lemma_behind_finish(v, m, ok);
    assert(c2.graph(v) == g);
    assert(c2.stack =~= c.stack.drop_last());
    assert forall|x: usize| #[trigger] c.disc.contains(x) implies x < t.dfn.len() && x < v.n() by {
        lemma_number(c, t, x);
        assert(c.disc[t.dfn[x as int] as int] < v.n());
    }
    let closing = |x: int|
        0 <= x < v.n() && t.open.contains(x as usize) && t.dfn[x] >= t.dfn[s];
    assert forall|x: int| #[trigger] closing(x) implies c.disc.contains(x as usize) && mutual(
        g,
        s,
        x,
    ) by {
        let a = choose|a: int| 0 <= a < t.open.len() && t.open[a] == x as usize;
        assert(c.disc.contains(t.open[a]));
        assert(c.owns(t, top, t.open[a] as int));
    }
    assert forall|x: int| #[trigger] c2.closed(t2, x) <==> c.closed(t, x) || closing(x) by {
        if c2.closed(t2, x) && !c.closed(t, x) {
            assert(c.disc.contains(x as usize));
            assert(t.open.contains(x as usize));
        }
        if closing(x) {
            let a = choose|a: int| 0 <= a < t.open.len() && t.open[a] == x as usize;
            assert(c.disc.contains(t.open[a]));
        }
    }
    assert forall|k: int, a: int| 0 <= a < t2.open.len() && #[trigger] c2.owns(
        t2,
        k,
        t2.open[a] as int,
    ) implies c.owns(t, k, t.open[a] as int) by {
        if k < top - 1 {
            assert(c2.stack[k + 1] == c.stack[k + 1]);
        }
    }
    if top == 0 && t2.open.len() > 0 {
        assert(t.dfn[t.open[0] as int] >= c.stack[0].num);
        assert(t.dfn[t.open[0] as int] < t.dfn[s]);
        assert(false);
    }
    assert forall|a: int| 0 <= a < t2.open.len() && c2.stack.len() > 0 implies t2.dfn[(
    #[trigger] t2.open[a]) as int] >= c2.stack[0].num by {
        assert(t2.open[a] == t.open[a]);
    }
    assert forall|a: int, k: int|
        0 <= a < t2.open.len() && #[trigger] c2.owns(t2, k, t2.open[a] as int) implies mutual(
        g,
        c2.stack[k].s as int,
        t2.open[a] as int,
    ) by {
        assert(c.owns(t, k, t.open[a] as int));
    }
}

/// Closing a component leaves the low links of the frames above it.
#[verifier::spinoff_prover]
#[verifier::rlimit(80)]
proof fn lemma_low_links_close<W: Weight>(
    v: FstV<W>,
    m: Search<W>,
    t: Marks,
    t2: Marks,
    n: int,
    ok: bool,
)
    requires
        v.wf(),
        v.n() <= usize::MAX,
        search_wf(v, m),
        m.ok,
        m.next_call(v) matches Some(DfsCall::Finish { .. }),
        tarjan(v, stage(m), t),
        t.low[m.stack.last().s as int] == t.dfn[m.stack.last().s as int],
        cut(t, m.stack.last().s, n),
        t2.dfn == t.dfn,
        t2.low == t.low,
        t2.open == t.open.take(n),
        t2.nscc == t.nscc + 1,
        t2.scc.len() == t.scc.len(),
        forall|x: int|
            0 <= x < t.scc.len() ==> (#[trigger] t2.scc[x]) == (if t.open.contains(x as usize)
                && t.dfn[x] >= t.dfn[m.stack.last().s as int] {
                t.nscc
            } else {
                t.scc[x] as int
            }),
    ensures
        low_links(v, stage(m.after(m.next_call(v)->0, ok)), t2),
{
    let c = stage(m);
    let m2 = m.after(m.next_call(v)->0, ok);
    let c2 = stage(m2);
    let g = c.graph(v);
    let top = m.stack.len() - 1;
    let f = m.stack.last();
    let s = f.s as int;
    assert(frame_wf(v, m, m.stack[top]));
    lemma_number(c, t, f.s);
    lemma_cut(c, t, f.s, n);
    lemma_behind_finish(v, m, ok);
    assert(c2.graph(v) == g);
    assert(c2.stack =~= c.stack.drop_last());
    assert forall|x: usize| #[trigger] c.disc.contains(x) implies x < t.dfn.len() && x < v.n() by {
        lemma_number(c, t, x);
        assert(c.disc[t.dfn[x as int] as int] < v.n());
    }
    let closing = |x: int|
        0 <= x < v.n() && t.open.contains(x as usize) && t.dfn[x] >= t.dfn[s];
    assert forall|x: int| #[trigger] closing(x) implies c.disc.contains(x as usize) && mutual(
        g,
        s,
        x,
    ) by {
        let a = choose|a: int| 0 <= a < t.open.len() && t.open[a] == x as usize;
        assert(c.disc.contains(t.open[a]));
        assert(c.owns(t, top, t.open[a] as int));
    }
    assert forall|x: int| #[trigger] c2.closed(t2, x) <==> c.closed(t, x) || closing(x) by {
        if c2.closed(t2, x) && !c.closed(t, x) {
            assert(c.disc.contains(x as usize));
            assert(t.open.contains(x as usize));
        }
        if closing(x) {
            let a = choose|a: int| 0 <= a < t.open.len() && t.open[a] == x as usize;
            assert(c.disc.contains(t.open[a]));
        }
    }
    assert forall|k: int, a: int| 0 <= a < t2.open.len() && #[trigger] c2.owns(
        t2,
        k,
        t2.open[a] as int,
    ) implies c.owns(t, k, t.open[a] as int) by {
        if k < top - 1 {
            assert(c2.stack[k + 1] == c.stack[k + 1]);
        }
    }
    assert forall|k: int| 0 <= k < c2.stack.len() implies low_link(
        g,
        t2,
        (#[trigger] c2.stack[k]).s as int,
    ) by {
        let z = c.stack[k].s as int;
        assert(low_link(g, t, z));
        assert(frame_wf(v, m, m.stack[k]));
        lemma_number(c, t, c.stack[k].s);
        assert(c.stack[k].num < c.stack[top].num);
        let a = choose|a: int|
            0 <= a < t.open.len() && t.dfn[(#[trigger] t.open[a]) as int] == t.low[z] && reach(
                g,
                z,
                t.open[a] as int,
            );
        assert(a < n);
        assert(t2.open[a] == t.open[a]);
    }
    assert forall|x: int, j: int| 0 <= x < v.n() && #[trigger] c2.behind(v, x, j) implies c2.disc.contains(
        v.arcs(x)[j].nextstate,
    ) by {
        assert(c.behind(v, x, j));
    }
    assert forall|a: int, k: int, j: int|
        0 <= a < t2.open.len() && #[trigger] c2.owns(t2, k, t2.open[a] as int)
            && #[trigger] c2.behind(v, t2.open[a] as int, j) && t2.open.contains(
            v.arcs(t2.open[a] as int)[j].nextstate,
        ) implies t2.low[c2.stack[k].s as int] <= t2.dfn[v.arcs(
        t2.open[a] as int,
    )[j].nextstate as int] by {
        let x = t.open[a];
        assert(c.disc.contains(x));
        assert(c.behind(v, t.open[a] as int, j));
        assert(c.owns(t, k, t.open[a] as int));
        assert(t.open.contains(v.arcs(x as int)[j].nextstate));
    }
    assert forall|a: int, k: int, j: int|
        0 <= a < t2.open.len() && 1 <= k < c2.stack.len() && t2.dfn[t2.open[a] as int] < (
        #[trigger] c2.stack[k]).num && #[trigger] c2.behind(v, t2.open[a] as int, j)
            && t2.dfn[v.arcs(t2.open[a] as int)[j].nextstate as int]
            >= c2.stack[k].num implies t2.open[a] == c2.stack[k - 1].s && j == c2.stack[k
        - 1].next - 1 by {
        let x = t.open[a];
        assert(c.disc.contains(x));
        assert(c.behind(v, t.open[a] as int, j));
        assert(t.dfn[t.open[a] as int] < c.stack[k].num);
        assert(t.open[a] == c.stack[k - 1].s && j == c.stack[k - 1].next - 1);
    }
}

/// Finishing a state whose low link is its own number keeps what the search
/// keeps to: what belonged to it closes, as one component.
#[verifier::spinoff_prover]
#[verifier::rlimit(80)]
pub proof fn lemma_tarjan_finish_close<W: Weight>(
    v: FstV<W>,
    m: Search<W>,
    t: Marks,
    t2: Marks,
    n: int,
    ok: bool,
)
    requires
        v.wf(),
        v.n() <= usize::MAX,
        search_wf(v, m),
        m.ok,
        m.next_call(v) matches Some(DfsCall::Finish { .. }),
        tarjan(v, stage(m), t),
        t.low[m.stack.last().s as int] == t.dfn[m.stack.last().s as int],
        cut(t, m.stack.last().s, n),
        t2.dfn == t.dfn,
        t2.low == t.low,
        t2.open == t.open.take(n),
        t2.nscc == t.nscc + 1,
        t2.scc.len() == t.scc.len(),
        forall|x: int|
            0 <= x < t.scc.len() ==> (#[trigger] t2.scc[x]) == (if t.open.contains(x as usize)
                && t.dfn[x] >= t.dfn[m.stack.last().s as int] {
                t.nscc
            } else {
                t.scc[x] as int
            }),
    ensures
        tarjan(v, stage(m.after(m.next_call(v)->0, ok)), t2),
{
    lemma_marks_close(v, m, t, t2, n, ok);
    lemma_components_close(v, m, t, t2, n, ok);
    lemma_owners_close(v, m, t, t2, n, ok);
    lemma_low_links_close(v, m, t, t2, n, ok);
}

/// Where a state is open there are fewer components than discovered states.
pub proof fn lemma_component_count_open<W: Weight>(v: FstV<W>, c: Stage<W>, t: Marks, x: usize)
    requires
        0 <= t.nscc,
        forall|n: int| 0 <= n < t.nscc ==> #[trigger] inhabited(c, t, n),
        c.disc.contains(x),
        t.open.contains(x),
    ensures
        t.nscc < c.disc.len(),
{
    let i = choose|i: int| 0 <= i < c.disc.len() && c.disc[i] == x;
    let rest = Stage { disc: c.disc.remove(i), ..c };
    assert forall|n: int| 0 <= n < t.nscc implies #[trigger] inhabited(rest, t, n) by {
        assert(inhabited(c, t, n));
        let y = choose|y: int| #[trigger] c.closed(t, y) && t.scc[y] == n;
        let j = choose|j: int| 0 <= j < c.disc.len() && c.disc[j] == y as usize;
        assert(j != i);
        if j < i {
            assert(rest.disc[j] == y as usize);
        } else {
            assert(rest.disc[j - 1] == y as usize);
        }
        assert(rest.closed(t, y));
    }
    lemma_component_count(v, rest, t);
}

/// There are no more components than discovered states.
proof fn lemma_component_count<W: Weight>(v: FstV<W>, c: Stage<W>, t: Marks)
    requires
        0 <= t.nscc,
        forall|n: int| 0 <= n < t.nscc ==> #[trigger] inhabited(c, t, n),
    ensures
        t.nscc <= c.disc.len(),
{
    let f = |x: usize| t.scc[x as int] as int;
    let image = c.disc.map_values(f).to_set();
    let all = vstd::set_lib::set_int_range(0, t.nscc);
    vstd::set_lib::lemma_int_range(0, t.nscc);
    assert forall|n: int| all.contains(n) implies image.contains(n) by {
        assert(inhabited(c, t, n));
        let x = choose|x: int| #[trigger] c.closed(t, x) && t.scc[x] == n;
        let i = choose|i: int| 0 <= i < c.disc.len() && c.disc[i] == x as usize;
        assert(c.disc.map_values(f)[i] == n);
    }
    c.disc.map_values(f).lemma_cardinality_of_set();
    vstd::set_lib::lemma_len_subset(all, image);
}

/// What the search keeps to about the states that reach a final state.
pub open spec fn coaccess_inv<W: Weight>(v: FstV<W>, c: Stage<W>, t: Marks, co: Set<int>) -> bool {
    let g = c.graph(v);
    &&& forall|x: int| #[trigger]
        co.contains(x) ==> 0 <= x < v.n() && c.disc.contains(x as usize) && reaches_final(v, g, x)
    &&& forall|x: int| #[trigger] c.closed(t, x) && reaches_final(v, g, x) ==> co.contains(x)
    &&& forall|a: int|
        0 <= a < t.open.len() && c.fin.contains(#[trigger] t.open[a]) && v.is_final(t.open[a] as int)
            ==> co.contains(t.open[a] as int)
    &&& forall|a: int, j: int|
        0 <= a < t.open.len() && #[trigger] c.behind(v, t.open[a] as int, j) && c.closed(
            t,
            v.arcs(t.open[a] as int)[j].nextstate as int,
        ) && co.contains(v.arcs(t.open[a] as int)[j].nextstate as int) ==> co.contains(
            t.open[a] as int,
        )
}

/// Reaching what reaches a final state is reaching one.
pub proof fn lemma_reaches_final_step<W: Weight>(v: FstV<W>, g: Graph, x: int, y: int)
    requires
        reach(g, x, y),
        reaches_final(v, g, y),
    ensures
        reaches_final(v, g, x),
{
    let f = choose|f: int| 0 <= f < v.n() && v.is_final(f) && #[trigger] reach(g, y, f);
    lemma_reach_trans(g, x, y, f);
}

pub proof fn lemma_coaccess_init<W: Weight>(
    v: FstV<W>,
    m: Search<W>,
    t: Marks,
    t2: Marks,
    s: usize,
    root: usize,
    ok: bool,
    co: Set<int>,
)
    requires
        v.wf(),
        v.n() <= usize::MAX,
        search_wf(v, m),
        !m.disc.contains(s),
        m.next_call(v) == Some(DfsCall::Init { s, root }),
        tarjan(v, stage(m), t),
        tarjan(v, stage(m.after(DfsCall::Init { s, root }, ok)), t2),
        marks_init(t, t2, s, m.disc.len() as int),
        coaccess_inv(v, stage(m), t, co),
    ensures
        coaccess_inv(v, stage(m.after(DfsCall::Init { s, root }, ok)), t2, co),
{
    let c = stage(m);
    let c2 = stage(m.after(DfsCall::Init { s, root }, ok));
    let g = c.graph(v);
    assert(c2.graph(v) == g);
    lemma_push_has(m.disc, s);
    lemma_push_has(t.open, s);
    lemma_behind_init(v, m, s, root, ok);
    assert forall|x: int| #[trigger] c2.closed(t2, x) <==> c.closed(t, x) by {}
    assert forall|a: int|
        0 <= a < t2.open.len() && c2.fin.contains(#[trigger] t2.open[a]) && v.is_final(
            t2.open[a] as int,
        ) implies co.contains(t2.open[a] as int) by {
        if a < t.open.len() {
            assert(t2.open[a] == t.open[a]);
        } else {
            let i = choose|i: int| 0 <= i < m.fin.len() && m.fin[i] == s;
            assert(m.disc.contains(m.fin[i]));
        }
    }
    assert forall|a: int, j: int|
        0 <= a < t2.open.len() && #[trigger] c2.behind(v, t2.open[a] as int, j) && c2.closed(
            t2,
            v.arcs(t2.open[a] as int)[j].nextstate as int,
        ) && co.contains(v.arcs(t2.open[a] as int)[j].nextstate as int) implies co.contains(
        t2.open[a] as int,
    ) by {
        let x = t2.open[a];
        assert(c2.disc.contains(x));
        lemma_number(c2, t2, x);
        assert(x < v.n()) by {
            if a < t.open.len() {
                assert(c.disc.contains(t.open[a]));
                lemma_number(c, t, t.open[a]);
                assert(c.disc[t.dfn[t.open[a] as int] as int] < v.n());
            }
        }
        if c.behind(v, x as int, j) {
            if a < t.open.len() {
                assert(c.behind(v, t.open[a] as int, j));
            } else {
                if m.fin.contains(s) {
                    let i = choose|i: int| 0 <= i < m.fin.len() && m.fin[i] == s;
                    assert(m.disc.contains(m.fin[i]));
                } else {
                    let l = choose|l: int|
                        0 <= l < c.stack.len() && (#[trigger] c.stack[l]).s == s && j
                            < c.stack[l].next;
                    assert(frame_wf(v, m, m.stack[l]));
                }
            }
        }
    }
}

pub proof fn lemma_coaccess_advance<W: Weight>(
    v: FstV<W>,
    m: Search<W>,
    m2: Search<W>,
    t: Marks,
    t2: Marks,
    i: int,
    co: Set<int>,
)
    requires
        v.wf(),
        search_wf(v, m),
        m.stack.len() > 0,
        i == next_arc(m.accept, v.arcs(m.stack.last().s as int), m.stack.last().next),
        i < v.arcs(m.stack.last().s as int).len(),
        m2.stack == m.advanced(i + 1),
        m2.fin == m.fin,
        m2.disc == m.disc,
        m2.accept == m.accept,
        tarjan(v, stage(m), t),
        t2.open == t.open,
        coaccess_inv(v, stage(m), t, co),
    ensures
        coaccess_inv(
            v,
            stage(m2),
            t2,
            if co.contains(v.arcs(m.stack.last().s as int)[i].nextstate as int) {
                co.insert(m.stack.last().s as int)
            } else {
                co
            },
        ),
{
    let c = stage(m);
    let c2 = stage(m2);
    let g = c.graph(v);
    let f = m.stack.last();
    let y = v.arcs(f.s as int)[i].nextstate as int;
    assert(c2.graph(v) == g);
    lemma_behind_advance(v, m, m2, i);
    assert(frame_wf(v, m, m.stack[m.stack.len() - 1]));
    lemma_next_arc(m.accept, v.arcs(f.s as int), f.next);
    assert(has_arc(v, m.accept, f.s as int, y));
    lemma_reach_edge(g, f.s as int, y);
    if co.contains(y) {
        lemma_reaches_final_step(v, g, f.s as int, y);
    }
    assert forall|x: int| #[trigger] c2.closed(t2, x) <==> c.closed(t, x) by {}
    let co2 = if co.contains(y) {
        co.insert(f.s as int)
    } else {
        co
    };
    assert forall|a: int, j: int|
        0 <= a < t2.open.len() && #[trigger] c2.behind(v, t2.open[a] as int, j) && c2.closed(
            t2,
            v.arcs(t2.open[a] as int)[j].nextstate as int,
        ) && co2.contains(v.arcs(t2.open[a] as int)[j].nextstate as int) implies co2.contains(
        t2.open[a] as int,
    ) by {
        let x = t.open[a];
        assert(c.disc.contains(t.open[a]));
        lemma_number(c, t, x);
        assert(c.disc[t.dfn[x as int] as int] < v.n());
        let z = v.arcs(x as int)[j].nextstate;
        assert(t.open.contains(f.s)) by {
            assert(t.open.contains(c.stack[c.stack.len() - 1].s));
        }
        assert(z != f.s);
        if c.behind(v, x as int, j) {
            assert(c.behind(v, t.open[a] as int, j));
        }
    }
}

pub proof fn lemma_coaccess_finish_open<W: Weight>(
    v: FstV<W>,
    m: Search<W>,
    t: Marks,
    t2: Marks,
    ok: bool,
    co: Set<int>,
)
    requires
        v.wf(),
        v.n() <= usize::MAX,
        search_wf(v, m),
        m.ok,
        m.stack.len() > 1,
        m.next_call(v) matches Some(DfsCall::Finish { .. }),
        tarjan(v, stage(m), t),
        t2.open == t.open,
        coaccess_inv(v, stage(m), t, co),
    ensures
        ({
            let s = m.stack.last().s as int;
            let p = m.stack[m.stack.len() - 2].s as int;
            let co1 = if v.is_final(s) {
                co.insert(s)
            } else {
                co
            };
            let co2 = if co1.contains(s) {
                co1.insert(p)
            } else {
                co1
            };
            coaccess_inv(v, stage(m.after(m.next_call(v)->0, ok)), t2, co2)
        }),
{
    let s = m.stack.last().s as int;
    let p = m.stack[m.stack.len() - 2].s as int;
    let co1 = if v.is_final(s) {
        co.insert(s)
    } else {
        co
    };
    let co2 = if co1.contains(s) {
        co1.insert(p)
    } else {
        co1
    };
    let c = stage(m);
    let c2 = stage(m.after(m.next_call(v)->0, ok));
    let g = c.graph(v);
    assert(c2.graph(v) == g);
    lemma_behind_finish(v, m, ok);
    lemma_push_has(m.fin, m.stack.last().s);
    let top = m.stack.len() - 1;
    assert(frame_wf(v, m, m.stack[top]));
    assert(frame_wf(v, m, m.stack[top - 1]));
    lemma_frames_reach(v, m, top - 1, top);
    lemma_reach_refl(g, s);
    if v.is_final(s) {
        assert(reaches_final(v, g, s));
    }
    if co1.contains(s) {
        lemma_reaches_final_step(v, g, p, s);
    }
    assert(t.open.contains(c.stack[top].s));
    assert(t.open.contains(c.stack[top - 1].s));
    assert forall|x: int| #[trigger] c2.closed(t2, x) <==> c.closed(t, x) by {}
    assert forall|a: int, j: int|
        0 <= a < t2.open.len() && #[trigger] c2.behind(v, t2.open[a] as int, j) && c2.closed(
            t2,
            v.arcs(t2.open[a] as int)[j].nextstate as int,
        ) && co2.contains(v.arcs(t2.open[a] as int)[j].nextstate as int) implies co2.contains(
        t2.open[a] as int,
    ) by {
        let x = t.open[a];
        assert(c.disc.contains(t.open[a]));
        lemma_number(c, t, x);
        assert(c.disc[t.dfn[x as int] as int] < v.n());
        assert(c.behind(v, t.open[a] as int, j));
        let z = v.arcs(x as int)[j].nextstate;
        assert(z != s && z != p);
        assert(co.contains(z as int));
    }
}

/// A state of the component that closes at `s` reaches a final state only if
/// one of that component is marked.
proof fn lemma_component_coaccess<W: Weight>(
    v: FstV<W>,
    m: Search<W>,
    t: Marks,
    co: Set<int>,
    x: int,
    f: int,
    k: nat,
) -> (w: int)
    requires
        v.wf(),
        v.n() <= usize::MAX,
        search_wf(v, m),
        m.ok,
        m.next_call(v) matches Some(DfsCall::Finish { .. }),
        tarjan(v, stage(m), t),
        t.low[m.stack.last().s as int] == t.dfn[m.stack.last().s as int],
        coaccess_inv(v, stage(m), t, co),
        0 <= x < v.n(),
        t.open.contains(x as usize),
        t.dfn[x] >= t.dfn[m.stack.last().s as int],
        0 <= f < v.n(),
        v.is_final(f),
        reach_in(stage(m).graph(v), x, f, k),
    ensures
        0 <= w < v.n(),
        t.open.contains(w as usize),
        t.dfn[w] >= t.dfn[m.stack.last().s as int],
        co.contains(w) || (w == m.stack.last().s && v.is_final(w)),
    decreases k,
{
    let c = stage(m);
    let g = c.graph(v);
    let top = m.stack.len() - 1;
    let s = m.stack.last().s as int;
    assert(frame_wf(v, m, m.stack[top]));
    lemma_number(c, t, m.stack.last().s);
    let a = choose|a: int| 0 <= a < t.open.len() && t.open[a] == x as usize;
    assert(c.disc.contains(t.open[a]));
    lemma_number(c, t, x as usize);
    if k == 0 {
        if x != s {
            let i = t.dfn[x] as int;
            assert(m.fin.contains(m.disc[i]) || on_stack(m, m.disc[i]));
            if !m.fin.contains(x as usize) {
                let l = choose|l: int| 0 <= l < m.stack.len() && (#[trigger] m.stack[l]).s == m.disc[i];
                assert(frame_wf(v, m, m.stack[l]));
                if l < top {
                    assert(m.stack[l].num < m.stack[top].num);
                }
                assert(l == top);
            }
            assert(co.contains(t.open[a] as int));
        }
        x
    } else {
        let y = choose|y: int| #[trigger] g(x, y) && reach_in(g, y, f, (k - 1) as nat);
        lemma_component_leaves(v, m, t, x, y);
        if c.closed(t, y) {
            assert(reach(g, y, f));
            assert(reaches_final(v, g, y));
            assert(co.contains(y));
            let j = choose|j: int| #[trigger] c.behind(v, x, j) && v.arcs(x)[j].nextstate == y;
            assert(c.behind(v, t.open[a] as int, j));
            x
        } else {
            lemma_component_coaccess(v, m, t, co, y, f, (k - 1) as nat)
        }
    }
}

#[verifier::spinoff_prover]
#[verifier::rlimit(80)]
pub proof fn lemma_coaccess_finish_close<W: Weight>(
    v: FstV<W>,
    m: Search<W>,
    t: Marks,
    t2: Marks,
    n: int,
    ok: bool,
    co: Set<int>,
    marked: bool,
    co2: Set<int>,
)
    requires
        v.wf(),
        v.n() <= usize::MAX,
        search_wf(v, m),
        m.ok,
        m.next_call(v) matches Some(DfsCall::Finish { .. }),
        tarjan(v, stage(m), t),
        t.low[m.stack.last().s as int] == t.dfn[m.stack.last().s as int],
        cut(t, m.stack.last().s, n),
        t2.open == t.open.take(n),
        coaccess_inv(v, stage(m), t, co),
        ({
            let s = m.stack.last().s as int;
            let co1 = if v.is_final(s) {
                co.insert(s)
            } else {
                co
            };
            &&& marked == exists|a: int|
                n <= a < t.open.len() && co1.contains(#[trigger] t.open[a] as int)
            &&& forall|x: int| #[trigger]
                co2.contains(x) <==> co1.contains(x) || (marked && 0 <= x <= usize::MAX
                    && t.open.contains(x as usize) && t.dfn[x] >= t.dfn[s]) || (marked
                    && m.stack.len() > 1 && x == m.stack[m.stack.len() - 2].s)
        }),
    ensures
        coaccess_inv(v, stage(m.after(m.next_call(v)->0, ok)), t2, co2),
        forall|x: int|
            0 <= x < v.n() && t.open.contains(x as usize) && #[trigger] t.dfn[x]
                >= t.dfn[m.stack.last().s as int] ==> (co2.contains(x) <==> marked),
{
    let s = m.stack.last().s as int;
    let c = stage(m);
    let c2 = stage(m.after(m.next_call(v)->0, ok));
    let g = c.graph(v);
    assert(c2.graph(v) == g);
    let top = m.stack.len() - 1;
    assert(frame_wf(v, m, m.stack[top]));
    lemma_number(c, t, m.stack.last().s);
    lemma_cut(c, t, m.stack.last().s, n);
    lemma_behind_finish(v, m, ok);
    lemma_push_has(m.fin, m.stack.last().s);
    lemma_reach_refl(g, s);
    let co1 = if v.is_final(s) {
        co.insert(s)
    } else {
        co
    };
    if v.is_final(s) {
        assert(reaches_final(v, g, s));
    }
    let closing = |x: int|
        0 <= x < v.n() && t.open.contains(x as usize) && t.dfn[x] >= t.dfn[s];
    assert forall|x: usize| #[trigger] c.disc.contains(x) implies x < t.dfn.len() && x < v.n() by {
        lemma_number(c, t, x);
        assert(c.disc[t.dfn[x as int] as int] < v.n());
    }
    assert forall|a: int| 0 <= a < t.open.len() implies c.disc.contains(#[trigger] t.open[a]) by {}
    assert forall|x: int| #[trigger] closing(x) implies c.disc.contains(x as usize) && mutual(
        g,
        s,
        x,
    ) && exists|a: int| n <= a < t.open.len() && t.open[a] == x by {
        let a = choose|a: int| 0 <= a < t.open.len() && t.open[a] == x as usize;
        assert(c.disc.contains(t.open[a]));
        assert(c.owns(t, top, t.open[a] as int));
        assert(a >= n);
    }
    assert forall|x: int| #[trigger] c2.closed(t2, x) <==> c.closed(t, x) || closing(x) by {
        if c2.closed(t2, x) && !c.closed(t, x) {
            assert(c.disc.contains(x as usize));
            assert(t.open.contains(x as usize));
        }
    }
    // the component reaches a final state exactly if it is marked
    if marked {
        let a = choose|a: int| n <= a < t.open.len() && co1.contains(#[trigger] t.open[a] as int);
        assert(c.disc.contains(t.open[a]));
        let w = t.open[a] as int;
        assert(closing(w));
        lemma_reaches_final_step(v, g, s, w);
        assert forall|x: int| #[trigger] closing(x) implies reaches_final(v, g, x) by {
            lemma_reaches_final_step(v, g, x, s);
        }
        if top > 0 {
            assert(frame_wf(v, m, m.stack[top - 1]));
            lemma_frames_reach(v, m, top - 1, top);
            lemma_reaches_final_step(v, g, m.stack[top - 1].s as int, s);
        }
    }
    assert forall|x: int| #[trigger] closing(x) && reaches_final(v, g, x) implies marked by {
        let f = choose|f: int| 0 <= f < v.n() && v.is_final(f) && #[trigger] reach(g, x, f);
        let k = choose|k: nat| reach_in(g, x, f, k);
        let w = lemma_component_coaccess(v, m, t, co, x, f, k);
        assert(closing(w));
        let a = choose|a: int| n <= a < t.open.len() && t.open[a] == w;
        assert(co1.contains(t.open[a] as int));
    }
    assert forall|x: int|
        0 <= x < v.n() && t.open.contains(x as usize) && #[trigger] t.dfn[x] >= t.dfn[s] implies (
    co2.contains(x) <==> marked) by {
        assert(closing(x));
        if co2.contains(x) && !marked {
            let a = choose|a: int| n <= a < t.open.len() && t.open[a] == x;
            assert(co1.contains(t.open[a] as int));
        }
    }
    assert forall|x: int| #[trigger] co2.contains(x) implies 0 <= x < v.n() && c2.disc.contains(
        x as usize,
    ) && reaches_final(v, g, x) by {
        if !co1.contains(x) {
            if marked && t.open.contains(x as usize) && 0 <= x <= usize::MAX && t.dfn[x] >= t.dfn[s] {
                let a = choose|a: int| 0 <= a < t.open.len() && t.open[a] == x as usize;
                assert(c.disc.contains(t.open[a]));
                assert(closing(x));
            } else {
                assert(frame_wf(v, m, m.stack[top - 1]));
                assert(c.disc.contains(m.stack[top - 1].s));
            }
        } else if co.contains(x) {
        } else {
            assert(c.disc.contains(s as usize));
        }
    }
    assert forall|a: int|
        0 <= a < t2.open.len() && c2.fin.contains(#[trigger] t2.open[a]) && v.is_final(
            t2.open[a] as int,
        ) implies co2.contains(t2.open[a] as int) by {
        assert(t2.open[a] == t.open[a]);
        assert(t.dfn[t.open[a] as int] < t.dfn[s]);
        assert(c.fin.contains(t.open[a]));
        assert(co1.contains(t.open[a] as int));
    }
    assert forall|a: int, j: int|
        0 <= a < t2.open.len() && #[trigger] c2.behind(v, t2.open[a] as int, j) && c2.closed(
            t2,
            v.arcs(t2.open[a] as int)[j].nextstate as int,
        ) && co2.contains(v.arcs(t2.open[a] as int)[j].nextstate as int) implies co2.contains(
        t2.open[a] as int,
    ) by {
        let x = t.open[a];
        assert(c.disc.contains(t.open[a]));
        assert(c.behind(v, t.open[a] as int, j));
        let z = v.arcs(x as int)[j].nextstate;
        assert(t.dfn[x as int] < t.dfn[s]);
        if closing(z as int) {
            assert(marked);
            if top > 0 {
                assert(t.dfn[t.open[a] as int] < c.stack[top].num);
                assert(t.open[a] == c.stack[top - 1].s);
            } else {
                assert(t.dfn[t.open[a] as int] >= c.stack[0].num);
            }
        } else {
            assert(c.closed(t, z as int));
            if !co1.contains(z as int) {
                assert(t.open.contains(z) || z == m.stack[top - 1].s);
                if top > 0 {
                    assert(t.open.contains(c.stack[top - 1].s));
                }
            }
            assert(z != s) by {
                assert(t.open.contains(c.stack[top].s));
            }
            assert(co.contains(z as int));
            assert(co.contains(t.open[a] as int));
        }
    }
}

/// What the search keeps to about the states that can be reached from the start.
pub open spec fn access_inv<W: Weight>(v: FstV<W>, c: Stage<W>, t: Marks, ac: Set<int>) -> bool {
    let g = c.graph(v);
    &&& forall|x: int| #[trigger]
        ac.contains(x) ==> 0 <= x <= usize::MAX && c.disc.contains(x as usize)
    &&& forall|i: int|
        0 <= i < c.disc.len() ==> (ac.contains((#[trigger] c.disc[i]) as int) <==> reach(
            g,
            c.disc[0] as int,
            c.disc[i] as int,
        ))
    &&& c.stack.len() > 0 && c.stack[0].s == c.disc[0] ==> forall|i: int|
        0 <= i < c.disc.len() ==> ac.contains((#[trigger] c.disc[i]) as int)
    &&& c.disc.len() > 0 && (c.stack.len() == 0 || c.stack[0].s != c.disc[0]) ==> c.closed(
        t,
        c.disc[0] as int,
    )
}

pub proof fn lemma_access_init<W: Weight>(
    v: FstV<W>,
    m: Search<W>,
    t: Marks,
    t2: Marks,
    s: usize,
    root: usize,
    ok: bool,
    ac: Set<int>,
)
    requires
        v.wf(),
        v.n() <= usize::MAX,
        search_wf(v, m),
        search_wf(v, m.after(DfsCall::Init { s, root }, ok)),
        !m.disc.contains(s),
        m.next_call(v) == Some(DfsCall::Init { s, root }),
        m.pending is None ==> s == root && m.stack.len() == 0,
        m.pending is Some ==> root == m.root,
        tarjan(v, stage(m), t),
        marks_init(t, t2, s, m.disc.len() as int),
        access_inv(v, stage(m), t, ac),
    ensures
        access_inv(
            v,
            stage(m.after(DfsCall::Init { s, root }, ok)),
            t2,
            if Some(root) == v.start {
                ac.insert(s as int)
            } else {
                ac.remove(s as int)
            },
        ),
{
    let c = stage(m);
    let m2 = m.after(DfsCall::Init { s, root }, ok);
    let c2 = stage(m2);
    let g = c.graph(v);
    assert(c2.graph(v) == g);
    lemma_push_has(m.disc, s);
    lemma_push_has(t.open, s);
    lemma_reach_refl(g, s as int);
    let start = c2.disc[0] as int;
    if m.disc.len() > 0 {
        assert(c.disc[0] == start);
        assert(c.disc.contains(c.disc[0]));
        assert(v.start == Some(c.disc[0]));
    }
    if Some(root) == v.start {
        if m.disc.len() > 0 {
            // the first tree is still being searched
            if m.pending is None {
                assert(false);
            }
            assert(m.stack[0].s == m.root);
            let f = m.stack.last();
            assert(frame_wf(v, m, m.stack[m.stack.len() - 1]));
            lemma_next_arc(m.accept, v.arcs(f.s as int), f.next);
            assert(has_arc(v, m.accept, f.s as int, s as int)) by {
                assert(v.arcs(f.s as int)[m.pending->0].nextstate == s);
            }
            assert(c.disc[f.num] == f.s);
            lemma_reach_edge(g, f.s as int, s as int);
            lemma_reach_trans(g, start, f.s as int, s as int);
        }
    } else {
        assert(m.disc.len() > 0);
        assert(c.closed(t, start)) by {
            if m.stack.len() > 0 {
                assert(m.stack[0].s == m.root);
            }
        }
        if reach(g, start, s as int) {
            let inside = |w: int| c.closed(t, w);
            lemma_closed(g, inside, start, s as int);
            assert(c.closed(t, s as int));
        }
        assert(c2.closed(t2, start));
    }
    assert(c2.stack.len() > 0);
    assert(c2.stack[0].s == root) by {
        if m.stack.len() > 0 {
            assert(m.stack[0].s == m.root);
        }
    }
}

pub proof fn lemma_access_finish<W: Weight>(
    v: FstV<W>,
    m: Search<W>,
    t: Marks,
    t2: Marks,
    ok: bool,
    ac: Set<int>,
)
    requires
        search_wf(v, m),
        m.next_call(v) matches Some(DfsCall::Finish { .. }),
        access_inv(v, stage(m), t, ac),
        owners(v, stage(m.after(m.next_call(v)->0, ok)), t2),
        forall|x: int| stage(m).closed(t, x) ==> #[trigger] stage(m).closed(t2, x),
    ensures
        access_inv(v, stage(m.after(m.next_call(v)->0, ok)), t2, ac),
{
    let c = stage(m);
    let c2 = stage(m.after(m.next_call(v)->0, ok));
    assert(c2.graph(v) == c.graph(v));
    if c2.stack.len() > 0 {
        assert(c2.stack[0] == c.stack[0]);
    }
    if c.disc.len() > 0 {
        assert(c.disc.contains(c.disc[0]));
        if c2.stack.len() == 0 {
            assert(t2.open.len() == 0);
            assert(c2.closed(t2, c.disc[0] as int));
        } else if c2.stack[0].s != c.disc[0] {
            assert(c.closed(t2, c.disc[0] as int));
        }
    }
}

/// What the search keeps to about cycles.
pub open spec fn cycle_inv<W: Weight>(v: FstV<W>, c: Stage<W>, cyclic: bool) -> bool {
    let g = c.graph(v);
    if cyclic {
        exists|i: int| 0 <= i < c.disc.len() && on_cycle(g, #[trigger] c.disc[i] as int)
    } else {
        &&& forall|i: int, y: int|
            0 <= i < c.fin.len() && #[trigger] g(c.fin[i] as int, y) ==> exists|j: int|
                0 <= j < i && c.fin[j] == y
        &&& forall|k: int, j: int|
            0 <= k < c.stack.len() && 0 <= j < c.stack[k].next && (c.accept)(
                #[trigger] v.arcs(c.stack[k].s as int)[j],
            ) ==> c.fin.contains(v.arcs(c.stack[k].s as int)[j].nextstate) || (k + 1
                < c.stack.len() && v.arcs(c.stack[k].s as int)[j].nextstate == c.stack[k + 1].s)
    }
}

/// What the search keeps to about cycles through the start.
pub open spec fn initial_inv<W: Weight>(v: FstV<W>, c: Stage<W>, initial: bool) -> bool {
    let g = c.graph(v);
    if initial {
        c.disc.len() > 0 && on_cycle(g, c.disc[0] as int)
    } else {
        forall|x: int, j: int|
            0 <= x < v.n() && #[trigger] c.behind(v, x, j) && reach(g, c.disc[0] as int, x)
                ==> v.arcs(x)[j].nextstate != c.disc[0]
    }
}

/// A way out and an edge back is a cycle.
pub proof fn lemma_cycle_back(g: Graph, a: int, b: int)
    requires
        reach(g, a, b),
        g(b, a),
    ensures
        on_cycle(g, a),
{
    let k = choose|k: nat| reach_in(g, a, b, k);
    if k == 0 {
        lemma_reach_refl(g, a);
        assert(g(a, a));
    } else {
        let m = choose|m: int| #[trigger] g(a, m) && reach_in(g, m, b, (k - 1) as nat);
        assert(reach(g, m, b));
        lemma_reach_edge(g, b, a);
        lemma_reach_trans(g, m, b, a);
    }
}

/// What is on a cycle has an edge into it from what it reaches.
pub proof fn lemma_cycle_last(g: Graph, a: int, t: int, k: nat) -> (x: int)
    requires
        reach(g, a, t),
        reach_in(g, t, a, k),
        k > 0 || g(a, t),
    ensures
        reach(g, a, x),
        g(x, a),
    decreases k,
{
    if k == 0 {
        lemma_reach_refl(g, a);
        a
    } else {
        let m = choose|m: int| #[trigger] g(t, m) && reach_in(g, m, a, (k - 1) as nat);
        if k == 1 {
            t
        } else {
            lemma_reach_edge(g, t, m);
            lemma_reach_trans(g, a, t, m);
            lemma_cycle_last(g, a, m, (k - 1) as nat)
        }
    }
}

pub proof fn lemma_cycle_init<W: Weight>(
    v: FstV<W>,
    m: Search<W>,
    s: usize,
    root: usize,
    ok: bool,
    cyclic: bool,
)
    requires
        v.wf(),
        v.n() <= usize::MAX,
        search_wf(v, m),
        m.next_call(v) == Some(DfsCall::Init { s, root }),
        m.pending is None ==> m.stack.len() == 0,
        cycle_inv(v, stage(m), cyclic),
    ensures
        cycle_inv(v, stage(m.after(DfsCall::Init { s, root }, ok)), cyclic),
{
    let c = stage(m);
    let c2 = stage(m.after(DfsCall::Init { s, root }, ok));
    assert(c2.graph(v) == c.graph(v));
    if cyclic {
        let i = choose|i: int|
            0 <= i < c.disc.len() && on_cycle(c.graph(v), #[trigger] c.disc[i] as int);
        assert(c2.disc[i] == c.disc[i]);
    } else {
        assert forall|i: int, y: int|
            0 <= i < c2.fin.len() && #[trigger] c2.graph(v)(c2.fin[i] as int, y) implies exists|
            j: int,
        | 0 <= j < i && c2.fin[j] == y by {
            assert(c.graph(v)(c.fin[i] as int, y));
        }
        assert forall|k: int, j: int|
            0 <= k < c2.stack.len() && 0 <= j < c2.stack[k].next && (c2.accept)(
                #[trigger] v.arcs(c2.stack[k].s as int)[j],
            ) implies c2.fin.contains(v.arcs(c2.stack[k].s as int)[j].nextstate) || (k + 1
            < c2.stack.len() && v.arcs(c2.stack[k].s as int)[j].nextstate == c2.stack[k + 1].s) by {
            if k < c.stack.len() {
                assert(frame_wf(v, m, m.stack[k]));
                lemma_next_arc(m.accept, v.arcs(m.stack[k].s as int), m.stack[k].next);
                if j < c.stack[k].next {
                    assert((c.accept)(v.arcs(c.stack[k].s as int)[j]));
                    if k + 1 < c.stack.len() {
                        assert(c2.stack[k + 1].s == c.stack[k + 1].s);
                    }
                }
            }
        }
    }
}

pub proof fn lemma_cycle_cross<W: Weight>(v: FstV<W>, m: Search<W>, m2: Search<W>, i: int, cyclic: bool)
    requires
        v.wf(),
        search_wf(v, m),
        m.stack.len() > 0,
        i == next_arc(m.accept, v.arcs(m.stack.last().s as int), m.stack.last().next),
        i < v.arcs(m.stack.last().s as int).len(),
        m2.stack == m.advanced(i + 1),
        m2.fin == m.fin,
        m2.disc == m.disc,
        m2.accept == m.accept,
        m.fin.contains(v.arcs(m.stack.last().s as int)[i].nextstate),
        cycle_inv(v, stage(m), cyclic),
    ensures
        cycle_inv(v, stage(m2), cyclic),
{
    let c = stage(m);
    let c2 = stage(m2);
    assert(c2.graph(v) == c.graph(v));
    if cyclic {
        let i = choose|i: int|
            0 <= i < c.disc.len() && on_cycle(c.graph(v), #[trigger] c.disc[i] as int);
        assert(c2.disc[i] == c.disc[i]);
    } else {
        assert forall|i: int, y: int|
            0 <= i < c2.fin.len() && #[trigger] c2.graph(v)(c2.fin[i] as int, y) implies exists|
            j: int,
        | 0 <= j < i && c2.fin[j] == y by {
            assert(c.graph(v)(c.fin[i] as int, y));
        }
        assert forall|k: int, j: int|
            0 <= k < c2.stack.len() && 0 <= j < c2.stack[k].next && (c2.accept)(
                #[trigger] v.arcs(c2.stack[k].s as int)[j],
            ) implies c2.fin.contains(v.arcs(c2.stack[k].s as int)[j].nextstate) || (k + 1
            < c2.stack.len() && v.arcs(c2.stack[k].s as int)[j].nextstate == c2.stack[k + 1].s) by {
            assert(frame_wf(v, m, m.stack[k]));
            lemma_next_arc(m.accept, v.arcs(m.stack[k].s as int), m.stack[k].next);
            if j < c.stack[k].next {
                assert((c.accept)(v.arcs(c.stack[k].s as int)[j]));
                if k + 1 < c.stack.len() {
                    assert(c2.stack[k + 1].s == c.stack[k + 1].s);
                }
            }
        }
    }
}

pub proof fn lemma_cycle_found<W: Weight>(v: FstV<W>, m: Search<W>, i: int)
    requires
        v.wf(),
        v.n() <= usize::MAX,
        search_wf(v, m),
        m.next_call(v) == Some(DfsCall::Back { s: m.stack.last().s, i }),
        m.pending is None,
        m.stack.len() > 0,
    ensures
        on_cycle(stage(m).graph(v), v.arcs(m.stack.last().s as int)[i].nextstate as int),
{
    let g = stage(m).graph(v);
    let f = m.stack.last();
    let y = v.arcs(f.s as int)[i].nextstate;
    assert(frame_wf(v, m, m.stack[m.stack.len() - 1]));
    lemma_next_arc(m.accept, v.arcs(f.s as int), f.next);
    assert(has_arc(v, m.accept, f.s as int, y as int));
    let d = choose|d: int| 0 <= d < m.disc.len() && m.disc[d] == y;
    assert(m.fin.contains(m.disc[d]) || on_stack(m, m.disc[d]));
    let k = choose|k: int| 0 <= k < m.stack.len() && (#[trigger] m.stack[k]).s == y;
    lemma_frames_reach(v, m, k, m.stack.len() - 1);
    lemma_cycle_back(g, y as int, f.s as int);
}

pub proof fn lemma_cycle_finish<W: Weight>(v: FstV<W>, m: Search<W>, ok: bool, cyclic: bool)
    requires
        v.wf(),
        v.n() <= usize::MAX,
        search_wf(v, m),
        m.ok,
        m.next_call(v) matches Some(DfsCall::Finish { .. }),
        cycle_inv(v, stage(m), cyclic),
    ensures
        cycle_inv(v, stage(m.after(m.next_call(v)->0, ok)), cyclic),
{
    let c = stage(m);
    let c2 = stage(m.after(m.next_call(v)->0, ok));
    let g = c.graph(v);
    assert(c2.graph(v) == g);
    let top = m.stack.len() - 1;
    let f = m.stack.last();
    assert(frame_wf(v, m, m.stack[top]));
    lemma_next_arc(m.accept, v.arcs(f.s as int), f.next);
    lemma_push_has(m.fin, f.s);
    if cyclic {
        let i = choose|i: int|
            0 <= i < c.disc.len() && on_cycle(c.graph(v), #[trigger] c.disc[i] as int);
        assert(c2.disc[i] == c.disc[i]);
    } else {
        assert forall|i: int, y: int|
            0 <= i < c2.fin.len() && #[trigger] g(c2.fin[i] as int, y) implies exists|j: int|
            0 <= j < i && c2.fin[j] == y by {
            if i < c.fin.len() {
                assert(c2.fin[i] == c.fin[i]);
                let j = choose|j: int| 0 <= j < i && c.fin[j] == y;
                assert(c2.fin[j] == y);
            } else {
                let j = choose|j: int|
                    0 <= j < v.arcs(f.s as int).len() && (#[trigger] v.arcs(f.s as int)[j]).nextstate
                        == y && (m.accept)(v.arcs(f.s as int)[j]);
                assert(j < f.next);
                assert((c.accept)(v.arcs(c.stack[top].s as int)[j]));
                assert(c.fin.contains(y as usize));
                let l = choose|l: int| 0 <= l < c.fin.len() && c.fin[l] == y as usize;
                assert(c2.fin[l] == y);
            }
        }
        assert forall|k: int, j: int|
            0 <= k < c2.stack.len() && 0 <= j < c2.stack[k].next && (c2.accept)(
                #[trigger] v.arcs(c2.stack[k].s as int)[j],
            ) implies c2.fin.contains(v.arcs(c2.stack[k].s as int)[j].nextstate) || (k + 1
            < c2.stack.len() && v.arcs(c2.stack[k].s as int)[j].nextstate == c2.stack[k + 1].s) by {
            assert(c2.stack[k] == c.stack[k]);
            assert((c.accept)(v.arcs(c.stack[k].s as int)[j]));
            if k + 1 < c2.stack.len() {
                assert(c2.stack[k + 1] == c.stack[k + 1]);
            }
        }
    }
}

/// Where each edge leads to what was finished earlier there is no cycle.
pub proof fn lemma_no_cycle<W: Weight>(v: FstV<W>, c: Stage<W>, x: int)
    requires
        cycle_inv(v, c, false),
        c.fin.no_duplicates(),
        0 <= x <= usize::MAX,
        c.fin.contains(x as usize),
    ensures
        !on_cycle(c.graph(v), x),
{
    let g = c.graph(v);
    if on_cycle(g, x) {
        let t = choose|t: int| #[trigger] g(x, t) && reach(g, t, x);
        let i = choose|i: int| 0 <= i < c.fin.len() && c.fin[i] == x as usize;
        assert(g(c.fin[i] as int, t));
        let l = choose|l: int| 0 <= l < i && c.fin[l] == t;
        let inside = |y: int| exists|j: int| 0 <= j <= l && #[trigger] c.fin[j] == y;
        assert forall|a: int, b: int| inside(a) && #[trigger] g(a, b) implies inside(b) by {
            let ja = choose|ja: int| 0 <= ja <= l && #[trigger] c.fin[ja] == a;
            assert(g(c.fin[ja] as int, b));
            let jb = choose|jb: int| 0 <= jb < ja && c.fin[jb] == b;
            assert(c.fin[jb] == b);
        }
        assert(c.fin[l] == t);
        assert(inside(t));
        lemma_closed(g, inside, t, x);
        let j = choose|j: int| 0 <= j <= l && #[trigger] c.fin[j] == x;
        assert(c.fin[j] == c.fin[i]);
    }
}

/// Whether the `i`th state to be finished is the last of its component, of those that are
/// closed.
pub open spec fn is_last<W: Weight>(c: Stage<W>, t: Marks, i: int) -> bool {
    &&& 0 <= i < c.fin.len()
    &&& c.closed(t, c.fin[i] as int)
    &&& forall|k: int|
        i < k < c.fin.len() && c.closed(t, (#[trigger] c.fin[k]) as int) ==> t.scc[c.fin[k] as int]
            != t.scc[c.fin[i] as int]
}

/// Whether the closed components are numbered in the order in which their last states
/// were finished.
#[verifier::opaque]
pub open spec fn in_turn<W: Weight>(c: Stage<W>, t: Marks) -> bool {
    forall|i: int, j: int|
        i < j && #[trigger] is_last(c, t, i) && #[trigger] is_last(c, t, j)
            ==> t.scc[c.fin[i] as int] < t.scc[c.fin[j] as int]
}

/// Before anything is finished there is no order to keep.
pub proof fn lemma_turn_begins<W: Weight>(c: Stage<W>, t: Marks)
    requires
        c.fin.len() == 0,
    ensures
        in_turn(c, t),
{
    reveal(in_turn);
}

/// Where no state is finished, the order is kept.
pub proof fn lemma_turn_stays<W: Weight>(c: Stage<W>, t: Marks, c2: Stage<W>, t2: Marks)
    requires
        in_turn(c, t),
        c2.fin == c.fin,
        forall|x: int| #[trigger] c2.closed(t2, x) <==> c.closed(t, x),
        forall|x: int| #[trigger] c.closed(t, x) ==> t2.scc[x] == t.scc[x],
    ensures
        in_turn(c2, t2),
{
    reveal(in_turn);
    assert forall|i: int| #[trigger] is_last(c2, t2, i) implies is_last(c, t, i) by {
        assert forall|k: int|
            i < k < c.fin.len() && c.closed(t, (#[trigger] c.fin[k]) as int) implies t.scc[c.fin[k] as int]
            != t.scc[c.fin[i] as int] by {
            assert(c2.closed(t2, c2.fin[k] as int));
            assert(c.closed(t, c.fin[i] as int));
        }
    }
    assert forall|i: int, j: int|
        i < j && #[trigger] is_last(c2, t2, i) && #[trigger] is_last(c2, t2, j) implies t2.scc[c2.fin[i] as int]
        < t2.scc[c2.fin[j] as int] by {
        assert(is_last(c, t, i) && is_last(c, t, j));
    }
}

/// Where a state is finished, the order is kept: what it closes, it closes last.
pub proof fn lemma_turn_finish<W: Weight>(
    c: Stage<W>,
    t: Marks,
    c2: Stage<W>,
    t2: Marks,
    s: usize,
)
    requires
        in_turn(c, t),
        c2.fin == c.fin.push(s),
        !c.closed(t, s as int),
        forall|x: int| #[trigger]
            c.closed(t, x) ==> c2.closed(t2, x) && t2.scc[x] == t.scc[x] && t.scc[x] < t.nscc,
        forall|x: int| #[trigger]
            c2.closed(t2, x) && !c.closed(t, x) ==> t2.scc[x] == t.nscc && c2.closed(
                t2,
                s as int,
            ),
    ensures
        in_turn(c2, t2),
{
    reveal(in_turn);
    let n = c.fin.len() as int;
    assert(c2.fin[n] == s);
    assert forall|i: int| i < n && #[trigger] is_last(c2, t2, i) implies is_last(c, t, i) by {
        let x = c2.fin[i] as int;
        if !c.closed(t, x) {
            assert(c2.closed(t2, x));
            assert(c2.closed(t2, c2.fin[n] as int));
            assert(t2.scc[s as int] == t.nscc);
        }
        assert forall|k: int|
            i < k < c.fin.len() && c.closed(t, (#[trigger] c.fin[k]) as int) implies t.scc[c.fin[k] as int]
            != t.scc[c.fin[i] as int] by {
            assert(c2.fin[k] == c.fin[k]);
            assert(c2.closed(t2, c2.fin[k] as int));
        }
    }
    assert forall|i: int, j: int|
        i < j && #[trigger] is_last(c2, t2, i) && #[trigger] is_last(c2, t2, j) implies t2.scc[c2.fin[i] as int]
        < t2.scc[c2.fin[j] as int] by {
        assert(is_last(c, t, i));
        if j < n {
            assert(is_last(c, t, j));
        } else {
            assert(c2.closed(t2, s as int));
        }
    }
}

} // verus!
