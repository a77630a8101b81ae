//! Visitors that find connected and strongly connected components.
use crate::arc::{Arc, NO_STATE};
use crate::bit_set::GrowableBitSet;
use crate::dfs_visit::{
    answered, calls_back, calls_cross, calls_finish, calls_init, calls_tree, frame_wf,
    law_each_state_is_finished_once, law_one_way_to_search, legal,
    lemma_first_white, lemma_legal_step, lemma_next_arc, lemma_search_wf, on_stack, search_wf,
    DfsCall, DfsVisitor, Search, Told,
};
use crate::graph::{
    arc_graph, has_arc, lemma_closed, lemma_reach_edge, lemma_reach_refl, lemma_reach_trans, mutual,
    on_cycle, reach, reach_in, reaches_final, Graph,
};
use crate::properties::{
    K_ACCESSIBLE, K_ACYCLIC, K_CO_ACCESSIBLE, K_CYCLIC, K_INITIAL_ACYCLIC, K_INITIAL_CYCLIC,
    K_NOT_ACCESSIBLE, K_NOT_CO_ACCESSIBLE,
};
use crate::tarjan::{
    access_inv, coaccess_inv, cut, cycle_inv, in_turn, inhabited, initial_inv, is_last, lemma_access_finish,
    lemma_access_init, lemma_behind_advance, lemma_behind_finish, lemma_behind_init,
    lemma_coaccess_advance, lemma_coaccess_finish_close, lemma_coaccess_finish_open,
    lemma_coaccess_init, lemma_cut, lemma_cycle_cross, lemma_cycle_finish, lemma_cycle_found,
    lemma_cycle_init, lemma_cycle_last, lemma_no_cycle, lemma_number, lemma_push_has,
    lemma_tarjan_advance, lemma_tarjan_finish_close, lemma_tarjan_finish_open, lemma_tarjan_init,
    lemma_turn_begins, lemma_turn_finish, lemma_turn_stays, marks_init, stage, tarjan, Marks,
};
use crate::union_find::UnionFind;
use crate::vector_fst::{FstV, VectorFst};
use crate::weight::{is_final, Weight};
use vstd::prelude::*;

verus! {

/// The property bits a search for components sets, starting from `props`.
pub open spec fn scc_properties(
    props: u64,
    cyclic: bool,
    initial_cyclic: bool,
    not_accessible: bool,
    not_coaccessible: Option<bool>,
) -> u64 {
    let p0 = (props | (K_ACYCLIC | K_INITIAL_ACYCLIC | K_ACCESSIBLE)) & !(K_CYCLIC
        | K_INITIAL_CYCLIC | K_NOT_ACCESSIBLE);
    let p1 = if not_coaccessible is Some {
        (p0 | K_CO_ACCESSIBLE) & !K_NOT_CO_ACCESSIBLE
    } else {
        p0
    };
    let p2 = if cyclic {
        (p1 | K_CYCLIC) & !K_ACYCLIC
    } else {
        p1
    };
    let p3 = if initial_cyclic {
        (p2 | K_INITIAL_CYCLIC) & !K_INITIAL_ACYCLIC
    } else {
        p2
    };
    let p4 = if not_accessible {
        (p3 | K_NOT_ACCESSIBLE) & !K_ACCESSIBLE
    } else {
        p3
    };
    if not_coaccessible == Some(true) {
        (p4 | K_NOT_CO_ACCESSIBLE) & !K_CO_ACCESSIBLE
    } else {
        p4
    }
}

/// Whether some visited state is on a cycle.
pub open spec fn visited_cycle<W: Weight>(v: FstV<W>, m: Search<W>) -> bool {
    exists|i: int| 0 <= i < m.disc.len() && on_cycle(arc_graph(v, m.accept), #[trigger] m.disc[i] as int)
}

/// Whether the start is on a cycle.
pub open spec fn start_cycle<W: Weight>(v: FstV<W>, m: Search<W>) -> bool {
    m.disc.len() > 0 && on_cycle(arc_graph(v, m.accept), m.disc[0] as int)
}

/// Whether some visited state cannot be reached from the start.
pub open spec fn visited_inaccessible<W: Weight>(v: FstV<W>, m: Search<W>) -> bool {
    exists|i: int|
        0 <= i < m.disc.len() && !reach(
            arc_graph(v, m.accept),
            m.disc[0] as int,
            #[trigger] m.disc[i] as int,
        )
}

/// Whether some visited state reaches no final state.
pub open spec fn visited_dead_end<W: Weight>(v: FstV<W>, m: Search<W>) -> bool {
    exists|i: int|
        0 <= i < m.disc.len() && !reaches_final(
            v,
            arc_graph(v, m.accept),
            #[trigger] m.disc[i] as int,
        )
}

/// Whether some visited state is in component `n`.
pub open spec fn numbered(disc: Seq<usize>, scc: Seq<usize>, n: int) -> bool {
    exists|i: int| 0 <= i < disc.len() && scc[#[trigger] disc[i] as int] == n
}

/// Whether the `i`th state to be finished is the last of its component.
pub open spec fn ends_component(fin: Seq<usize>, scc: Seq<usize>, i: int) -> bool {
    &&& 0 <= i < fin.len()
    &&& forall|k: int| i < k < fin.len() ==> scc[#[trigger] fin[k] as int] != scc[fin[i] as int]
}

/// Whether components are numbered from the last to the first, in the order in which the
/// last of their states were finished.
pub open spec fn numbered_in_turn(fin: Seq<usize>, scc: Seq<usize>) -> bool {
    forall|i: int, j: int|
        i < j && #[trigger] ends_component(fin, scc, i) && #[trigger] ends_component(fin, scc, j)
            ==> scc[fin[i] as int] > scc[fin[j] as int]
}

/// Finds and returns strongly-connected components, accessible and
/// coaccessible states and related properties. Uses Tarjan's single
/// DFS SCC algorithm.
pub struct SccVisitor<'f, W> {
    fst: &'f VectorFst<W>,
    scc: Vec<usize>,
    access: GrowableBitSet,
    coaccess: GrowableBitSet,
    props: u64,
    start: Option<usize>,
    nstates: usize,
    nscc: usize,
    dfnumber: Vec<usize>,
    lowlink: Vec<usize>,
    onstack: GrowableBitSet,
    scc_stack: Vec<usize>,
    cyclic: bool,
    initial_cyclic: bool,
    not_accessible: bool,
    not_coaccessible: bool,
    /// Whether to work out which states can still reach a final state.
    want_coaccess: bool,
    given: u64,
}

impl<'f, W: Weight> SccVisitor<'f, W> {
    /// The machine searched.
    pub closed spec fn machine(self) -> FstV<W> {
        self.fst@
    }

    /// The component of each state, once the search has ended.
    pub closed spec fn components(self) -> Seq<usize> {
        self.scc@
    }

    /// The number of components.
    pub closed spec fn count(self) -> nat {
        self.nscc as nat
    }

    /// The states found to be reachable from the start.
    pub closed spec fn accessible(self) -> Set<int> {
        self.access@
    }

    /// The states found to reach a final state.
    pub closed spec fn coaccessible(self) -> Set<int> {
        self.coaccess@
    }

    /// The property bits.
    pub closed spec fn bits(self) -> u64 {
        self.props
    }

    /// The property bits the search was given to start from.
    pub closed spec fn given_bits(self) -> u64 {
        self.given
    }

    /// Whether it is worked out which states reach a final state.
    pub closed spec fn wants_coaccess(self) -> bool {
        self.want_coaccess
    }

    closed spec fn marks(self) -> Marks {
        Marks {
            dfn: self.dfnumber@,
            low: self.lowlink@,
            open: self.scc_stack@,
            scc: self.scc@,
            nscc: self.nscc as int,
        }
    }

    /// A visitor over `fst` that adds what it finds to the bits `props`.
    pub fn new(fst: &'f VectorFst<W>, props: u64) -> (visitor: Self)
        ensures
            visitor.machine() == fst@,
            visitor.given_bits() == props,
            visitor.bits() == props,
            visitor.wants_coaccess(),
    {
        SccVisitor {
            fst,
            scc: Vec::new(),
            access: GrowableBitSet::new(),
            coaccess: GrowableBitSet::new(),
            props,
            start: None,
            nstates: 0,
            nscc: 0,
            dfnumber: Vec::new(),
            lowlink: Vec::new(),
            onstack: GrowableBitSet::new(),
            scc_stack: Vec::new(),
            cyclic: false,
            initial_cyclic: false,
            not_accessible: false,
            not_coaccessible: false,
            want_coaccess: true,
            given: props,
        }
    }

    /// Stops working out which states can still reach a final state.
    ///
    /// The coaccess property bits are left *unset* rather than wrong: unknown,
    /// not false.
    pub fn without_coaccess(self) -> (visitor: Self)
        ensures
            visitor.machine() == self.machine(),
            visitor.given_bits() == self.given_bits(),
            visitor.bits() == self.bits(),
            !visitor.wants_coaccess(),
    {
        let mut visitor = self;
        visitor.want_coaccess = false;
        visitor
    }

    /// The component of each state. Components are numbered so that arcs never
    /// lead to a lower number.
    pub fn scc(&self) -> (scc: &Vec<usize>)
        ensures
            scc@ == self.components(),
    {
        &self.scc
    }

    /// The number of components.
    pub fn num_components(&self) -> (n: usize)
        ensures
            n == self.count(),
    {
        self.nscc
    }

    /// The states that can be reached from the start.
    pub fn access(&self) -> (set: &GrowableBitSet)
        ensures
            set@ == self.accessible(),
    {
        &self.access
    }

    /// The states from which a final state can be reached.
    pub fn coaccess(&self) -> (set: &GrowableBitSet)
        ensures
            set@ == self.coaccessible(),
    {
        &self.coaccess
    }

    /// The property bits.
    pub fn properties(&self) -> (props: u64)
        ensures
            props == self.bits(),
    {
        self.props
    }

    /// What the visitor keeps to while a search of `v` stands at `m`.
    #[verifier::opaque]
    pub closed spec fn knows(&self, v: FstV<W>, m: Search<W>) -> bool {
        let c = stage(m);
        let t = self.marks();
        &&& v == self.fst@
        &&& v.n() <= usize::MAX
        &&& m.ok
        &&& self.start == v.start
        &&& self.nstates == m.disc.len()
        &&& tarjan(v, c, t)
        &&& self.dfnumber@.len() > 0 ==> m.disc.contains((self.dfnumber@.len() - 1) as usize)
        &&& self.dfnumber@.len() <= v.n()
        &&& forall|x: int|
            0 <= x < self.scc@.len() ==> ((#[trigger] self.scc@[x]) == NO_STATE <==> !c.closed(t, x))
        &&& forall|x: int| #[trigger]
            self.onstack@.contains(x) <==> 0 <= x <= usize::MAX && t.open.contains(x as usize)
        &&& access_inv(v, c, t, self.access@)
        &&& cycle_inv(v, c, self.cyclic)
        &&& initial_inv(v, c, self.initial_cyclic)
        &&& self.not_accessible <==> exists|i: int|
            0 <= i < m.disc.len() && !self.access@.contains(#[trigger] m.disc[i] as int)
        &&& self.want_coaccess ==> {
            &&& coaccess_inv(v, c, t, self.coaccess@)
            &&& self.not_coaccessible <==> exists|x: int| #[trigger]
                c.closed(t, x) && !self.coaccess@.contains(x)
        }
        &&& !self.want_coaccess ==> self.coaccess@ == Set::<int>::empty()
    }

    /// What the visitor has found once a search of `v` has ended at `m`.
    pub open spec fn found(&self, v: FstV<W>, m: Search<W>) -> bool {
        let g = arc_graph(v, m.accept);
        &&& v == self.machine()
        &&& m.ok
        &&& self.components().len() <= v.n()
        &&& forall|i: int|
            0 <= i < m.disc.len() ==> (#[trigger] m.disc[i]) < self.components().len()
                && self.components()[m.disc[i] as int] < self.count()
        &&& self.components().len() > 0 ==> m.disc.contains((self.components().len() - 1) as usize)
        &&& forall|x: int|
            0 <= x < self.components().len() && !m.disc.contains(x as usize)
                ==> #[trigger] self.components()[x] == NO_STATE
        &&& forall|i: int, j: int|
            0 <= i < m.disc.len() && 0 <= j < m.disc.len() ==> (
            self.components()[#[trigger] m.disc[i] as int]
                == self.components()[#[trigger] m.disc[j] as int] <==> mutual(
                g,
                m.disc[i] as int,
                m.disc[j] as int,
            ))
        &&& forall|i: int, y: int|
            0 <= i < m.disc.len() && #[trigger] g(m.disc[i] as int, y)
                ==> self.components()[m.disc[i] as int] <= self.components()[y]
        &&& forall|n: int|
            0 <= n < self.count() ==> #[trigger] numbered(m.disc, self.components(), n)
        &&& forall|x: int| #[trigger]
            self.accessible().contains(x) <==> 0 <= x < v.n() && m.disc.contains(x as usize)
                && reach(g, m.disc[0] as int, x)
        &&& self.wants_coaccess() ==> forall|x: int| #[trigger]
            self.coaccessible().contains(x) <==> 0 <= x < v.n() && m.disc.contains(x as usize)
                && reaches_final(v, g, x)
        &&& numbered_in_turn(m.fin, self.components())
        &&& self.bits() == scc_properties(
            self.given_bits(),
            visited_cycle(v, m),
            start_cycle(v, m),
            visited_inaccessible(v, m),
            if self.wants_coaccess() {
                Some(visited_dead_end(v, m))
            } else {
                None
            },
        )
    }

    #[verifier::rlimit(80)]
    #[verifier::spinoff_prover]
    proof fn step_init(a: Self, b: Self, v: FstV<W>, m: Search<W>, s: usize, root: usize)
        requires
            a.knows(v, m),
            calls_init(v, m, s, root),
            b.fst == a.fst,
            b.start == a.start,
            b.nstates == a.nstates + 1,
            b.nscc == a.nscc,
            marks_init(a.marks(), b.marks(), s, a.nstates as int),
            b.dfnumber@.len() == (if a.dfnumber@.len() <= s {
                (s + 1) as nat
            } else {
                a.dfnumber@.len()
            }),
            forall|x: int|
                a.dfnumber@.len() <= x < b.dfnumber@.len() ==> #[trigger] b.scc@[x] == NO_STATE,
            b.onstack@ == a.onstack@.insert(s as int),
            b.access@ == (if Some(root) == a.start {
                a.access@.insert(s as int)
            } else {
                a.access@.remove(s as int)
            }),
            b.not_accessible == (a.not_accessible || Some(root) != a.start),
            b.cyclic == a.cyclic,
            b.initial_cyclic == a.initial_cyclic,
            b.want_coaccess == a.want_coaccess,
            b.coaccess@ == a.coaccess@,
            b.not_coaccessible == a.not_coaccessible,
        ensures
            b.knows(v, answered(v, m, true)),
    {
        reveal(SccVisitor::knows);
        let c = stage(m);
        let t = a.marks();
        let t2 = b.marks();
        let m2 = answered(v, m, true);
        let c2 = stage(m2);
        let g = c.graph(v);
        lemma_search_wf(v, m);
        lemma_legal_step(v, m, true);
        lemma_search_wf(v, m2);
        lemma_init_facts(v, m, s, root);
        lemma_tarjan_init(v, m, t, t2, s, root, true);
        lemma_access_init(v, m, t, t2, s, root, true, a.access@);
        lemma_cycle_init(v, m, s, root, true, a.cyclic);
        lemma_behind_init(v, m, s, root, true);
        lemma_push_has(m.disc, s);
        lemma_push_has(t.open, s);
        if a.want_coaccess {
            lemma_coaccess_init(v, m, t, t2, s, root, true, a.coaccess@);
        }
        assert(c2.graph(v) == g);
        assert forall|x: int| #[trigger] c2.closed(t2, x) <==> c.closed(t, x) by {}
        assert(initial_inv(v, c2, b.initial_cyclic)) by {
            if a.initial_cyclic {
                assert(c2.disc[0] == c.disc[0]);
            } else {
                assert forall|x: int, j: int|
                    0 <= x < v.n() && #[trigger] c2.behind(v, x, j) && reach(
                        g,
                        c2.disc[0] as int,
                        x,
                    ) implies v.arcs(x)[j].nextstate != c2.disc[0] by {
                    if m.disc.len() == 0 {
                        assert(!c.behind(v, x, j));
                    } else {
                        assert(c2.disc[0] == c.disc[0]);
                        if !c.behind(v, x, j) {
                            assert(v.arcs(x)[j].nextstate == s);
                            assert(m.disc.contains(m.disc[0]));
                        }
                    }
                }
            }
        }
        assert(b.not_accessible <==> exists|i: int|
            0 <= i < m2.disc.len() && !b.access@.contains(#[trigger] m2.disc[i] as int)) by {
            if Some(root) != a.start {
                assert(m2.disc[m.disc.len() as int] == s);
            }
            if a.not_accessible {
                let i = choose|i: int|
                    0 <= i < m.disc.len() && !a.access@.contains(#[trigger] m.disc[i] as int);
                assert(m2.disc[i] == m.disc[i]);
                assert(m.disc.contains(m.disc[i]));
                assert(!b.access@.contains(m2.disc[i] as int));
            }
            if !b.not_accessible {
                assert forall|i: int| 0 <= i < m2.disc.len() implies b.access@.contains(
                    #[trigger] m2.disc[i] as int,
                ) by {
                    if i < m.disc.len() {
                        assert(m2.disc[i] == m.disc[i]);
                        assert(a.access@.contains(m.disc[i] as int));
                    }
                }
            }
        }
        if a.want_coaccess {
            assert(b.not_coaccessible <==> exists|x: int| #[trigger]
                c2.closed(t2, x) && !b.coaccess@.contains(x)) by {
                if a.not_coaccessible {
                    let x = choose|x: int| #[trigger]
                        c.closed(t, x) && !a.coaccess@.contains(x);
                    assert(c2.closed(t2, x));
                }
            }
        }
        assert(m2.disc.contains((b.dfnumber@.len() - 1) as usize));
    }

    proof fn step_advance(a: Self, b: Self, v: FstV<W>, m: Search<W>, i: int)
        requires
            a.knows(v, m),
            legal(v, m),
            m.pending is None,
            m.stack.len() > 0,
            ({
                let s = m.stack.last().s;
                let y = v.arcs(s as int)[i].nextstate as int;
                &&& m.next_call(v) == Some(DfsCall::Back { s, i }) || m.next_call(v) == Some(
                    DfsCall::Cross { s, i },
                )
                &&& b.fst == a.fst
                &&& b.start == a.start
                &&& b.nstates == a.nstates
                &&& b.nscc == a.nscc
                &&& b.dfnumber@ == a.dfnumber@
                &&& b.scc_stack@ == a.scc_stack@
                &&& b.scc@ == a.scc@
                &&& b.onstack@ == a.onstack@
                &&& b.access@ == a.access@
                &&& b.not_accessible == a.not_accessible
                &&& b.want_coaccess == a.want_coaccess
                &&& b.not_coaccessible == a.not_coaccessible
                &&& b.coaccess@ == (if a.want_coaccess && a.coaccess@.contains(y) {
                    a.coaccess@.insert(s as int)
                } else {
                    a.coaccess@
                })
                &&& b.lowlink@.len() == a.lowlink@.len()
                &&& forall|z: int|
                    0 <= z < a.lowlink@.len() && z != s ==> #[trigger] b.lowlink@[z] == a.lowlink@[z]
                &&& b.lowlink@[s as int] <= a.lowlink@[s as int]
                &&& b.lowlink@[s as int] == a.lowlink@[s as int] || (a.scc_stack@.contains(
                    y as usize,
                ) && b.lowlink@[s as int] == a.dfnumber@[y])
                &&& a.scc_stack@.contains(y as usize) ==> b.lowlink@[s as int] <= a.dfnumber@[y]
                &&& b.cyclic == (a.cyclic || m.next_call(v) matches Some(DfsCall::Back { .. }))
                &&& b.initial_cyclic == (a.initial_cyclic || (m.next_call(v) matches Some(
                    DfsCall::Back { .. },
                ) && a.start == Some(y as usize)))
            }),
        ensures
            b.knows(v, answered(v, m, true)),
    {
        reveal(SccVisitor::knows);
        let c = stage(m);
        let t = a.marks();
        let t2 = b.marks();
        let m2 = answered(v, m, true);
        let c2 = stage(m2);
        let g = c.graph(v);
        let f = m.stack.last();
        let s = f.s;
        let y = v.arcs(s as int)[i].nextstate;
        lemma_search_wf(v, m);
        assert(frame_wf(v, m, m.stack[m.stack.len() - 1]));
        lemma_next_arc(m.accept, v.arcs(s as int), f.next);
        lemma_tarjan_advance(v, m, m2, t, t2, i);
        lemma_behind_advance(v, m, m2, i);
        assert(c2.graph(v) == g);
        assert forall|x: int| #[trigger] c2.closed(t2, x) <==> c.closed(t, x) by {}
        if a.want_coaccess {
            lemma_coaccess_advance(v, m, m2, t, t2, i, a.coaccess@);
            assert(b.not_coaccessible <==> exists|x: int| #[trigger]
                c2.closed(t2, x) && !b.coaccess@.contains(x)) by {
                assert(t.open.contains(c.stack[c.stack.len() - 1].s));
                if a.not_coaccessible {
                    let x = choose|x: int| #[trigger]
                        c.closed(t, x) && !a.coaccess@.contains(x);
                    assert(c2.closed(t2, x));
                }
            }
        }
        assert(has_arc(v, m.accept, s as int, y as int));
        if m.next_call(v) == Some(DfsCall::Back { s, i }) {
            lemma_cycle_found(v, m, i);
            let d = choose|d: int| 0 <= d < m.disc.len() && m.disc[d] == y;
            assert(on_cycle(g, m2.disc[d] as int));
            if v.start == Some(y) {
                assert(c.disc.len() > 0);
            }
        } else {
            lemma_cycle_cross(v, m, m2, i, a.cyclic);
        }
        assert(access_inv(v, c2, t2, b.access@)) by {
            assert(c2.stack[0].s == c.stack[0].s);
        }
        assert(initial_inv(v, c2, b.initial_cyclic)) by {
            if !b.initial_cyclic {
                assert forall|x: int, j: int|
                    0 <= x < v.n() && #[trigger] c2.behind(v, x, j) && reach(
                        g,
                        c2.disc[0] as int,
                        x,
                    ) implies v.arcs(x)[j].nextstate != c2.disc[0] by {
                    if !c.behind(v, x, j) {
                        assert(x == s && j == i);
                        if y == c.disc[0] {
                            assert(v.start == Some(c.disc[0]));
                            assert(m.next_call(v) == Some(DfsCall::Cross { s, i }));
                            assert(m.fin.contains(y));
                            assert(frame_wf(v, m, m.stack[0]));
                            assert(c.closed(t, y as int));
                            let inside = |w: int| c.closed(t, w);
                            lemma_closed(g, inside, y as int, s as int);
                            assert(c.closed(t, s as int));
                            assert(t.open.contains(c.stack[c.stack.len() - 1].s));
                        }
                    }
                }
            }
        }
    }

    #[verifier::spinoff_prover]
    #[verifier::rlimit(80)]
    proof fn step_finish(a: Self, b: Self, v: FstV<W>, m: Search<W>, n: int, co1: Set<int>, marked: bool)
        requires
            a.knows(v, m),
            legal(v, m),
            m.next_call(v) matches Some(DfsCall::Finish { .. }),
            cut(a.marks(), m.stack.last().s, n),
            ({
                let s = m.stack.last().s as int;
                let close = a.lowlink@[s] == a.dfnumber@[s];
                let t = a.marks();
                &&& b.fst == a.fst
                &&& b.start == a.start
                &&& b.nstates == a.nstates
                &&& b.dfnumber@ == a.dfnumber@
                &&& b.access@ == a.access@
                &&& b.not_accessible == a.not_accessible
                &&& b.want_coaccess == a.want_coaccess
                &&& b.cyclic == a.cyclic
                &&& b.initial_cyclic == a.initial_cyclic
                &&& co1 == (if v.is_final(s) {
                    a.coaccess@.insert(s)
                } else {
                    a.coaccess@
                })
                &&& !a.want_coaccess ==> b.coaccess@ == a.coaccess@
                &&& b.nscc == (if close {
                    a.nscc + 1
                } else {
                    a.nscc as int
                })
                &&& b.scc_stack@ == (if close {
                    a.scc_stack@.take(n)
                } else {
                    a.scc_stack@
                })
                &&& b.scc@.len() == a.scc@.len()
                &&& forall|x: int|
                    0 <= x < a.scc@.len() ==> #[trigger] b.scc@[x] == (if close && t.open.contains(
                        x as usize,
                    ) && t.dfn[x] >= t.dfn[s] {
                        a.nscc as int
                    } else {
                        a.scc@[x] as int
                    })
                &&& forall|x: int| #[trigger]
                    b.onstack@.contains(x) <==> 0 <= x <= usize::MAX && b.scc_stack@.contains(
                        x as usize,
                    )
                &&& b.lowlink@ == (if m.stack.len() > 1 {
                    let p = m.stack[m.stack.len() - 2].s as int;
                    a.lowlink@.update(
                        p,
                        if a.lowlink@[s] < a.lowlink@[p] {
                            a.lowlink@[s]
                        } else {
                            a.lowlink@[p]
                        },
                    )
                } else {
                    a.lowlink@
                })
                &&& a.want_coaccess && close ==> {
                    &&& marked == exists|k: int|
                        n <= k < t.open.len() && co1.contains(#[trigger] t.open[k] as int)
                    &&& forall|x: int| #[trigger]
                        b.coaccess@.contains(x) <==> co1.contains(x) || (marked && 0 <= x
                            <= usize::MAX && t.open.contains(x as usize) && t.dfn[x] >= t.dfn[s])
                            || (marked && m.stack.len() > 1 && x == m.stack[m.stack.len() - 2].s)
                    &&& b.not_coaccessible == (a.not_coaccessible || !marked)
                }
                &&& a.want_coaccess && !close ==> {
                    &&& b.coaccess@ == (if m.stack.len() > 1 && co1.contains(s) {
                        co1.insert(m.stack[m.stack.len() - 2].s as int)
                    } else {
                        co1
                    })
                    &&& b.not_coaccessible == a.not_coaccessible
                }
            }),
        ensures
            b.knows(v, answered(v, m, true)),
    {
        reveal(SccVisitor::knows);
        let c = stage(m);
        let t = a.marks();
        let t2 = b.marks();
        let m2 = answered(v, m, true);
        let c2 = stage(m2);
        let g = c.graph(v);
        let top = m.stack.len() - 1;
        let s = m.stack.last().s as int;
        lemma_search_wf(v, m);
        assert(frame_wf(v, m, m.stack[top]));
        lemma_number(c, t, m.stack.last().s);
        lemma_cut(c, t, m.stack.last().s, n);
        lemma_behind_finish(v, m, true);
        lemma_cycle_finish(v, m, true, a.cyclic);
        assert(c2.graph(v) == g);
        let close = a.lowlink@[s] == a.dfnumber@[s];
        assert(crate::tarjan::low_link(g, t, c.stack[top].s as int));
        if close {
            if m.stack.len() > 1 {
                let p = m.stack[top - 1].s as int;
                assert(frame_wf(v, m, m.stack[top - 1]));
                lemma_number(c, t, m.stack[top - 1].s);
                assert(crate::tarjan::low_link(g, t, c.stack[top - 1].s as int));
                assert(m.stack[top - 1].num < m.stack[top].num);
                assert(b.lowlink@ =~= a.lowlink@);
            }
            lemma_tarjan_finish_close(v, m, t, t2, n, true);
            if a.want_coaccess {
                lemma_coaccess_finish_close(
                    v,
                    m,
                    t,
                    t2,
                    n,
                    true,
                    a.coaccess@,
                    marked,
                    b.coaccess@,
                );
            }
        } else {
            assert(b.scc@ =~= a.scc@);
            lemma_tarjan_finish_open(v, m, t, t2, true);
            if a.want_coaccess {
                lemma_coaccess_finish_open(v, m, t, t2, true, a.coaccess@);
            }
        }
        assert forall|x: usize| #[trigger] c.disc.contains(x) implies x < t.dfn.len() && x < v.n() by {
            lemma_number(c, t, x);
            assert(c.disc[t.dfn[x as int] as int] < v.n());
        }
        let closing = |x: int|
            close && 0 <= x < v.n() && t.open.contains(x as usize) && t.dfn[x] >= t.dfn[s];
        assert forall|x: int| #[trigger] c2.closed(t2, x) <==> c.closed(t, x) || closing(x) by {
            if c2.closed(t2, x) && !c.closed(t, x) {
                assert(c.disc.contains(x as usize));
                assert(t.open.contains(x as usize));
            }
            if closing(x) {
                let k = choose|k: int| 0 <= k < t.open.len() && t.open[k] == x as usize;
                assert(c.disc.contains(t.open[k]));
            }
        }
        lemma_access_finish(v, m, t, t2, true, a.access@);
        assert forall|x: int| 0 <= x < b.scc@.len() implies ((#[trigger] b.scc@[x]) == NO_STATE
            <==> !c2.closed(t2, x)) by {
            assert(a.scc@[x] == NO_STATE <==> !c.closed(t, x));
        }
        assert(initial_inv(v, c2, b.initial_cyclic)) by {
            if !a.initial_cyclic {
                assert forall|x: int, j: int|
                    0 <= x < v.n() && #[trigger] c2.behind(v, x, j) && reach(
                        g,
                        c2.disc[0] as int,
                        x,
                    ) implies v.arcs(x)[j].nextstate != c2.disc[0] by {
                    assert(c.behind(v, x, j));
                }
            }
        }
        if a.want_coaccess {
            assert(b.not_coaccessible <==> exists|x: int| #[trigger]
                c2.closed(t2, x) && !b.coaccess@.contains(x)) by {
                assert(t.open.contains(c.stack[top].s));
                if top > 0 {
                    assert(t.open.contains(c.stack[top - 1].s));
                }
                if a.not_coaccessible {
                    let x = choose|x: int| #[trigger]
                        c.closed(t, x) && !a.coaccess@.contains(x);
                    assert(c2.closed(t2, x));
                    assert(!b.coaccess@.contains(x));
                }
                if close && !marked {
                    assert(closing(s));
                    assert(c2.closed(t2, s));
                    assert(t.dfn[s] >= t.dfn[s]);
                }
                if !b.not_coaccessible {
                    assert forall|x: int| #[trigger] c2.closed(t2, x) implies b.coaccess@.contains(x) by {
                        if closing(x) {
                            assert(t.dfn[x] >= t.dfn[s]);
                        } else {
                            assert(c.closed(t, x));
                            assert(a.coaccess@.contains(x));
                        }
                    }
                }
            }
        }
    }

    #[verifier::spinoff_prover]
    #[verifier::rlimit(80)]
    proof fn step_done(a: Self, b: Self, v: FstV<W>, m: Search<W>)
        requires
            a.knows(v, m),
            in_turn(stage(m), a.marks()),
            legal(v, m),
            m.next_call(v) is None,
            b.fst == a.fst,
            b.given == a.given,
            b.want_coaccess == a.want_coaccess,
            b.nscc == a.nscc,
            b.access@ == a.access@,
            b.coaccess@ == a.coaccess@,
            b.scc@.len() == a.scc@.len(),
            forall|x: int|
                0 <= x < a.scc@.len() ==> #[trigger] b.scc@[x] == (if a.scc@[x] == NO_STATE {
                    NO_STATE as int
                } else {
                    a.nscc - 1 - a.scc@[x]
                }),
            b.props == scc_properties(
                a.given,
                a.cyclic,
                a.initial_cyclic,
                a.not_accessible,
                if a.want_coaccess {
                    Some(a.not_coaccessible)
                } else {
                    None
                },
            ),
        ensures
            b.found(v, m),
    {
        reveal(SccVisitor::knows);
        let c = stage(m);
        let t = a.marks();
        let g = c.graph(v);
        lemma_search_wf(v, m);
        assert(m.stack.len() == 0);
        assert(t.open.len() == 0);
        assert forall|x: usize| #[trigger] m.disc.contains(x) implies c.closed(t, x as int) && x
            < t.dfn.len() && x < v.n() && m.fin.contains(x) by {
            lemma_number(c, t, x);
            let i = t.dfn[x as int] as int;
            assert(m.disc[i] < v.n());
            assert(m.fin.contains(m.disc[i]) || on_stack(m, m.disc[i]));
        }
        assert forall|i: int| 0 <= i < m.disc.len() implies (#[trigger] m.disc[i]) < b.scc@.len()
            && c.closed(t, m.disc[i] as int) && a.scc@[m.disc[i] as int] < a.nscc
            && b.scc@[m.disc[i] as int] == a.nscc - 1 - a.scc@[m.disc[i] as int] by {
            assert(m.disc.contains(m.disc[i]));
            assert(c.closed(t, m.disc[i] as int));
        }
        assert forall|x: int|
            0 <= x < b.scc@.len() && !m.disc.contains(x as usize) implies #[trigger] b.scc@[x]
            == NO_STATE by {
            assert(!c.closed(t, x));
        }
        assert forall|i: int, y: int| 0 <= i < m.disc.len() && #[trigger] g(m.disc[i] as int, y) implies
            b.scc@[m.disc[i] as int] <= b.scc@[y] by {
            assert(c.closed(t, m.disc[i] as int));
            assert(c.closed(t, y));
            assert(m.disc.contains(y as usize));
        }
        assert(numbered_in_turn(m.fin, b.scc@)) by {
            reveal(in_turn);
            assert forall|i: int| #[trigger] ends_component(m.fin, b.scc@, i) implies is_last(
                c,
                t,
                i,
            ) && b.scc@[m.fin[i] as int] == a.nscc - 1 - a.scc@[m.fin[i] as int] by {
                assert(m.disc.contains(m.fin[i]));
                assert(c.closed(t, m.fin[i] as int));
                assert forall|k: int|
                    i < k < c.fin.len() && c.closed(t, (#[trigger] c.fin[k]) as int) implies
                    t.scc[c.fin[k] as int] != t.scc[c.fin[i] as int] by {
                    assert(b.scc@[m.fin[k] as int] != b.scc@[m.fin[i] as int]);
                    assert(a.scc@[m.fin[k] as int] < a.nscc);
                }
            }
            assert forall|i: int, j: int|
                i < j && #[trigger] ends_component(m.fin, b.scc@, i) && #[trigger] ends_component(
                    m.fin,
                    b.scc@,
                    j,
                ) implies b.scc@[m.fin[i] as int] > b.scc@[m.fin[j] as int] by {
                assert(is_last(c, t, i) && is_last(c, t, j));
            }
        }
        assert forall|n: int| 0 <= n < b.nscc implies #[trigger] numbered(m.disc, b.scc@, n) by {
            assert(inhabited(c, t, a.nscc - 1 - n));
            let x = choose|x: int| #[trigger] c.closed(t, x) && t.scc[x] == a.nscc - 1 - n;
            let i = choose|i: int| 0 <= i < m.disc.len() && m.disc[i] == x as usize;
            assert(b.scc@[m.disc[i] as int] == n);
        }
        assert forall|x: int| #[trigger] b.access@.contains(x) <==> 0 <= x < v.n() && m.disc.contains(
            x as usize,
        ) && reach(g, m.disc[0] as int, x) by {
            if 0 <= x <= usize::MAX && m.disc.contains(x as usize) {
                let i = choose|i: int| 0 <= i < m.disc.len() && m.disc[i] == x as usize;
                assert(a.access@.contains(m.disc[i] as int) <==> reach(
                    g,
                    m.disc[0] as int,
                    m.disc[i] as int,
                ));
            }
        }
        if a.want_coaccess {
            assert forall|x: int| #[trigger]
                b.coaccess@.contains(x) <==> 0 <= x < v.n() && m.disc.contains(x as usize)
                    && reaches_final(v, g, x) by {
                if 0 <= x < v.n() && m.disc.contains(x as usize) {
                    assert(c.closed(t, x));
                }
            }
            assert(a.not_coaccessible == visited_dead_end(v, m)) by {
                if a.not_coaccessible {
                    let x = choose|x: int| #[trigger]
                        c.closed(t, x) && !a.coaccess@.contains(x);
                    let i = choose|i: int| 0 <= i < m.disc.len() && m.disc[i] == x as usize;
                    assert(!reaches_final(v, g, m.disc[i] as int));
                }
                if visited_dead_end(v, m) {
                    let i = choose|i: int|
                        0 <= i < m.disc.len() && !reaches_final(v, g, #[trigger] m.disc[i] as int);
                    assert(m.disc.contains(m.disc[i]));
                    assert(c.closed(t, m.disc[i] as int));
                }
            }
        }
        assert(a.not_accessible == visited_inaccessible(v, m)) by {
            if a.not_accessible {
                let i = choose|i: int|
                    0 <= i < m.disc.len() && !a.access@.contains(#[trigger] m.disc[i] as int);
                assert(!reach(g, m.disc[0] as int, m.disc[i] as int));
            }
            if visited_inaccessible(v, m) {
                let i = choose|i: int|
                    0 <= i < m.disc.len() && !reach(
                        g,
                        m.disc[0] as int,
                        #[trigger] m.disc[i] as int,
                    );
                assert(!a.access@.contains(m.disc[i] as int));
            }
        }
        assert(a.cyclic == visited_cycle(v, m)) by {
            if a.cyclic {
                let i = choose|i: int|
                    0 <= i < c.disc.len() && on_cycle(g, #[trigger] c.disc[i] as int);
                assert(on_cycle(g, m.disc[i] as int));
            } else if visited_cycle(v, m) {
                let i = choose|i: int|
                    0 <= i < m.disc.len() && on_cycle(g, #[trigger] m.disc[i] as int);
                assert(m.disc.contains(m.disc[i]));
                lemma_no_cycle(v, c, m.disc[i] as int);
            }
        }
        assert(a.initial_cyclic == start_cycle(v, m)) by {
            if !a.initial_cyclic && start_cycle(v, m) {
                let start = m.disc[0] as int;
                let y = choose|y: int| #[trigger] g(start, y) && reach(g, y, start);
                lemma_reach_edge(g, start, y);
                let k = choose|k: nat| reach_in(g, y, start, k);
                let x = lemma_cycle_last(g, start, y, k);
                let inside = |w: int| c.closed(t, w);
                assert(m.disc.contains(m.disc[0]));
                lemma_closed(g, inside, start, x);
                assert(c.closed(t, x));
                let j = choose|j: int|
                    0 <= j < v.arcs(x).len() && (#[trigger] v.arcs(x)[j]).nextstate == start && (
                    m.accept)(v.arcs(x)[j]);
                assert(c.behind(v, x, j));
            }
        }
    }

    /// Discovering a state, or following an arc from one, keeps the order of components.
    proof fn turn_stays(a: Self, b: Self, v: FstV<W>, m: Search<W>, new: Option<usize>)
        requires
            a.knows(v, m),
            in_turn(stage(m), a.marks()),
            b.knows(v, answered(v, m, true)),
            answered(v, m, true).fin == m.fin,
            match new {
                None => answered(v, m, true).disc == m.disc && b.scc_stack@ == a.scc_stack@,
                Some(s) => !m.disc.contains(s) && answered(v, m, true).disc == m.disc.push(s)
                    && b.scc_stack@ == a.scc_stack@.push(s),
            },
            forall|x: int| 0 <= x < a.scc@.len() ==> #[trigger] b.scc@[x] == a.scc@[x],
        ensures
            in_turn(stage(answered(v, m, true)), b.marks()),
    {
        reveal(SccVisitor::knows);
        let c = stage(m);
        let t = a.marks();
        let m2 = answered(v, m, true);
        let c2 = stage(m2);
        let t2 = b.marks();
        if let Some(s) = new {
            lemma_push_has(m.disc, s);
            lemma_push_has(t.open, s);
        }
        assert forall|x: int| #[trigger] c.closed(t, x) implies t2.scc[x] == t.scc[x] by {
            lemma_number(c, t, x as usize);
        }
        lemma_turn_stays(c, t, c2, t2);
    }

    /// Finishing a state keeps the order of components.
    proof fn turn_finish(a: Self, b: Self, v: FstV<W>, m: Search<W>, n: int)
        requires
            a.knows(v, m),
            in_turn(stage(m), a.marks()),
            legal(v, m),
            m.next_call(v) matches Some(DfsCall::Finish { .. }),
            cut(a.marks(), m.stack.last().s, n),
            ({
                let s = m.stack.last().s as int;
                let close = a.lowlink@[s] == a.dfnumber@[s];
                let t = a.marks();
                &&& b.scc_stack@ == (if close {
                    a.scc_stack@.take(n)
                } else {
                    a.scc_stack@
                })
                &&& forall|x: int|
                    0 <= x < a.scc@.len() ==> #[trigger] b.scc@[x] == (if close && t.open.contains(
                        x as usize,
                    ) && t.dfn[x] >= t.dfn[s] {
                        a.nscc as int
                    } else {
                        a.scc@[x] as int
                    })
            }),
        ensures
            in_turn(stage(answered(v, m, true)), b.marks()),
    {
        reveal(SccVisitor::knows);
        let c = stage(m);
        let t = a.marks();
        let m2 = answered(v, m, true);
        let c2 = stage(m2);
        let t2 = b.marks();
        let s = m.stack.last().s;
        lemma_search_wf(v, m);
        assert(t.open.contains(c.stack[c.stack.len() - 1].s));
        lemma_cut(c, t, s, n);
        assert forall|x: int| #[trigger] c.closed(t, x) implies c2.closed(t2, x) && t2.scc[x]
            == t.scc[x] && t.scc[x] < t.nscc by {
            lemma_number(c, t, x as usize);
        }
        assert forall|x: int| #[trigger]
            c2.closed(t2, x) && !c.closed(t, x) implies t2.scc[x] == t.nscc && c2.closed(
            t2,
            s as int,
        ) by {
            lemma_number(c, t, x as usize);
            assert(t.open.contains(x as usize));
            assert(!t.open.take(n).contains(s));
        }
        lemma_turn_finish(c, t, c2, t2, s);
    }

    proof fn facts(self, v: FstV<W>, m: Search<W>)
        requires
            self.knows(v, m),
            legal(v, m),
        ensures
            v == self.fst@,
            m.ok,
            v.n() <= usize::MAX,
            self.start == v.start,
            self.nstates == m.disc.len(),
            self.dfnumber@.len() == self.lowlink@.len(),
            self.dfnumber@.len() == self.scc@.len(),
            self.dfnumber@.len() <= v.n(),
            forall|x: int| #[trigger]
                self.onstack@.contains(x) <==> 0 <= x <= usize::MAX && self.scc_stack@.contains(
                    x as usize,
                ),
            forall|k: int|
                0 <= k < self.scc_stack@.len() ==> (#[trigger] self.scc_stack@[k]) < self.scc@.len()
                    && self.scc_stack@[k] < usize::MAX,
            forall|j: int, k: int|
                0 <= j < k < self.scc_stack@.len() ==> self.scc_stack@[j] != self.scc_stack@[k],
            m.stack.len() > 0 ==> {
                let s = m.stack.last().s;
                &&& s < v.n()
                &&& s < self.dfnumber@.len()
                &&& self.scc_stack@.contains(s)
                &&& self.lowlink@[s as int] <= self.dfnumber@[s as int]
                &&& self.nscc < usize::MAX
            },
            m.stack.len() > 1 ==> m.stack[m.stack.len() - 2].s < self.dfnumber@.len(),
            forall|x: int|
                0 <= x < self.scc@.len() ==> (#[trigger] self.scc@[x]) == NO_STATE || self.scc@[x]
                    < self.nscc,
    {
        reveal(SccVisitor::knows);
        lemma_search_wf(v, m);
        let c = stage(m);
        let t = self.marks();
        lemma_open_bound(v, m, t);
        if m.stack.len() > 0 {
            let k = m.stack.len() - 1;
            assert(frame_wf(v, m, m.stack[k]));
            lemma_number(c, t, m.stack[k].s);
            assert(t.open.contains(c.stack[k].s));
            assert(crate::tarjan::low_link(c.graph(v), t, c.stack[k].s as int));
            lemma_nscc_bound(v, m, t);
            if k > 0 {
                assert(frame_wf(v, m, m.stack[k - 1]));
                lemma_number(c, t, m.stack[k - 1].s);
            }
        }
        assert forall|x: int| 0 <= x < self.scc@.len() implies (#[trigger] self.scc@[x]) == NO_STATE
            || self.scc@[x] < self.nscc by {
            if self.scc@[x] != NO_STATE {
                assert(c.closed(t, x));
            }
        }
    }

    proof fn facts_visited(self, v: FstV<W>, m: Search<W>, x: usize)
        requires
            self.knows(v, m),
            legal(v, m),
            m.disc.contains(x),
        ensures
            x < self.dfnumber@.len(),
            !m.fin.contains(x) ==> self.scc_stack@.contains(x),
    {
        reveal(SccVisitor::knows);
        lemma_search_wf(v, m);
        lemma_number(stage(m), self.marks(), x);
        if !m.fin.contains(x) {
            lemma_grey(v, m, self.marks(), x);
        }
    }

    proof fn facts_order(self, v: FstV<W>, m: Search<W>, s: usize, at: int)
        requires
            self.knows(v, m),
            legal(v, m),
            0 <= at < self.scc_stack@.len(),
            self.scc_stack@[at] == s,
        ensures
            cut(self.marks(), s, at),
            forall|x: int| #[trigger]
                among(self.scc_stack@, at, x) <==> 0 <= x <= usize::MAX && self.scc_stack@.contains(
                    x as usize,
                ) && self.dfnumber@[x] >= self.dfnumber@[s as int],
            forall|x: usize| #[trigger]
                self.scc_stack@.take(at).contains(x) <==> self.scc_stack@.contains(x)
                    && self.dfnumber@[x as int] < self.dfnumber@[s as int],
    {
        reveal(SccVisitor::knows);
        let t = self.marks();
        lemma_cut(stage(m), t, s, at);
        assert forall|x: int| #[trigger] among(self.scc_stack@, at, x) <==> 0 <= x <= usize::MAX
            && self.scc_stack@.contains(x as usize) && self.dfnumber@[x] >= self.dfnumber@[s as int] by {
            if among(self.scc_stack@, at, x) {
                let k = choose|k: int|
                    at <= k < self.scc_stack@.len() && #[trigger] self.scc_stack@[k] == x;
                assert(t.open[k] == x);
            }
            if 0 <= x <= usize::MAX && self.scc_stack@.contains(x as usize) && self.dfnumber@[x]
                >= self.dfnumber@[s as int] {
                let k = choose|k: int|
                    0 <= k < self.scc_stack@.len() && self.scc_stack@[k] == x as usize;
                assert(t.open[k] == x);
                assert(k >= at);
            }
        }
    }
}

/// What the discovery of a state says of the search.
proof fn lemma_init_facts<W: Weight>(v: FstV<W>, m: Search<W>, s: usize, root: usize)
    requires
        v.wf(),
        v.n() <= usize::MAX,
        search_wf(v, m),
        m.next_call(v) == Some(DfsCall::Init { s, root }),
    ensures
        s < v.n(),
        !m.disc.contains(s),
        m.pending is None ==> s == root && m.stack.len() == 0,
        m.pending is Some ==> root == m.root,
        m.disc.len() == 0 ==> v.start == Some(s),
{
    if m.pending is None {
        if m.disc.len() > 0 {
            lemma_first_white(m.disc, 0, v.n() as int);
        }
    } else {
        let f = m.stack.last();
        assert(frame_wf(v, m, m.stack[m.stack.len() - 1]));
        lemma_next_arc(m.accept, v.arcs(f.s as int), f.next);
        assert(v.states[f.s as int].arcs[m.pending->0].nextstate < v.n());
    }
}

/// Makes `v` hold `n` numbers at least, filling with "none".
fn grow(v: &mut Vec<usize>, n: usize)
    ensures
        final(v)@.len() == (if old(v)@.len() < n {
            n as nat
        } else {
            old(v)@.len()
        }),
        forall|i: int| 0 <= i < old(v)@.len() ==> #[trigger] final(v)@[i] == old(v)@[i],
        forall|i: int| old(v)@.len() <= i < final(v)@.len() ==> #[trigger] final(v)@[i] == NO_STATE,
{
    while v.len() < n
        invariant
            v@.len() >= old(v)@.len(),
            v@.len() <= n || v@.len() == old(v)@.len(),
            forall|i: int| 0 <= i < old(v)@.len() ==> #[trigger] v@[i] == old(v)@[i],
            forall|i: int| old(v)@.len() <= i < v@.len() ==> #[trigger] v@[i] == NO_STATE,
        decreases n - v@.len(),
    {
        v.push(NO_STATE);
    }
}

impl<'f, W: Weight> DfsVisitor<W> for SccVisitor<'f, W> {
    type Setup = (bool, u64);

    open spec fn setup(&self) -> (bool, u64) {
        (self.wants_coaccess(), self.given_bits())
    }

    open spec fn ready(&self, v: FstV<W>) -> bool {
        v == self.machine()
    }

    closed spec fn inv(&self, v: FstV<W>, m: Search<W>) -> bool {
        self.knows(v, m) && in_turn(stage(m), self.marks())
    }

    open spec fn done(&self, v: FstV<W>, m: Search<W>) -> bool {
        self.found(v, m)
    }

    open spec fn takes(&self, what: Told<W>) -> bool {
        false
    }

    open spec fn becomes(&self, what: Told<W>, after: &Self) -> bool {
        true
    }

    fn init_visit(&mut self, _fst: &VectorFst<W>) {
        self.scc.clear();
        self.access.clear();
        self.coaccess.clear();
        let n: usize = self.fst.num_states();
        self.start = self.fst.start();
        self.nstates = 0;
        self.nscc = 0;
        self.dfnumber.clear();
        self.lowlink.clear();
        self.onstack.clear();
        self.scc_stack.clear();
        self.cyclic = false;
        self.initial_cyclic = false;
        self.not_accessible = false;
        self.not_coaccessible = false;
        proof {
            assert forall|accept: spec_fn(Arc<W>) -> bool, single: bool| self.inv(
                self.fst@,
                #[trigger] Search::initial(accept, single),
            ) by {
                lemma_turn_begins(
                    stage(Search::<W>::initial(accept, single)),
                    self.marks(),
                );
                reveal(SccVisitor::knows);
                let m = Search::<W>::initial(accept, single);
                let c = stage(m);
                assert forall|x: int, j: int| 0 <= x < self.fst@.n() implies !c.behind(
                    self.fst@,
                    x,
                    j,
                ) by {}
            }
        }
    }

    fn init_state(&mut self, s: usize, root: usize) -> (ok: bool) {
        let ghost (v, m) = choose|v: FstV<W>, m: Search<W>| #[trigger]
            old(self).inv(v, m) && calls_init(v, m, s, root);
        let n: usize = self.fst.num_states();
        proof {
            self.facts(v, m);
            lemma_search_wf(v, m);
            lemma_init_facts(v, m, s, root);
            lemma_disc_bound(v, m, s);
        }
        self.scc_stack.push(s);
        if self.dfnumber.len() <= s {
            grow(&mut self.scc, s + 1);
            self.access.ensure(s + 1);
            self.coaccess.ensure(s + 1);
            grow(&mut self.dfnumber, s + 1);
            grow(&mut self.lowlink, s + 1);
        }
        let number: usize = self.nstates;
        self.dfnumber.set(s, number);
        self.lowlink.set(s, number);
        self.onstack.insert(s);

        if Some(root) == self.start {
            self.access.insert(s);
        } else {
            self.access.remove(s);
            self.not_accessible = true;
        }
        self.nstates = self.nstates + 1;
        proof {
            assert forall|v: FstV<W>, m: Search<W>| #[trigger]
                old(self).inv(v, m) && calls_init(v, m, s, root) implies self.inv(
                v,
                answered(v, m, true),
            ) by {
                old(self).facts(v, m);
                assert(marks_init(old(self).marks(), self.marks(), s, old(self).nstates as int));
                Self::step_init(*old(self), *self, v, m, s, root);
                lemma_search_wf(v, m);
                lemma_init_facts(v, m, s, root);
                Self::turn_stays(*old(self), *self, v, m, Some(s));
            }
        }
        true
    }

    fn tree_arc(&mut self, s: usize, arc: &Arc<W>) -> (ok: bool) {
        proof {
            assert forall|v: FstV<W>, m: Search<W>| #[trigger]
                old(self).inv(v, m) && calls_tree(v, m, s, *arc) implies self.inv(
                v,
                answered(v, m, true),
            ) by {
                reveal(SccVisitor::knows);
                assert(stage(answered(v, m, true)) == stage(m));
            }
        }
        true
    }

    fn back_arc(&mut self, s: usize, arc: &Arc<W>) -> (ok: bool) {
        let ghost (v, m) = choose|v: FstV<W>, m: Search<W>| #[trigger]
            old(self).inv(v, m) && calls_back(v, m, s, *arc);
        let t: usize = arc.nextstate;
        let n: usize = self.fst.num_states();
        proof {
            self.facts(v, m);
            self.facts_visited(v, m, t);
        }
        if self.dfnumber[t] < self.lowlink[s] {
            self.lowlink.set(s, self.dfnumber[t]);
        }
        if self.want_coaccess && self.coaccess.contains(t) {
            self.coaccess.insert(s);
        }
        self.cyclic = true;
        if Some(t) == self.start {
            self.initial_cyclic = true;
        }
        proof {
            assert forall|v: FstV<W>, m: Search<W>| #[trigger]
                old(self).inv(v, m) && calls_back(v, m, s, *arc) implies self.inv(
                v,
                answered(v, m, true),
            ) by {
                let i = m.next_call(v)->0->Back_i;
                old(self).facts(v, m);
                old(self).facts_visited(v, m, t);
                Self::step_advance(*old(self), *self, v, m, i);
                Self::turn_stays(*old(self), *self, v, m, None);
            }
        }
        true
    }

    fn forward_or_cross_arc(&mut self, s: usize, arc: &Arc<W>) -> (ok: bool) {
        let ghost (v, m) = choose|v: FstV<W>, m: Search<W>| #[trigger]
            old(self).inv(v, m) && calls_cross(v, m, s, *arc);
        let t: usize = arc.nextstate;
        let n: usize = self.fst.num_states();
        proof {
            self.facts(v, m);
            self.facts_visited(v, m, t);
        }
        if self.dfnumber[t] < self.dfnumber[s] && self.onstack.contains(t) && self.dfnumber[t]
            < self.lowlink[s] {
            self.lowlink.set(s, self.dfnumber[t]);
        }
        if self.want_coaccess && self.coaccess.contains(t) {
            self.coaccess.insert(s);
        }
        proof {
            assert forall|v: FstV<W>, m: Search<W>| #[trigger]
                old(self).inv(v, m) && calls_cross(v, m, s, *arc) implies self.inv(
                v,
                answered(v, m, true),
            ) by {
                let i = m.next_call(v)->0->Cross_i;
                old(self).facts(v, m);
                old(self).facts_visited(v, m, t);
                assert(old(self).onstack@.contains(t as int) <==> old(self).scc_stack@.contains(t));
                Self::step_advance(*old(self), *self, v, m, i);
                Self::turn_stays(*old(self), *self, v, m, None);
            }
        }
        true
    }

    #[verifier::spinoff_prover]
    #[verifier::rlimit(80)]
    fn finish_state(&mut self, s: usize, p: Option<usize>, arc: Option<&Arc<W>>) {
        let ghost (v, m) = choose|v: FstV<W>, m: Search<W>| #[trigger]
            old(self).inv(v, m) && calls_finish(v, m, s, p, arc);
        let ghost a = *old(self);
        let n: usize = self.fst.num_states();
        proof {
            self.facts(v, m);
            lemma_search_wf(v, m);
        }
        let ghost at = choose|k: int| 0 <= k < self.scc_stack@.len() && self.scc_stack@[k] == s;
        proof {
            self.facts_order(v, m, s, at);
        }
        if self.want_coaccess && self.fst.is_final(s) {
            self.coaccess.insert(s);
        }
        let ghost co1 = if v.is_final(s as int) {
            a.coaccess@.insert(s as int)
        } else {
            a.coaccess@
        };
        assert(self.want_coaccess ==> self.coaccess@ == co1);
        let ghost mut marked = false;

        // Root of new SCC
        if self.dfnumber[s] == self.lowlink[s] {
            let mut scc_coaccess: bool = false;
            if self.want_coaccess {
                let mut i: usize = self.scc_stack.len();
                let mut reached: bool = false;
                while !reached
                    invariant
                        self.scc_stack@ == a.scc_stack@,
                        self.coaccess@ == co1,
                        0 <= at < self.scc_stack@.len(),
                        self.scc_stack@[at] == s,
                        at <= i <= self.scc_stack@.len(),
                        !reached ==> at < i,
                        reached ==> i == at,
                        forall|j: int, k: int|
                            0 <= j < k < self.scc_stack@.len() ==> self.scc_stack@[j]
                                != self.scc_stack@[k],
                        scc_coaccess == exists|k: int|
                            i <= k < self.scc_stack@.len() && co1.contains(
                                #[trigger] self.scc_stack@[k] as int,
                            ),
                    decreases i,
                {
                    i = i - 1;
                    let t: usize = self.scc_stack[i];
                    if self.coaccess.contains(t) {
                        scc_coaccess = true;
                    }
                    if s == t {
                        reached = true;
                    }
                }
            }
            proof {
                marked = scc_coaccess;
            }
            let ghost co_before = self.coaccess@;
            let mut popped: bool = false;
            while !popped
                invariant
                    a.scc_stack@.len() >= self.scc_stack@.len(),
                    at <= self.scc_stack@.len(),
                    !popped ==> at < self.scc_stack@.len(),
                    popped ==> self.scc_stack@.len() == at,
                    0 <= at < a.scc_stack@.len(),
                    a.scc_stack@[at] == s,
                    self.scc_stack@ == a.scc_stack@.take(self.scc_stack@.len() as int),
                    self.fst == a.fst,
                    self.start == a.start,
                    self.nstates == a.nstates,
                    self.nscc == a.nscc,
                    self.dfnumber@ == a.dfnumber@,
                    self.lowlink@ == a.lowlink@,
                    self.access@ == a.access@,
                    self.not_accessible == a.not_accessible,
                    self.not_coaccessible == a.not_coaccessible,
                    self.want_coaccess == a.want_coaccess,
                    self.cyclic == a.cyclic,
                    self.initial_cyclic == a.initial_cyclic,
                    self.given == a.given,
                    self.props == a.props,
                    self.scc@.len() == a.scc@.len(),
                    forall|j: int, k: int|
                        0 <= j < k < a.scc_stack@.len() ==> a.scc_stack@[j] != a.scc_stack@[k],
                    forall|k: int|
                        0 <= k < a.scc_stack@.len() ==> (#[trigger] a.scc_stack@[k])
                            < a.scc@.len() && a.scc_stack@[k] < usize::MAX,
                    forall|x: int|
                        0 <= x < a.scc@.len() ==> #[trigger] self.scc@[x] == (if among(
                            a.scc_stack@,
                            self.scc_stack@.len() as int,
                            x,
                        ) {
                            a.nscc
                        } else {
                            a.scc@[x]
                        }),
                    forall|x: int| #[trigger]
                        self.onstack@.contains(x) <==> a.onstack@.contains(x) && !among(
                            a.scc_stack@,
                            self.scc_stack@.len() as int,
                            x,
                        ),
                    forall|x: int| #[trigger]
                        self.coaccess@.contains(x) <==> co_before.contains(x) || (scc_coaccess
                            && among(a.scc_stack@, self.scc_stack@.len() as int, x)),
                decreases self.scc_stack@.len(),
            {
                let ghost len = self.scc_stack@.len() as int;
                let ghost before = *self;
                let t: usize = match self.scc_stack.pop() {
                    Some(t) => t,
                    None => s,
                };
                assert(t == a.scc_stack@[len - 1]);
                assert forall|x: int| #[trigger] among(a.scc_stack@, len - 1, x) <==> among(
                    a.scc_stack@,
                    len,
                    x,
                ) || x == t by {
                    if x == t {
                        assert(a.scc_stack@[len - 1] == x);
                    }
                    if among(a.scc_stack@, len, x) {
                        let k = choose|k: int|
                            len <= k < a.scc_stack@.len() && #[trigger] a.scc_stack@[k] == x;
                        assert(a.scc_stack@[k] == x);
                    }
                }
                self.scc.set(t, self.nscc);
                if scc_coaccess {
                    self.coaccess.insert(t);
                }
                self.onstack.remove(t);
                if s == t {
                    popped = true;
                }
            }
            assert(!scc_coaccess ==> self.coaccess@ =~= co_before);
            if self.want_coaccess && !scc_coaccess {
                self.not_coaccessible = true;
            }
            self.nscc = self.nscc + 1;
            proof {
                assert forall|x: int| #[trigger] self.onstack@.contains(x) <==> 0 <= x <= usize::MAX
                    && self.scc_stack@.contains(x as usize) by {
                    assert(a.onstack@.contains(x) <==> 0 <= x <= usize::MAX && a.scc_stack@.contains(
                        x as usize,
                    ));
                    if 0 <= x <= usize::MAX {
                        assert(a.scc_stack@.take(at).contains(x as usize) <==> a.scc_stack@.contains(
                            x as usize,
                        ) && a.dfnumber@[x] < a.dfnumber@[s as int]);
                    }
                }
            }
        }
        let ghost mid = *self;

        if let Some(parent) = p {
            proof {
                let k = m.stack.len() - 1;
                assert(crate::dfs_visit::linked(v, m, k));
            }
            if self.want_coaccess && self.coaccess.contains(s) {
                self.coaccess.insert(parent);
            }
            if self.lowlink[s] < self.lowlink[parent] {
                self.lowlink.set(parent, self.lowlink[s]);
            }
        }
        proof {
            assert forall|v: FstV<W>, m: Search<W>| #[trigger]
                old(self).inv(v, m) && calls_finish(v, m, s, p, arc) implies self.inv(
                v,
                answered(v, m, true),
            ) by {
                a.facts(v, m);
                a.facts_order(v, m, s, at);
                lemma_search_wf(v, m);
                let k = m.stack.len() - 1;
                assert(crate::dfs_visit::linked(v, m, k));
                assert(p is Some <==> m.stack.len() > 1);
                if m.stack.len() > 1 {
                    assert(p == Some(m.stack[k - 1].s));
                    let q = m.stack[k - 1].s as int;
                    assert(self.lowlink@ =~= a.lowlink@.update(
                        q,
                        if a.lowlink@[s as int] < a.lowlink@[q] {
                            a.lowlink@[s as int]
                        } else {
                            a.lowlink@[q]
                        },
                    ));
                }
                if a.lowlink@[s as int] == a.dfnumber@[s as int] {
                    assert(among(a.scc_stack@, at, s as int)) by {
                        assert(a.scc_stack@[at] == s);
                    }
                    if a.want_coaccess {
                        assert(mid.coaccess@.contains(s as int) <==> marked) by {
                            if co1.contains(s as int) {
                                assert(co1.contains(a.scc_stack@[at] as int));
                            }
                        }
                    }
                }
                Self::step_finish(a, *self, v, m, at, co1, marked);
                Self::turn_finish(a, *self, v, m, at);
            }
        }
    }

    fn finish_visit(&mut self) {
        let ghost (v, m) = choose|v: FstV<W>, m: Search<W>| #[trigger]
            old(self).inv(v, m) && legal(v, m) && m.next_call(v) is None;
        proof {
            self.facts(v, m);
        }
        let mut building: u64 = self.given;
        building = building | (K_ACYCLIC | K_INITIAL_ACYCLIC | K_ACCESSIBLE);
        building = building & !(K_CYCLIC | K_INITIAL_CYCLIC | K_NOT_ACCESSIBLE);
        if self.want_coaccess {
            building = (building | K_CO_ACCESSIBLE) & !K_NOT_CO_ACCESSIBLE;
        }
        if self.cyclic {
            building = (building | K_CYCLIC) & !K_ACYCLIC;
        }
        if self.initial_cyclic {
            building = (building | K_INITIAL_CYCLIC) & !K_INITIAL_ACYCLIC;
        }
        if self.not_accessible {
            building = (building | K_NOT_ACCESSIBLE) & !K_ACCESSIBLE;
        }
        if self.want_coaccess && self.not_coaccessible {
            building = (building | K_NOT_CO_ACCESSIBLE) & !K_CO_ACCESSIBLE;
        }
        self.props = building;
        // Numbers SCCs in topological order when acyclic.
        let ghost mid = *self;
        let mut i: usize = 0;
        while i < self.scc.len()
            invariant
                i <= self.scc@.len(),
                self.scc@.len() == mid.scc@.len(),
                *self == (SccVisitor { scc: self.scc, ..mid }),
                forall|x: int|
                    0 <= x < mid.scc@.len() ==> (#[trigger] mid.scc@[x]) == NO_STATE || mid.scc@[x]
                        < mid.nscc,
                forall|x: int|
                    0 <= x < i ==> #[trigger] self.scc@[x] == (if mid.scc@[x] == NO_STATE {
                        NO_STATE as int
                    } else {
                        mid.nscc - 1 - mid.scc@[x]
                    }),
                forall|x: int| i <= x < self.scc@.len() ==> #[trigger] self.scc@[x] == mid.scc@[x],
            decreases self.scc@.len() - i,
        {
            let c: usize = self.scc[i];
            if c != NO_STATE {
                assert(mid.scc@[i as int] < mid.nscc);
                self.scc.set(i, self.nscc - 1 - c);
            }
            i = i + 1;
        }
        proof {
            assert forall|v: FstV<W>, m: Search<W>| #[trigger]
                old(self).inv(v, m) && legal(v, m) && m.next_call(v) is None implies self.done(
                v,
                m,
            ) by {
                Self::step_done(*old(self), *self, v, m);
            }
        }
    }
}

/// Where the component of a state ends.
proof fn lemma_component_ends(fin: Seq<usize>, scc: Seq<usize>, i: int) -> (j: int)
    requires
        0 <= i < fin.len(),
    ensures
        i <= j,
        ends_component(fin, scc, j),
        scc[fin[j] as int] == scc[fin[i] as int],
    decreases fin.len() - i,
{
    if ends_component(fin, scc, i) {
        i
    } else {
        let k = choose|k: int|
            i < k < fin.len() && scc[#[trigger] fin[k] as int] == scc[fin[i] as int];
        lemma_component_ends(fin, scc, k)
    }
}

/// Two numberings of the same components, both in turn, that have agreed so far.
spec fn agree_below<'f, W: Weight>(
    a: SccVisitor<'f, W>,
    b: SccVisitor<'f, W>,
    m: Search<W>,
    n: int,
) -> bool {
    forall|i: int|
        0 <= i < m.disc.len() ==> {
            let x = (#[trigger] m.disc[i]) as int;
            a.components()[x] < n || b.components()[x] < n ==> a.components()[x]
                == b.components()[x]
        }
}

/// A state that one numbering gives the next number is given it by the other.
proof fn lemma_next_number<'f, W: Weight>(
    a: SccVisitor<'f, W>,
    b: SccVisitor<'f, W>,
    v: FstV<W>,
    m: Search<W>,
    n: int,
    i: int,
)
    requires
        legal(v, m),
        v.n() <= usize::MAX,
        m.next_call(v) is None,
        a.found(v, m),
        b.found(v, m),
        agree_below(a, b, m, n),
        0 <= i < m.disc.len(),
        a.components()[m.disc[i] as int] == n,
    ensures
        b.components()[m.disc[i] as int] == n,
{
    let g = arc_graph(v, m.accept);
    let x = m.disc[i] as int;
    let bx = b.components()[x] as int;
    if bx > n {
        assert(numbered(m.disc, b.components(), n));
        let j = choose|j: int| 0 <= j < m.disc.len() && b.components()[#[trigger] m.disc[j] as int] == n;
        let y = m.disc[j] as int;
        // The two are in different components.
        assert(!mutual(g, m.disc[i] as int, m.disc[j] as int));
        assert(a.components()[y] > n);
        law_each_state_is_finished_once(v, m);
        assert(m.disc.contains(m.disc[i]) && m.disc.contains(m.disc[j]));
        let p = choose|p: int| 0 <= p < m.fin.len() && m.fin[p] == m.disc[i];
        let q = choose|q: int| 0 <= q < m.fin.len() && m.fin[q] == m.disc[j];
        let ex = lemma_component_ends(m.fin, a.components(), p);
        let ey = lemma_component_ends(m.fin, a.components(), q);
        assert(ex > ey) by {
            if ex < ey {
                assert(a.components()[m.fin[ex] as int] > a.components()[m.fin[ey] as int]);
            }
        }
        lemma_ends_alike(a, b, v, m, ex);
        lemma_ends_alike(a, b, v, m, ey);
        assert(b.components()[m.fin[ey] as int] > b.components()[m.fin[ex] as int]);
        lemma_same_both(a, b, v, m, ex, p);
        lemma_same_both(a, b, v, m, ey, q);
    }
}

/// What is in one component of one numbering is in one of the other.
proof fn lemma_same_both<'f, W: Weight>(
    a: SccVisitor<'f, W>,
    b: SccVisitor<'f, W>,
    v: FstV<W>,
    m: Search<W>,
    i: int,
    j: int,
)
    requires
        legal(v, m),
        v.n() <= usize::MAX,
        m.next_call(v) is None,
        a.found(v, m),
        b.found(v, m),
        0 <= i < m.fin.len(),
        0 <= j < m.fin.len(),
    ensures
        a.components()[m.fin[i] as int] == a.components()[m.fin[j] as int]
            <==> b.components()[m.fin[i] as int] == b.components()[m.fin[j] as int],
{
    law_each_state_is_finished_once(v, m);
    assert(m.fin.contains(m.fin[i]) && m.fin.contains(m.fin[j]));
    assert(m.disc.contains(m.fin[i]) && m.disc.contains(m.fin[j]));
    let x = choose|x: int| 0 <= x < m.disc.len() && m.disc[x] == m.fin[i];
    let y = choose|y: int| 0 <= y < m.disc.len() && m.disc[y] == m.fin[j];
    let g = arc_graph(v, m.accept);
    assert(a.components()[m.disc[x] as int] == a.components()[m.disc[y] as int] <==> mutual(
        g,
        m.disc[x] as int,
        m.disc[y] as int,
    ));
    assert(b.components()[m.disc[x] as int] == b.components()[m.disc[y] as int] <==> mutual(
        g,
        m.disc[x] as int,
        m.disc[y] as int,
    ));
}

/// Components end where they end in every numbering.
proof fn lemma_ends_alike<'f, W: Weight>(
    a: SccVisitor<'f, W>,
    b: SccVisitor<'f, W>,
    v: FstV<W>,
    m: Search<W>,
    i: int,
)
    requires
        legal(v, m),
        v.n() <= usize::MAX,
        m.next_call(v) is None,
        a.found(v, m),
        b.found(v, m),
        ends_component(m.fin, a.components(), i),
    ensures
        ends_component(m.fin, b.components(), i),
{
    assert forall|k: int| i < k < m.fin.len() implies b.components()[#[trigger] m.fin[k] as int]
        != b.components()[m.fin[i] as int] by {
        lemma_same_both(a, b, v, m, k, i);
        assert(a.components()[m.fin[k] as int] != a.components()[m.fin[i] as int]);
    }
}

proof fn lemma_agree<'f, W: Weight>(
    a: SccVisitor<'f, W>,
    b: SccVisitor<'f, W>,
    v: FstV<W>,
    m: Search<W>,
    n: nat,
)
    requires
        legal(v, m),
        v.n() <= usize::MAX,
        m.next_call(v) is None,
        a.found(v, m),
        b.found(v, m),
    ensures
        agree_below(a, b, m, n as int),
        agree_below(b, a, m, n as int),
    decreases n,
{
    if n > 0 {
        let k = (n - 1) as nat;
        lemma_agree(a, b, v, m, k);
        assert forall|i: int| 0 <= i < m.disc.len() implies {
            let x = (#[trigger] m.disc[i]) as int;
            a.components()[x] < n || b.components()[x] < n ==> a.components()[x]
                == b.components()[x]
        } by {
            let x = m.disc[i] as int;
            if a.components()[x] == k {
                lemma_next_number(a, b, v, m, k as int, i);
            }
            if b.components()[x] == k {
                lemma_next_number(b, a, v, m, k as int, i);
            }
        }
    }
}

/// Two visitors that search a machine by the same arcs number its components alike, and
/// find the same states accessible, whether or not they were asked which states reach a
/// final state. The property bits differ at most in those that tell that; where it was
/// not asked, they are as they were given.
pub proof fn law_components_do_not_depend_on_what_is_asked<'f, W: Weight>(
    a: SccVisitor<'f, W>,
    b: SccVisitor<'f, W>,
    v: FstV<W>,
    m: Search<W>,
    m2: Search<W>,
)
    requires
        legal(v, m),
        legal(v, m2),
        v.n() <= usize::MAX,
        m.accept == m2.accept,
        m.single == m2.single,
        m.next_call(v) is None,
        m2.next_call(v) is None,
        a.found(v, m),
        b.found(v, m2),
        a.given_bits() == b.given_bits(),
    ensures
        a.components() == b.components(),
        a.count() == b.count(),
        a.accessible() == b.accessible(),
        a.bits() & !(K_CO_ACCESSIBLE | K_NOT_CO_ACCESSIBLE) == b.bits() & !(K_CO_ACCESSIBLE
            | K_NOT_CO_ACCESSIBLE),
        !b.wants_coaccess() ==> b.bits() & (K_CO_ACCESSIBLE | K_NOT_CO_ACCESSIBLE)
            == b.given_bits() & (K_CO_ACCESSIBLE | K_NOT_CO_ACCESSIBLE),
{
    law_one_way_to_search(v, m, m2);
    assert(b.found(v, m));
    let top = a.count() + b.count();
    lemma_agree(a, b, v, m, top);
    let ca = a.components();
    let cb = b.components();
    assert forall|i: int| 0 <= i < m.disc.len() implies ca[(#[trigger] m.disc[i]) as int]
        == cb[m.disc[i] as int] by {}
    assert(ca.len() == cb.len()) by {
        if ca.len() > 0 {
            let i = choose|i: int|
                0 <= i < m.disc.len() && m.disc[i] == (ca.len() - 1) as usize;
            assert(m.disc[i] < cb.len());
        }
        if cb.len() > 0 {
            let i = choose|i: int|
                0 <= i < m.disc.len() && m.disc[i] == (cb.len() - 1) as usize;
            assert(m.disc[i] < ca.len());
        }
    }
    assert(ca =~= cb) by {
        assert forall|x: int| 0 <= x < ca.len() implies ca[x] == cb[x] by {
            if m.disc.contains(x as usize) {
                let i = choose|i: int| 0 <= i < m.disc.len() && m.disc[i] == x as usize;
                assert(ca[m.disc[i] as int] == cb[m.disc[i] as int]);
            }
        }
    }
    assert(a.count() == b.count()) by {
        if a.count() < b.count() {
            assert(numbered(m.disc, cb, a.count() as int));
        }
        if b.count() < a.count() {
            assert(numbered(m.disc, ca, b.count() as int));
        }
    }
    assert(a.accessible() =~= b.accessible());
    let given = a.given_bits();
    let cyclic = visited_cycle(v, m);
    let initial = start_cycle(v, m);
    let lost = visited_inaccessible(v, m);
    let dead = visited_dead_end(v, m);
    lemma_bits(given, cyclic, initial, lost, dead);
}

/// The property bits a search for components sets, by what it found.
spec fn component_bits(
    props: u64,
    cyclic: bool,
    initial: bool,
    lost: bool,
    asked: bool,
    dead: bool,
) -> u64 {
    let p0 = (props | (0x800000000u64 | 0x2000000000u64 | 0x10000000000u64)) & !(0x400000000u64
        | 0x1000000000u64 | 0x20000000000u64);
    let p1 = if asked {
        (p0 | 0x40000000000u64) & !0x80000000000u64
    } else {
        p0
    };
    let p2 = if cyclic {
        (p1 | 0x400000000u64) & !0x800000000u64
    } else {
        p1
    };
    let p3 = if initial {
        (p2 | 0x1000000000u64) & !0x2000000000u64
    } else {
        p2
    };
    let p4 = if lost {
        (p3 | 0x20000000000u64) & !0x10000000000u64
    } else {
        p3
    };
    if asked && dead {
        (p4 | 0x80000000000u64) & !0x40000000000u64
    } else {
        p4
    }
}

/// Only the bits on final states depend on whether those are asked for.
proof fn lemma_bits(given: u64, cyclic: bool, initial: bool, lost: bool, dead: bool)
    ensures
        scc_properties(given, cyclic, initial, lost, Some(dead)) & !(K_CO_ACCESSIBLE
            | K_NOT_CO_ACCESSIBLE) == scc_properties(given, cyclic, initial, lost, None) & !(
        K_CO_ACCESSIBLE | K_NOT_CO_ACCESSIBLE),
        scc_properties(given, cyclic, initial, lost, None) & (K_CO_ACCESSIBLE
            | K_NOT_CO_ACCESSIBLE) == given & (K_CO_ACCESSIBLE | K_NOT_CO_ACCESSIBLE),
{
    assert(scc_properties(given, cyclic, initial, lost, Some(dead)) == component_bits(
        given,
        cyclic,
        initial,
        lost,
        true,
        dead,
    ));
    assert(scc_properties(given, cyclic, initial, lost, None) == component_bits(
        given,
        cyclic,
        initial,
        lost,
        false,
        dead,
    ));
    assert(component_bits(given, cyclic, initial, lost, true, dead) & !(0x40000000000u64
        | 0x80000000000u64) == component_bits(given, cyclic, initial, lost, false, dead) & !(
    0x40000000000u64 | 0x80000000000u64) && component_bits(
        given,
        cyclic,
        initial,
        lost,
        false,
        dead,
    ) & (0x40000000000u64 | 0x80000000000u64) == given & (0x40000000000u64 | 0x80000000000u64))
        by (bit_vector);
}

/// Whether `x` is one of the elements of `s` from `n` on.
pub open spec fn among(s: Seq<usize>, n: int, x: int) -> bool {
    exists|k: int| n <= k < s.len() && #[trigger] s[k] == x
}

proof fn lemma_disc_bound<W: Weight>(v: FstV<W>, m: Search<W>, s: usize)
    requires
        search_wf(v, m),
        v.n() <= usize::MAX,
        s < v.n(),
        !m.disc.contains(s),
    ensures
        m.disc.len() < v.n(),
{
    let disc = m.disc.push(s);
    let nums = disc.map_values(|x: usize| x as int);
    lemma_push_has(m.disc, s);
    assert(nums.no_duplicates());
    nums.unique_seq_to_set();
    let all = vstd::set_lib::set_int_range(0, v.n() as int);
    vstd::set_lib::lemma_int_range(0, v.n() as int);
    assert forall|x: int| nums.to_set().contains(x) implies all.contains(x) by {
        let i = choose|i: int| 0 <= i < nums.len() && nums[i] == x;
        if i < m.disc.len() {
            assert(m.disc[i] < v.n());
        }
    }
    vstd::set_lib::lemma_len_subset(nums.to_set(), all);
}

proof fn lemma_grey<W: Weight>(v: FstV<W>, m: Search<W>, t: Marks, x: usize)
    requires
        search_wf(v, m),
        crate::tarjan::marks_wf(stage(m), t),
        m.disc.contains(x),
        !m.fin.contains(x),
    ensures
        t.open.contains(x),
{
    let i = choose|i: int| 0 <= i < m.disc.len() && m.disc[i] == x;
    assert(m.fin.contains(m.disc[i]) || on_stack(m, m.disc[i]));
    let k = choose|k: int| 0 <= k < m.stack.len() && (#[trigger] m.stack[k]).s == x;
    assert(t.open.contains(stage(m).stack[k].s));
}

proof fn lemma_open_bound<W: Weight>(v: FstV<W>, m: Search<W>, t: Marks)
    requires
        search_wf(v, m),
        crate::tarjan::marks_wf(stage(m), t),
        v.n() <= usize::MAX,
    ensures
        forall|k: int|
            0 <= k < t.open.len() ==> (#[trigger] t.open[k]) < t.scc.len() && t.open[k] < usize::MAX,
        forall|j: int, k: int| 0 <= j < k < t.open.len() ==> t.open[j] != t.open[k],
{
    assert forall|k: int| 0 <= k < t.open.len() implies (#[trigger] t.open[k]) < t.scc.len()
        && t.open[k] < usize::MAX by {
        assert(stage(m).disc.contains(t.open[k]));
        lemma_number(stage(m), t, t.open[k]);
        assert(m.disc[t.dfn[t.open[k] as int] as int] < v.n());
    }
    assert forall|j: int, k: int| 0 <= j < k < t.open.len() implies t.open[j] != t.open[k] by {
        assert(t.dfn[t.open[j] as int] < t.dfn[t.open[k] as int]);
    }
}

proof fn lemma_nscc_bound<W: Weight>(v: FstV<W>, m: Search<W>, t: Marks)
    requires
        search_wf(v, m),
        tarjan(v, stage(m), t),
        v.n() <= usize::MAX,
        m.stack.len() > 0,
    ensures
        t.nscc < usize::MAX,
{
    let nums = m.disc.map_values(|x: usize| x as int);
    assert(nums.no_duplicates());
    nums.unique_seq_to_set();
    let all = vstd::set_lib::set_int_range(0, v.n() as int);
    vstd::set_lib::lemma_int_range(0, v.n() as int);
    assert forall|x: int| nums.to_set().contains(x) implies all.contains(x) by {
        let i = choose|i: int| 0 <= i < nums.len() && nums[i] == x;
        assert(m.disc[i] < v.n());
    }
    vstd::set_lib::lemma_len_subset(nums.to_set(), all);
    // the state being finished is in none of the closed components
    let x = m.stack.last().s;
    assert(frame_wf(v, m, m.stack[m.stack.len() - 1]));
    assert(t.open.contains(stage(m).stack[m.stack.len() - 1].s));
    if t.nscc == v.n() {
        assert(t.nscc == m.disc.len());
        crate::tarjan::lemma_component_count_open(v, stage(m), t, x);
    }
}

/// The graph with each edge taken both ways.
pub open spec fn both_ways(g: Graph) -> Graph {
    |x: int, y: int| g(x, y) || g(y, x)
}

/// What stands for the set of `x`; a number in no set stands for itself.
pub open spec fn key_of(comps: UnionFind, x: int) -> int {
    if comps.has(x) {
        comps.rep(x)
    } else {
        x
    }
}

/// Whether no number below `x` is in the set of `x`.
pub open spec fn is_first(comps: UnionFind, x: int) -> bool {
    forall|r: int| 0 <= r < x ==> #[trigger] key_of(comps, r) != key_of(comps, x)
}

/// How many of the numbers below `n` are the first of their set.
pub open spec fn count_first(comps: UnionFind, n: int) -> nat
    decreases n,
{
    if n <= 0 {
        0
    } else {
        count_first(comps, n - 1) + (if is_first(comps, n - 1) {
            1nat
        } else {
            0nat
        })
    }
}

/// Whether `cc` numbers the sets of the numbers below its length, in the order
/// in which they appear.
pub open spec fn numbers_sets(comps: UnionFind, cc: Seq<usize>) -> bool {
    &&& forall|x: int, y: int|
        0 <= x < cc.len() && 0 <= y < cc.len() ==> (#[trigger] cc[x] == #[trigger] cc[y]
            <==> key_of(comps, x) == key_of(comps, y))
    &&& forall|x: int|
        0 <= x < cc.len() && #[trigger] is_first(comps, x) ==> cc[x] == count_first(comps, x)
}

/// Finds and returns connected components. Use with DFS Visit.
pub struct CcVisitor {
    comps: UnionFind,
    cc: Option<Vec<usize>>,
    nstates: usize,
}

impl CcVisitor {
    /// The sets of states found to hang together.
    pub closed spec fn sets(self) -> UnionFind {
        self.comps
    }

    /// The component number of each state, once the search has ended.
    pub closed spec fn numbers(self) -> Option<Seq<usize>> {
        match self.cc {
            Some(cc) => Some(cc@),
            None => None,
        }
    }

    /// One more than the highest state seen.
    pub closed spec fn extent(self) -> nat {
        self.nstates as nat
    }

    /// Whether the sets are in order, and of states below the highest seen.
    pub open spec fn wf(self) -> bool {
        &&& self.sets().wf()
        &&& forall|x: int| #[trigger] self.sets().has(x) ==> x < self.extent()
    }

    /// A visitor that numbers the components: `cc()[i]` is the number of the
    /// component of state `i`.
    pub fn new_with_cc() -> (visitor: Self)
        ensures
            visitor.wf(),
            visitor.numbers() is Some,
            forall|x: int| !(#[trigger] visitor.sets().has(x)),
            visitor.extent() == 0,
    {
        CcVisitor { comps: UnionFind::new(), cc: Some(Vec::new()), nstates: 0 }
    }

    /// A visitor that joins the states of each component in `comps`.
    pub fn new_with_comps(comps: UnionFind) -> (visitor: Self)
        ensures
            visitor.sets() == comps,
            visitor.numbers() is None,
            visitor.extent() == 0,
    {
        CcVisitor { comps, cc: None, nstates: 0 }
    }

    /// The sets of states found to hang together.
    pub fn comps(&self) -> (comps: &UnionFind)
        ensures
            *comps == self.sets(),
    {
        &self.comps
    }

    /// The component number of each state, where they were asked for.
    pub fn cc(&self) -> (cc: Option<&Vec<usize>>)
        ensures
            match cc {
                Some(cc) => self.numbers() == Some(cc@),
                None => self.numbers() is None,
            },
    {
        match &self.cc {
            Some(cc) => Some(cc),
            None => None,
        }
    }

    /// Returns number of components.
    /// `cc[i]`: connected component number for state `i`.
    pub fn get_cc_vector(&self, cc: &mut Vec<usize>) -> (n: usize)
        requires
            self.wf(),
        ensures
            final(cc)@.len() == self.extent(),
            numbers_sets(self.sets(), final(cc)@),
            n == count_first(self.sets(), self.extent() as int),
    {
        cc.clear();
        let mut i: usize = 0;
        while i < self.nstates
            invariant
                i <= self.nstates,
                cc@.len() == i,
                forall|x: int| 0 <= x < i ==> #[trigger] cc@[x] == NO_STATE,
            decreases self.nstates - i,
        {
            cc.push(NO_STATE);
            i = i + 1;
        }
        let ghost comps = self.comps;
        let mut ncomp: usize = 0;
        let mut s: usize = 0;
        while s < self.nstates
            invariant
                self.wf(),
                comps == self.comps,
                s <= self.nstates,
                cc@.len() == self.nstates,
                ncomp == count_first(comps, s as int),
                ncomp <= s,
                forall|x: int|
                    0 <= x < cc@.len() && #[trigger] cc@[x] != NO_STATE ==> cc@[x] < ncomp && exists|
                        r: int,
                    |
                        0 <= r < s && #[trigger] key_of(comps, r) == key_of(comps, x),
                forall|r: int|
                    0 <= r < s ==> #[trigger] cc@[r] != NO_STATE && cc@[r] == cc@[key_of(comps, r)],
                forall|x: int, y: int|
                    0 <= x < cc@.len() && 0 <= y < cc@.len() && #[trigger] cc@[x] != NO_STATE
                        && #[trigger] cc@[y] != NO_STATE ==> (cc@[x] == cc@[y] <==> key_of(comps, x)
                        == key_of(comps, y)),
                forall|x: int|
                    0 <= x < s && #[trigger] is_first(comps, x) ==> cc@[x] == count_first(comps, x),
            decreases self.nstates - s,
        {
            let rep: usize = match self.comps.find_set(s) {
                Some(r) => r,
                None => s,
            };
            proof {
                if comps.has(s as int) {
                    comps.lemma_rep(s as int);
                }
                assert forall|r: int| 0 <= r < self.nstates implies 0 <= #[trigger] key_of(comps, r)
                    < self.nstates && key_of(comps, key_of(comps, r)) == key_of(comps, r) by {
                    if comps.has(r) {
                        comps.lemma_rep(r);
                    }
                }
            }
            let ghost before = cc@;
            assert(rep == key_of(comps, s as int));
            let mut comp: usize = cc[rep];
            if comp == NO_STATE {
                comp = ncomp;
                ncomp = ncomp + 1;
                assert(is_first(comps, s as int)) by {
                    assert forall|r: int| 0 <= r < s implies #[trigger] key_of(comps, r) != key_of(
                        comps,
                        s as int,
                    ) by {
                        assert(before[r] != NO_STATE && before[r] == before[key_of(comps, r)]);
                    }
                }
            } else {
                assert(!is_first(comps, s as int)) by {
                    let r = choose|r: int|
                        0 <= r < s && #[trigger] key_of(comps, r) == key_of(comps, rep as int);
                    assert(key_of(comps, r) == key_of(comps, s as int));
                }
            }
            cc.set(s, comp);
            cc.set(rep, comp);
            assert(cc@[s as int] == comp && cc@[rep as int] == comp);
            proof {
                assert forall|x: int, y: int|
                    0 <= x < cc@.len() && 0 <= y < cc@.len() && #[trigger] cc@[x] != NO_STATE
                        && #[trigger] cc@[y] != NO_STATE implies (cc@[x] == cc@[y] <==> key_of(
                    comps,
                    x,
                ) == key_of(comps, y)) by {
                    if x != s && x != rep {
                        assert(cc@[x] == before[x]);
                    }
                    if y != s && y != rep {
                        assert(cc@[y] == before[y]);
                    }
                    if before[rep as int] == NO_STATE {
                        if x != s && x != rep && (y == s || y == rep) && key_of(comps, x) == key_of(
                            comps,
                            y,
                        ) {
                            let r = choose|r: int|
                                0 <= r < s && #[trigger] key_of(comps, r) == key_of(comps, x);
                            assert(before[r] == before[key_of(comps, r)]);
                        }
                        if y != s && y != rep && (x == s || x == rep) && key_of(comps, x) == key_of(
                            comps,
                            y,
                        ) {
                            let r = choose|r: int|
                                0 <= r < s && #[trigger] key_of(comps, r) == key_of(comps, y);
                            assert(before[r] == before[key_of(comps, r)]);
                        }
                    }
                }
                assert forall|r: int| 0 <= r < s + 1 implies #[trigger] cc@[r] != NO_STATE && cc@[r]
                    == cc@[key_of(comps, r)] by {
                    if r < s {
                        assert(before[r] != NO_STATE && before[r] == before[key_of(comps, r)]);
                    }
                    assert(key_of(comps, key_of(comps, r)) == key_of(comps, r));
                }
                assert forall|x: int|
                    0 <= x < cc@.len() && #[trigger] cc@[x] != NO_STATE implies cc@[x] < ncomp
                    && exists|r: int| 0 <= r < s + 1 && #[trigger] key_of(comps, r) == key_of(comps, x) by {
                    if x == s || x == rep {
                        assert(key_of(comps, s as int) == key_of(comps, x));
                    } else {
                        let r = choose|r: int|
                            0 <= r < s && #[trigger] key_of(comps, r) == key_of(comps, x);
                        assert(key_of(comps, r) == key_of(comps, x));
                    }
                }
                assert forall|x: int| 0 <= x < s + 1 && #[trigger] is_first(comps, x) implies cc@[x]
                    == count_first(comps, x) by {
                    if x < s {
                        if x == rep {
                            assert(key_of(comps, x) == key_of(comps, s as int));
                            assert(before[x] != NO_STATE);
                        }
                        assert(cc@[x] == before[x]);
                    }
                }
            }
            s = s + 1;
        }
        ncomp
    }

    /// What the visitor keeps to while a search of `v` stands at `m`.
    #[verifier::opaque]
    closed spec fn knows<W: Weight>(&self, v: FstV<W>, m: Search<W>) -> bool {
        let c = stage(m);
        let g = both_ways(c.graph(v));
        &&& v.n() < usize::MAX
        &&& m.ok
        &&& self.comps.wf()
        &&& forall|x: int| #[trigger]
            self.comps.has(x) <==> 0 <= x < v.n() && (m.disc.contains(x as usize) || coming(v, m, x))
        &&& forall|x: int, y: int| #[trigger] self.comps.same(x, y) ==> reach(g, x, y)
        &&& forall|x: int, j: int|
            0 <= x < v.n() && #[trigger] c.behind(v, x, j) ==> self.comps.same(
                x,
                v.arcs(x)[j].nextstate as int,
            )
        &&& m.pending matches Some(i) ==> self.comps.same(
            m.stack.last().s as int,
            v.arcs(m.stack.last().s as int)[i].nextstate as int,
        )
        &&& forall|i: int| 0 <= i < m.disc.len() ==> (#[trigger] m.disc[i]) < self.nstates
        &&& self.nstates > 0 ==> m.disc.contains((self.nstates - 1) as usize)
        &&& forall|x: int, j: int|
            0 <= x < v.n() && #[trigger] c.behind(v, x, j) ==> m.disc.contains(
                v.arcs(x)[j].nextstate,
            )
    }

    /// What the visitor has found once a search of `v` has ended at `m`.
    pub open spec fn found<W: Weight>(&self, v: FstV<W>, m: Search<W>) -> bool {
        let g = both_ways(arc_graph(v, m.accept));
        &&& self.wf()
        &&& m.ok
        &&& forall|x: int| #[trigger]
            self.sets().has(x) <==> 0 <= x < v.n() && m.disc.contains(x as usize)
        &&& forall|x: int, y: int|
            #![trigger self.sets().has(x), self.sets().has(y)]
            self.sets().has(x) && self.sets().has(y) && self.sets().rep(x) == self.sets().rep(y)
                ==> reach(g, x, y)
        &&& all_in(self.sets(), v.n() as int) ==> forall|x: int, y: int|
            #![trigger self.sets().has(x), self.sets().has(y)]
            self.sets().has(x) && self.sets().has(y) && reach(g, x, y) ==> self.sets().rep(x)
                == self.sets().rep(y)
        &&& self.extent() > 0 ==> m.disc.contains((self.extent() - 1) as usize)
        &&& self.numbers() matches Some(cc) ==> cc.len() == self.extent() && numbers_sets(
            self.sets(),
            cc,
        )
    }
}

/// Whether a search is about to descend to `x`.
pub open spec fn coming<W: Weight>(v: FstV<W>, m: Search<W>, x: int) -> bool {
    m.pending matches Some(i) && v.arcs(m.stack.last().s as int)[i].nextstate == x
}

/// An edge taken the other way is an edge taken both ways.
pub proof fn lemma_reach_sym(g: Graph, x: int, y: int, k: nat)
    requires
        reach_in(both_ways(g), x, y, k),
    ensures
        reach(both_ways(g), y, x),
    decreases k,
{
    let h = both_ways(g);
    if k == 0 {
        lemma_reach_refl(h, x);
    } else {
        let m = choose|m: int| #[trigger] h(x, m) && reach_in(h, m, y, (k - 1) as nat);
        lemma_reach_sym(g, m, y, (k - 1) as nat);
        assert(h(m, x));
        lemma_reach_edge(h, m, x);
        lemma_reach_trans(h, y, m, x);
    }
}

impl CcVisitor {
    proof fn joined<W: Weight>(
        a: UnionFind,
        b: UnionFind,
        g: Graph,
        x: usize,
        y: usize,
    )
        requires
            a.wf(),
            a.has(x as int),
            a.has(y as int),
            g(x as int, y as int),
            forall|p: int, q: int| #[trigger] a.same(p, q) ==> reach(both_ways(g), p, q),
            forall|p: int, q: int| #[trigger]
                b.same(p, q) <==> a.same(p, q) || (a.same(p, x as int) && a.same(q, y as int)) || (
                a.same(p, y as int) && a.same(q, x as int)),
        ensures
            forall|p: int, q: int| #[trigger] b.same(p, q) ==> reach(both_ways(g), p, q),
            b.same(x as int, y as int),
            forall|p: int, q: int| a.same(p, q) ==> #[trigger] b.same(p, q),
    {
        let h = both_ways(g);
        let xi = x as int;
        let yi = y as int;
        assert(h(xi, yi) && h(yi, xi));
        lemma_reach_edge(h, xi, yi);
        lemma_reach_edge(h, yi, xi);
        assert(a.same(xi, xi) && a.same(yi, yi));
        assert forall|p: int, q: int| #[trigger] b.same(p, q) implies reach(h, p, q) by {
            if !a.same(p, q) {
                if a.same(p, xi) && a.same(q, yi) {
                    assert(a.same(yi, q));
                    lemma_reach_trans(h, p, xi, yi);
                    lemma_reach_trans(h, p, yi, q);
                } else {
                    assert(a.same(xi, q));
                    lemma_reach_trans(h, p, yi, xi);
                    lemma_reach_trans(h, p, xi, q);
                }
            }
        }
    }

    proof fn step_init<W: Weight>(a: Self, b: Self, v: FstV<W>, m: Search<W>, s: usize, root: usize)
        requires
            a.knows(v, m),
            calls_init(v, m, s, root),
            b.comps.wf(),
            forall|y: int| #[trigger] b.comps.has(y) <==> a.comps.has(y) || y == s,
            forall|y: int| #[trigger] a.comps.has(y) ==> b.comps.rep(y) == a.comps.rep(y),
            !a.comps.has(s as int) ==> b.comps.rep(s as int) == s,
            b.nstates == (if a.nstates <= s {
                s + 1
            } else {
                a.nstates as int
            }),
        ensures
            b.knows(v, answered(v, m, true)),
    {
        reveal(CcVisitor::knows);
        let m2 = answered(v, m, true);
        let c = stage(m);
        let c2 = stage(m2);
        let g = both_ways(c.graph(v));
        lemma_search_wf(v, m);
        lemma_init_facts(v, m, s, root);
        lemma_behind_init(v, m, s, root, true);
        lemma_push_has(m.disc, s);
        assert(c2.graph(v) == c.graph(v));
        assert forall|x: int, y: int| #[trigger] b.comps.same(x, y) implies reach(g, x, y) by {
            if a.comps.has(x) && a.comps.has(y) {
                assert(a.comps.same(x, y));
            } else if a.comps.has(x) {
                a.comps.lemma_rep(x);
                assert(a.comps.has(s as int));
            } else if a.comps.has(y) {
                a.comps.lemma_rep(y);
                assert(a.comps.has(s as int));
            } else {
                lemma_reach_refl(g, s as int);
            }
        }
        assert forall|x: int, j: int| 0 <= x < v.n() && #[trigger] c2.behind(v, x, j) implies b.comps.same(
            x,
            v.arcs(x)[j].nextstate as int,
        ) && m2.disc.contains(v.arcs(x)[j].nextstate) by {
            assert(a.comps.same(x, v.arcs(x)[j].nextstate as int));
            assert(a.comps.has(x) && a.comps.has(v.arcs(x)[j].nextstate as int));
        }
    }

    proof fn step_arc<W: Weight>(a: Self, b: Self, v: FstV<W>, m: Search<W>, i: int)
        requires
            a.knows(v, m),
            legal(v, m),
            m.pending is None,
            m.stack.len() > 0,
            b.nstates == a.nstates,
            b.comps.wf(),
            ({
                let s = m.stack.last().s as int;
                let y = v.arcs(s)[i].nextstate as int;
                &&& m.next_call(v) == Some(DfsCall::Back { s: m.stack.last().s, i }) || m.next_call(
                    v,
                ) == Some(DfsCall::Cross { s: m.stack.last().s, i }) || m.next_call(v) == Some(
                    DfsCall::Tree { s: m.stack.last().s, i },
                )
                &&& forall|z: int| #[trigger] b.comps.has(z) <==> a.comps.has(z) || z == y
                &&& exists|mid: UnionFind| #[trigger]
                    extends(a.comps, mid, y) && joins(mid, b.comps, s, y)
            }),
        ensures
            b.knows(v, answered(v, m, true)),
    {
        reveal(CcVisitor::knows);
        let f = m.stack.last();
        let s = f.s as int;
        let yy = v.arcs(s)[i].nextstate;
        let y = yy as int;
        let mid = choose|mid: UnionFind| #[trigger]
            extends(a.comps, mid, y) && joins(mid, b.comps, s, y);
        let m2 = answered(v, m, true);
        let c = stage(m);
        let c2 = stage(m2);
        let g = c.graph(v);
        let h = both_ways(g);
        lemma_search_wf(v, m);
        assert(frame_wf(v, m, m.stack[m.stack.len() - 1]));
        lemma_next_arc(m.accept, v.arcs(s), f.next);
        assert(v.states[s].arcs[i].nextstate < v.n());
        assert(has_arc(v, m.accept, s, y));
        assert(m.disc.contains(f.s));
        assert(a.comps.has(s));
        assert forall|p: int, q: int| #[trigger] mid.same(p, q) implies reach(h, p, q) by {
            if a.comps.has(p) && a.comps.has(q) {
                assert(a.comps.same(p, q));
            } else if a.comps.has(p) {
                a.comps.lemma_rep(p);
                assert(a.comps.has(y));
            } else if a.comps.has(q) {
                a.comps.lemma_rep(q);
                assert(a.comps.has(y));
            } else {
                lemma_reach_refl(h, y);
            }
        }
        assert(g(s, y));
        Self::joined::<W>(mid, b.comps, g, f.s, yy);
        assert(c2.graph(v) == g);
        assert forall|p: int, q: int| a.comps.same(p, q) implies #[trigger] b.comps.same(p, q) by {
            assert(a.comps.has(p) && a.comps.has(q));
            assert(mid.same(p, q));
        }
        if m.next_call(v) matches Some(DfsCall::Tree { .. }) {
            assert(c2 == c);
            assert forall|x: int| #[trigger] b.comps.has(x) <==> 0 <= x < v.n() && (m2.disc.contains(
                x as usize,
            ) || coming(v, m2, x)) by {
                assert(b.comps.has(x) <==> a.comps.has(x) || x == y);
            }
            assert forall|x: int, j: int| 0 <= x < v.n() && #[trigger] c2.behind(v, x, j) implies b.comps.same(
                x,
                v.arcs(x)[j].nextstate as int,
            ) by {
                assert(a.comps.same(x, v.arcs(x)[j].nextstate as int));
            }
        } else {
            lemma_behind_advance(v, m, m2, i);
            assert(a.comps.has(y));
            assert forall|x: int, j: int| 0 <= x < v.n() && #[trigger] c2.behind(v, x, j) implies b.comps.same(
                x,
                v.arcs(x)[j].nextstate as int,
            ) && m2.disc.contains(v.arcs(x)[j].nextstate) by {
                if c.behind(v, x, j) {
                    assert(a.comps.same(x, v.arcs(x)[j].nextstate as int));
                }
            }
        }
    }
}

/// Whether `b` has the sets of `a`, with `y` alone if it was in none.
pub open spec fn extends(a: UnionFind, b: UnionFind, y: int) -> bool {
    &&& b.wf()
    &&& forall|z: int| #[trigger] b.has(z) <==> a.has(z) || z == y
    &&& forall|z: int| #[trigger] a.has(z) ==> b.rep(z) == a.rep(z)
    &&& !a.has(y) ==> b.rep(y) == y
}

/// Whether `b` has the sets of `a`, with those of `x` and `y` joined.
pub open spec fn joins(a: UnionFind, b: UnionFind, x: int, y: int) -> bool {
    forall|p: int, q: int| #[trigger]
        b.same(p, q) <==> a.same(p, q) || (a.same(p, x) && a.same(q, y)) || (a.same(p, y) && a.same(
            q,
            x,
        ))
}

/// Whether `b` has the sets of `a`, with that of `x` joined with that of `y`, which may have
/// been in none.
pub open spec fn joins_new(a: UnionFind, b: UnionFind, x: int, y: int) -> bool {
    &&& b.wf()
    &&& forall|z: int| #[trigger] b.has(z) <==> a.has(z) || z == y
    &&& exists|mid: UnionFind| #[trigger] extends(a, mid, y) && joins(mid, b, x, y)
}

/// Whether `b` has the sets of `a`, with those of `x` and `y` joined, and no others.
pub open spec fn joins_old(a: UnionFind, b: UnionFind, x: int, y: int) -> bool {
    &&& forall|z: int| #[trigger] b.has(z) <==> a.has(z)
    &&& joins(a, b, x, y)
}

impl CcVisitor {
    proof fn facts<W: Weight>(self, v: FstV<W>, m: Search<W>)
        requires
            self.knows(v, m),
            legal(v, m),
        ensures
            self.comps.wf(),
            v.n() < usize::MAX,
            forall|x: usize| #[trigger] m.disc.contains(x) ==> x < v.n() && self.comps.has(x as int),
            m.stack.len() > 0 ==> m.disc.contains(m.stack.last().s) && m.stack.last().s < v.n(),
    {
        reveal(CcVisitor::knows);
        lemma_search_wf(v, m);
        assert forall|x: usize| #[trigger] m.disc.contains(x) implies x < v.n() && self.comps.has(
            x as int,
        ) by {
            let i = choose|i: int| 0 <= i < m.disc.len() && m.disc[i] == x;
            assert(m.disc[i] < v.n());
        }
        if m.stack.len() > 0 {
            assert(frame_wf(v, m, m.stack[m.stack.len() - 1]));
        }
    }
}

impl<W: Weight> DfsVisitor<W> for CcVisitor {
    type Setup = bool;

    open spec fn setup(&self) -> bool {
        self.numbers() is Some
    }

    open spec fn ready(&self, v: FstV<W>) -> bool {
        &&& v.n() < usize::MAX
        &&& self.sets().wf()
        &&& self.extent() == 0
        &&& forall|x: int| !(#[trigger] self.sets().has(x))
    }

    closed spec fn inv(&self, v: FstV<W>, m: Search<W>) -> bool {
        self.knows(v, m)
    }

    open spec fn done(&self, v: FstV<W>, m: Search<W>) -> bool {
        self.found(v, m)
    }

    open spec fn takes(&self, what: Told<W>) -> bool {
        &&& self.sets().wf()
        &&& match what {
            Told::Init { s, root } => s < usize::MAX,
            Told::Tree { s, arc } => self.sets().has(s as int) && arc.nextstate < usize::MAX,
            Told::Back { s, arc } => self.sets().has(s as int) && self.sets().has(
                arc.nextstate as int,
            ),
            Told::Cross { s, arc } => self.sets().has(s as int) && self.sets().has(
                arc.nextstate as int,
            ),
            Told::Finish { s } => true,
            Told::End => self.wf(),
        }
    }

    /// A state that is discovered is a set of its own, and an arc joins the sets of its
    /// two ends. At the end the sets are numbered.
    open spec fn becomes(&self, what: Told<W>, after: &Self) -> bool {
        &&& after.sets().wf()
        &&& match what {
            Told::Init { s, root } => {
                &&& extends(self.sets(), after.sets(), s as int)
                &&& after.extent() == (if self.extent() <= s {
                    (s + 1) as nat
                } else {
                    self.extent()
                })
            },
            Told::Tree { s, arc } => joins_new(
                self.sets(),
                after.sets(),
                s as int,
                arc.nextstate as int,
            ) && after.extent() == self.extent(),
            Told::Back { s, arc } => joins_old(
                self.sets(),
                after.sets(),
                s as int,
                arc.nextstate as int,
            ) && after.extent() == self.extent(),
            Told::Cross { s, arc } => joins_old(
                self.sets(),
                after.sets(),
                s as int,
                arc.nextstate as int,
            ) && after.extent() == self.extent(),
            Told::Finish { s } => after == self,
            Told::End => {
                &&& after.sets() == self.sets()
                &&& after.extent() == self.extent()
                &&& after.numbers() matches Some(cc) ==> cc.len() == after.extent()
                    && numbers_sets(after.sets(), cc)
            },
        }
    }

    fn init_visit(&mut self, _fst: &VectorFst<W>) {
        proof {
            reveal(CcVisitor::knows);
        }
    }

    fn init_state(&mut self, s: usize, root: usize) -> (ok: bool) {
        proof {
            if !(self.sets().wf() && s < usize::MAX) {
                let (v, m) = choose|v: FstV<W>, m: Search<W>| #[trigger]
                    old(self).inv(v, m) && calls_init(v, m, s, root);
                self.facts(v, m);
                lemma_search_wf(v, m);
                lemma_init_facts(v, m, s, root);
            }
        }
        if self.nstates <= s {
            self.nstates = s + 1;
        }
        self.comps.make_set(s);
        proof {
            assert forall|v: FstV<W>, m: Search<W>| #[trigger]
                old(self).inv(v, m) && calls_init(v, m, s, root) implies self.inv(
                v,
                answered(v, m, true),
            ) by {
                Self::step_init(*old(self), *self, v, m, s, root);
            }
        }
        true
    }

    fn tree_arc(&mut self, s: usize, arc: &Arc<W>) -> (ok: bool) {
        let nextstate: usize = arc.nextstate;
        proof {
            if !(self.sets().wf() && self.sets().has(s as int) && arc.nextstate < usize::MAX) {
                let (v, m) = choose|v: FstV<W>, m: Search<W>| #[trigger]
                    old(self).inv(v, m) && calls_tree(v, m, s, *arc);
                self.facts(v, m);
                lemma_search_wf(v, m);
                let f = m.stack.last();
                lemma_next_arc(m.accept, v.arcs(f.s as int), f.next);
                assert(frame_wf(v, m, m.stack[m.stack.len() - 1]));
                let i = m.next_call(v)->0->Tree_i;
                assert(v.states[s as int].arcs[i].nextstate < v.n());
            }
        }
        self.comps.make_set(nextstate);
        let ghost mid = self.comps;
        self.comps.union(s, nextstate);
        proof {
            assert(extends(old(self).comps, mid, nextstate as int));
            assert(joins(mid, self.comps, s as int, nextstate as int));
            assert forall|v: FstV<W>, m: Search<W>| #[trigger]
                old(self).inv(v, m) && calls_tree(v, m, s, *arc) implies self.inv(
                v,
                answered(v, m, true),
            ) by {
                let i = m.next_call(v)->0->Tree_i;
                assert(extends(old(self).comps, mid, nextstate as int) && joins(
                    mid,
                    self.comps,
                    s as int,
                    nextstate as int,
                ));
                Self::step_arc(*old(self), *self, v, m, i);
            }
        }
        true
    }

    fn back_arc(&mut self, s: usize, arc: &Arc<W>) -> (ok: bool) {
        proof {
            if !(self.sets().wf() && self.sets().has(s as int) && self.sets().has(
                arc.nextstate as int,
            )) {
                let (v, m) = choose|v: FstV<W>, m: Search<W>| #[trigger]
                    old(self).inv(v, m) && calls_back(v, m, s, *arc);
                self.facts(v, m);
            }
        }
        self.comps.union(s, arc.nextstate);
        proof {
            let y = arc.nextstate as int;
            assert forall|v: FstV<W>, m: Search<W>| #[trigger]
                old(self).inv(v, m) && calls_back(v, m, s, *arc) implies self.inv(
                v,
                answered(v, m, true),
            ) by {
                let i = m.next_call(v)->0->Back_i;
                old(self).facts(v, m);
                assert(extends(old(self).comps, old(self).comps, y) && joins(
                    old(self).comps,
                    self.comps,
                    s as int,
                    y,
                ));
                Self::step_arc(*old(self), *self, v, m, i);
            }
        }
        true
    }

    fn forward_or_cross_arc(&mut self, s: usize, arc: &Arc<W>) -> (ok: bool) {
        proof {
            if !(self.sets().wf() && self.sets().has(s as int) && self.sets().has(
                arc.nextstate as int,
            )) {
                let (v, m) = choose|v: FstV<W>, m: Search<W>| #[trigger]
                    old(self).inv(v, m) && calls_cross(v, m, s, *arc);
                self.facts(v, m);
            }
        }
        self.comps.union(s, arc.nextstate);
        proof {
            let y = arc.nextstate as int;
            assert forall|v: FstV<W>, m: Search<W>| #[trigger]
                old(self).inv(v, m) && calls_cross(v, m, s, *arc) implies self.inv(
                v,
                answered(v, m, true),
            ) by {
                let i = m.next_call(v)->0->Cross_i;
                old(self).facts(v, m);
                assert(extends(old(self).comps, old(self).comps, y) && joins(
                    old(self).comps,
                    self.comps,
                    s as int,
                    y,
                ));
                Self::step_arc(*old(self), *self, v, m, i);
            }
        }
        true
    }

    fn finish_state(&mut self, s: usize, p: Option<usize>, arc: Option<&Arc<W>>) {
        proof {
            let (v, m) = choose|v: FstV<W>, m: Search<W>| #[trigger]
                old(self).inv(v, m) && calls_finish(v, m, s, p, arc);
            if !self.sets().wf() {
                self.facts(v, m);
            }
            assert forall|v: FstV<W>, m: Search<W>| #[trigger]
                old(self).inv(v, m) && calls_finish(v, m, s, p, arc) implies self.inv(
                v,
                answered(v, m, true),
            ) by {
                reveal(CcVisitor::knows);
                lemma_search_wf(v, m);
                lemma_behind_finish(v, m, true);
                let c = stage(m);
                let c2 = stage(answered(v, m, true));
                assert(c2.graph(v) == c.graph(v));
                assert forall|x: int, j: int|
                    0 <= x < v.n() && #[trigger] c2.behind(v, x, j) implies self.comps.same(
                    x,
                    v.arcs(x)[j].nextstate as int,
                ) && m.disc.contains(v.arcs(x)[j].nextstate) by {
                    assert(c.behind(v, x, j));
                }
            }
        }
    }

    fn finish_visit(&mut self) {
        proof {
            if !self.wf() {
                let (v, m) = choose|v: FstV<W>, m: Search<W>| #[trigger]
                    old(self).inv(v, m) && legal(v, m) && m.next_call(v) is None;
                self.facts(v, m);
                self.ended(v, m);
            }
        }
        if self.cc.is_some() {
            let mut cc: Vec<usize> = Vec::new();
            let _n: usize = self.get_cc_vector(&mut cc);
            self.cc = Some(cc);
        }
        proof {
            assert forall|v: FstV<W>, m: Search<W>| #[trigger]
                old(self).inv(v, m) && legal(v, m) && m.next_call(v) is None implies self.done(
                v,
                m,
            ) by {
                old(self).ended(v, m);
            }
        }
    }
}

impl CcVisitor {
    proof fn ended<W: Weight>(self, v: FstV<W>, m: Search<W>)
        requires
            self.knows(v, m),
            legal(v, m),
            m.next_call(v) is None,
        ensures
            self.wf(),
            m.ok,
            forall|x: int| #[trigger]
                self.comps.has(x) <==> 0 <= x < v.n() && m.disc.contains(x as usize),
            forall|x: int, y: int|
                #![trigger self.sets().has(x), self.sets().has(y)]
                self.sets().has(x) && self.sets().has(y) && self.sets().rep(x) == self.sets().rep(y)
                    ==> reach(both_ways(arc_graph(v, m.accept)), x, y),
            all_in(self.sets(), v.n() as int) ==> forall|x: int, y: int|
                #![trigger self.sets().has(x), self.sets().has(y)]
                self.sets().has(x) && self.sets().has(y) && reach(
                    both_ways(arc_graph(v, m.accept)),
                    x,
                    y,
                ) ==> self.sets().rep(x) == self.sets().rep(y),
            self.nstates > 0 ==> m.disc.contains((self.nstates - 1) as usize),
    {
        reveal(CcVisitor::knows);
        lemma_search_wf(v, m);
        let c = stage(m);
        let g = c.graph(v);
        let h = both_ways(g);
        assert(m.stack.len() == 0);
        assert forall|x: int| #[trigger] self.comps.has(x) implies x < self.nstates by {
            let i = choose|i: int| 0 <= i < m.disc.len() && m.disc[i] == x as usize;
            assert(m.disc[i] < self.nstates);
        }
        // what hangs together is in one set
        assert forall|x: int, y: int| self.comps.has(x) && #[trigger] g(x, y) implies self.comps.same(
            x,
            y,
        ) by {
            let j = choose|j: int|
                0 <= j < v.arcs(x).len() && (#[trigger] v.arcs(x)[j]).nextstate == y && (m.accept)(
                    v.arcs(x)[j],
                );
            let i = choose|i: int| 0 <= i < m.disc.len() && m.disc[i] == x as usize;
            assert(m.fin.contains(m.disc[i]) || on_stack(m, m.disc[i]));
            assert(c.behind(v, x, j));
        }
        assert forall|x: int, y: int|
            #![trigger self.sets().has(x), self.sets().has(y)]
            self.sets().has(x) && self.sets().has(y) && self.sets().rep(x) == self.sets().rep(
                y,
            ) implies reach(h, x, y) by {
            assert(self.comps.same(x, y));
        }
        if all_in(self.sets(), v.n() as int) {
            assert forall|x: int, y: int|
                #![trigger self.sets().has(x), self.sets().has(y)]
                self.sets().has(x) && self.sets().has(y) && reach(h, x, y) implies self.sets().rep(x)
                == self.sets().rep(y) by {
                let k = choose|k: nat| reach_in(h, x, y, k);
                self.gathers(v, m, x, y, k);
            }
        }
    }

    proof fn gathers<W: Weight>(self, v: FstV<W>, m: Search<W>, x: int, y: int, k: nat)
        requires
            v.wf(),
            all_in(self.sets(), v.n() as int),
            self.comps.has(x),
            forall|p: int, q: int|
                self.comps.has(p) && #[trigger] arc_graph(v, m.accept)(p, q) ==> self.comps.same(
                    p,
                    q,
                ),
            reach_in(both_ways(arc_graph(v, m.accept)), x, y, k),
        ensures
            self.comps.same(x, y),
        decreases k,
    {
        let g = arc_graph(v, m.accept);
        let h = both_ways(g);
        if k > 0 {
            let z = choose|z: int| #[trigger] h(x, z) && reach_in(h, z, y, (k - 1) as nat);
            if g(x, z) {
                assert(self.comps.same(x, z));
            } else {
                assert(g(z, x));
                assert(self.sets().has(z));
                assert(self.comps.same(z, x));
            }
            self.gathers(v, m, z, y, (k - 1) as nat);
        }
    }
}

/// Whether every number below `n` is in a set.
pub open spec fn all_in(comps: UnionFind, n: int) -> bool {
    forall|x: int| 0 <= x < n ==> #[trigger] comps.has(x)
}

} // verus!
