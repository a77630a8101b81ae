//! Depth-first visitation.
use crate::arc::Arc;
use crate::arc_filter::{AnyArcFilter, ArcFilter};
use crate::graph::any_arc;
use crate::vector_fst::{FstV, VectorFst};
use crate::weight::Weight;
use vstd::prelude::*;

verus! {

/// One frame of a search: a state and how far its arcs have been walked.
pub struct Frame {
    /// The state.
    pub s: usize,
    /// How many states had been discovered before it.
    pub num: int,
    /// How many of its arcs are behind.
    pub next: int,
    /// The state above it and the arc of that state it was reached by.
    pub parent: Option<(usize, int)>,
}

/// What the search asks of its visitor, with arcs named by position.
pub enum DfsCall {
    /// A state is discovered.
    Init { s: usize, root: usize },
    /// An arc leads to an undiscovered state.
    Tree { s: usize, i: int },
    /// An arc leads to a state that is discovered and unfinished.
    Back { s: usize, i: int },
    /// An arc leads to a finished state.
    Cross { s: usize, i: int },
    /// A state is finished.
    Finish { s: usize, parent: Option<(usize, int)> },
}

/// Where a depth-first search stands.
#[verifier::reject_recursive_types(W)]
pub struct Search<W> {
    /// Which arcs are followed.
    pub accept: spec_fn(Arc<W>) -> bool,
    /// Whether only the first tree is searched.
    pub single: bool,
    /// What was asked so far, with what the visitor answered.
    pub trace: Seq<(DfsCall, bool)>,
    /// The discovered states, in the order of discovery.
    pub disc: Seq<usize>,
    /// The finished states, in the order of finishing.
    pub fin: Seq<usize>,
    /// The states that are discovered and unfinished, the deepest last.
    pub stack: Seq<Frame>,
    /// The root of the tree being searched.
    pub root: usize,
    /// Whether the visitor still wants to go on.
    pub ok: bool,
    /// The arc of the deepest state that is about to be descended on.
    pub pending: Option<int>,
}

/// The first arc from `from` on that is followed, or the number of arcs.
pub open spec fn next_arc<W>(accept: spec_fn(Arc<W>) -> bool, arcs: Seq<Arc<W>>, from: int) -> int
    decreases arcs.len() - from,
{
    if from >= arcs.len() {
        arcs.len() as int
    } else if accept(arcs[from]) {
        from
    } else {
        next_arc(accept, arcs, from + 1)
    }
}

/// The first number from `from` on that is not in `disc`, or `n`.
pub open spec fn first_white(disc: Seq<usize>, from: int, n: int) -> int
    decreases n - from,
{
    if from >= n {
        n
    } else if !disc.contains(from as usize) {
        from
    } else {
        first_white(disc, from + 1, n)
    }
}

impl<W: Weight> Search<W> {
    /// A search that has asked nothing yet.
    pub open spec fn initial(accept: spec_fn(Arc<W>) -> bool, single: bool) -> Self {
        Search {
            accept,
            single,
            trace: Seq::empty(),
            disc: Seq::empty(),
            fin: Seq::empty(),
            stack: Seq::empty(),
            root: 0,
            ok: true,
            pending: None,
        }
    }

    /// What the search asks next; nothing once it has ended.
    pub open spec fn next_call(self, v: FstV<W>) -> Option<DfsCall> {
        match self.pending {
            Some(i) => Some(
                DfsCall::Init {
                    s: v.arcs(self.stack.last().s as int)[i].nextstate,
                    root: self.root,
                },
            ),
            None => if self.stack.len() > 0 {
                let f = self.stack.last();
                let arcs = v.arcs(f.s as int);
                let j = next_arc(self.accept, arcs, f.next);
                if !self.ok || j >= arcs.len() {
                    Some(DfsCall::Finish { s: f.s, parent: f.parent })
                } else if !self.disc.contains(arcs[j].nextstate) {
                    Some(DfsCall::Tree { s: f.s, i: j })
                } else if self.fin.contains(arcs[j].nextstate) {
                    Some(DfsCall::Cross { s: f.s, i: j })
                } else {
                    Some(DfsCall::Back { s: f.s, i: j })
                }
            } else if self.disc.len() == 0 {
                match v.start {
                    Some(s) => Some(DfsCall::Init { s, root: s }),
                    None => None,
                }
            } else if !self.ok || self.single || first_white(self.disc, 0, v.n() as int) >= v.n() {
                None
            } else {
                let r = first_white(self.disc, 0, v.n() as int) as usize;
                Some(DfsCall::Init { s: r, root: r })
            },
        }
    }

    /// The deepest frame, with its arcs behind up to `next`.
    pub open spec fn advanced(self, next: int) -> Seq<Frame> {
        self.stack.update(self.stack.len() - 1, Frame { next, ..self.stack.last() })
    }

    /// Where the search stands after `call` was answered with `ok`.
    pub open spec fn after(self, call: DfsCall, ok: bool) -> Self {
        let trace = self.trace.push((call, ok));
        match call {
            DfsCall::Init { s, root } => {
                let num = self.disc.len() as int;
                let stack = match self.pending {
                    Some(i) => self.advanced(i + 1).push(
                        Frame { s, num, next: 0, parent: Some((self.stack.last().s, i)) },
                    ),
                    None => self.stack.push(Frame { s, num, next: 0, parent: None }),
                };
                Search { trace, disc: self.disc.push(s), stack, root, ok, pending: None, ..self }
            },
            DfsCall::Tree { s, i } => if ok {
                Search { trace, pending: Some(i), ..self }
            } else {
                Search { trace, stack: self.advanced(i + 1), ok, ..self }
            },
            DfsCall::Back { s, i } => Search { trace, stack: self.advanced(i + 1), ok, ..self },
            DfsCall::Cross { s, i } => Search { trace, stack: self.advanced(i + 1), ok, ..self },
            DfsCall::Finish { s, parent } => Search {
                trace,
                stack: self.stack.drop_last(),
                fin: self.fin.push(s),
                ..self
            },
        }
    }
}

/// Where a search stands that was answered as `trace` says.
pub open spec fn replay<W: Weight>(
    accept: spec_fn(Arc<W>) -> bool,
    single: bool,
    trace: Seq<(DfsCall, bool)>,
) -> Search<W>
    decreases trace.len(),
{
    if trace.len() == 0 {
        Search::initial(accept, single)
    } else {
        replay(accept, single, trace.drop_last()).after(trace.last().0, trace.last().1)
    }
}

/// Whether a depth-first search of `v` asks what `trace` says, in that order,
/// when it is answered as `trace` says.
pub open spec fn legal_trace<W: Weight>(
    v: FstV<W>,
    accept: spec_fn(Arc<W>) -> bool,
    single: bool,
    trace: Seq<(DfsCall, bool)>,
) -> bool
    decreases trace.len(),
{
    trace.len() == 0 || {
        &&& legal_trace(v, accept, single, trace.drop_last())
        &&& replay(accept, single, trace.drop_last()).next_call(v) == Some(trace.last().0)
    }
}

/// Whether a depth-first search of `v` can stand at `m`.
pub open spec fn legal<W: Weight>(v: FstV<W>, m: Search<W>) -> bool {
    &&& v.wf()
    &&& legal_trace(v, m.accept, m.single, m.trace)
    &&& m == replay(m.accept, m.single, m.trace)
}

/// Whether a search of `v` at `m` tells its visitor that `s` is discovered
/// under `root`.
pub open spec fn calls_init<W: Weight>(v: FstV<W>, m: Search<W>, s: usize, root: usize) -> bool {
    legal(v, m) && m.next_call(v) == Some(DfsCall::Init { s, root })
}

/// Whether a search of `v` at `m` tells its visitor of a tree arc.
pub open spec fn calls_tree<W: Weight>(v: FstV<W>, m: Search<W>, s: usize, arc: Arc<W>) -> bool {
    legal(v, m) && (m.next_call(v) matches Some(DfsCall::Tree { s: a, i }) && a == s && v.arcs(
        s as int,
    )[i] == arc)
}

/// Whether a search of `v` at `m` tells its visitor of a back arc.
pub open spec fn calls_back<W: Weight>(v: FstV<W>, m: Search<W>, s: usize, arc: Arc<W>) -> bool {
    legal(v, m) && (m.next_call(v) matches Some(DfsCall::Back { s: a, i }) && a == s && v.arcs(
        s as int,
    )[i] == arc)
}

/// Whether a search of `v` at `m` tells its visitor of an arc to a finished
/// state.
pub open spec fn calls_cross<W: Weight>(v: FstV<W>, m: Search<W>, s: usize, arc: Arc<W>) -> bool {
    legal(v, m) && (m.next_call(v) matches Some(DfsCall::Cross { s: a, i }) && a == s && v.arcs(
        s as int,
    )[i] == arc)
}

/// Whether a search of `v` at `m` tells its visitor that `s` is finished.
pub open spec fn calls_finish<W: Weight>(
    v: FstV<W>,
    m: Search<W>,
    s: usize,
    parent: Option<usize>,
    arc: Option<&Arc<W>>,
) -> bool {
    legal(v, m) && (m.next_call(v) matches Some(DfsCall::Finish { s: a, parent: p }) && a == s
        && match p {
        Some((q, i)) => parent == Some(q) && arc == Some(&v.arcs(q as int)[i]),
        None => parent is None && arc is None,
    })
}

/// Where the search stands after its next question is answered with `ok`.
pub open spec fn answered<W: Weight>(v: FstV<W>, m: Search<W>, ok: bool) -> Search<W> {
    m.after(m.next_call(v)->0, ok)
}

/// What a visitor is told.
pub enum Told<W> {
    /// That `s` is discovered under `root`.
    Init { s: usize, root: usize },
    /// Of an arc to an undiscovered state.
    Tree { s: usize, arc: Arc<W> },
    /// Of an arc to a discovered, unfinished state.
    Back { s: usize, arc: Arc<W> },
    /// Of an arc to a finished state.
    Cross { s: usize, arc: Arc<W> },
    /// That `s` is finished.
    Finish { s: usize },
    /// That the search has ended.
    End,
}

/// Determines what a depth-first search does, and holds whatever it produces.
///
/// Returning `false` from any of the `bool` methods aborts the search. Aborting
/// is not the same as stopping: [`finish_state`](Self::finish_state) is still
/// called for every state left on the stack, deepest first, and then
/// [`finish_visit`](Self::finish_visit). A visitor that accumulates per-state
/// results in `finish_state` therefore sees a consistent picture either way.
///
/// A visitor says in `inv` what it knows of a search that stands at a given
/// point, and each method takes that from one point to the next. What a visitor
/// may be told outside a search it says in `takes`, and what comes of it in `becomes`.
pub trait DfsVisitor<W: Weight> {
    /// What a visitor was told to do.
    type Setup;

    /// What the visitor was told to do, which no search changes.
    spec fn setup(&self) -> Self::Setup;

    /// What holds of the visitor before it is told of a search of `v`.
    spec fn ready(&self, v: FstV<W>) -> bool;

    /// What holds of the visitor while a search of `v` stands at `m`.
    spec fn inv(&self, v: FstV<W>, m: Search<W>) -> bool;

    /// What holds of the visitor once a search of `v` has ended at `m`.
    spec fn done(&self, v: FstV<W>, m: Search<W>) -> bool;

    /// Whether the visitor may be told `what`, whatever search that is part of.
    spec fn takes(&self, what: Told<W>) -> bool;

    /// Whether being told `what` may leave the visitor as `after`.
    spec fn becomes(&self, what: Told<W>, after: &Self) -> bool;

    /// Invoked before the search begins.
    fn init_visit(&mut self, fst: &VectorFst<W>)
        requires
            old(self).ready(fst@),
            fst@.wf(),
        ensures
            final(self).setup() == old(self).setup(),
            forall|accept: spec_fn(Arc<W>) -> bool, single: bool|
                final(self).inv(fst@, #[trigger] Search::initial(accept, single)),
    ;

    /// Invoked when a state is discovered. `root` is the root of the tree it
    /// was discovered under.
    fn init_state(&mut self, s: usize, root: usize) -> (ok: bool)
        requires
            old(self).takes(Told::Init { s, root }) || exists|v: FstV<W>, m: Search<W>| #[trigger]
                old(self).inv(v, m) && calls_init(v, m, s, root),
        ensures
            final(self).setup() == old(self).setup(),
            old(self).becomes(Told::Init { s, root }, final(self)),
            forall|v: FstV<W>, m: Search<W>| #[trigger]
                old(self).inv(v, m) && calls_init(v, m, s, root) ==> final(self).inv(
                    v,
                    answered(v, m, ok),
                ),
    ;

    /// Invoked on an arc to a white (undiscovered) state.
    fn tree_arc(&mut self, s: usize, arc: &Arc<W>) -> (ok: bool)
        requires
            old(self).takes(Told::Tree { s, arc: *arc }) || exists|v: FstV<W>, m: Search<W>| #[trigger]
                old(self).inv(v, m) && calls_tree(v, m, s, *arc),
        ensures
            final(self).setup() == old(self).setup(),
            old(self).becomes(Told::Tree { s, arc: *arc }, final(self)),
            forall|v: FstV<W>, m: Search<W>| #[trigger]
                old(self).inv(v, m) && calls_tree(v, m, s, *arc) ==> final(self).inv(
                    v,
                    answered(v, m, ok),
                ),
    ;

    /// Invoked on an arc to a grey (discovered but unfinished) state.
    fn back_arc(&mut self, s: usize, arc: &Arc<W>) -> (ok: bool)
        requires
            old(self).takes(Told::Back { s, arc: *arc }) || exists|v: FstV<W>, m: Search<W>| #[trigger]
                old(self).inv(v, m) && calls_back(v, m, s, *arc),
        ensures
            final(self).setup() == old(self).setup(),
            old(self).becomes(Told::Back { s, arc: *arc }, final(self)),
            forall|v: FstV<W>, m: Search<W>| #[trigger]
                old(self).inv(v, m) && calls_back(v, m, s, *arc) ==> final(self).inv(
                    v,
                    answered(v, m, ok),
                ),
    ;

    /// Invoked on an arc to a black (finished) state.
    fn forward_or_cross_arc(&mut self, s: usize, arc: &Arc<W>) -> (ok: bool)
        requires
            old(self).takes(Told::Cross { s, arc: *arc }) || exists|v: FstV<W>, m: Search<W>| #[trigger]
                old(self).inv(v, m) && calls_cross(v, m, s, *arc),
        ensures
            final(self).setup() == old(self).setup(),
            old(self).becomes(Told::Cross { s, arc: *arc }, final(self)),
            forall|v: FstV<W>, m: Search<W>| #[trigger]
                old(self).inv(v, m) && calls_cross(v, m, s, *arc) ==> final(self).inv(
                    v,
                    answered(v, m, ok),
                ),
    ;

    /// Invoked when a state is finished.
    ///
    /// `parent` and `arc` are `None` when `s` is the root of its tree, and
    /// otherwise are the state above it on the stack and the tree arc that
    /// reached it.
    fn finish_state(&mut self, s: usize, parent: Option<usize>, arc: Option<&Arc<W>>)
        requires
            old(self).takes(Told::Finish { s }) || exists|v: FstV<W>, m: Search<W>| #[trigger]
                old(self).inv(v, m) && calls_finish(v, m, s, parent, arc),
        ensures
            final(self).setup() == old(self).setup(),
            old(self).becomes(Told::Finish { s }, final(self)),
            forall|v: FstV<W>, m: Search<W>| #[trigger]
                old(self).inv(v, m) && calls_finish(v, m, s, parent, arc) ==> final(self).inv(
                    v,
                    answered(v, m, true),
                ),
    ;

    /// Invoked after the search ends, however it ended.
    fn finish_visit(&mut self)
        requires
            old(self).takes(Told::End) || exists|v: FstV<W>, m: Search<W>| #[trigger]
                old(self).inv(v, m) && legal(v, m) && m.next_call(v) is None,
        ensures
            final(self).setup() == old(self).setup(),
            old(self).becomes(Told::End, final(self)),
            forall|v: FstV<W>, m: Search<W>| #[trigger]
                old(self).inv(v, m) && legal(v, m) && m.next_call(v) is None ==> final(self).done(
                    v,
                    m,
                ),
    ;
}

/// Asking one more question of a legal search leaves it legal.
pub proof fn lemma_legal_step<W: Weight>(v: FstV<W>, m: Search<W>, ok: bool)
    requires
        legal(v, m),
        m.next_call(v) is Some,
    ensures
        legal(v, answered(v, m, ok)),
{
    let m2 = answered(v, m, ok);
    assert(m2.trace.drop_last() =~= m.trace);
}

/// What a search keeps to: who is where.
pub open spec fn search_wf<W: Weight>(v: FstV<W>, m: Search<W>) -> bool {
    &&& m.disc.no_duplicates()
    &&& m.fin.no_duplicates()
    &&& forall|i: int| 0 <= i < m.disc.len() ==> (#[trigger] m.disc[i]) < v.n()
    &&& forall|i: int| 0 <= i < m.fin.len() ==> m.disc.contains(#[trigger] m.fin[i])
    &&& forall|k: int| 0 <= k < m.stack.len() ==> frame_wf(v, m, #[trigger] m.stack[k])
    &&& forall|k: int, l: int|
        0 <= k < l < m.stack.len() ==> (#[trigger] m.stack[k]).num < (#[trigger] m.stack[l]).num
    &&& forall|i: int|
        0 <= i < m.disc.len() ==> m.fin.contains(#[trigger] m.disc[i]) || on_stack(m, m.disc[i])
    &&& forall|k: int| 0 <= k < m.stack.len() ==> linked(v, m, k)
    &&& m.stack.len() > 0 ==> m.stack[0].s == m.root
    &&& m.disc.len() > 0 ==> v.start == Some(m.disc[0])
    &&& m.pending matches Some(i) ==> {
        &&& m.stack.len() > 0
        &&& m.ok
        &&& i == next_arc(m.accept, v.arcs(m.stack.last().s as int), m.stack.last().next)
        &&& i < v.arcs(m.stack.last().s as int).len()
        &&& !m.disc.contains(v.arcs(m.stack.last().s as int)[i].nextstate)
    }
    &&& (m.disc.len() == 0 ==> m.ok && m.stack.len() == 0)
}

/// Whether `s` is discovered and unfinished.
pub open spec fn on_stack<W: Weight>(m: Search<W>, s: usize) -> bool {
    exists|k: int| 0 <= k < m.stack.len() && (#[trigger] m.stack[k]).s == s
}

/// What holds of each frame.
pub open spec fn frame_wf<W: Weight>(v: FstV<W>, m: Search<W>, f: Frame) -> bool {
    &&& 0 <= f.num < m.disc.len()
    &&& m.disc[f.num] == f.s
    &&& f.s < v.n()
    &&& !m.fin.contains(f.s)
    &&& 0 <= f.next <= v.arcs(f.s as int).len()
}

/// Whether a frame hangs off the one above it by the arc that one took last.
pub open spec fn linked<W: Weight>(v: FstV<W>, m: Search<W>, k: int) -> bool {
    if k == 0 {
        m.stack[k].parent is None
    } else {
        let p = m.stack[k - 1];
        &&& m.stack[k].parent == Some((p.s, p.next - 1))
        &&& 0 < p.next
        &&& v.arcs(p.s as int)[p.next - 1].nextstate == m.stack[k].s
        &&& (m.accept)(v.arcs(p.s as int)[p.next - 1])
    }
}

/// The next arc that is followed lies between where the search starts and the end.
pub proof fn lemma_next_arc<W: Weight>(
    accept: spec_fn(Arc<W>) -> bool,
    arcs: Seq<Arc<W>>,
    from: int,
)
    requires
        0 <= from <= arcs.len(),
    ensures
        from <= next_arc(accept, arcs, from) <= arcs.len(),
        next_arc(accept, arcs, from) < arcs.len() ==> accept(arcs[next_arc(accept, arcs, from)]),
        forall|j: int| from <= j < next_arc(accept, arcs, from) ==> !accept(#[trigger] arcs[j]),
    decreases arcs.len() - from,
{
    if from < arcs.len() && !accept(arcs[from]) {
        lemma_next_arc(accept, arcs, from + 1);
    }
}

/// The first number not in `disc` is the first.
pub proof fn lemma_first_white(disc: Seq<usize>, from: int, n: int)
    requires
        0 <= from <= n <= usize::MAX,
    ensures
        from <= first_white(disc, from, n) <= n,
        first_white(disc, from, n) < n ==> !disc.contains(first_white(disc, from, n) as usize),
        forall|j: int| from <= j < first_white(disc, from, n) ==> disc.contains(#[trigger] (j as usize)),
    decreases n - from,
{
    if from < n && disc.contains(from as usize) {
        lemma_first_white(disc, from + 1, n);
    }
}

/// Where every number before `from` is in `disc`, looking may begin at `from`.
pub proof fn lemma_first_white_skip(disc: Seq<usize>, from: int, n: int, at: int)
    requires
        0 <= from <= at <= n <= usize::MAX,
        forall|j: int| from <= j < at ==> disc.contains(#[trigger] (j as usize)),
    ensures
        first_white(disc, from, n) == first_white(disc, at, n),
    decreases at - from,
{
    if from < at {
        assert(disc.contains(from as usize));
        lemma_first_white_skip(disc, from + 1, n, at);
    }
}

proof fn lemma_push_contains<T>(s: Seq<T>, x: T)
    ensures
        forall|y: T| #[trigger] s.push(x).contains(y) <==> s.contains(y) || y == x,
{
    assert forall|y: T| s.contains(y) || y == x implies #[trigger] s.push(x).contains(y) by {
        if y == x {
            assert(s.push(x)[s.len() as int] == x);
        } else {
            let i = choose|i: int| 0 <= i < s.len() && s[i] == y;
            assert(s.push(x)[i] == y);
        }
    }
    assert forall|y: T| #[trigger] s.push(x).contains(y) implies s.contains(y) || y == x by {
        let i = choose|i: int| 0 <= i < s.push(x).len() && s.push(x)[i] == y;
        if i < s.len() {
            assert(s[i] == y);
        }
    }
}

proof fn lemma_wf_init<W: Weight>(v: FstV<W>, m: Search<W>, s: usize, root: usize, ok: bool)
    requires
        v.wf(),
        v.n() <= usize::MAX,
        search_wf(v, m),
        m.next_call(v) == Some(DfsCall::Init { s, root }),
    ensures
        search_wf(v, m.after(DfsCall::Init { s, root }, ok)),
        s < v.n(),
        !m.disc.contains(s),
        m.pending is None ==> s == root && m.stack.len() == 0,
        m.pending is Some ==> root == m.root,
        m.ok,
{
    let m2 = m.after(DfsCall::Init { s, root }, ok);
    lemma_push_contains(m.disc, s);
    if m.pending is None {
        if m.disc.len() > 0 {
            lemma_first_white(m.disc, 0, v.n() as int);
        }
    } else {
        let f = m.stack.last();
        lemma_next_arc(m.accept, v.arcs(f.s as int), f.next);
        let i = m.pending->0;
        assert(v.states[f.s as int].arcs[i].nextstate < v.n());
    }
    assert(s < v.n() && !m.disc.contains(s));
    assert(m2.disc.no_duplicates());
    assert forall|k: int| 0 <= k < m2.stack.len() implies frame_wf(v, m2, #[trigger] m2.stack[k]) by {
        if k < m.stack.len() {
            assert(frame_wf(v, m, m.stack[k]));
        } else {
            assert(m2.disc[m.disc.len() as int] == s);
            if m.fin.contains(s) {
                let j = choose|j: int| 0 <= j < m.fin.len() && m.fin[j] == s;
                assert(m.disc.contains(m.fin[j]));
            }
        }
    }
    assert forall|i: int| 0 <= i < m2.disc.len() implies m2.fin.contains(#[trigger] m2.disc[i])
        || on_stack(m2, m2.disc[i]) by {
        if i < m.disc.len() {
            if !m.fin.contains(m.disc[i]) {
                let k = choose|k: int| 0 <= k < m.stack.len() && (#[trigger] m.stack[k]).s == m.disc[i];
                assert(m2.stack[k].s == m.disc[i]);
            }
        } else {
            assert(m2.stack[m2.stack.len() - 1].s == s);
        }
    }
    assert forall|k: int| 0 <= k < m2.stack.len() implies linked(v, m2, k) by {
        if k < m.stack.len() {
            assert(linked(v, m, k));
        }
    }
}

proof fn lemma_wf_advance<W: Weight>(v: FstV<W>, m: Search<W>, m2: Search<W>, i: int)
    requires
        v.wf(),
        search_wf(v, m),
        m.pending is None,
        m.stack.len() > 0,
        i == next_arc(m.accept, v.arcs(m.stack.last().s as int), m.stack.last().next),
        i < v.arcs(m.stack.last().s as int).len(),
        m2 == (Search { trace: m2.trace, stack: m.advanced(i + 1), ok: m2.ok, ..m }),
    ensures
        search_wf(v, m2),
{
    let f = m.stack.last();
    lemma_next_arc(m.accept, v.arcs(f.s as int), f.next);
    assert forall|k: int| 0 <= k < m2.stack.len() implies frame_wf(v, m2, #[trigger] m2.stack[k]) by {
        assert(frame_wf(v, m, m.stack[k]));
    }
    assert forall|j: int| 0 <= j < m2.disc.len() implies m2.fin.contains(#[trigger] m2.disc[j])
        || on_stack(m2, m2.disc[j]) by {
        if !m.fin.contains(m.disc[j]) {
            let k = choose|k: int| 0 <= k < m.stack.len() && (#[trigger] m.stack[k]).s == m.disc[j];
            assert(m2.stack[k].s == m.disc[j]);
        }
    }
    assert forall|k: int| 0 <= k < m2.stack.len() implies linked(v, m2, k) by {
        assert(linked(v, m, k));
    }
}

proof fn lemma_wf_finish<W: Weight>(v: FstV<W>, m: Search<W>, ok: bool)
    requires
        v.wf(),
        search_wf(v, m),
        m.next_call(v) matches Some(DfsCall::Finish { .. }),
    ensures
        search_wf(v, answered(v, m, ok)),
{
    let m2 = answered(v, m, ok);
    let f = m.stack.last();
    lemma_push_contains(m.fin, f.s);
    assert(frame_wf(v, m, m.stack[m.stack.len() - 1]));
    assert(m.disc.contains(f.s));
    assert forall|k: int| 0 <= k < m2.stack.len() implies frame_wf(v, m2, #[trigger] m2.stack[k]) by {
        assert(frame_wf(v, m, m.stack[k]));
        assert(m.stack[k].num < m.stack[m.stack.len() - 1].num);
    }
    assert forall|j: int| 0 <= j < m2.disc.len() implies m2.fin.contains(#[trigger] m2.disc[j])
        || on_stack(m2, m2.disc[j]) by {
        if !m.fin.contains(m.disc[j]) {
            let k = choose|k: int| 0 <= k < m.stack.len() && (#[trigger] m.stack[k]).s == m.disc[j];
            if k < m2.stack.len() {
                assert(m2.stack[k].s == m.disc[j]);
            }
        }
    }
    assert forall|k: int| 0 <= k < m2.stack.len() implies linked(v, m2, k) by {
        assert(linked(v, m, k));
    }
}

/// Every search that can be is in order.
pub proof fn lemma_search_wf<W: Weight>(v: FstV<W>, m: Search<W>)
    requires
        legal(v, m),
        v.n() <= usize::MAX,
    ensures
        search_wf(v, m),
    decreases m.trace.len(),
{
    if m.trace.len() > 0 {
        let p = replay(m.accept, m.single, m.trace.drop_last());
        lemma_replay_trace::<W>(m.accept, m.single, m.trace.drop_last());
        lemma_search_wf(v, p);
        let call = m.trace.last().0;
        let ok = m.trace.last().1;
        assert(m == p.after(call, ok));
        match call {
            DfsCall::Init { s, root } => {
                lemma_wf_init(v, p, s, root, ok);
            },
            DfsCall::Tree { s, i } => {
                if !ok {
                    lemma_wf_advance(v, p, m, i);
                } else {
                    assert forall|k: int| 0 <= k < m.stack.len() implies linked(v, m, k) by {
                        assert(linked(v, p, k));
                    }
                    assert forall|k: int| 0 <= k < m.stack.len() implies frame_wf(
                        v,
                        m,
                        #[trigger] m.stack[k],
                    ) by {
                        assert(frame_wf(v, p, p.stack[k]));
                    }
                }
            },
            DfsCall::Back { s, i } => {
                lemma_wf_advance(v, p, m, i);
            },
            DfsCall::Cross { s, i } => {
                lemma_wf_advance(v, p, m, i);
            },
            DfsCall::Finish { s, parent } => {
                lemma_wf_finish(v, p, ok);
            },
        }
    }
}

/// A search that was answered as `trace` says remembers `trace`.
pub proof fn lemma_replay_trace<W: Weight>(
    accept: spec_fn(Arc<W>) -> bool,
    single: bool,
    trace: Seq<(DfsCall, bool)>,
)
    ensures
        replay::<W>(accept, single, trace).trace == trace,
        replay::<W>(accept, single, trace).accept == accept,
        replay::<W>(accept, single, trace).single == single,
    decreases trace.len(),
{
    if trace.len() > 0 {
        lemma_replay_trace::<W>(accept, single, trace.drop_last());
        assert(trace.drop_last().push(trace.last()) =~= trace);
        assert(trace.drop_last().push((trace.last().0, trace.last().1)) =~= trace);
    }
}

/// The deepest frame of a search whose vectors stand for `m`.
struct DfsState {
    state_id: usize,
    next: usize,
    entered_by: Option<(usize, usize)>,
}

/// Whether a state is undiscovered, discovered or finished.
#[derive(Clone, Copy, PartialEq, Eq, Structural)]
enum StateColor {
    /// Undiscovered.
    White,
    /// Discovered but unfinished.
    Grey,
    /// Finished.
    Black,
}

/// Whether a frame that is kept stands for a frame of the search.
spec fn stands_for<W: Weight>(
    v: FstV<W>,
    accept: spec_fn(Arc<W>) -> bool,
    d: DfsState,
    f: Frame,
) -> bool {
    &&& d.state_id == f.s
    &&& f.next <= d.next <= v.arcs(f.s as int).len()
    &&& next_arc(accept, v.arcs(f.s as int), d.next as int) == next_arc(
        accept,
        v.arcs(f.s as int),
        f.next,
    )
    &&& match (d.entered_by, f.parent) {
        (Some((p, i)), Some((q, j))) => p == q && i == j,
        (None, None) => true,
        _ => false,
    }
}

/// Whether what is kept stands for the search.
spec fn kept_for<W: Weight>(
    v: FstV<W>,
    m: Search<W>,
    color: Seq<StateColor>,
    stack: Seq<DfsState>,
) -> bool {
    &&& color.len() == v.n()
    &&& stack.len() == m.stack.len()
    &&& forall|s: int|
        0 <= s < color.len() ==> ((#[trigger] color[s]) == StateColor::White <==> !m.disc.contains(
            s as usize,
        ))
    &&& forall|s: int|
        0 <= s < color.len() ==> ((#[trigger] color[s]) == StateColor::Black <==> m.fin.contains(
            s as usize,
        ))
    &&& forall|k: int| 0 <= k < stack.len() ==> stands_for(
        v,
        m.accept,
        #[trigger] stack[k],
        m.stack[k],
    )
}

proof fn lemma_kept_push<W: Weight>(
    v: FstV<W>,
    m: Search<W>,
    color: Seq<StateColor>,
    stack: Seq<DfsState>,
    s: usize,
    root: usize,
    ok: bool,
    d: DfsState,
)
    requires
        v.wf(),
        v.n() <= usize::MAX,
        search_wf(v, m),
        m.next_call(v) == Some(DfsCall::Init { s, root }),
        color.len() == v.n(),
        stack.len() == m.stack.len(),
        forall|x: int|
            0 <= x < color.len() ==> ((#[trigger] color[x]) == StateColor::White
                <==> !m.disc.contains(x as usize)),
        forall|x: int|
            0 <= x < color.len() ==> ((#[trigger] color[x]) == StateColor::Black <==> m.fin.contains(
                x as usize,
            )),
        forall|k: int|
            0 <= k < stack.len() ==> stands_for(
                v,
                m.accept,
                #[trigger] stack[k],
                answered(v, m, ok).stack[k],
            ),
        d.state_id == s,
        d.next == 0,
        match (d.entered_by, m.pending) {
            (Some((p, i)), Some(j)) => p == m.stack.last().s && i == j,
            (None, None) => true,
            _ => false,
        },
    ensures
        kept_for(
            v,
            answered(v, m, ok),
            color.update(s as int, StateColor::Grey),
            stack.push(d),
        ),
{
    let m2 = answered(v, m, ok);
    lemma_wf_init(v, m, s, root, ok);
    lemma_push_contains(m.disc, s);
    if m.fin.contains(s) {
        let i = choose|i: int| 0 <= i < m.fin.len() && m.fin[i] == s;
        assert(m.disc.contains(m.fin[i]));
    }
    let color2 = color.update(s as int, StateColor::Grey);
    assert forall|x: int| 0 <= x < color2.len() implies ((#[trigger] color2[x]) == StateColor::White
        <==> !m2.disc.contains(x as usize)) by {
        assert(color[x] == StateColor::White <==> !m.disc.contains(x as usize));
    }
    assert forall|x: int| 0 <= x < color2.len() implies ((#[trigger] color2[x]) == StateColor::Black
        <==> m2.fin.contains(x as usize)) by {
        assert(color[x] == StateColor::Black <==> m.fin.contains(x as usize));
    }
    let stack2 = stack.push(d);
    assert forall|k: int| 0 <= k < stack2.len() implies stands_for(
        v,
        m2.accept,
        #[trigger] stack2[k],
        m2.stack[k],
    ) by {
        if k < stack.len() {
            assert(stands_for(v, m.accept, stack[k], m2.stack[k]));
        }
    }
}

proof fn lemma_kept_finish<W: Weight>(
    v: FstV<W>,
    m: Search<W>,
    color: Seq<StateColor>,
    stack: Seq<DfsState>,
    s: usize,
)
    requires
        v.n() <= usize::MAX,
        search_wf(v, m),
        kept_for(v, m, color, stack),
        m.next_call(v) matches Some(DfsCall::Finish { s: a, .. }) && a == s,
    ensures
        kept_for(
            v,
            answered(v, m, true),
            color.update(s as int, StateColor::Black),
            stack.drop_last(),
        ),
{
    let m2 = answered(v, m, true);
    lemma_push_contains(m.fin, s);
    assert(frame_wf(v, m, m.stack[m.stack.len() - 1]));
    assert(m.disc.contains(s));
    let color2 = color.update(s as int, StateColor::Black);
    assert forall|x: int| 0 <= x < color2.len() implies ((#[trigger] color2[x]) == StateColor::White
        <==> !m2.disc.contains(x as usize)) by {
        assert(color[x] == StateColor::White <==> !m.disc.contains(x as usize));
    }
    assert forall|x: int| 0 <= x < color2.len() implies ((#[trigger] color2[x]) == StateColor::Black
        <==> m2.fin.contains(x as usize)) by {
        assert(color[x] == StateColor::Black <==> m.fin.contains(x as usize));
    }
}

proof fn lemma_kept_advance<W: Weight>(
    v: FstV<W>,
    m: Search<W>,
    m2: Search<W>,
    color: Seq<StateColor>,
    stack: Seq<DfsState>,
    d: DfsState,
)
    requires
        kept_for(v, m, color, stack),
        stack.len() > 0,
        m2.disc == m.disc,
        m2.fin == m.fin,
        m2.accept == m.accept,
        m2.stack.len() == m.stack.len(),
        forall|k: int| 0 <= k < m.stack.len() - 1 ==> m2.stack[k] == m.stack[k],
        stands_for(v, m.accept, d, m2.stack.last()),
    ensures
        kept_for(v, m2, color, stack.update(stack.len() - 1, d)),
{
    let stack2 = stack.update(stack.len() - 1, d);
    assert forall|k: int| 0 <= k < stack2.len() implies stands_for(
        v,
        m2.accept,
        #[trigger] stack2[k],
        m2.stack[k],
    ) by {
        if k < stack.len() - 1 {
            assert(stands_for(v, m.accept, stack[k], m.stack[k]));
        }
    }
}

proof fn lemma_disc_len<W: Weight>(v: FstV<W>, m: Search<W>)
    requires
        search_wf(v, m),
    ensures
        m.disc.len() <= v.n(),
{
    let nums = m.disc.map_values(|s: usize| s as int);
    assert(nums.no_duplicates());
    nums.unique_seq_to_set();
    let all = vstd::set_lib::set_int_range(0, v.n() as int);
    vstd::set_lib::lemma_int_range(0, v.n() as int);
    assert forall|x: int| nums.to_set().contains(x) implies all.contains(x) by {
        let i = choose|i: int| 0 <= i < nums.len() && nums[i] == x;
        assert(m.disc[i] < v.n());
    }
    vstd::set_lib::lemma_len_subset(nums.to_set(), all);
}

/// Visits `fst` depth first, calling `visitor` as states and arcs are reached.
///
/// Only arcs `filter` accepts are followed. With `access_only`, the search
/// covers the states reachable from the initial state and stops; otherwise it
/// continues over the remaining trees of the search forest.
pub fn dfs_visit<W: Weight, V: DfsVisitor<W>, F: ArcFilter<W>>(
    fst: &VectorFst<W>,
    visitor: &mut V,
    filter: F,
    access_only: bool,
)
    requires
        fst@.wf(),
        old(visitor).ready(fst@),
    ensures
        final(visitor).setup() == old(visitor).setup(),
        exists|m: Search<W>|
            {
                &&& #[trigger] final(visitor).done(fst@, m)
                &&& legal(fst@, m)
                &&& m.next_call(fst@) is None
                &&& m.accept == (|arc: Arc<W>| filter.accepts(arc))
                &&& m.single == access_only
            },
{
    let ghost v = fst@;
    let ghost accept = |arc: Arc<W>| filter.accepts(arc);
    let ghost mut m = Search::<W>::initial(accept, access_only);
    let nstates: usize = fst.num_states();
    visitor.init_visit(fst);
    assert(visitor.inv(v, m));
    assert(legal(v, m));

    let mut root_idx: usize = match fst.start() {
        Some(start) => start,
        None => {
            visitor.finish_visit();
            return;
        },
    };
    let start_idx: usize = root_idx;

    let mut state_color: Vec<StateColor> = Vec::new();
    while state_color.len() < nstates
        invariant
            state_color@.len() <= nstates,
            forall|i: int|
                0 <= i < state_color@.len() ==> (#[trigger] state_color@[i]) == StateColor::White,
        decreases nstates - state_color@.len(),
    {
        state_color.push(StateColor::White);
    }
    let mut stack: Vec<DfsState> = Vec::new();
    let mut dfs: bool = true;

    while dfs && root_idx < nstates
        invariant_except_break
            m.disc.len() > 0 ==> !access_only && root_idx == first_white(m.disc, 0, v.n() as int),
        invariant
            v == fst@,
            v.wf(),
            nstates == v.n(),
            root_idx <= nstates,
            start_idx < nstates,
            v.start == Some(start_idx),
            visitor.inv(v, m),
            visitor.setup() == old(visitor).setup(),
            legal(v, m),
            m.accept == accept,
            accept == (|arc: Arc<W>| filter.accepts(arc)),
            m.single == access_only,
            m.ok == dfs,
            m.pending is None,
            m.stack.len() == 0,
            kept_for(v, m, state_color@, stack@),
            m.disc.len() == 0 ==> root_idx == start_idx && dfs,
        ensures
            visitor.inv(v, m),
            visitor.setup() == old(visitor).setup(),
            legal(v, m),
            m.accept == accept,
            m.single == access_only,
            m.next_call(v) is None,
        decreases nstates - m.disc.len(),
    {
        proof {
            lemma_search_wf(v, m);
            lemma_disc_len(v, m);
            lemma_wf_init(v, m, root_idx, root_idx, true);
            lemma_legal_step(v, m, true);
            lemma_legal_step(v, m, false);
        }
        let ghost before = m;
        assert(calls_init(v, m, root_idx, root_idx));
        let ghost color = state_color@;
        let ghost frames = stack@;
        state_color.set(root_idx, StateColor::Grey);
        stack.push(DfsState { state_id: root_idx, next: 0, entered_by: None });
        dfs = visitor.init_state(root_idx, root_idx);
        proof {
            lemma_kept_push(v, m, color, frames, root_idx, root_idx, dfs, stack@.last());
            m = answered(v, m, dfs);
        }

        while stack.len() > 0
            invariant
                v == fst@,
                v.wf(),
                nstates == v.n(),
                visitor.inv(v, m),
            visitor.setup() == old(visitor).setup(),
                legal(v, m),
                m.accept == accept,
                accept == (|arc: Arc<W>| filter.accepts(arc)),
                m.single == access_only,
                m.ok == dfs,
                m.pending is None,
                m.root == root_idx,
                kept_for(v, m, state_color@, stack@),
                m.disc.len() > before.disc.len(),
            decreases
                    nstates - m.disc.len(),
                    stack@.len(),
                    v.arcs(stack@.last().state_id as int).len() - stack@.last().next,
        {
            let top: usize = stack.len() - 1;
            let s: usize = stack[top].state_id;
            let i: usize = stack[top].next;
            let ghost prior = m;
            let ghost color = state_color@;
            let ghost frames = stack@;
            proof {
                lemma_search_wf(v, m);
                lemma_disc_len(v, m);
                assert(stands_for(v, m.accept, stack@[top as int], m.stack[top as int]));
                assert(frame_wf(v, m, m.stack[top as int]));
                lemma_next_arc(accept, v.arcs(s as int), i as int);
                if m.next_call(v) is Some {
                    lemma_legal_step(v, m, true);
                    lemma_legal_step(v, m, false);
                }
            }
            if !dfs || i >= fst.num_arcs(s) {
                state_color.set(s, StateColor::Black);
                let frame = stack.pop();
                let entered_by: Option<(usize, usize)> = match frame {
                    Some(f) => f.entered_by,
                    None => None,
                };
                match entered_by {
                    Some((parent, j)) => {
                        assert(linked(v, m, top as int));
                        assert(frame_wf(v, m, m.stack[top - 1]));
                        let arc = fst.arc(parent, j);
                        assert(calls_finish(v, m, s, Some(parent), Some(arc)));
                        visitor.finish_state(s, Some(parent), Some(arc));
                    },
                    None => {
                        assert(calls_finish(v, m, s, None, None));
                        visitor.finish_state(s, None, None);
                    },
                }
                proof {
                    lemma_kept_finish(v, m, color, frames, s);
                    assert(stack@ =~= frames.drop_last());
                    m = answered(v, m, true);
                }
            } else {
                let arc = fst.arc(s, i);
                let nextstate: usize = arc.nextstate;
                assert(v.states[s as int].arcs[i as int].nextstate < nstates);
                let state_id: usize = s;
                let entered_by: Option<(usize, usize)> = stack[top].entered_by;
                stack.set(top, DfsState { state_id, next: i + 1, entered_by });
                if !filter.call(arc) {
                    proof {
                        lemma_kept_advance(v, m, m, color, frames, stack@[top as int]);
                    }
                    continue;
                }
                assert(next_arc(accept, v.arcs(s as int), i as int) == i);
                match state_color[nextstate] {
                    StateColor::White => {
                        assert(calls_tree(v, m, s, *arc));
                        dfs = visitor.tree_arc(s, arc);
                        proof {
                            m = answered(v, m, dfs);
                        }
                        if dfs {
                            let ghost mid = stack@;
                            proof {
                                lemma_search_wf(v, m);
                                lemma_legal_step(v, m, true);
                                lemma_legal_step(v, m, false);
                            }
                            state_color.set(nextstate, StateColor::Grey);
                            stack.push(
                                DfsState {
                                    state_id: nextstate,
                                    next: 0,
                                    entered_by: Some((s, i)),
                                },
                            );
                            assert(calls_init(v, m, nextstate, root_idx));
                            dfs = visitor.init_state(nextstate, root_idx);
                            proof {
                                let m2 = answered(v, m, dfs);
                                assert forall|k: int| 0 <= k < mid.len() implies stands_for(
                                    v,
                                    m.accept,
                                    #[trigger] mid[k],
                                    m2.stack[k],
                                ) by {
                                    if k < top {
                                        assert(stands_for(v, m.accept, frames[k], prior.stack[k]));
                                    }
                                }
                                lemma_kept_push(
                                    v,
                                    m,
                                    color,
                                    mid,
                                    nextstate,
                                    root_idx,
                                    dfs,
                                    stack@.last(),
                                );
                                m = m2;
                                lemma_search_wf(v, m);
                                lemma_disc_len(v, m);
                            }
                        } else {
                            proof {
                                lemma_kept_advance(v, prior, m, color, frames, stack@[top as int]);
                            }
                        }
                    },
                    StateColor::Grey => {
                        assert(calls_back(v, m, s, *arc));
                        dfs = visitor.back_arc(s, arc);
                        proof {
                            m = answered(v, m, dfs);
                            lemma_kept_advance(v, prior, m, color, frames, stack@[top as int]);
                        }
                    },
                    StateColor::Black => {
                        assert(calls_cross(v, m, s, *arc));
                        dfs = visitor.forward_or_cross_arc(s, arc);
                        proof {
                            m = answered(v, m, dfs);
                            lemma_kept_advance(v, prior, m, color, frames, stack@[top as int]);
                        }
                    },
                }
            }
        }

        if access_only {
            break;
        }
        proof {
            lemma_search_wf(v, m);
            lemma_disc_len(v, m);
        }
        root_idx = 0;
        while root_idx < nstates && state_color[root_idx] != StateColor::White
            invariant
                v.n() == nstates,
                root_idx <= nstates,
                kept_for(v, m, state_color@, stack@),
                first_white(m.disc, 0, v.n() as int) == first_white(
                    m.disc,
                    root_idx as int,
                    v.n() as int,
                ),
            decreases nstates - root_idx,
        {
            root_idx = root_idx + 1;
        }
    }

    visitor.finish_visit();
}

/// Visits `fst` depth first, following every arc.
pub fn dfs_visit_any<W: Weight, V: DfsVisitor<W>>(fst: &VectorFst<W>, visitor: &mut V)
    requires
        fst@.wf(),
        old(visitor).ready(fst@),
    ensures
        final(visitor).setup() == old(visitor).setup(),
        exists|m: Search<W>|
            {
                &&& #[trigger] final(visitor).done(fst@, m)
                &&& legal(fst@, m)
                &&& m.next_call(fst@) is None
                &&& m.accept == any_arc::<W>()
                &&& !m.single
            },
{
    dfs_visit(fst, visitor, AnyArcFilter, false);
    assert((|arc: Arc<W>| AnyArcFilter.accepts(arc)) =~= any_arc::<W>());
}

/// A search of the whole forest that was not aborted visits every state.
pub proof fn law_whole_search_visits_all<W: Weight>(v: FstV<W>, m: Search<W>)
    requires
        legal(v, m),
        v.n() <= usize::MAX,
        m.next_call(v) is None,
        m.ok,
        !m.single,
    ensures
        v.start is Some ==> forall|s: usize| s < v.n() ==> #[trigger] m.disc.contains(s),
        v.start is None ==> m.disc.len() == 0,
{
    lemma_search_wf(v, m);
    lemma_first_white(m.disc, 0, v.n() as int);
    if v.start is Some {
        assert forall|s: usize| s < v.n() implies #[trigger] m.disc.contains(s) by {
            assert(m.disc.contains((s as int) as usize));
        }
    }
}

/// Every state is discovered at most once and finished at most once, and when
/// the search has ended, however it ended, the states discovered are the states
/// finished.
pub proof fn law_each_state_is_finished_once<W: Weight>(v: FstV<W>, m: Search<W>)
    requires
        legal(v, m),
        v.n() <= usize::MAX,
        m.next_call(v) is None,
    ensures
        m.disc.no_duplicates(),
        m.fin.no_duplicates(),
        forall|s: usize| #[trigger] m.disc.contains(s) <==> m.fin.contains(s),
{
    lemma_search_wf(v, m);
    assert forall|s: usize| #[trigger] m.disc.contains(s) <==> m.fin.contains(s) by {
        if m.disc.contains(s) {
            let i = choose|i: int| 0 <= i < m.disc.len() && m.disc[i] == s;
            assert(m.fin.contains(m.disc[i]) || on_stack(m, m.disc[i]));
        }
        if m.fin.contains(s) {
            let i = choose|i: int| 0 <= i < m.fin.len() && m.fin[i] == s;
            assert(m.disc.contains(m.fin[i]));
        }
    }
}

/// A state is finished only after everything discovered since it was.
pub proof fn law_finished_after_descendants<W: Weight>(v: FstV<W>, m: Search<W>, s: usize, i: int, j: int)
    requires
        legal(v, m),
        v.n() <= usize::MAX,
        m.next_call(v) matches Some(DfsCall::Finish { s: a, .. }) && a == s,
        0 <= i < j < m.disc.len(),
        m.disc[i] == s,
    ensures
        m.fin.contains(m.disc[j]),
{
    lemma_search_wf(v, m);
    let top = m.stack.len() - 1;
    assert(frame_wf(v, m, m.stack[top]));
    assert(m.disc[m.stack[top].num] == m.disc[i]);
    assert(m.fin.contains(m.disc[j]) || on_stack(m, m.disc[j]));
    if !m.fin.contains(m.disc[j]) {
        let k = choose|k: int| 0 <= k < m.stack.len() && (#[trigger] m.stack[k]).s == m.disc[j];
        assert(frame_wf(v, m, m.stack[k]));
        assert(m.disc[m.stack[k].num] == m.disc[j]);
        if k < top {
            assert(m.stack[k].num < m.stack[top].num);
        }
    }
}

/// Once aborted, a search asks nothing but to finish the states left on the
/// stack, deepest first.
pub proof fn law_aborting_unwinds<W: Weight>(v: FstV<W>, m: Search<W>)
    requires
        legal(v, m),
        v.n() <= usize::MAX,
        !m.ok,
    ensures
        m.stack.len() > 0 ==> m.next_call(v) == Some(
            DfsCall::Finish { s: m.stack.last().s, parent: m.stack.last().parent },
        ),
        m.stack.len() == 0 ==> m.next_call(v) is None,
{
    lemma_search_wf(v, m);
}

/// Two searches that were never told to stop and have asked equally often stand at the
/// same place.
proof fn lemma_searches_agree<W: Weight>(v: FstV<W>, a: Search<W>, b: Search<W>)
    requires
        legal(v, a),
        legal(v, b),
        v.n() <= usize::MAX,
        a.accept == b.accept,
        a.single == b.single,
        a.ok,
        b.ok,
        a.trace.len() == b.trace.len(),
    ensures
        b == (Search { trace: b.trace, ..a }),
    decreases a.trace.len(),
{
    if a.trace.len() > 0 {
        let p = replay(a.accept, a.single, a.trace.drop_last());
        let q = replay(b.accept, b.single, b.trace.drop_last());
        lemma_replay_trace::<W>(a.accept, a.single, a.trace.drop_last());
        lemma_replay_trace::<W>(b.accept, b.single, b.trace.drop_last());
        lemma_search_wf(v, p);
        lemma_search_wf(v, q);
        assert(p.ok && q.ok);
        lemma_searches_agree(v, p, q);
        assert(q.next_call(v) == p.next_call(v));
    }
}

/// A search that was never told to stop stood, when it had asked less often, at a place
/// that a search can stand at.
proof fn lemma_search_before<W: Weight>(v: FstV<W>, m: Search<W>, k: nat) -> (p: Search<W>)
    requires
        legal(v, m),
        v.n() <= usize::MAX,
        m.ok,
        k < m.trace.len(),
    ensures
        legal(v, p),
        p.accept == m.accept,
        p.single == m.single,
        p.ok,
        p.trace.len() == k,
        p.next_call(v) is Some,
    decreases m.trace.len(),
{
    let p = replay(m.accept, m.single, m.trace.drop_last());
    lemma_replay_trace::<W>(m.accept, m.single, m.trace.drop_last());
    lemma_search_wf(v, p);
    assert(p.ok);
    if k == m.trace.len() - 1 {
        p
    } else {
        lemma_search_before(v, p, k)
    }
}

/// There is one way to search a machine: two searches that follow the same arcs and were
/// never told to stop discover the same states in the same order, and finish them in the
/// same order.
pub proof fn law_one_way_to_search<W: Weight>(v: FstV<W>, a: Search<W>, b: Search<W>)
    requires
        legal(v, a),
        legal(v, b),
        v.n() <= usize::MAX,
        a.accept == b.accept,
        a.single == b.single,
        a.ok,
        b.ok,
        a.next_call(v) is None,
        b.next_call(v) is None,
    ensures
        a.disc == b.disc,
        a.fin == b.fin,
{
    if a.trace.len() < b.trace.len() {
        let p = lemma_search_before(v, b, a.trace.len());
        lemma_searches_agree(v, a, p);
        assert(p.next_call(v) == a.next_call(v));
    } else if b.trace.len() < a.trace.len() {
        let p = lemma_search_before(v, a, b.trace.len());
        lemma_searches_agree(v, b, p);
        assert(p.next_call(v) == b.next_call(v));
    } else {
        lemma_searches_agree(v, a, b);
    }
}

} // verus!
