//! Machines kept as a vector of states.
use crate::arc::Arc;
use crate::properties::{K_BINARY_PROPERTIES, K_EXPANDED, K_MUTABLE};
use crate::symbol_table::{share_symbols, SymbolTable};
use crate::weight::{is_final, spec_is_final, Weight};
use std::rc::Rc;
use vstd::prelude::*;

verus! {

/// A state as mathematics sees it.
#[verifier::ext_equal]
pub struct StateV<W> {
    /// What a path that ends here takes on; zero where none may end.
    pub final_weight: W,
    /// The arcs leaving, in order.
    pub arcs: Seq<Arc<W>>,
}

/// A machine as mathematics sees it.
#[verifier::ext_equal]
pub struct FstV<W> {
    /// Where paths begin.
    pub start: Option<usize>,
    /// The states, by number.
    pub states: Seq<StateV<W>>,
    /// The names of the labels read.
    pub isymbols: Option<Rc<SymbolTable>>,
    /// The names of the labels written.
    pub osymbols: Option<Rc<SymbolTable>>,
    /// What is known.
    pub props: u64,
}

impl<W: Weight> StateV<W> {
    /// A state with no arcs, where no path ends.
    pub open spec fn fresh() -> Self {
        StateV { final_weight: W::spec_zero(), arcs: Seq::empty() }
    }
}

impl<W: Weight> FstV<W> {
    /// A machine of no states.
    pub open spec fn empty() -> Self {
        FstV {
            start: None,
            states: Seq::empty(),
            isymbols: None,
            osymbols: None,
            props: K_EXPANDED | K_MUTABLE,
        }
    }

    /// The number of states.
    pub open spec fn n(self) -> nat {
        self.states.len()
    }

    /// The arcs leaving `s`.
    pub open spec fn arcs(self, s: int) -> Seq<Arc<W>> {
        self.states[s].arcs
    }

    /// What a path that ends in `s` takes on.
    pub open spec fn fin(self, s: int) -> W {
        self.states[s].final_weight
    }

    /// Whether a path may end in `s`.
    pub open spec fn is_final(self, s: int) -> bool {
        spec_is_final(self.states[s].final_weight)
    }

    /// Whether every state that is named is there.
    pub open spec fn wf(self) -> bool {
        &&& self.start matches Some(s) ==> s < self.n()
        &&& forall|s: int, i: int|
            0 <= s < self.n() && 0 <= i < self.states[s].arcs.len()
                ==> (#[trigger] self.states[s].arcs[i]).nextstate < self.n()
    }

    /// The same machine, with nothing known of it that could be true or false.
    pub open spec fn forget(self) -> Self {
        FstV { props: self.props & K_BINARY_PROPERTIES, ..self }
    }

    /// The machine with other states.
    pub open spec fn with_states(self, states: Seq<StateV<W>>) -> Self {
        FstV { states, ..self }.forget()
    }

    /// The machine with one state replaced.
    pub open spec fn with_state(self, s: int, state: StateV<W>) -> Self {
        self.with_states(self.states.update(s, state))
    }

    /// The machine with the arcs of one state replaced.
    pub open spec fn with_arcs(self, s: int, arcs: Seq<Arc<W>>) -> Self {
        self.with_state(s, StateV { arcs, ..self.states[s] })
    }

    /// The machine with the final weight of one state replaced.
    pub open spec fn with_final(self, s: int, w: W) -> Self {
        self.with_state(s, StateV { final_weight: w, ..self.states[s] })
    }

    /// The machine with one more state.
    pub open spec fn with_new_state(self) -> Self {
        self.with_states(self.states.push(StateV::fresh()))
    }

    /// The machine with another start.
    pub open spec fn with_start(self, s: Option<usize>) -> Self {
        FstV { start: s, ..self }.forget()
    }
}

/// How many of the first `n` flags are set.
pub open spec fn rank(keep: Seq<bool>, n: int) -> nat
    decreases n,
{
    if n <= 0 {
        0
    } else {
        rank(keep, n - 1) + (if keep[n - 1] { 1nat } else { 0nat })
    }
}

/// The first `n` of `arcs` that lead to a state that is kept, renumbered.
pub open spec fn kept_arcs<W>(arcs: Seq<Arc<W>>, keep: Seq<bool>, n: int) -> Seq<Arc<W>>
    decreases n,
{
    if n <= 0 {
        Seq::empty()
    } else if keep[arcs[n - 1].nextstate as int] {
        kept_arcs(arcs, keep, n - 1).push(
            Arc { nextstate: rank(keep, arcs[n - 1].nextstate as int) as usize, ..arcs[n - 1] },
        )
    } else {
        kept_arcs(arcs, keep, n - 1)
    }
}

/// The first `n` states, those that are kept, with the arcs among them.
pub open spec fn kept_states<W>(states: Seq<StateV<W>>, keep: Seq<bool>, n: int) -> Seq<StateV<W>>
    decreases n,
{
    if n <= 0 {
        Seq::empty()
    } else if keep[n - 1] {
        kept_states(states, keep, n - 1).push(
            StateV {
                final_weight: states[n - 1].final_weight,
                arcs: kept_arcs(states[n - 1].arcs, keep, states[n - 1].arcs.len() as int),
            },
        )
    } else {
        kept_states(states, keep, n - 1)
    }
}

/// The start, if it is kept, renumbered.
pub open spec fn kept_start(start: Option<usize>, keep: Seq<bool>) -> Option<usize> {
    match start {
        Some(s) => if keep[s as int] {
            Some(rank(keep, s as int) as usize)
        } else {
            None
        },
        None => None,
    }
}

/// The part of a machine that the kept states span.
pub open spec fn restricted<W: Weight>(v: FstV<W>, keep: Seq<bool>) -> FstV<W> {
    FstV {
        start: kept_start(v.start, keep),
        states: kept_states(v.states, keep, v.n() as int),
        ..v
    }.forget()
}

/// Counting further never counts less.
pub proof fn lemma_rank_monotone(keep: Seq<bool>, a: int, b: int)
    requires
        0 <= a <= b,
    ensures
        rank(keep, a) <= rank(keep, b),
        rank(keep, b) - rank(keep, a) <= b - a,
    decreases b,
{
    if a < b {
        lemma_rank_monotone(keep, a, b - 1);
    }
}

/// There are as many kept states as there are flags set.
pub proof fn lemma_kept_states_len<W>(states: Seq<StateV<W>>, keep: Seq<bool>, n: int)
    requires
        0 <= n <= keep.len(),
    ensures
        kept_states(states, keep, n).len() == rank(keep, n),
    decreases n,
{
    if n > 0 {
        lemma_kept_states_len(states, keep, n - 1);
    }
}

/// A state of a machine.
#[derive(Debug)]
pub struct VectorState<W> {
    final_weight: W,
    arcs: Vec<Arc<W>>,
}

impl<W> View for VectorState<W> {
    type V = StateV<W>;

    closed spec fn view(&self) -> StateV<W> {
        StateV { final_weight: self.final_weight, arcs: self.arcs@ }
    }
}

/// Whether every weight of a machine is in the semiring.
pub open spec fn all_members<W: Weight>(v: FstV<W>) -> bool {
    forall|s: int| 0 <= s < v.n() ==> state_is_member(#[trigger] v.states[s])
}

/// Whether every weight of a state is in the semiring.
pub open spec fn state_is_member<W: Weight>(state: StateV<W>) -> bool {
    &&& state.final_weight.spec_member()
    &&& forall|i: int| 0 <= i < state.arcs.len() ==> (#[trigger] state.arcs[i]).weight.spec_member()
}

/// A machine kept as a vector of states.
#[derive(Debug)]
pub struct VectorFst<W> {
    start: Option<usize>,
    states: Vec<VectorState<W>>,
    isymbols: Option<Rc<SymbolTable>>,
    osymbols: Option<Rc<SymbolTable>>,
    props: u64,
}

impl<W> View for VectorFst<W> {
    type V = FstV<W>;

    closed spec fn view(&self) -> FstV<W> {
        FstV {
            start: self.start,
            states: Seq::new(self.states@.len(), |i: int| self.states@[i]@),
            isymbols: self.isymbols,
            osymbols: self.osymbols,
            props: self.props,
        }
    }
}

impl<W: Weight> VectorFst<W> {
    /// A machine of no states.
    pub fn new() -> (fst: Self)
        ensures
            fst@ == FstV::<W>::empty(),
    {
        let fst = VectorFst {
            start: None,
            states: Vec::new(),
            isymbols: None,
            osymbols: None,
            props: K_EXPANDED | K_MUTABLE,
        };
        assert(fst@.states =~= Seq::empty());
        fst
    }

    /// The number of states.
    pub fn num_states(&self) -> (n: usize)
        ensures
            n == self@.n(),
    {
        self.states.len()
    }

    /// Where paths begin.
    pub fn start(&self) -> (s: Option<usize>)
        ensures
            s == self@.start,
    {
        self.start
    }

    /// The arcs leaving `s`, in order.
    pub fn arcs(&self, s: usize) -> (arcs: &Vec<Arc<W>>)
        requires
            s < self@.n(),
        ensures
            arcs@ == self@.arcs(s as int),
    {
        &self.states[s].arcs
    }

    /// The number of arcs leaving `s`.
    pub fn num_arcs(&self, s: usize) -> (n: usize)
        requires
            s < self@.n(),
        ensures
            n == self@.arcs(s as int).len(),
    {
        self.states[s].arcs.len()
    }

    /// A state has no more arcs than can be counted.
    pub proof fn lemma_arcs_are_counted(&self)
        ensures
            forall|s: int|
                0 <= s < self@.n() ==> (#[trigger] self@.states[s]).arcs.len() <= usize::MAX,
    {
        assert forall|s: int| 0 <= s < self@.n() implies (#[trigger] self@.states[s]).arcs.len()
            <= usize::MAX by {
            assert(self.states@[s].arcs@.len() == self.states@[s].arcs.len());
        }
    }

    /// The `i`th arc leaving `s`.
    pub fn arc(&self, s: usize, i: usize) -> (arc: &Arc<W>)
        requires
            s < self@.n(),
            i < self@.arcs(s as int).len(),
        ensures
            *arc == self@.arcs(s as int)[i as int],
    {
        &self.states[s].arcs[i]
    }

    /// What a path that ends in `s` takes on.
    pub fn final_weight(&self, s: usize) -> (w: W)
        requires
            s < self@.n(),
        ensures
            w == self@.fin(s as int),
    {
        self.states[s].final_weight.duplicate()
    }

    /// Whether a path may end in `s`.
    pub fn is_final(&self, s: usize) -> (b: bool)
        requires
            s < self@.n(),
        ensures
            b == self@.is_final(s as int),
    {
        is_final(&self.states[s].final_weight)
    }

    /// Adds a state with no arcs, where no path ends, and returns its number.
    pub fn add_state(&mut self) -> (s: usize)
        ensures
            s == old(self)@.n(),
            final(self)@ == old(self)@.with_new_state(),
    {
        let s: usize = self.states.len();
        self.states.push(VectorState { final_weight: W::zero(), arcs: Vec::new() });
        self.props = self.props & K_BINARY_PROPERTIES;
        assert(self@.states =~= old(self)@.states.push(StateV::fresh()));
        s
    }

    /// Adds `n` states.
    pub fn add_states(&mut self, n: usize)
        ensures
            final(self)@ == old(self)@.with_states(
                old(self)@.states + Seq::new(n as nat, |i: int| StateV::<W>::fresh()),
            ),
    {
        let mut i: usize = 0;
        self.props = self.props & K_BINARY_PROPERTIES;
        assert(self@.states =~= old(self)@.states + Seq::new(0, |j: int| StateV::<W>::fresh()));
        proof {
            lemma_forget_forget(old(self)@);
        }
        while i < n
            invariant
                i <= n,
                self@ == old(self)@.with_states(
                    old(self)@.states + Seq::new(i as nat, |j: int| StateV::<W>::fresh()),
                ),
            decreases n - i,
        {
            let ghost before = self@;
            self.add_state();
            i = i + 1;
            assert(self@.states =~= old(self)@.states + Seq::new(
                i as nat,
                |j: int| StateV::<W>::fresh(),
            ));
            proof {
                lemma_forget_forget(before);
                lemma_forget_forget(old(self)@);
            }
        }
    }

    /// Forgets all that is known and could be true or false.
    pub fn forget_properties(&mut self)
        ensures
            final(self)@ == old(self)@.forget(),
    {
        self.props = self.props & K_BINARY_PROPERTIES;
        assert(self@.states =~= old(self)@.states);
    }

    /// Makes paths begin in `s`.
    pub fn set_start(&mut self, s: usize)
        ensures
            final(self)@ == old(self)@.with_start(Some(s)),
    {
        self.start = Some(s);
        self.props = self.props & K_BINARY_PROPERTIES;
        assert(self@.states =~= old(self)@.states);
    }

    /// Makes a path that ends in `s` take on `w`.
    pub fn set_final(&mut self, s: usize, w: W)
        requires
            s < old(self)@.n(),
        ensures
            final(self)@ == old(self)@.with_final(s as int, w),
    {
        self.states[s].final_weight = w;
        self.props = self.props & K_BINARY_PROPERTIES;
        assert(self@.states =~= old(self)@.with_final(s as int, w).states);
    }

    /// Adds an arc leaving `s`, after the others.
    pub fn add_arc(&mut self, s: usize, arc: Arc<W>)
        requires
            s < old(self)@.n(),
        ensures
            final(self)@ == old(self)@.with_arcs(s as int, old(self)@.arcs(s as int).push(arc)),
    {
        self.states[s].arcs.push(arc);
        self.props = self.props & K_BINARY_PROPERTIES;
        assert(self@.states =~= old(self)@.with_arcs(
            s as int,
            old(self)@.arcs(s as int).push(arc),
        ).states);
    }

    /// Replaces the arcs leaving `s`.
    pub fn set_arcs(&mut self, s: usize, arcs: Vec<Arc<W>>)
        requires
            s < old(self)@.n(),
        ensures
            final(self)@ == old(self)@.with_arcs(s as int, arcs@),
    {
        self.states[s].arcs = arcs;
        self.props = self.props & K_BINARY_PROPERTIES;
        assert(self@.states =~= old(self)@.with_arcs(s as int, arcs@).states);
    }

    /// Removes the arcs leaving `s`.
    pub fn delete_arcs(&mut self, s: usize)
        requires
            s < old(self)@.n(),
        ensures
            final(self)@ == old(self)@.with_arcs(s as int, Seq::empty()),
    {
        self.set_arcs(s, Vec::new());
    }

    /// Removes every state. The symbol tables stay.
    pub fn delete_all_states(&mut self)
        ensures
            final(self)@ == (FstV { start: None, states: Seq::empty(), ..old(self)@ }).forget(),
    {
        self.start = None;
        self.states = Vec::new();
        self.props = self.props & K_BINARY_PROPERTIES;
        assert(self@.states =~= Seq::empty());
    }

    /// Removes the listed states and every arc that leads to one of them. The
    /// others move down to fill the gaps.
    pub fn delete_states(&mut self, dead: &Vec<usize>)
        requires
            old(self)@.wf(),
        ensures
            final(self)@ == restricted(
                old(self)@,
                Seq::new(old(self)@.n(), |s: int| !dead@.contains(s as usize)),
            ),
    {
        let n: usize = self.states.len();
        let mut keep: Vec<bool> = Vec::new();
        while keep.len() < n
            invariant
                keep@.len() <= n,
                forall|j: int| 0 <= j < keep@.len() ==> keep@[j],
            decreases n - keep@.len(),
        {
            keep.push(true);
        }
        let mut i: usize = 0;
        while i < dead.len()
            invariant
                i <= dead@.len(),
                keep@.len() == n,
                forall|j: int|
                    0 <= j < n ==> (#[trigger] keep@[j]) == !dead@.take(i as int).contains(j as usize),
            decreases dead@.len() - i,
        {
            let ghost before = keep@;
            if dead[i] < n {
                keep.set(dead[i], false);
            }
            assert forall|j: int| 0 <= j < n implies (#[trigger] keep@[j]) == !dead@.take(
                i + 1,
            ).contains(j as usize) by {
                assert(dead@.take(i + 1) =~= dead@.take(i as int).push(dead@[i as int]));
                if dead@.take(i as int).contains(j as usize) {
                    let k = choose|k: int|
                        0 <= k < dead@.take(i as int).len() && dead@.take(i as int)[k] == j as usize;
                    assert(dead@.take(i + 1)[k] == j as usize);
                }
                if dead@[i as int] == j {
                    assert(dead@.take(i + 1)[i as int] == j as usize);
                }
                if dead@.take(i + 1).contains(j as usize) {
                    let k = choose|k: int|
                        0 <= k < dead@.take(i + 1).len() && #[trigger] dead@.take(i + 1)[k] == j as usize;
                    if k < i {
                        assert(dead@.take(i as int)[k] == j as usize);
                    }
                }
                assert(before[j] == !dead@.take(i as int).contains(j as usize));
            }
            i = i + 1;
        }
        assert(dead@.take(dead@.len() as int) =~= dead@);
        assert(keep@ =~= Seq::new(self@.n(), |s: int| !dead@.contains(s as usize)));
        self.restrict(&keep);
    }

    /// Keeps the flagged states and the arcs among them.
    pub fn restrict(&mut self, keep: &Vec<bool>)
        requires
            old(self)@.wf(),
            keep@.len() == old(self)@.n(),
        ensures
            final(self)@ == restricted(old(self)@, keep@),
    {
        let n: usize = self.states.len();
        let mut to: Vec<usize> = Vec::new();
        let mut kept: usize = 0;
        let mut s: usize = 0;
        while s < n
            invariant
                s <= n,
                n == keep@.len(),
                to@.len() == s,
                kept == rank(keep@, s as int),
                kept <= s,
                forall|j: int| 0 <= j < s ==> (#[trigger] to@[j]) == rank(keep@, j),
            decreases n - s,
        {
            to.push(kept);
            if keep[s] {
                kept = kept + 1;
            }
            s = s + 1;
        }
        let mut states: Vec<VectorState<W>> = Vec::new();
        s = 0;
        while s < n
            invariant
                s <= n,
                n == keep@.len(),
                n == to@.len(),
                n == self@.n(),
                self@ == old(self)@,
                self@.wf(),
                forall|j: int| 0 <= j < n ==> (#[trigger] to@[j]) == rank(keep@, j),
                Seq::new(states@.len(), |i: int| states@[i]@) == kept_states(
                    self@.states,
                    keep@,
                    s as int,
                ),
            decreases n - s,
        {
            if keep[s] {
                let mut arcs: Vec<Arc<W>> = Vec::new();
                let from = &self.states[s].arcs;
                let mut i: usize = 0;
                while i < from.len()
                    invariant
                        s < n,
                        n == keep@.len(),
                        n == to@.len(),
                        n == self@.n(),
                        i <= from@.len(),
                        self@.wf(),
                        from@ == self@.states[s as int].arcs,
                        forall|j: int| 0 <= j < n ==> (#[trigger] to@[j]) == rank(keep@, j),
                        arcs@ == kept_arcs(from@, keep@, i as int),
                    decreases from@.len() - i,
                {
                    let next: usize = from[i].nextstate;
                    assert(self@.states[s as int].arcs[i as int].nextstate < n);
                    if keep[next] {
                        assert(to@[next as int] == rank(keep@, next as int));
                        arcs.push(from[i].redirected(to[next]));
                    }
                    i = i + 1;
                }
                let final_weight = self.states[s].final_weight.duplicate();
                let ghost before = states@;
                states.push(VectorState { final_weight, arcs });
                assert(Seq::new(states@.len(), |i: int| states@[i]@) =~= kept_states(
                    self@.states,
                    keep@,
                    s + 1,
                )) by {
                    assert(Seq::new(states@.len(), |i: int| states@[i]@).drop_last() =~= Seq::new(
                        before.len(),
                        |i: int| before[i]@,
                    ));
                }
            }
            s = s + 1;
        }
        let start: Option<usize> = match self.start {
            Some(s0) => if keep[s0] {
                Some(to[s0])
            } else {
                None
            },
            None => None,
        };
        self.start = start;
        self.states = states;
        self.props = self.props & K_BINARY_PROPERTIES;
        assert(self@.states =~= kept_states(old(self)@.states, keep@, n as int));
    }

    /// The names of the labels read.
    pub fn input_symbols(&self) -> (symbols: Option<Rc<SymbolTable>>)
        ensures
            symbols == self@.isymbols,
    {
        share_symbols(&self.isymbols)
    }

    /// The names of the labels written.
    pub fn output_symbols(&self) -> (symbols: Option<Rc<SymbolTable>>)
        ensures
            symbols == self@.osymbols,
    {
        share_symbols(&self.osymbols)
    }

    /// Names the labels read.
    pub fn set_input_symbols(&mut self, symbols: Option<Rc<SymbolTable>>)
        ensures
            final(self)@ == (FstV { isymbols: symbols, ..old(self)@ }),
    {
        self.isymbols = symbols;
        assert(self@.states =~= old(self)@.states);
    }

    /// Names the labels written.
    pub fn set_output_symbols(&mut self, symbols: Option<Rc<SymbolTable>>)
        ensures
            final(self)@ == (FstV { osymbols: symbols, ..old(self)@ }),
    {
        self.osymbols = symbols;
        assert(self@.states =~= old(self)@.states);
    }

    /// The bits of `mask` that are known to hold.
    pub fn known_properties(&self, mask: u64) -> (props: u64)
        ensures
            props == self@.props & mask,
    {
        self.props & mask
    }

    /// Records what holds, for the bits of `mask`. An error once recorded stays.
    pub fn set_properties(&mut self, props: u64, mask: u64)
        ensures
            final(self)@ == (FstV { props: set_bits(old(self)@.props, props, mask), ..old(self)@ }),
    {
        self.props = (self.props & (!mask | crate::properties::K_ERROR)) | (props & mask);
        assert(self@.states =~= old(self)@.states);
    }

    /// A machine equal to this one.
    pub fn duplicate(&self) -> (fst: Self)
        ensures
            fst@ == self@,
    {
        let mut states: Vec<VectorState<W>> = Vec::new();
        let mut s: usize = 0;
        while s < self.states.len()
            invariant
                s <= self.states@.len(),
                states@.len() == s,
                forall|j: int| 0 <= j < s ==> (#[trigger] states@[j])@ == self@.states[j],
            decreases self.states@.len() - s,
        {
            let from = &self.states[s];
            let arcs = duplicate_arcs(&from.arcs);
            states.push(VectorState { final_weight: from.final_weight.duplicate(), arcs });
            s = s + 1;
        }
        let fst = VectorFst {
            start: self.start,
            states,
            isymbols: share_symbols(&self.isymbols),
            osymbols: share_symbols(&self.osymbols),
            props: self.props,
        };
        assert(fst@.states =~= self@.states);
        fst
    }
}

/// `props` where `mask` is set, what was known elsewhere. An error stays.
pub open spec fn set_bits(known: u64, props: u64, mask: u64) -> u64 {
    (known & (!mask | crate::properties::K_ERROR)) | (props & mask)
}

/// Forgetting twice is forgetting once.
pub proof fn lemma_forget_forget<W: Weight>(v: FstV<W>)
    ensures
        v.forget().forget() == v.forget(),
{
    let p: u64 = v.props;
    let m: u64 = K_BINARY_PROPERTIES;
    assert((p & m) & m == p & m) by (bit_vector);
}

/// Arcs equal to the given ones.
pub fn duplicate_arcs<W: Weight>(from: &Vec<Arc<W>>) -> (arcs: Vec<Arc<W>>)
    ensures
        arcs@ == from@,
{
    let mut arcs: Vec<Arc<W>> = Vec::new();
    let mut i: usize = 0;
    while i < from.len()
        invariant
            i <= from@.len(),
            arcs@ =~= from@.take(i as int),
        decreases from@.len() - i,
    {
        arcs.push(from[i].duplicate());
        i = i + 1;
    }
    arcs
}

/// A machine of no states, in the place of `o`, that names its labels as `v` does.
pub open spec fn named_after<W: Weight, X: Weight>(v: FstV<W>, o: FstV<X>) -> FstV<X> {
    FstV {
        start: None,
        states: Seq::empty(),
        isymbols: v.isymbols,
        osymbols: v.osymbols,
        props: o.props,
    }.forget()
}

/// Copies the states of `from` into `ofst`, which has none.
pub fn copy_states<W: Weight>(from: &VectorFst<W>, ofst: &mut VectorFst<W>)
    requires
        old(ofst)@.n() == 0,
        old(ofst)@.start is None,
        old(ofst)@ == old(ofst)@.forget(),
    ensures
        final(ofst)@ == (FstV { start: from@.start, states: from@.states, ..old(ofst)@ }),
{
    let ghost o = ofst@;
    let n: usize = from.num_states();
    let mut s: usize = 0;
    assert(ofst@.states =~= from@.states.take(0));
    while s < n
        invariant
            s <= n,
            n == from@.n(),
            o == o.forget(),
            o.start is None,
            ofst@ == (FstV { states: from@.states.take(s as int), ..o }),
        decreases n - s,
    {
        let ghost now = ofst@;
        let at: usize = ofst.add_state();
        ofst.set_final(at, from.final_weight(s));
        ofst.set_arcs(at, duplicate_arcs(from.arcs(s)));
        proof {
            lemma_forget_forget(o);
            assert(ofst@.states =~= from@.states.take(s + 1)) by {
                assert(ofst@.states[s as int] == from@.states[s as int]);
            }
        }
        s = s + 1;
    }
    if let Some(start) = from.start() {
        ofst.set_start(start);
    }
    assert(from@.states.take(n as int) =~= from@.states);
}

/// Makes `ofst` a copy of `ifst`, state for state.
pub fn copy_fst<W: Weight>(ifst: &VectorFst<W>, ofst: &mut VectorFst<W>)
    ensures
        final(ofst)@ == (FstV {
            start: ifst@.start,
            states: ifst@.states,
            ..named_after(ifst@, old(ofst)@)
        }),
{
    ofst.delete_all_states();
    ofst.set_input_symbols(ifst.input_symbols());
    ofst.set_output_symbols(ifst.output_symbols());
    proof {
        lemma_forget_forget(old(ofst)@);
        lemma_forget_forget(ofst@);
        assert(ofst@ == named_after(ifst@, old(ofst)@));
    }
    copy_states(ifst, ofst);
}

} // verus!
