//! Rewriting every arc of a machine through a mapper.
//!
//! A great many operations amount to "do the same thing to each arc": invert the
//! weights, drop them, quantize them, make the input side epsilon. This is the
//! shape they all share. What varies between them is a [`ArcMapper`], and what
//! makes the pattern non-trivial is the final weights: some mappings turn a final
//! weight into something a machine cannot store as a final weight, and then a
//! superfinal state is needed.
use crate::arc::{Arc, EPSILON, NO_STATE};
use crate::error::OpenFstError;
use crate::properties::{
    project_properties, spec_project_properties, K_ADD_SUPER_FINAL_PROPERTIES, K_COPY_PROPERTIES,
    K_FST_PROPERTIES, K_I_EPSILONS, K_I_LABEL_SORTED, K_O_EPSILONS, K_O_LABEL_SORTED,
    K_SET_ARC_PROPERTIES, K_UNWEIGHTED, K_WEIGHT_INVARIANT_PROPERTIES,
};
use crate::vector_fst::{lemma_forget_forget, set_bits, FstV, StateV, VectorFst};
use crate::weight::{Divide, DivideType, Reversible, Weight};
use vstd::prelude::*;
use vstd::std_specs::convert::FromSpec;

verus! {

/// What a mapper needs done about final weights.
#[derive(Debug, Clone, Copy, PartialEq, Eq, Structural)]
pub enum MapFinalAction {
    /// The mapped final weight is still a final weight. A mapper that could
    /// produce labels here is a mistake.
    NoSuperfinal,
    /// The mapped final weight may come out as an arc, in which case it goes
    /// to a superfinal state, added only if some state actually needs it.
    AllowSuperfinal,
    /// The mapped final weight always goes to a superfinal state, which is
    /// therefore always added.
    RequireSuperfinal,
}

/// What a mapper needs done about symbol tables.
#[derive(Debug, Clone, Copy, PartialEq, Eq, Structural)]
pub enum MapSymbolsAction {
    /// The mapping changes what the labels mean, so the tables are dropped.
    Clear,
    /// The labels keep their meanings, so the tables carry over.
    Copy,
    /// The mapper sets them itself.
    Noop,
}

/// Turns one arc into another.
///
/// A final weight is offered as an arc `(epsilon, epsilon, weight, no_state)`,
/// and what the mapper does with it is governed by
/// [`final_action`](Self::final_action).
///
/// A mapper may change as it maps; its model says what matters of it.
pub trait ArcMapper<A: Weight, B: Weight> {
    /// What matters of a mapper.
    type Model;

    /// Whether the mapper is in order.
    spec fn wf(&self) -> bool;

    /// What matters of the mapper.
    spec fn model(&self) -> Self::Model;

    /// What an arc becomes.
    spec fn mapped(m: Self::Model, arc: Arc<A>) -> Arc<B>;

    /// What the mapper becomes when it maps an arc.
    spec fn moved(m: Self::Model, arc: Arc<A>) -> Self::Model;

    /// What to do about final weights.
    spec fn spec_final_action(m: Self::Model) -> MapFinalAction;

    /// What to do about the input symbol table.
    spec fn spec_input_symbols_action(m: Self::Model) -> MapSymbolsAction;

    /// What to do about the output symbol table.
    spec fn spec_output_symbols_action(m: Self::Model) -> MapSymbolsAction;

    /// The properties the result has, given those of the input.
    spec fn spec_properties(m: Self::Model, props: u64) -> u64;

    /// Maps one arc.
    fn map(&mut self, arc: &Arc<A>) -> (to: Arc<B>)
        requires
            old(self).wf(),
        ensures
            final(self).wf(),
            to == Self::mapped(old(self).model(), *arc),
            final(self).model() == Self::moved(old(self).model(), *arc),
    ;

    /// What to do about final weights.
    fn final_action(&self) -> (action: MapFinalAction)
        requires
            self.wf(),
        ensures
            action == Self::spec_final_action(self.model()),
    ;

    /// What to do about the input symbol table.
    fn input_symbols_action(&self) -> (action: MapSymbolsAction)
        requires
            self.wf(),
        ensures
            action == Self::spec_input_symbols_action(self.model()),
    ;

    /// What to do about the output symbol table.
    fn output_symbols_action(&self) -> (action: MapSymbolsAction)
        requires
            self.wf(),
        ensures
            action == Self::spec_output_symbols_action(self.model()),
    ;

    /// The properties the result has, given those of the input.
    fn properties(&self, props: u64) -> (out: u64)
        requires
            self.wf(),
        ensures
            out == Self::spec_properties(self.model(), props),
    ;
}

/// What the first `k` of `arcs` become, one after the other, and what the mapper
/// becomes.
pub open spec fn map_arcs<A: Weight, B: Weight, M: ArcMapper<A, B>>(
    m: M::Model,
    arcs: Seq<Arc<A>>,
    k: int,
) -> (M::Model, Seq<Arc<B>>)
    decreases k,
{
    if k <= 0 {
        (m, Seq::empty())
    } else {
        let (p, done) = map_arcs::<A, B, M>(m, arcs, k - 1);
        (M::moved(p, arcs[k - 1]), done.push(M::mapped(p, arcs[k - 1])))
    }
}

/// A final weight, offered to a mapper in the shape of an arc.
pub open spec fn final_arc<A: Weight>(weight: A) -> Arc<A> {
    Arc { ilabel: EPSILON, olabel: EPSILON, weight, nextstate: NO_STATE }
}

/// A final weight, offered to a mapper in the shape of an arc.
fn final_as_arc<A: Weight>(weight: A) -> (arc: Arc<A>)
    ensures
        arc == final_arc(weight),
{
    Arc { ilabel: EPSILON, olabel: EPSILON, weight, nextstate: NO_STATE }
}

/// Whether a mapped final weight came back as something that has to become an
/// arc rather than a final weight.
pub open spec fn is_labelled<B: Weight>(arc: Arc<B>) -> bool {
    arc.ilabel != EPSILON || arc.olabel != EPSILON
}

/// Whether a mapped final weight came back as something that has to become an
/// arc rather than a final weight.
fn became_an_arc<B: Weight>(arc: &Arc<B>) -> (b: bool)
    ensures
        b == is_labelled(*arc),
{
    arc.ilabel != EPSILON || arc.olabel != EPSILON
}

/// How far a machine has been mapped.
#[verifier::reject_recursive_types(M)]
#[verifier::reject_recursive_types(B)]
pub struct Mapping<M, B> {
    /// What the mapper has become.
    pub model: M,
    /// The states that are done.
    pub done: Seq<StateV<B>>,
    /// Whether there is a superfinal state.
    pub superfinal: bool,
    /// The mapped arcs of the state whose final weight could not be placed.
    pub failed: Option<Seq<Arc<B>>>,
}

/// What mapping the states below `k` comes to, where a superfinal state would be
/// numbered `top`.
pub open spec fn map_states<A: Weight, B: Weight, M: ArcMapper<A, B>>(
    m: M::Model,
    states: Seq<StateV<A>>,
    top: usize,
    k: int,
) -> Mapping<M::Model, B>
    decreases k,
{
    let action = M::spec_final_action(m);
    if k <= 0 {
        Mapping {
            model: m,
            done: Seq::empty(),
            superfinal: action == MapFinalAction::RequireSuperfinal,
            failed: None,
        }
    } else {
        let p = map_states::<A, B, M>(m, states, top, k - 1);
        if p.failed is Some {
            p
        } else {
            let s = states[k - 1];
            let (q, arcs) = map_arcs::<A, B, M>(p.model, s.arcs, s.arcs.len() as int);
            let last = M::mapped(q, final_arc(s.final_weight));
            let model = M::moved(q, final_arc(s.final_weight));
            let zero = B::spec_zero();
            let onward = arcs.push(Arc { nextstate: top, ..last });
            match action {
                MapFinalAction::NoSuperfinal => if is_labelled(last) {
                    Mapping { model, failed: Some(arcs), ..p }
                } else {
                    Mapping {
                        model,
                        done: p.done.push(StateV { final_weight: last.weight, arcs }),
                        ..p
                    }
                },
                MapFinalAction::AllowSuperfinal => if is_labelled(last) {
                    Mapping {
                        model,
                        done: p.done.push(StateV { final_weight: zero, arcs: onward }),
                        superfinal: true,
                        ..p
                    }
                } else {
                    Mapping {
                        model,
                        done: p.done.push(StateV { final_weight: last.weight, arcs }),
                        ..p
                    }
                },
                MapFinalAction::RequireSuperfinal => if is_labelled(last) || last.weight != zero {
                    Mapping {
                        model,
                        done: p.done.push(StateV { final_weight: zero, arcs: onward }),
                        ..p
                    }
                } else {
                    Mapping {
                        model,
                        done: p.done.push(StateV { final_weight: zero, arcs }),
                        ..p
                    }
                },
            }
        }
    }
}

/// The superfinal state, where there is one.
pub open spec fn superfinal_state<B: Weight>(there: bool) -> Seq<StateV<B>> {
    if there {
        seq![StateV { final_weight: B::spec_one(), arcs: Seq::<Arc<B>>::empty() }]
    } else {
        Seq::empty()
    }
}

/// What mapping a whole machine comes to.
pub open spec fn map_all<A: Weight, B: Weight, M: ArcMapper<A, B>>(
    m: M::Model,
    v: FstV<A>,
) -> Mapping<M::Model, B> {
    map_states::<A, B, M>(m, v.states, v.n() as usize, v.n() as int)
}

/// There is one mapped state for each that was mapped without failing.
proof fn lemma_map_states_len<A: Weight, B: Weight, M: ArcMapper<A, B>>(
    m: M::Model,
    states: Seq<StateV<A>>,
    top: usize,
    k: int,
)
    requires
        0 <= k,
    ensures
        ({
            let r = map_states::<A, B, M>(m, states, top, k);
            &&& r.done.len() <= k
            &&& r.failed is None ==> r.done.len() == k
            &&& r.failed is Some ==> r.done.len() < k
        }),
    decreases k,
{
    if k > 0 {
        lemma_map_states_len::<A, B, M>(m, states, top, k - 1);
    }
}

/// Once mapping has failed it goes no further.
proof fn lemma_map_states_stuck<A: Weight, B: Weight, M: ArcMapper<A, B>>(
    m: M::Model,
    states: Seq<StateV<A>>,
    top: usize,
    k: int,
    n: int,
)
    requires
        k <= n,
        map_states::<A, B, M>(m, states, top, k).failed is Some,
    ensures
        map_states::<A, B, M>(m, states, top, n) == map_states::<A, B, M>(m, states, top, k),
    decreases n - k,
{
    if k < n {
        lemma_map_states_stuck::<A, B, M>(m, states, top, k, n - 1);
        if n <= 0 {
            assert(map_states::<A, B, M>(m, states, top, k).failed is None);
        }
    }
}

/// What one state becomes under a mapper that stays as it is and keeps final
/// weights final weights.
pub open spec fn plain_state<A: Weight, B: Weight, M: ArcMapper<A, B>>(
    m: M::Model,
    s: StateV<A>,
) -> StateV<B> {
    StateV {
        final_weight: M::mapped(m, final_arc(s.final_weight)).weight,
        arcs: s.arcs.map_values(|arc: Arc<A>| M::mapped(m, arc)),
    }
}

proof fn lemma_plain_arcs<A: Weight, B: Weight, M: ArcMapper<A, B>>(
    m: M::Model,
    arcs: Seq<Arc<A>>,
    k: int,
)
    requires
        0 <= k <= arcs.len(),
        forall|arc: Arc<A>| #[trigger] M::moved(m, arc) == m,
    ensures
        map_arcs::<A, B, M>(m, arcs, k) == (
            m,
            arcs.take(k).map_values(|arc: Arc<A>| M::mapped(m, arc)),
        ),
    decreases k,
{
    if k > 0 {
        lemma_plain_arcs::<A, B, M>(m, arcs, k - 1);
    }
    assert(map_arcs::<A, B, M>(m, arcs, k).1 =~= arcs.take(k).map_values(
        |arc: Arc<A>| M::mapped(m, arc),
    ));
}

/// A mapper that stays as it is and keeps final weights final weights maps each
/// state by itself.
pub proof fn lemma_plain<A: Weight, B: Weight, M: ArcMapper<A, B>>(
    m: M::Model,
    states: Seq<StateV<A>>,
    top: usize,
    k: int,
)
    requires
        0 <= k <= states.len(),
        forall|arc: Arc<A>| #[trigger] M::moved(m, arc) == m,
        M::spec_final_action(m) == MapFinalAction::NoSuperfinal,
        forall|w: A| !is_labelled(M::mapped(m, #[trigger] final_arc(w))),
    ensures
        map_states::<A, B, M>(m, states, top, k).model == m,
        map_states::<A, B, M>(m, states, top, k).failed is None,
        !map_states::<A, B, M>(m, states, top, k).superfinal,
        map_states::<A, B, M>(m, states, top, k).done == Seq::new(
            k as nat,
            |s: int| plain_state::<A, B, M>(m, states[s]),
        ),
    decreases k,
{
    if k > 0 {
        lemma_plain::<A, B, M>(m, states, top, k - 1);
        let arcs = states[k - 1].arcs;
        lemma_plain_arcs::<A, B, M>(m, arcs, arcs.len() as int);
        assert(arcs.take(arcs.len() as int) =~= arcs);
    }
    assert(map_states::<A, B, M>(m, states, top, k).done =~= Seq::new(
        k as nat,
        |s: int| plain_state::<A, B, M>(m, states[s]),
    ));
}

proof fn lemma_mapped_arcs_lead<A: Weight, B: Weight, M: ArcMapper<A, B>>(
    m: M::Model,
    arcs: Seq<Arc<A>>,
    k: int,
)
    requires
        0 <= k <= arcs.len(),
        forall|p: M::Model, arc: Arc<A>| (#[trigger] M::mapped(p, arc)).nextstate == arc.nextstate,
    ensures
        map_arcs::<A, B, M>(m, arcs, k).1.len() == k,
        forall|i: int|
            0 <= i < k ==> (#[trigger] map_arcs::<A, B, M>(m, arcs, k).1[i]).nextstate
                == arcs[i].nextstate,
    decreases k,
{
    if k > 0 {
        lemma_mapped_arcs_lead::<A, B, M>(m, arcs, k - 1);
        let before = map_arcs::<A, B, M>(m, arcs, k - 1);
        let all = map_arcs::<A, B, M>(m, arcs, k).1;
        assert forall|i: int| 0 <= i < k implies (#[trigger] all[i]).nextstate
            == arcs[i].nextstate by {
            if i < k - 1 {
                assert(all[i] == before.1[i]);
            }
        }
    }
}

proof fn lemma_mapped_states_lead<A: Weight, B: Weight, M: ArcMapper<A, B>>(
    m: M::Model,
    states: Seq<StateV<A>>,
    top: usize,
    k: int,
    n: int,
)
    requires
        0 <= k <= states.len(),
        forall|p: M::Model, arc: Arc<A>| (#[trigger] M::mapped(p, arc)).nextstate == arc.nextstate,
        forall|s: int, i: int|
            0 <= s < states.len() && 0 <= i < states[s].arcs.len() ==> (
            #[trigger] states[s].arcs[i]).nextstate < n,
        n <= top,
    ensures
        ({
            let r = map_states::<A, B, M>(m, states, top, k);
            forall|s: int, i: int|
                0 <= s < r.done.len() && 0 <= i < r.done[s].arcs.len() ==> (
                #[trigger] r.done[s].arcs[i]).nextstate < n || (r.done[s].arcs[i].nextstate == top
                    && (r.superfinal || M::spec_final_action(m) is RequireSuperfinal))
        }),
        M::spec_final_action(m) is RequireSuperfinal ==> map_states::<A, B, M>(
            m,
            states,
            top,
            k,
        ).superfinal && map_states::<A, B, M>(m, states, top, k).failed is None,
    decreases k,
{
    if k > 0 {
        lemma_mapped_states_lead::<A, B, M>(m, states, top, k - 1, n);
        let p = map_states::<A, B, M>(m, states, top, k - 1);
        let r = map_states::<A, B, M>(m, states, top, k);
        let arcs = states[k - 1].arcs;
        lemma_mapped_arcs_lead::<A, B, M>(p.model, arcs, arcs.len() as int);
        let mapped = map_arcs::<A, B, M>(p.model, arcs, arcs.len() as int).1;
        assert forall|s: int, i: int|
            0 <= s < r.done.len() && 0 <= i < r.done[s].arcs.len() implies (
        #[trigger] r.done[s].arcs[i]).nextstate < n || (r.done[s].arcs[i].nextstate == top && (
        r.superfinal || M::spec_final_action(m) is RequireSuperfinal)) by {
            if s < p.done.len() {
                assert(r.done[s] == p.done[s]);
            } else if i < mapped.len() {
                assert(r.done[s].arcs[i] == mapped[i]);
                assert(states[k - 1].arcs[i].nextstate < n);
            }
        }
    }
}

/// A mapper that leaves arcs leading where they lead leaves a machine in order. One
/// that asks for a superfinal state never fails.
pub proof fn lemma_mapped_wf<A: Weight, M: ArcMapper<A, A>>(m: M::Model, v: FstV<A>)
    requires
        v.wf(),
        v.n() < usize::MAX,
        forall|p: M::Model, arc: Arc<A>| (#[trigger] M::mapped(p, arc)).nextstate == arc.nextstate,
    ensures
        M::spec_final_action(m) is RequireSuperfinal ==> map_all::<A, A, M>(m, v).failed is None,
        map_all::<A, A, M>(m, v).failed is None ==> map_in_place::<A, M>(m, v).wf()
            && map_in_place::<A, M>(m, v).n() <= v.n() + 1,
{
    let r = map_all::<A, A, M>(m, v);
    let w = map_in_place::<A, M>(m, v);
    lemma_mapped_states_lead::<A, A, M>(m, v.states, v.n() as usize, v.n() as int, v.n() as int);
    lemma_map_states_len::<A, A, M>(m, v.states, v.n() as usize, v.n() as int);
    if v.start is Some && r.failed is None {
        assert forall|s: int, i: int|
            0 <= s < w.n() && 0 <= i < w.states[s].arcs.len() implies (
        #[trigger] w.states[s].arcs[i]).nextstate < w.n() by {
            if s < r.done.len() {
                assert(w.states[s] == r.done[s]);
                assert(r.done[s].arcs[i].nextstate < v.n() || r.done[s].arcs[i].nextstate
                    == v.n());
            }
        }
    }
}

/// A mapper that asks for no superfinal state, and leaves final weights without labels,
/// never fails and adds no state.
pub proof fn lemma_adds_no_state<A: Weight, B: Weight, M: ArcMapper<A, B>>(
    m: M::Model,
    states: Seq<StateV<A>>,
    top: usize,
    k: int,
)
    requires
        0 <= k <= states.len(),
        M::spec_final_action(m) is NoSuperfinal,
        forall|p: M::Model, w: A| !is_labelled(#[trigger] M::mapped(p, final_arc(w))),
    ensures
        ({
            let r = map_states::<A, B, M>(m, states, top, k);
            r.failed is None && !r.superfinal && r.done.len() == k
        }),
    decreases k,
{
    if k > 0 {
        lemma_adds_no_state::<A, B, M>(m, states, top, k - 1);
    }
}

/// A mapper that leaves arcs leading where they lead builds a machine in order.
pub proof fn lemma_map_into_wf<A: Weight, B: Weight, M: ArcMapper<A, B>>(
    m: M::Model,
    v: FstV<A>,
    o: FstV<B>,
)
    requires
        v.wf(),
        v.n() < usize::MAX,
        forall|p: M::Model, arc: Arc<A>| (#[trigger] M::mapped(p, arc)).nextstate == arc.nextstate,
        map_all::<A, B, M>(m, v).failed is None,
    ensures
        map_into::<A, B, M>(m, v, o).wf(),
        map_into::<A, B, M>(m, v, o).n() <= v.n() + 1,
{
    let r = map_all::<A, B, M>(m, v);
    let w = map_into::<A, B, M>(m, v, o);
    lemma_mapped_states_lead::<A, B, M>(m, v.states, v.n() as usize, v.n() as int, v.n() as int);
    lemma_map_states_len::<A, B, M>(m, v.states, v.n() as usize, v.n() as int);
    if v.start is Some {
        assert forall|s: int, i: int|
            0 <= s < w.n() && 0 <= i < w.states[s].arcs.len() implies (
        #[trigger] w.states[s].arcs[i]).nextstate < w.n() by {
            if s < r.done.len() {
                assert(w.states[s] == r.done[s]);
                assert(r.done[s].arcs[i].nextstate < v.n() || r.done[s].arcs[i].nextstate
                    == v.n());
            }
        }
    }
}

/// Maps the arcs of one state, in order.
fn map_state_arcs<A: Weight, B: Weight, M: ArcMapper<A, B>>(
    arcs: &Vec<Arc<A>>,
    mapper: &mut M,
) -> (out: Vec<Arc<B>>)
    requires
        old(mapper).wf(),
    ensures
        final(mapper).wf(),
        (final(mapper).model(), out@) == map_arcs::<A, B, M>(
            old(mapper).model(),
            arcs@,
            arcs@.len() as int,
        ),
{
    let mut out: Vec<Arc<B>> = Vec::new();
    let mut i: usize = 0;
    while i < arcs.len()
        invariant
            i <= arcs@.len(),
            mapper.wf(),
            (mapper.model(), out@) == map_arcs::<A, B, M>(old(mapper).model(), arcs@, i as int),
        decreases arcs@.len() - i,
    {
        let to = mapper.map(&arcs[i]);
        out.push(to);
        i = i + 1;
    }
    out
}

/// The machine that mapping `v` in place with a mapper modelled by `m` leaves.
pub open spec fn map_in_place<A: Weight, M: ArcMapper<A, A>>(m: M::Model, v: FstV<A>) -> FstV<A> {
    let isymbols = if M::spec_input_symbols_action(m) == MapSymbolsAction::Clear {
        None
    } else {
        v.isymbols
    };
    let osymbols = if M::spec_output_symbols_action(m) == MapSymbolsAction::Clear {
        None
    } else {
        v.osymbols
    };
    let named = FstV { isymbols, osymbols, ..v };
    if v.start is None {
        named
    } else {
        let r = map_all::<A, A, M>(m, v);
        match r.failed {
            None => {
                let done = named.with_states(r.done + superfinal_state(r.superfinal));
                FstV {
                    props: set_bits(
                        done.props,
                        M::spec_properties(r.model, v.props & K_FST_PROPERTIES),
                        K_FST_PROPERTIES,
                    ),
                    ..done
                }
            },
            Some(arcs) => {
                let k = r.done.len() as int;
                named.with_states(
                    (r.done.push(StateV { arcs, ..v.states[k] }) + v.states.skip(k + 1))
                        + superfinal_state(r.superfinal),
                )
            },
        }
    }
}

/// Rewrites every arc of `fst` in place.
///
/// A mapper that produces a label from a final weight where it promised not to is
/// an error; the states before the one where that happened are mapped by then.
pub fn arc_map<A: Weight, M: ArcMapper<A, A>>(
    fst: &mut VectorFst<A>,
    mapper: &mut M,
) -> (result: Result<(), OpenFstError>)
    requires
        old(mapper).wf(),
        old(fst)@.wf(),
        old(fst)@.n() < usize::MAX,
    ensures
        final(mapper).wf(),
        final(fst)@ == map_in_place::<A, M>(old(mapper).model(), old(fst)@),
        old(fst)@.start is None ==> result is Ok && final(mapper).model() == old(mapper).model(),
        old(fst)@.start is Some ==> {
            let r = map_all::<A, A, M>(old(mapper).model(), old(fst)@);
            &&& final(mapper).model() == r.model
            &&& result is Ok <==> r.failed is None
            &&& result matches Err(e) ==> e is InvalidOperation
        },
{
    let ghost m0 = mapper.model();
    let ghost v = fst@;
    if mapper.input_symbols_action() == MapSymbolsAction::Clear {
        fst.set_input_symbols(None);
    }
    if mapper.output_symbols_action() == MapSymbolsAction::Clear {
        fst.set_output_symbols(None);
    }
    if fst.start().is_none() {
        return Ok(());
    }
    let ghost named = fst@;
    let props: u64 = fst.known_properties(K_FST_PROPERTIES);
    let final_action = mapper.final_action();
    let nstates: usize = fst.num_states();
    let mut superfinal: bool = false;
    if final_action == MapFinalAction::RequireSuperfinal {
        let s: usize = fst.add_state();
        fst.set_final(s, A::one());
        superfinal = true;
    }
    let mut state: usize = 0;
    proof {
        lemma_forget_forget(named);
        lemma_forget_forget(named.forget());
    }
    let ghost r0 = map_states::<A, A, M>(m0, v.states, nstates, 0);
    assert(fst@.states =~= (r0.done + v.states.skip(0)) + superfinal_state(superfinal));
    while state < nstates
        invariant
            state <= nstates,
            nstates == v.n(),
            nstates < usize::MAX,
            mapper.wf(),
            final_action == M::spec_final_action(m0),
            fst@.start == named.start,
            fst@.isymbols == named.isymbols,
            fst@.osymbols == named.osymbols,
            state > 0 ==> fst@.props == named.forget().props,
            fst@.forget().props == named.forget().props,
            ({
                let r = map_states::<A, A, M>(m0, v.states, nstates, state as int);
                &&& r.failed is None
                &&& r.done.len() == state
                &&& mapper.model() == r.model
                &&& superfinal == r.superfinal
                &&& fst@.states == (r.done + v.states.skip(state as int)) + superfinal_state(
                    superfinal,
                )
            }),
            named == (FstV { isymbols: named.isymbols, osymbols: named.osymbols, ..v }),
            v == old(fst)@,
            m0 == old(mapper).model(),
            v.start is Some,
            v.wf(),
            M::spec_input_symbols_action(m0) == MapSymbolsAction::Clear ==> named.isymbols is None,
            M::spec_input_symbols_action(m0) != MapSymbolsAction::Clear ==> named.isymbols
                == v.isymbols,
            M::spec_output_symbols_action(m0) == MapSymbolsAction::Clear ==> named.osymbols is None,
            M::spec_output_symbols_action(m0) != MapSymbolsAction::Clear ==> named.osymbols
                == v.osymbols,
        decreases nstates - state,
    {
        let ghost p = map_states::<A, A, M>(m0, v.states, nstates, state as int);
        let ghost r = map_states::<A, A, M>(m0, v.states, nstates, state + 1);
        let ghost before = fst@;
        assert(before.states[state as int] == v.states[state as int]);
        let arcs = map_state_arcs(fst.arcs(state), mapper);
        let mapped = mapper.map(&final_as_arc(fst.final_weight(state)));
        let ghost arcs_done = arcs@;
        fst.set_arcs(state, arcs);
        let labelled: bool = became_an_arc(&mapped);
        proof {
            lemma_forget_forget(before);
            lemma_forget_forget(named);
            lemma_map_states_len::<A, A, M>(m0, v.states, nstates, state + 1);
        }
        match final_action {
            MapFinalAction::NoSuperfinal => {
                if labelled {
                    proof {
                        lemma_map_states_stuck::<A, A, M>(
                            m0,
                            v.states,
                            nstates,
                            state + 1,
                            nstates as int,
                        );
                        assert(r.done.len() == state);
                        assert(fst@.states =~= (r.done.push(
                            StateV { arcs: arcs_done, ..v.states[state as int] },
                        ) + v.states.skip(state + 1)) + superfinal_state(superfinal));
                        assert(fst@ =~= map_in_place::<A, M>(m0, v));
                    }
                    return Err(
                        OpenFstError::InvalidOperation(
                            "ArcMap: the mapper produced a labelled arc from a final weight, but said it would not need a superfinal state",
                        ),
                    );
                }
                fst.set_final(state, mapped.weight);
            },
            MapFinalAction::AllowSuperfinal => {
                if labelled {
                    if !superfinal {
                        let s: usize = fst.add_state();
                        fst.set_final(s, A::one());
                        superfinal = true;
                    }
                    fst.add_arc(state, mapped.redirected(nstates));
                    fst.set_final(state, A::zero());
                } else {
                    fst.set_final(state, mapped.weight);
                }
            },
            MapFinalAction::RequireSuperfinal => {
                let zero = A::zero();
                if labelled || !mapped.weight.same(&zero) {
                    fst.add_arc(state, mapped.redirected(nstates));
                }
                fst.set_final(state, A::zero());
            },
        }
        proof {
            lemma_forget_forget(before.forget());
            assert(fst@.states =~= (r.done + v.states.skip(state + 1)) + superfinal_state(
                superfinal,
            ));
        }
        state = state + 1;
    }
    proof {
        let r = map_all::<A, A, M>(m0, v);
        assert(fst@.states =~= r.done + superfinal_state(r.superfinal));
    }
    let after: u64 = mapper.properties(props);
    fst.set_properties(after, K_FST_PROPERTIES);
    assert(fst@ =~= map_in_place::<A, M>(m0, v));
    Ok(())
}

/// The table to go by after `action` on what was there and what is copied from.
pub open spec fn symbols_after(
    action: MapSymbolsAction,
    there: Option<std::rc::Rc<crate::symbol_table::SymbolTable>>,
    from: Option<std::rc::Rc<crate::symbol_table::SymbolTable>>,
) -> Option<std::rc::Rc<crate::symbol_table::SymbolTable>> {
    match action {
        MapSymbolsAction::Copy => from,
        MapSymbolsAction::Clear => None,
        MapSymbolsAction::Noop => there,
    }
}

/// The machine that mapping `v` into `o` with a mapper modelled by `m` leaves.
pub open spec fn map_into<A: Weight, B: Weight, M: ArcMapper<A, B>>(
    m: M::Model,
    v: FstV<A>,
    o: FstV<B>,
) -> FstV<B> {
    let named = FstV {
        start: None,
        states: Seq::empty(),
        isymbols: symbols_after(M::spec_input_symbols_action(m), o.isymbols, v.isymbols),
        osymbols: symbols_after(M::spec_output_symbols_action(m), o.osymbols, v.osymbols),
        props: o.props,
    }.forget();
    if v.start is None {
        named
    } else {
        let r = map_all::<A, B, M>(m, v);
        match r.failed {
            None => FstV {
                start: v.start,
                states: r.done + superfinal_state(r.superfinal),
                props: set_bits(
                    named.props,
                    M::spec_properties(r.model, v.props & K_COPY_PROPERTIES) | (named.props
                        & K_FST_PROPERTIES),
                    K_FST_PROPERTIES,
                ),
                ..named
            },
            Some(arcs) => {
                let k = r.done.len() as int;
                FstV {
                    start: if v.start->0 <= k {
                        v.start
                    } else {
                        None
                    },
                    states: (r.done.push(StateV { final_weight: B::spec_zero(), arcs }) + Seq::new(
                        (v.n() - k - 1) as nat,
                        |i: int| StateV::<B>::fresh(),
                    )) + superfinal_state(r.superfinal),
                    ..named
                }
            },
        }
    }
}

/// Rewrites every arc of `ifst` into `ofst`, which may have another weight.
#[verifier::spinoff_prover]
#[verifier::rlimit(40)]
pub fn arc_map_to<A: Weight, B: Weight, M: ArcMapper<A, B>>(
    ifst: &VectorFst<A>,
    ofst: &mut VectorFst<B>,
    mapper: &mut M,
) -> (result: Result<(), OpenFstError>)
    requires
        old(mapper).wf(),
        ifst@.wf(),
        ifst@.n() < usize::MAX,
    ensures
        final(mapper).wf(),
        final(ofst)@ == map_into::<A, B, M>(old(mapper).model(), ifst@, old(ofst)@),
        ifst@.start is None ==> result is Ok && final(mapper).model() == old(mapper).model(),
        ifst@.start is Some ==> {
            let r = map_all::<A, B, M>(old(mapper).model(), ifst@);
            &&& final(mapper).model() == r.model
            &&& result is Ok <==> r.failed is None
            &&& result matches Err(e) ==> e is InvalidOperation
        },
{
    let ghost m0 = mapper.model();
    let ghost v = ifst@;
    ofst.delete_all_states();
    match mapper.input_symbols_action() {
        MapSymbolsAction::Copy => ofst.set_input_symbols(ifst.input_symbols()),
        MapSymbolsAction::Clear => ofst.set_input_symbols(None),
        MapSymbolsAction::Noop => {},
    }
    match mapper.output_symbols_action() {
        MapSymbolsAction::Copy => ofst.set_output_symbols(ifst.output_symbols()),
        MapSymbolsAction::Clear => ofst.set_output_symbols(None),
        MapSymbolsAction::Noop => {},
    }
    let iprops: u64 = ifst.known_properties(K_COPY_PROPERTIES);
    let ghost named = ofst@;
    proof {
        lemma_forget_forget(old(ofst)@);
        lemma_forget_forget(named);
    }
    assert(named.forget() == named);
    let start: usize = match ifst.start() {
        Some(s) => s,
        None => {
            return Ok(());
        },
    };
    let final_action = mapper.final_action();
    let nstates: usize = ifst.num_states();
    ofst.add_states(nstates);
    let mut superfinal: bool = false;
    if final_action == MapFinalAction::RequireSuperfinal {
        let s: usize = ofst.add_state();
        ofst.set_final(s, B::one());
        superfinal = true;
    }
    let mut state: usize = 0;
    let ghost r0 = map_states::<A, B, M>(m0, v.states, nstates, 0);
    let ghost fresh = |k: int| Seq::new((nstates - k) as nat, |i: int| StateV::<B>::fresh());
    assert(ofst@.states =~= (r0.done + fresh(0)) + superfinal_state(superfinal));
    while state < nstates
        invariant
            state <= nstates,
            nstates == v.n(),
            nstates < usize::MAX,
            mapper.wf(),
            final_action == M::spec_final_action(m0),
            v == ifst@,
            v.wf(),
            v.start == Some(start),
            ofst@.start == (if start < state {
                Some(start)
            } else {
                None
            }),
            ofst@.isymbols == named.isymbols,
            ofst@.osymbols == named.osymbols,
            ofst@.props == named.props,
            named.forget() == named,
            named == map_into::<A, B, M>(m0, (FstV { start: None, ..v }), old(ofst)@),
            m0 == old(mapper).model(),
            fresh == (|k: int| Seq::new((nstates - k) as nat, |i: int| StateV::<B>::fresh())),
            ({
                let r = map_states::<A, B, M>(m0, v.states, nstates, state as int);
                &&& r.failed is None
                &&& r.done.len() == state
                &&& mapper.model() == r.model
                &&& superfinal == r.superfinal
                &&& ofst@.states == (r.done + fresh(state as int)) + superfinal_state(superfinal)
            }),
        decreases nstates - state,
    {
        let ghost p = map_states::<A, B, M>(m0, v.states, nstates, state as int);
        let ghost r = map_states::<A, B, M>(m0, v.states, nstates, state + 1);
        let ghost before = ofst@;
        assert(before.states[state as int] == StateV::<B>::fresh());
        if state == start {
            ofst.set_start(state);
        }
        let arcs = map_state_arcs(ifst.arcs(state), mapper);
        let ghost arcs_done = arcs@;
        ofst.set_arcs(state, arcs);
        let mapped = mapper.map(&final_as_arc(ifst.final_weight(state)));
        let labelled: bool = became_an_arc(&mapped);
        proof {
            lemma_forget_forget(named);
            lemma_map_states_len::<A, B, M>(m0, v.states, nstates, state + 1);
        }
        match final_action {
            MapFinalAction::NoSuperfinal => {
                if labelled {
                    proof {
                        lemma_map_states_stuck::<A, B, M>(
                            m0,
                            v.states,
                            nstates,
                            state + 1,
                            nstates as int,
                        );
                        assert(r.done.len() == state);
                        assert(ofst@.states =~= (r.done.push(
                            StateV { final_weight: B::spec_zero(), arcs: arcs_done },
                        ) + Seq::new((v.n() - state - 1) as nat, |i: int| StateV::<B>::fresh()))
                            + superfinal_state(superfinal));
                        assert(ofst@ =~= map_into::<A, B, M>(m0, v, old(ofst)@));
                    }
                    return Err(
                        OpenFstError::InvalidOperation(
                            "ArcMap: the mapper produced a labelled arc from a final weight, but said it would not need a superfinal state",
                        ),
                    );
                }
                ofst.set_final(state, mapped.weight);
            },
            MapFinalAction::AllowSuperfinal => {
                if labelled {
                    if !superfinal {
                        let s: usize = ofst.add_state();
                        ofst.set_final(s, B::one());
                        superfinal = true;
                    }
                    ofst.add_arc(state, mapped.redirected(nstates));
                    ofst.set_final(state, B::zero());
                } else {
                    ofst.set_final(state, mapped.weight);
                }
            },
            MapFinalAction::RequireSuperfinal => {
                let zero = B::zero();
                if labelled || !mapped.weight.same(&zero) {
                    ofst.add_arc(state, mapped.redirected(nstates));
                }
                ofst.set_final(state, B::zero());
            },
        }
        assert(ofst@.states =~= (r.done + fresh(state + 1)) + superfinal_state(superfinal));
        state = state + 1;
    }
    proof {
        let r = map_all::<A, B, M>(m0, v);
        assert(ofst@.states =~= r.done + superfinal_state(r.superfinal));
    }
    let oprops: u64 = ofst.known_properties(K_FST_PROPERTIES);
    let after: u64 = mapper.properties(iprops);
    ofst.set_properties(after | oprops, K_FST_PROPERTIES);
    assert(ofst@ =~= map_into::<A, B, M>(m0, v, old(ofst)@));
    Ok(())
}

/// Leaves every arc as it is.
#[derive(Debug, Clone, Copy)]
pub struct IdentityArcMapper;

impl<W: Weight> ArcMapper<W, W> for IdentityArcMapper {
    type Model = ();

    open spec fn wf(&self) -> bool {
        true
    }

    closed spec fn model(&self) -> () {
        ()
    }

    open spec fn mapped(m: (), arc: Arc<W>) -> Arc<W> {
        arc
    }

    open spec fn moved(m: (), arc: Arc<W>) -> () {
        m
    }

    open spec fn spec_final_action(m: ()) -> MapFinalAction {
        MapFinalAction::NoSuperfinal
    }

    open spec fn spec_input_symbols_action(m: ()) -> MapSymbolsAction {
        MapSymbolsAction::Copy
    }

    open spec fn spec_output_symbols_action(m: ()) -> MapSymbolsAction {
        MapSymbolsAction::Copy
    }

    open spec fn spec_properties(m: (), props: u64) -> u64 {
        props
    }

    fn map(&mut self, arc: &Arc<W>) -> (to: Arc<W>) {
        arc.duplicate()
    }

    fn final_action(&self) -> (action: MapFinalAction) {
        MapFinalAction::NoSuperfinal
    }

    fn input_symbols_action(&self) -> (action: MapSymbolsAction) {
        MapSymbolsAction::Copy
    }

    fn output_symbols_action(&self) -> (action: MapSymbolsAction) {
        MapSymbolsAction::Copy
    }

    fn properties(&self, props: u64) -> (out: u64) {
        props
    }
}

/// Makes the input side of every arc epsilon.
#[derive(Debug, Clone, Copy)]
pub struct InputEpsilonMapper;

impl<W: Weight> ArcMapper<W, W> for InputEpsilonMapper {
    type Model = ();

    open spec fn wf(&self) -> bool {
        true
    }

    closed spec fn model(&self) -> () {
        ()
    }

    open spec fn mapped(m: (), arc: Arc<W>) -> Arc<W> {
        Arc { ilabel: EPSILON, ..arc }
    }

    open spec fn moved(m: (), arc: Arc<W>) -> () {
        m
    }

    open spec fn spec_final_action(m: ()) -> MapFinalAction {
        MapFinalAction::NoSuperfinal
    }

    open spec fn spec_input_symbols_action(m: ()) -> MapSymbolsAction {
        MapSymbolsAction::Clear
    }

    open spec fn spec_output_symbols_action(m: ()) -> MapSymbolsAction {
        MapSymbolsAction::Copy
    }

    open spec fn spec_properties(m: (), props: u64) -> u64 {
        spec_project_properties(props, false) & K_SET_ARC_PROPERTIES | K_I_EPSILONS | K_I_LABEL_SORTED
    }

    fn map(&mut self, arc: &Arc<W>) -> (to: Arc<W>) {
        Arc::new(EPSILON, arc.olabel, arc.weight.duplicate(), arc.nextstate)
    }

    fn final_action(&self) -> (action: MapFinalAction) {
        MapFinalAction::NoSuperfinal
    }

    fn input_symbols_action(&self) -> (action: MapSymbolsAction) {
        MapSymbolsAction::Clear
    }

    fn output_symbols_action(&self) -> (action: MapSymbolsAction) {
        MapSymbolsAction::Copy
    }

    fn properties(&self, props: u64) -> (out: u64) {
        project_properties(props, false) & K_SET_ARC_PROPERTIES | K_I_EPSILONS | K_I_LABEL_SORTED
    }
}

/// Makes the output side of every arc epsilon.
#[derive(Debug, Clone, Copy)]
pub struct OutputEpsilonMapper;

impl<W: Weight> ArcMapper<W, W> for OutputEpsilonMapper {
    type Model = ();

    open spec fn wf(&self) -> bool {
        true
    }

    closed spec fn model(&self) -> () {
        ()
    }

    open spec fn mapped(m: (), arc: Arc<W>) -> Arc<W> {
        Arc { olabel: EPSILON, ..arc }
    }

    open spec fn moved(m: (), arc: Arc<W>) -> () {
        m
    }

    open spec fn spec_final_action(m: ()) -> MapFinalAction {
        MapFinalAction::NoSuperfinal
    }

    open spec fn spec_input_symbols_action(m: ()) -> MapSymbolsAction {
        MapSymbolsAction::Copy
    }

    open spec fn spec_output_symbols_action(m: ()) -> MapSymbolsAction {
        MapSymbolsAction::Clear
    }

    open spec fn spec_properties(m: (), props: u64) -> u64 {
        spec_project_properties(props, true) & K_SET_ARC_PROPERTIES | K_O_EPSILONS | K_O_LABEL_SORTED
    }

    fn map(&mut self, arc: &Arc<W>) -> (to: Arc<W>) {
        Arc::new(arc.ilabel, EPSILON, arc.weight.duplicate(), arc.nextstate)
    }

    fn final_action(&self) -> (action: MapFinalAction) {
        MapFinalAction::NoSuperfinal
    }

    fn input_symbols_action(&self) -> (action: MapSymbolsAction) {
        MapSymbolsAction::Copy
    }

    fn output_symbols_action(&self) -> (action: MapSymbolsAction) {
        MapSymbolsAction::Clear
    }

    fn properties(&self, props: u64) -> (out: u64) {
        project_properties(props, true) & K_SET_ARC_PROPERTIES | K_O_EPSILONS | K_O_LABEL_SORTED
    }
}

/// Leaves arcs alone but forces every final weight through a superfinal state.
///
/// The result has exactly one final state, as an operation wanting a single
/// accepting point, such as concatenation or closure, requires.
#[derive(Debug, Clone, Copy)]
pub struct SuperFinalMapper;

impl<W: Weight> ArcMapper<W, W> for SuperFinalMapper {
    type Model = ();

    open spec fn wf(&self) -> bool {
        true
    }

    closed spec fn model(&self) -> () {
        ()
    }

    open spec fn mapped(m: (), arc: Arc<W>) -> Arc<W> {
        arc
    }

    open spec fn moved(m: (), arc: Arc<W>) -> () {
        m
    }

    open spec fn spec_final_action(m: ()) -> MapFinalAction {
        MapFinalAction::RequireSuperfinal
    }

    open spec fn spec_input_symbols_action(m: ()) -> MapSymbolsAction {
        MapSymbolsAction::Copy
    }

    open spec fn spec_output_symbols_action(m: ()) -> MapSymbolsAction {
        MapSymbolsAction::Copy
    }

    open spec fn spec_properties(m: (), props: u64) -> u64 {
        props & K_ADD_SUPER_FINAL_PROPERTIES
    }

    fn map(&mut self, arc: &Arc<W>) -> (to: Arc<W>) {
        arc.duplicate()
    }

    fn final_action(&self) -> (action: MapFinalAction) {
        MapFinalAction::RequireSuperfinal
    }

    fn input_symbols_action(&self) -> (action: MapSymbolsAction) {
        MapSymbolsAction::Copy
    }

    fn output_symbols_action(&self) -> (action: MapSymbolsAction) {
        MapSymbolsAction::Copy
    }

    fn properties(&self, props: u64) -> (out: u64) {
        props & K_ADD_SUPER_FINAL_PROPERTIES
    }
}

/// Multiplies a weight onto every arc and final weight, on the left.
#[derive(Debug)]
pub struct TimesMapper<W> {
    weight: W,
}

impl<W: Weight> TimesMapper<W> {
    /// What every weight is combined with.
    pub closed spec fn operand(self) -> W {
        self.weight
    }

    /// Multiplies by `weight`.
    pub fn new(weight: W) -> (mapper: Self)
        ensures
            mapper.operand() == weight,
    {
        TimesMapper { weight }
    }
}

impl<W: Weight> ArcMapper<W, W> for TimesMapper<W> {
    type Model = W;

    open spec fn wf(&self) -> bool {
        true
    }

    open spec fn model(&self) -> W {
        self.operand()
    }

    open spec fn mapped(m: W, arc: Arc<W>) -> Arc<W> {
        Arc { weight: m.spec_times(arc.weight), ..arc }
    }

    open spec fn moved(m: W, arc: Arc<W>) -> W {
        m
    }

    open spec fn spec_final_action(m: W) -> MapFinalAction {
        MapFinalAction::NoSuperfinal
    }

    open spec fn spec_input_symbols_action(m: W) -> MapSymbolsAction {
        MapSymbolsAction::Copy
    }

    open spec fn spec_output_symbols_action(m: W) -> MapSymbolsAction {
        MapSymbolsAction::Copy
    }

    open spec fn spec_properties(m: W, props: u64) -> u64 {
        props & K_WEIGHT_INVARIANT_PROPERTIES
    }

    fn map(&mut self, arc: &Arc<W>) -> (to: Arc<W>) {
        Arc::new(arc.ilabel, arc.olabel, self.weight.times(&arc.weight), arc.nextstate)
    }

    fn final_action(&self) -> (action: MapFinalAction) {
        MapFinalAction::NoSuperfinal
    }

    fn input_symbols_action(&self) -> (action: MapSymbolsAction) {
        MapSymbolsAction::Copy
    }

    fn output_symbols_action(&self) -> (action: MapSymbolsAction) {
        MapSymbolsAction::Copy
    }

    fn properties(&self, props: u64) -> (out: u64) {
        props & K_WEIGHT_INVARIANT_PROPERTIES
    }
}

/// Adds a weight to every arc and final weight.
#[derive(Debug)]
pub struct PlusMapper<W> {
    weight: W,
}

impl<W: Weight> PlusMapper<W> {
    /// What every weight is combined with.
    pub closed spec fn operand(self) -> W {
        self.weight
    }

    /// Adds `weight`.
    pub fn new(weight: W) -> (mapper: Self)
        ensures
            mapper.operand() == weight,
    {
        PlusMapper { weight }
    }
}

impl<W: Weight> ArcMapper<W, W> for PlusMapper<W> {
    type Model = W;

    open spec fn wf(&self) -> bool {
        true
    }

    open spec fn model(&self) -> W {
        self.operand()
    }

    open spec fn mapped(m: W, arc: Arc<W>) -> Arc<W> {
        Arc { weight: m.spec_plus(arc.weight), ..arc }
    }

    open spec fn moved(m: W, arc: Arc<W>) -> W {
        m
    }

    open spec fn spec_final_action(m: W) -> MapFinalAction {
        MapFinalAction::NoSuperfinal
    }

    open spec fn spec_input_symbols_action(m: W) -> MapSymbolsAction {
        MapSymbolsAction::Copy
    }

    open spec fn spec_output_symbols_action(m: W) -> MapSymbolsAction {
        MapSymbolsAction::Copy
    }

    open spec fn spec_properties(m: W, props: u64) -> u64 {
        props & K_WEIGHT_INVARIANT_PROPERTIES
    }

    fn map(&mut self, arc: &Arc<W>) -> (to: Arc<W>) {
        Arc::new(arc.ilabel, arc.olabel, self.weight.plus(&arc.weight), arc.nextstate)
    }

    fn final_action(&self) -> (action: MapFinalAction) {
        MapFinalAction::NoSuperfinal
    }

    fn input_symbols_action(&self) -> (action: MapSymbolsAction) {
        MapSymbolsAction::Copy
    }

    fn output_symbols_action(&self) -> (action: MapSymbolsAction) {
        MapSymbolsAction::Copy
    }

    fn properties(&self, props: u64) -> (out: u64) {
        props & K_WEIGHT_INVARIANT_PROPERTIES
    }
}

/// A weight multiplied by itself `n` times.
pub open spec fn spec_power<W: Weight>(weight: W, n: nat) -> W
    decreases n,
{
    if n == 0 {
        W::spec_one()
    } else {
        spec_power(weight, (n - 1) as nat).spec_times(weight)
    }
}

/// A weight multiplied by itself `n` times.
fn power<W: Weight>(weight: &W, n: u64) -> (result: W)
    ensures
        result == spec_power(*weight, n as nat),
{
    let mut result = W::one();
    let mut i: u64 = 0;
    while i < n
        invariant
            i <= n,
            result == spec_power(*weight, i as nat),
        decreases n - i,
    {
        result = result.times(weight);
        i = i + 1;
    }
    result
}

/// Raises every weight to a power.
#[derive(Debug, Clone, Copy)]
pub struct PowerMapper {
    power: u64,
}

impl PowerMapper {
    /// The power.
    pub closed spec fn exponent(self) -> nat {
        self.power as nat
    }

    /// Raises to `power`.
    pub fn new(power: u64) -> (mapper: Self)
        ensures
            mapper.exponent() == power,
    {
        PowerMapper { power }
    }
}

impl<W: Weight> ArcMapper<W, W> for PowerMapper {
    type Model = nat;

    open spec fn wf(&self) -> bool {
        true
    }

    open spec fn model(&self) -> nat {
        self.exponent()
    }

    open spec fn mapped(m: nat, arc: Arc<W>) -> Arc<W> {
        Arc { weight: spec_power(arc.weight, m), ..arc }
    }

    open spec fn moved(m: nat, arc: Arc<W>) -> nat {
        m
    }

    open spec fn spec_final_action(m: nat) -> MapFinalAction {
        MapFinalAction::NoSuperfinal
    }

    open spec fn spec_input_symbols_action(m: nat) -> MapSymbolsAction {
        MapSymbolsAction::Copy
    }

    open spec fn spec_output_symbols_action(m: nat) -> MapSymbolsAction {
        MapSymbolsAction::Copy
    }

    open spec fn spec_properties(m: nat, props: u64) -> u64 {
        props & K_WEIGHT_INVARIANT_PROPERTIES
    }

    fn map(&mut self, arc: &Arc<W>) -> (to: Arc<W>) {
        Arc::new(arc.ilabel, arc.olabel, power(&arc.weight, self.power), arc.nextstate)
    }

    fn final_action(&self) -> (action: MapFinalAction) {
        MapFinalAction::NoSuperfinal
    }

    fn input_symbols_action(&self) -> (action: MapSymbolsAction) {
        MapSymbolsAction::Copy
    }

    fn output_symbols_action(&self) -> (action: MapSymbolsAction) {
        MapSymbolsAction::Copy
    }

    fn properties(&self, props: u64) -> (out: u64) {
        props & K_WEIGHT_INVARIANT_PROPERTIES
    }
}

/// Replaces every weight by its inverse.
#[derive(Debug, Clone, Copy)]
pub struct InvertWeightMapper;

impl<W: Divide> ArcMapper<W, W> for InvertWeightMapper {
    type Model = ();

    open spec fn wf(&self) -> bool {
        true
    }

    closed spec fn model(&self) -> () {
        ()
    }

    open spec fn mapped(m: (), arc: Arc<W>) -> Arc<W> {
        Arc {
            weight: W::spec_one().spec_divide(arc.weight, DivideType::Any),
            ..arc
        }
    }

    open spec fn moved(m: (), arc: Arc<W>) -> () {
        m
    }

    open spec fn spec_final_action(m: ()) -> MapFinalAction {
        MapFinalAction::NoSuperfinal
    }

    open spec fn spec_input_symbols_action(m: ()) -> MapSymbolsAction {
        MapSymbolsAction::Copy
    }

    open spec fn spec_output_symbols_action(m: ()) -> MapSymbolsAction {
        MapSymbolsAction::Copy
    }

    open spec fn spec_properties(m: (), props: u64) -> u64 {
        props & K_WEIGHT_INVARIANT_PROPERTIES
    }

    fn map(&mut self, arc: &Arc<W>) -> (to: Arc<W>) {
        let one = W::one();
        Arc::new(
            arc.ilabel,
            arc.olabel,
            one.divide(&arc.weight, DivideType::Any),
            arc.nextstate,
        )
    }

    fn final_action(&self) -> (action: MapFinalAction) {
        MapFinalAction::NoSuperfinal
    }

    fn input_symbols_action(&self) -> (action: MapSymbolsAction) {
        MapSymbolsAction::Copy
    }

    fn output_symbols_action(&self) -> (action: MapSymbolsAction) {
        MapSymbolsAction::Copy
    }

    fn properties(&self, props: u64) -> (out: u64) {
        props & K_WEIGHT_INVARIANT_PROPERTIES
    }
}

/// Drops the weights, leaving an unweighted machine.
#[derive(Debug, Clone, Copy)]
pub struct RmWeightMapper;

impl<W: Weight> ArcMapper<W, W> for RmWeightMapper {
    type Model = ();

    open spec fn wf(&self) -> bool {
        true
    }

    closed spec fn model(&self) -> () {
        ()
    }

    open spec fn mapped(m: (), arc: Arc<W>) -> Arc<W> {
        Arc {
            weight: if arc.weight == W::spec_zero() {
                W::spec_zero()
            } else {
                W::spec_one()
            },
            ..arc
        }
    }

    open spec fn moved(m: (), arc: Arc<W>) -> () {
        m
    }

    open spec fn spec_final_action(m: ()) -> MapFinalAction {
        MapFinalAction::NoSuperfinal
    }

    open spec fn spec_input_symbols_action(m: ()) -> MapSymbolsAction {
        MapSymbolsAction::Copy
    }

    open spec fn spec_output_symbols_action(m: ()) -> MapSymbolsAction {
        MapSymbolsAction::Copy
    }

    open spec fn spec_properties(m: (), props: u64) -> u64 {
        (props & K_WEIGHT_INVARIANT_PROPERTIES) | K_UNWEIGHTED
    }

    fn map(&mut self, arc: &Arc<W>) -> (to: Arc<W>) {
        let zero = W::zero();
        let weight = if arc.weight.same(&zero) {
            zero
        } else {
            W::one()
        };
        Arc::new(arc.ilabel, arc.olabel, weight, arc.nextstate)
    }

    fn final_action(&self) -> (action: MapFinalAction) {
        MapFinalAction::NoSuperfinal
    }

    fn input_symbols_action(&self) -> (action: MapSymbolsAction) {
        MapSymbolsAction::Copy
    }

    fn output_symbols_action(&self) -> (action: MapSymbolsAction) {
        MapSymbolsAction::Copy
    }

    fn properties(&self, props: u64) -> (out: u64) {
        (props & K_WEIGHT_INVARIANT_PROPERTIES) | K_UNWEIGHTED
    }
}

/// Rounds every weight to the grid that `delta` lays.
pub struct QuantizeMapper<W: Weight> {
    delta: W::Delta,
}

impl<W: Weight> QuantizeMapper<W> {
    /// What the grid is laid by.
    pub closed spec fn grid(self) -> W::Delta {
        self.delta
    }

    /// Rounds to the grid that `delta` lays.
    pub fn new(delta: W::Delta) -> (mapper: Self)
        ensures
            mapper.grid() == delta,
    {
        QuantizeMapper { delta }
    }
}

impl<W: Weight> ArcMapper<W, W> for QuantizeMapper<W> {
    type Model = W::Delta;

    open spec fn wf(&self) -> bool {
        true
    }

    open spec fn model(&self) -> W::Delta {
        self.grid()
    }

    open spec fn mapped(m: W::Delta, arc: Arc<W>) -> Arc<W> {
        Arc { weight: arc.weight.spec_quantize(m), ..arc }
    }

    open spec fn moved(m: W::Delta, arc: Arc<W>) -> W::Delta {
        m
    }

    open spec fn spec_final_action(m: W::Delta) -> MapFinalAction {
        MapFinalAction::NoSuperfinal
    }

    open spec fn spec_input_symbols_action(m: W::Delta) -> MapSymbolsAction {
        MapSymbolsAction::Copy
    }

    open spec fn spec_output_symbols_action(m: W::Delta) -> MapSymbolsAction {
        MapSymbolsAction::Copy
    }

    open spec fn spec_properties(m: W::Delta, props: u64) -> u64 {
        props & K_WEIGHT_INVARIANT_PROPERTIES
    }

    fn map(&mut self, arc: &Arc<W>) -> (to: Arc<W>) {
        Arc::new(arc.ilabel, arc.olabel, arc.weight.quantize(&self.delta), arc.nextstate)
    }

    fn final_action(&self) -> (action: MapFinalAction) {
        MapFinalAction::NoSuperfinal
    }

    fn input_symbols_action(&self) -> (action: MapSymbolsAction) {
        MapSymbolsAction::Copy
    }

    fn output_symbols_action(&self) -> (action: MapSymbolsAction) {
        MapSymbolsAction::Copy
    }

    fn properties(&self, props: u64) -> (out: u64) {
        props & K_WEIGHT_INVARIANT_PROPERTIES
    }
}

/// Replaces every weight by its reverse.
///
/// The reverse of a weight lives in a different semiring in general, which is
/// why this maps between weights.
#[derive(Debug, Clone, Copy)]
pub struct ReverseWeightMapper;

impl<W: Reversible> ArcMapper<W, W::ReverseWeight> for ReverseWeightMapper {
    type Model = ();

    open spec fn wf(&self) -> bool {
        true
    }

    closed spec fn model(&self) -> () {
        ()
    }

    open spec fn mapped(m: (), arc: Arc<W>) -> Arc<W::ReverseWeight> {
        Arc {
            ilabel: arc.ilabel,
            olabel: arc.olabel,
            weight: arc.weight.spec_reverse(),
            nextstate: arc.nextstate,
        }
    }

    open spec fn moved(m: (), arc: Arc<W>) -> () {
        m
    }

    open spec fn spec_final_action(m: ()) -> MapFinalAction {
        MapFinalAction::NoSuperfinal
    }

    open spec fn spec_input_symbols_action(m: ()) -> MapSymbolsAction {
        MapSymbolsAction::Copy
    }

    open spec fn spec_output_symbols_action(m: ()) -> MapSymbolsAction {
        MapSymbolsAction::Copy
    }

    open spec fn spec_properties(m: (), props: u64) -> u64 {
        props
    }

    fn map(&mut self, arc: &Arc<W>) -> (to: Arc<W::ReverseWeight>) {
        Arc::new(arc.ilabel, arc.olabel, arc.weight.reverse(), arc.nextstate)
    }

    fn final_action(&self) -> (action: MapFinalAction) {
        MapFinalAction::NoSuperfinal
    }

    fn input_symbols_action(&self) -> (action: MapSymbolsAction) {
        MapSymbolsAction::Copy
    }

    fn output_symbols_action(&self) -> (action: MapSymbolsAction) {
        MapSymbolsAction::Copy
    }

    fn properties(&self, props: u64) -> (out: u64) {
        props
    }
}

/// Keeps the arcs and copies the symbol tables, changing only what kind of weight
/// there is.
#[derive(Debug, Clone, Copy)]
pub struct WeightConvertMapper;

impl WeightConvertMapper {
    /// Creates the mapper.
    pub fn new() -> (mapper: Self)
        ensures
            mapper == WeightConvertMapper,
    {
        WeightConvertMapper
    }
}

impl<A: Weight, B: Weight + From<A>> ArcMapper<A, B> for WeightConvertMapper {
    type Model = ();

    open spec fn wf(&self) -> bool {
        <B as FromSpec<A>>::obeys_from_spec()
    }

    closed spec fn model(&self) -> () {
        ()
    }

    open spec fn mapped(m: (), arc: Arc<A>) -> Arc<B> {
        Arc {
            ilabel: arc.ilabel,
            olabel: arc.olabel,
            weight: <B as FromSpec<A>>::from_spec(arc.weight),
            nextstate: arc.nextstate,
        }
    }

    open spec fn moved(m: (), arc: Arc<A>) -> () {
        ()
    }

    open spec fn spec_final_action(m: ()) -> MapFinalAction {
        MapFinalAction::NoSuperfinal
    }

    open spec fn spec_input_symbols_action(m: ()) -> MapSymbolsAction {
        MapSymbolsAction::Copy
    }

    open spec fn spec_output_symbols_action(m: ()) -> MapSymbolsAction {
        MapSymbolsAction::Copy
    }

    open spec fn spec_properties(m: (), props: u64) -> u64 {
        props
    }

    fn map(&mut self, arc: &Arc<A>) -> (to: Arc<B>) {
        Arc::new(arc.ilabel, arc.olabel, B::from(arc.weight.duplicate()), arc.nextstate)
    }

    fn final_action(&self) -> (action: MapFinalAction) {
        MapFinalAction::NoSuperfinal
    }

    fn input_symbols_action(&self) -> (action: MapSymbolsAction) {
        MapSymbolsAction::Copy
    }

    fn output_symbols_action(&self) -> (action: MapSymbolsAction) {
        MapSymbolsAction::Copy
    }

    fn properties(&self, props: u64) -> (out: u64) {
        props
    }
}

} // verus!
