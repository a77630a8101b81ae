//! Swapping what a machine reads and what it writes.
use crate::arc::Arc;
use crate::arc_map::{
    arc_map, arc_map_to, lemma_plain, map_all, map_into, superfinal_state, ArcMapper,
    MapFinalAction, MapSymbolsAction,
};
use crate::error::OpenFstError;
use crate::paths::{accepted_weight, end_of, is_accepting, reads, state_at, steps, total, writes};
use crate::properties::{invert_properties, spec_invert_properties, K_FST_PROPERTIES};
use crate::vector_fst::{set_bits, FstV, StateV, VectorFst};
use crate::weight::Weight;
use vstd::prelude::*;

verus! {

/// Swaps the two labels of an arc.
#[derive(Debug, Clone, Copy)]
pub struct InvertMapper;

/// The arc with its two labels swapped.
pub open spec fn swapped<W: Weight>(arc: Arc<W>) -> Arc<W> {
    Arc { ilabel: arc.olabel, olabel: arc.ilabel, ..arc }
}

/// The states with the two labels of every arc swapped.
pub open spec fn swapped_states<W: Weight>(states: Seq<StateV<W>>) -> Seq<StateV<W>> {
    Seq::new(
        states.len(),
        |s: int|
            StateV {
                final_weight: states[s].final_weight,
                arcs: states[s].arcs.map_values(|arc: Arc<W>| swapped(arc)),
            },
    )
}

impl<W: Weight> ArcMapper<W, W> for InvertMapper {
    type Model = ();

    open spec fn wf(&self) -> bool {
        true
    }

    open spec fn model(&self) -> () {
        ()
    }

    open spec fn mapped(m: (), arc: Arc<W>) -> Arc<W> {
        swapped(arc)
    }

    open spec fn moved(m: (), arc: Arc<W>) -> () {
        m
    }

    open spec fn spec_final_action(m: ()) -> MapFinalAction {
        MapFinalAction::NoSuperfinal
    }

    open spec fn spec_input_symbols_action(m: ()) -> MapSymbolsAction {
        MapSymbolsAction::Clear
    }

    open spec fn spec_output_symbols_action(m: ()) -> MapSymbolsAction {
        MapSymbolsAction::Clear
    }

    open spec fn spec_properties(m: (), props: u64) -> u64 {
        spec_invert_properties(props)
    }

    fn map(&mut self, arc: &Arc<W>) -> (to: Arc<W>) {
        Arc::new(arc.olabel, arc.ilabel, arc.weight.duplicate(), arc.nextstate)
    }

    fn final_action(&self) -> (action: MapFinalAction) {
        MapFinalAction::NoSuperfinal
    }

    /// Both tables are cleared by the mapping and put back the other way round
    /// by [`invert`], which is the only thing that knows they should swap.
    fn input_symbols_action(&self) -> (action: MapSymbolsAction) {
        MapSymbolsAction::Clear
    }

    fn output_symbols_action(&self) -> (action: MapSymbolsAction) {
        MapSymbolsAction::Clear
    }

    fn properties(&self, props: u64) -> (out: u64) {
        invert_properties(props)
    }
}

/// The machine with its two sides swapped. One that has no start keeps its arcs.
pub open spec fn inverted<W: Weight>(v: FstV<W>) -> FstV<W> {
    let named = FstV { isymbols: v.osymbols, osymbols: v.isymbols, ..v };
    if v.start is None {
        named
    } else {
        let done = named.with_states(swapped_states(v.states));
        FstV {
            props: set_bits(
                done.props,
                spec_invert_properties(v.props & K_FST_PROPERTIES),
                K_FST_PROPERTIES,
            ),
            ..done
        }
    }
}

proof fn lemma_inverted<W: Weight>(v: FstV<W>)
    ensures
        map_all::<W, W, InvertMapper>((), v).failed is None,
        !map_all::<W, W, InvertMapper>((), v).superfinal,
        map_all::<W, W, InvertMapper>((), v).done == swapped_states(v.states),
        map_all::<W, W, InvertMapper>((), v).done + superfinal_state(false) == swapped_states(
            v.states,
        ),
{
    lemma_plain::<W, W, InvertMapper>((), v.states, v.n() as usize, v.n() as int);
    let done = map_all::<W, W, InvertMapper>((), v).done;
    assert forall|s: int| 0 <= s < v.n() implies done[s] == swapped_states(v.states)[s] by {
        assert(done[s].arcs =~= swapped_states(v.states)[s].arcs);
    }
    assert(done =~= swapped_states(v.states));
    assert(done + superfinal_state(false) =~= swapped_states(v.states));
}

/// Inverts `fst` in place: what it read it now writes, and the other way round.
pub fn invert<W: Weight>(fst: &mut VectorFst<W>) -> (result: Result<(), OpenFstError>)
    requires
        old(fst)@.wf(),
        old(fst)@.n() < usize::MAX,
    ensures
        result is Ok,
        final(fst)@ == inverted(old(fst)@),
{
    let input = fst.input_symbols();
    let output = fst.output_symbols();
    proof {
        lemma_inverted(fst@);
    }
    let result = arc_map(fst, &mut InvertMapper);
    fst.set_input_symbols(output);
    fst.set_output_symbols(input);
    result
}

/// Writes the inverse of `ifst` into `ofst`.
pub fn invert_to<W: Weight>(ifst: &VectorFst<W>, ofst: &mut VectorFst<W>) -> (result: Result<
    (),
    OpenFstError,
>)
    requires
        ifst@.wf(),
        ifst@.n() < usize::MAX,
    ensures
        result is Ok,
        final(ofst)@.start == ifst@.start,
        final(ofst)@.states == (if ifst@.start is None {
            Seq::empty()
        } else {
            swapped_states(ifst@.states)
        }),
        final(ofst)@.isymbols == ifst@.osymbols,
        final(ofst)@.osymbols == ifst@.isymbols,
        final(ofst)@.props == map_into::<W, W, InvertMapper>((), ifst@, old(ofst)@).props,
{
    let input = ifst.input_symbols();
    let output = ifst.output_symbols();
    proof {
        lemma_inverted(ifst@);
    }
    let result = arc_map_to(ifst, ofst, &mut InvertMapper);
    ofst.set_input_symbols(output);
    ofst.set_output_symbols(input);
    result
}

/// Inverting twice gives back the machine: its start, its states, its arcs and
/// its symbol tables.
pub proof fn law_inverting_twice<W: Weight>(v: FstV<W>)
    ensures
        inverted(inverted(v)).start == v.start,
        inverted(inverted(v)).states == v.states,
        inverted(inverted(v)).isymbols == v.isymbols,
        inverted(inverted(v)).osymbols == v.osymbols,
{
    let twice = swapped_states(swapped_states(v.states));
    assert forall|s: int| 0 <= s < v.n() implies twice[s] == v.states[s] by {
        assert(twice[s].arcs =~= v.states[s].arcs);
    }
    assert(twice =~= v.states);
}

/// A run with the two labels of every arc swapped.
pub open spec fn swapped_run<W: Weight>(run: Seq<Arc<W>>) -> Seq<Arc<W>> {
    run.map_values(|arc: Arc<W>| swapped(arc))
}

proof fn lemma_swapped_run<W: Weight>(run: Seq<Arc<W>>, end: W)
    ensures
        reads(swapped_run(run)) == writes(run),
        writes(swapped_run(run)) == reads(run),
        total(swapped_run(run), end) == total(run, end),
    decreases run.len(),
{
    let made = swapped_run(run);
    if run.len() > 0 {
        lemma_swapped_run(run.drop_last(), end);
        lemma_swapped_run(run.drop_first(), end);
        assert(made.drop_last() =~= swapped_run(run.drop_last()));
        assert(made.drop_first() =~= swapped_run(run.drop_first()));
    }
}

/// Inverting a machine turns every path round: it reads what it wrote, writes what it read,
/// and weighs the same.
pub proof fn law_inverting_turns_paths<W: Weight>(v: FstV<W>, run: Seq<Arc<W>>)
    requires
        is_accepting(v, run),
    ensures
        is_accepting(inverted(v), swapped_run(run)),
        reads(swapped_run(run)) == writes(run),
        writes(swapped_run(run)) == reads(run),
        accepted_weight(inverted(v), swapped_run(run)) == accepted_weight(v, run),
{
    let w = inverted(v);
    let made = swapped_run(run);
    let s = v.start->0 as int;
    assert forall|i: int| 0 <= i < made.len() implies #[trigger] steps(w, s, made, i) by {
        assert(steps(v, s, run, i));
        let x = state_at(s, run, i);
        assert(state_at(s, made, i) == x);
        let j = choose|j: int| 0 <= j < v.arcs(x).len() && v.arcs(x)[j] == run[i];
        assert(w.arcs(x)[j] == made[i]);
    }
    assert(end_of(s, made) == end_of(s, run));
    lemma_swapped_run(run, v.fin(end_of(s, run)));
}

/// Every path of an inverted machine is one turned round.
pub proof fn law_inverted_paths_were_turned<W: Weight>(v: FstV<W>, run: Seq<Arc<W>>)
    requires
        is_accepting(inverted(v), run),
    ensures
        is_accepting(v, swapped_run(run)),
        reads(swapped_run(run)) == writes(run),
        writes(swapped_run(run)) == reads(run),
        accepted_weight(v, swapped_run(run)) == accepted_weight(inverted(v), run),
{
    let w = inverted(v);
    let from = swapped_run(run);
    let s = v.start->0 as int;
    assert forall|i: int| 0 <= i < from.len() implies #[trigger] steps(v, s, from, i) by {
        assert(steps(w, s, run, i));
        let x = state_at(s, run, i);
        assert(state_at(s, from, i) == x);
        let j = choose|j: int| 0 <= j < w.arcs(x).len() && w.arcs(x)[j] == run[i];
        assert(v.arcs(x)[j] == from[i]);
    }
    assert(end_of(s, from) == end_of(s, run));
    lemma_swapped_run(run, v.fin(end_of(s, run)));
}

} // verus!
