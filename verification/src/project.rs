//! Turning a transducer into an acceptor by keeping one side.
use crate::arc::Arc;
use crate::arc_map::{
    arc_map, arc_map_to, lemma_plain, map_all, map_into, superfinal_state, ArcMapper,
    MapFinalAction, MapSymbolsAction,
};
use crate::error::OpenFstError;
use crate::paths::{accepted_weight, end_of, is_accepting, reads, state_at, steps, total, writes};
use crate::properties::{project_properties, spec_project_properties, K_FST_PROPERTIES};
use crate::vector_fst::{set_bits, FstV, StateV, VectorFst};
use crate::weight::Weight;
use vstd::prelude::*;

verus! {

/// Which side to keep.
#[derive(Debug, Clone, Copy, PartialEq, Eq, Structural)]
pub enum ProjectType {
    /// Keep the input labels, copying them onto the output side.
    Input,
    /// Keep the output labels, copying them onto the input side.
    Output,
}

/// Copies one side of an arc onto both.
#[derive(Debug, Clone, Copy)]
pub struct ProjectMapper {
    project_type: ProjectType,
}

impl ProjectMapper {
    /// The side that is kept.
    pub closed spec fn side(self) -> ProjectType {
        self.project_type
    }

    /// Keeps the side named by `project_type`.
    pub fn new(project_type: ProjectType) -> (mapper: Self)
        ensures
            mapper.side() == project_type,
    {
        ProjectMapper { project_type }
    }
}

/// The arc with one side copied onto both.
pub open spec fn one_sided<W: Weight>(arc: Arc<W>, side: ProjectType) -> Arc<W> {
    match side {
        ProjectType::Input => Arc { olabel: arc.ilabel, ..arc },
        ProjectType::Output => Arc { ilabel: arc.olabel, ..arc },
    }
}

/// The states with one side of every arc copied onto both.
pub open spec fn one_sided_states<W: Weight>(states: Seq<StateV<W>>, side: ProjectType) -> Seq<
    StateV<W>,
> {
    Seq::new(
        states.len(),
        |s: int|
            StateV {
                final_weight: states[s].final_weight,
                arcs: states[s].arcs.map_values(|arc: Arc<W>| one_sided(arc, side)),
            },
    )
}

impl<W: Weight> ArcMapper<W, W> for ProjectMapper {
    type Model = ProjectType;

    open spec fn wf(&self) -> bool {
        true
    }

    open spec fn model(&self) -> ProjectType {
        self.side()
    }

    open spec fn mapped(m: ProjectType, arc: Arc<W>) -> Arc<W> {
        one_sided(arc, m)
    }

    open spec fn moved(m: ProjectType, arc: Arc<W>) -> ProjectType {
        m
    }

    open spec fn spec_final_action(m: ProjectType) -> MapFinalAction {
        MapFinalAction::NoSuperfinal
    }

    open spec fn spec_input_symbols_action(m: ProjectType) -> MapSymbolsAction {
        match m {
            ProjectType::Input => MapSymbolsAction::Copy,
            ProjectType::Output => MapSymbolsAction::Clear,
        }
    }

    open spec fn spec_output_symbols_action(m: ProjectType) -> MapSymbolsAction {
        match m {
            ProjectType::Output => MapSymbolsAction::Copy,
            ProjectType::Input => MapSymbolsAction::Clear,
        }
    }

    open spec fn spec_properties(m: ProjectType, props: u64) -> u64 {
        spec_project_properties(props, m == ProjectType::Input)
    }

    fn map(&mut self, arc: &Arc<W>) -> (to: Arc<W>) {
        let label: i32 = match self.project_type {
            ProjectType::Input => arc.ilabel,
            ProjectType::Output => arc.olabel,
        };
        Arc::new(label, label, arc.weight.duplicate(), arc.nextstate)
    }

    fn final_action(&self) -> (action: MapFinalAction) {
        MapFinalAction::NoSuperfinal
    }

    fn input_symbols_action(&self) -> (action: MapSymbolsAction) {
        match self.project_type {
            ProjectType::Input => MapSymbolsAction::Copy,
            ProjectType::Output => MapSymbolsAction::Clear,
        }
    }

    fn output_symbols_action(&self) -> (action: MapSymbolsAction) {
        match self.project_type {
            ProjectType::Output => MapSymbolsAction::Copy,
            ProjectType::Input => MapSymbolsAction::Clear,
        }
    }

    fn properties(&self, props: u64) -> (out: u64) {
        project_properties(props, self.project_type == ProjectType::Input)
    }
}

/// The machine with one side copied onto both, its table describing both. One
/// that has no start keeps its arcs.
pub open spec fn projected<W: Weight>(v: FstV<W>, side: ProjectType) -> FstV<W> {
    let table = match side {
        ProjectType::Input => v.isymbols,
        ProjectType::Output => v.osymbols,
    };
    let named = FstV { isymbols: table, osymbols: table, ..v };
    if v.start is None {
        named
    } else {
        let done = named.with_states(one_sided_states(v.states, side));
        FstV {
            props: set_bits(
                done.props,
                spec_project_properties(v.props & K_FST_PROPERTIES, side == ProjectType::Input),
                K_FST_PROPERTIES,
            ),
            ..done
        }
    }
}

proof fn lemma_projected<W: Weight>(v: FstV<W>, side: ProjectType)
    ensures
        map_all::<W, W, ProjectMapper>(side, v).failed is None,
        !map_all::<W, W, ProjectMapper>(side, v).superfinal,
        map_all::<W, W, ProjectMapper>(side, v).model == side,
        map_all::<W, W, ProjectMapper>(side, v).done + superfinal_state(false) == one_sided_states(
            v.states,
            side,
        ),
{
    lemma_plain::<W, W, ProjectMapper>(side, v.states, v.n() as usize, v.n() as int);
    let done = map_all::<W, W, ProjectMapper>(side, v).done;
    assert forall|s: int| 0 <= s < v.n() implies done[s] == one_sided_states(v.states, side)[s] by {
        assert(done[s].arcs =~= one_sided_states(v.states, side)[s].arcs);
    }
    assert(done + superfinal_state(false) =~= one_sided_states(v.states, side));
}

/// Projects `fst` onto one side in place, leaving an acceptor.
pub fn project<W: Weight>(fst: &mut VectorFst<W>, project_type: ProjectType) -> (result: Result<
    (),
    OpenFstError,
>)
    requires
        old(fst)@.wf(),
        old(fst)@.n() < usize::MAX,
    ensures
        result is Ok,
        final(fst)@ == projected(old(fst)@, project_type),
{
    proof {
        lemma_projected(fst@, project_type);
    }
    let mut mapper = ProjectMapper::new(project_type);
    let result = arc_map(fst, &mut mapper);
    // The side that was kept now describes both, so its table describes both.
    match project_type {
        ProjectType::Input => {
            let table = fst.input_symbols();
            fst.set_output_symbols(table);
        },
        ProjectType::Output => {
            let table = fst.output_symbols();
            fst.set_input_symbols(table);
        },
    }
    result
}

/// Writes the projection of `ifst` into `ofst`.
pub fn project_to<W: Weight>(
    ifst: &VectorFst<W>,
    ofst: &mut VectorFst<W>,
    project_type: ProjectType,
) -> (result: Result<(), OpenFstError>)
    requires
        ifst@.wf(),
        ifst@.n() < usize::MAX,
    ensures
        result is Ok,
        final(ofst)@.start == ifst@.start,
        final(ofst)@.states == (if ifst@.start is None {
            Seq::empty()
        } else {
            one_sided_states(ifst@.states, project_type)
        }),
        final(ofst)@.isymbols == projected(ifst@, project_type).isymbols,
        final(ofst)@.osymbols == projected(ifst@, project_type).osymbols,
        final(ofst)@.props == map_into::<W, W, ProjectMapper>(
            project_type,
            ifst@,
            old(ofst)@,
        ).props,
{
    proof {
        lemma_projected(ifst@, project_type);
    }
    let mut mapper = ProjectMapper::new(project_type);
    let result = arc_map_to(ifst, ofst, &mut mapper);
    match project_type {
        ProjectType::Input => ofst.set_output_symbols(ifst.input_symbols()),
        ProjectType::Output => ofst.set_input_symbols(ifst.output_symbols()),
    }
    result
}

/// Whether every arc writes what it reads.
pub open spec fn is_acceptor<W: Weight>(v: FstV<W>) -> bool {
    forall|s: int, i: int|
        0 <= s < v.n() && 0 <= i < v.states[s].arcs.len() ==> (
        #[trigger] v.states[s].arcs[i]).ilabel == v.states[s].arcs[i].olabel
}

/// A projection is an acceptor.
pub proof fn law_projection_is_an_acceptor<W: Weight>(v: FstV<W>, side: ProjectType)
    requires
        v.start is Some,
    ensures
        is_acceptor(projected(v, side)),
{
}

/// Projecting an acceptor changes none of its states and arcs.
pub proof fn law_projecting_an_acceptor<W: Weight>(v: FstV<W>, side: ProjectType)
    requires
        is_acceptor(v),
    ensures
        projected(v, side).states == v.states,
        projected(v, side).start == v.start,
{
    let states = one_sided_states(v.states, side);
    assert forall|s: int| 0 <= s < v.n() implies states[s] == v.states[s] by {
        assert forall|i: int| 0 <= i < v.states[s].arcs.len() implies states[s].arcs[i]
            == v.states[s].arcs[i] by {
            assert(v.states[s].arcs[i].ilabel == v.states[s].arcs[i].olabel);
        }
        assert(states[s].arcs =~= v.states[s].arcs);
    }
    assert(states =~= v.states);
}

/// What one side of a run says.
pub open spec fn says<W: Weight>(run: Seq<Arc<W>>, side: ProjectType) -> Seq<i32> {
    match side {
        ProjectType::Input => reads(run),
        ProjectType::Output => writes(run),
    }
}

proof fn lemma_one_sided_run<W: Weight>(run: Seq<Arc<W>>, side: ProjectType, end: W)
    ensures
        reads(run.map_values(|arc: Arc<W>| one_sided(arc, side))) == says(run, side),
        writes(run.map_values(|arc: Arc<W>| one_sided(arc, side))) == says(run, side),
        total(run.map_values(|arc: Arc<W>| one_sided(arc, side)), end) == total(run, end),
    decreases run.len(),
{
    let f = |arc: Arc<W>| one_sided(arc, side);
    let made = run.map_values(f);
    if run.len() > 0 {
        lemma_one_sided_run(run.drop_last(), side, end);
        lemma_one_sided_run(run.drop_first(), side, end);
        assert(made.drop_last() =~= run.drop_last().map_values(f));
        assert(made.drop_first() =~= run.drop_first().map_values(f));
    } else {
        assert(made =~= run);
    }
}

/// A projection accepts, along each run that the machine accepts along, what one side of it
/// says, reading and writing it, and with the same weight.
pub proof fn law_projecting_keeps_paths<W: Weight>(
    v: FstV<W>,
    side: ProjectType,
    run: Seq<Arc<W>>,
) -> (kept: Seq<Arc<W>>)
    requires
        is_accepting(v, run),
    ensures
        is_accepting(projected(v, side), kept),
        reads(kept) == says(run, side),
        writes(kept) == says(run, side),
        projected(v, side).fin(end_of(v.start->0 as int, kept)) == v.fin(
            end_of(v.start->0 as int, run),
        ),
        accepted_weight(projected(v, side), kept) == accepted_weight(v, run),
{
    let f = |arc: Arc<W>| one_sided(arc, side);
    let kept = run.map_values(f);
    let p = projected(v, side);
    let s = v.start->0 as int;
    assert(p.n() == v.n());
    assert forall|i: int| 0 <= i < kept.len() implies #[trigger] steps(p, s, kept, i) by {
        assert(steps(v, s, run, i));
        let x = state_at(s, run, i);
        assert(state_at(s, kept, i) == x);
        let j = choose|j: int| 0 <= j < v.arcs(x).len() && v.arcs(x)[j] == run[i];
        assert(p.arcs(x)[j] == kept[i]);
    }
    assert(end_of(s, kept) == end_of(s, run));
    lemma_one_sided_run(run, side, v.fin(end_of(s, run)));
    kept
}

/// A projection accepts nothing else: each run it accepts along is one that the machine
/// accepts along, seen from one side.
pub proof fn law_projecting_adds_no_path<W: Weight>(
    v: FstV<W>,
    side: ProjectType,
    run: Seq<Arc<W>>,
) -> (from: Seq<Arc<W>>)
    requires
        v.start is Some,
        is_accepting(projected(v, side), run),
    ensures
        is_accepting(v, from),
        reads(run) == says(from, side),
        writes(run) == says(from, side),
        accepted_weight(projected(v, side), run) == accepted_weight(v, from),
{
    let f = |arc: Arc<W>| one_sided(arc, side);
    let p = projected(v, side);
    let s = v.start->0 as int;
    assert(p.n() == v.n() && p.start == v.start);
    let from = Seq::new(
        run.len(),
        |i: int|
            choose|arc: Arc<W>| #[trigger]
                v.arcs(state_at(s, run, i)).contains(arc) && one_sided(arc, side) == run[i],
    );
    assert forall|i: int| 0 <= i < run.len() implies v.arcs(state_at(s, run, i)).contains(
        #[trigger] from[i],
    ) && one_sided(from[i], side) == run[i] && 0 <= state_at(s, run, i) < v.n() by {
        assert(steps(p, s, run, i));
        let x = state_at(s, run, i);
        let j = choose|j: int| 0 <= j < p.arcs(x).len() && p.arcs(x)[j] == run[i];
        let arc = v.arcs(x)[j];
        assert(v.arcs(x).contains(arc) && one_sided(arc, side) == run[i]);
    }
    assert(from.map_values(f) =~= run);
    assert forall|i: int| 0 <= i < from.len() implies #[trigger] steps(v, s, from, i) by {
        assert(v.arcs(state_at(s, run, i)).contains(from[i]));
        if i > 0 {
            assert(one_sided(from[i - 1], side) == run[i - 1]);
        }
        assert(state_at(s, from, i) == state_at(s, run, i));
    }
    if run.len() > 0 {
        assert(one_sided(from[run.len() - 1], side) == run[run.len() - 1]);
    }
    assert(end_of(s, from) == end_of(s, run));
    lemma_one_sided_run(from, side, v.fin(end_of(s, from)));
    from
}

} // verus!
