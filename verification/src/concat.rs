//! Following what one machine accepts by what another does.
use crate::arc::{Arc, EPSILON};
use crate::error::OpenFstError;
use crate::paths::{
    accepted_weight, are_alike, end_of, is_accepting, is_ending, is_run, lemma_after_first,
    lemma_alike, lemma_go_first, lemma_reads_concat, lemma_run_stays, lemma_total_behind,
    lemma_total_concat, lemma_writes_concat, multiplies_along, reads, state_at, steps, takes,
    total, writes,
};
use crate::properties::{
    concat_properties, spec_concat_properties, K_ERROR, K_FST_PROPERTIES,
};
use crate::symbol_table::{compat_symbols_rc, spec_compat_symbols};
use crate::vector_fst::{lemma_forget_forget, set_bits, FstV, StateV, VectorFst};
use crate::weight::Weight;
use vstd::prelude::*;

verus! {

/// Whether two machines name their labels alike.
pub open spec fn symbols_agree<W: Weight>(a: FstV<W>, b: FstV<W>) -> bool {
    spec_compat_symbols(a.isymbols, b.isymbols) && spec_compat_symbols(a.osymbols, b.osymbols)
}

/// Whether two machines name their labels alike.
pub(crate) fn check_symbols<W: Weight>(a: &VectorFst<W>, b: &VectorFst<W>) -> (agree: bool)
    ensures
        agree == symbols_agree(a@, b@),
{
    compat_symbols_rc(&a.input_symbols(), &b.input_symbols()) && compat_symbols_rc(
        &a.output_symbols(),
        &b.output_symbols(),
    )
}

/// The arc, leading `by` states further.
pub open spec fn shifted<W: Weight>(arc: Arc<W>, by: int) -> Arc<W> {
    Arc { nextstate: (arc.nextstate + by) as usize, ..arc }
}

/// The arcs, leading `by` states further.
pub open spec fn shifted_arcs<W: Weight>(arcs: Seq<Arc<W>>, by: int) -> Seq<Arc<W>> {
    arcs.map_values(|arc: Arc<W>| shifted(arc, by))
}

/// The state, its arcs leading `by` states further.
pub open spec fn shifted_state<W: Weight>(state: StateV<W>, by: int) -> StateV<W> {
    StateV { arcs: shifted_arcs(state.arcs, by), ..state }
}

/// The arc from where the first machine ends to where the second begins.
pub open spec fn bridge<W: Weight>(w: W, to: usize) -> Arc<W> {
    Arc { ilabel: EPSILON, olabel: EPSILON, weight: w, nextstate: to }
}

/// A state of the first machine, carrying on where it used to end.
pub open spec fn carried_on<W: Weight>(state: StateV<W>, to: Option<usize>) -> StateV<W> {
    if state.final_weight == W::spec_zero() {
        state
    } else {
        StateV {
            final_weight: W::spec_zero(),
            arcs: match to {
                Some(t) => state.arcs.push(bridge(state.final_weight, t)),
                None => state.arcs,
            },
        }
    }
}

/// Where the second machine begins once its states follow those of the first.
pub open spec fn second_start<W: Weight>(v1: FstV<W>, v2: FstV<W>) -> Option<usize> {
    match v2.start {
        Some(s) => Some((s + v1.n()) as usize),
        None => None,
    }
}

/// The states of the first machine followed by the second.
pub open spec fn appended<W: Weight>(v1: FstV<W>, v2: FstV<W>) -> Seq<StateV<W>> {
    Seq::new(v1.n(), |s: int| carried_on(v1.states[s], second_start(v1, v2))) + Seq::new(
        v2.n(),
        |s: int| shifted_state(v2.states[s], v1.n() as int),
    )
}

/// Whether following the first machine by the second changes any state of it.
pub open spec fn append_changes<W: Weight>(v1: FstV<W>, v2: FstV<W>) -> bool {
    v2.n() > 0 || exists|s: int| 0 <= s < v1.n() && #[trigger] v1.fin(s) != W::spec_zero()
}

/// The first machine, followed by the second.
pub open spec fn concatenated<W: Weight>(v1: FstV<W>, v2: FstV<W>) -> FstV<W> {
    if !symbols_agree(v1, v2) {
        FstV { props: set_bits(v1.props, K_ERROR, K_ERROR), ..v1 }
    } else if v1.start is None {
        if v2.props & K_FST_PROPERTIES & K_ERROR != 0 {
            FstV { props: set_bits(v1.props, K_ERROR, K_ERROR), ..v1 }
        } else {
            v1
        }
    } else {
        let props = if append_changes(v1, v2) {
            v1.forget().props
        } else {
            v1.props
        };
        FstV {
            states: appended(v1, v2),
            props: if v2.start is Some {
                set_bits(
                    props,
                    spec_concat_properties(v1.props & K_FST_PROPERTIES, v2.props & K_FST_PROPERTIES),
                    K_FST_PROPERTIES,
                )
            } else {
                props
            },
            ..v1
        }
    }
}

/// The arcs, each leading `by` states further.
fn shift_arcs<W: Weight>(arcs: &Vec<Arc<W>>, by: usize) -> (out: Vec<Arc<W>>)
    requires
        forall|i: int| 0 <= i < arcs@.len() ==> (#[trigger] arcs@[i]).nextstate + by <= usize::MAX,
    ensures
        out@ == shifted_arcs(arcs@, by as int),
{
    let mut out: Vec<Arc<W>> = Vec::new();
    let mut i: usize = 0;
    while i < arcs.len()
        invariant
            i <= arcs@.len(),
            out@ =~= shifted_arcs(arcs@.take(i as int), by as int),
            forall|i: int|
                0 <= i < arcs@.len() ==> (#[trigger] arcs@[i]).nextstate + by <= usize::MAX,
        decreases arcs@.len() - i,
    {
        assert(arcs@[i as int].nextstate + by <= usize::MAX);
        out.push(arcs[i].redirected(arcs[i].nextstate + by));
        i = i + 1;
    }
    assert(arcs@.take(arcs@.len() as int) =~= arcs@);
    out
}

/// Appends `fst2` to `fst1`.
///
/// Symbol tables that disagree are an error.
pub fn concat<W: Weight>(fst1: &mut VectorFst<W>, fst2: &VectorFst<W>) -> (result: Result<
    (),
    OpenFstError,
>)
    requires
        fst2@.wf(),
        old(fst1)@.n() + fst2@.n() <= usize::MAX,
    ensures
        final(fst1)@ == concatenated(old(fst1)@, fst2@),
        result is Ok <==> symbols_agree(old(fst1)@, fst2@),
        result matches Err(e) ==> e is SymbolTable,
{
    let ghost v1 = fst1@;
    let ghost v2 = fst2@;
    if !check_symbols(fst1, fst2) {
        fst1.set_properties(K_ERROR, K_ERROR);
        return Err(
            OpenFstError::SymbolTable("Concat: the two FSTs' symbol tables do not agree"),
        );
    }
    let props1: u64 = fst1.known_properties(K_FST_PROPERTIES);
    let props2: u64 = fst2.known_properties(K_FST_PROPERTIES);
    if fst1.start().is_none() {
        // The first machine accepts nothing, so nothing followed by anything is
        // still nothing.
        if props2 & K_ERROR != 0 {
            fst1.set_properties(K_ERROR, K_ERROR);
        }
        return Ok(());
    }
    proof {
        lemma_forget_forget(v1);
    }
    let numstates1: usize = fst1.num_states();
    let numstates2: usize = fst2.num_states();
    let mut s: usize = 0;
    while s < numstates2
        invariant
            s <= numstates2,
            v2 == fst2@,
            v2.wf(),
            numstates1 == v1.n(),
            numstates2 == v2.n(),
            v1.n() + v2.n() <= usize::MAX,
            v1.forget().forget() == v1.forget(),
            fst1@.start == v1.start,
            fst1@.isymbols == v1.isymbols,
            fst1@.osymbols == v1.osymbols,
            fst1@.props == (if s > 0 {
                v1.forget().props
            } else {
                v1.props
            }),
            fst1@.states == v1.states + Seq::new(
                s as nat,
                |k: int| shifted_state(v2.states[k], v1.n() as int),
            ),
        decreases numstates2 - s,
    {
        assert forall|i: int| 0 <= i < v2.arcs(s as int).len() implies (#[trigger] v2.arcs(
            s as int,
        )[i]).nextstate + numstates1 <= usize::MAX by {
            assert(v2.states[s as int].arcs[i].nextstate < v2.n());
        }
        let state1: usize = fst1.add_state();
        fst1.set_final(state1, fst2.final_weight(s));
        fst1.set_arcs(state1, shift_arcs(fst2.arcs(s), numstates1));
        s = s + 1;
        assert(fst1@.states =~= v1.states + Seq::new(
            s as nat,
            |k: int| shifted_state(v2.states[k], v1.n() as int),
        ));
    }
    assert(v1.states + Seq::new(0, |k: int| shifted_state(v2.states[k], v1.n() as int))
        =~= v1.states);

    // Where the first machine used to end, it now carries on into the second, and
    // its final weight moves onto the arc that does so.
    let zero = W::zero();
    let start2: Option<usize> = fst2.start();
    let ghost to = second_start(v1, v2);
    let mut index: usize = 0;
    while index < numstates1
        invariant
            index <= numstates1,
            v2.wf(),
            zero == W::spec_zero(),
            start2 == v2.start,
            to == second_start(v1, v2),
            numstates1 == v1.n(),
            v1.n() + v2.n() <= usize::MAX,
            v1.forget().forget() == v1.forget(),
            fst1@.n() == v1.n() + v2.n(),
            fst1@.start == v1.start,
            fst1@.isymbols == v1.isymbols,
            fst1@.osymbols == v1.osymbols,
            fst1@.props == (if v2.n() > 0 || exists|x: int|
                0 <= x < index && #[trigger] v1.fin(x) != W::spec_zero() {
                v1.forget().props
            } else {
                v1.props
            }),
            forall|x: int| 0 <= x < index ==> #[trigger] fst1@.states[x] == carried_on(
                v1.states[x],
                to,
            ),
            forall|x: int| index <= x < v1.n() ==> #[trigger] fst1@.states[x] == v1.states[x],
            forall|x: int|
                v1.n() <= x < v1.n() + v2.n() ==> #[trigger] fst1@.states[x] == shifted_state(
                    v2.states[x - v1.n()],
                    v1.n() as int,
                ),
        decreases numstates1 - index,
    {
        let weight = fst1.final_weight(index);
        assert(weight == v1.fin(index as int));
        if !weight.same(&zero) {
            fst1.set_final(index, zero.duplicate());
            if let Some(start2) = start2 {
                fst1.add_arc(index, Arc::new(EPSILON, EPSILON, weight, start2 + numstates1));
            }
        }
        index = index + 1;
    }
    assert(fst1@.states =~= appended(v1, v2));
    if start2.is_some() {
        let after: u64 = concat_properties(props1, props2);
        fst1.set_properties(after, K_FST_PROPERTIES);
    }
    Ok(())
}

/// A state of the first machine put behind the states of the second, going on to
/// where that begins.
pub open spec fn led_on<W: Weight>(state: StateV<W>, start2: usize, by: int) -> StateV<W> {
    StateV {
        final_weight: W::spec_zero(),
        arcs: (if state.final_weight != W::spec_zero() {
            seq![bridge(state.final_weight, start2)]
        } else {
            Seq::empty()
        }) + shifted_arcs(state.arcs, by),
    }
}

/// The states of the second machine, with those of the first put in front of where
/// it begins.
pub open spec fn prepended<W: Weight>(v1: FstV<W>, v2: FstV<W>) -> Seq<StateV<W>> {
    let both = v2.states + Seq::new(
        v1.n(),
        |s: int| led_on(v1.states[s], v2.start->0, v2.n() as int),
    );
    if v1.start is None {
        both.push(StateV::fresh())
    } else {
        both
    }
}

/// The second machine, led up to by the first.
pub open spec fn concatenated_onto<W: Weight>(v1: FstV<W>, v2: FstV<W>) -> FstV<W> {
    if !symbols_agree(v1, v2) {
        FstV { props: set_bits(v2.props, K_ERROR, K_ERROR), ..v2 }
    } else if v2.start is None {
        if v1.props & K_FST_PROPERTIES & K_ERROR != 0 {
            FstV { props: set_bits(v2.props, K_ERROR, K_ERROR), ..v2 }
        } else {
            v2
        }
    } else {
        FstV {
            start: match v1.start {
                Some(s) => Some((s + v2.n()) as usize),
                None => Some((v1.n() + v2.n()) as usize),
            },
            states: prepended(v1, v2),
            props: if v1.start is Some {
                set_bits(
                    v2.forget().props,
                    spec_concat_properties(v1.props & K_FST_PROPERTIES, v2.props & K_FST_PROPERTIES),
                    K_FST_PROPERTIES,
                )
            } else {
                v2.forget().props
            },
            ..v2
        }
    }
}

/// Prepends `fst1` to `fst2`.
///
/// Kept apart from [`concat`](fn@concat) because which machine is the mutable one
/// decides which one's states have to be renumbered, and renumbering the shorter
/// of the two is the point of having both.
pub fn concat_onto<W: Weight>(fst1: &VectorFst<W>, fst2: &mut VectorFst<W>) -> (result: Result<
    (),
    OpenFstError,
>)
    requires
        fst1@.wf(),
        fst1@.n() + old(fst2)@.n() < usize::MAX,
    ensures
        final(fst2)@ == concatenated_onto(fst1@, old(fst2)@),
        result is Ok <==> symbols_agree(fst1@, old(fst2)@),
        result matches Err(e) ==> e is SymbolTable,
{
    let ghost v1 = fst1@;
    let ghost v2 = fst2@;
    if !check_symbols(fst1, fst2) {
        fst2.set_properties(K_ERROR, K_ERROR);
        return Err(
            OpenFstError::SymbolTable("Concat: the two FSTs' symbol tables do not agree"),
        );
    }
    let props1: u64 = fst1.known_properties(K_FST_PROPERTIES);
    let props2: u64 = fst2.known_properties(K_FST_PROPERTIES);
    let start2: usize = match fst2.start() {
        Some(s) => s,
        None => {
            if props1 & K_ERROR != 0 {
                fst2.set_properties(K_ERROR, K_ERROR);
            }
            return Ok(());
        },
    };
    proof {
        lemma_forget_forget(v2);
    }
    let numstates1: usize = fst1.num_states();
    let numstates2: usize = fst2.num_states();
    let zero = W::zero();
    let mut s: usize = 0;
    while s < numstates1
        invariant
            s <= numstates1,
            v1 == fst1@,
            v1.wf(),
            zero == W::spec_zero(),
            v2.start == Some(start2),
            numstates1 == v1.n(),
            numstates2 == v2.n(),
            v1.n() + v2.n() < usize::MAX,
            v2.forget().forget() == v2.forget(),
            fst2@.start == v2.start,
            fst2@.isymbols == v2.isymbols,
            fst2@.osymbols == v2.osymbols,
            fst2@.forget().props == v2.forget().props,
            fst2@.states == v2.states + Seq::new(
                s as nat,
                |k: int| led_on(v1.states[k], start2, v2.n() as int),
            ),
        decreases numstates1 - s,
    {
        assert forall|i: int| 0 <= i < v1.arcs(s as int).len() implies (#[trigger] v1.arcs(
            s as int,
        )[i]).nextstate + numstates2 <= usize::MAX by {
            assert(v1.states[s as int].arcs[i].nextstate < v1.n());
        }
        let ghost before = fst2@;
        let state: usize = fst2.add_state();
        let weight = fst1.final_weight(s);
        let mut arcs: Vec<Arc<W>> = Vec::new();
        if !weight.same(&zero) {
            arcs.push(Arc::new(EPSILON, EPSILON, weight, start2));
        }
        let ghost head = arcs@;
        let mut rest = shift_arcs(fst1.arcs(s), numstates2);
        let ghost tail = rest@;
        arcs.append(&mut rest);
        assert(arcs@ =~= head + tail);
        assert(head =~= (if v1.fin(s as int) != W::spec_zero() {
            seq![bridge(v1.fin(s as int), start2)]
        } else {
            Seq::empty()
        }));
        fst2.set_arcs(state, arcs);
        proof {
            lemma_forget_forget(before);
        }
        s = s + 1;
        assert(fst2@.states =~= v2.states + Seq::new(
            s as nat,
            |k: int| led_on(v1.states[k], start2, v2.n() as int),
        ));
    }
    match fst1.start() {
        Some(start1) => {
            fst2.set_start(start1 + numstates2);
            let after: u64 = concat_properties(props1, props2);
            fst2.set_properties(after, K_FST_PROPERTIES);
            assert(fst2@.states =~= prepended(v1, v2));
        },
        None => {
            // The first machine accepts nothing, so neither does the result; a
            // start state with no way out says exactly that.
            let dead: usize = fst2.add_state();
            fst2.set_start(dead);
            proof {
                lemma_forget_forget(fst2@);
            }
            assert(fst2@.states =~= prepended(v1, v2));
        },
    }
    Ok(())
}

/// A run, an arc that reads and writes nothing, and another run, one after the other.
proof fn lemma_in_a_row<W: Weight>(
    a: Seq<Arc<W>>,
    over: Arc<W>,
    b: Seq<Arc<W>>,
    run1: Seq<Arc<W>>,
    run2: Seq<Arc<W>>,
    end: W,
)
    requires
        are_alike(a, run1),
        are_alike(b, run2),
        over.ilabel == EPSILON,
        over.olabel == EPSILON,
    ensures
        reads(a.push(over) + b) == reads(run1) + reads(run2),
        writes(a.push(over) + b) == writes(run1) + writes(run2),
        total(a.push(over) + b, end) == total(run1, over.weight.spec_times(total(run2, end))),
{
    let one = seq![over];
    lemma_reads_concat(a.push(over), b);
    lemma_writes_concat(a.push(over), b);
    assert(a.push(over).drop_last() =~= a);
    assert(a.push(over) + b =~= a + (one + b));
    assert((one + b).drop_first() =~= b);
    lemma_total_concat(a, one + b, end);
    lemma_alike(a, run1, total(one + b, end));
    lemma_alike(b, run2, end);
}

/// Moving runs to other states leaves what they read, write and weigh.
proof fn lemma_shifted_alike<W: Weight>(run: Seq<Arc<W>>, by: int)
    ensures
        are_alike(shifted_arcs(run, by), run),
{
}

/// A run of the first machine, the bridge, and a run of the second, as they follow one
/// another in the two in a row.
pub open spec fn joined_run<W: Weight>(
    v1: FstV<W>,
    v2: FstV<W>,
    run1: Seq<Arc<W>>,
    run2: Seq<Arc<W>>,
) -> Seq<Arc<W>> {
    run1.push(
        bridge(
            v1.fin(end_of(v1.start->0 as int, run1)),
            (v2.start->0 + v1.n()) as usize,
        ),
    ) + shifted_arcs(run2, v1.n() as int)
}

/// What a joined run reads, writes and weighs.
proof fn lemma_joined_tells<W: Weight>(
    v1: FstV<W>,
    v2: FstV<W>,
    run1: Seq<Arc<W>>,
    run2: Seq<Arc<W>>,
)
    requires
        v1.wf(),
        v2.wf(),
        v1.n() + v2.n() <= usize::MAX,
        symbols_agree(v1, v2),
        is_accepting(v1, run1),
        is_accepting(v2, run2),
    ensures
        ({
            let all = joined_run(v1, v2, run1, run2);
            let c = concatenated(v1, v2);
            let second = accepted_weight(v2, run2);
            let end1 = v1.fin(end_of(v1.start->0 as int, run1));
            &&& reads(all) == reads(run1) + reads(run2)
            &&& writes(all) == writes(run1) + writes(run2)
            &&& accepted_weight(c, all) == total(run1, end1.spec_times(second))
        }),
{
    let c = concatenated(v1, v2);
    let n = v1.n() as int;
    let s1 = v1.start->0 as int;
    let s2 = v2.start->0 as int;
    let over = bridge(v1.fin(end_of(s1, run1)), (v2.start->0 + v1.n()) as usize);
    let more = shifted_arcs(run2, n);
    let all = joined_run(v1, v2, run1, run2);
    lemma_shifted_alike(run2, n);
    let f = end_of(s2, run2);
    lemma_run_stays(v2, s2, run2, run2.len() as int);
    assert(end_of(s1, all) == f + n) by {
        if run2.len() > 0 {
            assert(all[all.len() - 1] == more[run2.len() - 1]);
        }
    }
    assert(c.states[f + n] == shifted_state(v2.states[f], n));
    lemma_in_a_row(run1, over, more, run1, run2, v2.fin(f));
}

/// A run of the first machine, the bridge and a run of the second is a run of the
/// two in a row. It reads what the two read, writes what the two write, and weighs what
/// the two weigh, multiplied, where weights multiply along.
pub proof fn law_concat_accepts<W: Weight>(
    v1: FstV<W>,
    v2: FstV<W>,
    run1: Seq<Arc<W>>,
    run2: Seq<Arc<W>>,
)
    requires
        v1.wf(),
        v2.wf(),
        v1.n() + v2.n() <= usize::MAX,
        symbols_agree(v1, v2),
        is_accepting(v1, run1),
        is_accepting(v2, run2),
    ensures
        ({
            let all = joined_run(v1, v2, run1, run2);
            let c = concatenated(v1, v2);
            &&& is_accepting(c, all)
            &&& reads(all) == reads(run1) + reads(run2)
            &&& writes(all) == writes(run1) + writes(run2)
            &&& multiplies_along::<W>() ==> accepted_weight(c, all) == accepted_weight(
                v1,
                run1,
            ).spec_times(accepted_weight(v2, run2))
        }),
{
    let c = concatenated(v1, v2);
    let n = v1.n() as int;
    let s1 = v1.start->0 as int;
    let s2 = v2.start->0 as int;
    let e = end_of(s1, run1);
    let over = bridge(v1.fin(e), (v2.start->0 + v1.n()) as usize);
    let more = shifted_arcs(run2, n);
    let all = joined_run(v1, v2, run1, run2);
    assert(all == run1.push(over) + more);
    assert forall|i: int| 0 <= i < all.len() implies #[trigger] steps(c, s1, all, i) by {
        if i < run1.len() {
            let p = state_at(s1, run1, i);
            assert(steps(v1, s1, run1, i));
            lemma_run_stays(v1, s1, run1, i);
            let k = choose|k: int| 0 <= k < v1.arcs(p).len() && v1.arcs(p)[k] == run1[i];
            assert(c.states[p] == carried_on(v1.states[p], second_start(v1, v2)));
            assert(c.arcs(p)[k] == run1[i]);
            assert(all[i] == run1[i]);
            assert(state_at(s1, all, i) == p);
        } else if i == run1.len() {
            lemma_run_stays(v1, s1, run1, i);
            assert(state_at(s1, all, i) == e);
            assert(c.states[e] == carried_on(v1.states[e], second_start(v1, v2)));
            assert(c.arcs(e)[v1.arcs(e).len() as int] == over);
        } else {
            let j = i - run1.len() - 1;
            assert(steps(v2, s2, run2, j));
            lemma_run_stays(v2, s2, run2, j);
            let q = state_at(s2, run2, j);
            let k = choose|k: int| 0 <= k < v2.arcs(q).len() && v2.arcs(q)[k] == run2[j];
            assert(all[i] == shifted(run2[j], n));
            assert(state_at(s1, all, i) == q + n) by {
                if j > 0 {
                    assert(all[i - 1] == more[j - 1]);
                }
            }
            assert(c.states[q + n] == shifted_state(v2.states[q], n));
            assert(c.arcs(q + n)[k] == all[i]);
        }
    }
    lemma_run_stays(v2, s2, run2, run2.len() as int);
    let f = end_of(s2, run2);
    assert(end_of(s1, all) == f + n) by {
        if run2.len() > 0 {
            assert(all[all.len() - 1] == more[run2.len() - 1]);
        }
    }
    assert(c.states[f + n] == shifted_state(v2.states[f], n));
    lemma_joined_tells(v1, v2, run1, run2);
    if multiplies_along::<W>() {
        lemma_total_behind(run1, v1.fin(e), accepted_weight(v2, run2));
    }
}

/// Whether the first `k` arcs of a run are accepted by the first machine, the next
/// is the bridge, and the rest are accepted by the second.
pub open spec fn crosses_at<W: Weight>(v1: FstV<W>, v2: FstV<W>, run: Seq<Arc<W>>, k: int) -> bool {
    &&& 0 <= k < run.len()
    &&& v2.start is Some
    &&& is_accepting(v1, run.take(k))
    &&& run[k] == bridge(
        v1.fin(end_of(v1.start->0 as int, run.take(k))),
        (v2.start->0 + v1.n()) as usize,
    )
    &&& exists|run2: Seq<Arc<W>>| #[trigger]
        is_accepting(v2, run2) && run.skip(k + 1) == shifted_arcs(run2, v1.n() as int)
}

/// Everything that two machines in a row accept is accepted by the first, then by
/// the second: each run is a run of the first, the bridge, and a run of the second.
pub proof fn law_concat_splits<W: Weight>(v1: FstV<W>, v2: FstV<W>, run: Seq<Arc<W>>) -> (parts: (
    Seq<Arc<W>>,
    Seq<Arc<W>>,
))
    requires
        v1.wf(),
        v2.wf(),
        v1.n() + v2.n() <= usize::MAX,
        symbols_agree(v1, v2),
        is_accepting(concatenated(v1, v2), run),
    ensures
        is_accepting(v1, parts.0),
        is_accepting(v2, parts.1),
        run == joined_run(v1, v2, parts.0, parts.1),
{
    lemma_crosses(v1, v2, run, 0);
    let k = choose|k: int| #[trigger] crosses_at(v1, v2, run, k);
    let run1 = run.take(k);
    let run2 = choose|run2: Seq<Arc<W>>| #[trigger]
        is_accepting(v2, run2) && run.skip(k + 1) == shifted_arcs(run2, v1.n() as int);
    assert(run =~= run1.push(run[k]) + run.skip(k + 1));
    (run1, run2)
}

proof fn lemma_crosses<W: Weight>(v1: FstV<W>, v2: FstV<W>, run: Seq<Arc<W>>, k: int)
    requires
        v1.wf(),
        v2.wf(),
        v1.n() + v2.n() <= usize::MAX,
        symbols_agree(v1, v2),
        v1.start is Some,
        is_accepting(concatenated(v1, v2), run),
        0 <= k <= run.len(),
        is_run(v1, v1.start->0 as int, run.take(k)),
    ensures
        exists|k: int| #[trigger] crosses_at(v1, v2, run, k),
    decreases run.len() - k,
{
    let c = concatenated(v1, v2);
    let s = v1.start->0 as int;
    let p = state_at(s, run, k);
    assert(state_at(s, run.take(k), k) == p);
    lemma_run_stays(v1, s, run.take(k), k);
    assert(c.states[p] == carried_on(v1.states[p], second_start(v1, v2)));
    if k < run.len() {
        assert(steps(c, s, run, k));
        if takes(v1, p, run[k]) {
            let next = run.take(k + 1);
            assert forall|i: int| 0 <= i < next.len() implies #[trigger] steps(v1, s, next, i) by {
                if i < k {
                    assert(steps(v1, s, run.take(k), i));
                    assert(state_at(s, next, i) == state_at(s, run.take(k), i));
                } else {
                    assert(state_at(s, next, i) == p);
                }
            }
            lemma_crosses(v1, v2, run, k + 1);
        } else {
            lemma_crosses_here(v1, v2, run, k);
        }
    }
}

proof fn lemma_crosses_here<W: Weight>(v1: FstV<W>, v2: FstV<W>, run: Seq<Arc<W>>, k: int)
    requires
        v1.wf(),
        v2.wf(),
        v1.n() + v2.n() <= usize::MAX,
        symbols_agree(v1, v2),
        v1.start is Some,
        is_accepting(concatenated(v1, v2), run),
        0 <= k < run.len(),
        is_run(v1, v1.start->0 as int, run.take(k)),
        !takes(v1, state_at(v1.start->0 as int, run, k), run[k]),
    ensures
        crosses_at(v1, v2, run, k),
{
    let c = concatenated(v1, v2);
    let n = v1.n() as int;
    let s = v1.start->0 as int;
    let p = state_at(s, run, k);
    assert(state_at(s, run.take(k), k) == p);
    lemma_run_stays(v1, s, run.take(k), k);
    assert(c.states[p] == carried_on(v1.states[p], second_start(v1, v2)));
    assert(steps(c, s, run, k));
    let j = choose|j: int| 0 <= j < c.arcs(p).len() && c.arcs(p)[j] == run[k];
    if j < v1.arcs(p).len() {
        assert(v1.arcs(p)[j] == run[k]);
    }
    assert(end_of(s, run.take(k)) == p);
    let s2 = v2.start->0 as int;
    let rest = run.skip(k + 1);
    let run2 = rest.map_values(|arc: Arc<W>| shifted(arc, -n));
    assert forall|i: int| 0 <= i < rest.len() implies #[trigger] steps(v2, s2, run2, i) && shifted(
        run2[i],
        n,
    ) == rest[i] by {
        lemma_second_part(v1, v2, run, k, i);
    }
    assert forall|i: int| 0 <= i < rest.len() implies #[trigger] shifted_arcs(run2, n)[i]
        == rest[i] by {
        assert(steps(v2, s2, run2, i));
    }
    assert(shifted_arcs(run2, n) =~= rest);
    if rest.len() > 0 {
        lemma_second_part(v1, v2, run, k, rest.len() - 1);
        let q = state_at(s2, run2, rest.len() - 1);
        assert(steps(v2, s2, run2, rest.len() - 1));
        lemma_run_stays(v2, s2, run2, run2.len() as int);
        assert(run[run.len() - 1] == rest[rest.len() - 1]);
    }
    let f = end_of(s2, run2);
    assert(end_of(s, run) == f + n);
    assert(c.states[f + n] == shifted_state(v2.states[f], n));
    assert(is_accepting(v2, run2));
}

proof fn lemma_second_part<W: Weight>(v1: FstV<W>, v2: FstV<W>, run: Seq<Arc<W>>, k: int, i: int)
    requires
        v1.wf(),
        v2.wf(),
        v1.n() + v2.n() <= usize::MAX,
        symbols_agree(v1, v2),
        v1.start is Some,
        v2.start is Some,
        is_accepting(concatenated(v1, v2), run),
        0 <= k < run.len(),
        run[k].nextstate == v2.start->0 + v1.n(),
        0 <= i < run.len() - k - 1,
    ensures
        ({
            let n = v1.n() as int;
            let run2 = run.skip(k + 1).map_values(|arc: Arc<W>| shifted(arc, -n));
            &&& steps(v2, v2.start->0 as int, run2, i)
            &&& shifted(run2[i], n) == run[k + 1 + i]
            &&& run2[i].nextstate < v2.n()
        }),
    decreases i,
{
    let c = concatenated(v1, v2);
    let n = v1.n() as int;
    let s = v1.start->0 as int;
    let s2 = v2.start->0 as int;
    let run2 = run.skip(k + 1).map_values(|arc: Arc<W>| shifted(arc, -n));
    let q = state_at(s2, run2, i);
    if i > 0 {
        lemma_second_part(v1, v2, run, k, i - 1);
        assert(shifted(run2[i - 1], n) == run[k + i]);
    }
    assert(0 <= q < v2.n());
    assert(state_at(s, run, k + 1 + i) == q + n);
    assert(steps(c, s, run, k + 1 + i));
    assert(c.states[q + n] == shifted_state(v2.states[q], n));
    let j = choose|j: int|
        0 <= j < c.arcs(q + n).len() && #[trigger] c.arcs(q + n)[j] == run[k + 1 + i];
    assert(v2.states[q].arcs[j].nextstate < v2.n());
    assert(run[k + 1 + i] == shifted(v2.arcs(q)[j], n));
    assert(run2[i] == shifted(run[k + 1 + i], -n));
    assert(run2[i] == v2.arcs(q)[j]);
}

/// A run of the first machine, the bridge, and a run of the second, as they follow one
/// another where the first has been put in front of the second.
pub open spec fn led_run<W: Weight>(
    v1: FstV<W>,
    v2: FstV<W>,
    s: int,
    run1: Seq<Arc<W>>,
    run2: Seq<Arc<W>>,
) -> Seq<Arc<W>> {
    shifted_arcs(run1, v2.n() as int).push(bridge(v1.fin(end_of(s, run1)), v2.start->0)) + run2
}

/// What the second machine ends from a state of its own, it ends with the first in front
/// of it, and nothing else.
proof fn lemma_second_is_kept<W: Weight>(v1: FstV<W>, v2: FstV<W>, s: int, run: Seq<Arc<W>>)
    requires
        v1.wf(),
        v2.wf(),
        v1.n() + v2.n() < usize::MAX,
        symbols_agree(v1, v2),
        v2.start is Some,
        0 <= s < v2.n(),
    ensures
        is_ending(concatenated_onto(v1, v2), s, run) <==> is_ending(v2, s, run),
        is_ending(v2, s, run) ==> concatenated_onto(v1, v2).fin(end_of(s, run)) == v2.fin(
            end_of(s, run),
        ),
    decreases run.len(),
{
    let c = concatenated_onto(v1, v2);
    lemma_onto_wf(v1, v2);
    assert(c.states[s] == v2.states[s]);
    assert(c.arcs(s) == v2.arcs(s));
    if run.len() > 0 {
        let rest = run.drop_first();
        let t = run[0].nextstate as int;
        if is_ending(v2, s, run) {
            lemma_after_first(v2, s, run);
            lemma_second_is_kept(v1, v2, t, rest);
            lemma_go_first(c, s, run[0], rest);
        }
        if is_ending(c, s, run) {
            lemma_after_first(c, s, run);
            let i = choose|i: int| 0 <= i < v2.arcs(s).len() && v2.arcs(s)[i] == run[0];
            assert(v2.states[s].arcs[i].nextstate < v2.n());
            lemma_second_is_kept(v1, v2, t, rest);
            lemma_go_first(v2, s, run[0], rest);
        }
    }
}

/// Putting the first machine in front of the second leaves a machine in order.
proof fn lemma_onto_wf<W: Weight>(v1: FstV<W>, v2: FstV<W>)
    requires
        v1.wf(),
        v2.wf(),
        v1.n() + v2.n() < usize::MAX,
        symbols_agree(v1, v2),
        v2.start is Some,
    ensures
        concatenated_onto(v1, v2).wf(),
{
    let c = concatenated_onto(v1, v2);
    assert forall|s: int, i: int| 0 <= s < c.n() && 0 <= i < c.states[s].arcs.len() implies (
    #[trigger] c.states[s].arcs[i]).nextstate < c.n() by {
        if s < v2.n() {
            assert(c.states[s] == v2.states[s]);
            assert(v2.states[s].arcs[i].nextstate < v2.n());
        } else if s < v1.n() + v2.n() {
            let p = s - v2.n();
            let state = v1.states[p];
            assert(c.states[s] == led_on(state, v2.start->0, v2.n() as int));
            if state.final_weight != W::spec_zero() {
                if i > 0 {
                    assert(v1.states[p].arcs[i - 1].nextstate < v1.n());
                }
            } else {
                assert(v1.states[p].arcs[i].nextstate < v1.n());
            }
        }
    }
}

/// A run of the first machine from `s`, the bridge and a run of the second is a run from
/// where `s` has been put.
proof fn lemma_led_run_goes<W: Weight>(
    v1: FstV<W>,
    v2: FstV<W>,
    s: int,
    run1: Seq<Arc<W>>,
    run2: Seq<Arc<W>>,
)
    requires
        v1.wf(),
        v2.wf(),
        v1.n() + v2.n() < usize::MAX,
        symbols_agree(v1, v2),
        0 <= s < v1.n(),
        is_ending(v1, s, run1),
        is_accepting(v2, run2),
    ensures
        ({
            let c = concatenated_onto(v1, v2);
            let all = led_run(v1, v2, s, run1, run2);
            &&& is_ending(c, s + v2.n(), all)
            &&& c.fin(end_of(s + v2.n(), all)) == v2.fin(end_of(v2.start->0 as int, run2))
        }),
    decreases run1.len(),
{
    let c = concatenated_onto(v1, v2);
    let n = v2.n() as int;
    let all = led_run(v1, v2, s, run1, run2);
    let state = v1.states[s];
    assert(c.states[s + n] == led_on(state, v2.start->0, n));
    if run1.len() == 0 {
        let over = bridge(v1.fin(s), v2.start->0);
        assert(all =~= seq![over] + run2);
        lemma_second_is_kept(v1, v2, v2.start->0 as int, run2);
        assert(c.arcs(s + n)[0] == over);
        lemma_go_first(c, s + n, over, run2);
    } else {
        lemma_after_first(v1, s, run1);
        let t = run1[0].nextstate as int;
        let first = shifted(run1[0], n);
        lemma_led_run_goes(v1, v2, t, run1.drop_first(), run2);
        let rest = led_run(v1, v2, t, run1.drop_first(), run2);
        assert(all =~= seq![first] + rest);
        let i = choose|i: int| 0 <= i < v1.arcs(s).len() && v1.arcs(s)[i] == run1[0];
        let j = if state.final_weight != W::spec_zero() {
            i + 1
        } else {
            i
        };
        assert(c.arcs(s + n)[j] == first);
        lemma_go_first(c, s + n, first, rest);
    }
}

/// A run from where a state of the first machine has been put is a run of the first from
/// it, the bridge, and a run of the second.
proof fn lemma_led_run_parts<W: Weight>(v1: FstV<W>, v2: FstV<W>, s: int, run: Seq<Arc<W>>) -> (parts: (
    Seq<Arc<W>>,
    Seq<Arc<W>>,
))
    requires
        v1.wf(),
        v2.wf(),
        v1.n() + v2.n() < usize::MAX,
        symbols_agree(v1, v2),
        v2.start is Some,
        0 <= s < v1.n(),
        is_ending(concatenated_onto(v1, v2), s + v2.n(), run),
    ensures
        is_ending(v1, s, parts.0),
        is_accepting(v2, parts.1),
        run == led_run(v1, v2, s, parts.0, parts.1),
    decreases run.len(),
{
    let c = concatenated_onto(v1, v2);
    let n = v2.n() as int;
    let state = v1.states[s];
    assert(c.states[s + n] == led_on(state, v2.start->0, n));
    assert(c.fin(s + n) == W::spec_zero());
    lemma_onto_wf(v1, v2);
    assert(run.len() > 0);
    lemma_after_first(c, s + n, run);
    let rest = run.drop_first();
    let here = c.arcs(s + n);
    let j = choose|j: int| 0 <= j < here.len() && here[j] == run[0];
    if state.final_weight != W::spec_zero() && j == 0 {
        lemma_second_is_kept(v1, v2, v2.start->0 as int, rest);
        let none = Seq::<Arc<W>>::empty();
        assert(run =~= led_run(v1, v2, s, none, rest));
        (none, rest)
    } else {
        let i = if state.final_weight != W::spec_zero() {
            j - 1
        } else {
            j
        };
        let arc = v1.arcs(s)[i];
        assert(v1.states[s].arcs[i].nextstate < v1.n());
        assert(run[0] == shifted(arc, n));
        let t = arc.nextstate as int;
        let (run1, run2) = lemma_led_run_parts(v1, v2, t, rest);
        lemma_go_first(v1, s, arc, run1);
        let all = seq![arc] + run1;
        assert(shifted_arcs(all, n) =~= seq![run[0]] + shifted_arcs(run1, n));
        assert(run =~= led_run(v1, v2, s, all, run2));
        (all, run2)
    }
}

/// With the first machine put in front of the second, a run of the first, the bridge and a
/// run of the second is accepted. It reads what the two read, writes what the two write,
/// and weighs what the two weigh, multiplied, where weights multiply along.
pub proof fn law_concat_onto_accepts<W: Weight>(
    v1: FstV<W>,
    v2: FstV<W>,
    run1: Seq<Arc<W>>,
    run2: Seq<Arc<W>>,
)
    requires
        v1.wf(),
        v2.wf(),
        v1.n() + v2.n() < usize::MAX,
        symbols_agree(v1, v2),
        is_accepting(v1, run1),
        is_accepting(v2, run2),
    ensures
        ({
            let all = led_run(v1, v2, v1.start->0 as int, run1, run2);
            let c = concatenated_onto(v1, v2);
            let end1 = v1.fin(end_of(v1.start->0 as int, run1));
            let second = accepted_weight(v2, run2);
            &&& is_accepting(c, all)
            &&& reads(all) == reads(run1) + reads(run2)
            &&& writes(all) == writes(run1) + writes(run2)
            &&& accepted_weight(c, all) == total(run1, end1.spec_times(second))
            &&& multiplies_along::<W>() ==> accepted_weight(c, all) == accepted_weight(
                v1,
                run1,
            ).spec_times(second)
        }),
{
    let s = v1.start->0 as int;
    let n = v2.n() as int;
    let end1 = v1.fin(end_of(s, run1));
    lemma_led_run_goes(v1, v2, s, run1, run2);
    lemma_shifted_alike(run1, n);
    lemma_in_a_row(
        shifted_arcs(run1, n),
        bridge(end1, v2.start->0),
        run2,
        run1,
        run2,
        v2.fin(end_of(v2.start->0 as int, run2)),
    );
    if multiplies_along::<W>() {
        lemma_total_behind(run1, end1, accepted_weight(v2, run2));
    }
}

/// With the first machine put in front of the second, nothing else is accepted.
pub proof fn law_concat_onto_splits<W: Weight>(v1: FstV<W>, v2: FstV<W>, run: Seq<Arc<W>>) -> (parts: (
    Seq<Arc<W>>,
    Seq<Arc<W>>,
))
    requires
        v1.wf(),
        v2.wf(),
        v1.n() + v2.n() < usize::MAX,
        symbols_agree(v1, v2),
        is_accepting(concatenated_onto(v1, v2), run),
    ensures
        is_accepting(v1, parts.0),
        is_accepting(v2, parts.1),
        run == led_run(v1, v2, v1.start->0 as int, parts.0, parts.1),
{
    let c = concatenated_onto(v1, v2);
    if v1.start is None {
        let dead = (v1.n() + v2.n()) as int;
        assert(c.states[dead] == StateV::<W>::fresh());
        if run.len() > 0 {
            assert(steps(c, dead, run, 0));
        }
    }
    lemma_led_run_parts(v1, v2, v1.start->0 as int, run)
}

/// Whichever of two machines the other is added to, the two in a row accept the same: for
/// each path of one there is a path of the other that reads, writes and weighs the same.
pub proof fn law_concat_either_way<W: Weight>(
    v1: FstV<W>,
    v2: FstV<W>,
    onto: bool,
    run: Seq<Arc<W>>,
) -> (other: Seq<Arc<W>>)
    requires
        v1.wf(),
        v2.wf(),
        v1.n() + v2.n() < usize::MAX,
        symbols_agree(v1, v2),
        is_accepting(
            if onto {
                concatenated_onto(v1, v2)
            } else {
                concatenated(v1, v2)
            },
            run,
        ),
    ensures
        ({
            let here = if onto {
                concatenated_onto(v1, v2)
            } else {
                concatenated(v1, v2)
            };
            let there = if onto {
                concatenated(v1, v2)
            } else {
                concatenated_onto(v1, v2)
            };
            &&& is_accepting(there, other)
            &&& reads(other) == reads(run)
            &&& writes(other) == writes(run)
            &&& accepted_weight(there, other) == accepted_weight(here, run)
        }),
{
    let (run1, run2) = if onto {
        law_concat_onto_splits(v1, v2, run)
    } else {
        law_concat_splits(v1, v2, run)
    };
    law_concat_accepts(v1, v2, run1, run2);
    lemma_joined_tells(v1, v2, run1, run2);
    law_concat_onto_accepts(v1, v2, run1, run2);
    if onto {
        joined_run(v1, v2, run1, run2)
    } else {
        led_run(v1, v2, v1.start->0 as int, run1, run2)
    }
}

/// The parts of a path of two machines in a row are one pair: two pairs of runs never
/// join to the same path, whichever machine the other was added to.
pub proof fn law_parts_are_one_pair<W: Weight>(
    v1: FstV<W>,
    v2: FstV<W>,
    a1: Seq<Arc<W>>,
    a2: Seq<Arc<W>>,
    b1: Seq<Arc<W>>,
    b2: Seq<Arc<W>>,
)
    requires
        v1.wf(),
        v2.wf(),
        v1.n() + v2.n() < usize::MAX,
        is_accepting(v1, a1),
        is_accepting(v2, a2),
        is_accepting(v1, b1),
        is_accepting(v2, b2),
        joined_run(v1, v2, a1, a2) == joined_run(v1, v2, b1, b2) || led_run(
            v1,
            v2,
            v1.start->0 as int,
            a1,
            a2,
        ) == led_run(v1, v2, v1.start->0 as int, b1, b2),
    ensures
        a1 == b1,
        a2 == b2,
{
    if a1.len() <= b1.len() {
        lemma_one_pair(v1, v2, a1, a2, b1, b2);
    } else {
        lemma_one_pair(v1, v2, b1, b2, a1, a2);
    }
}

proof fn lemma_one_pair<W: Weight>(
    v1: FstV<W>,
    v2: FstV<W>,
    a1: Seq<Arc<W>>,
    a2: Seq<Arc<W>>,
    b1: Seq<Arc<W>>,
    b2: Seq<Arc<W>>,
)
    requires
        v1.wf(),
        v2.wf(),
        v1.n() + v2.n() < usize::MAX,
        is_accepting(v1, a1),
        is_accepting(v2, a2),
        is_accepting(v1, b1),
        is_accepting(v2, b2),
        a1.len() <= b1.len(),
        joined_run(v1, v2, a1, a2) == joined_run(v1, v2, b1, b2) || led_run(
            v1,
            v2,
            v1.start->0 as int,
            a1,
            a2,
        ) == led_run(v1, v2, v1.start->0 as int, b1, b2),
    ensures
        a1 == b1,
        a2 == b2,
{
    let s1 = v1.start->0 as int;
    let s2 = v2.start->0 as int;
    let n1 = v1.n() as int;
    let n2 = v2.n() as int;
    let k = a1.len() as int;
    assert forall|i: int| 0 <= i < a1.len() implies (#[trigger] a1[i]).nextstate < n1 by {
        lemma_run_stays(v1, s1, a1, i + 1);
    }
    assert forall|i: int| 0 <= i < b1.len() implies (#[trigger] b1[i]).nextstate < n1 by {
        lemma_run_stays(v1, s1, b1, i + 1);
    }
    assert forall|i: int| 0 <= i < a2.len() implies (#[trigger] a2[i]).nextstate < n2 by {
        lemma_run_stays(v2, s2, a2, i + 1);
    }
    assert forall|i: int| 0 <= i < b2.len() implies (#[trigger] b2[i]).nextstate < n2 by {
        lemma_run_stays(v2, s2, b2, i + 1);
    }
    if joined_run(v1, v2, a1, a2) == joined_run(v1, v2, b1, b2) {
        let all = joined_run(v1, v2, a1, a2);
        let other = joined_run(v1, v2, b1, b2);
        if k < b1.len() {
            assert(all[k].nextstate == s2 + n1);
            assert(other[k] == b1[k]);
        }
        assert forall|i: int| 0 <= i < k implies a1[i] == b1[i] by {
            assert(all[i] == a1[i] && other[i] == b1[i]);
        }
        assert(a1 =~= b1);
        assert(all.len() == k + 1 + a2.len() && other.len() == k + 1 + b2.len());
        assert forall|i: int| 0 <= i < a2.len() implies a2[i] == b2[i] by {
            assert(all[k + 1 + i] == shifted(a2[i], n1));
            assert(other[k + 1 + i] == shifted(b2[i], n1));
        }
        assert(a2 =~= b2);
    } else {
        let all = led_run(v1, v2, s1, a1, a2);
        let other = led_run(v1, v2, s1, b1, b2);
        if k < b1.len() {
            assert(all[k].nextstate == s2);
            assert(other[k] == shifted(b1[k], n2));
        }
        assert forall|i: int| 0 <= i < k implies a1[i] == b1[i] by {
            assert(all[i] == shifted(a1[i], n2));
            assert(other[i] == shifted(b1[i], n2));
        }
        assert(a1 =~= b1);
        assert(all.len() == k + 1 + a2.len() && other.len() == k + 1 + b2.len());
        assert forall|i: int| 0 <= i < a2.len() implies a2[i] == b2[i] by {
            assert(all[k + 1 + i] == a2[i]);
            assert(other[k + 1 + i] == b2[i]);
        }
        assert(a2 =~= b2);
    }
}

} // verus!
