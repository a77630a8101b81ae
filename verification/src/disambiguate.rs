//! Leaving one path per input string.
//!
//! Determinization makes each input string readable one way by merging the states it
//! could be in; disambiguation instead chooses one of the ways and throws the others
//! away. No two distinct paths of the result spell the same input.
//!
//! It runs in three parts: a determinization that keeps track of which state of the
//! input each result state came from and only merges states that could still agree; a
//! search for the pairs of transitions that leave two paths spelling the same thing;
//! and the removal of one transition from each such pair.
use crate::ambiguity::{
    are_candidates, as_pair, clash, clash_at, expands, find_ambiguities, head_at, is_split,
    joins_splits, lead_to, listed, meet, no_splits, pair_leads, paired, paired_in, respects,
    same_label, ArcId, Candidate,
};
use crate::arc::Arc;
use crate::arcsort::{arc_sort, is_arc_sorted, lemma_arc_sorted_wf, ArcCompare};
use crate::common_future::common_future;
use crate::connect::{connect, law_trimming_adds_no_path, lemma_trimmed_wf, succeeds, trimmed};
use crate::error::OpenFstError;
use crate::hash_table::Table;
use crate::headed::{
    headed_start, headed_steps, heads_of, pre_disambiguate, pre_disambiguates, Headed, Heading,
};
use crate::list::sequence;
use crate::paths::{end_of, state_at, steps};
use crate::properties::{
    K_ACCEPTOR, K_ARC_SORT_PROPERTIES, K_FST_PROPERTIES, K_I_LABEL_SORTED, K_O_LABEL_SORTED,
};
use crate::sort::{law_ranked, lemma_ranked_to, put_in_order, ranked};
use crate::unfold::{
    is_unfolding, lemma_unfolded_wf, lemma_unfolding_keeps, meets_more, numbered, unfolds, within,
    Unfolding,
};
use crate::union_find::UnionFind;
use crate::vector_fst::{
    copy_states, lemma_forget_forget, named_after, set_bits, FstV, StateV, VectorFst,
};
use crate::weight::{Divide, Weight};
use std::cmp::Ordering;
use vstd::prelude::*;

verus! {

/// How to disambiguate.
#[derive(Debug)]
pub struct DisambiguateOptions<D> {
    /// How closely two subset weights must agree to count as the same.
    pub delta: D,
    /// A cap on how many states to build: not every machine can be disambiguated, and
    /// the ones that cannot need unboundedly many states.
    pub max_states: Option<usize>,
}

impl<D> DisambiguateOptions<D> {
    /// The usual way to disambiguate, with subset weights compared by `delta`.
    pub fn new(delta: D) -> (opts: Self)
        ensures
            opts == (DisambiguateOptions { delta, max_states: None }),
    {
        DisambiguateOptions { delta, max_states: None }
    }
}

/// Orders arcs by input label and then by where they lead.
#[derive(Debug, Clone, Copy)]
pub struct ByLabelAndTarget;

impl<W: Weight> ArcCompare<W> for ByLabelAndTarget {
    open spec fn before(&self, lhs: Arc<W>, rhs: Arc<W>) -> bool {
        lhs.ilabel < rhs.ilabel || (lhs.ilabel == rhs.ilabel && lhs.nextstate < rhs.nextstate)
    }

    open spec fn spec_properties(&self, props: u64) -> u64 {
        (props & K_ARC_SORT_PROPERTIES) | K_I_LABEL_SORTED | (if props & K_ACCEPTOR != 0 {
            K_O_LABEL_SORTED
        } else {
            0
        })
    }

    proof fn lemma_order(&self, a: Arc<W>, b: Arc<W>, c: Arc<W>) {
    }

    fn compare(&self, lhs: &Arc<W>, rhs: &Arc<W>) -> (order: Ordering) {
        if lhs.ilabel < rhs.ilabel || (lhs.ilabel == rhs.ilabel && lhs.nextstate < rhs.nextstate) {
            Ordering::Less
        } else if lhs.ilabel == rhs.ilabel && lhs.nextstate == rhs.nextstate {
            Ordering::Equal
        } else {
            Ordering::Greater
        }
    }

    fn properties(&self, props: u64) -> (out: u64) {
        let other: u64 = if props & K_ACCEPTOR != 0 {
            K_O_LABEL_SORTED
        } else {
            0
        };
        (props & K_ARC_SORT_PROPERTIES) | K_I_LABEL_SORTED | other
    }
}

/// The transitions that go, once the first `k` pairs have been decided: the first of a
/// pair goes if the other stays.
pub open spec fn going(ordered: Seq<Candidate>, k: int) -> Set<ArcId>
    decreases k,
{
    if k <= 0 {
        Set::empty()
    } else {
        let before = going(ordered, k - 1);
        if before.contains(ordered[k - 1].b) {
            before
        } else {
            before.insert(ordered[k - 1].a)
        }
    }
}

/// The transitions that go, decided in the order of the heads, states and positions of
/// the firsts, so that which of a pair survives does not depend on the order the pairs
/// were found in.
pub open spec fn ambiguous_arcs(found: Seq<Candidate>) -> Set<ArcId> {
    going(ranked(found), found.len() as int)
}

proof fn lemma_going(ordered: Seq<Candidate>, i: int, k: int)
    requires
        0 <= i < k <= ordered.len(),
    ensures
        going(ordered, k).contains(ordered[i].a) || going(ordered, k).contains(ordered[i].b),
    decreases k,
{
    if i < k - 1 {
        lemma_going(ordered, i, k - 1);
    }
}

/// Of each pair of transitions, one goes.
pub proof fn law_one_of_each_pair_goes(found: Seq<Candidate>, a: ArcId, b: ArcId)
    requires
        listed(found, a, b),
    ensures
        ambiguous_arcs(found).contains(a) || ambiguous_arcs(found).contains(b),
{
    let i = choose|i: int| 0 <= i < found.len() && (#[trigger] found[i]).a == a && found[i].b == b;
    law_ranked(found);
    let j = lemma_ranked_to(found, i);
    lemma_going(ranked(found), j, found.len() as int);
}

/// Decides which transition of each ambiguous pair goes.
fn mark_ambiguities(candidates: Vec<Candidate>) -> (ambiguous: Table<ArcId>)
    ensures
        ambiguous.wf(),
        forall|x: ArcId| #[trigger]
            ambiguous@.contains(x) <==> ambiguous_arcs(candidates@).contains(x),
{
    let ordered = put_in_order(candidates);
    let mut ambiguous: Table<ArcId> = Table::new();
    let mut k: usize = 0;
    while k < ordered.len()
        invariant
            k <= ordered@.len(),
            ambiguous.wf(),
            forall|x: ArcId| #[trigger]
                ambiguous@.contains(x) <==> going(ordered@, k as int).contains(x),
        decreases ordered@.len() - k,
    {
        // If the other is staying, then the first is the one that goes.
        let stays = ambiguous.find(&ordered[k].b).is_none();
        assert(stays == !ambiguous@.contains(ordered@[k as int].b));
        assert(stays == !going(ordered@, k as int).contains(ordered@[k as int].b));
        if stays {
            let ghost before = ambiguous@;
            let at: usize = ambiguous.insert(ordered[k].a);
            proof {
                let a = ordered@[k as int].a;
                assert forall|x: ArcId| #[trigger] ambiguous@.contains(x) <==> before.contains(x)
                    || x == a by {
                    if before.contains(x) {
                        let i = choose|i: int| 0 <= i < before.len() && before[i] == x;
                        assert(ambiguous@[i] == x);
                    }
                    if x == a {
                        assert(ambiguous@[at as int] == a);
                    }
                }
            }
        }
        k = k + 1;
    }
    ambiguous
}

/// Where an arc leads once states are merged.
pub open spec fn merged_target(sets: UnionFind, s: usize) -> usize {
    if sets.has(s as int) {
        sets.rep(s as int) as usize
    } else {
        s
    }
}

/// A state with its arcs leading to the states that stand for those they led to.
pub open spec fn merged_state<W>(state: StateV<W>, sets: UnionFind) -> StateV<W> {
    StateV {
        arcs: Seq::new(
            state.arcs.len(),
            |i: int|
                Arc { nextstate: merged_target(sets, state.arcs[i].nextstate), ..state.arcs[i] },
        ),
        ..state
    }
}

/// The machine with its arcs leading to the states that stand for those they led to.
pub open spec fn with_merged<W: Weight>(v: FstV<W>, sets: UnionFind) -> FstV<W> {
    v.with_states(Seq::new(v.n(), |s: int| merged_state(v.states[s], sets)))
}

/// Points the merged-away states at the ones that stand for them.
fn remove_splits<W: Weight>(fst: &mut VectorFst<W>, merge: &UnionFind)
    requires
        merge.wf(),
        old(fst)@.n() > 0,
    ensures
        final(fst)@ == with_merged(old(fst)@, *merge),
{
    let ghost v = fst@;
    let n: usize = fst.num_states();
    let mut s: usize = 0;
    fst.forget_properties();
    proof {
        lemma_forget_forget(v);
    }
    while s < n
        invariant
            s <= n,
            n == v.n(),
            merge.wf(),
            fst@ == v.with_states(fst@.states),
            fst@.n() == n,
            forall|x: int| 0 <= x < s ==> #[trigger] fst@.states[x] == merged_state(v.states[x], *merge),
            forall|x: int| s <= x < n ==> #[trigger] fst@.states[x] == v.states[x],
        decreases n - s,
    {
        let ghost now = fst@;
        let from = fst.arcs(s);
        let ghost old_arcs = from@;
        let ghost target = merged_state(v.states[s as int], *merge).arcs;
        let mut arcs: Vec<Arc<W>> = Vec::new();
        let mut i: usize = 0;
        while i < from.len()
            invariant
                i <= from@.len(),
                merge.wf(),
                from@ == v.states[s as int].arcs,
                target == merged_state(v.states[s as int], *merge).arcs,
                arcs@ == target.take(i as int),
            decreases from@.len() - i,
        {
            let arc = &from[i];
            let to: usize = match merge.find_set(arc.nextstate) {
                Some(r) => r,
                None => arc.nextstate,
            };
            arcs.push(Arc::new(arc.ilabel, arc.olabel, arc.weight.duplicate(), to));
            i = i + 1;
            assert(arcs@ =~= target.take(i as int));
        }
        assert(arcs@ =~= target);
        fst.set_arcs(s, arcs);
        proof {
            lemma_forget_forget(v);
            lemma_forget_forget(now);
            assert forall|x: int| 0 <= x < s + 1 implies #[trigger] fst@.states[x] == merged_state(
                v.states[x],
                *merge,
            ) by {
                if x < s {
                    assert(fst@.states[x] == now.states[x]);
                }
            }
        }
        s = s + 1;
    }
    assert(fst@.states =~= with_merged(v, *merge).states);
}

/// A state without the transitions that go: those that were arcs lead to `dead`.
pub open spec fn cut_state<W: Weight>(
    state: StateV<W>,
    s: usize,
    ambiguous: Set<ArcId>,
    dead: usize,
) -> StateV<W> {
    StateV {
        final_weight: if ambiguous.contains((s, None)) {
            W::spec_zero()
        } else {
            state.final_weight
        },
        arcs: Seq::new(
            state.arcs.len(),
            |i: int|
                if ambiguous.contains((s, Some(i as usize))) {
                    Arc { nextstate: dead, ..state.arcs[i] }
                } else {
                    state.arcs[i]
                },
        ),
    }
}

/// The machine with the transitions that go sent to a state that nothing leads out of.
pub open spec fn with_dead<W: Weight>(v: FstV<W>, ambiguous: Set<ArcId>) -> FstV<W> {
    v.with_states(
        Seq::new(
            v.n() + 1,
            |s: int|
                if s < v.n() {
                    cut_state(v.states[s], s as usize, ambiguous, v.n() as usize)
                } else {
                    StateV::fresh()
                },
        ),
    )
}

/// The machine without the transitions that go, nor what is on no path then.
pub open spec fn with_cut<W: Weight>(v: FstV<W>, ambiguous: Set<ArcId>) -> FstV<W> {
    if ambiguous.is_empty() {
        v
    } else {
        trimmed(with_dead(v, ambiguous))
    }
}

/// Sends the transitions of one state that go to the dead state.
fn cut_one<W: Weight>(
    fst: &mut VectorFst<W>,
    s: usize,
    ambiguous: &Table<ArcId>,
    dead: usize,
    Ghost(set): Ghost<Set<ArcId>>,
)
    requires
        s < old(fst)@.n(),
        ambiguous.wf(),
        forall|x: ArcId| #[trigger] ambiguous@.contains(x) <==> set.contains(x),
    ensures
        final(fst)@ == old(fst)@.with_state(
            s as int,
            cut_state(old(fst)@.states[s as int], s, set, dead),
        ),
{
    let ghost v = fst@;
    let ghost target = cut_state(v.states[s as int], s, set, dead);
    let mut arcs: Vec<Arc<W>> = Vec::new();
    {
        let from = fst.arcs(s);
        let mut i: usize = 0;
        while i < from.len()
            invariant
                i <= from@.len(),
                ambiguous.wf(),
                forall|x: ArcId| #[trigger] ambiguous@.contains(x) <==> set.contains(x),
                from@ == v.states[s as int].arcs,
                target == cut_state(v.states[s as int], s, set, dead),
                arcs@ == target.arcs.take(i as int),
            decreases from@.len() - i,
        {
            let arc = &from[i];
            let id: ArcId = (s, Some(i));
            let goes = ambiguous.find(&id).is_some();
            assert(goes == ambiguous@.contains(id));
            let to: usize = if goes {
                dead
            } else {
                arc.nextstate
            };
            arcs.push(Arc::new(arc.ilabel, arc.olabel, arc.weight.duplicate(), to));
            i = i + 1;
            assert(arcs@ =~= target.arcs.take(i as int));
        }
        assert(arcs@ =~= target.arcs);
    }
    fst.set_arcs(s, arcs);
    let id: ArcId = (s, None);
    let goes = ambiguous.find(&id).is_some();
    assert(goes == ambiguous@.contains(id));
    proof {
        lemma_forget_forget(v);
        lemma_forget_forget(fst@);
    }
    if goes {
        fst.set_final(s, W::zero());
    }
    proof {
        lemma_forget_forget(fst@);
        assert(fst@.states =~= v.states.update(s as int, target));
    }
}

/// Takes out the transitions that were chosen to go.
fn remove_ambiguities<W: Weight>(
    fst: &mut VectorFst<W>,
    ambiguous: &Table<ArcId>,
    Ghost(set): Ghost<Set<ArcId>>,
)
    requires
        old(fst)@.wf(),
        old(fst)@.n() < usize::MAX,
        ambiguous.wf(),
        forall|x: ArcId| #[trigger] ambiguous@.contains(x) <==> set.contains(x),
    ensures
        final(fst)@ == with_cut(old(fst)@, set),
{
    let ghost v = fst@;
    if ambiguous.len() == 0 {
        assert forall|x: ArcId| !set.contains(x) by {
            assert(!ambiguous@.contains(x));
        }
        assert(set =~= Set::empty());
        return;
    }
    assert(ambiguous@.contains(ambiguous@[0]));
    assert(!set.is_empty()) by {
        assert(set.contains(ambiguous@[0]));
    }
    // A state nothing leads out of, to send the removed transitions to; trimming then
    // takes them and it away.
    let n: usize = fst.num_states();
    let dead: usize = fst.add_state();
    proof {
        lemma_forget_forget(v);
    }
    let mut s: usize = 0;
    while s < n
        invariant
            s <= n,
            n == v.n(),
            dead == n,
            ambiguous.wf(),
            forall|x: ArcId| #[trigger] ambiguous@.contains(x) <==> set.contains(x),
            fst@ == v.with_states(fst@.states),
            fst@.n() == n + 1,
            fst@.states[n as int] == StateV::<W>::fresh(),
            forall|x: int|
                0 <= x < s ==> #[trigger] fst@.states[x] == cut_state(
                    v.states[x],
                    x as usize,
                    set,
                    dead,
                ),
            forall|x: int| s <= x < n ==> #[trigger] fst@.states[x] == v.states[x],
        decreases n - s,
    {
        let ghost now = fst@;
        cut_one(fst, s, ambiguous, dead, Ghost(set));
        proof {
            lemma_forget_forget(v);
            lemma_forget_forget(now);
            assert forall|x: int| 0 <= x < s + 1 implies #[trigger] fst@.states[x] == cut_state(
                v.states[x],
                x as usize,
                set,
                dead,
            ) by {
                if x < s {
                    assert(fst@.states[x] == now.states[x]);
                }
            }
        }
        s = s + 1;
    }
    proof {
        let d = with_dead(v, set);
        assert(fst@.states =~= d.states);
        assert forall|x: int, i: int|
            0 <= x < d.n() && 0 <= i < d.states[x].arcs.len() implies (
        #[trigger] d.states[x].arcs[i]).nextstate < d.n() by {
            if x < n {
                assert(v.states[x].arcs[i].nextstate < v.n());
            }
        }
    }
    connect(fst);
}

/// What disambiguating passes through.
pub struct Stages<W> {
    /// The input, trimmed and with its arcs in order.
    pub source: FstV<W>,
    /// What is built with the choices kept apart.
    pub built: FstV<W>,
    /// The state of the input that each state of it came from.
    pub heads: Seq<usize>,
    /// The same with its arcs in order.
    pub sorted: FstV<W>,
    /// The states that only quantization told apart.
    pub merge: Option<UnionFind>,
    /// The same with those merged.
    pub joined: FstV<W>,
    /// The pairs of transitions of which one has to go.
    pub found: Seq<Candidate>,
}

/// Whether the stages are those of disambiguating `v`, up to the machine that the
/// ambiguities are looked for in.
pub open spec fn are_stages<W: Divide>(v: FstV<W>, delta: W::Delta, d: Stages<W>) -> bool {
    &&& is_arc_sorted(ByLabelAndTarget, trimmed(v), d.source)
    &&& pre_disambiguates(d.source, delta, FstV::empty(), d.built, d.heads)
    &&& is_arc_sorted(ByLabelAndTarget, d.built, d.sorted)
    &&& match d.merge {
        None => no_splits(d.sorted, d.heads) && d.joined == d.sorted,
        Some(sets) => {
            &&& sets.wf()
            &&& joins_splits(d.sorted, d.heads, sets)
            &&& !no_splits(d.sorted, d.heads)
            &&& d.joined == with_merged(d.sorted, sets)
        },
    }
}

/// Whether the stages are those of disambiguating `v`, to the end.
pub open spec fn are_all_stages<W: Divide>(v: FstV<W>, delta: W::Delta, d: Stages<W>) -> bool {
    &&& are_stages(v, delta, d)
    &&& no_splits(d.joined, d.heads)
    &&& are_candidates(d.joined, d.heads, d.found)
}

/// What disambiguating leaves where `o` was.
pub open spec fn result_of<W: Weight>(v: FstV<W>, o: FstV<W>, d: Stages<W>) -> FstV<W> {
    let cut = with_cut(d.joined, ambiguous_arcs(d.found));
    FstV {
        start: cut.start,
        states: cut.states,
        props: set_bits(
            named_after(v, o).props,
            cut.props & K_FST_PROPERTIES,
            K_FST_PROPERTIES,
        ),
        ..named_after(v, o)
    }
}

/// Leaves one path per input string, keeping what the machine said.
pub fn disambiguate<W: Divide>(
    ifst: &VectorFst<W>,
    ofst: &mut VectorFst<W>,
    opts: &DisambiguateOptions<W::Delta>,
) -> (result: Result<(), OpenFstError>)
    requires
        ifst@.wf(),
    ensures
        match result {
            Ok(_) => exists|d: Stages<W>|
                {
                    &&& #[trigger] are_all_stages(ifst@, opts.delta, d)
                    &&& within(d.built.states, opts.max_states)
                    &&& is_countable(d.joined)
                    &&& final(ofst)@ == result_of(ifst@, old(ofst)@, d)
                },
            Err(e) => e is InvalidOperation && exists|d: Stages<W>|
                {
                    ||| is_arc_sorted(ByLabelAndTarget, trimmed(ifst@), #[trigger] d.source)
                        && d.source.start is Some && meets_more::<W, Headed<W>, Heading<W>>(
                        (d.source, opts.delta),
                        headed_start(d.source.start->0),
                        opts.max_states,
                    )
                    ||| are_stages(ifst@, opts.delta, d) && (!no_splits(d.joined, d.heads)
                        || d.joined.n() == usize::MAX)
                },
        },
        result is Err ==> final(ofst)@ == old(ofst)@,
{
    let mut source = ifst.duplicate();
    let n: usize = source.num_states();
    connect(&mut source);
    proof {
        lemma_trimmed_wf(ifst@);
    }
    let ghost trim = source@;
    arc_sort(&mut source, &ByLabelAndTarget);
    proof {
        lemma_arc_sorted_wf(ByLabelAndTarget, trim, source@);
    }
    // The relation is over the input side alone, so a transducer is read as the
    // acceptor of what it reads.
    let related = common_future(&source);
    let mut built: VectorFst<W> = VectorFst::new();
    let ghost mut d = Stages {
        source: source@,
        built: FstV::empty(),
        heads: Seq::empty(),
        sorted: FstV::empty(),
        merge: None,
        joined: FstV::empty(),
        found: Seq::empty(),
    };
    let heads = match pre_disambiguate(
        &source,
        &mut built,
        &related,
        &opts.delta,
        opts.max_states,
    ) {
        Ok(heads) => heads,
        Err(e) => {
            assert(d.source == source@);
            return Err(e);
        },
    };
    proof {
        d.built = built@;
        d.heads = heads@;
        lemma_built_wf(source@, opts.delta, FstV::empty(), built@, heads@);
    }
    let mut result = built;
    arc_sort(&mut result, &ByLabelAndTarget);
    proof {
        lemma_arc_sorted_wf(ByLabelAndTarget, d.built, result@);
        d.sorted = result@;
        d.joined = result@;
    }
    let mut found = find_ambiguities(&result, &heads);
    if let Some(merge) = found.merge {
        assert(result@.n() > 0) by {
            let p = choose|p: (usize, usize)| #[trigger] is_split(result@, heads@, p);
            lemma_split_needs_states(result@, heads@, p);
        }
        remove_splits(&mut result, &merge);
        proof {
            d.merge = Some(merge);
            d.joined = result@;
            lemma_merged_wf(d.sorted, merge);
        }
        // The merge changed where arcs lead, so the search runs again on what is now
        // there.
        found = find_ambiguities(&result, &heads);
        if found.merge.is_some() {
            assert(are_stages(ifst@, opts.delta, d));
            return Err(
                OpenFstError::InvalidOperation(
                    "Disambiguate: could not remove the states quantization split apart",
                ),
            );
        }
    }
    proof {
        d.found = found.candidates@;
        assert(are_all_stages(ifst@, opts.delta, d));
    }
    if result.num_states() == usize::MAX {
        return Err(OpenFstError::InvalidOperation("Disambiguate: too many states"));
    }
    proof {
        result.lemma_arcs_are_counted();
    }
    let ambiguous = mark_ambiguities(found.candidates);
    remove_ambiguities(&mut result, &ambiguous, Ghost(ambiguous_arcs(d.found)));
    ofst.delete_all_states();
    ofst.set_input_symbols(ifst.input_symbols());
    ofst.set_output_symbols(ifst.output_symbols());
    proof {
        lemma_forget_forget(old(ofst)@);
        lemma_forget_forget(ofst@);
        assert(ofst@ == named_after(ifst@, old(ofst)@));
    }
    copy_states(&result, ofst);
    let props: u64 = result.known_properties(K_FST_PROPERTIES);
    ofst.set_properties(props, K_FST_PROPERTIES);
    Ok(())
}

proof fn lemma_split_needs_states<W: Weight>(w: FstV<W>, heads: Seq<usize>, p: (usize, usize))
    requires
        w.wf(),
        is_split(w, heads, p),
    ensures
        w.n() > 0,
{
    if w.start is None {
        let k = choose|k: nat| paired_in(w, heads, p, k);
        lemma_pairs_need_start(w, heads, p, k);
    }
}

proof fn lemma_pairs_need_start<W: Weight>(
    w: FstV<W>,
    heads: Seq<usize>,
    p: (usize, usize),
    k: nat,
)
    requires
        paired_in(w, heads, p, k),
    ensures
        w.start is Some,
    decreases k,
{
    if k > 0 {
        let q = choose|q: (usize, usize)| #[trigger]
            pair_leads(w, q, p) && expands(heads, q) && paired_in(w, heads, q, (k - 1) as nat);
        lemma_pairs_need_start(w, heads, q, (k - 1) as nat);
    }
}

pub proof fn lemma_merged_wf<W: Weight>(v: FstV<W>, sets: UnionFind)
    requires
        v.wf(),
        sets.wf(),
        forall|x: int| #[trigger] sets.has(x) <==> 0 <= x < v.n(),
    ensures
        with_merged(v, sets).wf(),
{
    let w = with_merged(v, sets);
    assert forall|s: int, i: int| 0 <= s < w.n() && 0 <= i < w.states[s].arcs.len() implies (
    #[trigger] w.states[s].arcs[i]).nextstate < w.n() by {
        let next = v.states[s].arcs[i].nextstate;
        assert(next < v.n());
        assert(sets.has(next as int));
        sets.lemma_rep(next as int);
    }
}

pub proof fn lemma_built_wf<W: Divide>(
    v: FstV<W>,
    delta: W::Delta,
    o: FstV<W>,
    r: FstV<W>,
    heads: Seq<usize>,
)
    requires
        pre_disambiguates(v, delta, o, r, heads),
    ensures
        r.wf(),
{
    if let Some(s) = v.start {
        lemma_unfolded_wf::<W, Headed<W>, Heading<W>>((v, delta), headed_start(s), true, r);
    }
}

/// What a run reads, epsilons and all.
pub open spec fn spells<W>(run: Seq<Arc<W>>) -> Seq<i32> {
    Seq::new(run.len(), |i: int| run[i].ilabel)
}

proof fn lemma_same_labels<W>(r1: Seq<Arc<W>>, r2: Seq<Arc<W>>)
    requires
        spells(r1) == spells(r2),
    ensures
        r1.len() == r2.len(),
        forall|i: int| 0 <= i < r1.len() ==> (#[trigger] r1[i]).ilabel == r2[i].ilabel,
{
    assert(spells(r1).len() == r1.len());
    assert(spells(r2).len() == r2.len());
    assert forall|i: int| 0 <= i < r1.len() implies (#[trigger] r1[i]).ilabel == r2[i].ilabel by {
        assert(spells(r1)[i] == r1[i].ilabel);
        assert(spells(r2)[i] == r2[i].ilabel);
    }
}

/// Whether a machine has no more states and arcs than can be counted.
pub open spec fn is_countable<W: Weight>(w: FstV<W>) -> bool {
    &&& w.n() < usize::MAX
    &&& forall|s: int| 0 <= s < w.n() ==> (#[trigger] w.states[s]).arcs.len() <= usize::MAX
}

/// Whether no two arcs of a state read the same label and lead to the same state.
pub open spec fn no_parallels<W: Weight>(w: FstV<W>) -> bool {
    forall|s: int, i: int, j: int|
        0 <= s < w.n() && 0 <= i < j < w.states[s].arcs.len() ==> {
            ||| (#[trigger] w.states[s].arcs[i]).ilabel != (#[trigger] w.states[s].arcs[j]).ilabel
            ||| w.states[s].arcs[i].nextstate != w.states[s].arcs[j].nextstate
        }
}

/// Whether the `i`th arc of a run is an arc of the machine that stays.
pub open spec fn stays_at<W: Weight>(
    w: FstV<W>,
    gone: Set<ArcId>,
    s: int,
    run: Seq<Arc<W>>,
    i: int,
) -> bool {
    exists|k: int|
        {
            &&& 0 <= k < w.arcs(state_at(s, run, i)).len()
            &&& #[trigger] w.arcs(state_at(s, run, i))[k] == run[i]
            &&& !gone.contains((state_at(s, run, i) as usize, Some(k as usize)))
        }
}

/// Whether a run takes only transitions that stay, to the end.
pub open spec fn is_clean<W: Weight>(w: FstV<W>, gone: Set<ArcId>, run: Seq<Arc<W>>) -> bool {
    &&& w.start is Some
    &&& forall|i: int| 0 <= i < run.len() ==> #[trigger] stays_at(w, gone, w.start->0 as int, run, i)
    &&& w.fin(end_of(w.start->0 as int, run)) != W::spec_zero()
    &&& !gone.contains((end_of(w.start->0 as int, run) as usize, None))
}

pub proof fn lemma_clean_stays<W: Weight>(w: FstV<W>, gone: Set<ArcId>, run: Seq<Arc<W>>, i: int)
    requires
        w.wf(),
        is_clean(w, gone, run),
        0 <= i <= run.len(),
    ensures
        0 <= state_at(w.start->0 as int, run, i) < w.n(),
    decreases i,
{
    if i > 0 {
        lemma_clean_stays(w, gone, run, i - 1);
        let s = w.start->0 as int;
        assert(stays_at(w, gone, s, run, i - 1));
        let x = state_at(s, run, i - 1);
        let k = choose|k: int|
            {
                &&& 0 <= k < w.arcs(x).len()
                &&& #[trigger] w.arcs(x)[k] == run[i - 1]
                &&& !gone.contains((x as usize, Some(k as usize)))
            };
        assert(w.states[x].arcs[k].nextstate < w.n());
    }
}

/// The states that two runs with the same labels pass at a time are a pair.
proof fn lemma_runs_paired<W: Weight>(
    w: FstV<W>,
    heads: Seq<usize>,
    gone: Set<ArcId>,
    r1: Seq<Arc<W>>,
    r2: Seq<Arc<W>>,
    i: int,
)
    requires
        w.wf(),
        is_countable(w),
        no_splits(w, heads),
        is_clean(w, gone, r1),
        is_clean(w, gone, r2),
        spells(r1) == spells(r2),
        0 <= i <= r1.len(),
    ensures
        r1.len() == r2.len(),
        ({
            let s = w.start->0 as int;
            let p = as_pair(state_at(s, r1, i) as usize, state_at(s, r2, i) as usize);
            paired(w, heads, p) && expands(heads, p)
        }),
    decreases i,
{
    let s = w.start->0 as int;
    lemma_same_labels(r1, r2);
    let x = state_at(s, r1, i) as usize;
    let y = state_at(s, r2, i) as usize;
    lemma_clean_stays(w, gone, r1, i);
    lemma_clean_stays(w, gone, r2, i);
    if i == 0 {
        assert(paired_in(w, heads, (x, y), 0));
    } else {
        lemma_runs_paired(w, heads, gone, r1, r2, i - 1);
        let a = state_at(s, r1, i - 1);
        let b = state_at(s, r2, i - 1);
        lemma_clean_stays(w, gone, r1, i - 1);
        lemma_clean_stays(w, gone, r2, i - 1);
        let p = as_pair(a as usize, b as usize);
        assert(stays_at(w, gone, s, r1, i - 1));
        assert(stays_at(w, gone, s, r2, i - 1));
        let k1 = choose|k: int|
            {
                &&& 0 <= k < w.arcs(a).len()
                &&& #[trigger] w.arcs(a)[k] == r1[i - 1]
                &&& !gone.contains((a as usize, Some(k as usize)))
            };
        let k2 = choose|k: int|
            {
                &&& 0 <= k < w.arcs(b).len()
                &&& #[trigger] w.arcs(b)[k] == r2[i - 1]
                &&& !gone.contains((b as usize, Some(k as usize)))
            };
        let q = as_pair(x, y);
        if a <= b {
            assert(same_label(w, p, k1, k2));
            assert(lead_to(w, p, k1, k2) == q);
        } else {
            assert(same_label(w, p, k2, k1));
            assert(lead_to(w, p, k2, k1) == q);
        }
        assert(pair_leads(w, p, q));
        let n = choose|n: nat| paired_in(w, heads, p, n);
        assert(paired_in(w, heads, q, n + 1));
    }
    let q = as_pair(x, y);
    assert(paired(w, heads, q));
    assert(!is_split(w, heads, q));
}

/// Two runs with the same labels that stand apart never come together again.
proof fn lemma_runs_together<W: Weight>(
    w: FstV<W>,
    heads: Seq<usize>,
    found: Seq<Candidate>,
    r1: Seq<Arc<W>>,
    r2: Seq<Arc<W>>,
    i: int,
)
    requires
        w.wf(),
        is_countable(w),
        no_splits(w, heads),
        are_candidates(w, heads, found),
        is_clean(w, ambiguous_arcs(found), r1),
        is_clean(w, ambiguous_arcs(found), r2),
        spells(r1) == spells(r2),
        0 <= i <= r1.len(),
    ensures
        r1.len() == r2.len(),
        state_at(w.start->0 as int, r1, i) == state_at(w.start->0 as int, r2, i),
    decreases r1.len() - i,
{
    let gone = ambiguous_arcs(found);
    let s = w.start->0 as int;
    lemma_same_labels(r1, r2);
    let x = state_at(s, r1, i);
    let y = state_at(s, r2, i);
    lemma_clean_stays(w, gone, r1, i);
    lemma_clean_stays(w, gone, r2, i);
    lemma_runs_paired(w, heads, gone, r1, r2, i);
    if x != y {
        let p = as_pair(x as usize, y as usize);
        let a: ArcId;
        let b: ArcId;
        if i == r1.len() {
            a = (x as usize, None);
            b = (y as usize, None);
        } else {
            lemma_runs_together(w, heads, found, r1, r2, i + 1);
            assert(stays_at(w, gone, s, r1, i));
            assert(stays_at(w, gone, s, r2, i));
            let k1 = choose|k: int|
                {
                    &&& 0 <= k < w.arcs(x).len()
                    &&& #[trigger] w.arcs(x)[k] == r1[i]
                    &&& !gone.contains((x as usize, Some(k as usize)))
                };
            let k2 = choose|k: int|
                {
                    &&& 0 <= k < w.arcs(y).len()
                    &&& #[trigger] w.arcs(y)[k] == r2[i]
                    &&& !gone.contains((y as usize, Some(k as usize)))
                };
            assert(w.states[x].arcs.len() <= usize::MAX && w.states[y].arcs.len() <= usize::MAX);
            a = (x as usize, Some(k1 as usize));
            b = (y as usize, Some(k2 as usize));
        }
        assert(meet(w, a, b) && meet(w, b, a));
        if head_at(heads, x) > head_at(heads, y) {
            assert(clash_at(w, heads, p, a, b));
            assert(clash(w, heads, a, b));
            law_one_of_each_pair_goes(found, a, b);
        } else {
            assert(clash_at(w, heads, p, b, a));
            assert(clash(w, heads, b, a));
            law_one_of_each_pair_goes(found, b, a);
        }
    }
}

/// Of two runs with the same labels that take only transitions that stay, there is
/// one.
proof fn lemma_clean_runs_are_one<W: Weight>(
    w: FstV<W>,
    heads: Seq<usize>,
    found: Seq<Candidate>,
    r1: Seq<Arc<W>>,
    r2: Seq<Arc<W>>,
)
    requires
        w.wf(),
        is_countable(w),
        no_parallels(w),
        no_splits(w, heads),
        are_candidates(w, heads, found),
        is_clean(w, ambiguous_arcs(found), r1),
        is_clean(w, ambiguous_arcs(found), r2),
        spells(r1) == spells(r2),
    ensures
        r1 == r2,
{
    let gone = ambiguous_arcs(found);
    let s = w.start->0 as int;
    lemma_same_labels(r1, r2);
    assert forall|i: int| 0 <= i < r1.len() implies r1[i] == r2[i] by {
        lemma_runs_together(w, heads, found, r1, r2, i);
        lemma_runs_together(w, heads, found, r1, r2, i + 1);
        let x = state_at(s, r1, i);
        lemma_clean_stays(w, gone, r1, i);
        assert(stays_at(w, gone, s, r1, i));
        assert(stays_at(w, gone, s, r2, i));
        let k1 = choose|k: int|
            {
                &&& 0 <= k < w.arcs(x).len()
                &&& #[trigger] w.arcs(x)[k] == r1[i]
                &&& !gone.contains((x as usize, Some(k as usize)))
            };
        let k2 = choose|k: int|
            {
                &&& 0 <= k < w.arcs(x).len()
                &&& #[trigger] w.arcs(x)[k] == r2[i]
                &&& !gone.contains((x as usize, Some(k as usize)))
            };
        assert(w.states[x].arcs[k1].ilabel == w.states[x].arcs[k2].ilabel);
        assert(w.states[x].arcs[k1].nextstate == w.states[x].arcs[k2].nextstate);
    }
    assert(r1 =~= r2);
}

/// A successful path once the transitions that go lead nowhere takes only those that
/// stay.
pub proof fn lemma_dead_runs_are_clean<W: Weight>(w: FstV<W>, gone: Set<ArcId>, run: Seq<Arc<W>>)
    requires
        w.wf(),
        is_countable(w),
        succeeds(with_dead(w, gone), run),
    ensures
        is_clean(w, gone, run),
{
    let d = with_dead(w, gone);
    let s = w.start->0 as int;
    let n = w.n() as int;
    assert(d.wf()) by {
        assert forall|x: int, i: int|
            0 <= x < d.n() && 0 <= i < d.states[x].arcs.len() implies (
        #[trigger] d.states[x].arcs[i]).nextstate < d.n() by {
            if x < n {
                assert(w.states[x].arcs[i].nextstate < w.n());
            }
        }
    }
    assert forall|i: int| 0 <= i <= run.len() implies 0 <= #[trigger] state_at(s, run, i) < n by {
        crate::paths::lemma_run_stays(d, s, run, i);
        if state_at(s, run, i) == n {
            if i < run.len() {
                assert(steps(d, s, run, i));
                assert(d.arcs(n).len() == 0);
            } else {
                assert(d.fin(n) == W::spec_zero());
            }
        }
    }
    assert forall|i: int| 0 <= i < run.len() implies #[trigger] stays_at(w, gone, s, run, i) by {
        assert(steps(d, s, run, i));
        let x = state_at(s, run, i);
        let k = choose|k: int| 0 <= k < d.arcs(x).len() && d.arcs(x)[k] == run[i];
        assert(state_at(s, run, i + 1) < n);
        assert(d.states[x] == cut_state(w.states[x], x as usize, gone, n as usize));
        assert(w.arcs(x)[k] == run[i]);
    }
    let x = end_of(s, run);
    assert(state_at(s, run, run.len() as int) < n);
    assert(d.states[x] == cut_state(w.states[x], x as usize, gone, n as usize));
}

/// Arcs of a state built with the choices kept apart read different labels or lead to
/// states with different heads.
proof fn lemma_steps_apart<W: Divide>(
    v: FstV<W>,
    delta: W::Delta,
    subset: Seq<crate::determinize::Member<W>>,
    arcs: Seq<Arc<W>>,
    k: int,
)
    requires
        0 <= k <= arcs.len(),
        forall|i: int, j: int|
            0 <= i < j < arcs.len() ==> !ByLabelAndTarget.before(
                #[trigger] arcs[j],
                #[trigger] arcs[i],
            ),
    ensures
        ({
            let all = headed_steps(v, delta, subset, arcs, k);
            &&& forall|i: int, j: int|
                0 <= i < j < all.len() ==> (#[trigger] all[i]).ilabel != (#[trigger] all[j]).ilabel
                    || all[i].to.0 != all[j].to.0
            &&& forall|i: int|
                0 <= i < all.len() ==> k > 0 && ((#[trigger] all[i]).ilabel < arcs[k - 1].ilabel
                    || (all[i].ilabel == arcs[k - 1].ilabel && all[i].to.0 <= arcs[k
                    - 1].nextstate))
        }),
    decreases k,
{
    if k > 0 {
        lemma_steps_apart(v, delta, subset, arcs, k - 1);
        let before = headed_steps(v, delta, subset, arcs, k - 1);
        if k > 1 {
            assert(!ByLabelAndTarget.before(arcs[k - 1], arcs[k - 2]));
        }
    }
}

/// What is built with the choices kept apart has no two arcs alike.
proof fn lemma_built_apart<W: Divide>(
    v: FstV<W>,
    delta: W::Delta,
    o: FstV<W>,
    r: FstV<W>,
    heads: Seq<usize>,
)
    requires
        v.wf(),
        pre_disambiguates(v, delta, o, r, heads),
        forall|s: int, i: int, j: int|
            0 <= s < v.n() && 0 <= i < j < v.states[s].arcs.len() ==> !ByLabelAndTarget.before(
                #[trigger] v.states[s].arcs[j],
                #[trigger] v.states[s].arcs[i],
            ),
    ensures
        heads_tell_apart(r, heads),
        heads.len() == r.n(),
{
    if let Some(start) = v.start {
        let table = choose|table: Seq<Headed<W>>|
            {
                &&& #[trigger] is_unfolding::<W, Headed<W>, Heading<W>>(
                    (v, delta),
                    headed_start(start),
                    true,
                    table,
                    r.states,
                )
                &&& heads == heads_of(table)
            };
        lemma_heads_fit(v, delta, start, table, r);
        assert forall|s: int, i: int, j: int|
            0 <= s < r.n() && 0 <= i < j < r.states[s].arcs.len() implies {
            ||| (#[trigger] r.states[s].arcs[i]).ilabel != (#[trigger] r.states[s].arcs[j]).ilabel
            ||| head_at(heads, r.states[s].arcs[i].nextstate as int) != head_at(
                heads,
                r.states[s].arcs[j].nextstate as int,
            )
        } by {
            assert(unfolds::<W, Headed<W>, Heading<W>>((v, delta), table[s], r.states[s], table));
            let head = table[s].0 as int;
            let arcs = v.arcs(head);
            let subset = sequence(table[s].1);
            let all = headed_steps(v, delta, subset, arcs, arcs.len() as int);
            assert(numbered(all[i], r.states[s].arcs[i], table));
            assert(numbered(all[j], r.states[s].arcs[j], table));
            assert forall|a: int, b: int| 0 <= a < b < arcs.len() implies !ByLabelAndTarget.before(
                #[trigger] arcs[b],
                #[trigger] arcs[a],
            ) by {
                assert(!ByLabelAndTarget.before(v.states[head].arcs[b], v.states[head].arcs[a]));
            }
            lemma_steps_apart(v, delta, subset, arcs, arcs.len() as int);
        }
    }
}

/// Whether arcs of a state that read the same label lead to states with different
/// heads.
pub open spec fn heads_tell_apart<W: Weight>(w: FstV<W>, heads: Seq<usize>) -> bool {
    forall|s: int, i: int, j: int|
        0 <= s < w.n() && 0 <= i < j < w.states[s].arcs.len() ==> {
            ||| (#[trigger] w.states[s].arcs[i]).ilabel != (#[trigger] w.states[s].arcs[j]).ilabel
            ||| head_at(heads, w.states[s].arcs[i].nextstate as int) != head_at(
                heads,
                w.states[s].arcs[j].nextstate as int,
            )
        }
}

/// The heads are states of the input.
pub proof fn lemma_heads_fit<W: Divide>(
    v: FstV<W>,
    delta: W::Delta,
    start: usize,
    table: Seq<Headed<W>>,
    r: FstV<W>,
)
    requires
        v.wf(),
        v.start == Some(start),
        is_unfolding::<W, Headed<W>, Heading<W>>(
            (v, delta),
            headed_start(start),
            true,
            table,
            r.states,
        ),
    ensures
        forall|s: int| 0 <= s < table.len() ==> (#[trigger] table[s]).0 < v.n(),
{
    let inside = |key: Headed<W>| key.0 < v.n();
    assert forall|key: Headed<W>, i: int|
        inside(key) && 0 <= i < Heading::<W>::steps((v, delta), key).len() implies inside(
        (#[trigger] Heading::<W>::steps((v, delta), key)[i]).to,
    ) by {
        let arcs = v.arcs(key.0 as int);
        lemma_steps_lead(v, delta, sequence(key.1), key.0 as int, arcs.len() as int, i);
    }
    lemma_unfolding_keeps::<W, Headed<W>, Heading<W>>(
        (v, delta),
        headed_start(start),
        true,
        table,
        r.states,
        inside,
    );
}

proof fn lemma_steps_lead<W: Divide>(
    v: FstV<W>,
    delta: W::Delta,
    subset: Seq<crate::determinize::Member<W>>,
    head: int,
    k: int,
    i: int,
)
    requires
        v.wf(),
        0 <= head < v.n(),
        0 <= k <= v.arcs(head).len(),
        0 <= i < headed_steps(v, delta, subset, v.arcs(head), k).len(),
    ensures
        headed_steps(v, delta, subset, v.arcs(head), k)[i].to.0 < v.n(),
    decreases k,
{
    let arcs = v.arcs(head);
    let before = headed_steps(v, delta, subset, arcs, k - 1);
    if i < before.len() {
        lemma_steps_lead(v, delta, subset, head, k - 1, i);
        assert(headed_steps(v, delta, subset, arcs, k)[i] == before[i]);
    } else {
        assert(v.states[head].arcs[k - 1].nextstate < v.n());
    }
}

/// Arcs stay told apart by their heads when they are put in order.
proof fn lemma_sorted_apart<W: Weight>(v: FstV<W>, w: FstV<W>, heads: Seq<usize>)
    requires
        heads_tell_apart(v, heads),
        is_arc_sorted(ByLabelAndTarget, v, w),
    ensures
        heads_tell_apart(w, heads),
{
    assert forall|s: int, i: int, j: int|
        0 <= s < w.n() && 0 <= i < j < w.states[s].arcs.len() implies {
        ||| (#[trigger] w.states[s].arcs[i]).ilabel != (#[trigger] w.states[s].arcs[j]).ilabel
        ||| head_at(heads, w.states[s].arcs[i].nextstate as int) != head_at(
            heads,
            w.states[s].arcs[j].nextstate as int,
        )
    } by {
        let arcs = v.states[s].arcs;
        let sorted = w.states[s].arcs;
        let order = choose|order: Seq<usize>| #[trigger]
            crate::arcsort::is_stable_order(ByLabelAndTarget, arcs, order) && sorted
                == order.map_values(|i: usize| arcs[i as int]);
        let a = order[i] as int;
        let b = order[j] as int;
        assert(sorted[i] == arcs[a] && sorted[j] == arcs[b]);
        assert(crate::arcsort::precedes(ByLabelAndTarget, arcs, a, b));
        assert(a != b);
        if a < b {
            assert(v.states[s].arcs[a].ilabel != v.states[s].arcs[b].ilabel || head_at(
                heads,
                v.states[s].arcs[a].nextstate as int,
            ) != head_at(heads, v.states[s].arcs[b].nextstate as int));
        } else {
            assert(v.states[s].arcs[b].ilabel != v.states[s].arcs[a].ilabel || head_at(
                heads,
                v.states[s].arcs[b].nextstate as int,
            ) != head_at(heads, v.states[s].arcs[a].nextstate as int));
        }
    }
}

/// Merging states that splits connect leaves arcs told apart by their heads.
proof fn lemma_merged_apart<W: Weight>(v: FstV<W>, heads: Seq<usize>, sets: UnionFind)
    requires
        v.wf(),
        heads_tell_apart(v, heads),
        sets.wf(),
        joins_splits(v, heads, sets),
    ensures
        no_parallels(with_merged(v, sets)),
{
    let w = with_merged(v, sets);
    let color = |x: int| head_at(heads, x) as int;
    assert(respects(v, heads, color)) by {
        assert forall|p: (usize, usize)| #[trigger] is_split(v, heads, p) implies color(p.0 as int)
            == color(p.1 as int) by {}
    }
    assert forall|s: int, i: int, j: int|
        0 <= s < w.n() && 0 <= i < j < w.states[s].arcs.len() implies {
        ||| (#[trigger] w.states[s].arcs[i]).ilabel != (#[trigger] w.states[s].arcs[j]).ilabel
        ||| w.states[s].arcs[i].nextstate != w.states[s].arcs[j].nextstate
    } by {
        let a = v.states[s].arcs[i];
        let b = v.states[s].arcs[j];
        assert(a.nextstate < v.n() && b.nextstate < v.n());
        let x = a.nextstate as int;
        let y = b.nextstate as int;
        assert(sets.has(x) && sets.has(y));
        sets.lemma_rep(x);
        sets.lemma_rep(y);
        if w.states[s].arcs[i].nextstate == w.states[s].arcs[j].nextstate {
            assert(sets.same(x, y));
            assert(color(x) == color(y));
        }
    }
}

/// The machine that ambiguities are removed from has no two arcs alike.
pub proof fn lemma_joined_apart<W: Divide>(v: FstV<W>, delta: W::Delta, d: Stages<W>)
    requires
        v.wf(),
        v.n() <= usize::MAX,
        are_stages(v, delta, d),
    ensures
        no_parallels(d.joined),
        d.joined.wf(),
{
    lemma_trimmed_wf(v);
    lemma_arc_sorted_wf(ByLabelAndTarget, trimmed(v), d.source);
    assert forall|s: int, i: int, j: int|
        0 <= s < d.source.n() && 0 <= i < j < d.source.states[s].arcs.len() implies !ByLabelAndTarget.before(
        #[trigger] d.source.states[s].arcs[j],
        #[trigger] d.source.states[s].arcs[i],
    ) by {
        let arcs = trimmed(v).states[s].arcs;
        let sorted = d.source.states[s].arcs;
        let order = choose|order: Seq<usize>| #[trigger]
            crate::arcsort::is_stable_order(ByLabelAndTarget, arcs, order) && sorted
                == order.map_values(|i: usize| arcs[i as int]);
        let a = order[i] as int;
        let b = order[j] as int;
        assert(sorted[i] == arcs[a] && sorted[j] == arcs[b]);
        assert(crate::arcsort::precedes(ByLabelAndTarget, arcs, a, b));
    }
    lemma_built_wf(d.source, delta, FstV::empty(), d.built, d.heads);
    lemma_built_apart(d.source, delta, FstV::empty(), d.built, d.heads);
    lemma_arc_sorted_wf(ByLabelAndTarget, d.built, d.sorted);
    lemma_sorted_apart(d.built, d.sorted, d.heads);
    match d.merge {
        None => {},
        Some(sets) => {
            lemma_merged_apart(d.sorted, d.heads, sets);
            lemma_merged_wf(d.sorted, sets);
        },
    }
}

/// No two distinct successful paths of the result spell the same input.
pub proof fn law_disambiguated_is_unambiguous<W: Divide>(
    v: FstV<W>,
    delta: W::Delta,
    o: FstV<W>,
    d: Stages<W>,
    run1: Seq<Arc<W>>,
    run2: Seq<Arc<W>>,
)
    requires
        v.wf(),
        v.n() <= usize::MAX,
        are_all_stages(v, delta, d),
        is_countable(d.joined),
        succeeds(result_of(v, o, d), run1),
        succeeds(result_of(v, o, d), run2),
        spells(run1) == spells(run2),
    ensures
        run1 == run2,
{
    lemma_joined_apart(v, delta, d);
    let gone = ambiguous_arcs(d.found);
    let r = result_of(v, o, d);
    let w = d.joined;
    if gone.is_empty() {
        lemma_same_runs(r, w, run1);
        lemma_same_runs(r, w, run2);
        lemma_whole_runs_are_clean(w, gone, run1);
        lemma_whole_runs_are_clean(w, gone, run2);
        lemma_clean_runs_are_one(w, d.heads, d.found, run1, run2);
    } else {
        let dead = with_dead(w, gone);
        assert(dead.wf()) by {
            assert forall|x: int, i: int|
                0 <= x < dead.n() && 0 <= i < dead.states[x].arcs.len() implies (
            #[trigger] dead.states[x].arcs[i]).nextstate < dead.n() by {
                if x < w.n() {
                    assert(w.states[x].arcs[i].nextstate < w.n());
                }
            }
        }
        lemma_same_runs(r, trimmed(dead), run1);
        lemma_same_runs(r, trimmed(dead), run2);
        let from1 = law_trimming_adds_no_path(dead, run1);
        let from2 = law_trimming_adds_no_path(dead, run2);
        lemma_dead_runs_are_clean(w, gone, from1);
        lemma_dead_runs_are_clean(w, gone, from2);
        assert(spells(from1) =~= spells(from2)) by {
            assert(spells(run1) =~= spells(from1));
            assert(spells(run2) =~= spells(from2));
        }
        lemma_clean_runs_are_one(w, d.heads, d.found, from1, from2);
    }
}

pub proof fn lemma_same_runs<W: Weight>(a: FstV<W>, b: FstV<W>, run: Seq<Arc<W>>)
    requires
        a.start == b.start,
        a.states == b.states,
        succeeds(a, run),
    ensures
        succeeds(b, run),
{
    let s = a.start->0 as int;
    assert forall|i: int| 0 <= i < run.len() implies #[trigger] steps(b, s, run, i) by {
        assert(steps(a, s, run, i));
    }
}

pub proof fn lemma_whole_runs_are_clean<W: Weight>(w: FstV<W>, gone: Set<ArcId>, run: Seq<Arc<W>>)
    requires
        gone.is_empty(),
        succeeds(w, run),
    ensures
        is_clean(w, gone, run),
{
    let s = w.start->0 as int;
    assert forall|i: int| 0 <= i < run.len() implies #[trigger] stays_at(w, gone, s, run, i) by {
        assert(steps(w, s, run, i));
        let x = state_at(s, run, i);
        let k = choose|k: int| 0 <= k < w.arcs(x).len() && w.arcs(x)[k] == run[i];
        assert(w.arcs(x)[k] == run[i]);
    }
}

} // verus!
