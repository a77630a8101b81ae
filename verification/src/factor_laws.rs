//! What splitting weights keeps: every path, with what it reads, writes and weighs.
use crate::arc::{Arc, EPSILON};
use crate::connect::succeeds;
use crate::factor_weight::{
    arc_steps, arcs_steps, element_steps, element_unfolds, factors, final_owed, final_steps,
    is_factored, law_string_pieces_multiply, lemma_factored_wf, splittable, Element, FactorIterator,
    FactorWeightOptions, GallicFactor, ARC_WEIGHTS, FINAL_WEIGHTS,
};
use crate::paths::{
    accepted_weight, end_of, is_accepting, is_ending, is_run, lemma_after_first,
    lemma_go_first, lemma_labels_from_front, lemma_run_stays, reads, state_at, steps, total, writes,
};
use crate::string_weight::{lemma_labels_view, GallicWeight};
use crate::unfold::{numbered, Step};
use crate::vector_fst::FstV;
use crate::weight::{spec_is_final, Weight};
use vstd::prelude::*;

verus! {

/// Whether weights multiply one after the other however they are taken together, and a
/// product is one to end with only if what it ends in is.
#[verifier::opaque]
pub open spec fn multiplies_in_turn<W: Weight>() -> bool {
    &&& forall|a: W, b: W, c: W| #[trigger]
        a.spec_times(b).spec_times(c) == a.spec_times(b.spec_times(c))
    &&& forall|a: W| #[trigger] W::spec_one().spec_times(a) == a
    &&& forall|a: W, b: W| spec_is_final(#[trigger] a.spec_times(b)) ==> spec_is_final(b)
}

/// Multiplying: three factors, and two to end with.
pub proof fn lemma_in_turn<W: Weight>(a: W, b: W, c: W)
    requires
        multiplies_in_turn::<W>(),
    ensures
        a.spec_times(b).spec_times(c) == a.spec_times(b.spec_times(c)),
        W::spec_one().spec_times(a) == a,
        spec_is_final(a.spec_times(b)) ==> spec_is_final(b),
{
    reveal(multiplies_in_turn);
}

/// Whether the two pieces of every split multiply back to what was split, however closely
/// remainders are told apart.
pub open spec fn splits_exactly<W: Weight, FI: FactorIterator<W>>(delta: W::Delta) -> bool {
    forall|weight: W, i: int|
        0 <= i < FI::pieces(weight).len() ==> (#[trigger] FI::pieces(weight)[i]).0.spec_times(
            FI::pieces(weight)[i].1.spec_quantize(delta),
        ) == weight
}

/// Whether remainders get smaller, so that splitting comes to an end.
pub open spec fn splits_shrink<W: Weight, FI: FactorIterator<W>>(
    delta: W::Delta,
    size: spec_fn(W) -> nat,
) -> bool {
    forall|weight: W, i: int|
        0 <= i < FI::pieces(weight).len() ==> size(
            (#[trigger] FI::pieces(weight)[i]).1.spec_quantize(delta),
        ) < size(weight)
}

/// Whether the arcs that final weights become read and write nothing.
pub open spec fn ends_silently<D>(opts: FactorWeightOptions<D>) -> bool {
    &&& opts.final_ilabel == EPSILON
    &&& opts.final_olabel == EPSILON
    &&& !opts.increment_final_ilabel
    &&& !opts.increment_final_olabel
}

/// A run after an arc.
proof fn lemma_run_first<W: Weight>(v: FstV<W>, s: int, arc: Arc<W>, rest: Seq<Arc<W>>, end: W)
    requires
        0 <= s < v.n(),
        v.arcs(s).contains(arc),
        is_run(v, arc.nextstate as int, rest),
    ensures
        is_run(v, s, seq![arc] + rest),
        end_of(s, seq![arc] + rest) == end_of(arc.nextstate as int, rest),
        total(seq![arc] + rest, end) == arc.weight.spec_times(total(rest, end)),
{
    let run = seq![arc] + rest;
    let t = arc.nextstate as int;
    assert forall|i: int| 0 <= i < run.len() implies #[trigger] steps(v, s, run, i) by {
        if i > 0 {
            assert(steps(v, t, rest, i - 1));
            assert(state_at(s, run, i) == state_at(t, rest, i - 1));
        }
    }
    assert(run.drop_first() =~= rest);
    if rest.len() > 0 {
        assert(run[run.len() - 1] == rest[rest.len() - 1]);
    }
}

/// The step that the `j`th of the first `k` arcs becomes by its `i`th split, or as it is.
proof fn lemma_arc_has_step<W: Weight, FI: FactorIterator<W>>(
    opts: FactorWeightOptions<W::Delta>,
    owed: W,
    arcs: Seq<Arc<W>>,
    k: int,
    j: int,
) -> (i: int)
    requires
        multiplies_in_turn::<W>(),
        splits_exactly::<W, FI>(opts.delta),
        0 <= j < k <= arcs.len(),
    ensures
        0 <= i < arcs_steps::<W, FI>(opts, owed, arcs, k).len(),
        is_step_of(owed, arcs[j], arcs_steps::<W, FI>(opts, owed, arcs, k)[i]),
    decreases k,
{
    let before = arcs_steps::<W, FI>(opts, owed, arcs, k - 1);
    let all = arcs_steps::<W, FI>(opts, owed, arcs, k);
    if j < k - 1 {
        let i = lemma_arc_has_step::<W, FI>(opts, owed, arcs, k - 1, j);
        assert(all[i] == before[i]);
        i
    } else {
        let more = arc_steps::<W, FI>(opts, owed, arcs[j]);
        lemma_steps_of_arc::<W, FI>(opts, owed, arcs[j], 0);
        assert(all[before.len() as int] == more[0]);
        before.len() as int
    }
}

/// Whether a step follows an arc, and with what it leaves owed makes up what was owed and
/// what the arc weighs.
spec fn is_step_of<W: Weight>(owed: W, arc: Arc<W>, step: Step<W, Element<W>>) -> bool {
    &&& step.ilabel == arc.ilabel
    &&& step.olabel == arc.olabel
    &&& step.to.state == Some(arc.nextstate)
    &&& forall|x: W| #[trigger]
        step.weight.spec_times(step.to.weight.spec_times(x)) == owed.spec_times(
            arc.weight.spec_times(x),
        )
}

proof fn lemma_steps_of_arc<W: Weight, FI: FactorIterator<W>>(
    opts: FactorWeightOptions<W::Delta>,
    owed: W,
    arc: Arc<W>,
    i: int,
)
    requires
        multiplies_in_turn::<W>(),
        splits_exactly::<W, FI>(opts.delta),
        0 <= i < arc_steps::<W, FI>(opts, owed, arc).len() || i == 0,
    ensures
        arc_steps::<W, FI>(opts, owed, arc).len() > 0,
        is_step_of(owed, arc, arc_steps::<W, FI>(opts, owed, arc)[i]),
{
    let weight = owed.spec_times(arc.weight);
    let pieces = FI::pieces(weight);
    let all = arc_steps::<W, FI>(opts, owed, arc);
    let step = all[i];
    if opts.mode & crate::factor_weight::ARC_WEIGHTS != 0 && pieces.len() > 0 {
        assert(FI::pieces(weight)[i].0.spec_times(
            FI::pieces(weight)[i].1.spec_quantize(opts.delta),
        ) == weight);
        assert(step.weight == pieces[i].0);
    }
    assert forall|x: W| #[trigger]
        step.weight.spec_times(step.to.weight.spec_times(x)) == owed.spec_times(
            arc.weight.spec_times(x),
        ) by {
        lemma_in_turn(step.weight, step.to.weight, x);
        lemma_in_turn(owed, arc.weight, x);
        lemma_in_turn(x, x, x);
    }
}

/// Every step that arcs become follows one of them.
proof fn lemma_step_of_some_arc<W: Weight, FI: FactorIterator<W>>(
    opts: FactorWeightOptions<W::Delta>,
    owed: W,
    arcs: Seq<Arc<W>>,
    k: int,
    i: int,
) -> (j: int)
    requires
        multiplies_in_turn::<W>(),
        splits_exactly::<W, FI>(opts.delta),
        0 <= k <= arcs.len(),
        0 <= i < arcs_steps::<W, FI>(opts, owed, arcs, k).len(),
    ensures
        0 <= j < k,
        is_step_of(owed, arcs[j], arcs_steps::<W, FI>(opts, owed, arcs, k)[i]),
    decreases k,
{
    let before = arcs_steps::<W, FI>(opts, owed, arcs, k - 1);
    let all = arcs_steps::<W, FI>(opts, owed, arcs, k);
    if i < before.len() {
        let j = lemma_step_of_some_arc::<W, FI>(opts, owed, arcs, k - 1, i);
        assert(all[i] == before[i]);
        j
    } else {
        let more = arc_steps::<W, FI>(opts, owed, arcs[k - 1]);
        assert(all[i] == more[i - before.len()]);
        lemma_steps_of_arc::<W, FI>(opts, owed, arcs[k - 1], i - before.len());
        k - 1
    }
}

/// Whether a run of the machine with its weights split follows a run of what it was split
/// from, begun with `owed`.
spec fn answers<W: Weight>(
    v: FstV<W>,
    s: int,
    run: Seq<Arc<W>>,
    owed: W,
    f: FstV<W>,
    q: int,
    split: Seq<Arc<W>>,
) -> bool {
    &&& reads(split) == reads(run)
    &&& writes(split) == writes(run)
    &&& total(split, f.fin(end_of(q, split))) == owed.spec_times(
        total(run, v.fin(end_of(s, run))),
    )
}

/// What is owed at an end is paid by arcs that read and write nothing.
proof fn lemma_end_is_paid<W: Weight, FI: FactorIterator<W>>(
    opts: FactorWeightOptions<W::Delta>,
    v: FstV<W>,
    start: usize,
    table: Seq<Element<W>>,
    f: FstV<W>,
    size: spec_fn(W) -> nat,
    q: int,
) -> (split: Seq<Arc<W>>)
    requires
        multiplies_in_turn::<W>(),
        splits_exactly::<W, FI>(opts.delta),
        splits_shrink::<W, FI>(opts.delta, size),
        ends_silently(opts),
        is_factored::<W, FI>(opts, v, start, table, f.states),
        0 <= q < f.n(),
        table[q].state matches Some(s) ==> v.fin(s as int) != W::spec_zero(),
    ensures
        is_run(f, q, split),
        0 <= end_of(q, split) < f.n(),
        reads(split) == Seq::<i32>::empty(),
        writes(split) == Seq::<i32>::empty(),
        total(split, f.fin(end_of(q, split))) == final_owed(v, table[q]),
    decreases size(final_owed(v, table[q])),
{
    let key = table[q];
    let weight = final_owed(v, key);
    assert(element_unfolds::<W, FI>(opts, v, key, f.states[q], table));
    if splittable::<W, FI>(opts, weight) {
        let all = element_steps::<W, FI>(opts, v, key);
        let last = final_steps::<W, FI>(opts, v, key);
        let i = all.len() - last.len();
        assert(all[i] == last[0]);
        assert(numbered(all[i], f.states[q].arcs[i], table));
        let arc = f.arcs(q)[i];
        let to = arc.nextstate as int;
        let piece = FI::pieces(weight)[0];
        assert(piece.0.spec_times(piece.1.spec_quantize(opts.delta)) == weight);
        assert(size(FI::pieces(weight)[0].1.spec_quantize(opts.delta)) < size(weight));
        let rest = lemma_end_is_paid::<W, FI>(opts, v, start, table, f, size, to);
        assert(f.arcs(q).contains(arc));
        let end = f.fin(end_of(to, rest));
        lemma_run_first(f, q, arc, rest, end);
        lemma_labels_from_front(arc, rest);
        seq![arc] + rest
    } else {
        Seq::empty()
    }
}

/// Every run to an end is followed by one of the machine with its weights split.
proof fn lemma_run_is_followed<W: Weight, FI: FactorIterator<W>>(
    opts: FactorWeightOptions<W::Delta>,
    v: FstV<W>,
    start: usize,
    table: Seq<Element<W>>,
    f: FstV<W>,
    size: spec_fn(W) -> nat,
    s: int,
    run: Seq<Arc<W>>,
    q: int,
) -> (split: Seq<Arc<W>>)
    requires
        multiplies_in_turn::<W>(),
        splits_exactly::<W, FI>(opts.delta),
        splits_shrink::<W, FI>(opts.delta, size),
        ends_silently(opts),
        v.wf(),
        is_factored::<W, FI>(opts, v, start, table, f.states),
        is_ending(v, s, run),
        0 <= q < f.n(),
        table[q].state == Some(s as usize),
        s <= usize::MAX,
    ensures
        is_run(f, q, split),
        0 <= end_of(q, split) < f.n(),
        answers(v, s, run, table[q].weight, f, q, split),
    decreases run.len(),
{
    let key = table[q];
    if run.len() == 0 {
        lemma_end_is_paid::<W, FI>(opts, v, start, table, f, size, q)
    } else {
        lemma_after_first(v, s, run);
        let arc = run[0];
        let rest = run.drop_first();
        let t = arc.nextstate as int;
        let arcs = v.arcs(s);
        let n = arcs.len() as int;
        let j = choose|j: int| 0 <= j < arcs.len() && arcs[j] == arc;
        let i = lemma_arc_has_step::<W, FI>(opts, key.weight, arcs, n, j);
        let first = arcs_steps::<W, FI>(opts, key.weight, arcs, n);
        let all = element_steps::<W, FI>(opts, v, key);
        assert(element_unfolds::<W, FI>(opts, v, key, f.states[q], table));
        assert(all[i] == first[i]);
        assert(numbered(all[i], f.states[q].arcs[i], table));
        let to = f.arcs(q)[i];
        let p = to.nextstate as int;
        let more = lemma_run_is_followed::<W, FI>(opts, v, start, table, f, size, t, rest, p);
        assert(f.arcs(q).contains(to));
        let end = f.fin(end_of(p, more));
        lemma_run_first(f, q, to, more, end);
        lemma_labels_from_front(to, more);
        lemma_labels_from_front(arc, rest);
        let x = total(rest, v.fin(end_of(t, rest)));
        assert(to.weight.spec_times(table[p].weight.spec_times(x)) == key.weight.spec_times(
            arc.weight.spec_times(x),
        ));
        seq![to] + more
    }
}

/// Where nothing but weight is left, a run reads and writes nothing and weighs what is
/// left.
proof fn lemma_rest_is_paid<W: Weight, FI: FactorIterator<W>>(
    opts: FactorWeightOptions<W::Delta>,
    v: FstV<W>,
    start: usize,
    table: Seq<Element<W>>,
    f: FstV<W>,
    q: int,
    split: Seq<Arc<W>>,
)
    requires
        multiplies_in_turn::<W>(),
        splits_exactly::<W, FI>(opts.delta),
        ends_silently(opts),
        f.wf(),
        is_factored::<W, FI>(opts, v, start, table, f.states),
        is_ending(f, q, split),
        table[q].state is None,
    ensures
        reads(split) == Seq::<i32>::empty(),
        writes(split) == Seq::<i32>::empty(),
        total(split, f.fin(end_of(q, split))) == table[q].weight,
    decreases split.len(),
{
    let key = table[q];
    assert(element_unfolds::<W, FI>(opts, v, key, f.states[q], table));
    if split.len() > 0 {
        lemma_after_first(f, q, split);
        let arc = split[0];
        let rest = split.drop_first();
        let all = element_steps::<W, FI>(opts, v, key);
        let last = final_steps::<W, FI>(opts, v, key);
        let i = choose|i: int| 0 <= i < f.arcs(q).len() && f.arcs(q)[i] == arc;
        assert(all[i] == last[i]);
        assert(numbered(all[i], f.states[q].arcs[i], table));
        let piece = FI::pieces(key.weight)[i];
        assert(piece.0.spec_times(piece.1.spec_quantize(opts.delta)) == key.weight);
        lemma_rest_is_paid::<W, FI>(opts, v, start, table, f, arc.nextstate as int, rest);
        lemma_labels_from_front(arc, rest);
    }
}

/// Every run to an end of the machine with its weights split follows one that was there.
proof fn lemma_run_follows<W: Weight, FI: FactorIterator<W>>(
    opts: FactorWeightOptions<W::Delta>,
    v: FstV<W>,
    start: usize,
    table: Seq<Element<W>>,
    f: FstV<W>,
    s: int,
    q: int,
    split: Seq<Arc<W>>,
) -> (run: Seq<Arc<W>>)
    requires
        multiplies_in_turn::<W>(),
        splits_exactly::<W, FI>(opts.delta),
        ends_silently(opts),
        v.wf(),
        f.wf(),
        is_factored::<W, FI>(opts, v, start, table, f.states),
        0 <= s < v.n(),
        s <= usize::MAX,
        is_ending(f, q, split),
        spec_is_final(f.fin(end_of(q, split))),
        table[q].state == Some(s as usize),
    ensures
        is_ending(v, s, run),
        answers(v, s, run, table[q].weight, f, q, split),
    decreases split.len(),
{
    let key = table[q];
    assert(element_unfolds::<W, FI>(opts, v, key, f.states[q], table));
    let none = Seq::<Arc<W>>::empty();
    if split.len() == 0 {
        lemma_in_turn(key.weight, v.fin(s), key.weight);
        none
    } else {
        lemma_after_first(f, q, split);
        let arc = split[0];
        let rest = split.drop_first();
        let p = arc.nextstate as int;
        let arcs = v.arcs(s);
        let n = arcs.len() as int;
        let first = arcs_steps::<W, FI>(opts, key.weight, arcs, n);
        let last = final_steps::<W, FI>(opts, v, key);
        let all = element_steps::<W, FI>(opts, v, key);
        let i = choose|i: int| 0 <= i < f.arcs(q).len() && f.arcs(q)[i] == arc;
        assert(numbered(all[i], f.states[q].arcs[i], table));
        lemma_labels_from_front(arc, rest);
        if i < first.len() {
            assert(all[i] == first[i]);
            let j = lemma_step_of_some_arc::<W, FI>(opts, key.weight, arcs, n, i);
            let from = arcs[j];
            let t = from.nextstate as int;
            assert(v.states[s].arcs[j].nextstate < v.n());
            let more = lemma_run_follows::<W, FI>(opts, v, start, table, f, t, p, rest);
            assert(v.arcs(s).contains(from));
            lemma_go_first(v, s, from, more);
            lemma_labels_from_front(from, more);
            let x = total(more, v.fin(end_of(t, more)));
            assert(arc.weight.spec_times(table[p].weight.spec_times(x))
                == key.weight.spec_times(from.weight.spec_times(x)));
            assert(total(seq![from] + more, v.fin(end_of(t, more))) == from.weight.spec_times(x));
            seq![from] + more
        } else {
            let k = i - first.len();
            assert(all[i] == last[k]);
            let weight = final_owed(v, key);
            let piece = FI::pieces(weight)[k];
            assert(piece.0.spec_times(piece.1.spec_quantize(opts.delta)) == weight);
            lemma_rest_is_paid::<W, FI>(opts, v, start, table, f, p, rest);
            none
        }
    }
}

/// Splitting weights keeps every path: some path of the result reads what it reads, writes
/// what it writes and weighs what it weighs.
pub proof fn law_splitting_keeps_paths<W: Weight, FI: FactorIterator<W>>(
    opts: FactorWeightOptions<W::Delta>,
    v: FstV<W>,
    o: FstV<W>,
    r: FstV<W>,
    size: spec_fn(W) -> nat,
    run: Seq<Arc<W>>,
) -> (split: Seq<Arc<W>>)
    requires
        multiplies_in_turn::<W>(),
        splits_exactly::<W, FI>(opts.delta),
        splits_shrink::<W, FI>(opts.delta, size),
        ends_silently(opts),
        v.wf(),
        factors::<W, FI>(opts, v, o, r),
        is_accepting(v, run),
    ensures
        r.start == Some(0usize),
        is_run(r, 0, split),
        reads(split) == reads(run),
        writes(split) == writes(run),
        accepted_weight(r, split) == accepted_weight(v, run),
        spec_is_final(accepted_weight(v, run)) ==> succeeds(r, split),
{
    let start = v.start->0;
    let table = choose|table: Seq<Element<W>>| #[trigger]
        is_factored::<W, FI>(opts, v, start, table, r.states);
    let split = lemma_run_is_followed::<W, FI>(
        opts,
        v,
        start,
        table,
        r,
        size,
        start as int,
        run,
        0,
    );
    let x = accepted_weight(v, run);
    lemma_in_turn(x, x, x);
    if spec_is_final(x) {
        lemma_ends_in_turn(split, r.fin(end_of(0, split)));
    }
    split
}

/// A run weighs something to end with only if its end does.
pub proof fn lemma_ends_in_turn<W: Weight>(run: Seq<Arc<W>>, end: W)
    requires
        multiplies_in_turn::<W>(),
        spec_is_final(total(run, end)),
    ensures
        spec_is_final(end),
    decreases run.len(),
{
    if run.len() > 0 {
        let rest = total(run.drop_first(), end);
        lemma_in_turn(run[0].weight, rest, rest);
        lemma_ends_in_turn(run.drop_first(), end);
    }
}

/// Splitting weights adds no path: every path of the result reads, writes and weighs what
/// some path reads, writes and weighs.
pub proof fn law_splitting_adds_no_path<W: Weight, FI: FactorIterator<W>>(
    opts: FactorWeightOptions<W::Delta>,
    v: FstV<W>,
    o: FstV<W>,
    r: FstV<W>,
    split: Seq<Arc<W>>,
) -> (run: Seq<Arc<W>>)
    requires
        multiplies_in_turn::<W>(),
        splits_exactly::<W, FI>(opts.delta),
        ends_silently(opts),
        v.wf(),
        factors::<W, FI>(opts, v, o, r),
        succeeds(r, split),
    ensures
        is_accepting(v, run),
        reads(split) == reads(run),
        writes(split) == writes(run),
        accepted_weight(r, split) == accepted_weight(v, run),
{
    lemma_factored_wf::<W, FI>(opts, v, o, r);
    let start = v.start->0;
    let table = choose|table: Seq<Element<W>>| #[trigger]
        is_factored::<W, FI>(opts, v, start, table, r.states);
    lemma_run_stays(r, 0, split, split.len() as int);
    let run = lemma_run_follows::<W, FI>(opts, v, start, table, r, start as int, 0, split);
    let x = accepted_weight(v, run);
    lemma_in_turn(x, x, x);
    run
}

/// How many labels a weight carries.
pub open spec fn label_count<W: Weight, const G: u8>() -> spec_fn(GallicWeight<W, G>) -> nat {
    |weight: GallicWeight<W, G>| weight.labels.string().len()
}

/// Splitting a label off a weight is exact and comes to an end, where the product of
/// nothing changes no weight it comes after, and is not changed by rounding.
pub proof fn law_labels_split_off_exactly<W: Weight, const G: u8>(delta: W::Delta)
    requires
        forall|a: W| #[trigger] a.spec_times(W::spec_one()) == a,
        W::spec_one().spec_quantize(delta) == W::spec_one(),
    ensures
        splits_exactly::<GallicWeight<W, G>, GallicFactor<W, G>>(delta),
        splits_shrink::<GallicWeight<W, G>, GallicFactor<W, G>>(delta, label_count::<W, G>()),
{
    assert forall|weight: GallicWeight<W, G>, i: int|
        0 <= i < GallicFactor::<W, G>::pieces(weight).len() implies (
    #[trigger] GallicFactor::<W, G>::pieces(weight)[i]).0.spec_times(
        GallicFactor::<W, G>::pieces(weight)[i].1.spec_quantize(delta),
    ) == weight by {
        law_string_pieces_multiply(weight.labels);
        assert(weight.weight.spec_times(W::spec_one()) == weight.weight);
    }
    let size = label_count::<W, G>();
    assert forall|weight: GallicWeight<W, G>, i: int|
        0 <= i < GallicFactor::<W, G>::pieces(weight).len() implies size(
        (#[trigger] GallicFactor::<W, G>::pieces(weight)[i]).1.spec_quantize(delta),
    ) < size(weight) by {
        lemma_labels_view(weight.labels.string().drop_first());
    }
}

/// Whether the first part of what a weight splits into cannot be split.
pub open spec fn splits_fully<W: Weight, FI: FactorIterator<W>>() -> bool {
    forall|weight: W, i: int|
        0 <= i < FI::pieces(weight).len() ==> FI::pieces(
            (#[trigger] FI::pieces(weight)[i]).0,
        ).len() == 0
}

proof fn lemma_arcs_are_split<W: Weight, FI: FactorIterator<W>>(
    opts: FactorWeightOptions<W::Delta>,
    owed: W,
    arcs: Seq<Arc<W>>,
    k: int,
    j: int,
)
    requires
        splits_fully::<W, FI>(),
        opts.mode & ARC_WEIGHTS != 0,
        0 <= k <= arcs.len(),
        0 <= j < arcs_steps::<W, FI>(opts, owed, arcs, k).len(),
    ensures
        FI::pieces(arcs_steps::<W, FI>(opts, owed, arcs, k)[j].weight).len() == 0,
    decreases k,
{
    let before = arcs_steps::<W, FI>(opts, owed, arcs, k - 1);
    if j < before.len() {
        lemma_arcs_are_split::<W, FI>(opts, owed, arcs, k - 1, j);
    } else {
        let weight = owed.spec_times(arcs[k - 1].weight);
        let pieces = FI::pieces(weight);
        if pieces.len() > 0 {
            assert(FI::pieces(pieces[j - before.len()].0).len() == 0);
        }
    }
}

/// Splitting weights leaves none that could be split: no arc's, where arcs are to be split,
/// and none to end with that weighs anything, where ends are.
pub proof fn law_nothing_is_left_to_split<W: Weight, FI: FactorIterator<W>>(
    opts: FactorWeightOptions<W::Delta>,
    v: FstV<W>,
    o: FstV<W>,
    r: FstV<W>,
)
    requires
        splits_fully::<W, FI>(),
        factors::<W, FI>(opts, v, o, r),
    ensures
        opts.mode & ARC_WEIGHTS != 0 ==> forall|s: int, i: int|
            0 <= s < r.n() && 0 <= i < r.arcs(s).len() ==> FI::pieces(
                (#[trigger] r.arcs(s)[i]).weight,
            ).len() == 0,
        opts.mode & FINAL_WEIGHTS != 0 ==> forall|s: int|
            0 <= s < r.n() && (#[trigger] r.fin(s)) != W::spec_zero() ==> FI::pieces(
                r.fin(s),
            ).len() == 0,
{
    if let Some(start) = v.start {
        let table = choose|table: Seq<Element<W>>| #[trigger]
            is_factored::<W, FI>(opts, v, start, table, r.states);
        assert forall|s: int, i: int|
            opts.mode & ARC_WEIGHTS != 0 && 0 <= s < r.n() && 0 <= i < r.arcs(s).len() implies
            FI::pieces((#[trigger] r.arcs(s)[i]).weight).len() == 0 by {
            let key = table[s];
            assert(element_unfolds::<W, FI>(opts, v, key, r.states[s], table));
            let all = element_steps::<W, FI>(opts, v, key);
            assert(numbered(all[i], r.states[s].arcs[i], table));
            let first = match key.state {
                Some(x) => {
                    let arcs = v.arcs(x as int);
                    arcs_steps::<W, FI>(opts, key.weight, arcs, arcs.len() as int)
                },
                None => Seq::empty(),
            };
            if i < first.len() {
                let arcs = v.arcs(key.state->0 as int);
                lemma_arcs_are_split::<W, FI>(opts, key.weight, arcs, arcs.len() as int, i);
            } else {
                let pieces = FI::pieces(final_owed(v, key));
                assert(FI::pieces(pieces[i - first.len()].0).len() == 0);
            }
        }
        assert forall|s: int|
            opts.mode & FINAL_WEIGHTS != 0 && 0 <= s < r.n() && (#[trigger] r.fin(s))
                != W::spec_zero() implies FI::pieces(r.fin(s)).len() == 0 by {
            assert(element_unfolds::<W, FI>(opts, v, table[s], r.states[s], table));
        }
    }
}

/// Strings paired with weights are split down to single labels: no arc holds more than one,
/// where arcs are to be split, and nothing to end with does, where ends are.
pub proof fn law_split_pairs_hold_one_label<W: Weight, const G: u8>(
    opts: FactorWeightOptions<W::Delta>,
    v: FstV<GallicWeight<W, G>>,
    o: FstV<GallicWeight<W, G>>,
    r: FstV<GallicWeight<W, G>>,
)
    requires
        factors::<GallicWeight<W, G>, GallicFactor<W, G>>(opts, v, o, r),
    ensures
        opts.mode & ARC_WEIGHTS != 0 ==> forall|s: int, i: int|
            0 <= s < r.n() && 0 <= i < r.arcs(s).len() ==> (#[trigger] r.arcs(
                s,
            )[i]).weight.labels.string().len() <= 1,
        opts.mode & FINAL_WEIGHTS != 0 ==> forall|s: int|
            0 <= s < r.n() ==> (#[trigger] r.fin(s)).labels.string().len() <= 1,
{
    assert forall|weight: GallicWeight<W, G>, i: int|
        0 <= i < GallicFactor::<W, G>::pieces(weight).len() implies GallicFactor::<W, G>::pieces(
        (#[trigger] GallicFactor::<W, G>::pieces(weight)[i]).0,
    ).len() == 0 by {
        lemma_labels_view(seq![weight.labels.string()[0]]);
    }
    law_nothing_is_left_to_split::<GallicWeight<W, G>, GallicFactor<W, G>>(opts, v, o, r);
    assert forall|weight: GallicWeight<W, G>| #[trigger]
        GallicFactor::<W, G>::pieces(weight).len() == 0 implies weight.labels.string().len()
        <= 1 by {}
    if opts.mode & ARC_WEIGHTS != 0 {
        assert forall|s: int, i: int| 0 <= s < r.n() && 0 <= i < r.arcs(s).len() implies (
        #[trigger] r.arcs(s)[i]).weight.labels.string().len() <= 1 by {
            assert(GallicFactor::<W, G>::pieces(r.arcs(s)[i].weight).len() == 0);
        }
    }
    if opts.mode & FINAL_WEIGHTS != 0 {
        assert forall|s: int| 0 <= s < r.n() implies (#[trigger] r.fin(s)).labels.string().len()
            <= 1 by {
            if r.fin(s) != GallicWeight::<W, G>::spec_zero() {
                assert(GallicFactor::<W, G>::pieces(r.fin(s)).len() == 0);
            }
        }
    }
}

} // verus!
