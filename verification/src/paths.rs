//! Runs through a machine, arc by arc.
use crate::arc::{Arc, EPSILON};
use crate::vector_fst::FstV;
use crate::weight::Weight;
use vstd::prelude::*;

verus! {

/// The state a run from `s` stands in before its `i`th arc.
pub open spec fn state_at<W: Weight>(s: int, run: Seq<Arc<W>>, i: int) -> int {
    if i <= 0 {
        s
    } else {
        run[i - 1].nextstate as int
    }
}

/// Where a run from `s` ends.
pub open spec fn end_of<W: Weight>(s: int, run: Seq<Arc<W>>) -> int {
    state_at(s, run, run.len() as int)
}

/// Whether a machine has an arc, leaving `s`.
pub open spec fn takes<W: Weight>(v: FstV<W>, s: int, arc: Arc<W>) -> bool {
    0 <= s < v.n() && v.arcs(s).contains(arc)
}

/// Whether `run` follows arcs of the machine from `s` on.
pub open spec fn is_run<W: Weight>(v: FstV<W>, s: int, run: Seq<Arc<W>>) -> bool {
    &&& 0 <= s < v.n()
    &&& forall|i: int| 0 <= i < run.len() ==> #[trigger] steps(v, s, run, i)
}

/// Whether the `i`th arc of a run from `s` is an arc of the machine there.
pub open spec fn steps<W: Weight>(v: FstV<W>, s: int, run: Seq<Arc<W>>, i: int) -> bool {
    takes(v, state_at(s, run, i), run[i])
}

/// Whether `run` leads from `s` to a state that weighs something to end in.
pub open spec fn is_ending<W: Weight>(v: FstV<W>, s: int, run: Seq<Arc<W>>) -> bool {
    &&& is_run(v, s, run)
    &&& 0 <= end_of(s, run) < v.n()
    &&& v.fin(end_of(s, run)) != W::spec_zero()
}

/// Whether the machine accepts along `run`.
pub open spec fn is_accepting<W: Weight>(v: FstV<W>, run: Seq<Arc<W>>) -> bool {
    v.start matches Some(s) && is_ending(v, s as int, run)
}

/// The labels a run reads, without those that read nothing.
pub open spec fn reads<W: Weight>(run: Seq<Arc<W>>) -> Seq<i32>
    decreases run.len(),
{
    if run.len() == 0 {
        Seq::empty()
    } else {
        let rest = reads(run.drop_last());
        if run.last().ilabel == EPSILON {
            rest
        } else {
            rest.push(run.last().ilabel)
        }
    }
}

/// What a run weighs, arc after arc.
pub open spec fn weighs<W: Weight>(run: Seq<Arc<W>>) -> W
    decreases run.len(),
{
    if run.len() == 0 {
        W::spec_one()
    } else {
        weighs(run.drop_last()).spec_times(run.last().weight)
    }
}

/// A run of a machine stays within its states.
pub proof fn lemma_run_stays<W: Weight>(v: FstV<W>, s: int, run: Seq<Arc<W>>, i: int)
    requires
        v.wf(),
        is_run(v, s, run),
        0 <= i <= run.len(),
    ensures
        0 <= state_at(s, run, i) < v.n(),
{
    if i > 0 {
        let arc = run[i - 1];
        assert(steps(v, s, run, i - 1));
        let p = state_at(s, run, i - 1);
        let k = choose|k: int| 0 <= k < v.arcs(p).len() && v.arcs(p)[k] == arc;
        assert(v.states[p].arcs[k].nextstate < v.n());
    }
}

/// The labels of one run after another are the labels of one after the other's.
pub proof fn lemma_reads_concat<W: Weight>(a: Seq<Arc<W>>, b: Seq<Arc<W>>)
    ensures
        reads(a + b) == reads(a) + reads(b),
    decreases b.len(),
{
    if b.len() == 0 {
        assert(a + b =~= a);
        assert(reads(a) + reads(b) =~= reads(a));
    } else {
        assert((a + b).drop_last() =~= a + b.drop_last());
        lemma_reads_concat(a, b.drop_last());
        assert(reads(a + b) =~= reads(a) + reads(b));
    }
}

/// The labels a run writes, without those that write nothing.
pub open spec fn writes<W: Weight>(run: Seq<Arc<W>>) -> Seq<i32>
    decreases run.len(),
{
    if run.len() == 0 {
        Seq::empty()
    } else {
        let rest = writes(run.drop_last());
        if run.last().olabel == EPSILON {
            rest
        } else {
            rest.push(run.last().olabel)
        }
    }
}

/// The labels of one run after another are the labels of one after the other's.
pub proof fn lemma_writes_concat<W: Weight>(a: Seq<Arc<W>>, b: Seq<Arc<W>>)
    ensures
        writes(a + b) == writes(a) + writes(b),
    decreases b.len(),
{
    if b.len() == 0 {
        assert(a + b =~= a);
        assert(writes(a) + writes(b) =~= writes(a));
    } else {
        assert((a + b).drop_last() =~= a + b.drop_last());
        lemma_writes_concat(a, b.drop_last());
        assert(writes(a + b) =~= writes(a) + writes(b));
    }
}

/// What a label adds to those that are read or written.
pub open spec fn noted(label: i32) -> Seq<i32> {
    if label == EPSILON {
        Seq::empty()
    } else {
        seq![label]
    }
}

/// The labels of a run are those of its first arc, and then the others.
pub proof fn lemma_labels_from_front<W: Weight>(arc: Arc<W>, rest: Seq<Arc<W>>)
    ensures
        reads(seq![arc] + rest) == noted(arc.ilabel) + reads(rest),
        writes(seq![arc] + rest) == noted(arc.olabel) + writes(rest),
{
    let one = seq![arc];
    lemma_reads_concat(one, rest);
    lemma_writes_concat(one, rest);
    assert(one.drop_last() =~= Seq::empty());
    assert(reads(one.drop_last()) =~= Seq::empty());
    assert(writes(one.drop_last()) =~= Seq::empty());
    assert(reads(one) =~= noted(arc.ilabel));
    assert(writes(one) =~= noted(arc.olabel));
}

/// What a run weighs that ends with `end`, one arc after the other.
pub open spec fn total<W: Weight>(run: Seq<Arc<W>>, end: W) -> W
    decreases run.len(),
{
    if run.len() == 0 {
        end
    } else {
        run[0].weight.spec_times(total(run.drop_first(), end))
    }
}

/// What an accepting run weighs.
pub open spec fn accepted_weight<W: Weight>(v: FstV<W>, run: Seq<Arc<W>>) -> W {
    total(run, v.fin(end_of(v.start->0 as int, run)))
}

/// A run after an arc.
pub proof fn lemma_go_first<W: Weight>(v: FstV<W>, s: int, arc: Arc<W>, rest: Seq<Arc<W>>)
    requires
        0 <= s < v.n(),
        v.arcs(s).contains(arc),
        is_ending(v, arc.nextstate as int, rest),
    ensures
        is_ending(v, s, seq![arc] + rest),
        end_of(s, seq![arc] + rest) == end_of(arc.nextstate as int, rest),
        forall|end: W| #[trigger]
            total(seq![arc] + rest, end) == arc.weight.spec_times(total(rest, end)),
{
    let run = seq![arc] + rest;
    let t = arc.nextstate as int;
    assert forall|i: int| 0 <= i < run.len() implies #[trigger] steps(v, s, run, i) by {
        if i > 0 {
            assert(steps(v, t, rest, i - 1));
            assert(state_at(s, run, i) == state_at(t, rest, i - 1));
        }
    }
    assert(run.drop_first() =~= rest);
    if rest.len() > 0 {
        assert(run[run.len() - 1] == rest[rest.len() - 1]);
    }
}

/// What comes after the first arc of a run.
pub proof fn lemma_after_first<W: Weight>(v: FstV<W>, s: int, run: Seq<Arc<W>>)
    requires
        v.wf(),
        is_ending(v, s, run),
        run.len() > 0,
    ensures
        v.arcs(s).contains(run[0]),
        run[0].nextstate < v.n(),
        is_ending(v, run[0].nextstate as int, run.drop_first()),
        end_of(run[0].nextstate as int, run.drop_first()) == end_of(s, run),
        run == seq![run[0]] + run.drop_first(),
{
    let rest = run.drop_first();
    let t = run[0].nextstate as int;
    assert(steps(v, s, run, 0));
    let i = choose|i: int| 0 <= i < v.arcs(s).len() && v.arcs(s)[i] == run[0];
    assert(v.states[s].arcs[i].nextstate < v.n());
    assert forall|i: int| 0 <= i < rest.len() implies #[trigger] steps(v, t, rest, i) by {
        assert(steps(v, s, run, i + 1));
        assert(state_at(s, run, i + 1) == state_at(t, rest, i));
    }
    assert(run =~= seq![run[0]] + rest);
    if rest.len() > 0 {
        assert(rest[rest.len() - 1] == run[run.len() - 1]);
    }
}

/// Whether two runs read, write and weigh the same, arc by arc.
pub open spec fn are_alike<W: Weight>(a: Seq<Arc<W>>, b: Seq<Arc<W>>) -> bool {
    &&& a.len() == b.len()
    &&& forall|i: int|
        0 <= i < a.len() ==> (#[trigger] a[i]).ilabel == b[i].ilabel && a[i].olabel == b[i].olabel
            && a[i].weight == b[i].weight
}

/// Runs that are alike read the same, write the same and weigh the same.
pub proof fn lemma_alike<W: Weight>(a: Seq<Arc<W>>, b: Seq<Arc<W>>, end: W)
    requires
        are_alike(a, b),
    ensures
        reads(a) == reads(b),
        writes(a) == writes(b),
        total(a, end) == total(b, end),
    decreases a.len(),
{
    if a.len() > 0 {
        lemma_alike(a.drop_last(), b.drop_last(), end);
        let rest_a = a.drop_first();
        let rest_b = b.drop_first();
        assert forall|i: int| 0 <= i < rest_a.len() implies (#[trigger] rest_a[i]).ilabel
            == rest_b[i].ilabel && rest_a[i].olabel == rest_b[i].olabel && rest_a[i].weight
            == rest_b[i].weight by {
            assert(a[i + 1].ilabel == b[i + 1].ilabel);
        }
        lemma_alike(rest_a, rest_b, end);
    }
}

/// Whether each arc of a machine writes what it reads.
pub open spec fn is_acceptor<W: Weight>(v: FstV<W>) -> bool {
    forall|s: int, i: int|
        0 <= s < v.n() && 0 <= i < v.arcs(s).len() ==> (#[trigger] v.arcs(s)[i]).ilabel
            == v.arcs(s)[i].olabel
}

/// An acceptor writes what it reads.
pub proof fn lemma_writes_what_is_read<W: Weight>(v: FstV<W>, s: int, run: Seq<Arc<W>>)
    requires
        v.wf(),
        is_acceptor(v),
        is_ending(v, s, run),
    ensures
        writes(run) == reads(run),
    decreases run.len(),
{
    if run.len() > 0 {
        lemma_after_first(v, s, run);
        lemma_labels_from_front(run[0], run.drop_first());
        lemma_writes_what_is_read(v, run[0].nextstate as int, run.drop_first());
        let i = choose|i: int| 0 <= i < v.arcs(s).len() && v.arcs(s)[i] == run[0];
        assert(v.arcs(s)[i].ilabel == v.arcs(s)[i].olabel);
    }
}

/// Whether weights multiply one after the other however they are taken together.
#[verifier::opaque]
pub open spec fn multiplies_along<W: Weight>() -> bool {
    forall|a: W, b: W, c: W| #[trigger]
        a.spec_times(b).spec_times(c) == a.spec_times(b.spec_times(c))
}

/// Three factors can be taken together either way.
pub proof fn lemma_along<W: Weight>(a: W, b: W, c: W)
    requires
        multiplies_along::<W>(),
    ensures
        a.spec_times(b).spec_times(c) == a.spec_times(b.spec_times(c)),
{
    reveal(multiplies_along);
}

/// What a run weighs whose end is taken on behind `weight`.
pub proof fn lemma_total_behind<W: Weight>(run: Seq<Arc<W>>, end: W, weight: W)
    requires
        multiplies_along::<W>(),
    ensures
        total(run, end).spec_times(weight) == total(run, end.spec_times(weight)),
    decreases run.len(),
{
    if run.len() > 0 {
        lemma_total_behind(run.drop_first(), end, weight);
        let rest = total(run.drop_first(), end);
        lemma_along(run[0].weight, rest, weight);
    }
}

/// What one run after another weighs.
pub proof fn lemma_total_concat<W: Weight>(a: Seq<Arc<W>>, b: Seq<Arc<W>>, end: W)
    ensures
        total(a + b, end) == total(a, total(b, end)),
    decreases a.len(),
{
    if a.len() == 0 {
        assert(a + b =~= b);
    } else {
        assert((a + b).drop_first() =~= a.drop_first() + b);
        lemma_total_concat(a.drop_first(), b, end);
    }
}

} // verus!
