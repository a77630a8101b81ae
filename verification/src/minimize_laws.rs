//! What minimizing keeps of the paths of a machine.
use crate::arc::{Arc, EPSILON};
use crate::arc_map::map_in_place;
use crate::common_future::ends_on;
use crate::connect::{
    kept_run, law_trimming_adds_no_path, law_trimming_keeps_paths, lemma_kept_arc_from,
    lemma_trimmed_wf, path_states,
    succeeds, trimmed,
};
use crate::determinize::{arc_reads, reads_to};
use crate::encode::{
    all_decodable, decoded_state, is_decodable, lemma_decoding_succeeds, remembering, reversed,
    undecoded, EncodeMapper, EncodeModel,
};
use crate::encode_laws::{
    are_encodable, comes_back, decoder_by, lemma_remembering_encodes, state_comes_back,
};
use crate::equivalent::{encoded, encoder_after, fresh_encoder};
use crate::equivalent_laws::{
    decodes_to, ended_by_arcs, labels_of, last_arc, lemma_encoded_decodes, lemma_ended_wf,
    lemma_flags, lemma_run_gets_last_arc, lemma_run_had_last_arc, lemma_run_is_decoded,
    lemma_run_is_encoded, lemma_same_labels_decode_alike,
};
use crate::minimize::{
    is_minimized, law_merging_reads_the_same, lemma_arcs_once_from, lemma_arcs_once_to,
    lemma_class_arc_from, lemma_merged_wf, lemma_minimized_wf, merged_by, merged_machine, with_unique_arcs,
};
use crate::partition::is_coarsest;
use crate::paths::{
    are_alike, end_of, is_accepting, is_run, lemma_run_stays, state_at, steps, takes,
};
use crate::sort::{law_ranked, lemma_ranked_from, lemma_ranked_to, ranked};
use crate::vector_fst::{kept_arcs, kept_states, FstV};
use crate::weight::{spec_is_final, Weight};
use vstd::prelude::*;

verus! {

/// Whether a successful path carries these labels, arc by arc.
pub open spec fn succeeds_reading<W: Weight>(v: FstV<W>, string: Seq<i32>) -> bool {
    exists|run: Seq<Arc<W>>| #[trigger] succeeds(v, run) && labels_of(run) == string
}

/// Whether every final weight is in the semiring.
pub open spec fn ends_are_members<W: Weight>(v: FstV<W>) -> bool {
    forall|s: int| 0 <= s < v.n() && #[trigger] v.fin(s) != W::spec_zero() ==> v.is_final(s)
}

/// A run reads its labels to where it ends.
proof fn lemma_run_reads_to<W: Weight>(v: FstV<W>, s: int, run: Seq<Arc<W>>)
    requires
        v.wf(),
        is_run(v, s, run),
    ensures
        reads_to(v, s, labels_of(run), end_of(s, run)),
    decreases run.len(),
{
    if run.len() > 0 {
        let before = run.drop_last();
        let n = run.len() as int;
        assert forall|i: int| 0 <= i < before.len() implies #[trigger] steps(v, s, before, i) by {
            assert(steps(v, s, run, i));
            assert(state_at(s, before, i) == state_at(s, run, i));
        }
        lemma_run_reads_to(v, s, before);
        assert(labels_of(run).drop_last() =~= labels_of(before));
        assert(steps(v, s, run, n - 1));
        let p = state_at(s, run, n - 1);
        assert(p == end_of(s, before));
        let j = choose|j: int| 0 <= j < v.arcs(p).len() && v.arcs(p)[j] == run[n - 1];
        assert(v.arcs(p)[j].ilabel == labels_of(run).last());
        assert(arc_reads(v.arcs(p), labels_of(run).last(), end_of(s, run)));
    }
}

/// Where labels can be read to, a run leads.
proof fn lemma_reading_is_a_run<W: Weight>(v: FstV<W>, s: int, string: Seq<i32>, t: int) -> (run:
    Seq<Arc<W>>)
    requires
        0 <= s < v.n(),
        reads_to(v, s, string, t),
    ensures
        is_run(v, s, run),
        labels_of(run) == string,
        end_of(s, run) == t,
    decreases string.len(),
{
    if string.len() == 0 {
        let run = Seq::<Arc<W>>::empty();
        assert(labels_of(run) =~= string);
        run
    } else {
        let q = choose|q: int|
            0 <= q < v.n() && reads_to(v, s, string.drop_last(), q) && #[trigger] arc_reads(
                v.arcs(q),
                string.last(),
                t,
            );
        let before = lemma_reading_is_a_run(v, s, string.drop_last(), q);
        let j = choose|j: int|
            0 <= j < v.arcs(q).len() && (#[trigger] v.arcs(q)[j]).ilabel == string.last() && v.arcs(
                q,
            )[j].nextstate == t;
        let run = before.push(v.arcs(q)[j]);
        assert forall|k: int| 0 <= k < run.len() implies #[trigger] steps(v, s, run, k) by {
            if k < before.len() {
                assert(steps(v, s, before, k));
                assert(state_at(s, run, k) == state_at(s, before, k));
            } else {
                assert(state_at(s, run, k) == q);
            }
        }
        assert(labels_of(run) =~= labels_of(before).push(string.last()));
        assert(string =~= string.drop_last().push(string.last()));
        run
    }
}

/// Trimming keeps the labels of the successful paths.
proof fn lemma_trimming_keeps_labels<W: Weight>(v: FstV<W>, string: Seq<i32>)
    requires
        v.wf(),
        v.n() <= usize::MAX,
    ensures
        succeeds_reading(v, string) <==> succeeds_reading(trimmed(v), string),
{
    if succeeds_reading(v, string) {
        let run = choose|run: Seq<Arc<W>>| #[trigger]
            succeeds(v, run) && labels_of(run) == string;
        law_trimming_keeps_paths(v, run);
        assert(labels_of(kept_run(v, run)) =~= labels_of(run));
    }
    if succeeds_reading(trimmed(v), string) {
        let run = choose|run: Seq<Arc<W>>| #[trigger]
            succeeds(trimmed(v), run) && labels_of(run) == string;
        let from = law_trimming_adds_no_path(v, run);
        assert(labels_of(kept_run(v, from)) =~= labels_of(from));
        assert(succeeds(v, from));
    }
}

/// Keeping arcs that are alike once keeps the arcs.
proof fn lemma_unique_has_the_same<W: Weight>(v: FstV<W>, s: int, arc: Arc<W>)
    requires
        0 <= s < v.n(),
    ensures
        with_unique_arcs(v).arcs(s).contains(arc) <==> v.arcs(s).contains(arc),
{
    let w = with_unique_arcs(v);
    let all = ranked(v.arcs(s));
    let n = v.arcs(s).len() as int;
    law_ranked(v.arcs(s));
    if w.arcs(s).contains(arc) {
        let i = choose|i: int| 0 <= i < w.arcs(s).len() && w.arcs(s)[i] == arc;
        let j = lemma_arcs_once_from(all, n, i);
        let k = lemma_ranked_from(v.arcs(s), j);
        assert(v.arcs(s)[k] == arc);
    }
    if v.arcs(s).contains(arc) {
        let k = choose|k: int| 0 <= k < n && v.arcs(s)[k] == arc;
        let j = lemma_ranked_to(v.arcs(s), k);
        let i = lemma_arcs_once_to(all, n, j);
        assert(w.arcs(s)[i] == arc);
    }
}

/// Keeping arcs that are alike once keeps the successful paths.
proof fn lemma_unique_succeeds<W: Weight>(v: FstV<W>, run: Seq<Arc<W>>)
    requires
        v.wf(),
    ensures
        succeeds(with_unique_arcs(v), run) <==> succeeds(v, run),
{
    let w = with_unique_arcs(v);
    assert forall|s: int, arc: Arc<W>| #[trigger] takes(w, s, arc) <==> takes(v, s, arc) by {
        if 0 <= s < v.n() {
            lemma_unique_has_the_same(v, s, arc);
        }
    }
    assert forall|s: int| 0 <= s < v.n() implies #[trigger] w.fin(s) == v.fin(s) by {}
    let s = v.start->0 as int;
    if succeeds(v, run) {
        assert forall|i: int| 0 <= i < run.len() implies #[trigger] steps(w, s, run, i) by {
            assert(steps(v, s, run, i));
            assert(takes(w, state_at(s, run, i), run[i]));
        }
        lemma_run_stays(v, s, run, run.len() as int);
        assert(w.fin(end_of(s, run)) == v.fin(end_of(s, run)));
    }
    if succeeds(w, run) {
        assert forall|i: int| 0 <= i < run.len() implies #[trigger] steps(v, s, run, i) by {
            assert(steps(w, s, run, i));
            assert(takes(w, state_at(s, run, i), run[i]));
        }
        lemma_run_stays(v, s, run, run.len() as int);
        assert(w.fin(end_of(s, run)) == v.fin(end_of(s, run)));
    }
}

/// Merging states that cannot be told apart keeps the labels of the successful paths.
proof fn lemma_merging_keeps_labels<W: Weight>(t: FstV<W>, rep: Seq<usize>, string: Seq<i32>)
    requires
        t.wf(),
        t.start is Some,
        is_coarsest(t, rep),
        ends_are_members(t),
    ensures
        succeeds_reading(t, string) <==> succeeds_reading(merged_machine(t, rep), string),
        merged_machine(t, rep).wf(),
{
    let m = merged_machine(t, rep);
    let s = t.start->0 as int;
    lemma_merged_wf(t, rep);
    law_merging_reads_the_same(t, rep, s, string);
    assert forall|c: int| 0 <= c < m.n() implies #[trigger] m.fin(c) == t.fin(c) by {
        assert(m.states[c].final_weight == t.states[c].final_weight);
    }
    if succeeds_reading(t, string) {
        let run = choose|run: Seq<Arc<W>>| #[trigger]
            succeeds(t, run) && labels_of(run) == string;
        lemma_run_reads_to(t, s, run);
        lemma_run_stays(t, s, run, run.len() as int);
        assert(ends_on(t, s, string));
        let c = choose|c: int|
            0 <= c < m.n() && #[trigger] reads_to(m, rep[s] as int, string, c) && m.fin(c)
                != W::spec_zero();
        let there = lemma_reading_is_a_run(m, rep[s] as int, string, c);
        assert(m.fin(c) == t.fin(c));
        assert(t.is_final(c));
        assert(succeeds(m, there));
    }
    if succeeds_reading(m, string) {
        let there = choose|run: Seq<Arc<W>>| #[trigger]
            succeeds(m, run) && labels_of(run) == string;
        lemma_run_reads_to(m, rep[s] as int, there);
        lemma_run_stays(m, rep[s] as int, there, there.len() as int);
        assert(ends_on(m, rep[s] as int, string));
        let q = choose|q: int|
            0 <= q < t.n() && #[trigger] reads_to(t, s, string, q) && t.fin(q) != W::spec_zero();
        let run = lemma_reading_is_a_run(t, s, string, q);
        assert(t.is_final(q));
        assert(succeeds(t, run));
    }
}

/// What a state keeps of its final weight once the machine is trimmed.
proof fn lemma_trimmed_ends_are_members<W: Weight>(v: FstV<W>)
    requires
        v.wf(),
        v.n() <= usize::MAX,
        ends_are_members(v),
    ensures
        ends_are_members(trimmed(v)),
{
    let t = trimmed(v);
    let keep = path_states(v);
    assert forall|s: int| 0 <= s < t.n() && #[trigger] t.fin(s) != W::spec_zero() implies t.is_final(
        s,
    ) by {
        let x = lemma_kept_state_from(v, keep, v.n() as int, s);
        assert(v.fin(x) == t.fin(s));
    }
}

/// Where a state that is kept comes from.
proof fn lemma_kept_state_from<W: Weight>(v: FstV<W>, keep: Seq<bool>, n: int, s: int) -> (x: int)
    requires
        0 <= n <= v.n(),
        0 <= s < kept_states(v.states, keep, n).len(),
    ensures
        0 <= x < n,
        kept_states(v.states, keep, n)[s].final_weight == v.states[x].final_weight,
        kept_states(v.states, keep, n)[s].arcs == kept_arcs(
            v.states[x].arcs,
            keep,
            v.states[x].arcs.len() as int,
        ),
    decreases n,
{
    let before = kept_states(v.states, keep, n - 1);
    if keep[n - 1] && s == before.len() {
        n - 1
    } else {
        lemma_kept_state_from(v, keep, n - 1, s)
    }
}

/// Whether some arc of a machine has the labels and the weight of `arc`.
pub open spec fn has_likeness<W: Weight>(v: FstV<W>, arc: Arc<W>) -> bool {
    exists|s: int, i: int|
        0 <= s < v.n() && 0 <= i < v.arcs(s).len() && (#[trigger] v.arcs(s)[i]).ilabel == arc.ilabel
            && v.arcs(s)[i].olabel == arc.olabel && v.arcs(s)[i].weight == arc.weight
}

/// Whether each arc of `r` has the labels and the weight of an arc of `v`.
pub open spec fn arcs_are_from<W: Weight>(v: FstV<W>, r: FstV<W>) -> bool {
    forall|s: int, i: int|
        0 <= s < r.n() && 0 <= i < r.arcs(s).len() ==> has_likeness(v, #[trigger] r.arcs(s)[i])
}

proof fn lemma_from_from<W: Weight>(a: FstV<W>, b: FstV<W>, c: FstV<W>)
    requires
        arcs_are_from(a, b),
        arcs_are_from(b, c),
    ensures
        arcs_are_from(a, c),
{
    assert forall|s: int, i: int| 0 <= s < c.n() && 0 <= i < c.arcs(s).len() implies has_likeness(
        a,
        #[trigger] c.arcs(s)[i],
    ) by {
        let arc = c.arcs(s)[i];
        assert(has_likeness(b, arc));
        let (t, j) = choose|t: int, j: int|
            0 <= t < b.n() && 0 <= j < b.arcs(t).len() && (#[trigger] b.arcs(t)[j]).ilabel
                == arc.ilabel && b.arcs(t)[j].olabel == arc.olabel && b.arcs(t)[j].weight
                == arc.weight;
        assert(has_likeness(a, b.arcs(t)[j]));
    }
}

proof fn lemma_trimmed_arcs_are_from<W: Weight>(v: FstV<W>)
    ensures
        arcs_are_from(v, trimmed(v)),
{
    let t = trimmed(v);
    let keep = path_states(v);
    assert forall|s: int, i: int| 0 <= s < t.n() && 0 <= i < t.arcs(s).len() implies has_likeness(
        v,
        #[trigger] t.arcs(s)[i],
    ) by {
        let x = lemma_kept_state_from(v, keep, v.n() as int, s);
        let j = lemma_kept_arc_from(v.states[x].arcs, keep, v.states[x].arcs.len() as int, i);
        assert(v.arcs(x)[j].ilabel == t.arcs(s)[i].ilabel);
    }
}

proof fn lemma_merged_arcs_are_from<W: Weight>(t: FstV<W>, rep: Seq<usize>)
    ensures
        arcs_are_from(t, merged_machine(t, rep)),
{
    let m = merged_machine(t, rep);
    assert forall|s: int, i: int| 0 <= s < m.n() && 0 <= i < m.arcs(s).len() implies has_likeness(
        t,
        #[trigger] m.arcs(s)[i],
    ) by {
        if rep[s] == s {
            let (x, j) = lemma_class_arc_from(t, rep, s, t.n() as int, i);
            assert(t.arcs(x)[j].ilabel == m.arcs(s)[i].ilabel);
        } else {
            assert(t.arcs(s)[i] == m.arcs(s)[i]);
        }
    }
}

proof fn lemma_unique_arcs_are_from<W: Weight>(v: FstV<W>)
    ensures
        arcs_are_from(v, with_unique_arcs(v)),
{
    let w = with_unique_arcs(v);
    assert forall|s: int, i: int| 0 <= s < w.n() && 0 <= i < w.arcs(s).len() implies has_likeness(
        v,
        #[trigger] w.arcs(s)[i],
    ) by {
        lemma_unique_has_the_same(v, s, w.arcs(s)[i]);
        let j = choose|j: int| 0 <= j < v.arcs(s).len() && v.arcs(s)[j] == w.arcs(s)[i];
        assert(v.arcs(s)[j].ilabel == w.arcs(s)[i].ilabel);
    }
}

/// Minimizing makes no arc: the labels and the weight of each were there. What a path may
/// end with was there too.
pub proof fn law_minimizing_makes_no_arc<W: Weight>(v: FstV<W>, r: FstV<W>)
    requires
        v.wf(),
        v.n() <= usize::MAX,
        is_minimized(v, r),
    ensures
        arcs_are_from(v, r),
        ends_are_members(v) ==> ends_are_members(r),
{
    let t = trimmed(v);
    lemma_trimmed_wf(v);
    lemma_trimmed_arcs_are_from(v);
    if ends_are_members(v) {
        lemma_trimmed_ends_are_members(v);
    }
    if t.start is Some {
        let rep = choose|rep: Seq<usize>| #[trigger] is_coarsest(t, rep) && r == merged_by(t, rep);
        let m = merged_machine(t, rep);
        lemma_merged_wf(t, rep);
        lemma_merged_arcs_are_from(t, rep);
        lemma_trimmed_arcs_are_from(m);
        lemma_unique_arcs_are_from(trimmed(m));
        lemma_from_from(v, t, m);
        lemma_from_from(v, m, trimmed(m));
        lemma_from_from(v, trimmed(m), r);
        if ends_are_members(v) {
            assert(ends_are_members(m)) by {
                assert forall|s: int| 0 <= s < m.n() && #[trigger] m.fin(s)
                    != W::spec_zero() implies m.is_final(s) by {
                    assert(m.fin(s) == t.fin(s));
                }
            }
            lemma_trimmed_ends_are_members(m);
            assert forall|s: int| 0 <= s < r.n() && #[trigger] r.fin(s)
                != W::spec_zero() implies r.is_final(s) by {
                assert(r.fin(s) == trimmed(m).fin(s));
            }
        }
    }
}

/// Minimizing keeps what is read: the labels of the successful paths are the same, arc by
/// arc, before and after.
pub proof fn law_minimizing_keeps_labels<W: Weight>(v: FstV<W>, r: FstV<W>, string: Seq<i32>)
    requires
        v.wf(),
        v.n() <= usize::MAX,
        ends_are_members(v),
        is_minimized(v, r),
    ensures
        succeeds_reading(r, string) <==> succeeds_reading(v, string),
{
    let t = trimmed(v);
    lemma_trimmed_wf(v);
    lemma_trimming_keeps_labels(v, string);
    if t.start is Some {
        let rep = choose|rep: Seq<usize>| #[trigger] is_coarsest(t, rep) && r == merged_by(t, rep);
        let m = merged_machine(t, rep);
        lemma_trimmed_ends_are_members(v);
        lemma_merging_keeps_labels(t, rep, string);
        lemma_trimmed_wf(m);
        lemma_trimming_keeps_labels(m, string);
        if succeeds_reading(trimmed(m), string) {
            let run = choose|run: Seq<Arc<W>>| #[trigger]
                succeeds(trimmed(m), run) && labels_of(run) == string;
            lemma_unique_succeeds(trimmed(m), run);
            assert(succeeds(r, run));
        }
        if succeeds_reading(r, string) {
            let run = choose|run: Seq<Arc<W>>| #[trigger]
                succeeds(r, run) && labels_of(run) == string;
            lemma_unique_succeeds(trimmed(m), run);
            assert(succeeds(trimmed(m), run));
        }
    }
}

/// What a machine whose labels can be decoded is decoded to.
proof fn lemma_decoded_by<W: Weight>(decoder: EncodeModel<W>, e: FstV<W>)
    requires
        decoder.encode_type is Decode,
        e.start is Some,
        e.wf(),
        e.n() < usize::MAX,
        all_decodable(decoder, e),
        reads_no_epsilon(e),
    ensures
        decodes_to(decoder, e, map_in_place::<W, EncodeMapper<W>>(decoder, e)),
        map_in_place::<W, EncodeMapper<W>>(decoder, e).wf(),
{
    let x = map_in_place::<W, EncodeMapper<W>>(decoder, e);
    lemma_decoding_succeeds(decoder, e);
    assert forall|s: int| 0 <= s < e.n() implies state_comes_back(
        decoder,
        #[trigger] e.states[s],
        x.states[s],
    ) by {
        assert(x.states[s] == decoded_state(decoder, e.states[s]));
        assert forall|i: int| 0 <= i < e.states[s].arcs.len() implies comes_back(
            decoder,
            #[trigger] e.states[s].arcs[i],
            x.states[s].arcs[i],
        ) by {
            assert(e.arcs(s)[i].ilabel != EPSILON);
            assert(e.states[s].arcs[i].nextstate < e.n());
            assert(is_decodable(decoder, e.arcs(s)[i]));
            assert(!undecoded(e.arcs(s)[i]));
        }
    }
    assert forall|s: int, i: int| 0 <= s < x.n() && 0 <= i < x.states[s].arcs.len() implies (
    #[trigger] x.states[s].arcs[i]).nextstate < x.n() by {
        assert(state_comes_back(decoder, e.states[s], x.states[s]));
        assert(comes_back(decoder, e.states[s].arcs[i], x.states[s].arcs[i]));
        assert(e.states[s].arcs[i].nextstate < e.n());
    }
}

/// Whether every arc of a machine reads a label.
pub open spec fn reads_no_epsilon<W: Weight>(e: FstV<W>) -> bool {
    forall|s: int, i: int|
        0 <= s < e.n() && 0 <= i < e.arcs(s).len() ==> (#[trigger] e.arcs(s)[i]).ilabel != EPSILON
}

/// An accepting run of a machine whose ends are in the semiring succeeds.
proof fn lemma_accepting_succeeds<W: Weight>(v: FstV<W>, run: Seq<Arc<W>>)
    requires
        ends_are_members(v),
        is_accepting(v, run),
    ensures
        succeeds(v, run),
{
    assert(v.fin(end_of(v.start->0 as int, run)) != W::spec_zero());
}

/// The ends of an encoded machine are in the semiring: there is one, and it weighs One.
proof fn lemma_encoded_ends<W: Weight>(q: FstV<W>)
    requires
        q.wf(),
        q.start is Some,
        q.n() < usize::MAX,
        spec_is_final(W::spec_one()),
        decodes_to(
            reversed(encoder_after(fresh_encoder::<W>(), q)),
            encoded(fresh_encoder::<W>(), q),
            ended_by_arcs(q),
        ),
    ensures
        ends_are_members(encoded(fresh_encoder::<W>(), q)),
{
    lemma_flags();
    lemma_ended_wf(q);
    let e = encoded(fresh_encoder::<W>(), q);
    let x = ended_by_arcs(q);
    let decoder = reversed(encoder_after(fresh_encoder::<W>(), q));
    assert forall|s: int| 0 <= s < e.n() && #[trigger] e.fin(s) != W::spec_zero() implies e.is_final(
        s,
    ) by {
        assert(state_comes_back(decoder, e.states[s], x.states[s]));
        assert(e.fin(s) == x.fin(s));
        if s < q.n() {
            assert(x.states[s].final_weight == W::spec_zero());
        }
    }
}

/// Minimizing a weighted machine keeps its paths: with the weights made part of the
/// labels, the states merged, and the labels decoded again, each accepting path has one
/// with the same labels and the same weights arc by arc, the final weight being that of
/// the last arc, and there are no others.
///
/// The machine `q` is the one that is encoded: the argument, pushed and rounded. What
/// decoding folds afterwards are the last arcs.
pub proof fn law_minimizing_keeps_weights<W: Weight>(
    q: FstV<W>,
    e: FstV<W>,
    from_first: bool,
    run: Seq<Arc<W>>,
) -> (other: Seq<Arc<W>>)
    requires
        q.wf(),
        q.start is Some,
        q.n() + 1 < usize::MAX,
        spec_is_final(W::spec_one()),
        forall|s: int| 0 <= s < q.n() ==> are_encodable((#[trigger] q.states[s]).arcs),
        encoder_after(fresh_encoder::<W>(), q).table.triples.len() <= i32::MAX,
        encoded(fresh_encoder::<W>(), q).wf(),
        is_minimized(encoded(fresh_encoder::<W>(), q), e),
        is_accepting(
            if from_first {
                q
            } else {
                map_in_place::<W, EncodeMapper<W>>(
                    reversed(encoder_after(fresh_encoder::<W>(), q)),
                    e,
                )
            },
            run,
        ),
    ensures
        all_decodable(encoder_after(fresh_encoder::<W>(), q), e),
        ({
            let decoded = map_in_place::<W, EncodeMapper<W>>(
                reversed(encoder_after(fresh_encoder::<W>(), q)),
                e,
            );
            if from_first {
                &&& is_accepting(decoded, other)
                &&& are_alike(run.push(last_arc(q, run)), other)
            } else {
                &&& is_accepting(q, other)
                &&& are_alike(other.push(last_arc(q, other)), run)
            }
        }),
{
    lemma_flags();
    let fresh = fresh_encoder::<W>();
    let after = encoder_after(fresh, q);
    let whole = encoded(fresh, q);
    lemma_remembering_encodes(fresh, q);
    lemma_encoded_decodes(fresh, q, after.table);
    let decoder = decoder_by(remembering(fresh, q), after.table);
    assert(decoder == reversed(after));
    let x = ended_by_arcs(q);
    lemma_ended_wf(q);
    lemma_encoded_ends(q);
    lemma_minimized_wf(whole, e);
    law_minimizing_makes_no_arc(whole, e);
    assert forall|s: int, i: int|
        0 <= s < e.n() && 0 <= i < e.arcs(s).len() implies (#[trigger] e.arcs(s)[i]).ilabel
        != EPSILON && is_decodable(decoder, e.arcs(s)[i]) && is_decodable(after, e.arcs(s)[i]) by {
        let arc = e.arcs(s)[i];
        assert(has_likeness(whole, arc));
        let (t, j) = choose|t: int, j: int|
            0 <= t < whole.n() && 0 <= j < whole.arcs(t).len() && (#[trigger] whole.arcs(
                t,
            )[j]).ilabel == arc.ilabel && whole.arcs(t)[j].olabel == arc.olabel && whole.arcs(
                t,
            )[j].weight == arc.weight;
        assert(state_comes_back(decoder, whole.states[t], x.states[t]));
        assert(comes_back(decoder, whole.states[t].arcs[j], x.states[t].arcs[j]));
    }
    if from_first {
        lemma_run_gets_last_arc(q, run);
        let all = run.push(last_arc(q, run));
        let there = lemma_run_is_encoded(decoder, whole, x, x.start->0 as int, all);
        lemma_accepting_succeeds(whole, there);
        assert(succeeds_reading(whole, labels_of(there)));
        law_minimizing_keeps_labels(whole, e, labels_of(there));
    }
    assert(e.start is Some);
    lemma_decoded_by(decoder, e);
    let decoded = map_in_place::<W, EncodeMapper<W>>(decoder, e);
    if from_first {
        lemma_run_gets_last_arc(q, run);
        let all = run.push(last_arc(q, run));
        let there = lemma_run_is_encoded(decoder, whole, x, x.start->0 as int, all);
        lemma_accepting_succeeds(whole, there);
        assert(succeeds_reading(whole, labels_of(there)));
        law_minimizing_keeps_labels(whole, e, labels_of(there));
        let merged = choose|r: Seq<Arc<W>>| #[trigger]
            succeeds(e, r) && labels_of(r) == labels_of(there);
        lemma_run_stays(e, e.start->0 as int, merged, merged.len() as int);
        let other = lemma_run_is_decoded(decoder, e, decoded, e.start->0 as int, merged);
        lemma_same_labels_decode_alike(decoder, there, all, merged, other);
        other
    } else {
        let merged = lemma_run_is_encoded(decoder, e, decoded, e.start->0 as int, run);
        lemma_accepting_succeeds(e, merged);
        assert(succeeds_reading(e, labels_of(merged)));
        law_minimizing_keeps_labels(whole, e, labels_of(merged));
        let there = choose|r: Seq<Arc<W>>| #[trigger]
            succeeds(whole, r) && labels_of(r) == labels_of(merged);
        lemma_run_stays(whole, whole.start->0 as int, there, there.len() as int);
        let all = lemma_run_is_decoded(decoder, whole, x, whole.start->0 as int, there);
        lemma_same_labels_decode_alike(decoder, there, all, merged, run);
        lemma_run_had_last_arc(q, all);
        all.drop_last()
    }
}

} // verus!
