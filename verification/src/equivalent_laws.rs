//! What deciding on encoded machines says of the weights of their paths.
use crate::arc::{Arc, EPSILON};
use crate::arc_map::{map_all, superfinal_state};
use crate::encode::{
    extends, remembering, EncodeMapper, EncodeModel, EncodeTableV, ENCODE_FLAGS, ENCODE_LABELS, ENCODE_WEIGHTS,
};
use crate::encode_laws::{
    are_encodable, comes_back, decoder_by, is_encoder, lemma_map_grows, lemma_remembering_encodes,
    lemma_states_come_back, state_comes_back, with_ending, with_endings,
};
use crate::equivalent::{
    accepts_string, encoded, encoder_after, fresh_encoder, goes, next_state, same_language,
    state_after,
};
use crate::inspect::reads_once;
use crate::paths::{
    accepted_weight, are_alike, end_of, is_accepting, is_ending, is_run, lemma_after_first,
    lemma_alike, lemma_go_first, lemma_run_stays, state_at, steps,
};
use crate::vector_fst::FstV;
use crate::weight::Weight;
use vstd::prelude::*;

verus! {

/// The labels that a run reads, arc by arc.
pub open spec fn labels_of<W: Weight>(run: Seq<Arc<W>>) -> Seq<i32> {
    run.map_values(|arc: Arc<W>| arc.ilabel)
}

/// Whether no state of a machine has two arcs that read the same, and no arc weighs Zero.
pub open spec fn goes_one_way<W: Weight>(e: FstV<W>) -> bool {
    forall|s: int|
        0 <= s < e.n() ==> reads_once(#[trigger] e.arcs(s)) && forall|i: int|
            0 <= i < e.arcs(s).len() ==> (#[trigger] e.arcs(s)[i]).weight != W::spec_zero()
}

/// Where one arc reads a label, that is where reading it leads.
proof fn lemma_goes_there<W: Weight>(arcs: Seq<Arc<W>>, i: int, k: int)
    requires
        reads_once(arcs),
        0 <= i < k <= arcs.len(),
        arcs[i].weight != W::spec_zero(),
    ensures
        goes(arcs, arcs[i].ilabel, k) == Some(arcs[i].nextstate),
    decreases k,
{
    if i < k - 1 {
        assert(arcs[i].ilabel != arcs[k - 1].ilabel);
        lemma_goes_there(arcs, i, k - 1);
    }
}

/// Where reading a label leads, an arc leads.
proof fn lemma_goes_by<W: Weight>(arcs: Seq<Arc<W>>, label: i32, k: int) -> (i: int)
    requires
        0 <= k <= arcs.len(),
        goes(arcs, label, k) is Some,
    ensures
        0 <= i < k,
        arcs[i].ilabel == label,
        goes(arcs, label, k) == Some(arcs[i].nextstate),
    decreases k,
{
    if arcs[k - 1].ilabel == label && arcs[k - 1].weight != W::spec_zero() {
        k - 1
    } else {
        lemma_goes_by(arcs, label, k - 1)
    }
}

/// A run leads where reading its labels leads.
proof fn lemma_run_leads<W: Weight>(e: FstV<W>, run: Seq<Arc<W>>)
    requires
        e.wf(),
        goes_one_way(e),
        e.start is Some,
        is_run(e, e.start->0 as int, run),
    ensures
        state_after(e, labels_of(run)) matches Some(t) && t == end_of(e.start->0 as int, run),
    decreases run.len(),
{
    let s = e.start->0 as int;
    if run.len() > 0 {
        let before = run.drop_last();
        assert forall|i: int| 0 <= i < before.len() implies #[trigger] steps(e, s, before, i) by {
            assert(steps(e, s, run, i));
            assert(state_at(s, before, i) == state_at(s, run, i));
        }
        lemma_run_leads(e, before);
        assert(labels_of(run).drop_last() =~= labels_of(before));
        let n = run.len() as int;
        assert(steps(e, s, run, n - 1));
        let p = state_at(s, run, n - 1);
        assert(p == end_of(s, before));
        let i = choose|i: int| 0 <= i < e.arcs(p).len() && e.arcs(p)[i] == run[n - 1];
        assert(reads_once(e.arcs(p)));
        assert(e.arcs(p)[i].weight != W::spec_zero());
        lemma_goes_there(e.arcs(p), i, e.arcs(p).len() as int);
    }
}

/// Where reading labels leads, a run leads.
proof fn lemma_reading_runs<W: Weight>(e: FstV<W>, string: Seq<i32>) -> (run: Seq<Arc<W>>)
    requires
        e.wf(),
        state_after(e, string) is Some,
    ensures
        e.start is Some,
        is_run(e, e.start->0 as int, run),
        labels_of(run) == string,
        state_after(e, string)->0 == end_of(e.start->0 as int, run),
    decreases string.len(),
{
    if string.len() == 0 {
        let run = Seq::<Arc<W>>::empty();
        assert(labels_of(run) =~= string);
        run
    } else {
        let before = lemma_reading_runs(e, string.drop_last());
        let s = e.start->0 as int;
        let p = end_of(s, before);
        lemma_run_stays(e, s, before, before.len() as int);
        assert(next_state(e, state_after(e, string.drop_last()), string.last()) is Some);
        let i = lemma_goes_by(e.arcs(p), string.last(), e.arcs(p).len() as int);
        let run = before.push(e.arcs(p)[i]);
        assert forall|k: int| 0 <= k < run.len() implies #[trigger] steps(e, s, run, k) by {
            if k < before.len() {
                assert(steps(e, s, before, k));
                assert(state_at(s, run, k) == state_at(s, before, k));
            } else {
                assert(state_at(s, run, k) == p);
            }
        }
        assert(labels_of(run) =~= labels_of(before).push(string.last()));
        assert(string =~= string.drop_last().push(string.last()));
        run
    }
}

/// Whether decoding gives, of each state of `e`, the state of `x`.
pub open spec fn decodes_to<W: Weight>(decoder: EncodeModel<W>, e: FstV<W>, x: FstV<W>) -> bool {
    &&& e.start == x.start
    &&& e.n() == x.n()
    &&& forall|s: int|
        0 <= s < e.n() ==> state_comes_back(decoder, #[trigger] e.states[s], x.states[s])
}

/// Whether decoding gives, of each arc of a run, the arc of the other.
pub open spec fn run_comes_back<W: Weight>(
    decoder: EncodeModel<W>,
    there: Seq<Arc<W>>,
    run: Seq<Arc<W>>,
) -> bool {
    &&& there.len() == run.len()
    &&& forall|i: int|
        0 <= i < run.len() ==> comes_back(decoder, #[trigger] there[i], run[i])
            && there[i].nextstate == run[i].nextstate
}

/// An arc is decoded to one that leads where it leads.
proof fn lemma_leads_alike<W: Weight>(decoder: EncodeModel<W>, a: Arc<W>, b: Arc<W>)
    requires
        decoder.encode_type is Decode,
        comes_back(decoder, a, b),
    ensures
        a.nextstate == b.nextstate,
{
}

/// A run of a machine is, encoded, a run of the encoded machine.
pub proof fn lemma_run_is_encoded<W: Weight>(
    decoder: EncodeModel<W>,
    e: FstV<W>,
    x: FstV<W>,
    s: int,
    run: Seq<Arc<W>>,
) -> (there: Seq<Arc<W>>)
    requires
        decoder.encode_type is Decode,
        decodes_to(decoder, e, x),
        x.wf(),
        is_ending(x, s, run),
    ensures
        is_ending(e, s, there),
        end_of(s, there) == end_of(s, run),
        run_comes_back(decoder, there, run),
    decreases run.len(),
{
    assert(state_comes_back(decoder, e.states[s], x.states[s]));
    if run.len() == 0 {
        Seq::empty()
    } else {
        lemma_after_first(x, s, run);
        let i = choose|i: int| 0 <= i < x.arcs(s).len() && x.arcs(s)[i] == run[0];
        let arc = e.arcs(s)[i];
        assert(comes_back(decoder, e.states[s].arcs[i], x.states[s].arcs[i]));
        lemma_leads_alike(decoder, arc, run[0]);
        let rest = lemma_run_is_encoded(
            decoder,
            e,
            x,
            run[0].nextstate as int,
            run.drop_first(),
        );
        lemma_go_first(e, s, arc, rest);
        let there = seq![arc] + rest;
        assert forall|k: int| 0 <= k < run.len() implies comes_back(
            decoder,
            #[trigger] there[k],
            run[k],
        ) && there[k].nextstate == run[k].nextstate by {
            if k > 0 {
                assert(comes_back(decoder, rest[k - 1], run.drop_first()[k - 1]));
            }
        }
        there
    }
}

/// A run of an encoded machine is, decoded, a run of the machine.
pub proof fn lemma_run_is_decoded<W: Weight>(
    decoder: EncodeModel<W>,
    e: FstV<W>,
    x: FstV<W>,
    s: int,
    there: Seq<Arc<W>>,
) -> (run: Seq<Arc<W>>)
    requires
        decoder.encode_type is Decode,
        decodes_to(decoder, e, x),
        e.wf(),
        is_ending(e, s, there),
    ensures
        is_ending(x, s, run),
        end_of(s, there) == end_of(s, run),
        run_comes_back(decoder, there, run),
    decreases there.len(),
{
    assert(state_comes_back(decoder, e.states[s], x.states[s]));
    if there.len() == 0 {
        Seq::empty()
    } else {
        lemma_after_first(e, s, there);
        let i = choose|i: int| 0 <= i < e.arcs(s).len() && e.arcs(s)[i] == there[0];
        let arc = x.arcs(s)[i];
        assert(comes_back(decoder, e.states[s].arcs[i], x.states[s].arcs[i]));
        lemma_leads_alike(decoder, there[0], arc);
        let rest = lemma_run_is_decoded(
            decoder,
            e,
            x,
            there[0].nextstate as int,
            there.drop_first(),
        );
        lemma_go_first(x, s, arc, rest);
        let run = seq![arc] + rest;
        assert forall|k: int| 0 <= k < run.len() implies comes_back(
            decoder,
            #[trigger] there[k],
            run[k],
        ) && there[k].nextstate == run[k].nextstate by {
            if k > 0 {
                assert(comes_back(decoder, there.drop_first()[k - 1], rest[k - 1]));
            }
        }
        run
    }
}

/// Runs that read the same labels are decoded to runs that are alike.
pub proof fn lemma_same_labels_decode_alike<W: Weight>(
    decoder: EncodeModel<W>,
    there1: Seq<Arc<W>>,
    run: Seq<Arc<W>>,
    there2: Seq<Arc<W>>,
    other: Seq<Arc<W>>,
)
    requires
        decoder.encode_type is Decode,
        decoder.flags == ENCODE_FLAGS,
        run_comes_back(decoder, there1, run),
        run_comes_back(decoder, there2, other),
        labels_of(there1) == labels_of(there2),
    ensures
        are_alike(run, other),
{
    let string = labels_of(there1);
    let flags = decoder.flags;
    assert(flags & 0x01u8 != 0 && flags & 0x02u8 != 0) by (bit_vector)
        requires
            flags == 0x03u8,
    ;
    assert(there1.len() == string.len() && there2.len() == string.len());
    assert forall|i: int| 0 <= i < run.len() implies (#[trigger] run[i]).ilabel == other[i].ilabel
        && run[i].olabel == other[i].olabel && run[i].weight == other[i].weight by {
        assert(comes_back(decoder, there1[i], run[i]));
        assert(comes_back(decoder, there2[i], other[i]));
        assert(string[i] == there1[i].ilabel);
        assert(labels_of(there2)[i] == there2[i].ilabel);
    }
}

/// Where two encoded machines accept the same, so do the machines, weights included.
proof fn lemma_same_decoded<W: Weight>(
    decoder: EncodeModel<W>,
    e1: FstV<W>,
    x1: FstV<W>,
    e2: FstV<W>,
    x2: FstV<W>,
    run: Seq<Arc<W>>,
) -> (other: Seq<Arc<W>>)
    requires
        decoder.encode_type is Decode,
        decoder.flags == ENCODE_FLAGS,
        decodes_to(decoder, e1, x1),
        decodes_to(decoder, e2, x2),
        e1.wf(),
        x1.wf(),
        e2.wf(),
        goes_one_way(e1),
        same_language(e1, e2),
        is_accepting(x1, run),
    ensures
        is_accepting(x2, other),
        are_alike(run, other),
{
    let s1 = x1.start->0 as int;
    let there1 = lemma_run_is_encoded(decoder, e1, x1, s1, run);
    lemma_run_leads(e1, there1);
    let string = labels_of(there1);
    assert(accepts_string(e1, string));
    assert(accepts_string(e2, string));
    let there2 = lemma_reading_runs(e2, string);
    let s2 = e2.start->0 as int;
    lemma_run_stays(e2, s2, there2, there2.len() as int);
    let other = lemma_run_is_decoded(decoder, e2, x2, s2, there2);
    lemma_same_labels_decode_alike(decoder, there1, run, there2, other);
    other
}

/// The machine whose final weights have become arcs.
pub open spec fn ended_by_arcs<W: Weight>(q: FstV<W>) -> FstV<W> {
    q.with_states(with_endings(ENCODE_FLAGS, q))
}

/// The arc that the final weight of a run has become.
pub open spec fn last_arc<W: Weight>(q: FstV<W>, run: Seq<Arc<W>>) -> Arc<W> {
    Arc {
        ilabel: EPSILON,
        olabel: EPSILON,
        weight: q.fin(end_of(q.start->0 as int, run)),
        nextstate: q.n() as usize,
    }
}

/// The flags ask for labels and for weights.
pub proof fn lemma_flags()
    ensures
        ENCODE_FLAGS & ENCODE_WEIGHTS != 0,
        ENCODE_FLAGS & ENCODE_LABELS != 0,
        ENCODE_FLAGS & ENCODE_FLAGS == ENCODE_FLAGS,
{
    assert(0x03u8 & 0x02u8 != 0 && 0x03u8 & 0x01u8 != 0 && 0x03u8 & 0x03u8 == 0x03u8)
        by (bit_vector);
}

/// A machine whose final weights have become arcs is in order.
pub proof fn lemma_ended_wf<W: Weight>(q: FstV<W>)
    requires
        q.wf(),
        q.n() < usize::MAX,
    ensures
        ended_by_arcs(q).wf(),
        ended_by_arcs(q).n() == q.n() + 1,
        ended_by_arcs(q).fin(q.n() as int) == W::spec_one(),
        ended_by_arcs(q).arcs(q.n() as int).len() == 0,
        forall|s: int|
            0 <= s < q.n() ==> #[trigger] ended_by_arcs(q).states[s] == with_ending(
                ENCODE_FLAGS,
                q.states[s],
                q.n() as usize,
            ),
{
    lemma_flags();
    let x = ended_by_arcs(q);
    assert forall|s: int, i: int| 0 <= s < x.n() && 0 <= i < x.states[s].arcs.len() implies (
    #[trigger] x.states[s].arcs[i]).nextstate < x.n() by {
        if s < q.n() {
            assert(x.states[s] == with_ending(ENCODE_FLAGS, q.states[s], q.n() as usize));
            if i < q.states[s].arcs.len() {
                assert(q.states[s].arcs[i].nextstate < q.n());
            }
        }
    }
}

/// A run and the arc that its final weight has become.
pub proof fn lemma_run_gets_last_arc<W: Weight>(q: FstV<W>, run: Seq<Arc<W>>)
    requires
        q.wf(),
        q.n() < usize::MAX,
        W::spec_one() != W::spec_zero(),
        is_accepting(q, run),
    ensures
        is_accepting(ended_by_arcs(q), run.push(last_arc(q, run))),
{
    lemma_flags();
    lemma_ended_wf(q);
    let x = ended_by_arcs(q);
    let s = q.start->0 as int;
    let all = run.push(last_arc(q, run));
    assert forall|i: int| 0 <= i < all.len() implies #[trigger] steps(x, s, all, i) by {
        let p = state_at(s, run, i);
        lemma_run_stays(q, s, run, i);
        assert(state_at(s, all, i) == p);
        assert(x.states[p] == with_ending(ENCODE_FLAGS, q.states[p], q.n() as usize));
        if i < run.len() {
            assert(steps(q, s, run, i));
            let j = choose|j: int| 0 <= j < q.arcs(p).len() && q.arcs(p)[j] == run[i];
            assert(x.arcs(p)[j] == run[i]);
        } else {
            assert(x.arcs(p)[q.arcs(p).len() as int] == last_arc(q, run));
        }
    }
}

/// A run that ends where final weights have become arcs is a run and such an arc.
pub proof fn lemma_run_had_last_arc<W: Weight>(q: FstV<W>, all: Seq<Arc<W>>)
    requires
        q.wf(),
        q.n() < usize::MAX,
        is_accepting(ended_by_arcs(q), all),
    ensures
        all.len() > 0,
        is_accepting(q, all.drop_last()),
        all == all.drop_last().push(last_arc(q, all.drop_last())),
{
    lemma_flags();
    lemma_ended_wf(q);
    let x = ended_by_arcs(q);
    let n = q.n() as int;
    let s = q.start->0 as int;
    let e = end_of(s, all);
    lemma_run_stays(x, s, all, all.len() as int);
    if e < n {
        assert(x.states[e] == with_ending(ENCODE_FLAGS, q.states[e], q.n() as usize));
    }
    assert(e == n);
    let run = all.drop_last();
    assert forall|i: int| 0 <= i < run.len() implies 0 <= #[trigger] state_at(s, all, i) < n
        && steps(q, s, run, i) by {
        lemma_run_stays(x, s, all, i);
        let p = state_at(s, all, i);
        assert(steps(x, s, all, i));
        assert(steps(x, s, all, i + 1));
        let j = choose|j: int| 0 <= j < x.arcs(p).len() && x.arcs(p)[j] == all[i];
        assert(p < n);
        assert(x.states[p] == with_ending(ENCODE_FLAGS, q.states[p], q.n() as usize));
        if j >= q.arcs(p).len() {
            assert(all[i].nextstate == n);
            assert(state_at(s, all, i + 1) == n);
            assert(x.arcs(n).len() == 0);
        }
        assert(q.arcs(p)[j] == all[i]);
        assert(state_at(s, run, i) == p);
    }
    assert forall|i: int| 0 <= i < run.len() implies #[trigger] steps(q, s, run, i) by {
        assert(0 <= state_at(s, all, i) < n);
    }
    let k = all.len() - 1;
    assert(steps(x, s, all, k));
    lemma_run_stays(x, s, all, k);
    let p = state_at(s, all, k);
    assert(p < n);
    assert(state_at(s, run, k) == p);
    assert(x.states[p] == with_ending(ENCODE_FLAGS, q.states[p], q.n() as usize));
    let j = choose|j: int| 0 <= j < x.arcs(p).len() && x.arcs(p)[j] == all[k];
    if j < q.arcs(p).len() {
        assert(q.states[p].arcs[j].nextstate < q.n());
        assert(x.arcs(p)[j] == q.arcs(p)[j]);
    }
    assert(all =~= run.push(last_arc(q, run)));
}

/// What a machine is encoded to is decoded to the machine, by any table that has grown
/// from the one it left.
pub proof fn lemma_encoded_decodes<W: Weight>(
    m: EncodeModel<W>,
    q: FstV<W>,
    later: EncodeTableV<W>,
)
    requires
        q.wf(),
        q.start is Some,
        q.n() < usize::MAX,
        is_encoder(m),
        m.flags == ENCODE_FLAGS,
        forall|s: int| 0 <= s < q.n() ==> are_encodable((#[trigger] q.states[s]).arcs),
        extends(later.triples, encoder_after(m, q).table.triples),
        later.triples.len() <= i32::MAX,
    ensures
        decodes_to(decoder_by(remembering(m, q), later), encoded(m, q), ended_by_arcs(q)),
        is_encoder(encoder_after(m, q)),
        encoder_after(m, q) == (EncodeModel {
            table: encoder_after(m, q).table,
            ..m
        }),
{
    lemma_flags();
    lemma_remembering_encodes(m, q);
    lemma_ended_wf(q);
    let remembered = remembering(m, q);
    let decoder = decoder_by(remembered, later);
    let top = q.n() as usize;
    lemma_states_come_back(remembered, q.states, top, q.n() as int, later);
    let r = map_all::<W, W, EncodeMapper<W>>(remembered, q);
    let e = encoded(m, q);
    let x = ended_by_arcs(q);
    assert(e.states =~= r.done + superfinal_state(r.superfinal));
    assert forall|s: int| 0 <= s < e.n() implies state_comes_back(
        decoder,
        #[trigger] e.states[s],
        x.states[s],
    ) by {
        if s < q.n() {
            assert(e.states[s] == r.done[s]);
        }
    }
}

/// Deciding on machines whose weights have become part of their labels compares weights:
/// where the two, encoded by one encoder, accept the same strings, each accepting path of
/// one has an accepting path of the other with the same labels and the same weights arc
/// by arc, and the same final weight.
///
/// The machines are those that [`equivalent`](fn@crate::equivalent::equivalent) encodes:
/// the arguments, pushed and rounded.
pub proof fn law_encoded_agreement_is_agreement<W: Weight>(
    q1: FstV<W>,
    q2: FstV<W>,
    from_first: bool,
    run: Seq<Arc<W>>,
) -> (other: Seq<Arc<W>>)
    requires
        q1.wf(),
        q2.wf(),
        q1.start is Some,
        q2.start is Some,
        q1.n() < usize::MAX,
        q2.n() < usize::MAX,
        W::spec_one() != W::spec_zero(),
        forall|s: int| 0 <= s < q1.n() ==> are_encodable((#[trigger] q1.states[s]).arcs),
        forall|s: int| 0 <= s < q2.n() ==> are_encodable((#[trigger] q2.states[s]).arcs),
        ({
            let m = encoder_after(fresh_encoder::<W>(), q1);
            let e1 = encoded(fresh_encoder::<W>(), q1);
            let e2 = encoded(m, q2);
            &&& encoder_after(m, q2).table.triples.len() <= i32::MAX
            &&& e1.wf() && e2.wf()
            &&& goes_one_way(
                if from_first {
                    e1
                } else {
                    e2
                },
            )
            &&& same_language(e1, e2)
        }),
        is_accepting(
            if from_first {
                q1
            } else {
                q2
            },
            run,
        ),
    ensures
        ({
            let here = if from_first {
                q1
            } else {
                q2
            };
            let there = if from_first {
                q2
            } else {
                q1
            };
            &&& is_accepting(there, other)
            &&& are_alike(run, other)
            &&& there.fin(end_of(there.start->0 as int, other)) == here.fin(
                end_of(here.start->0 as int, run),
            )
            &&& accepted_weight(there, other) == accepted_weight(here, run)
        }),
{
    lemma_flags();
    let fresh = fresh_encoder::<W>();
    let m = encoder_after(fresh, q1);
    let after = encoder_after(m, q2);
    let e1 = encoded(fresh, q1);
    let e2 = encoded(m, q2);
    lemma_remembering_encodes(fresh, q1);
    lemma_map_grows(remembering(fresh, q1), q1.states, q1.n() as usize, q1.n() as int);
    lemma_map_grows(remembering(m, q2), q2.states, q2.n() as usize, q2.n() as int);
    lemma_encoded_decodes(fresh, q1, after.table);
    lemma_encoded_decodes(m, q2, after.table);
    let decoder = decoder_by(remembering(m, q2), after.table);
    assert(decoder == decoder_by(remembering(fresh, q1), after.table));
    let x1 = ended_by_arcs(q1);
    let x2 = ended_by_arcs(q2);
    lemma_ended_wf(q1);
    lemma_ended_wf(q2);
    if from_first {
        lemma_run_gets_last_arc(q1, run);
        let all = lemma_same_decoded(decoder, e1, x1, e2, x2, run.push(last_arc(q1, run)));
        lemma_run_had_last_arc(q2, all);
        let other = all.drop_last();
        lemma_cut_alike(run, last_arc(q1, run), other, last_arc(q2, other));
        lemma_alike(run, other, last_arc(q1, run).weight);
        other
    } else {
        assert(same_language(e2, e1));
        lemma_run_gets_last_arc(q2, run);
        let all = lemma_same_decoded(decoder, e2, x2, e1, x1, run.push(last_arc(q2, run)));
        lemma_run_had_last_arc(q1, all);
        let other = all.drop_last();
        lemma_cut_alike(run, last_arc(q2, run), other, last_arc(q1, other));
        lemma_alike(run, other, last_arc(q2, run).weight);
        other
    }
}

proof fn lemma_cut_alike<W: Weight>(a: Seq<Arc<W>>, x: Arc<W>, b: Seq<Arc<W>>, y: Arc<W>)
    requires
        are_alike(a.push(x), b.push(y)),
    ensures
        are_alike(a, b),
        x.weight == y.weight,
{
    let p = a.push(x);
    let q = b.push(y);
    assert(p.len() == q.len());
    assert(p[a.len() as int].weight == q[a.len() as int].weight);
    assert forall|i: int| 0 <= i < a.len() implies (#[trigger] a[i]).ilabel == b[i].ilabel
        && a[i].olabel == b[i].olabel && a[i].weight == b[i].weight by {
        assert(p[i].ilabel == q[i].ilabel);
    }
}

} // verus!
