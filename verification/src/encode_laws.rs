//! What decoding makes of an encoded machine.
use crate::arc::{Arc, EPSILON, NO_LABEL, NO_STATE};
use crate::arc_map::{
    final_arc, map_all, map_arcs, map_in_place, map_states, superfinal_state, ArcMapper,
};
use crate::encode::{
    all_decodable, arc_triple, decoded_machine, decoded_state, extends, is_decodable, label_of,
    law_decoding_undoes_encoding, lemma_decoding_succeeds, passes_through, remembering, reversed,
    undecoded, EncodeMapper, EncodeModel, EncodeTableV, ENCODE_FLAGS, ENCODE_HAS_ISYMBOLS,
    ENCODE_HAS_OSYMBOLS, ENCODE_LABELS, ENCODE_WEIGHTS,
};
use crate::rmfinalepsilon::final_folded;
use crate::vector_fst::{FstV, StateV};
use crate::weight::Weight;
use vstd::prelude::*;

verus! {

/// Whether a mapper encodes, by the flags of its table.
pub open spec fn is_encoder<W: Weight>(m: EncodeModel<W>) -> bool {
    m.encode_type is Encode && m.flags == m.table.flags & ENCODE_FLAGS
}

/// Whether arcs are arcs that can be encoded: none reads a label that stands for no
/// label, or leads nowhere.
pub open spec fn are_encodable<W: Weight>(arcs: Seq<Arc<W>>) -> bool {
    forall|i: int|
        0 <= i < arcs.len() ==> (#[trigger] arcs[i]).ilabel != NO_LABEL && arcs[i].nextstate
            != NO_STATE
}

/// The mapper that decodes by a table.
pub open spec fn decoder_by<W: Weight>(m: EncodeModel<W>, later: EncodeTableV<W>) -> EncodeModel<
    W,
> {
    reversed(EncodeModel { table: later, ..m })
}

/// Whether an encoded arc is decoded to `arc`.
pub open spec fn comes_back<W: Weight>(decoder: EncodeModel<W>, encoded: Arc<W>, arc: Arc<W>) -> bool {
    &&& !undecoded(encoded)
    &&& is_decodable(decoder, encoded)
    &&& <EncodeMapper<W> as ArcMapper<W, W>>::mapped(decoder, encoded) == arc
}

/// Encoding keeps the labels there are, and everything but the table.
proof fn lemma_table_grows<W: Weight>(m: EncodeModel<W>, arc: Arc<W>)
    requires
        m.encode_type is Encode,
    ensures
        ({
            let after = <EncodeMapper<W> as ArcMapper<W, W>>::moved(m, arc);
            &&& extends(after.table.triples, m.table.triples)
            &&& after == (EncodeModel {
                table: EncodeTableV { triples: after.table.triples, ..m.table },
                ..m
            })
        }),
{
}

/// The arcs of a state come back, by any table that has grown from the one they left.
proof fn lemma_arcs_come_back<W: Weight>(
    m: EncodeModel<W>,
    arcs: Seq<Arc<W>>,
    k: int,
    later: EncodeTableV<W>,
)
    requires
        is_encoder(m),
        are_encodable(arcs),
        0 <= k <= arcs.len(),
        extends(
            later.triples,
            map_arcs::<W, W, EncodeMapper<W>>(m, arcs, k).0.table.triples,
        ),
        later.triples.len() <= i32::MAX,
    ensures
        ({
            let (after, done) = map_arcs::<W, W, EncodeMapper<W>>(m, arcs, k);
            &&& extends(after.table.triples, m.table.triples)
            &&& after == (EncodeModel {
                table: EncodeTableV { triples: after.table.triples, ..m.table },
                ..m
            })
            &&& done.len() == k
            &&& forall|i: int|
                0 <= i < k ==> comes_back(decoder_by(m, later), #[trigger] done[i], arcs[i])
        }),
    decreases k,
{
    if k > 0 {
        let (p, before) = map_arcs::<W, W, EncodeMapper<W>>(m, arcs, k - 1);
        let (after, done) = map_arcs::<W, W, EncodeMapper<W>>(m, arcs, k);
        let arc = arcs[k - 1];
        if p.encode_type is Encode {
            lemma_table_grows(p, arc);
        } else {
            assert(after.table == p.table);
        }
        assert(extends(later.triples, p.table.triples));
        lemma_arcs_come_back(m, arcs, k - 1, later);
        lemma_table_grows(p, arc);
        assert(after.table == p.table.having(arc));
        law_decoding_undoes_encoding(p, arc, later);
        assert(reversed(EncodeModel { table: later, ..p }) == decoder_by(m, later));
        assert forall|i: int| 0 <= i < k implies comes_back(
            decoder_by(m, later),
            #[trigger] done[i],
            arcs[i],
        ) by {
            if i < k - 1 {
                assert(before[i] == done[i]);
            }
        }
    }
}

/// A state whose final weight has become an arc to the superfinal state, where weights
/// are encoded.
pub open spec fn with_ending<W: Weight>(flags: u8, state: StateV<W>, top: usize) -> StateV<W> {
    if flags & ENCODE_WEIGHTS == 0 {
        state
    } else {
        StateV {
            final_weight: W::spec_zero(),
            arcs: if state.final_weight == W::spec_zero() {
                state.arcs
            } else {
                state.arcs.push(
                    Arc {
                        ilabel: EPSILON,
                        olabel: EPSILON,
                        weight: state.final_weight,
                        nextstate: top,
                    },
                )
            },
        }
    }
}

/// The states of a machine whose final weights have become arcs to a superfinal state,
/// where weights are encoded.
pub open spec fn with_endings<W: Weight>(flags: u8, v: FstV<W>) -> Seq<StateV<W>> {
    Seq::new(v.n(), |s: int| with_ending(flags, v.states[s], v.n() as usize)) + superfinal_state(
        flags & ENCODE_WEIGHTS != 0,
    )
}

/// Whether an encoded state is decoded to `state`.
pub open spec fn state_comes_back<W: Weight>(
    decoder: EncodeModel<W>,
    encoded: StateV<W>,
    state: StateV<W>,
) -> bool {
    &&& encoded.final_weight == state.final_weight
    &&& encoded.arcs.len() == state.arcs.len()
    &&& forall|i: int|
        0 <= i < encoded.arcs.len() ==> comes_back(
            decoder,
            #[trigger] encoded.arcs[i],
            state.arcs[i],
        )
}

/// The arc that a final weight has become comes back as an epsilon arc with that weight.
proof fn lemma_ending_comes_back<W: Weight>(
    q: EncodeModel<W>,
    weight: W,
    top: usize,
    later: EncodeTableV<W>,
)
    requires
        is_encoder(q),
        q.flags & ENCODE_WEIGHTS != 0,
        weight != W::spec_zero(),
        top != NO_STATE,
        extends(
            later.triples,
            <EncodeMapper<W> as ArcMapper<W, W>>::moved(q, final_arc(weight)).table.triples,
        ),
        later.triples.len() <= i32::MAX,
    ensures
        comes_back(
            decoder_by(q, later),
            (Arc {
                nextstate: top,
                ..<EncodeMapper<W> as ArcMapper<W, W>>::mapped(q, final_arc(weight))
            }),
            (Arc { ilabel: EPSILON, olabel: EPSILON, weight, nextstate: top }),
        ),
        <EncodeMapper<W> as ArcMapper<W, W>>::mapped(q, final_arc(weight)).ilabel != EPSILON,
{
    let flags = q.table.flags;
    let kept = q.flags;
    assert(kept & ENCODE_LABELS == flags & ENCODE_LABELS && kept & ENCODE_WEIGHTS == flags
        & ENCODE_WEIGHTS) by (bit_vector)
        requires
            kept == flags & 0x03u8,
            ENCODE_LABELS == 0x01u8,
            ENCODE_WEIGHTS == 0x02u8,
    ;
    let arc = final_arc(weight);
    let triple = arc_triple(arc, flags);
    let triples = q.table.having(arc).triples;
    assert(triples.contains(triple)) by {
        if !q.table.triples.contains(triple) {
            assert(triples[q.table.triples.len() as int] == triple);
        }
    }
    let i = triples.index_of(triple);
    assert(0 <= i < triples.len() && triples[i] == triple);
    assert(later.triples[i] == triple);
    assert(label_of(triples, triple) == i + 1);
}

/// The states that are done come back, by any table that has grown from the one they
/// left.
pub proof fn lemma_states_come_back<W: Weight>(
    m: EncodeModel<W>,
    states: Seq<StateV<W>>,
    top: usize,
    k: int,
    later: EncodeTableV<W>,
)
    requires
        is_encoder(m),
        forall|s: int| 0 <= s < states.len() ==> are_encodable((#[trigger] states[s]).arcs),
        top != NO_STATE,
        0 <= k <= states.len(),
        extends(
            later.triples,
            map_states::<W, W, EncodeMapper<W>>(m, states, top, k).model.table.triples,
        ),
        later.triples.len() <= i32::MAX,
    ensures
        ({
            let r = map_states::<W, W, EncodeMapper<W>>(m, states, top, k);
            &&& extends(r.model.table.triples, m.table.triples)
            &&& r.model == (EncodeModel {
                table: EncodeTableV { triples: r.model.table.triples, ..m.table },
                ..m
            })
            &&& r.failed is None
            &&& r.superfinal == (m.flags & ENCODE_WEIGHTS != 0)
            &&& r.done.len() == k
            &&& forall|s: int|
                0 <= s < k ==> state_comes_back(
                    decoder_by(m, later),
                    #[trigger] r.done[s],
                    with_ending(m.flags, states[s], top),
                )
        }),
    decreases k,
{
    if k > 0 {
        let p = map_states::<W, W, EncodeMapper<W>>(m, states, top, k - 1);
        let r = map_states::<W, W, EncodeMapper<W>>(m, states, top, k);
        let state = states[k - 1];
        let n = state.arcs.len() as int;
        lemma_map_grows(m, states, top, k - 1);
        if p.failed is None {
            lemma_arcs_grow(p.model, state.arcs, n);
            let (q, arcs) = map_arcs::<W, W, EncodeMapper<W>>(p.model, state.arcs, n);
            lemma_table_grows(q, final_arc(state.final_weight));
        }
        lemma_states_come_back(m, states, top, k - 1, later);
        let (q, arcs) = map_arcs::<W, W, EncodeMapper<W>>(p.model, state.arcs, n);
        lemma_arcs_come_back(p.model, state.arcs, n, later);
        let last = <EncodeMapper<W> as ArcMapper<W, W>>::mapped(q, final_arc(state.final_weight));
        let decoder = decoder_by(m, later);
        assert(decoder_by(p.model, later) == decoder);
        assert(decoder_by(q, later) == decoder);
        if m.flags & ENCODE_WEIGHTS != 0 && state.final_weight != W::spec_zero() {
            lemma_ending_comes_back(q, state.final_weight, top, later);
        } else {
            assert(passes_through(q.flags, final_arc(state.final_weight)));
        }
        assert(state_comes_back(decoder, r.done[k - 1], with_ending(m.flags, state, top)));
        assert forall|s: int| 0 <= s < k implies state_comes_back(
            decoder,
            #[trigger] r.done[s],
            with_ending(m.flags, states[s], top),
        ) by {
            if s < k - 1 {
                assert(r.done[s] == p.done[s]);
            }
        }
    }
}

/// Encoding arcs keeps the labels there are.
proof fn lemma_arcs_grow<W: Weight>(m: EncodeModel<W>, arcs: Seq<Arc<W>>, k: int)
    requires
        m.encode_type is Encode,
        0 <= k <= arcs.len(),
    ensures
        ({
            let after = map_arcs::<W, W, EncodeMapper<W>>(m, arcs, k).0;
            &&& after.encode_type is Encode
            &&& extends(after.table.triples, m.table.triples)
        }),
    decreases k,
{
    if k > 0 {
        lemma_arcs_grow(m, arcs, k - 1);
        lemma_table_grows(map_arcs::<W, W, EncodeMapper<W>>(m, arcs, k - 1).0, arcs[k - 1]);
    }
}

/// Encoding states keeps the labels there are.
pub proof fn lemma_map_grows<W: Weight>(
    m: EncodeModel<W>,
    states: Seq<StateV<W>>,
    top: usize,
    k: int,
)
    requires
        m.encode_type is Encode,
        0 <= k <= states.len(),
    ensures
        ({
            let after = map_states::<W, W, EncodeMapper<W>>(m, states, top, k).model;
            &&& after.encode_type is Encode
            &&& extends(after.table.triples, m.table.triples)
        }),
    decreases k,
{
    if k > 0 {
        lemma_map_grows(m, states, top, k - 1);
        let p = map_states::<W, W, EncodeMapper<W>>(m, states, top, k - 1);
        let state = states[k - 1];
        lemma_arcs_grow(p.model, state.arcs, state.arcs.len() as int);
        let q = map_arcs::<W, W, EncodeMapper<W>>(
            p.model,
            state.arcs,
            state.arcs.len() as int,
        ).0;
        lemma_table_grows(q, final_arc(state.final_weight));
    }
}

/// A mapper that encodes still does once it remembers the names of a machine's labels.
pub proof fn lemma_remembering_encodes<W: Weight>(m: EncodeModel<W>, v: FstV<W>)
    requires
        is_encoder(m),
    ensures
        is_encoder(remembering(m, v)),
{
    let flags = m.table.flags;
    assert((flags | ENCODE_HAS_ISYMBOLS) & ENCODE_FLAGS == flags & ENCODE_FLAGS && (flags
        & !ENCODE_HAS_ISYMBOLS) & ENCODE_FLAGS == flags & ENCODE_FLAGS) by (bit_vector)
        requires
            ENCODE_FLAGS == 0x03u8,
            ENCODE_HAS_ISYMBOLS == 0x04u8,
    ;
    let named = if v.isymbols is Some {
        flags | ENCODE_HAS_ISYMBOLS
    } else {
        flags & !ENCODE_HAS_ISYMBOLS
    };
    assert((named | ENCODE_HAS_OSYMBOLS) & ENCODE_FLAGS == named & ENCODE_FLAGS && (named
        & !ENCODE_HAS_OSYMBOLS) & ENCODE_FLAGS == named & ENCODE_FLAGS) by (bit_vector)
        requires
            ENCODE_FLAGS == 0x03u8,
            ENCODE_HAS_OSYMBOLS == 0x08u8,
    ;
}

/// Whatever is folded away comes back: a machine that is encoded can be decoded, and
/// decoding gives it its arcs, weights and symbol tables back, once the arcs that final
/// weights had become are folded into final weights again.
///
/// No arc of the machine may read a label that stands for no label, and there may be no
/// more triples than there are labels.
pub proof fn law_machines_come_back<W: Weight>(m: EncodeModel<W>, v: FstV<W>)
    requires
        v.wf(),
        v.start is Some,
        v.n() < usize::MAX,
        is_encoder(m),
        forall|s: int| 0 <= s < v.n() ==> are_encodable((#[trigger] v.states[s]).arcs),
        map_all::<W, W, EncodeMapper<W>>(remembering(m, v), v).model.table.triples.len()
            <= i32::MAX,
    ensures
        ({
            let remembered = remembering(m, v);
            let after = map_all::<W, W, EncodeMapper<W>>(remembered, v).model;
            let encoded = map_in_place::<W, EncodeMapper<W>>(remembered, v);
            let decoded = decoded_machine(after, encoded);
            &&& map_all::<W, W, EncodeMapper<W>>(remembered, v).failed is None
            &&& all_decodable(after, encoded)
            &&& decoded.isymbols == v.isymbols
            &&& decoded.osymbols == v.osymbols
            &&& map_in_place::<W, EncodeMapper<W>>(reversed(after), encoded).start == v.start
            &&& map_in_place::<W, EncodeMapper<W>>(reversed(after), encoded).states == with_endings(
                m.flags,
                v,
            )
            &&& decoded.states == final_folded(
                map_in_place::<W, EncodeMapper<W>>(reversed(after), encoded),
            ).states
        }),
{
    let remembered = remembering(m, v);
    lemma_remembering_encodes(m, v);
    let r = map_all::<W, W, EncodeMapper<W>>(remembered, v);
    let after = r.model;
    let encoded = map_in_place::<W, EncodeMapper<W>>(remembered, v);
    let top = v.n() as usize;
    lemma_states_come_back(remembered, v.states, top, v.n() as int, after.table);
    let decoder = reversed(after);
    assert(decoder_by(remembered, after.table) == decoder);
    let states = encoded.states;
    let back = with_endings(m.flags, v);
    assert(states =~= r.done + superfinal_state(r.superfinal));
    assert forall|s: int| 0 <= s < states.len() implies state_comes_back(
        decoder,
        #[trigger] states[s],
        back[s],
    ) by {
        if s < v.n() {
            assert(states[s] == r.done[s]);
            assert(back[s] == with_ending(m.flags, v.states[s], top));
        }
    }
    assert forall|s: int, i: int|
        0 <= s < encoded.n() && 0 <= i < encoded.arcs(s).len() && (#[trigger] encoded.arcs(
            s,
        )[i]).ilabel != EPSILON implies is_decodable(decoder, encoded.arcs(s)[i]) by {
        assert(state_comes_back(decoder, states[s], back[s]));
        assert(comes_back(decoder, states[s].arcs[i], back[s].arcs[i]));
    }
    assert(all_decodable(decoder, encoded));
    lemma_decoding_succeeds(decoder, encoded);
    let decoded = map_in_place::<W, EncodeMapper<W>>(decoder, encoded);
    assert(decoded.states =~= back) by {
        assert forall|s: int| 0 <= s < states.len() implies decoded_state(decoder, states[s])
            == #[trigger] back[s] by {
            assert(state_comes_back(decoder, states[s], back[s]));
            assert(decoded_state(decoder, states[s]).arcs =~= back[s].arcs) by {
                assert forall|i: int| 0 <= i < states[s].arcs.len() implies decoded_state(
                    decoder,
                    states[s],
                ).arcs[i] == back[s].arcs[i] by {
                    assert(comes_back(decoder, states[s].arcs[i], back[s].arcs[i]));
                }
            }
        }
    }
    assert(all_decodable(after, encoded)) by {
        assert forall|s: int, i: int|
            0 <= s < encoded.n() && 0 <= i < encoded.arcs(s).len() && (#[trigger] encoded.arcs(
                s,
            )[i]).ilabel != EPSILON implies is_decodable(after, encoded.arcs(s)[i]) by {
            assert(is_decodable(decoder, encoded.arcs(s)[i]));
        }
    }
}

} // verus!
