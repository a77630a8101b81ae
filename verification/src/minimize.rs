//! Merging the states that cannot be told apart.
//!
//! Two states are equivalent when no string read from one is read differently from the
//! other; minimization finds the coarsest such partition and keeps one state per class.
//!
//! The partition is stated for an unweighted acceptor. A weighted one is made unweighted
//! by pushing its weights to the front and then encoding them into the labels; a
//! transducer, by moving its output side into a gallic weight and doing the same.
use crate::arc::{Arc, EPSILON};
use crate::arc_map::arc_map_to;
use crate::common_future::ends_on;
use crate::connect::{connect, lemma_trimmed_wf, trimmed};
use crate::determinize::{arc_reads, reads_to};
use crate::encode::{
    all_decodable, decode, decoded_machine, encode, EncodeMapper, EncodeModel, ENCODE_FLAGS,
};
use crate::equivalent::{
    encoded, encoder_after, fresh_encoder, lemma_encoder_stays, lemma_encoding,
    pushed_and_quantized, quantized,
};
use crate::error::OpenFstError;
use crate::factor_weight::{
    factor_weight, factors, lemma_factored_wf, FactorIterator, FactorWeightOptions, GallicFactor,
};
use crate::gallic_map::{FromGallicMapper, ToGallicMapper};
use crate::inspect::{
    acceptor, input_deterministic, said_acceptor, said_input_deterministic, said_unweighted,
    unweighted,
};
use crate::partition::{
    by_part, coarsest_parts, follows, has_match, is_coarsest, is_consistent, is_stable,
    names_parts,
};
use crate::properties::K_ACCEPTOR;
use crate::push::{is_pushed, labels_come_out, labels_in, labels_out, lemma_labels_in,
    never_settles};
use crate::reweight::ReweightType;
use crate::sort::{law_ranked, lemma_ranked_from, put_in_order, ranked, Ranked};
use crate::string_weight::{GallicWeight, GALLIC_LEFT};
use crate::vector_fst::{lemma_forget_forget, set_bits, FstV, StateV, VectorFst};
use crate::weight::{Divide, Weight, IDEMPOTENT};
use vstd::prelude::*;

verus! {

/// The first `k` arcs, leading to the states that stand for those they lead to.
pub open spec fn redirected<W>(arcs: Seq<Arc<W>>, rep: Seq<usize>, k: int) -> Seq<Arc<W>>
    decreases k,
{
    if k <= 0 {
        Seq::empty()
    } else {
        redirected(arcs, rep, k - 1).push(
            Arc { nextstate: rep[arcs[k - 1].nextstate as int], ..arcs[k - 1] },
        )
    }
}

/// The arcs of those of the first `k` states that `c` stands for.
pub open spec fn class_arcs<W: Weight>(v: FstV<W>, rep: Seq<usize>, c: int, k: int) -> Seq<Arc<W>>
    decreases k,
{
    if k <= 0 {
        Seq::empty()
    } else {
        let before = class_arcs(v, rep, c, k - 1);
        if rep[k - 1] == c {
            before + redirected(v.arcs(k - 1), rep, v.arcs(k - 1).len() as int)
        } else {
            before
        }
    }
}

/// The machine with everything pointed at the states that stand for the others.
pub open spec fn merged_machine<W: Weight>(v: FstV<W>, rep: Seq<usize>) -> FstV<W> {
    FstV {
        start: match v.start {
            Some(s) => Some(rep[s as int]),
            None => None,
        },
        ..v.with_states(
            Seq::new(
                v.n(),
                |s: int|
                    if rep[s] == s {
                        StateV {
                            final_weight: v.fin(s),
                            arcs: class_arcs(v, rep, s, v.n() as int),
                        }
                    } else {
                        v.states[s]
                    },
            ),
        )
    }
}

proof fn lemma_redirected<W>(arcs: Seq<Arc<W>>, rep: Seq<usize>, k: int)
    requires
        0 <= k <= arcs.len(),
    ensures
        redirected(arcs, rep, k).len() == k,
        forall|i: int|
            0 <= i < k ==> #[trigger] redirected(arcs, rep, k)[i] == (Arc {
                nextstate: rep[arcs[i].nextstate as int],
                ..arcs[i]
            }),
    decreases k,
{
    if k > 0 {
        lemma_redirected(arcs, rep, k - 1);
    }
}

/// Where an arc of a class comes from.
pub proof fn lemma_class_arc_from<W: Weight>(
    v: FstV<W>,
    rep: Seq<usize>,
    c: int,
    k: int,
    j: int,
) -> (from: (int, int))
    requires
        0 <= k <= v.n(),
        0 <= j < class_arcs(v, rep, c, k).len(),
    ensures
        0 <= from.0 < k,
        rep[from.0] == c,
        0 <= from.1 < v.arcs(from.0).len(),
        class_arcs(v, rep, c, k)[j] == (Arc {
            nextstate: rep[v.arcs(from.0)[from.1].nextstate as int],
            ..v.arcs(from.0)[from.1]
        }),
    decreases k,
{
    let before = class_arcs(v, rep, c, k - 1);
    if j < before.len() {
        let from = lemma_class_arc_from(v, rep, c, k - 1, j);
        assert(class_arcs(v, rep, c, k)[j] == before[j]);
        from
    } else {
        let arcs = v.arcs(k - 1);
        lemma_redirected(arcs, rep, arcs.len() as int);
        assert(class_arcs(v, rep, c, k)[j] == redirected(arcs, rep, arcs.len() as int)[j
            - before.len()]);
        (k - 1, j - before.len())
    }
}

/// Every arc of a state of a class is an arc of the class.
proof fn lemma_class_arc_to<W: Weight>(
    v: FstV<W>,
    rep: Seq<usize>,
    c: int,
    k: int,
    t: int,
    i: int,
) -> (j: int)
    requires
        0 <= t < k <= v.n(),
        rep[t] == c,
        0 <= i < v.arcs(t).len(),
    ensures
        0 <= j < class_arcs(v, rep, c, k).len(),
        class_arcs(v, rep, c, k)[j] == (Arc {
            nextstate: rep[v.arcs(t)[i].nextstate as int],
            ..v.arcs(t)[i]
        }),
    decreases k,
{
    let before = class_arcs(v, rep, c, k - 1);
    if t == k - 1 {
        let arcs = v.arcs(t);
        lemma_redirected(arcs, rep, arcs.len() as int);
        assert(class_arcs(v, rep, c, k)[before.len() + i] == redirected(
            arcs,
            rep,
            arcs.len() as int,
        )[i]);
        before.len() + i
    } else {
        let j = lemma_class_arc_to(v, rep, c, k - 1, t, i);
        assert(class_arcs(v, rep, c, k)[j] == before[j]);
        j
    }
}

/// Merging states keeps a machine in order.
pub proof fn lemma_merged_wf<W: Weight>(v: FstV<W>, rep: Seq<usize>)
    requires
        v.wf(),
        rep.len() == v.n(),
        names_parts(rep),
    ensures
        merged_machine(v, rep).wf(),
{
    let m = merged_machine(v, rep);
    if let Some(s) = v.start {
        assert(rep[s as int] <= s);
    }
    assert forall|s: int, j: int| 0 <= s < m.n() && 0 <= j < m.states[s].arcs.len() implies (
    #[trigger] m.states[s].arcs[j]).nextstate < m.n() by {
        if rep[s] == s {
            let (t, i) = lemma_class_arc_from(v, rep, s, v.n() as int, j);
            assert(v.states[t].arcs[i].nextstate < v.n());
            assert(rep[v.arcs(t)[i].nextstate as int] <= v.arcs(t)[i].nextstate);
        } else {
            assert(v.states[s].arcs[j].nextstate < v.n());
        }
    }
}

/// Keeps one state per class and points everything at it.
fn merge_states<W: Weight>(fst: &mut VectorFst<W>, rep: &Vec<usize>)
    requires
        old(fst)@.wf(),
        old(fst)@.start is Some,
        rep@.len() == old(fst)@.n(),
        names_parts(rep@),
    ensures
        final(fst)@ == trimmed(merged_machine(old(fst)@, rep@)),
{
    let ghost v = fst@;
    let ghost m = merged_machine(v, rep@);
    // Everything is read from a copy, so that an arc is never remapped through a state
    // whose own arcs have already been replaced.
    let source = fst.duplicate();
    let n: usize = fst.num_states();
    let mut s: usize = 0;
    fst.forget_properties();
    proof {
        lemma_forget_forget(v);
    }
    while s < n
        invariant
            s <= n,
            n == v.n(),
            source@ == v,
            v.wf(),
            rep@.len() == n,
            m == merged_machine(v, rep@),
            fst@ == v.with_states(fst@.states),
            fst@.n() == n,
            forall|x: int| 0 <= x < s ==> #[trigger] fst@.states[x] == m.states[x],
            forall|x: int| s <= x < n ==> #[trigger] fst@.states[x] == v.states[x],
        decreases n - s,
    {
        let ghost now = fst@;
        if rep[s] == s {
            let mut arcs: Vec<Arc<W>> = Vec::new();
            let mut t: usize = 0;
            while t < n
                invariant
                    t <= n,
                    n == v.n(),
                    source@ == v,
                    v.wf(),
                    rep@.len() == n,
                    arcs@ == class_arcs(v, rep@, s as int, t as int),
                decreases n - t,
            {
                if rep[t] == s {
                    let from = source.arcs(t);
                    let ghost before = arcs@;
                    let mut i: usize = 0;
                    assert(before + redirected(from@, rep@, 0) =~= before);
                    while i < from.len()
                        invariant
                            i <= from@.len(),
                            t < n,
                            n == v.n(),
                            v.wf(),
                            from@ == v.arcs(t as int),
                            rep@.len() == n,
                            arcs@ == before + redirected(from@, rep@, i as int),
                        decreases from@.len() - i,
                    {
                        let arc = &from[i];
                        assert(v.states[t as int].arcs[i as int].nextstate < v.n());
                        arcs.push(arc.redirected(rep[arc.nextstate]));
                        i = i + 1;
                        assert(arcs@ =~= before + redirected(from@, rep@, i as int));
                    }
                }
                t = t + 1;
            }
            fst.set_arcs(s, arcs);
        }
        proof {
            lemma_forget_forget(v);
            lemma_forget_forget(now);
            assert forall|x: int| 0 <= x < s + 1 implies #[trigger] fst@.states[x]
                == m.states[x] by {
                if x < s {
                    assert(fst@.states[x] == now.states[x]);
                }
            }
        }
        s = s + 1;
    }
    if let Some(start) = fst.start() {
        fst.set_start(rep[start]);
    }
    proof {
        assert(fst@.states =~= m.states);
        lemma_merged_wf(v, rep@);
    }
    // The states that were merged away are now unreachable.
    connect(fst);
}

impl<W> Ranked for Arc<W> {
    open spec fn rank(self) -> (int, int, int) {
        (self.ilabel as int, self.olabel as int, self.nextstate as int)
    }

    fn before(&self, other: &Self) -> (b: bool) {
        self.ilabel < other.ilabel || (self.ilabel == other.ilabel && (self.olabel < other.olabel
            || (self.olabel == other.olabel && self.nextstate < other.nextstate)))
    }
}

/// Each of the first `k` arcs that is not what the one before it is.
pub open spec fn arcs_once<W>(all: Seq<Arc<W>>, k: int) -> Seq<Arc<W>>
    decreases k,
{
    if k <= 0 {
        Seq::empty()
    } else {
        let before = arcs_once(all, k - 1);
        if k > 1 && all[k - 1] == all[k - 2] {
            before
        } else {
            before.push(all[k - 1])
        }
    }
}

/// The machine with the arcs of each state in order, those that are alike in all once.
pub open spec fn with_unique_arcs<W: Weight>(v: FstV<W>) -> FstV<W> {
    v.with_states(
        Seq::new(
            v.n(),
            |s: int|
                StateV {
                    arcs: arcs_once(ranked(v.arcs(s)), v.arcs(s).len() as int),
                    ..v.states[s]
                },
        ),
    )
}

/// An arc that is kept once was there.
pub proof fn lemma_arcs_once_from<W>(all: Seq<Arc<W>>, k: int, i: int) -> (j: int)
    requires
        0 <= k <= all.len(),
        0 <= i < arcs_once(all, k).len(),
    ensures
        0 <= j < k,
        arcs_once(all, k)[i] == all[j],
    decreases k,
{
    let before = arcs_once(all, k - 1);
    if i < before.len() {
        let j = lemma_arcs_once_from(all, k - 1, i);
        assert(arcs_once(all, k)[i] == before[i]);
        j
    } else {
        k - 1
    }
}

/// An arc that was there is kept once.
pub proof fn lemma_arcs_once_to<W>(all: Seq<Arc<W>>, k: int, j: int) -> (i: int)
    requires
        0 <= j < k <= all.len(),
    ensures
        0 <= i < arcs_once(all, k).len(),
        arcs_once(all, k)[i] == all[j],
    decreases k,
{
    let before = arcs_once(all, k - 1);
    if j < k - 1 {
        let i = lemma_arcs_once_to(all, k - 1, j);
        assert(arcs_once(all, k)[i] == before[i]);
        i
    } else if k > 1 && all[k - 1] == all[k - 2] {
        lemma_arcs_once_to(all, k - 1, k - 2)
    } else {
        before.len() as int
    }
}

/// Keeping arcs once keeps a machine in order.
pub proof fn lemma_unique_wf<W: Weight>(v: FstV<W>)
    requires
        v.wf(),
    ensures
        with_unique_arcs(v).wf(),
{
    let w = with_unique_arcs(v);
    assert forall|s: int, i: int| 0 <= s < w.n() && 0 <= i < w.states[s].arcs.len() implies (
    #[trigger] w.states[s].arcs[i]).nextstate < w.n() by {
        law_ranked(v.arcs(s));
        let j = lemma_arcs_once_from(ranked(v.arcs(s)), v.arcs(s).len() as int, i);
        let k = lemma_ranked_from(v.arcs(s), j);
        assert(v.states[s].arcs[k].nextstate < v.n());
    }
}

/// Puts the arcs of each state in order and keeps those that are alike in all once.
fn make_arcs_unique<W: Weight>(fst: &mut VectorFst<W>)
    requires
        old(fst)@.wf(),
    ensures
        final(fst)@ == with_unique_arcs(old(fst)@),
{
    let ghost v = fst@;
    let ghost w = with_unique_arcs(v);
    let n: usize = fst.num_states();
    let mut s: usize = 0;
    fst.forget_properties();
    proof {
        lemma_forget_forget(v);
    }
    while s < n
        invariant
            s <= n,
            n == v.n(),
            w == with_unique_arcs(v),
            fst@ == v.with_states(fst@.states),
            fst@.n() == n,
            forall|x: int| 0 <= x < s ==> #[trigger] fst@.states[x] == w.states[x],
            forall|x: int| s <= x < n ==> #[trigger] fst@.states[x] == v.states[x],
        decreases n - s,
    {
        let ghost now = fst@;
        let all = put_in_order(crate::vector_fst::duplicate_arcs(fst.arcs(s)));
        let mut arcs: Vec<Arc<W>> = Vec::new();
        let mut k: usize = 0;
        while k < all.len()
            invariant
                k <= all@.len(),
                arcs@ == arcs_once(all@, k as int),
            decreases all@.len() - k,
        {
            let again = k > 0 && all[k - 1].ilabel == all[k].ilabel && all[k - 1].olabel
                == all[k].olabel && all[k - 1].nextstate == all[k].nextstate && all[k
                - 1].weight.same(&all[k].weight);
            if !again {
                arcs.push(all[k].duplicate());
            }
            k = k + 1;
        }
        fst.set_arcs(s, arcs);
        proof {
            lemma_forget_forget(v);
            lemma_forget_forget(now);
            assert forall|x: int| 0 <= x < s + 1 implies #[trigger] fst@.states[x]
                == w.states[x] by {
                if x < s {
                    assert(fst@.states[x] == now.states[x]);
                }
            }
        }
        s = s + 1;
    }
    assert(fst@.states =~= w.states);
}

/// What merging the states that `rep` puts together makes of a machine.
pub open spec fn merged_by<W: Weight>(t: FstV<W>, rep: Seq<usize>) -> FstV<W> {
    with_unique_arcs(trimmed(merged_machine(t, rep)))
}

/// Whether `r` is the machine `v` with the states that cannot be told apart merged.
pub open spec fn is_minimized<W: Weight>(v: FstV<W>, r: FstV<W>) -> bool {
    let t = trimmed(v);
    if t.start is None {
        r == t
    } else {
        exists|rep: Seq<usize>| #[trigger] is_coarsest(t, rep) && r == merged_by(t, rep)
    }
}

/// Merging states that cannot be told apart keeps a machine in order.
pub proof fn lemma_minimized_wf<W: Weight>(v: FstV<W>, r: FstV<W>)
    requires
        v.wf(),
        v.n() <= usize::MAX,
        is_minimized(v, r),
    ensures
        r.wf(),
        r.n() <= v.n(),
{
    let t = trimmed(v);
    lemma_trimmed_wf(v);
    if t.start is Some {
        let rep = choose|rep: Seq<usize>| #[trigger] is_coarsest(t, rep) && r == merged_by(t, rep);
        lemma_merged_wf(t, rep);
        lemma_trimmed_wf(merged_machine(t, rep));
        lemma_unique_wf(trimmed(merged_machine(t, rep)));
    }
}

/// Minimizes an unweighted acceptor.
fn acceptor_minimize<W: Weight>(fst: &mut VectorFst<W>)
    requires
        old(fst)@.wf(),
    ensures
        is_minimized(old(fst)@, final(fst)@),
        final(fst)@.wf(),
        final(fst)@.n() <= old(fst)@.n(),
{
    let ghost v = fst@;
    // States nothing reaches would otherwise be merged into classes of their own and
    // kept.
    let n: usize = fst.num_states();
    connect(fst);
    proof {
        lemma_trimmed_wf(v);
    }
    if fst.start().is_none() {
        return;
    }
    let ghost t = fst@;
    let rep = coarsest_parts(&*fst);
    merge_states(fst, &rep);
    proof {
        lemma_merged_wf(t, rep@);
        lemma_trimmed_wf(merged_machine(t, rep@));
    }
    // Merging can leave a state with two arcs alike, which are one arc.
    make_arcs_unique(fst);
    proof {
        assert(is_coarsest(t, rep@));
        lemma_minimized_wf(v, fst@);
    }
}

/// Whether `r` is the weighted acceptor `v` with the states that cannot be told apart
/// merged: its weights are pushed to the front, rounded and encoded into its labels, the
/// states are merged, and the weights are decoded again.
pub open spec fn is_weighted_minimized<W: Divide>(
    v: FstV<W>,
    delta: W::Delta,
    r: FstV<W>,
) -> bool {
    exists|p: FstV<W>, e: FstV<W>| #[trigger]
        minimizes_through(v, delta, p, e) && all_decodable(encoder_of(p, delta), e) && r
            == decoded_machine(encoder_of(p, delta), e)
}

/// The encoder that has encoded the pushed machine `p`.
pub open spec fn encoder_of<W: Weight>(p: FstV<W>, delta: W::Delta) -> EncodeModel<W> {
    encoder_after(fresh_encoder::<W>(), quantized(p, delta))
}

/// Whether `p` is `v` pushed to the front, and `e` what minimizing it encoded comes to.
pub open spec fn minimizes_through<W: Divide>(
    v: FstV<W>,
    delta: W::Delta,
    p: FstV<W>,
    e: FstV<W>,
) -> bool {
    &&& is_pushed(v, ReweightType::ToInitial, delta, false, p)
    &&& is_minimized(encoded(fresh_encoder::<W>(), quantized(p, delta)), e)
}

/// Whether the weighted acceptor `v` cannot be minimized: its weights cannot be pushed,
/// or what comes out cannot be decoded.
pub open spec fn cannot_minimize<W: Divide>(v: FstV<W>, delta: W::Delta) -> bool {
    ||| never_settles(v, true, delta)
    ||| exists|p: FstV<W>, e: FstV<W>| #[trigger]
        minimizes_through(v, delta, p, e) && !all_decodable(encoder_of(p, delta), e)
}

/// Minimizes a weighted acceptor. Leaves it alone where that fails.
fn weighted_minimize<W: Divide>(fst: &mut VectorFst<W>, delta: &W::Delta) -> (result: Result<
    (),
    OpenFstError,
>)
    requires
        old(fst)@.wf(),
        old(fst)@.n() + 3 < usize::MAX,
    ensures
        match result {
            Ok(_) => is_weighted_minimized(old(fst)@, *delta, final(fst)@) && final(fst)@.wf(),
            Err(e) => e is InvalidOperation && cannot_minimize(old(fst)@, *delta) && final(fst)@
                == old(fst)@,
        },
{
    let ghost v = fst@;
    // Pushing puts each path's weight as near the front as it goes, so that two states
    // that differ only in where their weight sits become the same; encoding then makes
    // the weights part of the labels, leaving an unweighted acceptor.
    let mut work = match pushed_and_quantized(&*fst, delta) {
        Ok(work) => work,
        Err(e) => {
            return Err(e);
        },
    };
    let ghost p = choose|p: FstV<W>| #[trigger]
        is_pushed(v, ReweightType::ToInitial, *delta, false, p) && work@ == quantized(p, *delta);
    let mut encoder: EncodeMapper<W> = EncodeMapper::new(ENCODE_FLAGS);
    proof {
        assert(0x03u8 & 0x03u8 == 0x03u8) by (bit_vector);
        assert(encoder@ =~= fresh_encoder::<W>());
        lemma_encoding(encoder@, work@);
        lemma_encoder_stays(encoder@, work@);
    }
    if let Err(e) = encode(&mut work, &mut encoder) {
        return Err(e);
    }
    acceptor_minimize(&mut work);
    let ghost e = work@;
    assert(encoder@ == encoder_of(p, *delta));
    assert(minimizes_through(v, *delta, p, e));
    if let Err(e) = decode(&mut work, &encoder) {
        return Err(e);
    }
    *fst = work;
    Ok(())
}

/// Whether `f` is what minimizing the transducer `v` through its gallic form comes to,
/// before the labels are moved back out of the weights.
pub open spec fn is_gallic_minimized<W: Divide>(
    v: FstV<W>,
    delta: W::Delta,
    f: FstV<GallicWeight<W, GALLIC_LEFT>>,
) -> bool {
    exists|g: FstV<GallicWeight<W, GALLIC_LEFT>>|
        {
            &&& is_weighted_minimized(as_acceptor(v), delta, g)
            &&& #[trigger] factors::<
                GallicWeight<W, GALLIC_LEFT>,
                GallicFactor<W, GALLIC_LEFT>,
            >(whole_options(delta), g, FstV::empty(), f)
        }
}

/// The machine with its labels moved into its weights, known to write what it reads.
pub open spec fn as_acceptor<W: Weight>(v: FstV<W>) -> FstV<GallicWeight<W, GALLIC_LEFT>> {
    let g = labels_in::<W, GALLIC_LEFT>(v);
    FstV { props: set_bits(g.props, K_ACCEPTOR, K_ACCEPTOR), ..g }
}

/// How strings that one arc cannot carry are spread over several.
pub open spec fn whole_options<D>(delta: D) -> FactorWeightOptions<D> {
    FactorWeightOptions {
        delta,
        mode: 0x03,
        final_ilabel: EPSILON,
        final_olabel: EPSILON,
        increment_final_ilabel: false,
        increment_final_olabel: false,
    }
}

/// Whether minimizing is refused: two arcs of a machine that may read one label two ways
/// may lead to states that are about to be merged, which takes an idempotent sum and has
/// to be asked for.
pub open spec fn refuses<W: Weight>(v: FstV<W>, allow_nondet: bool) -> bool {
    !said_input_deterministic(v) && (W::spec_properties() & IDEMPOTENT == 0 || !allow_nondet)
}

/// Merges the states of `fst` that cannot be told apart, in place.
///
/// A machine that is not deterministic needs an idempotent semiring and `allow_nondet`:
/// two of its arcs may lead to states that are about to be merged.
pub fn minimize<W: Divide>(fst: &mut VectorFst<W>, delta: &W::Delta, allow_nondet: bool) -> (result:
    Result<(), OpenFstError>)
    requires
        old(fst)@.wf(),
        old(fst)@.n() + 3 < usize::MAX,
    ensures
        result matches Err(e) ==> e is InvalidOperation,
        refuses(old(fst)@, allow_nondet) ==> result is Err && final(fst)@ == old(fst)@,
        !refuses(old(fst)@, allow_nondet) && said_acceptor(old(fst)@) && said_unweighted(old(fst)@)
            ==> result is Ok && is_minimized(old(fst)@, final(fst)@),
        !refuses(old(fst)@, allow_nondet) && said_acceptor(old(fst)@) && !said_unweighted(
            old(fst)@,
        ) ==> match result {
            Ok(_) => is_weighted_minimized(old(fst)@, *delta, final(fst)@),
            Err(_) => cannot_minimize(old(fst)@, *delta) && final(fst)@ == old(fst)@,
        },
        !refuses(old(fst)@, allow_nondet) && !said_acceptor(old(fst)@) ==> match result {
            Ok(_) => exists|f: FstV<GallicWeight<W, GALLIC_LEFT>>| #[trigger]
                is_gallic_minimized(old(fst)@, *delta, f) && labels_come_out(f) && final(fst)@
                    == labels_out(f, old(fst)@, old(fst)@),
            Err(_) => cannot_minimize(as_acceptor(old(fst)@), *delta) || exists|
                f: FstV<GallicWeight<W, GALLIC_LEFT>>,
            | #[trigger]
                is_gallic_minimized(old(fst)@, *delta, f) && !labels_come_out(f),
        },
{
    let ghost v = fst@;
    if !input_deterministic(&*fst) {
        if W::properties() & IDEMPOTENT == 0 {
            return Err(
                OpenFstError::InvalidOperation(
                    "Minimize: a non-deterministic FST over a non-idempotent semiring cannot be minimized",
                ),
            );
        }
        if !allow_nondet {
            return Err(
                OpenFstError::InvalidOperation(
                    "Minimize: refusing a non-deterministic FST without allow_nondet",
                ),
            );
        }
    }
    if acceptor(&*fst) {
        if unweighted(&*fst) {
            acceptor_minimize(fst);
            return Ok(());
        }
        return weighted_minimize(fst, delta);
    }
    // A transducer: the output side moves into a gallic weight, and what is left is an
    // acceptor.
    let mut gfst: VectorFst<GallicWeight<W, GALLIC_LEFT>> = VectorFst::new();
    let mut mapper = ToGallicMapper::<GALLIC_LEFT>::new();
    proof {
        lemma_labels_in::<W, GALLIC_LEFT>(v);
    }
    if let Err(e) = arc_map_to(&*fst, &mut gfst, &mut mapper) {
        return Err(e);
    }
    gfst.set_properties(K_ACCEPTOR, K_ACCEPTOR);
    proof {
        let g = labels_in::<W, GALLIC_LEFT>(v);
        assert(gfst@ == as_acceptor(v));
        assert forall|s: int, i: int|
            0 <= s < gfst@.n() && 0 <= i < gfst@.states[s].arcs.len() implies (
        #[trigger] gfst@.states[s].arcs[i]).nextstate < gfst@.n() by {
            assert(g.states[s].arcs[i].nextstate < g.n());
        }
    }
    if let Err(e) = weighted_minimize(&mut gfst, delta) {
        return Err(e);
    }
    // A gallic weight may hold several labels, which one arc cannot carry. Arc weights
    // are spread too, since pushing may leave the start's arcs carrying several.
    let mut factored: VectorFst<GallicWeight<W, GALLIC_LEFT>> = VectorFst::new();
    let spread = FactorWeightOptions::new(*delta);
    factor_weight(&gfst, &mut factored, GallicFactor::new, &spread);
    let ghost f = factored@;
    proof {
        assert(spread == whole_options(*delta));
        assert(is_weighted_minimized(as_acceptor(v), *delta, gfst@));
        assert(factors::<GallicWeight<W, GALLIC_LEFT>, GallicFactor<W, GALLIC_LEFT>>(
            whole_options(*delta),
            gfst@,
            FstV::empty(),
            f,
        ));
        lemma_factored_wf::<GallicWeight<W, GALLIC_LEFT>, GallicFactor<W, GALLIC_LEFT>>(
            spread,
            gfst@,
            FstV::empty(),
            f,
        );
        assert(is_gallic_minimized(v, *delta, f));
    }
    if factored.num_states() == usize::MAX {
        return Err(OpenFstError::InvalidOperation("Minimize: too many states"));
    }
    let osymbols = fst.output_symbols();
    let mut back = FromGallicMapper::<GALLIC_LEFT>::new();
    if let Err(e) = arc_map_to(&factored, fst, &mut back) {
        return Err(e);
    }
    if back.error() {
        return Err(
            OpenFstError::InvalidOperation(
                "Minimize: a weight came out that no single arc can carry",
            ),
        );
    }
    fst.set_output_symbols(osymbols);
    Ok(())
}

/// What is read to a state is read to the one that stands for it once states are merged.
proof fn lemma_merged_reads<W: Weight>(
    t: FstV<W>,
    rep: Seq<usize>,
    s: int,
    string: Seq<i32>,
    q: int,
)
    requires
        t.wf(),
        rep.len() == t.n(),
        names_parts(rep),
        0 <= s < t.n(),
        reads_to(t, s, string, q),
    ensures
        0 <= q < t.n(),
        reads_to(merged_machine(t, rep), rep[s] as int, string, rep[q] as int),
    decreases string.len(),
{
    if string.len() > 0 {
        let m = merged_machine(t, rep);
        let p = choose|p: int|
            0 <= p < t.n() && reads_to(t, s, string.drop_last(), p) && #[trigger] arc_reads(
                t.arcs(p),
                string.last(),
                q,
            );
        lemma_merged_reads(t, rep, s, string.drop_last(), p);
        let i = choose|i: int|
            0 <= i < t.arcs(p).len() && (#[trigger] t.arcs(p)[i]).ilabel == string.last() && t.arcs(
                p,
            )[i].nextstate == q;
        assert(t.states[p].arcs[i].nextstate < t.n());
        let c = rep[p] as int;
        assert(rep[c] == c);
        let j = lemma_class_arc_to(t, rep, c, t.n() as int, p, i);
        assert(m.arcs(c)[j].ilabel == string.last());
        assert(arc_reads(m.arcs(c), string.last(), rep[q] as int));
    }
}

/// What is read once states are merged was read before.
proof fn lemma_merged_reads_back<W: Weight>(
    t: FstV<W>,
    rep: Seq<usize>,
    s: int,
    string: Seq<i32>,
    c: int,
) -> (q: int)
    requires
        t.wf(),
        rep.len() == t.n(),
        names_parts(rep),
        is_stable(t, by_part(rep)),
        0 <= s < t.n(),
        reads_to(merged_machine(t, rep), rep[s] as int, string, c),
    ensures
        0 <= q < t.n(),
        reads_to(t, s, string, q),
        rep[q] == c,
    decreases string.len(),
{
    if string.len() == 0 {
        s
    } else {
        let m = merged_machine(t, rep);
        let label = string.last();
        let b = choose|b: int|
            0 <= b < m.n() && reads_to(m, rep[s] as int, string.drop_last(), b)
                && #[trigger] arc_reads(m.arcs(b), label, c);
        let p = lemma_merged_reads_back(t, rep, s, string.drop_last(), b);
        assert(rep[b] == b);
        let j = choose|j: int|
            0 <= j < m.arcs(b).len() && (#[trigger] m.arcs(b)[j]).ilabel == label && m.arcs(
                b,
            )[j].nextstate == c;
        let (x, i) = lemma_class_arc_from(t, rep, b, t.n() as int, j);
        let arc = t.arcs(x)[i];
        assert(is_consistent(t, by_part(rep), x, p));
        assert(follows(t, by_part(rep), x, p));
        assert(has_match(t, by_part(rep), arc, p));
        let k = choose|k: int|
            0 <= k < t.arcs(p).len() && (#[trigger] t.arcs(p)[k]).ilabel == arc.ilabel && by_part(
                rep,
            )(t.arcs(p)[k].nextstate as int) == by_part(rep)(arc.nextstate as int);
        assert(t.states[p].arcs[k].nextstate < t.n());
        let q = t.arcs(p)[k].nextstate as int;
        assert(arc_reads(t.arcs(p), label, q));
        q
    }
}

/// Merging states that cannot be told apart changes nothing of what can be read to an
/// end, from the start or from anywhere else.
pub proof fn law_merging_reads_the_same<W: Weight>(
    t: FstV<W>,
    rep: Seq<usize>,
    s: int,
    string: Seq<i32>,
)
    requires
        t.wf(),
        is_coarsest(t, rep),
        0 <= s < t.n(),
    ensures
        ends_on(t, s, string) <==> ends_on(merged_machine(t, rep), rep[s] as int, string),
{
    let m = merged_machine(t, rep);
    if ends_on(t, s, string) {
        let q = choose|q: int|
            0 <= q < t.n() && #[trigger] reads_to(t, s, string, q) && t.fin(q) != W::spec_zero();
        lemma_merged_reads(t, rep, s, string, q);
        let c = rep[q] as int;
        assert(rep[c] == c);
        assert(is_consistent(t, by_part(rep), q, c));
        assert(m.fin(c) == t.fin(c));
    }
    if ends_on(m, rep[s] as int, string) {
        let c = choose|c: int|
            0 <= c < m.n() && #[trigger] reads_to(m, rep[s] as int, string, c) && m.fin(c)
                != W::spec_zero();
        let q = lemma_merged_reads_back(t, rep, s, string, c);
        assert(rep[c] == c);
        assert(is_consistent(t, by_part(rep), q, c));
        assert(m.fin(c) == t.fin(c));
    }
}

/// No two states that are left can be merged any further: whatever tells apart what ends
/// or goes on differently in the merged machine tells them apart.
pub proof fn law_merged_states_can_be_told_apart<W: Weight>(
    t: FstV<W>,
    rep: Seq<usize>,
    color: spec_fn(int) -> int,
    s: int,
    u: int,
)
    requires
        t.wf(),
        is_coarsest(t, rep),
        0 <= s < t.n(),
        0 <= u < t.n(),
        rep[s] == s,
        rep[u] == u,
        is_stable(merged_machine(t, rep), color),
        color(s) == color(u),
    ensures
        s == u,
{
    let m = merged_machine(t, rep);
    let lifted = |x: int| color(rep[x] as int);
    assert forall|x: int, y: int| 0 <= x < t.n() && 0 <= y < t.n() implies #[trigger] is_consistent(
        t,
        lifted,
        x,
        y,
    ) by {
        if lifted(x) == lifted(y) {
            let a = rep[x] as int;
            let b = rep[y] as int;
            assert(rep[a] == a && rep[b] == b);
            assert(is_consistent(m, color, a, b));
            assert(is_consistent(t, by_part(rep), x, a));
            assert(is_consistent(t, by_part(rep), y, b));
            assert(m.fin(a) == t.fin(a) && m.fin(b) == t.fin(b));
            assert forall|i: int| 0 <= i < t.arcs(x).len() implies has_match(
                t,
                lifted,
                #[trigger] t.arcs(x)[i],
                y,
            ) by {
                lemma_lifted_match(t, rep, color, x, y, i);
            }
        }
    }
    assert(is_stable(t, lifted));
    assert(rep[s] == rep[u]);
}

proof fn lemma_lifted_match<W: Weight>(
    t: FstV<W>,
    rep: Seq<usize>,
    color: spec_fn(int) -> int,
    x: int,
    y: int,
    i: int,
)
    requires
        t.wf(),
        rep.len() == t.n(),
        names_parts(rep),
        is_stable(t, by_part(rep)),
        is_stable(merged_machine(t, rep), color),
        0 <= x < t.n(),
        0 <= y < t.n(),
        color(rep[x] as int) == color(rep[y] as int),
        0 <= i < t.arcs(x).len(),
    ensures
        has_match(t, |z: int| color(rep[z] as int), t.arcs(x)[i], y),
{
    let m = merged_machine(t, rep);
    let lifted = |z: int| color(rep[z] as int);
    let a = rep[x] as int;
    let b = rep[y] as int;
    assert(rep[a] == a && rep[b] == b);
    let arc = t.arcs(x)[i];
    let j = lemma_class_arc_to(t, rep, a, t.n() as int, x, i);
    let onward = m.arcs(a)[j];
    assert(is_consistent(m, color, a, b));
    assert(has_match(m, color, onward, b));
    let k = choose|k: int|
        0 <= k < m.arcs(b).len() && (#[trigger] m.arcs(b)[k]).ilabel == onward.ilabel && color(
            m.arcs(b)[k].nextstate as int,
        ) == color(onward.nextstate as int);
    let (w, l) = lemma_class_arc_from(t, rep, b, t.n() as int, k);
    let found = t.arcs(w)[l];
    assert(is_consistent(t, by_part(rep), w, y));
    assert(has_match(t, by_part(rep), found, y));
    let p = choose|p: int|
        0 <= p < t.arcs(y).len() && (#[trigger] t.arcs(y)[p]).ilabel == found.ilabel && by_part(
            rep,
        )(t.arcs(y)[p].nextstate as int) == by_part(rep)(found.nextstate as int);
    assert(t.arcs(y)[p].ilabel == arc.ilabel);
    assert(lifted(t.arcs(y)[p].nextstate as int) == lifted(arc.nextstate as int));
}

} // verus!
