//! Moving a transducer's epsilons to one end of each path.
//!
//! A transducer is input epsilon-normalized when, along every path, no input label
//! follows an input epsilon, so the epsilons on that side have all been pushed to the
//! end. That is a canonical form: two transducers that transduce the same thing
//! normalize to the same shape, so they can be compared.
//!
//! The work is done by moving one side into a gallic weight and removing epsilons there:
//! an arc whose input is epsilon then has nothing left to consume, so removing it is
//! exactly what pushes the other side's labels forward.
use crate::arc_map::arc_map_to;
use crate::connect::{connect, trimmed};
use crate::error::OpenFstError;
use crate::factor_weight::{
    factor_weight, factors, lemma_factored_wf, FactorIterator, FactorWeightOptions, GallicFactor,
};
use crate::gallic_map::{FromGallicMapper, ToGallicMapper};
use crate::invert::{invert, inverted};
use crate::push::{
    labels_come_out, labels_in, labels_out, lemma_labels_in, spread_options,
};
use crate::rmepsilon::{are_closures, closures_never_settle, rm_epsilon, without_epsilons};
use crate::string_weight::GallicWeight;
use crate::vector_fst::{all_members, state_is_member, FstV, VectorFst};
use crate::weight::Weight;
use vstd::prelude::*;

verus! {

/// Which side to push the epsilons off.
#[derive(Debug, Clone, Copy, PartialEq, Eq, Structural)]
pub enum EpsNormalizeType {
    /// No input label follows an input epsilon.
    Input,
    /// No output label follows an output epsilon.
    Output,
}

/// The machine whose input side is the one to normalize.
pub open spec fn facing<W: Weight>(v: FstV<W>, which: EpsNormalizeType) -> FstV<W> {
    match which {
        EpsNormalizeType::Input => v,
        EpsNormalizeType::Output => inverted(v),
    }
}

/// Whether `r` is the machine with its labels in its weights and its epsilons removed.
pub open spec fn closes<W: Weight, const G: u8>(
    v: FstV<W>,
    which: EpsNormalizeType,
    r: FstV<GallicWeight<W, G>>,
) -> bool {
    let g = labels_in::<W, G>(facing(v, which));
    exists|distances: Seq<Seq<GallicWeight<W, G>>>| #[trigger]
        are_closures(g, W::spec_default_delta(), distances) && r == without_epsilons(g, distances)
}

/// Whether `f` is what normalizing `v` comes to, before the labels are moved back out of
/// the weights.
pub open spec fn normalizes<W: Weight, const G: u8>(
    v: FstV<W>,
    which: EpsNormalizeType,
    f: FstV<GallicWeight<W, G>>,
) -> bool {
    exists|r: FstV<GallicWeight<W, G>>| #[trigger]
        closes(v, which, r) && all_members(r) && factors::<GallicWeight<W, G>, GallicFactor<W, G>>(
            spread_options::<W>(),
            trimmed(r),
            FstV::empty(),
            f,
        )
}

/// What moving the labels of `f` back out of its weights leaves where `o` was, turned to
/// face as `v` does. The names of the side that is not normalized survive.
pub open spec fn turned_back<W: Weight, const G: u8>(
    f: FstV<GallicWeight<W, G>>,
    which: EpsNormalizeType,
    v: FstV<W>,
    o: FstV<W>,
) -> FstV<W> {
    let out = labels_out(f, facing(v, which), o);
    match which {
        EpsNormalizeType::Input => out,
        EpsNormalizeType::Output => inverted(out),
    }
}

/// Reports a weight that left the semiring while the epsilons were removed.
fn check_representable<W: Weight>(gfst: &VectorFst<W>) -> (result: Result<(), OpenFstError>)
    ensures
        result is Ok <==> all_members(gfst@),
        result matches Err(e) ==> e is InvalidOperation,
{
    let n: usize = gfst.num_states();
    let mut s: usize = 0;
    while s < n
        invariant
            s <= n,
            n == gfst@.n(),
            forall|x: int| 0 <= x < s ==> state_is_member(#[trigger] gfst@.states[x]),
        decreases n - s,
    {
        let arcs = gfst.arcs(s);
        let mut good = gfst.final_weight(s).is_member();
        let mut i: usize = 0;
        while i < arcs.len()
            invariant
                i <= arcs@.len(),
                arcs@ == gfst@.states[s as int].arcs,
                good <==> gfst@.states[s as int].final_weight.spec_member() && forall|j: int|
                    0 <= j < i ==> (
                    #[trigger] gfst@.states[s as int].arcs[j]).weight.spec_member(),
            decreases arcs@.len() - i,
        {
            if !arcs[i].weight.is_member() {
                good = false;
            }
            i = i + 1;
        }
        if !good {
            assert(!state_is_member(gfst@.states[s as int]));
            return Err(
                OpenFstError::InvalidOperation(
                    "EpsNormalize: two epsilon paths give different outputs, which the gallic type chosen cannot combine",
                ),
            );
        }
        assert(state_is_member(gfst@.states[s as int]));
        s = s + 1;
    }
    Ok(())
}

pub proof fn lemma_inverted_wf<W: Weight>(v: FstV<W>)
    requires
        v.wf(),
    ensures
        inverted(v).wf(),
        inverted(v).n() == v.n(),
        inverted(v).start == v.start,
        inverted(v).osymbols == v.isymbols,
{
    let w = inverted(v);
    assert forall|s: int, i: int| 0 <= s < w.n() && 0 <= i < w.states[s].arcs.len() implies (
    #[trigger] w.states[s].arcs[i]).nextstate < w.n() by {
        assert(v.states[s].arcs[i].nextstate < v.n());
    }
}

/// Rewrites `ifst` into `ofst` with its epsilons pushed to one end of every path, moving
/// the labels through the gallic type that `G` names.
pub fn eps_normalize<W: Weight, const G: u8>(
    ifst: &VectorFst<W>,
    ofst: &mut VectorFst<W>,
    normalize_type: EpsNormalizeType,
) -> (result: Result<(), OpenFstError>)
    requires
        ifst@.wf(),
        ifst@.n() < usize::MAX,
    ensures
        match result {
            Ok(_) => exists|f: FstV<GallicWeight<W, G>>| #[trigger]
                normalizes::<W, G>(ifst@, normalize_type, f) && labels_come_out(f) && final(ofst)@
                    == turned_back(f, normalize_type, ifst@, old(ofst)@),
            Err(e) => e is InvalidOperation && {
                ||| closures_never_settle(
                    labels_in::<W, G>(facing(ifst@, normalize_type)),
                    W::spec_default_delta(),
                )
                ||| exists|r: FstV<GallicWeight<W, G>>| #[trigger]
                    closes(ifst@, normalize_type, r) && !all_members(r)
                ||| exists|f: FstV<GallicWeight<W, G>>| #[trigger]
                    normalizes::<W, G>(ifst@, normalize_type, f) && (!labels_come_out(f) || f.n()
                        + 1 == usize::MAX)
            },
        },
{
    let ghost v = ifst@;
    // Normalizing the output side is normalizing the input side of the inverse, so only
    // one direction has to be written.
    let mut source = ifst.duplicate();
    if normalize_type == EpsNormalizeType::Output {
        proof {
            lemma_inverted_wf(v);
        }
        if let Err(e) = invert(&mut source) {
            return Err(e);
        }
    }
    let ghost faced = source@;
    assert(faced == facing(v, normalize_type));
    let mut gfst: VectorFst<GallicWeight<W, G>> = VectorFst::new();
    let mut mapper = ToGallicMapper::<G>::new();
    proof {
        lemma_labels_in::<W, G>(faced);
    }
    if let Err(e) = arc_map_to(&source, &mut gfst, &mut mapper) {
        return Err(e);
    }
    let ghost g = gfst@;
    // With the output side inside the weight, an input-epsilon arc consumes nothing at
    // all, so removing it carries the output labels forward onto whatever comes next.
    //
    // Trimming is done afterwards, so that a weight that left the semiring can be seen
    // before the states carrying it are dropped.
    let delta = W::default_delta();
    if let Err(e) = rm_epsilon(&mut gfst, false, &delta) {
        return Err(e);
    }
    let ghost r = gfst@;
    assert(closes(v, normalize_type, r));
    if let Err(e) = check_representable(&gfst) {
        return Err(e);
    }
    connect(&mut gfst);
    // A weight may now hold several labels, which one arc cannot carry.
    let mut factored: VectorFst<GallicWeight<W, G>> = VectorFst::new();
    let spread = FactorWeightOptions::new(W::default_delta());
    factor_weight(&gfst, &mut factored, GallicFactor::new, &spread);
    let ghost f = factored@;
    proof {
        assert(spread == spread_options::<W>());
        assert(factors::<GallicWeight<W, G>, GallicFactor<W, G>>(
            spread_options::<W>(),
            trimmed(r),
            FstV::empty(),
            f,
        ));
        lemma_factored_wf::<GallicWeight<W, G>, GallicFactor<W, G>>(
            spread,
            trimmed(r),
            FstV::empty(),
            f,
        );
        assert(normalizes::<W, G>(v, normalize_type, f));
    }
    if factored.num_states() >= usize::MAX - 1 {
        return Err(OpenFstError::InvalidOperation("EpsNormalize: too many states"));
    }
    let mut back = FromGallicMapper::<G>::new();
    if let Err(e) = arc_map_to(&factored, ofst, &mut back) {
        return Err(e);
    }
    if back.error() {
        return Err(
            OpenFstError::InvalidOperation(
                "EpsNormalize: a weight came out that no single arc can carry",
            ),
        );
    }
    // The symbol table of the side that is not being normalized survives; the other
    // side's labels move into the weights and back.
    ofst.set_output_symbols(source.output_symbols());
    if normalize_type == EpsNormalizeType::Output {
        proof {
            crate::arc_map::lemma_map_into_wf::<
                GallicWeight<W, G>,
                W,
                FromGallicMapper<G>,
            >((crate::arc::EPSILON, false), f, old(ofst)@);
            let out = crate::arc_map::map_into::<GallicWeight<W, G>, W, FromGallicMapper<G>>(
                (crate::arc::EPSILON, false),
                f,
                old(ofst)@,
            );
            assert forall|s: int, i: int|
                0 <= s < ofst@.n() && 0 <= i < ofst@.states[s].arcs.len() implies (
            #[trigger] ofst@.states[s].arcs[i]).nextstate < ofst@.n() by {
                assert(out.states[s].arcs[i].nextstate < out.n());
            }
        }
        return invert(ofst);
    }
    Ok(())
}

} // verus!
