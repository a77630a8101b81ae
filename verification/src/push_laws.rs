//! What pushing labels makes of the paths of a machine.
use crate::arc::Arc;
use crate::difference_laws::one_changes_nothing;
use crate::factor_laws::{
    label_count, law_labels_split_off_exactly, law_splitting_keeps_paths, lemma_ends_in_turn,
    lemma_in_turn, multiplies_in_turn,
};
use crate::factor_weight::{factors, GallicFactor};
use crate::gallic_laws::{
    law_labels_move_in, law_labels_move_out, lemma_string_of, paired, run_in, strings_are_plain,
};
use crate::paths::{
    accepted_weight, end_of, is_accepting, lemma_run_stays, reads, total, writes,
};
use crate::push::{
    labels_come_out, labels_in, labels_out, labels_pushed, lemma_labels_in, spread_options,
    ReweightType, PUSH_REMOVE_COMMON_AFFIX, PUSH_REMOVE_TOTAL_WEIGHT,
};
use crate::reweight::{
    divides_exactly, law_reweighting_keeps_paths, lemma_reweighted_wf, reweighted, weigh_along,
};
use crate::string_weight::{lemma_labels_of_view, GallicWeight, StringWeight, StringWeightValue};
use crate::vector_fst::FstV;
use crate::weight::{spec_is_final, Divide, Weight};
use vstd::prelude::*;

verus! {

/// Strings multiply one after the other however they are taken together.
pub proof fn lemma_strings_in_turn<const G: u8>(
    a: StringWeight<G>,
    b: StringWeight<G>,
    c: StringWeight<G>,
)
    ensures
        a.spec_times(b).spec_times(c) == a.spec_times(b.spec_times(c)),
        StringWeight::<G>::spec_one().spec_times(a) == a,
{
    lemma_string_of::<G>(a.string() + b.string());
    lemma_string_of::<G>(b.string() + c.string());
    lemma_string_of::<G>(Seq::empty());
    assert((a.string() + b.string()) + c.string() =~= a.string() + (b.string() + c.string()));
    assert(Seq::<i32>::empty() + a.string() =~= a.string());
    match a.value {
        StringWeightValue::Labels(labels) => {
            lemma_labels_of_view(labels);
        },
        _ => {},
    }
}

/// Where weights multiply in turn, and Zero stays Zero, so do strings paired with them.
pub proof fn law_pairs_multiply_in_turn<W: Weight, const G: u8>()
    requires
        multiplies_in_turn::<W>(),
        forall|a: W| #[trigger] a.spec_times(W::spec_zero()) == W::spec_zero(),
        forall|a: W, b: W| (#[trigger] a.spec_times(b)).spec_member() ==> b.spec_member(),
    ensures
        multiplies_in_turn::<GallicWeight<W, G>>(),
{
    assert forall|a: GallicWeight<W, G>, b: GallicWeight<W, G>, c: GallicWeight<W, G>| #[trigger]
        a.spec_times(b).spec_times(c) == a.spec_times(b.spec_times(c)) by {
        lemma_strings_in_turn(a.labels, b.labels, c.labels);
        lemma_in_turn(a.weight, b.weight, c.weight);
    }
    assert forall|a: GallicWeight<W, G>| #[trigger]
        GallicWeight::<W, G>::spec_one().spec_times(a) == a by {
        lemma_strings_in_turn(a.labels, a.labels, a.labels);
        lemma_in_turn(a.weight, a.weight, a.weight);
    }
    assert forall|a: GallicWeight<W, G>, b: GallicWeight<W, G>|
        spec_is_final(#[trigger] a.spec_times(b)) implies spec_is_final(b) by {
        assert(a.weight.spec_times(b.weight).spec_member());
        if b == GallicWeight::<W, G>::spec_zero() {
            assert(a.weight.spec_times(W::spec_zero()) == W::spec_zero());
        }
    }
    reveal(multiplies_in_turn);
}

/// A run of strings paired with weights weighs something to end with only if its end does.
pub proof fn lemma_end_weighs<W: Weight, const G: u8>(
    run: Seq<Arc<GallicWeight<W, G>>>,
    end: GallicWeight<W, G>,
)
    requires
        multiplies_in_turn::<W>(),
        spec_is_final(total(run, end).weight),
    ensures
        spec_is_final(end.weight),
    decreases run.len(),
{
    if run.len() > 0 {
        let rest = total(run.drop_first(), end);
        lemma_in_turn(run[0].weight.weight, rest.weight, rest.weight);
        lemma_end_weighs(run.drop_first(), end);
    }
}

/// Pushing labels keeps every path that weighs something, unless what the paths have in
/// common is taken away: some path of the result reads what it reads, writes what it
/// writes and weighs what it weighs.
///
/// That takes a semiring whose One and Zero are what they should be, divisions that are
/// exact wherever one is made, distances that weigh something along the path, and strings
/// with no epsilon in them.
pub proof fn law_label_pushing_keeps_paths<W: Divide, const G: u8>(
    v: FstV<W>,
    to: ReweightType,
    flags: u8,
    distance: Seq<GallicWeight<W, G>>,
    f: FstV<GallicWeight<W, G>>,
    o: FstV<W>,
    run: Seq<Arc<W>>,
) -> (kept: Seq<Arc<W>>)
    requires
        v.wf(),
        v.n() < usize::MAX,
        multiplies_in_turn::<W>(),
        one_changes_nothing::<W>(),
        forall|a: W| #[trigger] a.spec_times(W::spec_zero()) == W::spec_zero(),
        forall|a: W, b: W| (#[trigger] a.spec_times(b)).spec_member() ==> b.spec_member(),
        W::spec_one() != W::spec_zero(),
        W::spec_one().spec_quantize(W::spec_default_delta()) == W::spec_one(),
        flags & (PUSH_REMOVE_TOTAL_WEIGHT | PUSH_REMOVE_COMMON_AFFIX) == 0,
        distance.len() == labels_in::<W, G>(v).n(),
        divides_exactly(labels_in::<W, G>(v), distance, to),
        factors::<GallicWeight<W, G>, GallicFactor<W, G>>(
            spread_options::<W>(),
            labels_pushed(v, to, flags, distance),
            FstV::empty(),
            f,
        ),
        labels_come_out(f),
        f.wf(),
        strings_are_plain(f),
        is_accepting(v, run),
        spec_is_final(accepted_weight(v, run)),
        weigh_along(distance, v.start->0 as int, run_in::<W, G>(run)),
    ensures
        is_accepting(labels_out(f, v, o), kept),
        reads(kept) == reads(run),
        writes(kept) == writes(run),
        accepted_weight(labels_out(f, v, o), kept) == accepted_weight(v, run),
{
    let g = labels_in::<W, G>(v);
    let delta = W::spec_default_delta();
    let there = run_in::<W, G>(run);
    let weight = paired::<W, G>(writes(run), accepted_weight(v, run));
    law_pairs_multiply_in_turn::<W, G>();
    lemma_labels_in::<W, G>(v);
    law_labels_move_in::<W, G>(v, run);
    let moved = law_reweighting_keeps_paths(g, distance, to, there);
    let pushed = reweighted(g, distance, to);
    lemma_reweighted_wf(g, distance, to);
    let s = pushed.start->0 as int;
    lemma_string_of::<G>(writes(run));
    assert(spec_is_final(weight));
    lemma_ends_in_turn(moved, pushed.fin(end_of(s, moved)));
    lemma_run_stays(pushed, s, moved, moved.len() as int);
    assert(is_accepting(pushed, moved));
    assert(labels_pushed(v, to, flags, distance) == pushed);
    assert forall|a: W| #[trigger] a.spec_times(W::spec_one()) == a by {
        reveal(one_changes_nothing);
    }
    law_labels_split_off_exactly::<W, G>(delta);
    let split = law_splitting_keeps_paths::<GallicWeight<W, G>, GallicFactor<W, G>>(
        spread_options::<W>(),
        pushed,
        FstV::empty(),
        f,
        label_count::<W, G>(),
        moved,
    );
    lemma_run_stays(f, 0, split, split.len() as int);
    lemma_end_weighs(split, f.fin(end_of(0, split)));
    let kept = law_labels_move_out(f, v, o, split);
    lemma_string_of::<G>(writes(kept));
    kept
}

} // verus!
