//! What normalizing epsilons makes of the paths of a machine.
use crate::arc::{Arc, EPSILON};
use crate::arc_map::plain_state;
use crate::connect::{
    kept_run, law_trimming_adds_no_path, law_trimming_keeps_paths, lemma_trimmed_wf, succeeds,
    trimmed,
};
use crate::difference_laws::one_changes_nothing;
use crate::epsnormalize::{closes, lemma_inverted_wf, normalizes, turned_back, EpsNormalizeType};
use crate::factor_laws::{
    label_count, law_labels_split_off_exactly, law_splitting_adds_no_path,
    law_splitting_keeps_paths, lemma_ends_in_turn, lemma_in_turn, multiplies_in_turn,
};
use crate::factor_weight::{factors, lemma_factored_wf, GallicFactor};
use crate::gallic_laws::{
    law_labels_are_spoken, law_labels_move_in, law_labels_moved_in_came_from_there,
    law_what_is_spoken_was_held, lemma_spoken_plain, lemma_states_in, lemma_string_of, paired,
    run_in,
};
use crate::gallic_map::{to_gallic, written, ToGallicMapper};
use crate::invert::{
    inverted, law_inverted_paths_were_turned, law_inverting_turns_paths, swapped_run,
};
use crate::path_sums::{
    adds_along, all_inside, closeness_is_equality, covers, keeps_alone, lemma_add_along,
    lemma_multiply_along, lemma_one_inside, lemma_order_kept, lemma_product_inside,
    lemma_sum_inside, lemma_three_inside, members, multiplies_along_inside, multiplies_inside,
    multiplying_keeps_order, picks_one, picks_paths,
};
use crate::paths::{
    accepted_weight, end_of, is_accepting, lemma_alike, lemma_run_stays, noted, reads, writes,
};
use crate::push::{labels_come_out, labels_in, labels_out, lemma_labels_in, spread_options};
use crate::push_laws::{lemma_end_weighs, lemma_strings_in_turn};
use crate::randequivalent_laws::relates;
use crate::rmepsilon_laws::{
    law_removing_epsilons_adds_no_path, law_removing_epsilons_keeps_paths, lemma_left_inside,
    loses_epsilons,
};
use crate::string_weight::{
    lemma_labels_of_view, GallicWeight, StringWeight, StringWeightValue, GALLIC_RESTRICT,
};
use crate::vector_fst::{all_members, state_is_member, FstV};
use crate::weight::{spec_is_final, Weight};
use vstd::prelude::*;

verus! {

/// Strings that add up only where they are the same: three of them.
proof fn lemma_strings_agree<const G: u8>(
    a: StringWeight<G>,
    b: StringWeight<G>,
    c: StringWeight<G>,
)
    requires
        G == GALLIC_RESTRICT,
        a.spec_member(),
        b.spec_member(),
        c.spec_member(),
    ensures
        a.spec_plus(b).spec_member() ==> a == StringWeight::<G>::infinity() || b == StringWeight::<
            G,
        >::infinity() || a == b,
        a.spec_plus(a) == a,
        StringWeight::<G>::infinity().spec_plus(a) == a,
        a.spec_plus(StringWeight::<G>::infinity()) == a,
        a.spec_times(StringWeight::<G>::infinity()) == StringWeight::<G>::infinity(),
        StringWeight::<G>::infinity().spec_times(a) == StringWeight::<G>::infinity(),
        a.spec_times(StringWeight::<G>::spec_one()) == a,
        StringWeight::<G>::spec_one().spec_times(a) == a,
        a.spec_plus(b) == b.spec_plus(a),
        a.spec_plus(b).spec_plus(c) == a.spec_plus(b.spec_plus(c)),
        a.spec_times(b).spec_times(c) == a.spec_times(b.spec_times(c)),
        a.spec_times(b).spec_member(),
{
    lemma_string_is(a);
    lemma_string_is(b);
    lemma_string_is(c);
    lemma_string_of::<G>(Seq::empty());
    lemma_string_of::<G>(a.string());
    lemma_string_of::<G>(b.string());
    lemma_string_of::<G>(a.string() + b.string());
    lemma_string_of::<G>(b.string() + c.string());
    assert((a.string() + b.string()) + c.string() =~= a.string() + (b.string() + c.string()));
    assert(a.string() + Seq::<i32>::empty() =~= a.string());
    assert(Seq::<i32>::empty() + a.string() =~= a.string());
}

/// A weight that is a string is made of it.
proof fn lemma_string_is<const G: u8>(a: StringWeight<G>)
    ensures
        a.value is Labels ==> a == StringWeight::<G>::of(a.string()),
{
    match a.value {
        StringWeightValue::Labels(labels) => {
            lemma_labels_of_view(labels);
        },
        _ => {},
    }
}

/// Strings without epsilons, paired with weights: where there is no string there is no
/// weight either.
pub open spec fn whole_pairs<W: Weight, const G: u8>() -> spec_fn(GallicWeight<W, G>) -> bool {
    |w: GallicWeight<W, G>| is_whole(w)
}

/// Whether a pair is of a string without epsilons and a weight, or is nothing.
pub open spec fn is_whole<W: Weight, const G: u8>(w: GallicWeight<W, G>) -> bool {
    &&& w.spec_member()
    &&& w.labels == StringWeight::<G>::infinity() ==> w.weight == W::spec_zero()
    &&& !w.labels.string().contains(EPSILON)
}

proof fn lemma_times_whole<W: Weight, const G: u8>(a: GallicWeight<W, G>, b: GallicWeight<W, G>)
    requires
        picks_paths(members::<W>()),
        is_whole(a),
        is_whole(b),
    ensures
        is_whole(a.spec_times(b)),
{
    lemma_product_inside(members::<W>(), a.weight, b.weight);
    lemma_one_inside(members::<W>(), a.weight);
    lemma_one_inside(members::<W>(), b.weight);
    let x = a.labels.string();
    let y = b.labels.string();
    lemma_string_of::<G>(x + y);
    assert(!(x + y).contains(EPSILON)) by {
        if (x + y).contains(EPSILON) {
            let j = choose|j: int| 0 <= j < (x + y).len() && (x + y)[j] == EPSILON;
            if j < x.len() {
                assert(x[j] == EPSILON);
            } else {
                assert(y[j - x.len()] == EPSILON);
            }
        }
    }
}

/// Pairs of strings that add up only where they are the same, and weights whose sum picks
/// one of its parts, pick one of their parts too.
pub proof fn law_pairs_pick_paths<W: Weight, const G: u8>()
    requires
        G == GALLIC_RESTRICT,
        picks_paths(members::<W>()),
    ensures
        picks_paths(whole_pairs::<W, G>()),
{
    let whole = whole_pairs::<W, G>();
    let inside = members::<W>();
    let zero = GallicWeight::<W, G>::spec_zero();
    let one = GallicWeight::<W, G>::spec_one();
    lemma_one_inside(inside, W::spec_zero());
    lemma_string_of::<G>(Seq::empty());
    assert(whole(zero));
    assert(whole(one));
    assert(keeps_alone(whole)) by {
        reveal(keeps_alone);
        assert forall|a: GallicWeight<W, G>| #[trigger] whole(a) implies {
            &&& a.spec_member()
            &&& a.spec_plus(a) == a
            &&& zero.spec_plus(a) == a
            &&& a.spec_plus(zero) == a
            &&& a.spec_times(zero) == zero
            &&& zero.spec_times(a) == zero
            &&& a.spec_times(one) == a
            &&& one.spec_times(a) == a
        } by {
            lemma_one_inside(inside, a.weight);
            lemma_strings_agree(a.labels, a.labels, a.labels);
        }
    }
    assert(multiplies_inside(whole)) by {
        reveal(multiplies_inside);
        assert forall|a: GallicWeight<W, G>, b: GallicWeight<W, G>|
            whole(a) && whole(b) implies whole(#[trigger] a.spec_times(b)) by {
            lemma_times_whole(a, b);
        }
        assert forall|a: GallicWeight<W, G>, b: GallicWeight<W, G>|
            (#[trigger] a.spec_times(b)).spec_member() implies a.spec_member()
            && b.spec_member() by {
            lemma_product_inside(inside, a.weight, b.weight);
        }
    }
    assert(picks_one(whole)) by {
        reveal(picks_one);
        assert forall|a: GallicWeight<W, G>, b: GallicWeight<W, G>|
            (#[trigger] a.spec_plus(b)).spec_member() implies a.spec_member()
            && b.spec_member() by {
            lemma_sum_inside(inside, a.weight, b.weight);
        }
        assert forall|a: GallicWeight<W, G>, b: GallicWeight<W, G>|
            whole(a) && whole(b) && (#[trigger] a.spec_plus(b)).spec_member() implies a.spec_plus(b)
            == a || a.spec_plus(b) == b by {
            lemma_sum_inside(inside, a.weight, b.weight);
            lemma_one_inside(inside, a.weight);
            lemma_one_inside(inside, b.weight);
            lemma_strings_agree(a.labels, b.labels, b.labels);
            lemma_strings_agree(b.labels, a.labels, a.labels);
        }
        assert forall|a: GallicWeight<W, G>, b: GallicWeight<W, G>|
            whole(a) && whole(b) implies #[trigger] a.spec_plus(b) == b.spec_plus(a) by {
            lemma_sum_inside(inside, a.weight, b.weight);
            lemma_strings_agree(a.labels, b.labels, b.labels);
        }
    }
    assert(adds_along(whole)) by {
        reveal(adds_along);
        assert forall|a: GallicWeight<W, G>, b: GallicWeight<W, G>, c: GallicWeight<W, G>|
            whole(a) && whole(b) && whole(c) implies #[trigger] a.spec_plus(b).spec_plus(c)
            == a.spec_plus(b.spec_plus(c)) by {
            lemma_add_along(inside, a.weight, b.weight, c.weight);
            lemma_strings_agree(a.labels, b.labels, c.labels);
        }
    }
    assert(multiplies_along_inside(whole)) by {
        reveal(multiplies_along_inside);
        assert forall|a: GallicWeight<W, G>, b: GallicWeight<W, G>, c: GallicWeight<W, G>|
            whole(a) && whole(b) && whole(c) implies #[trigger] a.spec_times(b).spec_times(c)
            == a.spec_times(b.spec_times(c)) by {
            lemma_multiply_along(inside, a.weight, b.weight, c.weight);
            lemma_strings_agree(a.labels, b.labels, c.labels);
        }
    }
    assert(multiplying_keeps_order(whole)) by {
        reveal(multiplying_keeps_order);
        assert forall|a: GallicWeight<W, G>, b: GallicWeight<W, G>, c: GallicWeight<W, G>|
            whole(a) && whole(b) && whole(c) && covers(a, b) implies covers(
            #[trigger] c.spec_times(a),
            #[trigger] c.spec_times(b),
        ) by {
            lemma_order_of_pairs(a, b, c);
        }
        assert forall|a: GallicWeight<W, G>, b: GallicWeight<W, G>, c: GallicWeight<W, G>|
            whole(a) && whole(b) && whole(c) && covers(a, b) implies covers(
            #[trigger] a.spec_times(c),
            #[trigger] b.spec_times(c),
        ) by {
            lemma_order_of_pairs(a, b, c);
        }
    }
}

proof fn lemma_order_of_pairs<W: Weight, const G: u8>(
    a: GallicWeight<W, G>,
    b: GallicWeight<W, G>,
    c: GallicWeight<W, G>,
)
    requires
        G == GALLIC_RESTRICT,
        picks_paths(members::<W>()),
        is_whole(a),
        is_whole(b),
        is_whole(c),
        covers(a, b),
    ensures
        covers(c.spec_times(a), c.spec_times(b)),
        covers(a.spec_times(c), b.spec_times(c)),
{
    let inside = members::<W>();
    assert(covers(a.weight, b.weight));
    lemma_order_kept(inside, a.weight, b.weight, c.weight);
    let x = a.labels;
    let y = b.labels;
    let z = c.labels;
    assert(x.spec_plus(y) == x);
    lemma_strings_agree(x, y, z);
    lemma_strings_agree(y, x, z);
    lemma_strings_agree(z, x, y);
    lemma_strings_agree(x, z, y);
    lemma_strings_agree(y, z, x);
    lemma_strings_agree(z.spec_times(x), z.spec_times(y), z);
    lemma_strings_agree(x.spec_times(z), y.spec_times(z), z);
    assert(x == y || y == StringWeight::<G>::infinity());
}

/// Weights that are alike within `delta` are the same where the weights they are paired with
/// are.
proof fn lemma_pairs_closeness<W: Weight, const G: u8>(delta: W::Delta)
    requires
        closeness_is_equality::<W>(delta),
    ensures
        closeness_is_equality::<GallicWeight<W, G>>(delta),
{
    reveal(closeness_is_equality);
    assert forall|a: GallicWeight<W, G>, b: GallicWeight<W, G>| #[trigger]
        a.spec_approx(b, delta) implies a == b by {
        assert(a.weight.spec_approx(b.weight, delta));
    }
}

/// The weights of a machine with its labels moved into its weights.
proof fn lemma_labels_in_whole<W: Weight, const G: u8>(v: FstV<W>)
    requires
        picks_paths(members::<W>()),
        v.wf(),
        v.n() < usize::MAX,
        v.start is Some,
        all_members(v),
    ensures
        all_inside(labels_in::<W, G>(v), whole_pairs::<W, G>()),
        labels_in::<W, G>(v).wf(),
        labels_in::<W, G>(v).n() == v.n(),
        labels_in::<W, G>(v).start == v.start,
{
    let g = labels_in::<W, G>(v);
    let whole = whole_pairs::<W, G>();
    lemma_states_in::<W, G>(v);
    lemma_labels_in::<W, G>(v);
    lemma_one_inside(members::<W>(), W::spec_zero());
    lemma_string_of::<G>(Seq::empty());
    assert forall|s: int| 0 <= s < g.n() implies whole(#[trigger] g.fin(s)) by {
        assert(g.states[s] == plain_state::<W, GallicWeight<W, G>, ToGallicMapper<G>>(
            (),
            v.states[s],
        ));
        assert(state_is_member(v.states[s]));
    }
    assert forall|s: int, i: int| 0 <= s < g.n() && 0 <= i < g.arcs(s).len() implies whole(
        (#[trigger] g.arcs(s)[i]).weight,
    ) by {
        assert(g.states[s] == plain_state::<W, GallicWeight<W, G>, ToGallicMapper<G>>(
            (),
            v.states[s],
        ));
        assert(state_is_member(v.states[s]));
        let arc = v.arcs(s)[i];
        assert(v.states[s].arcs[i].nextstate < v.n());
        assert(v.states[s].arcs[i].weight.spec_member());
        assert(g.arcs(s)[i] == to_gallic::<W, G>(arc));
        assert(written::<G>(arc.olabel) == StringWeight::<G>::of(noted(arc.olabel)));
        lemma_string_of::<G>(noted(arc.olabel));
    }
}

/// Pairs multiply in turn where their weights do.
proof fn lemma_pairs_in_turn<W: Weight, const G: u8>()
    requires
        picks_paths(members::<W>()),
        multiplies_in_turn::<W>(),
    ensures
        multiplies_in_turn::<GallicWeight<W, G>>(),
{
    assert forall|a: GallicWeight<W, G>, b: GallicWeight<W, G>, c: GallicWeight<W, G>| #[trigger]
        a.spec_times(b).spec_times(c) == a.spec_times(b.spec_times(c)) by {
        lemma_strings_in_turn(a.labels, b.labels, c.labels);
        lemma_in_turn(a.weight, b.weight, c.weight);
    }
    assert forall|a: GallicWeight<W, G>| #[trigger]
        GallicWeight::<W, G>::spec_one().spec_times(a) == a by {
        lemma_strings_in_turn(a.labels, a.labels, a.labels);
        lemma_in_turn(a.weight, a.weight, a.weight);
    }
    assert forall|a: GallicWeight<W, G>, b: GallicWeight<W, G>|
        spec_is_final(#[trigger] a.spec_times(b)) implies spec_is_final(b) by {
        lemma_product_inside(members::<W>(), a.weight, b.weight);
        lemma_one_inside(members::<W>(), a.weight);
    }
    reveal(multiplies_in_turn);
}

/// What a run writes has no epsilon in it.
proof fn lemma_writes_plainly<W: Weight>(run: Seq<Arc<W>>)
    ensures
        !writes(run).contains(EPSILON),
    decreases run.len(),
{
    if run.len() > 0 {
        lemma_writes_plainly(run.drop_last());
        if writes(run).contains(EPSILON) {
            let rest = writes(run.drop_last());
            let i = choose|i: int| 0 <= i < writes(run).len() && writes(run)[i] == EPSILON;
            if i < rest.len() {
                assert(rest[i] == EPSILON);
            }
        }
    }
}

/// A pair that is no worse than a string and a weight is that string and a weight no worse.
proof fn lemma_covering_pair<W: Weight, const G: u8>(
    k: GallicWeight<W, G>,
    labels: Seq<i32>,
    w: W,
)
    requires
        G == GALLIC_RESTRICT,
        picks_paths(members::<W>()),
        is_whole(k),
        spec_is_final(w),
        covers(k, paired::<W, G>(labels, w)),
    ensures
        k.labels == StringWeight::<G>::of(labels),
        covers(k.weight, w),
        spec_is_final(k),
        spec_is_final(k.weight),
{
    let p = paired::<W, G>(labels, w);
    lemma_string_of::<G>(labels);
    lemma_strings_agree(k.labels, p.labels, p.labels);
    lemma_strings_agree(p.labels, k.labels, k.labels);
    lemma_one_inside(members::<W>(), w);
}

/// Whether the weights of a semiring are such that normalizing keeps to them: sums pick one
/// of their parts, products are taken in turn, and rounding leaves the product of nothing
/// alone.
pub open spec fn normalizes_exactly<W: Weight>() -> bool {
    &&& picks_paths(members::<W>())
    &&& closeness_is_equality::<W>(W::spec_default_delta())
    &&& multiplies_in_turn::<W>()
    &&& one_changes_nothing::<W>()
    &&& W::spec_one() != W::spec_zero()
    &&& W::spec_one().spec_quantize(W::spec_default_delta()) == W::spec_one()
}

#[verifier::spinoff_prover]
#[verifier::rlimit(40)]
proof fn lemma_path_is_kept<W: Weight, const G: u8>(
    v: FstV<W>,
    r: FstV<GallicWeight<W, G>>,
    f: FstV<GallicWeight<W, G>>,
    o: FstV<W>,
    run: Seq<Arc<W>>,
) -> (kept: Seq<Arc<W>>)
    requires
        G == GALLIC_RESTRICT,
        normalizes_exactly::<W>(),
        v.wf(),
        v.n() < usize::MAX,
        all_members(v),
        loses_epsilons(labels_in::<W, G>(v), W::spec_default_delta(), r),
        factors::<GallicWeight<W, G>, GallicFactor<W, G>>(
            spread_options::<W>(),
            trimmed(r),
            FstV::empty(),
            f,
        ),
        labels_come_out(f),
        is_accepting(v, run),
        spec_is_final(accepted_weight(v, run)),
    ensures
        is_accepting(labels_out(f, v, o), kept),
        reads(kept) == reads(run),
        writes(kept) == writes(run),
        spec_is_final(accepted_weight(labels_out(f, v, o), kept)),
        covers(accepted_weight(labels_out(f, v, o), kept), accepted_weight(v, run)),
{
    let g = labels_in::<W, G>(v);
    let delta = W::spec_default_delta();
    let whole = whole_pairs::<W, G>();
    let w = accepted_weight(v, run);
    let y = writes(run);
    law_pairs_pick_paths::<W, G>();
    lemma_pairs_closeness::<W, G>(delta);
    lemma_pairs_in_turn::<W, G>();
    lemma_labels_in_whole::<W, G>(v);
    law_labels_move_in::<W, G>(v, run);
    let there = run_in::<W, G>(run);
    lemma_string_of::<G>(y);
    lemma_left_inside(whole, g, delta, r);
    let left = law_removing_epsilons_keeps_paths(whole, g, delta, r, there);
    let k = accepted_weight(r, left);
    lemma_covering_pair(k, y, w);
    let s = r.start->0 as int;
    lemma_run_stays(r, s, left, left.len() as int);
    assert(whole(r.fin(end_of(s, left))));
    assert(succeeds(r, left));
    law_trimming_keeps_paths(r, left);
    lemma_trimmed_wf(r);
    let t = trimmed(r);
    let through = kept_run(r, left);
    lemma_alike(through, left, r.fin(end_of(s, left)));
    lemma_run_stays(t, t.start->0 as int, through, through.len() as int);
    assert(is_accepting(t, through));
    assert(accepted_weight(t, through) == k);
    assert forall|a: W| #[trigger] a.spec_times(W::spec_one()) == a by {
        reveal(one_changes_nothing);
    }
    law_labels_split_off_exactly::<W, G>(delta);
    let split = law_splitting_keeps_paths::<GallicWeight<W, G>, GallicFactor<W, G>>(
        spread_options::<W>(),
        t,
        FstV::empty(),
        f,
        label_count::<W, G>(),
        through,
    );
    lemma_factored_wf::<GallicWeight<W, G>, GallicFactor<W, G>>(
        spread_options::<W>(),
        t,
        FstV::empty(),
        f,
    );
    lemma_run_stays(f, 0, split, split.len() as int);
    lemma_end_weighs(split, f.fin(end_of(0, split)));
    let kept = law_labels_are_spoken(f, v, o, split);
    lemma_spoken_plain(k.labels.string());
    kept
}

#[verifier::spinoff_prover]
#[verifier::rlimit(40)]
proof fn lemma_path_was_there<W: Weight, const G: u8>(
    v: FstV<W>,
    r: FstV<GallicWeight<W, G>>,
    f: FstV<GallicWeight<W, G>>,
    o: FstV<W>,
    run: Seq<Arc<W>>,
) -> (from: Seq<Arc<W>>)
    requires
        G == GALLIC_RESTRICT,
        normalizes_exactly::<W>(),
        v.wf(),
        v.n() < usize::MAX,
        all_members(v),
        v.start is Some,
        loses_epsilons(labels_in::<W, G>(v), W::spec_default_delta(), r),
        factors::<GallicWeight<W, G>, GallicFactor<W, G>>(
            spread_options::<W>(),
            trimmed(r),
            FstV::empty(),
            f,
        ),
        labels_come_out(f),
        is_accepting(labels_out(f, v, o), run),
        spec_is_final(accepted_weight(labels_out(f, v, o), run)),
    ensures
        is_accepting(v, from),
        reads(from) == reads(run),
        writes(from) == writes(run),
        accepted_weight(v, from) == accepted_weight(labels_out(f, v, o), run),
{
    let g = labels_in::<W, G>(v);
    let delta = W::spec_default_delta();
    let whole = whole_pairs::<W, G>();
    law_pairs_pick_paths::<W, G>();
    lemma_pairs_closeness::<W, G>(delta);
    lemma_pairs_in_turn::<W, G>();
    lemma_labels_in_whole::<W, G>(v);
    lemma_left_inside(whole, g, delta, r);
    lemma_trimmed_wf(r);
    let t = trimmed(r);
    assert(f.start is Some);
    assert(t.start is Some);
    lemma_factored_wf::<GallicWeight<W, G>, GallicFactor<W, G>>(
        spread_options::<W>(),
        t,
        FstV::empty(),
        f,
    );
    let there = law_what_is_spoken_was_held(f, v, o, run);
    let a = accepted_weight(f, there);
    assert(spec_is_final(a));
    lemma_ends_in_turn(there, f.fin(end_of(f.start->0 as int, there)));
    assert(succeeds(f, there));
    assert forall|x: W| #[trigger] x.spec_times(W::spec_one()) == x by {
        reveal(one_changes_nothing);
    }
    law_labels_split_off_exactly::<W, G>(delta);
    let through = law_splitting_adds_no_path::<GallicWeight<W, G>, GallicFactor<W, G>>(
        spread_options::<W>(),
        t,
        FstV::empty(),
        f,
        there,
    );
    lemma_ends_in_turn(through, t.fin(end_of(t.start->0 as int, through)));
    assert(succeeds(t, through));
    let left = law_trimming_adds_no_path(r, through);
    let s = r.start->0 as int;
    lemma_alike(through, left, r.fin(end_of(s, left)));
    lemma_run_stays(r, s, left, left.len() as int);
    assert(is_accepting(r, left));
    assert(accepted_weight(r, left) == a);
    let before = law_removing_epsilons_adds_no_path(whole, g, delta, r, left);
    let from = law_labels_moved_in_came_from_there::<W, G>(v, before);
    law_labels_move_in::<W, G>(v, from);
    lemma_string_of::<G>(writes(from));
    lemma_writes_plainly(from);
    lemma_spoken_plain(writes(from));
    from
}

/// Normalizing keeps what a machine relates: for every accepting path that weighs anything,
/// the result has one that reads and writes the same, and is no worse.
///
/// That is said of weights whose sum picks one of its parts, moved through strings that add
/// up only where they are the same.
pub proof fn law_normalizing_keeps_paths<W: Weight, const G: u8>(
    v: FstV<W>,
    which: EpsNormalizeType,
    f: FstV<GallicWeight<W, G>>,
    o: FstV<W>,
    run: Seq<Arc<W>>,
) -> (kept: Seq<Arc<W>>)
    requires
        G == GALLIC_RESTRICT,
        normalizes_exactly::<W>(),
        v.wf(),
        v.n() < usize::MAX,
        all_members(v),
        normalizes::<W, G>(v, which, f),
        labels_come_out(f),
        is_accepting(v, run),
        spec_is_final(accepted_weight(v, run)),
    ensures
        is_accepting(turned_back(f, which, v, o), kept),
        reads(kept) == reads(run),
        writes(kept) == writes(run),
        spec_is_final(accepted_weight(turned_back(f, which, v, o), kept)),
        covers(accepted_weight(turned_back(f, which, v, o), kept), accepted_weight(v, run)),
{
    let r = choose|r: FstV<GallicWeight<W, G>>| #[trigger]
        closes(v, which, r) && all_members(r) && factors::<
            GallicWeight<W, G>,
            GallicFactor<W, G>,
        >(spread_options::<W>(), trimmed(r), FstV::empty(), f);
    match which {
        EpsNormalizeType::Input => lemma_path_is_kept(v, r, f, o, run),
        EpsNormalizeType::Output => {
            let turned = inverted(v);
            lemma_inverted_wf(v);
            lemma_inverted_members(v);
            law_inverting_turns_paths(v, run);
            let kept = lemma_path_is_kept(turned, r, f, o, swapped_run(run));
            law_inverting_turns_paths(labels_out(f, turned, o), kept);
            swapped_run(kept)
        },
    }
}

/// Normalizing relates nothing else: every accepting path of the result that weighs anything
/// reads, writes and weighs what an accepting path of the machine does.
pub proof fn law_normalizing_adds_no_path<W: Weight, const G: u8>(
    v: FstV<W>,
    which: EpsNormalizeType,
    f: FstV<GallicWeight<W, G>>,
    o: FstV<W>,
    run: Seq<Arc<W>>,
) -> (from: Seq<Arc<W>>)
    requires
        G == GALLIC_RESTRICT,
        normalizes_exactly::<W>(),
        v.wf(),
        v.n() < usize::MAX,
        all_members(v),
        v.start is Some,
        normalizes::<W, G>(v, which, f),
        labels_come_out(f),
        is_accepting(turned_back(f, which, v, o), run),
        spec_is_final(accepted_weight(turned_back(f, which, v, o), run)),
    ensures
        is_accepting(v, from),
        reads(from) == reads(run),
        writes(from) == writes(run),
        accepted_weight(v, from) == accepted_weight(turned_back(f, which, v, o), run),
{
    let r = choose|r: FstV<GallicWeight<W, G>>| #[trigger]
        closes(v, which, r) && all_members(r) && factors::<
            GallicWeight<W, G>,
            GallicFactor<W, G>,
        >(spread_options::<W>(), trimmed(r), FstV::empty(), f);
    match which {
        EpsNormalizeType::Input => lemma_path_was_there(v, r, f, o, run),
        EpsNormalizeType::Output => {
            let turned = inverted(v);
            lemma_inverted_wf(v);
            lemma_inverted_members(v);
            law_inverted_paths_were_turned(labels_out(f, turned, o), run);
            let from = lemma_path_was_there(turned, r, f, o, swapped_run(run));
            law_inverted_paths_were_turned(v, from);
            swapped_run(from)
        },
    }
}

proof fn lemma_inverted_members<W: Weight>(v: FstV<W>)
    requires
        all_members(v),
    ensures
        all_members(inverted(v)),
{
    let w = inverted(v);
    assert forall|s: int| 0 <= s < w.n() implies state_is_member(#[trigger] w.states[s]) by {
        assert(state_is_member(v.states[s]));
        assert forall|i: int| 0 <= i < w.states[s].arcs.len() implies (
        #[trigger] w.states[s].arcs[i]).weight.spec_member() by {
            assert(v.states[s].arcs[i].weight.spec_member());
        }
    }
}

/// Whether `w` is what the accepting paths of `v` that read `x` and write `y` weigh together:
/// what the best of them weighs, or the sum of nothing where none weighs anything.
pub open spec fn paths_weigh<W: Weight>(v: FstV<W>, x: Seq<i32>, y: Seq<i32>, w: W) -> bool {
    &&& w == W::spec_zero() || exists|run: Seq<Arc<W>>| #[trigger]
        relates(v, run, x, y) && accepted_weight(v, run) == w
    &&& forall|run: Seq<Arc<W>>| #[trigger]
        relates(v, run, x, y) && spec_is_final(accepted_weight(v, run)) ==> covers(
            w,
            accepted_weight(v, run),
        )
}

/// Normalizing changes the weight of no pair of strings: what the accepting paths that read
/// and write them weigh together is the same before and after.
pub proof fn law_normalizing_keeps_what_is_related<W: Weight, const G: u8>(
    v: FstV<W>,
    which: EpsNormalizeType,
    f: FstV<GallicWeight<W, G>>,
    o: FstV<W>,
    x: Seq<i32>,
    y: Seq<i32>,
    w: W,
)
    requires
        G == GALLIC_RESTRICT,
        normalizes_exactly::<W>(),
        v.wf(),
        v.n() < usize::MAX,
        all_members(v),
        v.start is Some,
        normalizes::<W, G>(v, which, f),
        labels_come_out(f),
        w.spec_member(),
    ensures
        paths_weigh(v, x, y, w) <==> paths_weigh(turned_back(f, which, v, o), x, y, w),
{
    let out = turned_back(f, which, v, o);
    let inside = members::<W>();
    lemma_one_inside(inside, w);
    if paths_weigh(v, x, y, w) {
        assert forall|run: Seq<Arc<W>>| #[trigger]
            relates(out, run, x, y) && spec_is_final(accepted_weight(out, run)) implies covers(
            w,
            accepted_weight(out, run),
        ) by {
            let from = law_normalizing_adds_no_path(v, which, f, o, run);
            assert(relates(v, from, x, y));
        }
        if w != W::spec_zero() {
            let run = choose|run: Seq<Arc<W>>| #[trigger]
                relates(v, run, x, y) && accepted_weight(v, run) == w;
            let kept = law_normalizing_keeps_paths(v, which, f, o, run);
            let k = accepted_weight(out, kept);
            assert(relates(out, kept, x, y));
            let from = law_normalizing_adds_no_path(v, which, f, o, kept);
            assert(relates(v, from, x, y));
            assert(covers(w, k) && covers(k, w));
            lemma_sum_inside(inside, w, k);
        }
    }
    if paths_weigh(out, x, y, w) {
        if w != W::spec_zero() {
            let run = choose|run: Seq<Arc<W>>| #[trigger]
                relates(out, run, x, y) && accepted_weight(out, run) == w;
            let from = law_normalizing_adds_no_path(v, which, f, o, run);
            assert(relates(v, from, x, y));
        }
        assert forall|run: Seq<Arc<W>>| #[trigger]
            relates(v, run, x, y) && spec_is_final(accepted_weight(v, run)) implies covers(
            w,
            accepted_weight(v, run),
        ) by {
            let u = accepted_weight(v, run);
            let kept = law_normalizing_keeps_paths(v, which, f, o, run);
            let k = accepted_weight(out, kept);
            assert(relates(out, kept, x, y));
            lemma_one_inside(inside, u);
            assert(covers(k, u));
            assert(k.spec_plus(u) == k);
            lemma_three_inside(inside, w, k, u);
        }
    }
}

} // verus!
