//! What a disambiguated machine weighs: each string what the input weighs it, on the one
//! path that is left for it.
use crate::arc::Arc;
use crate::arcsort::{is_arc_sorted, is_stable_order, law_sorting_permutes};
use crate::common_future::{
    ends_on, is_related, lemma_reads_reach, read_together, share_future,
};
use crate::compose_laws::{lemma_all_there, lemma_sorting_keeps_arcs};
use crate::connect::{
    law_trimming_adds_no_path, lemma_kept_arc_from, lemma_kept_state_at, lemma_rank_onto,
    lemma_trimmed_wf, on_path, path_states,
    succeeds, trimmed,
};
use crate::determinize::{
    common_divisor, holds, lemma_reads_within, merged, reads_to, remaining, DefaultCommonDivisor,
    Member,
};
use crate::determinize_laws::{
    arcs_worth, are_owed, is_semiring, lemma_final_worth, lemma_merged_worth, lemma_order_is_nothing,
    lemma_plus, lemma_rest_worth, lemma_times, lemma_ways_join, members_worth, ways_worth, worth,
};
use crate::disambiguate::{
    ambiguous_arcs, are_all_stages, cut_state, is_clean, is_countable, lemma_clean_stays,
    lemma_dead_runs_are_clean, lemma_joined_apart, lemma_same_runs, lemma_whole_runs_are_clean,
    result_of, spells, stays_at, with_dead, ByLabelAndTarget, Stages,
};
use crate::disambiguate_laws::{
    begins_well, follows, follows_at, head, lemma_built_follows, lemma_ends_first, lemma_members,
    lemma_reads_on, lemma_sorted_follows, lemma_source_spells, lemma_step_from, members,
};
use crate::graph::{full_graph, lemma_reach_edge, lemma_reach_trans};
use crate::headed::{
    headed_start, headed_step, headed_steps, joins, member_joins, Headed, Heading,
};
use crate::list::{lemma_list_sequence, sequence};
use crate::paths::{
    accepted_weight, are_alike, end_of, is_ending, lemma_after_first, lemma_alike, steps, total,
};
use crate::sort::{law_ranked, lemma_ranked_from, ranked};
use crate::unfold::{is_unfolding, numbered, unfolds};
use crate::vector_fst::{
    all_members, kept_arcs, lemma_kept_states_len, lemma_rank_monotone, rank, state_is_member, FstV,
};
use crate::weight::{spec_is_final, Divide, Weight};
use vstd::prelude::*;

verus! {

/// Arcs are worth the same where what follows them is.
proof fn lemma_arcs_worth_alike<W: Weight>(
    arcs: Seq<Arc<W>>,
    label: i32,
    a: spec_fn(int) -> W,
    b: spec_fn(int) -> W,
    k: int,
)
    requires
        0 <= k <= arcs.len(),
        forall|i: int|
            0 <= i < arcs.len() ==> a((#[trigger] arcs[i]).nextstate as int) == b(
                arcs[i].nextstate as int,
            ),
    ensures
        arcs_worth(arcs, label, a, k) == arcs_worth(arcs, label, b, k),
    decreases k,
{
    if k > 0 {
        lemma_arcs_worth_alike(arcs, label, a, b, k - 1);
        assert(a(arcs[k - 1].nextstate as int) == b(arcs[k - 1].nextstate as int));
    }
}

/// What follows the `i`th of some arcs adds.
spec fn adding_at<W: Weight>(
    arcs: Seq<Arc<W>>,
    label: i32,
    after: spec_fn(int) -> W,
) -> spec_fn(W, int) -> W {
    |sum: W, i: int|
        if arcs[i].ilabel == label {
            sum.spec_plus(arcs[i].weight.spec_times(after(arcs[i].nextstate as int)))
        } else {
            sum
        }
}

/// The worth of arcs taken in some order, one added after the other.
proof fn lemma_worth_in_order<W: Weight>(
    arcs: Seq<Arc<W>>,
    order: Seq<int>,
    sorted: Seq<Arc<W>>,
    label: i32,
    after: spec_fn(int) -> W,
    k: int,
)
    requires
        0 <= k <= order.len(),
        order.len() == sorted.len(),
        forall|i: int| 0 <= i < order.len() ==> sorted[i] == arcs[#[trigger] order[i]],
    ensures
        arcs_worth(sorted, label, after, k) == order.take(k).fold_left(
            W::spec_zero(),
            adding_at(arcs, label, after),
        ),
    decreases k,
{
    if k > 0 {
        lemma_worth_in_order(arcs, order, sorted, label, after, k - 1);
        assert(order.take(k).drop_last() =~= order.take(k - 1));
        assert(order.take(k).last() == order[k - 1]);
        assert(sorted[k - 1] == arcs[order[k - 1]]);
    }
}

/// Arcs are worth the same in any order.
proof fn lemma_sorted_worth<W: Weight>(
    arcs: Seq<Arc<W>>,
    sorted: Seq<Arc<W>>,
    order: Seq<usize>,
    label: i32,
    after: spec_fn(int) -> W,
)
    requires
        is_semiring::<W>(),
        order.len() == arcs.len(),
        sorted.len() == arcs.len(),
        order.no_duplicates(),
        forall|i: int| 0 <= i < order.len() ==> #[trigger] order[i] < order.len(),
        forall|i: int| 0 <= i < order.len() ==> sorted[i] == arcs[#[trigger] order[i] as int],
    ensures
        arcs_worth(sorted, label, after, sorted.len() as int) == arcs_worth(
            arcs,
            label,
            after,
            arcs.len() as int,
        ),
{
    broadcast use vstd::seq_lib::group_to_multiset_ensures;

    let n = arcs.len() as int;
    let f = adding_at(arcs, label, after);
    let to = Seq::new(order.len(), |i: int| order[i] as int);
    let same = Seq::new(arcs.len(), |i: int| i);
    assert(vstd::seq_lib::commutative_foldl(f)) by {
        assert forall|x: int, y: int, sum: W| #[trigger] f(f(sum, x), y) == f(f(sum, y), x) by {
            let p = arcs[x].weight.spec_times(after(arcs[x].nextstate as int));
            let q = arcs[y].weight.spec_times(after(arcs[y].nextstate as int));
            lemma_plus(sum, p, q);
            lemma_plus(sum, q, p);
            lemma_plus(p, q, sum);
        }
    }
    assert(to.no_duplicates()) by {
        assert forall|a: int, b: int| 0 <= a < n && 0 <= b < n && a != b implies to[a]
            != to[b] by {
            assert(order[a] != order[b]);
        }
    }
    to.lemma_multiset_has_no_duplicates();
    same.lemma_multiset_has_no_duplicates();
    assert forall|x: int| to.contains(x) <==> same.contains(x) by {
        if to.contains(x) {
            let i = choose|i: int| 0 <= i < n && to[i] == x;
            assert(order[i] < n);
            assert(same[x] == x);
        }
        if same.contains(x) {
            lemma_all_there(order, x);
            let i = choose|i: int| 0 <= i < order.len() && #[trigger] order[i] == x;
            assert(to[i] == x);
        }
    }
    assert(to.to_multiset() =~= same.to_multiset()) by {
        assert forall|x: int| #[trigger] to.to_multiset().count(x) == same.to_multiset().count(
            x,
        ) by {
            assert(to.contains(x) <==> to.to_multiset().count(x) > 0);
            assert(same.contains(x) <==> same.to_multiset().count(x) > 0);
            assert(to.contains(x) <==> same.contains(x));
        }
    }
    vstd::seq_lib::lemma_fold_left_permutation(to, same, f, W::spec_zero());
    assert forall|i: int| 0 <= i < to.len() implies sorted[i] == arcs[#[trigger] to[i]] by {
        assert(sorted[i] == arcs[order[i] as int]);
    }
    lemma_worth_in_order(arcs, to, sorted, label, after, n);
    lemma_worth_in_order(arcs, same, arcs, label, after, n);
    assert(to.take(n) =~= to);
    assert(same.take(n) =~= same);
}

/// Putting arcs in order changes the worth of no string.
proof fn lemma_sorting_keeps_worth<W: Weight>(v: FstV<W>, w: FstV<W>, x: Seq<i32>, s: int)
    requires
        is_semiring::<W>(),
        v.wf(),
        is_arc_sorted(ByLabelAndTarget, v, w),
        0 <= s < v.n(),
    ensures
        (worth(w, x))(s) == (worth(v, x))(s),
    decreases x.len(),
{
    assert(w.states[s].final_weight == v.states[s].final_weight);
    if x.len() > 0 {
        let rest = x.drop_first();
        let a = worth(v, rest);
        let b = worth(w, rest);
        let arcs = v.states[s].arcs;
        let sorted = w.states[s].arcs;
        law_sorting_permutes(ByLabelAndTarget, arcs, sorted);
        let order = choose|order: Seq<usize>| #[trigger]
            is_stable_order(ByLabelAndTarget, arcs, order) && order.no_duplicates() && forall|
                i: int,
            |
                0 <= i < order.len() ==> sorted[i] == arcs[#[trigger] order[i] as int];
        lemma_sorted_worth(arcs, sorted, order, x[0], b);
        assert forall|i: int| 0 <= i < arcs.len() implies b(
            (#[trigger] arcs[i]).nextstate as int,
        ) == a(arcs[i].nextstate as int) by {
            assert(v.states[s].arcs[i].nextstate < v.n());
            lemma_sorting_keeps_worth(v, w, rest, arcs[i].nextstate as int);
        }
        lemma_arcs_worth_alike(arcs, x[0], b, a, arcs.len() as int);
    }
}

/// Arcs after which nothing follows are worth nothing.
proof fn lemma_arcs_worth_nothing<W: Weight>(
    arcs: Seq<Arc<W>>,
    label: i32,
    after: spec_fn(int) -> W,
    k: int,
)
    requires
        is_semiring::<W>(),
        0 <= k <= arcs.len(),
        forall|i: int|
            0 <= i < arcs.len() && (#[trigger] arcs[i]).ilabel == label ==> arcs[i].weight.spec_member()
                && after(arcs[i].nextstate as int) == W::spec_zero(),
    ensures
        arcs_worth(arcs, label, after, k) == W::spec_zero(),
    decreases k,
{
    if k > 0 {
        lemma_arcs_worth_nothing(arcs, label, after, k - 1);
        let w = arcs[k - 1].weight;
        lemma_times(w, w, w);
        lemma_plus(W::spec_zero(), w, w);
    }
}

/// A string that leads to no end is worth nothing.
proof fn lemma_no_future_no_worth<W: Weight>(v: FstV<W>, t: int, x: Seq<i32>)
    requires
        is_semiring::<W>(),
        v.wf(),
        all_members(v),
        0 <= t < v.n(),
        !ends_on(v, t, x),
    ensures
        (worth(v, x))(t) == W::spec_zero(),
    decreases x.len(),
{
    if x.len() == 0 {
        assert(reads_to(v, t, x, t));
    } else {
        let rest = x.drop_first();
        let after = worth(v, rest);
        let arcs = v.arcs(t);
        assert forall|i: int|
            0 <= i < arcs.len() && (#[trigger] arcs[i]).ilabel == x[0] implies arcs[i].weight.spec_member()
            && after(arcs[i].nextstate as int) == W::spec_zero() by {
            assert(v.states[t].arcs[i].nextstate < v.n());
            assert(state_is_member(v.states[t]));
            let m = arcs[i].nextstate as int;
            if ends_on(v, m, rest) {
                lemma_ends_first(v, t, x[0], m, rest);
                assert(seq![x[0]] + rest =~= x);
            }
            lemma_no_future_no_worth(v, m, rest);
        }
        lemma_arcs_worth_nothing(arcs, x[0], after, arcs.len() as int);
    }
}

proof fn lemma_longer_worth<W: Weight>(
    arcs: Seq<Arc<W>>,
    more: Seq<Arc<W>>,
    label: i32,
    after: spec_fn(int) -> W,
    k: int,
)
    requires
        0 <= k <= arcs.len() <= more.len(),
        forall|i: int| 0 <= i < arcs.len() ==> #[trigger] more[i] == arcs[i],
    ensures
        arcs_worth(more, label, after, k) == arcs_worth(arcs, label, after, k),
    decreases k,
{
    if k > 0 {
        lemma_longer_worth(arcs, more, label, after, k - 1);
        assert(more[k - 1] == arcs[k - 1]);
    }
}

/// The arcs that are kept are worth what all were, where the others led to nothing.
proof fn lemma_kept_worth<W: Weight>(
    arcs: Seq<Arc<W>>,
    keep: Seq<bool>,
    label: i32,
    now: spec_fn(int) -> W,
    was: spec_fn(int) -> W,
    k: int,
)
    requires
        is_semiring::<W>(),
        0 <= k <= arcs.len(),
        keep.len() <= usize::MAX,
        forall|i: int|
            0 <= i < arcs.len() ==> {
                let t = (#[trigger] arcs[i]).nextstate as int;
                &&& t < keep.len()
                &&& arcs[i].weight.spec_member()
                &&& keep[t] ==> now(rank(keep, t) as int) == was(t)
                &&& !keep[t] ==> was(t) == W::spec_zero()
            },
    ensures
        arcs_worth(kept_arcs(arcs, keep, k), label, now, kept_arcs(arcs, keep, k).len() as int)
            == arcs_worth(arcs, label, was, k),
    decreases k,
{
    if k > 0 {
        lemma_kept_worth(arcs, keep, label, now, was, k - 1);
        let before = kept_arcs(arcs, keep, k - 1);
        let after = kept_arcs(arcs, keep, k);
        let arc = arcs[k - 1];
        let t = arc.nextstate as int;
        if keep[t] {
            lemma_longer_worth(before, after, label, now, before.len() as int);
            lemma_rank_monotone(keep, 0, t);
            assert(after.last().nextstate == rank(keep, t));
        } else {
            let sum = arcs_worth(arcs, label, was, k - 1);
            lemma_times(arc.weight, arc.weight, arc.weight);
            lemma_plus(sum, sum, sum);
        }
    }
}

/// Trimming changes the worth of no string, from any state that is kept.
proof fn lemma_trimming_keeps_worth<W: Weight>(v: FstV<W>, x: Seq<i32>, s: int)
    requires
        is_semiring::<W>(),
        v.wf(),
        v.n() <= usize::MAX,
        all_members(v),
        0 <= s < v.n(),
        on_path(v, s),
    ensures
        (worth(trimmed(v), x))(rank(path_states(v), s) as int) == (worth(v, x))(s),
    decreases x.len(),
{
    let keep = path_states(v);
    let t = trimmed(v);
    let g = full_graph(v);
    assert(keep[s]);
    lemma_kept_state_at(v.states, keep, s, v.n() as int);
    if x.len() > 0 {
        let rest = x.drop_first();
        let now = worth(t, rest);
        let was = worth(v, rest);
        let arcs = v.states[s].arcs;
        assert forall|i: int| 0 <= i < arcs.len() implies {
            let q = (#[trigger] arcs[i]).nextstate as int;
            &&& q < keep.len()
            &&& arcs[i].weight.spec_member()
            &&& keep[q] ==> now(rank(keep, q) as int) == was(q)
            &&& !keep[q] ==> was(q) == W::spec_zero()
        } by {
            let q = arcs[i].nextstate as int;
            assert(v.states[s].arcs[i].nextstate < v.n());
            assert(state_is_member(v.states[s]));
            if keep[q] {
                lemma_trimming_keeps_worth(v, rest, q);
            } else if ends_on(v, q, rest) {
                let f = choose|f: int|
                    0 <= f < v.n() && #[trigger] reads_to(v, q, rest, f) && v.fin(f)
                        != W::spec_zero();
                lemma_reads_reach(v, q, rest, f);
                assert(v.arcs(s)[i].nextstate == q);
                assert(g(s, q));
                lemma_reach_edge(g, s, q);
                lemma_reach_trans(g, v.start->0 as int, s, q);
                assert(state_is_member(v.states[f]));
                assert(v.is_final(f));
                assert(on_path(v, q));
            } else {
                lemma_no_future_no_worth(v, q, rest);
            }
        }
        lemma_kept_worth(arcs, keep, x[0], now, was, arcs.len() as int);
    }
}

/// Whether no arc that reads `label` is left out for want of a common future unless
/// nothing follows it.
spec fn leaves_nothing_out<W: Weight>(
    v: FstV<W>,
    arcs: Seq<Arc<W>>,
    label: i32,
    dest: usize,
    after: spec_fn(int) -> W,
) -> bool {
    forall|i: int|
        0 <= i < arcs.len() && (#[trigger] arcs[i]).ilabel == label && !is_related(
            v,
            arcs[i].nextstate as int,
            dest as int,
        ) ==> arcs[i].weight.spec_member() && after(arcs[i].nextstate as int) == W::spec_zero()
}

/// What a member brings to a destination is worth its weight times what its arcs are
/// worth.
proof fn lemma_member_joins_worth<W: Weight>(
    v: FstV<W>,
    weight: W,
    arcs: Seq<Arc<W>>,
    label: i32,
    dest: usize,
    after: spec_fn(int) -> W,
    k: int,
)
    requires
        is_semiring::<W>(),
        weight.spec_member(),
        0 <= k <= arcs.len(),
        leaves_nothing_out(v, arcs, label, dest, after),
    ensures
        ways_worth(member_joins(v, weight, arcs, label, dest, k), label, after)
            == weight.spec_times(arcs_worth(arcs, label, after, k)),
    decreases k,
{
    lemma_times(weight, weight, weight);
    if k > 0 {
        lemma_member_joins_worth(v, weight, arcs, label, dest, after, k - 1);
        let before = member_joins(v, weight, arcs, label, dest, k - 1);
        let ways = member_joins(v, weight, arcs, label, dest, k);
        let arc = arcs[k - 1];
        let x = after(arc.nextstate as int);
        let sum = arcs_worth(arcs, label, after, k - 1);
        if arc.ilabel == label {
            if is_related(v, arc.nextstate as int, dest as int) {
                assert(ways.drop_last() =~= before);
                lemma_times(weight, arc.weight, x);
                lemma_times(weight, sum, arc.weight.spec_times(x));
            } else {
                lemma_times(arc.weight, x, x);
                lemma_plus(sum, x, x);
            }
        }
    }
}

/// What members bring to a destination is worth what they are worth by their arcs.
proof fn lemma_joins_worth<W: Weight>(
    v: FstV<W>,
    subset: Seq<Member<W>>,
    label: i32,
    dest: usize,
    after: spec_fn(int) -> W,
    k: int,
)
    requires
        is_semiring::<W>(),
        are_owed(subset),
        0 <= k <= subset.len(),
        forall|i: int|
            0 <= i < subset.len() ==> leaves_nothing_out(
                v,
                v.arcs((#[trigger] subset[i]).state as int),
                label,
                dest,
                after,
            ),
    ensures
        ways_worth(joins(v, subset, label, dest, k), label, after) == members_worth(
            subset.take(k),
            |s: int| arcs_worth(v.arcs(s), label, after, v.arcs(s).len() as int),
        ),
    decreases k,
{
    let here = |s: int| arcs_worth(v.arcs(s), label, after, v.arcs(s).len() as int);
    if k > 0 {
        lemma_joins_worth(v, subset, label, dest, after, k - 1);
        let member = subset[k - 1];
        let arcs = v.arcs(member.state as int);
        let n = arcs.len() as int;
        lemma_member_joins_worth(v, member.weight, arcs, label, dest, after, n);
        lemma_ways_join(
            joins(v, subset, label, dest, k - 1),
            member_joins(v, member.weight, arcs, label, dest, n),
            label,
            after,
        );
        assert(subset.take(k).drop_last() =~= subset.take(k - 1));
        assert(subset.take(k).last() == member);
        assert(here(member.state as int) == arcs_worth(arcs, label, after, n));
    }
}

proof fn lemma_joins_read<W: Weight>(
    v: FstV<W>,
    subset: Seq<Member<W>>,
    label: i32,
    dest: usize,
    k: int,
)
    requires
        0 <= k <= subset.len(),
    ensures
        forall|i: int|
            0 <= i < joins(v, subset, label, dest, k).len() ==> (#[trigger] joins(
                v,
                subset,
                label,
                dest,
                k,
            )[i]).label == label,
    decreases k,
{
    if k > 0 {
        lemma_joins_read(v, subset, label, dest, k - 1);
        let arcs = v.arcs(subset[k - 1].state as int);
        let n = arcs.len() as int;
        lemma_member_joins_read(v, subset[k - 1].weight, arcs, label, dest, n);
        let before = joins(v, subset, label, dest, k - 1);
        let more = member_joins(v, subset[k - 1].weight, arcs, label, dest, n);
        let all = joins(v, subset, label, dest, k);
        assert forall|i: int| 0 <= i < all.len() implies (#[trigger] all[i]).label == label by {
            if i < before.len() {
                assert(all[i] == before[i]);
            } else {
                assert(all[i] == more[i - before.len()]);
            }
        }
    }
}

proof fn lemma_member_joins_read<W: Weight>(
    v: FstV<W>,
    weight: W,
    arcs: Seq<Arc<W>>,
    label: i32,
    dest: usize,
    k: int,
)
    requires
        0 <= k <= arcs.len(),
    ensures
        forall|i: int|
            0 <= i < member_joins(v, weight, arcs, label, dest, k).len() ==> (
            #[trigger] member_joins(v, weight, arcs, label, dest, k)[i]).label == label,
    decreases k,
{
    if k > 0 {
        lemma_member_joins_read(v, weight, arcs, label, dest, k - 1);
        let before = member_joins(v, weight, arcs, label, dest, k - 1);
        let all = member_joins(v, weight, arcs, label, dest, k);
        assert forall|i: int| 0 <= i < all.len() implies (#[trigger] all[i]).label == label by {
            if i < before.len() {
                assert(all[i] == before[i]);
            }
        }
    }
}

/// Whether what an arc takes and what it leaves make up what was brought to its
/// destination. Division that is not exact, or quantizing, may stand in the way.
pub open spec fn takes_exactly<W: Divide>(
    v: FstV<W>,
    delta: W::Delta,
    subset: Seq<Member<W>>,
    label: i32,
    dest: usize,
) -> bool {
    let elements = ranked(joins(v, subset, label, dest, subset.len() as int));
    let taken = common_divisor(DefaultCommonDivisor, elements, elements.len() as int);
    let kept = merged(elements, elements.len() as int);
    let rest = remaining(kept, taken, delta);
    &&& taken.spec_member()
    &&& forall|j: int|
        0 <= j < kept.len() ==> taken.spec_times((#[trigger] rest[j]).weight) == kept[j].weight
}

/// Whether what the arcs take and what they leave make up what there was, all of it in the
/// semiring, wherever the result has come to.
pub open spec fn takes_exactly_throughout<W: Divide>(
    v: FstV<W>,
    delta: W::Delta,
    table: Seq<Headed<W>>,
) -> bool {
    &&& forall|s: int| 0 <= s < table.len() ==> #[trigger] are_owed(members(table, s))
    &&& forall|s: int, j: int|
        0 <= s < table.len() && 0 <= j < v.arcs(head(table, s)).len() ==> takes_exactly(
            v,
            delta,
            members(table, s),
            (#[trigger] v.arcs(head(table, s))[j]).ilabel,
            v.arcs(head(table, s))[j].nextstate,
        )
}

/// An arc, with what its destination is worth, is worth what was brought to it.
proof fn lemma_headed_step_worth<W: Divide>(
    v: FstV<W>,
    delta: W::Delta,
    subset: Seq<Member<W>>,
    label: i32,
    dest: usize,
    after: spec_fn(int) -> W,
)
    requires
        is_semiring::<W>(),
        takes_exactly(v, delta, subset, label, dest),
    ensures
        ({
            let step = headed_step(v, delta, subset, label, dest);
            step.weight.spec_times(members_worth(sequence(step.to.1), after)) == ways_worth(
                joins(v, subset, label, dest, subset.len() as int),
                label,
                after,
            )
        }),
{
    let ways = joins(v, subset, label, dest, subset.len() as int);
    let elements = ranked(ways);
    let n = elements.len() as int;
    let taken = common_divisor(DefaultCommonDivisor, elements, n);
    let kept = merged(elements, n);
    let rest = remaining(kept, taken, delta);
    lemma_list_sequence(rest);
    lemma_rest_worth(taken, rest, kept, after);
    lemma_joins_read(v, subset, label, dest, subset.len() as int);
    law_ranked(ways);
    assert forall|i: int| 0 <= i < elements.len() implies (#[trigger] elements[i]).label
        == label by {
        let j = lemma_ranked_from(ways, i);
        assert(ways[j].label == label);
    }
    lemma_merged_worth(elements, n, label, after);
    assert(elements.take(n) =~= elements);
    lemma_order_is_nothing(elements, ways, label, after);
}

/// Whether an arc takes what it should, and leaves the rest.
spec fn takes_at<W: Divide>(
    v: FstV<W>,
    delta: W::Delta,
    table: Seq<Headed<W>>,
    s: int,
    arc: Arc<W>,
) -> bool {
    let dest = table[arc.nextstate as int].0;
    let step = headed_step(v, delta, members(table, s), arc.ilabel, dest);
    &&& arc.weight == step.weight
    &&& table[arc.nextstate as int] == step.to
    &&& takes_exactly(v, delta, members(table, s), arc.ilabel, dest)
}

/// Whether every arc takes what it should, and a state ends with what is left where its
/// head ends.
spec fn takes_all<W: Divide>(
    v: FstV<W>,
    delta: W::Delta,
    table: Seq<Headed<W>>,
    w: FstV<W>,
) -> bool {
    &&& forall|s: int, i: int|
        0 <= s < w.n() && 0 <= i < w.states[s].arcs.len() ==> takes_at(
            v,
            delta,
            table,
            s,
            #[trigger] w.states[s].arcs[i],
        )
    &&& forall|s: int| 0 <= s < w.n() ==> #[trigger] are_owed(members(table, s))
    &&& forall|s: int|
        0 <= s < w.n() ==> #[trigger] w.fin(s) == (if v.fin(head(table, s)) != W::spec_zero() {
            crate::determinize::subset_final(
                v,
                members(table, s),
                members(table, s).len() as int,
            )
        } else {
            W::spec_zero()
        })
}

proof fn lemma_sorted_takes_all<W: Divide>(
    v: FstV<W>,
    delta: W::Delta,
    start: usize,
    table: Seq<Headed<W>>,
    built: FstV<W>,
    sorted: FstV<W>,
)
    requires
        is_unfolding::<W, Headed<W>, Heading<W>>(
            (v, delta),
            headed_start(start),
            true,
            table,
            built.states,
        ),
        takes_exactly_throughout(v, delta, table),
        is_arc_sorted(ByLabelAndTarget, built, sorted),
    ensures
        takes_all(v, delta, table, sorted),
{
    assert forall|s: int, i: int|
        0 <= s < sorted.n() && 0 <= i < sorted.states[s].arcs.len() implies takes_at(
        v,
        delta,
        table,
        s,
        #[trigger] sorted.states[s].arcs[i],
    ) by {
        let arc = sorted.states[s].arcs[i];
        assert(sorted.states[s].final_weight == built.states[s].final_weight);
        lemma_sorting_keeps_arcs(
            ByLabelAndTarget,
            built.states[s].arcs,
            sorted.states[s].arcs,
            arc,
        );
        assert(sorted.states[s].arcs.contains(arc));
        let k = choose|k: int|
            0 <= k < built.states[s].arcs.len() && built.states[s].arcs[k] == arc;
        assert(unfolds::<W, Headed<W>, Heading<W>>((v, delta), table[s], built.states[s], table));
        let arcs = v.arcs(head(table, s));
        let n = arcs.len() as int;
        let all = headed_steps(v, delta, members(table, s), arcs, n);
        assert(numbered(all[k], built.states[s].arcs[k], table));
        let j = lemma_step_from(v, delta, members(table, s), arcs, n, k);
        assert(v.arcs(head(table, s))[j] == arcs[j]);
    }
    assert forall|s: int| 0 <= s < sorted.n() implies #[trigger] sorted.fin(s) == (if v.fin(
        head(table, s),
    ) != W::spec_zero() {
        crate::determinize::subset_final(v, members(table, s), members(table, s).len() as int)
    } else {
        W::spec_zero()
    }) by {
        assert(sorted.states[s].final_weight == built.states[s].final_weight);
        assert(unfolds::<W, Headed<W>, Heading<W>>((v, delta), table[s], built.states[s], table));
    }
}

/// Whatever path is left for the rest of a string weighs what the states that are kept
/// track of weigh it together, each with the weight it is still owed.
proof fn lemma_run_weighs<W: Divide>(
    v: FstV<W>,
    delta: W::Delta,
    table: Seq<Headed<W>>,
    w: FstV<W>,
    x: Seq<i32>,
    s: int,
    run: Seq<Arc<W>>,
)
    requires
        is_semiring::<W>(),
        begins_well(v, table),
        all_members(v),
        follows(v, table, w),
        takes_all(v, delta, table, w),
        w.wf(),
        reads_to(w, 0, x, s),
        is_ending(w, s, run),
    ensures
        total(run, w.fin(end_of(s, run))) == members_worth(
            members(table, s),
            worth(v, spells(run)),
        ),
        ends_on(v, head(table, s), spells(run)),
    decreases run.len(),
{
    let subset = members(table, s);
    let n = subset.len() as int;
    let y = spells(run);
    let h = head(table, s);
    let start = v.start->0 as int;
    assert(table[s].0 < v.n());
    assert(are_owed(members(table, s)));
    assert(subset.take(n) =~= subset);
    if run.len() == 0 {
        assert(y.len() == 0);
        lemma_final_worth(v, subset, n);
        assert(w.fin(s) != W::spec_zero());
        assert(reads_to(v, h, y, h));
        assert(worth(v, y) =~= |q: int| v.fin(q));
    } else {
        lemma_after_first(w, s, run);
        let arc = run[0];
        let rest = run.drop_first();
        let q = arc.nextstate as int;
        let label = arc.ilabel;
        let k = choose|k: int| 0 <= k < w.arcs(s).len() && w.arcs(s)[k] == arc;
        assert(follows_at(v, table, s, w.states[s].arcs[k]));
        assert(takes_at(v, delta, table, s, w.states[s].arcs[k]));
        assert(crate::determinize::arc_reads(w.arcs(s), label, q));
        lemma_reads_on(w, 0, x, s, label, q);
        let longer = x.push(label);
        lemma_run_weighs(v, delta, table, w, longer, q, rest);
        let z = spells(rest);
        assert(y.drop_first() =~= z);
        assert(y[0] == label);
        assert(seq![label] + z =~= y);
        lemma_ends_first(v, h, label, head(table, q), z);
        let after = worth(v, z);
        let dest = table[q].0;
        assert forall|i: int| 0 <= i < subset.len() implies leaves_nothing_out(
            v,
            v.arcs((#[trigger] subset[i]).state as int),
            label,
            dest,
            after,
        ) by {
            let m = subset[i].state as int;
            assert(holds(subset, m));
            lemma_members(v, table, w, x, s, m);
            lemma_reads_within(v, start, x, m);
            let arcs = v.arcs(m);
            assert forall|j: int|
                0 <= j < arcs.len() && (#[trigger] arcs[j]).ilabel == label && !is_related(
                    v,
                    arcs[j].nextstate as int,
                    dest as int,
                ) implies arcs[j].weight.spec_member() && after(arcs[j].nextstate as int)
                == W::spec_zero() by {
                let to = arcs[j].nextstate as int;
                assert(state_is_member(v.states[m]));
                assert(v.states[m].arcs[j].nextstate < v.n());
                if ends_on(v, to, z) {
                    assert(share_future(v, to, dest as int));
                    assert(crate::determinize::arc_reads(v.arcs(m), label, to));
                    lemma_reads_on(v, start, x, m, label, to);
                    lemma_members(v, table, w, longer, q, to);
                    assert(read_together(v, to, dest as int));
                } else {
                    lemma_no_future_no_worth(v, to, z);
                }
            }
        }
        lemma_joins_worth(v, subset, label, dest, after, n);
        lemma_headed_step_worth(v, delta, subset, label, dest, after);
        assert(worth(v, y) =~= |p: int|
            arcs_worth(v.arcs(p), label, after, v.arcs(p).len() as int));
    }
}

/// A run that takes only transitions that stay is one of the machine.
proof fn lemma_clean_is_ending<W: Weight>(
    w: FstV<W>,
    gone: Set<crate::ambiguity::ArcId>,
    run: Seq<Arc<W>>,
)
    requires
        w.wf(),
        is_clean(w, gone, run),
    ensures
        is_ending(w, w.start->0 as int, run),
{
    let s = w.start->0 as int;
    assert forall|i: int| 0 <= i < run.len() implies #[trigger] steps(w, s, run, i) by {
        assert(stays_at(w, gone, s, run, i));
        lemma_clean_stays(w, gone, run, i);
    }
    lemma_clean_stays(w, gone, run, run.len() as int);
}

/// Trimming and putting arcs in order leaves all weights in the semiring.
proof fn lemma_source_is_member<W: Weight>(v: FstV<W>, source: FstV<W>)
    requires
        v.wf(),
        v.n() <= usize::MAX,
        all_members(v),
        is_arc_sorted(ByLabelAndTarget, trimmed(v), source),
    ensures
        all_members(source),
{
    let t = trimmed(v);
    let keep = path_states(v);
    let n = v.n() as int;
    lemma_kept_states_len(v.states, keep, n);
    assert forall|s: int| 0 <= s < source.n() implies state_is_member(
        #[trigger] source.states[s],
    ) by {
        let x = lemma_rank_onto(keep, n, s);
        lemma_kept_state_at(v.states, keep, x, n);
        assert(state_is_member(v.states[x]));
        let sorted = source.states[s].arcs;
        let kept = t.states[s].arcs;
        assert(source.states[s].final_weight == t.states[s].final_weight);
        assert forall|i: int| 0 <= i < sorted.len() implies (
        #[trigger] sorted[i]).weight.spec_member() by {
            lemma_sorting_keeps_arcs(ByLabelAndTarget, kept, sorted, sorted[i]);
            assert(sorted.contains(sorted[i]));
            let j = choose|j: int| 0 <= j < kept.len() && kept[j] == sorted[i];
            let arcs = v.states[x].arcs;
            let k = lemma_kept_arc_from(arcs, keep, arcs.len() as int, j);
            assert(arcs[k].weight.spec_member());
        }
    }
}

/// The one path that disambiguation leaves for a string weighs what the input weighs the
/// string: the sum over all its ways of reading it. This is over a semiring, as far as
/// division leaves exactly what there was and no states had to be merged for being told
/// apart by quantization alone.
pub proof fn law_disambiguated_weighs_the_same<W: Divide>(
    v: FstV<W>,
    delta: W::Delta,
    o: FstV<W>,
    d: Stages<W>,
    table: Seq<Headed<W>>,
    run: Seq<Arc<W>>,
)
    requires
        is_semiring::<W>(),
        spec_is_final(W::spec_one()),
        v.wf(),
        v.n() <= usize::MAX,
        all_members(v),
        are_all_stages(v, delta, d),
        d.merge is None,
        is_countable(d.joined),
        d.source.start is Some,
        is_unfolding::<W, Headed<W>, Heading<W>>(
            (d.source, delta),
            headed_start(d.source.start->0),
            true,
            table,
            d.built.states,
        ),
        takes_exactly_throughout(d.source, delta, table),
        succeeds(result_of(v, o, d), run),
    ensures
        accepted_weight(result_of(v, o, d), run) == (worth(v, spells(run)))(v.start->0 as int),
{
    let source = d.source;
    let start = source.start->0;
    let w = d.joined;
    let r = result_of(v, o, d);
    let gone = ambiguous_arcs(d.found);
    let x = spells(run);
    lemma_source_spells(v, source, x);
    lemma_source_is_member(v, source);
    lemma_joined_apart(v, delta, d);
    crate::disambiguate::lemma_heads_fit(source, delta, start, table, d.built);
    lemma_built_follows(source, delta, start, table, d.built);
    lemma_sorted_follows(source, table, d.built, d.sorted);
    lemma_sorted_takes_all(source, delta, start, table, d.built, d.sorted);
    assert(begins_well(source, table));
    let from = if gone.is_empty() {
        lemma_same_runs(r, w, run);
        lemma_whole_runs_are_clean(w, gone, run);
        run
    } else {
        let dead = with_dead(w, gone);
        assert(dead.wf()) by {
            assert forall|s: int, i: int|
                0 <= s < dead.n() && 0 <= i < dead.states[s].arcs.len() implies (
            #[trigger] dead.states[s].arcs[i]).nextstate < dead.n() by {
                if s < w.n() {
                    assert(w.states[s].arcs[i].nextstate < w.n());
                }
            }
        }
        lemma_same_runs(r, trimmed(dead), run);
        let from = law_trimming_adds_no_path(dead, run);
        lemma_dead_runs_are_clean(w, gone, from);
        let e = end_of(0, from);
        lemma_clean_stays(w, gone, from, from.len() as int);
        assert(dead.states[e] == cut_state(w.states[e], e as usize, gone, w.n() as usize));
        assert(dead.fin(e) == w.fin(e));
        from
    };
    lemma_clean_is_ending(w, gone, from);
    assert(are_alike(run, from));
    lemma_alike(run, from, w.fin(end_of(0, from)));
    assert(spells(from) =~= x);
    let none = Seq::<i32>::empty();
    assert(reads_to(w, 0, none, 0));
    lemma_run_weighs(source, delta, table, w, none, 0, from);
    let only = seq![Member { state: start, weight: W::spec_one() }];
    lemma_list_sequence(only);
    let after = worth(source, x);
    let here = after(start as int);
    assert(members(table, 0) == only);
    assert(only.last().state == start);
    assert(only.drop_last().len() == 0);
    assert(members_worth(only.drop_last(), after) == W::spec_zero());
    assert(members_worth(only, after) == W::spec_zero().spec_plus(
        W::spec_one().spec_times(here),
    ));
    lemma_times(here, here, here);
    lemma_plus(here, here, here);
    lemma_trimmed_wf(v);
    let trim = trimmed(v);
    lemma_sorting_keeps_worth(trim, source, x, start as int);
    assert(on_path(v, v.start->0 as int)) by {
        assert(path_states(v)[v.start->0 as int]);
    }
    lemma_rank_monotone(path_states(v), 0, v.start->0 as int);
    lemma_trimming_keeps_worth(v, x, v.start->0 as int);
}

} // verus!
