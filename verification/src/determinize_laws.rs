//! What a determinized machine weighs.
use crate::arc::Arc;
use crate::determinize::{
    common_divisor, from_group, group_step, group_steps, has_way, is_group,
    law_every_label_has_a_step, lemma_group_holds_label, lemma_group_steps, lemma_labels_ascend,
    lemma_subset_ways, member_transitions, merged, remaining, start_subset, subset_final,
    subset_transitions, subset_ways, CommonDivisor, DeterminizeModel, Determinizing, Member,
    Transition,
};
use crate::list::{lemma_list_sequence, sequence, List};
use crate::sort::law_ranked;
use crate::unfold::{is_unfolding, numbered, unfolds, Unfolding};
use crate::vector_fst::FstV;
use crate::weight::{Divide, Weight};
use vstd::prelude::*;

verus! {

/// Whether weights are those of a semiring. A value that is not in it need not come to
/// nothing when it is multiplied by nothing.
#[verifier::opaque]
pub open spec fn is_semiring<W: Weight>() -> bool {
    let zero = W::spec_zero();
    &&& forall|a: W, b: W, c: W| #[trigger]
        a.spec_plus(b).spec_plus(c) == a.spec_plus(b.spec_plus(c))
    &&& forall|a: W, b: W| #[trigger] a.spec_plus(b) == b.spec_plus(a)
    &&& forall|a: W| #[trigger] zero.spec_plus(a) == a
    &&& forall|a: W, b: W, c: W| #[trigger]
        a.spec_times(b).spec_times(c) == a.spec_times(b.spec_times(c))
    &&& forall|a: W| #[trigger] W::spec_one().spec_times(a) == a
    &&& forall|a: W| a.spec_member() ==> #[trigger] a.spec_times(zero) == zero
    &&& forall|a: W, b: W, c: W| #[trigger]
        a.spec_times(b.spec_plus(c)) == a.spec_times(b).spec_plus(a.spec_times(c))
    &&& forall|a: W, b: W, c: W| #[trigger]
        a.spec_plus(b).spec_times(c) == a.spec_times(c).spec_plus(b.spec_times(c))
}

/// Adding: three summands, and none.
pub proof fn lemma_plus<W: Weight>(a: W, b: W, c: W)
    requires
        is_semiring::<W>(),
    ensures
        a.spec_plus(b).spec_plus(c) == a.spec_plus(b.spec_plus(c)),
        a.spec_plus(b) == b.spec_plus(a),
        W::spec_zero().spec_plus(a) == a,
        a.spec_plus(W::spec_zero()) == a,
{
    reveal(is_semiring);
    assert(a.spec_plus(W::spec_zero()) == W::spec_zero().spec_plus(a));
}

/// Multiplying: three factors, and sums.
pub proof fn lemma_times<W: Weight>(a: W, b: W, c: W)
    requires
        is_semiring::<W>(),
    ensures
        a.spec_times(b).spec_times(c) == a.spec_times(b.spec_times(c)),
        W::spec_one().spec_times(a) == a,
        a.spec_member() ==> a.spec_times(W::spec_zero()) == W::spec_zero(),
        a.spec_times(b.spec_plus(c)) == a.spec_times(b).spec_plus(a.spec_times(c)),
        a.spec_plus(b).spec_times(c) == a.spec_times(c).spec_plus(b.spec_times(c)),
{
    reveal(is_semiring);
}

/// What the first `k` arcs that read `label` are worth together, `after` saying what
/// follows each.
pub open spec fn arcs_worth<W: Weight>(
    arcs: Seq<Arc<W>>,
    label: i32,
    after: spec_fn(int) -> W,
    k: int,
) -> W
    decreases k,
{
    if k <= 0 {
        W::spec_zero()
    } else {
        let before = arcs_worth(arcs, label, after, k - 1);
        let arc = arcs[k - 1];
        if arc.ilabel == label {
            before.spec_plus(arc.weight.spec_times(after(arc.nextstate as int)))
        } else {
            before
        }
    }
}

/// What a machine weighs a string, epsilons and all, from each of its states: the sum
/// over all ways of reading it to where a path may end.
pub open spec fn worth<W: Weight>(v: FstV<W>, string: Seq<i32>) -> spec_fn(int) -> W
    decreases string.len(),
{
    if string.len() == 0 {
        |s: int| v.fin(s)
    } else {
        let after = worth(v, string.drop_first());
        |s: int| arcs_worth(v.arcs(s), string[0], after, v.arcs(s).len() as int)
    }
}

/// What the ways that read `label` are worth together.
pub open spec fn ways_worth<W: Weight>(ways: Seq<Transition<W>>, label: i32, after: spec_fn(int) -> W) -> W
    decreases ways.len(),
{
    if ways.len() == 0 {
        W::spec_zero()
    } else {
        let before = ways_worth(ways.drop_last(), label, after);
        let way = ways.last();
        if way.label == label {
            before.spec_plus(way.weight.spec_times(after(way.to as int)))
        } else {
            before
        }
    }
}

/// What members are worth together.
pub open spec fn members_worth<W: Weight>(members: Seq<Member<W>>, after: spec_fn(int) -> W) -> W
    decreases members.len(),
{
    if members.len() == 0 {
        W::spec_zero()
    } else {
        members_worth(members.drop_last(), after).spec_plus(
            members.last().weight.spec_times(after(members.last().state as int)),
        )
    }
}

/// Ways one after the other are worth what they are worth together.
pub proof fn lemma_ways_join<W: Weight>(
    a: Seq<Transition<W>>,
    b: Seq<Transition<W>>,
    label: i32,
    after: spec_fn(int) -> W,
)
    requires
        is_semiring::<W>(),
    ensures
        ways_worth(a + b, label, after) == ways_worth(a, label, after).spec_plus(
            ways_worth(b, label, after),
        ),
    decreases b.len(),
{
    let x = ways_worth(a, label, after);
    if b.len() == 0 {
        assert(a + b =~= a);
        lemma_plus(x, x, x);
    } else {
        lemma_ways_join(a, b.drop_last(), label, after);
        assert((a + b).drop_last() =~= a + b.drop_last());
        let way = b.last();
        lemma_plus(
            x,
            ways_worth(b.drop_last(), label, after),
            way.weight.spec_times(after(way.to as int)),
        );
    }
}

/// Ways none of which reads a label are worth nothing for it.
proof fn lemma_no_ways<W: Weight>(ways: Seq<Transition<W>>, label: i32, after: spec_fn(int) -> W)
    requires
        forall|i: int| 0 <= i < ways.len() ==> (#[trigger] ways[i]).label != label,
    ensures
        ways_worth(ways, label, after) == W::spec_zero(),
    decreases ways.len(),
{
    if ways.len() > 0 {
        let less = ways.drop_last();
        assert forall|i: int| 0 <= i < less.len() implies (#[trigger] less[i]).label != label by {
            assert(less[i] == ways[i]);
        }
        lemma_no_ways(less, label, after);
    }
}

/// The ways of leaving a member are worth its weight times what its arcs are worth.
proof fn lemma_member_worth<W: Weight>(
    weight: W,
    arcs: Seq<Arc<W>>,
    k: int,
    label: i32,
    after: spec_fn(int) -> W,
)
    requires
        is_semiring::<W>(),
        weight.spec_member(),
        0 <= k <= arcs.len(),
    ensures
        ways_worth(member_transitions(weight, arcs, k), label, after) == weight.spec_times(
            arcs_worth(arcs, label, after, k),
        ),
    decreases k,
{
    lemma_times(weight, weight, weight);
    if k > 0 {
        lemma_member_worth(weight, arcs, k - 1, label, after);
        let ways = member_transitions(weight, arcs, k);
        let before = member_transitions(weight, arcs, k - 1);
        assert(ways.drop_last() =~= before);
        let arc = arcs[k - 1];
        let x = after(arc.nextstate as int);
        lemma_times(weight, arc.weight, x);
        lemma_times(weight, arcs_worth(arcs, label, after, k - 1), arc.weight.spec_times(x));
    }
}

/// Whether what each member is still owed is in the semiring.
pub open spec fn are_owed<W: Weight>(members: Seq<Member<W>>) -> bool {
    forall|i: int| 0 <= i < members.len() ==> (#[trigger] members[i]).weight.spec_member()
}

/// The ways of leaving a subset are worth what its members are worth, each by what its
/// arcs are worth.
proof fn lemma_subset_worth<W: Weight>(
    v: FstV<W>,
    members: Seq<Member<W>>,
    k: int,
    label: i32,
    after: spec_fn(int) -> W,
)
    requires
        is_semiring::<W>(),
        are_owed(members),
        0 <= k <= members.len(),
    ensures
        ways_worth(subset_transitions(v, members, k), label, after) == members_worth(
            members.take(k),
            |s: int| arcs_worth(v.arcs(s), label, after, v.arcs(s).len() as int),
        ),
    decreases k,
{
    let here = |s: int| arcs_worth(v.arcs(s), label, after, v.arcs(s).len() as int);
    if k > 0 {
        lemma_subset_worth(v, members, k - 1, label, after);
        let member = members[k - 1];
        let arcs = v.arcs(member.state as int);
        let n = arcs.len() as int;
        lemma_member_worth(member.weight, arcs, n, label, after);
        lemma_ways_join(
            subset_transitions(v, members, k - 1),
            member_transitions(member.weight, arcs, n),
            label,
            after,
        );
        assert(members.take(k).drop_last() =~= members.take(k - 1));
        assert(members.take(k).last() == member);
        assert(here(member.state as int) == arcs_worth(arcs, label, after, n));
    }
}

/// What a way adds.
spec fn adding<W: Weight>(label: i32, after: spec_fn(int) -> W) -> spec_fn(W, Transition<W>) -> W {
    |sum: W, way: Transition<W>|
        if way.label == label {
            sum.spec_plus(way.weight.spec_times(after(way.to as int)))
        } else {
            sum
        }
}

/// The worth of ways, one added after the other.
proof fn lemma_worth_is_folded<W: Weight>(
    ways: Seq<Transition<W>>,
    label: i32,
    after: spec_fn(int) -> W,
)
    ensures
        ways_worth(ways, label, after) == ways.fold_left(W::spec_zero(), adding(label, after)),
    decreases ways.len(),
{
    if ways.len() > 0 {
        lemma_worth_is_folded(ways.drop_last(), label, after);
    }
}

/// Ways are worth the same in any order.
pub proof fn lemma_order_is_nothing<W: Weight>(
    a: Seq<Transition<W>>,
    b: Seq<Transition<W>>,
    label: i32,
    after: spec_fn(int) -> W,
)
    requires
        is_semiring::<W>(),
        a.to_multiset() == b.to_multiset(),
    ensures
        ways_worth(a, label, after) == ways_worth(b, label, after),
{
    let f = adding(label, after);
    assert(vstd::seq_lib::commutative_foldl(f)) by {
        assert forall|x: Transition<W>, y: Transition<W>, sum: W| #[trigger]
            f(f(sum, x), y) == f(f(sum, y), x) by {
            let p = x.weight.spec_times(after(x.to as int));
            let q = y.weight.spec_times(after(y.to as int));
            lemma_plus(sum, p, q);
            lemma_plus(sum, q, p);
            lemma_plus(p, q, sum);
        }
    }
    vstd::seq_lib::lemma_fold_left_permutation(a, b, f, W::spec_zero());
    lemma_worth_is_folded(a, label, after);
    lemma_worth_is_folded(b, label, after);
}

/// Ways that lead to one state are worth what they are worth as one.
pub proof fn lemma_merged_worth<W: Weight>(
    group: Seq<Transition<W>>,
    k: int,
    label: i32,
    after: spec_fn(int) -> W,
)
    requires
        is_semiring::<W>(),
        0 <= k <= group.len(),
        forall|i: int| 0 <= i < group.len() ==> (#[trigger] group[i]).label == label,
    ensures
        ways_worth(group.take(k), label, after) == members_worth(merged(group, k), after),
    decreases k,
{
    if k > 0 {
        lemma_merged_worth(group, k - 1, label, after);
        assert(group.take(k).drop_last() =~= group.take(k - 1));
        let before = merged(group, k - 1);
        let now = merged(group, k);
        let next = group[k - 1];
        assert(group.take(k).last() == next);
        let x = after(next.to as int);
        if before.len() > 0 && before.last().state == next.to {
            assert(now.drop_last() =~= before.drop_last());
            lemma_times(before.last().weight, next.weight, x);
            lemma_plus(
                members_worth(before.drop_last(), after),
                before.last().weight.spec_times(x),
                next.weight.spec_times(x),
            );
        } else {
            assert(now.drop_last() =~= before);
        }
    }
}

/// Whether what an arc takes and what it leaves make up what there was, for each state
/// that ways lead to. Division that is not exact, or quantizing, may stand in the way.
pub open spec fn leaves_exactly<W: Divide, D: CommonDivisor<W>>(
    m: DeterminizeModel<W, D>,
    group: Seq<Transition<W>>,
) -> bool {
    let taken = common_divisor(m.divisor, group, group.len() as int);
    let kept = merged(group, group.len() as int);
    let rest = remaining(kept, taken, m.delta);
    &&& taken.spec_member()
    &&& forall|j: int|
        0 <= j < kept.len() ==> taken.spec_times((#[trigger] rest[j]).weight) == kept[j].weight
}

/// What an arc takes, times what the rest is worth, is what there was.
pub proof fn lemma_rest_worth<W: Weight>(
    taken: W,
    rest: Seq<Member<W>>,
    kept: Seq<Member<W>>,
    after: spec_fn(int) -> W,
)
    requires
        is_semiring::<W>(),
        taken.spec_member(),
        rest.len() == kept.len(),
        forall|j: int|
            0 <= j < kept.len() ==> taken.spec_times((#[trigger] rest[j]).weight) == kept[j].weight
                && rest[j].state == kept[j].state,
    ensures
        taken.spec_times(members_worth(rest, after)) == members_worth(kept, after),
    decreases rest.len(),
{
    lemma_times(taken, taken, taken);
    if rest.len() > 0 {
        let r = rest.drop_last();
        let k = kept.drop_last();
        assert forall|j: int| 0 <= j < k.len() implies taken.spec_times((#[trigger] r[j]).weight)
            == k[j].weight && r[j].state == k[j].state by {
            assert(r[j] == rest[j]);
        }
        lemma_rest_worth(taken, r, k, after);
        let last = rest.last();
        assert(rest[rest.len() - 1] == last);
        let x = after(last.state as int);
        lemma_times(taken, members_worth(r, after), last.weight.spec_times(x));
        lemma_times(taken, last.weight, x);
    }
}

/// Where one arc alone reads a label, the arcs are worth what it is worth.
proof fn lemma_one_arc_worth<W: Weight>(
    arcs: Seq<Arc<W>>,
    label: i32,
    after: spec_fn(int) -> W,
    k: int,
    j: int,
)
    requires
        is_semiring::<W>(),
        0 <= k <= arcs.len(),
        0 <= j < arcs.len(),
        arcs[j].ilabel == label,
        forall|i: int| 0 <= i < arcs.len() && i != j ==> (#[trigger] arcs[i]).ilabel != label,
    ensures
        arcs_worth(arcs, label, after, k) == (if j < k {
            arcs[j].weight.spec_times(after(arcs[j].nextstate as int))
        } else {
            W::spec_zero()
        }),
    decreases k,
{
    if k > 0 {
        lemma_one_arc_worth(arcs, label, after, k - 1, j);
        let x = arcs[j].weight.spec_times(after(arcs[j].nextstate as int));
        lemma_plus(x, x, x);
    }
}

/// Where no arc reads a label, the arcs are worth nothing for it.
proof fn lemma_no_arc_worth<W: Weight>(
    arcs: Seq<Arc<W>>,
    label: i32,
    after: spec_fn(int) -> W,
    k: int,
)
    requires
        0 <= k <= arcs.len(),
        forall|i: int| 0 <= i < arcs.len() ==> (#[trigger] arcs[i]).ilabel != label,
    ensures
        arcs_worth(arcs, label, after, k) == W::spec_zero(),
    decreases k,
{
    if k > 0 {
        lemma_no_arc_worth(arcs, label, after, k - 1);
    }
}

/// What members are worth where a path ends.
pub proof fn lemma_final_worth<W: Weight>(v: FstV<W>, members: Seq<Member<W>>, k: int)
    requires
        0 <= k <= members.len(),
    ensures
        subset_final(v, members, k) == members_worth(members.take(k), |s: int| v.fin(s)),
    decreases k,
{
    let ends = |s: int| v.fin(s);
    if k > 0 {
        lemma_final_worth(v, members, k - 1);
        assert(members.take(k).drop_last() =~= members.take(k - 1));
        assert(members.take(k).last() == members[k - 1]);
        assert(ends(members[k - 1].state as int) == v.fin(members[k - 1].state as int));
    }
}

/// The arc that reads a label, with what its end is worth, is worth what the members are
/// worth by their arcs.
proof fn lemma_step_worth<W: Divide, D: CommonDivisor<W>>(
    m: DeterminizeModel<W, D>,
    key: List<Member<W>>,
    j: int,
    after: spec_fn(int) -> W,
)
    requires
        is_semiring::<W>(),
        0 <= j < group_steps(m, subset_ways(m.v, key), 0).len(),
        forall|b: int, e: int| #[trigger]
            is_group(subset_ways(m.v, key), b, e) ==> leaves_exactly(
                m,
                subset_ways(m.v, key).subrange(b, e),
            ),
    ensures
        ({
            let step = group_steps(m, subset_ways(m.v, key), 0)[j];
            step.weight.spec_times(members_worth(sequence(step.to), after)) == ways_worth(
                subset_ways(m.v, key),
                step.ilabel,
                after,
            )
        }),
{
    let members = sequence(key);
    let from = subset_transitions(m.v, members, members.len() as int);
    let all = subset_ways(m.v, key);
    let steps = group_steps(m, all, 0);
    law_ranked(from);
    lemma_group_steps(m, all, 0);
    let step = steps[j];
    assert(from_group(m, all, 0, step));
    let (b, e) = choose|b: int, e: int|
        0 <= b && #[trigger] is_group(all, b, e) && step == group_step(m, all.subrange(b, e));
    let group = all.subrange(b, e);
    let n = group.len() as int;
    assert(group[0] == all[b]);
    let label = step.ilabel;
    let taken = common_divisor(m.divisor, group, n);
    let kept = merged(group, n);
    let rest = remaining(kept, taken, m.delta);
    lemma_list_sequence(rest);
    assert(leaves_exactly(m, group));
    lemma_rest_worth(taken, rest, kept, after);
    assert forall|i: int| 0 <= i < n implies (#[trigger] group[i]).label == label by {
        assert(group[i] == all[b + i]);
    }
    lemma_merged_worth(group, n, label, after);
    assert(group.take(n) =~= group);
    let front = all.subrange(0, b);
    let back = all.subrange(e, all.len() as int);
    assert forall|i: int| 0 <= i < front.len() implies (#[trigger] front[i]).label != label by {
        assert(front[i] == all[i]);
        if all[i].label == label {
            lemma_group_holds_label(all, b, e, i);
        }
    }
    assert forall|i: int| 0 <= i < back.len() implies (#[trigger] back[i]).label != label by {
        assert(back[i] == all[e + i]);
        if all[e + i].label == label {
            lemma_group_holds_label(all, b, e, e + i);
        }
    }
    lemma_no_ways(front, label, after);
    lemma_no_ways(back, label, after);
    assert(all =~= (front + group) + back);
    lemma_ways_join(front, group, label, after);
    lemma_ways_join(front + group, back, label, after);
    let x = ways_worth(group, label, after);
    lemma_plus(x, x, x);
}

/// Whether, wherever the result has come to, what an arc takes and what it leaves make up
/// what there was, all of it in the semiring.
pub open spec fn divides_throughout<W: Divide, D: CommonDivisor<W>>(
    m: DeterminizeModel<W, D>,
    table: Seq<List<Member<W>>>,
) -> bool {
    &&& forall|q: int| 0 <= q < table.len() ==> are_owed(sequence(#[trigger] table[q]))
    &&& forall|q: int, b: int, e: int|
        0 <= q < table.len() && #[trigger] is_group(subset_ways(m.v, table[q]), b, e)
            ==> leaves_exactly(m, subset_ways(m.v, table[q]).subrange(b, e))
}

/// The result weighs each string, from each of its states, what the states of the input
/// that it stands for weigh it, each with the weight it is still owed.
pub proof fn law_subsets_weigh_what_they_stand_for<W: Divide, D: CommonDivisor<W>>(
    m: DeterminizeModel<W, D>,
    table: Seq<List<Member<W>>>,
    r: FstV<W>,
    string: Seq<i32>,
    q: int,
)
    requires
        is_semiring::<W>(),
        m.v.start is Some,
        is_unfolding::<W, List<Member<W>>, Determinizing<W, D>>(
            m,
            start_subset(m.v.start->0),
            true,
            table,
            r.states,
        ),
        divides_throughout(m, table),
        0 <= q < r.n(),
    ensures
        (worth(r, string))(q) == members_worth(sequence(table[q]), worth(m.v, string)),
    decreases string.len(),
{
    let key = table[q];
    let members = sequence(key);
    let n = members.len() as int;
    assert(members.take(n) =~= members);
    assert(unfolds::<W, List<Member<W>>, Determinizing<W, D>>(m, key, r.states[q], table));
    if string.len() == 0 {
        lemma_final_worth(m.v, members, n);
    } else {
        let label = string[0];
        let rest = string.drop_first();
        let after = worth(m.v, rest);
        let later = worth(r, rest);
        let all = subset_ways(m.v, key);
        let from = subset_transitions(m.v, members, n);
        let steps = group_steps(m, all, 0);
        let arcs = r.arcs(q);
        law_ranked(from);
        lemma_order_is_nothing(all, from, label, after);
        lemma_subset_worth(m.v, members, n, label, after);
        assert(worth(m.v, string) =~= |s: int|
            arcs_worth(m.v.arcs(s), label, after, m.v.arcs(s).len() as int));
        assert((worth(r, string))(q) == arcs_worth(arcs, label, later, arcs.len() as int));
        assert forall|i: int| 0 <= i < arcs.len() implies (#[trigger] arcs[i]).ilabel
            == steps[i].ilabel && arcs[i].weight == steps[i].weight && arcs[i].nextstate
            < table.len() && table[arcs[i].nextstate as int] == steps[i].to by {
            assert(numbered(steps[i], r.states[q].arcs[i], table));
        }
        if exists|j: int| 0 <= j < arcs.len() && (#[trigger] arcs[j]).ilabel == label {
            let j = choose|j: int| 0 <= j < arcs.len() && (#[trigger] arcs[j]).ilabel == label;
            assert forall|i: int| 0 <= i < arcs.len() && i != j implies (#[trigger] arcs[i]).ilabel
                != label by {
                if i < j {
                    lemma_labels_ascend(m, all, 0, i, j);
                } else {
                    lemma_labels_ascend(m, all, 0, j, i);
                }
            }
            lemma_one_arc_worth(arcs, label, later, arcs.len() as int, j);
            let y = arcs[j].nextstate as int;
            law_subsets_weigh_what_they_stand_for(m, table, r, rest, y);
            lemma_step_worth(m, key, j, after);
        } else {
            lemma_no_arc_worth(arcs, label, later, arcs.len() as int);
            assert forall|i: int| 0 <= i < from.len() implies (#[trigger] from[i]).label
                != label by {
                if from[i].label == label {
                    let t = from[i].to as int;
                    assert(has_way(from, label, t));
                    lemma_subset_ways(m.v, members, n, label, t);
                    let j = law_every_label_has_a_step(m, key, label, t);
                    assert(arcs[j].ilabel == label);
                }
            }
            lemma_no_ways(from, label, after);
        }
    }
}

/// Determinizing changes the weight of no string: the result weighs each what the input
/// weighs it, over a semiring, as far as division leaves exactly what there was.
pub proof fn law_determinized_weighs_the_same<W: Divide, D: CommonDivisor<W>>(
    m: DeterminizeModel<W, D>,
    table: Seq<List<Member<W>>>,
    r: FstV<W>,
    string: Seq<i32>,
)
    requires
        is_semiring::<W>(),
        m.v.start is Some,
        is_unfolding::<W, List<Member<W>>, Determinizing<W, D>>(
            m,
            start_subset(m.v.start->0),
            true,
            table,
            r.states,
        ),
        divides_throughout(m, table),
    ensures
        (worth(r, string))(0) == (worth(m.v, string))(m.v.start->0 as int),
{
    law_subsets_weigh_what_they_stand_for(m, table, r, string, 0);
    let only = seq![Member { state: m.v.start->0, weight: W::spec_one() }];
    lemma_list_sequence(only);
    assert(sequence(table[0]) == only);
    let x = (worth(m.v, string))(m.v.start->0 as int);
    let after = worth(m.v, string);
    assert(only.last().state == m.v.start->0);
    assert(only.drop_last().len() == 0);
    assert(members_worth(only.drop_last(), after) == W::spec_zero());
    assert(members_worth(only, after) == W::spec_zero().spec_plus(W::spec_one().spec_times(x)));
    lemma_times(x, x, x);
    lemma_plus(x, x, x);
}

} // verus!
