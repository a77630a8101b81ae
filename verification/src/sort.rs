//! Putting values in order.
use vstd::prelude::*;

verus! {

/// Whether one rank comes before another: by the first number, then by the second,
/// then by the third.
pub open spec fn lower(a: (int, int, int), b: (int, int, int)) -> bool {
    a.0 < b.0 || (a.0 == b.0 && (a.1 < b.1 || (a.1 == b.1 && a.2 < b.2)))
}

/// A value that has a rank.
pub trait Ranked: Sized {
    /// The rank.
    spec fn rank(self) -> (int, int, int);

    /// Whether the value comes before `other`.
    fn before(&self, other: &Self) -> (b: bool)
        ensures
            b == lower(self.rank(), other.rank()),
    ;
}

/// Where a value goes among the first `at` of some: after all that it does not come
/// before.
pub open spec fn place<T: Ranked>(sorted: Seq<T>, value: T, at: int) -> int
    decreases at,
{
    if at > 0 && lower(value.rank(), sorted[at - 1].rank()) {
        place(sorted, value, at - 1)
    } else {
        at
    }
}

/// The first `k` values, put in order one after the other.
pub open spec fn first_in_order<T: Ranked>(values: Seq<T>, k: int) -> Seq<T>
    decreases k,
{
    if k <= 0 {
        Seq::empty()
    } else {
        let sorted = first_in_order(values, k - 1);
        sorted.insert(place(sorted, values[k - 1], sorted.len() as int), values[k - 1])
    }
}

/// The values in order; those of one rank stay as they were.
pub open spec fn ranked<T: Ranked>(values: Seq<T>) -> Seq<T> {
    first_in_order(values, values.len() as int)
}

/// Whether no value comes before one that stands in front of it.
pub open spec fn is_ranked<T: Ranked>(values: Seq<T>) -> bool {
    forall|i: int, j: int|
        0 <= i < j < values.len() ==> !lower(
            (#[trigger] values[j]).rank(),
            (#[trigger] values[i]).rank(),
        )
}

proof fn lemma_place<T: Ranked>(sorted: Seq<T>, value: T, at: int)
    requires
        0 <= at <= sorted.len(),
        is_ranked(sorted),
        forall|i: int| at <= i < sorted.len() ==> lower(value.rank(), (#[trigger] sorted[i]).rank()),
    ensures
        0 <= place(sorted, value, at) <= at,
        is_ranked(sorted.insert(place(sorted, value, at), value)),
    decreases at,
{
    if at > 0 && lower(value.rank(), sorted[at - 1].rank()) {
        lemma_place(sorted, value, at - 1);
    } else {
        let with = sorted.insert(at, value);
        assert forall|i: int, j: int| 0 <= i < j < with.len() implies !lower(
            (#[trigger] with[j]).rank(),
            (#[trigger] with[i]).rank(),
        ) by {
            if j == at {
                assert(with[i] == sorted[i]);
                assert(at > 0);
                if i < at - 1 {
                    assert(!lower(sorted[at - 1].rank(), sorted[i].rank()));
                }
            } else if i == at {
                assert(with[j] == sorted[j - 1]);
            } else {
                let a = if i < at { i } else { i - 1 };
                let b = if j < at { j } else { j - 1 };
                assert(with[i] == sorted[a]);
                assert(with[j] == sorted[b]);
            }
        }
    }
}

proof fn lemma_first_in_order<T: Ranked>(values: Seq<T>, k: int)
    requires
        0 <= k <= values.len(),
    ensures
        first_in_order(values, k).len() == k,
        is_ranked(first_in_order(values, k)),
        first_in_order(values, k).to_multiset() == values.take(k).to_multiset(),
    decreases k,
{
    broadcast use vstd::seq_lib::group_to_multiset_ensures;

    if k > 0 {
        lemma_first_in_order(values, k - 1);
        let sorted = first_in_order(values, k - 1);
        let value = values[k - 1];
        lemma_place(sorted, value, sorted.len() as int);
        let at = place(sorted, value, sorted.len() as int);
        assert(values.take(k) =~= values.take(k - 1).push(value));
        let with = sorted.insert(at, value);
        assert(with.remove(at) =~= sorted);
        assert(with[at] == value);
        assert(with.to_multiset() =~= sorted.to_multiset().insert(value));
    } else {
        assert(values.take(0) =~= first_in_order(values, 0));
    }
}

/// Putting values in order keeps them all, and puts them in order.
pub proof fn law_ranked<T: Ranked>(values: Seq<T>)
    ensures
        ranked(values).len() == values.len(),
        is_ranked(ranked(values)),
        ranked(values).to_multiset() == values.to_multiset(),
{
    lemma_first_in_order(values, values.len() as int);
    assert(values.take(values.len() as int) =~= values);
}

/// What is there in order was there before.
pub proof fn lemma_ranked_from<T: Ranked>(values: Seq<T>, i: int) -> (j: int)
    requires
        0 <= i < values.len(),
    ensures
        0 <= j < values.len(),
        ranked(values)[i] == values[j],
{
    broadcast use vstd::seq_lib::group_to_multiset_ensures;

    law_ranked(values);
    let x = ranked(values)[i];
    assert(ranked(values).contains(x));
    assert(ranked(values).to_multiset().count(x) > 0);
    assert(values.contains(x));
    choose|j: int| 0 <= j < values.len() && values[j] == x
}

/// What was there is there in order.
pub proof fn lemma_ranked_to<T: Ranked>(values: Seq<T>, j: int) -> (i: int)
    requires
        0 <= j < values.len(),
    ensures
        0 <= i < values.len(),
        ranked(values)[i] == values[j],
{
    broadcast use vstd::seq_lib::group_to_multiset_ensures;

    law_ranked(values);
    let x = values[j];
    assert(values.contains(x));
    assert(values.to_multiset().count(x) > 0);
    assert(ranked(values).contains(x));
    choose|i: int| 0 <= i < values.len() && ranked(values)[i] == x
}

/// Puts the values in order; those of one rank stay as they were.
pub fn put_in_order<T: Ranked>(values: Vec<T>) -> (sorted: Vec<T>)
    ensures
        sorted@ == ranked(values@),
        sorted@.len() == values@.len(),
{
    let ghost all = values@;
    let mut left = values;
    let mut sorted: Vec<T> = Vec::new();
    let ghost mut k: int = 0;
    assert(all.skip(0) =~= all);
    while left.len() > 0
        invariant
            0 <= k <= all.len(),
            left@ == all.skip(k),
            sorted@ == first_in_order(all, k),
            sorted@.len() == k,
        decreases left@.len(),
    {
        let value = left.remove(0);
        let mut at: usize = sorted.len();
        while at > 0 && value.before(&sorted[at - 1])
            invariant
                at <= sorted@.len(),
                place(sorted@, value, at as int) == place(sorted@, value, sorted@.len() as int),
            decreases at,
        {
            at = at - 1;
        }
        sorted.insert(at, value);
        proof {
            k = k + 1;
            assert(left@ =~= all.skip(k));
        }
    }
    sorted
}

} // verus!
