//! Whether two machines are the same but for how their states are numbered and
//! their arcs are ordered.
use crate::arc::Arc;
use crate::error::OpenFstError;
use crate::hash_table::IndexMap;
use crate::vector_fst::{FstV, VectorFst};
use crate::weight::Weight;
use std::cmp::Ordering;
use vstd::prelude::*;

verus! {

/// How weights are ordered when they are not alike.
pub trait WeightCompare<W: Weight> {
    /// Whether `a` comes before `b`.
    spec fn before(&self, a: W, b: W) -> bool;

    /// How the two are ordered.
    fn compare(&self, a: &W, b: &W) -> (order: Ordering)
        ensures
            order is Less <==> self.before(*a, *b),
    ;
}

/// A weight with an order of its own.
pub trait OrderedWeight: Weight {
    /// Whether the value comes before the other.
    spec fn spec_less(self, other: Self) -> bool;

    /// Whether the value comes before the other.
    fn less(&self, other: &Self) -> (b: bool)
        ensures
            b == self.spec_less(*other),
    ;
}

/// The order that weights have of their own.
pub struct OwnOrder;

impl<W: OrderedWeight> WeightCompare<W> for OwnOrder {
    open spec fn before(&self, a: W, b: W) -> bool {
        a.spec_less(b)
    }

    fn compare(&self, a: &W, b: &W) -> (order: Ordering) {
        if a.less(b) {
            Ordering::Less
        } else if b.less(a) {
            Ordering::Greater
        } else {
            Ordering::Equal
        }
    }
}

/// Whether one arc goes before another: by the labels, then by the weight, and
/// where the weights are alike by where the arcs lead.
pub open spec fn arc_before<W: Weight, C: WeightCompare<W>>(
    comp: C,
    delta: W::Delta,
    a: Arc<W>,
    b: Arc<W>,
) -> bool {
    if a.ilabel != b.ilabel {
        a.ilabel < b.ilabel
    } else if a.olabel != b.olabel {
        a.olabel < b.olabel
    } else if a.weight.spec_approx(b.weight, delta) {
        a.nextstate < b.nextstate
    } else {
        comp.before(a.weight, b.weight)
    }
}

fn weight_goes_first<W: Weight, C: WeightCompare<W>>(comp: &C, a: &W, b: &W) -> (less: bool)
    ensures
        less == comp.before(*a, *b),
{
    match comp.compare(a, b) {
        Ordering::Less => true,
        _ => false,
    }
}

/// Whether one arc goes before another.
fn goes_first<W: Weight, C: WeightCompare<W>>(
    comp: &C,
    delta: &W::Delta,
    a: &Arc<W>,
    b: &Arc<W>,
) -> (less: bool)
    ensures
        less == arc_before(*comp, *delta, *a, *b),
{
    if a.ilabel != b.ilabel {
        a.ilabel < b.ilabel
    } else if a.olabel != b.olabel {
        a.olabel < b.olabel
    } else if a.weight.approx_equal(&b.weight, delta) {
        a.nextstate < b.nextstate
    } else {
        weight_goes_first(comp, &a.weight, &b.weight)
    }
}

/// Where among the first `k` of `sorted` an arc goes: behind all that it does not
/// go before.
pub open spec fn slot<W: Weight, C: WeightCompare<W>>(
    comp: C,
    delta: W::Delta,
    sorted: Seq<Arc<W>>,
    arc: Arc<W>,
    k: int,
) -> int
    decreases k,
{
    if k > 0 && arc_before(comp, delta, arc, sorted[k - 1]) {
        slot(comp, delta, sorted, arc, k - 1)
    } else {
        k
    }
}

/// The first `k` arcs, put in order one after the other.
pub open spec fn ordered<W: Weight, C: WeightCompare<W>>(
    comp: C,
    delta: W::Delta,
    arcs: Seq<Arc<W>>,
    k: int,
) -> Seq<Arc<W>>
    decreases k,
{
    if k <= 0 {
        Seq::empty()
    } else {
        let sorted = ordered(comp, delta, arcs, k - 1);
        sorted.insert(slot(comp, delta, sorted, arcs[k - 1], sorted.len() as int), arcs[k - 1])
    }
}

/// Putting arcs in order keeps them all.
pub proof fn law_ordering_permutes<W: Weight, C: WeightCompare<W>>(
    comp: C,
    delta: W::Delta,
    arcs: Seq<Arc<W>>,
    k: int,
)
    requires
        0 <= k <= arcs.len(),
    ensures
        ordered(comp, delta, arcs, k).len() == k,
        ordered(comp, delta, arcs, k).to_multiset() == arcs.take(k).to_multiset(),
    decreases k,
{
    broadcast use vstd::seq_lib::group_to_multiset_ensures;

    if k > 0 {
        law_ordering_permutes(comp, delta, arcs, k - 1);
        let sorted = ordered(comp, delta, arcs, k - 1);
        lemma_slot(comp, delta, sorted, arcs[k - 1], sorted.len() as int);
        let at = slot(comp, delta, sorted, arcs[k - 1], sorted.len() as int);
        assert(arcs.take(k) =~= arcs.take(k - 1).push(arcs[k - 1]));
        let with = sorted.insert(at, arcs[k - 1]);
        assert(with.remove(at) =~= sorted);
        assert(with[at] == arcs[k - 1]);
        assert(with.contains(arcs[k - 1]));
        assert(with.to_multiset() =~= sorted.to_multiset().insert(arcs[k - 1]));
    } else {
        assert(arcs.take(0) =~= Seq::empty());
    }
}

proof fn lemma_slot<W: Weight, C: WeightCompare<W>>(
    comp: C,
    delta: W::Delta,
    sorted: Seq<Arc<W>>,
    arc: Arc<W>,
    k: int,
)
    requires
        0 <= k,
    ensures
        0 <= slot(comp, delta, sorted, arc, k) <= k,
    decreases k,
{
    if k > 0 && arc_before(comp, delta, arc, sorted[k - 1]) {
        lemma_slot(comp, delta, sorted, arc, k - 1);
    }
}

/// The arcs, put in order.
pub open spec fn in_arc_order<W: Weight, C: WeightCompare<W>>(
    comp: C,
    delta: W::Delta,
    arcs: Seq<Arc<W>>,
) -> Seq<Arc<W>> {
    ordered(comp, delta, arcs, arcs.len() as int)
}

/// The arcs, put in order.
fn put_in_order<W: Weight, C: WeightCompare<W>>(
    comp: &C,
    delta: &W::Delta,
    arcs: &Vec<Arc<W>>,
) -> (sorted: Vec<Arc<W>>)
    ensures
        sorted@ == in_arc_order(*comp, *delta, arcs@),
        sorted@.len() == arcs@.len(),
{
    let mut sorted: Vec<Arc<W>> = Vec::new();
    let mut k: usize = 0;
    while k < arcs.len()
        invariant
            k <= arcs@.len(),
            sorted@.len() == k,
            sorted@ == ordered(*comp, *delta, arcs@, k as int),
        decreases arcs@.len() - k,
    {
        let arc = &arcs[k];
        let mut at: usize = sorted.len();
        while at > 0 && goes_first(comp, delta, arc, &sorted[at - 1])
            invariant
                at <= sorted@.len(),
                slot(*comp, *delta, sorted@, *arc, at as int) == slot(
                    *comp,
                    *delta,
                    sorted@,
                    *arc,
                    sorted@.len() as int,
                ),
            decreases at,
        {
            at = at - 1;
        }
        sorted.insert(at, arc.duplicate());
        k = k + 1;
    }
    sorted
}

/// Whether two arcs agree in all but where they lead.
pub open spec fn arcs_alike<W: Weight>(delta: W::Delta, a: Arc<W>, b: Arc<W>) -> bool {
    a.ilabel == b.ilabel && a.olabel == b.olabel && a.weight.spec_approx(b.weight, delta)
}

/// Whether the `i`th arcs of two states, put in order, agree and lead to states
/// that `pairs` holds.
pub open spec fn arcs_pair<W: Weight>(
    delta: W::Delta,
    arcs1: Seq<Arc<W>>,
    arcs2: Seq<Arc<W>>,
    pairs: Set<(usize, usize)>,
    i: int,
) -> bool {
    &&& arcs_alike(delta, arcs1[i], arcs2[i])
    &&& pairs.contains((arcs1[i].nextstate, arcs2[i].nextstate))
}

/// Whether two states agree: in what a path that ends there takes on, and in their
/// arcs, put in order.
pub open spec fn states_pair<W: Weight, C: WeightCompare<W>>(
    comp: C,
    delta: W::Delta,
    v1: FstV<W>,
    v2: FstV<W>,
    pairs: Set<(usize, usize)>,
    pair: (usize, usize),
) -> bool {
    let arcs1 = in_arc_order(comp, delta, v1.arcs(pair.0 as int));
    let arcs2 = in_arc_order(comp, delta, v2.arcs(pair.1 as int));
    &&& v1.fin(pair.0 as int).spec_approx(v2.fin(pair.1 as int), delta)
    &&& v1.arcs(pair.0 as int).len() == v2.arcs(pair.1 as int).len()
    &&& forall|i: int| 0 <= i < arcs1.len() ==> #[trigger] arcs_pair(delta, arcs1, arcs2, pairs, i)
}

/// Whether `pairs` matches states one to one.
pub open spec fn one_to_one(pairs: Set<(usize, usize)>) -> bool {
    forall|p: (usize, usize), q: (usize, usize)| #[trigger]
        pairs.contains(p) && #[trigger] pairs.contains(q) ==> (p.0 == q.0 <==> p.1 == q.1)
}

/// Whether `pairs` matches the states of two machines one to one, from the starts
/// on, such that matched states agree.
pub open spec fn is_matching<W: Weight, C: WeightCompare<W>>(
    comp: C,
    delta: W::Delta,
    v1: FstV<W>,
    v2: FstV<W>,
    pairs: Set<(usize, usize)>,
) -> bool {
    &&& pairs.contains((v1.start->0, v2.start->0))
    &&& one_to_one(pairs)
    &&& forall|p: (usize, usize)| #[trigger]
        pairs.contains(p) ==> states_pair(comp, delta, v1, v2, pairs, p)
}

/// Whether two machines are the same but for how their states are numbered and
/// their arcs are ordered, as far as their starts lead.
pub open spec fn are_isomorphic<W: Weight, C: WeightCompare<W>>(
    comp: C,
    delta: W::Delta,
    v1: FstV<W>,
    v2: FstV<W>,
) -> bool {
    match (v1.start, v2.start) {
        (None, None) => true,
        (Some(_), Some(_)) => exists|pairs: Set<(usize, usize)>| #[trigger]
            is_matching(comp, delta, v1, v2, pairs),
        _ => false,
    }
}

/// Whether a state has two arcs that agree in all but where they lead, so that
/// which of them to match with which is a guess.
pub open spec fn is_ambiguous<W: Weight, C: WeightCompare<W>>(
    comp: C,
    delta: W::Delta,
    arcs: Seq<Arc<W>>,
) -> bool {
    let sorted = in_arc_order(comp, delta, arcs);
    exists|i: int| 0 < i < sorted.len() && #[trigger] agrees_with_last(delta, sorted, i)
}

/// Whether an arc agrees with the one before it in all but where they lead.
pub open spec fn agrees_with_last<W: Weight>(
    delta: W::Delta,
    sorted: Seq<Arc<W>>,
    i: int,
) -> bool {
    arcs_alike(delta, sorted[i], sorted[i - 1])
}

/// Whether some state of a machine is ambiguous.
pub open spec fn has_ambiguous<W: Weight, C: WeightCompare<W>>(
    comp: C,
    delta: W::Delta,
    v: FstV<W>,
) -> bool {
    exists|s: int| 0 <= s < v.n() && #[trigger] is_ambiguous(comp, delta, v.arcs(s))
}

struct Isomorphism<'a, W: Weight, C> {
    fst1: &'a VectorFst<W>,
    fst2: &'a VectorFst<W>,
    delta: &'a W::Delta,
    comp: &'a C,
    paired: IndexMap,
    back: IndexMap,
    queue: Vec<(usize, usize)>,
    nondet: bool,
}

spec fn queued(queue: Seq<(usize, usize)>) -> Set<(usize, usize)> {
    Set::new(|p: (usize, usize)| queue.contains(p))
}

impl<'a, W: Weight, C: WeightCompare<W>> Isomorphism<'a, W, C> {
    spec fn wf(&self) -> bool {
        &&& self.fst1@.wf()
        &&& self.fst2@.wf()
        &&& forall|i: int|
            0 <= i < self.queue@.len() ==> {
                let p = #[trigger] self.queue@[i];
                &&& p.0 < self.fst1@.n()
                &&& p.1 < self.fst2@.n()
                &&& self.paired.has(p.0)
                &&& self.paired.at(p.0) == p.1
                &&& self.back.has(p.1)
                &&& self.back.at(p.1) == p.0
            }
        &&& forall|s: usize| #[trigger]
            self.paired.has(s) ==> self.queue@.contains((s, self.paired.at(s)))
        &&& forall|s: usize| #[trigger]
            self.back.has(s) ==> self.queue@.contains((self.back.at(s), s))
        &&& self.nondet ==> has_ambiguous(*self.comp, *self.delta, self.fst1@)
    }

    spec fn same_task(&self, other: &Self) -> bool {
        self.fst1 == other.fst1 && self.fst2 == other.fst2 && self.delta == other.delta
            && self.comp == other.comp
    }

    /// Whether every pair found so far is in each matching there is.
    spec fn forced(&self) -> bool {
        forall|pairs: Set<(usize, usize)>| #[trigger]
            is_matching(*self.comp, *self.delta, self.fst1@, self.fst2@, pairs) ==> queued(
                self.queue@,
            ).subset_of(pairs)
    }

    /// How far the search has come.
    spec fn search(&self) -> Search {
        Search { queue: self.queue@, nondet: self.nondet }
    }

    /// Pairs two states, unless one of them is paired with another already.
    fn pair_state(&mut self, s1: usize, s2: usize) -> (ok: bool)
        requires
            old(self).wf(),
            old(self).forced(),
            s1 < old(self).fst1@.n(),
            s2 < old(self).fst2@.n(),
            forall|pairs: Set<(usize, usize)>| #[trigger]
                is_matching(
                    *old(self).comp,
                    *old(self).delta,
                    old(self).fst1@,
                    old(self).fst2@,
                    pairs,
                ) ==> pairs.contains((s1, s2)),
        ensures
            final(self).wf(),
            final(self).forced(),
            final(self).same_task(old(self)),
            (ok, final(self).search()) == paired_in_search(old(self).search(), (s1, s2)),
            old(self).queue@.len() <= final(self).queue@.len(),
            forall|i: int|
                0 <= i < old(self).queue@.len() ==> final(self).queue@[i] == old(self).queue@[i],
            ok ==> final(self).queue@.contains((s1, s2)),
            !old(self).paired.has(s1) && !old(self).back.has(s2) ==> ok,
            !ok ==> forall|pairs: Set<(usize, usize)>| !#[trigger]
                is_matching(
                    *old(self).comp,
                    *old(self).delta,
                    old(self).fst1@,
                    old(self).fst2@,
                    pairs,
                ),
    {
        let there = self.paired.get(s1);
        if let Some(existing) = there {
            proof {
                assert(self.queue@.contains((s1, existing)));
                let i = choose|i: int|
                    0 <= i < self.queue@.len() && self.queue@[i] == (s1, existing);
                assert(self.queue@[i].0 == s1);
                if self.queue@.contains((s1, s2)) {
                    let j = choose|j: int| 0 <= j < self.queue@.len() && self.queue@[j] == (s1, s2);
                    assert(self.paired.at(self.queue@[j].0) == s2);
                }
                if existing != s2 {
                    assert forall|pairs: Set<(usize, usize)>| !#[trigger]
                        is_matching(
                            *self.comp,
                            *self.delta,
                            self.fst1@,
                            self.fst2@,
                            pairs,
                        ) by {
                        if is_matching(*self.comp, *self.delta, self.fst1@, self.fst2@, pairs) {
                            assert(queued(self.queue@).contains((s1, existing)));
                            assert(pairs.contains((s1, existing)));
                            assert(pairs.contains((s1, s2)));
                        }
                    }
                }
            }
            // Either this pair has been seen, or the first state is paired with
            // another.
            return existing == s2;
        }
        assert(forall|i: int| 0 <= i < self.queue@.len() ==> (#[trigger] self.queue@[i]).0 != s1);
        if let Some(existing) = self.back.get(s2) {
            proof {
                let i = choose|i: int|
                    0 <= i < self.queue@.len() && self.queue@[i] == (existing, s2);
                assert(self.queue@.contains((existing, s2)));
                assert(self.queue@[i].1 == s2);
                assert(existing != s1) by {
                    assert(self.queue@.contains((existing, s2)));
                }
                assert forall|pairs: Set<(usize, usize)>| !#[trigger]
                    is_matching(*self.comp, *self.delta, self.fst1@, self.fst2@, pairs) by {
                    if is_matching(*self.comp, *self.delta, self.fst1@, self.fst2@, pairs) {
                        assert(queued(self.queue@).contains((existing, s2)));
                        assert(pairs.contains((existing, s2)));
                        assert(pairs.contains((s1, s2)));
                    }
                }
            }
            return false;
        }
        assert(forall|i: int| 0 <= i < self.queue@.len() ==> (#[trigger] self.queue@[i]).1 != s2);
        let ghost before = self.queue@;
        self.paired.insert(s1, s2);
        self.back.insert(s2, s1);
        self.queue.push((s1, s2));
        proof {
            let n = before.len() as int;
            assert(self.queue@ =~= before.push((s1, s2)));
            assert(self.queue@[n] == (s1, s2));
            assert forall|i: int| 0 <= i < self.queue@.len() implies {
                let p = #[trigger] self.queue@[i];
                &&& p.0 < self.fst1@.n()
                &&& p.1 < self.fst2@.n()
                &&& self.paired.has(p.0)
                &&& self.paired.at(p.0) == p.1
                &&& self.back.has(p.1)
                &&& self.back.at(p.1) == p.0
            } by {
                if i < n {
                    assert(self.queue@[i] == before[i]);
                }
            }
            assert forall|s: usize| #[trigger] self.paired.has(s) implies self.queue@.contains(
                (s, self.paired.at(s)),
            ) by {
                if s != s1 {
                    let p = (s, self.paired.at(s));
                    assert(before.contains(p));
                    let i = choose|i: int| 0 <= i < before.len() && before[i] == p;
                    assert(self.queue@[i] == p);
                }
            }
            assert forall|s: usize| #[trigger] self.back.has(s) implies self.queue@.contains(
                (self.back.at(s), s),
            ) by {
                if s != s2 {
                    let p = (self.back.at(s), s);
                    assert(before.contains(p));
                    let i = choose|i: int| 0 <= i < before.len() && before[i] == p;
                    assert(self.queue@[i] == p);
                }
            }
            assert forall|pairs: Set<(usize, usize)>| #[trigger]
                is_matching(
                    *self.comp,
                    *self.delta,
                    self.fst1@,
                    self.fst2@,
                    pairs,
                ) implies queued(self.queue@).subset_of(pairs) by {
                assert(queued(before).subset_of(pairs));
                assert forall|p: (usize, usize)| #[trigger]
                    queued(self.queue@).contains(p) implies pairs.contains(p) by {
                    let i = choose|i: int| 0 <= i < self.queue@.len() && self.queue@[i] == p;
                    if i < n {
                        assert(before[i] == p);
                        assert(queued(before).contains(p));
                    }
                }
            }
        }
        true
    }

    /// Whether the two states of a pair agree. The states that their arcs lead to
    /// are paired on the way.
    fn is_isomorphic_state(&mut self, s1: usize, s2: usize) -> (ok: bool)
        requires
            old(self).wf(),
            old(self).forced(),
            old(self).queue@.contains((s1, s2)),
            s1 < old(self).fst1@.n(),
            s2 < old(self).fst2@.n(),
        ensures
            final(self).wf(),
            final(self).forced(),
            final(self).same_task(old(self)),
            (ok, final(self).search()) == matched_states(
                *old(self).comp,
                *old(self).delta,
                old(self).fst1@,
                old(self).fst2@,
                old(self).search(),
                (s1, s2),
            ),
            old(self).queue@.len() <= final(self).queue@.len(),
            forall|i: int|
                0 <= i < old(self).queue@.len() ==> final(self).queue@[i] == old(self).queue@[i],
            ok ==> states_pair(
                *old(self).comp,
                *old(self).delta,
                old(self).fst1@,
                old(self).fst2@,
                queued(final(self).queue@),
                (s1, s2),
            ),
            !ok ==> forall|pairs: Set<(usize, usize)>| !#[trigger]
                is_matching(
                    *old(self).comp,
                    *old(self).delta,
                    old(self).fst1@,
                    old(self).fst2@,
                    pairs,
                ),
    {
        let ghost comp = *self.comp;
        let ghost delta = *self.delta;
        let ghost v1 = self.fst1@;
        let ghost v2 = self.fst2@;
        proof {
            assert forall|pairs: Set<(usize, usize)>| #[trigger]
                is_matching(comp, delta, v1, v2, pairs) implies states_pair(
                comp,
                delta,
                v1,
                v2,
                pairs,
                (s1, s2),
            ) by {
                assert(queued(self.queue@).contains((s1, s2)));
            }
        }
        let final1 = self.fst1.final_weight(s1);
        let final2 = self.fst2.final_weight(s2);
        if !final1.approx_equal(&final2, self.delta) {
            return false;
        }
        if self.fst1.num_arcs(s1) != self.fst2.num_arcs(s2) {
            return false;
        }
        // Orders arcs for equality checking.
        let arcs1 = put_in_order(self.comp, self.delta, self.fst1.arcs(s1));
        let arcs2 = put_in_order(self.comp, self.delta, self.fst2.arcs(s2));
        let mut i: usize = 0;
        while i < arcs1.len()
            invariant
                i <= arcs1@.len(),
                arcs1@.len() == arcs2@.len(),
                self.wf(),
                self.forced(),
                self.same_task(old(self)),
                comp == *self.comp,
                delta == *self.delta,
                v1 == self.fst1@,
                v2 == self.fst2@,
                s1 < v1.n(),
                s2 < v2.n(),
                arcs1@ == in_arc_order(comp, delta, v1.arcs(s1 as int)),
                arcs2@ == in_arc_order(comp, delta, v2.arcs(s2 as int)),
                arcs1@.len() == v1.arcs(s1 as int).len(),
                arcs2@.len() == v2.arcs(s2 as int).len(),
                (true, self.search()) == matched_arcs(
                    delta,
                    arcs1@,
                    arcs2@,
                    old(self).search(),
                    i as int,
                ),
                matched_states(comp, delta, v1, v2, old(self).search(), (s1, s2)) == matched_arcs(
                    delta,
                    arcs1@,
                    arcs2@,
                    old(self).search(),
                    arcs1@.len() as int,
                ),
                old(self).queue@.len() <= self.queue@.len(),
                forall|k: int|
                    0 <= k < old(self).queue@.len() ==> self.queue@[k] == old(self).queue@[k],
                forall|pairs: Set<(usize, usize)>| #[trigger]
                    is_matching(comp, delta, v1, v2, pairs) ==> states_pair(
                        comp,
                        delta,
                        v1,
                        v2,
                        pairs,
                        (s1, s2),
                    ),
                forall|k: int|
                    0 <= k < i ==> #[trigger] arcs_pair(
                        delta,
                        arcs1@,
                        arcs2@,
                        queued(self.queue@),
                        k,
                    ),
            decreases arcs1@.len() - i,
        {
            let arc1 = &arcs1[i];
            let arc2 = &arcs2[i];
            proof {
                assert forall|pairs: Set<(usize, usize)>| #[trigger]
                    is_matching(comp, delta, v1, v2, pairs) implies arcs_pair(
                    delta,
                    arcs1@,
                    arcs2@,
                    pairs,
                    i as int,
                ) by {
                    assert(states_pair(comp, delta, v1, v2, pairs, (s1, s2)));
                }
            }
            if arc1.ilabel != arc2.ilabel || arc1.olabel != arc2.olabel
                || !arc1.weight.approx_equal(&arc2.weight, self.delta) {
                proof {
                    lemma_stays_failed(
                        delta,
                        arcs1@,
                        arcs2@,
                        old(self).search(),
                        i + 1,
                        arcs1@.len() as int,
                    );
                }
                return false;
            }
            proof {
                lemma_ordered_among(comp, delta, v1.arcs(s1 as int), i as int);
                lemma_ordered_among(comp, delta, v2.arcs(s2 as int), i as int);
                let j1 = choose|j: int|
                    0 <= j < v1.arcs(s1 as int).len() && v1.arcs(s1 as int)[j] == arcs1@[i as int];
                let j2 = choose|j: int|
                    0 <= j < v2.arcs(s2 as int).len() && v2.arcs(s2 as int)[j] == arcs2@[i as int];
                assert(v1.states[s1 as int].arcs[j1].nextstate < v1.n());
                assert(v2.states[s2 as int].arcs[j2].nextstate < v2.n());
                assert forall|pairs: Set<(usize, usize)>| #[trigger]
                    is_matching(comp, delta, v1, v2, pairs) implies pairs.contains(
                    (arc1.nextstate, arc2.nextstate),
                ) by {
                    assert(arcs_pair(delta, arcs1@, arcs2@, pairs, i as int));
                }
            }
            let ghost before = self.queue@;
            if !self.pair_state(arc1.nextstate, arc2.nextstate) {
                proof {
                    lemma_stays_failed(
                        delta,
                        arcs1@,
                        arcs2@,
                        old(self).search(),
                        i + 1,
                        arcs1@.len() as int,
                    );
                }
                return false;
            }
            proof {
                assert forall|k: int| 0 <= k < i + 1 implies #[trigger] arcs_pair(
                    delta,
                    arcs1@,
                    arcs2@,
                    queued(self.queue@),
                    k,
                ) by {
                    if k < i {
                        assert(arcs_pair(delta, arcs1@, arcs2@, queued(before), k));
                        let p = (arcs1@[k].nextstate, arcs2@[k].nextstate);
                        let j = choose|j: int| 0 <= j < before.len() && before[j] == p;
                        assert(self.queue@[j] == p);
                    }
                }
            }
            // Checks for non-determinism.
            if i > 0 {
                let arc0 = &arcs1[i - 1];
                if arc1.ilabel == arc0.ilabel && arc1.olabel == arc0.olabel
                    && arc1.weight.approx_equal(&arc0.weight, self.delta) {
                    assert(agrees_with_last(delta, arcs1@, i as int));
                    assert(is_ambiguous(comp, delta, v1.arcs(s1 as int)));
                    self.nondet = true;
                }
            }
            i = i + 1;
        }
        true
    }
}

proof fn lemma_ordered_among<W: Weight, C: WeightCompare<W>>(
    comp: C,
    delta: W::Delta,
    arcs: Seq<Arc<W>>,
    i: int,
)
    requires
        0 <= i < in_arc_order(comp, delta, arcs).len(),
    ensures
        exists|j: int| 0 <= j < arcs.len() && arcs[j] == in_arc_order(comp, delta, arcs)[i],
{
    broadcast use vstd::seq_lib::group_to_multiset_ensures;

    let sorted = in_arc_order(comp, delta, arcs);
    law_ordering_permutes(comp, delta, arcs, arcs.len() as int);
    assert(arcs.take(arcs.len() as int) =~= arcs);
    assert(sorted.contains(sorted[i]));
    assert(sorted.to_multiset().count(sorted[i]) > 0);
    assert(arcs.contains(sorted[i]));
}

/// How far a search for a matching has come: the pairs found, in the order they were
/// found in, and whether two arcs were met that do alike.
pub struct Search {
    /// The pairs found.
    pub queue: Seq<(usize, usize)>,
    /// Whether which of two like arcs to match with which was a guess.
    pub nondet: bool,
}

/// Pairs two states, unless one of them is paired with another already.
pub open spec fn paired_in_search(s: Search, p: (usize, usize)) -> (bool, Search) {
    if exists|i: int| 0 <= i < s.queue.len() && (#[trigger] s.queue[i]).0 == p.0 {
        (s.queue.contains(p), s)
    } else if exists|i: int| 0 <= i < s.queue.len() && (#[trigger] s.queue[i]).1 == p.1 {
        (false, s)
    } else {
        (true, Search { queue: s.queue.push(p), ..s })
    }
}

/// Whether the first `k` arcs of two states agree, one by one, and how far the search has
/// come by pairing the states that they lead to.
pub open spec fn matched_arcs<W: Weight>(
    delta: W::Delta,
    arcs1: Seq<Arc<W>>,
    arcs2: Seq<Arc<W>>,
    s: Search,
    k: int,
) -> (bool, Search)
    decreases k,
{
    if k <= 0 {
        (true, s)
    } else {
        let (ok, before) = matched_arcs(delta, arcs1, arcs2, s, k - 1);
        let a = arcs1[k - 1];
        let b = arcs2[k - 1];
        if !ok || a.ilabel != b.ilabel || a.olabel != b.olabel || !a.weight.spec_approx(
            b.weight,
            delta,
        ) {
            (false, before)
        } else {
            let (ok, after) = paired_in_search(before, (a.nextstate, b.nextstate));
            if !ok {
                (false, after)
            } else {
                (
                    true,
                    Search {
                        nondet: after.nondet || (k > 1 && agrees_with_last(delta, arcs1, k - 1)),
                        ..after
                    },
                )
            }
        }
    }
}

/// Whether the two states of a pair agree, and how far the search has come by pairing the
/// states that their arcs lead to.
pub open spec fn matched_states<W: Weight, C: WeightCompare<W>>(
    comp: C,
    delta: W::Delta,
    v1: FstV<W>,
    v2: FstV<W>,
    s: Search,
    p: (usize, usize),
) -> (bool, Search) {
    let a = v1.arcs(p.0 as int);
    let b = v2.arcs(p.1 as int);
    if !v1.fin(p.0 as int).spec_approx(v2.fin(p.1 as int), delta) || a.len() != b.len() {
        (false, s)
    } else {
        matched_arcs(
            delta,
            in_arc_order(comp, delta, a),
            in_arc_order(comp, delta, b),
            s,
            a.len() as int,
        )
    }
}

/// How far the search has come once the first `k` pairs found have been looked at, in the
/// order they were found in, or as many as there are or agree.
pub open spec fn searched<W: Weight, C: WeightCompare<W>>(
    comp: C,
    delta: W::Delta,
    v1: FstV<W>,
    v2: FstV<W>,
    k: nat,
) -> (bool, Search)
    decreases k,
{
    if k == 0 {
        (true, Search { queue: seq![(v1.start->0, v2.start->0)], nondet: false })
    } else {
        let (ok, before) = searched(comp, delta, v1, v2, (k - 1) as nat);
        if ok && k - 1 < before.queue.len() {
            matched_states(comp, delta, v1, v2, before, before.queue[k - 1])
        } else {
            (ok, before)
        }
    }
}

/// Whether the search meets two states that do not agree after it met two arcs that do
/// alike, so that having matched them otherwise might have been an answer.
pub open spec fn a_guess_fails<W: Weight, C: WeightCompare<W>>(
    comp: C,
    delta: W::Delta,
    v1: FstV<W>,
    v2: FstV<W>,
) -> bool {
    &&& v1.start is Some
    &&& v2.start is Some
    &&& exists|k: nat|
        {
            let (ok, s) = #[trigger] searched(comp, delta, v1, v2, k);
            !ok && s.nondet
        }
}

proof fn lemma_stays_failed<W: Weight>(
    delta: W::Delta,
    arcs1: Seq<Arc<W>>,
    arcs2: Seq<Arc<W>>,
    s: Search,
    k: int,
    n: int,
)
    requires
        0 < k <= n,
        !matched_arcs(delta, arcs1, arcs2, s, k).0,
    ensures
        matched_arcs(delta, arcs1, arcs2, s, n) == matched_arcs(delta, arcs1, arcs2, s, k),
    decreases n - k,
{
    if k < n {
        lemma_stays_failed(delta, arcs1, arcs2, s, k, n - 1);
    }
}

/// A search that has failed or has looked at all pairs comes no further; one that has not
/// failed has not failed before.
proof fn lemma_search_stays<W: Weight, C: WeightCompare<W>>(
    comp: C,
    delta: W::Delta,
    v1: FstV<W>,
    v2: FstV<W>,
    k: nat,
    n: nat,
)
    requires
        k <= n,
    ensures
        ({
            let (ok, s) = searched(comp, delta, v1, v2, k);
            !ok || k >= s.queue.len() ==> searched(comp, delta, v1, v2, n) == searched(
                comp,
                delta,
                v1,
                v2,
                k,
            )
        }),
        searched(comp, delta, v1, v2, n).0 ==> searched(comp, delta, v1, v2, k).0,
    decreases n - k,
{
    if k < n {
        lemma_search_stays(comp, delta, v1, v2, k, (n - 1) as nat);
    }
}

/// Tests whether two machines are isomorphic, ordering weights that are not alike
/// by `comp`.
///
/// The machines should be deterministic when viewed as unweighted automata. Where
/// they are not, which of two like arcs to match with which is a guess; a guess
/// that fails is an error, since the answer may still be yes.
pub fn isomorphic_with<W: Weight, C: WeightCompare<W>>(
    fst1: &VectorFst<W>,
    fst2: &VectorFst<W>,
    delta: &W::Delta,
    comp: &C,
) -> (result: Result<bool, OpenFstError>)
    requires
        fst1@.wf(),
        fst2@.wf(),
    ensures
        result == Ok::<bool, OpenFstError>(true) <==> are_isomorphic(
            *comp,
            *delta,
            fst1@,
            fst2@,
        ),
        result is Err <==> a_guess_fails(*comp, *delta, fst1@, fst2@),
        result matches Err(e) ==> e is InvalidOperation && has_ambiguous(*comp, *delta, fst1@),
{
    match (fst1.start(), fst2.start()) {
        (None, None) => Ok(true),
        (Some(s1), Some(s2)) => {
            let mut iso = Isomorphism {
                fst1,
                fst2,
                delta,
                comp,
                paired: IndexMap::new(),
                back: IndexMap::new(),
                queue: Vec::new(),
                nondet: false,
            };
            assert(iso.queue@ =~= Seq::empty());
            iso.pair_state(s1, s2);
            let ghost v1 = fst1@;
            let ghost v2 = fst2@;
            assert(iso.queue@ =~= seq![(s1, s2)]);
            let mut head: usize = 0;
            while head < iso.queue.len()
                invariant
                    iso.wf(),
                    iso.forced(),
                    iso.fst1 == fst1,
                    iso.fst2 == fst2,
                    iso.delta == delta,
                    iso.comp == comp,
                    v1 == fst1@,
                    v2 == fst2@,
                    v1.start is Some,
                    v2.start is Some,
                    head <= iso.queue@.len(),
                    (true, iso.search()) == searched(*comp, *delta, v1, v2, head as nat),
                    iso.queue@.contains((v1.start->0, v2.start->0)),
                    forall|k: int|
                        0 <= k < head ==> states_pair(
                            *comp,
                            *delta,
                            v1,
                            v2,
                            queued(iso.queue@),
                            #[trigger] iso.queue@[k],
                        ),
                decreases usize::MAX - head,
            {
                let (state1, state2): (usize, usize) = iso.queue[head];
                let ghost before = iso.queue@;
                assert(iso.queue@[head as int] == (state1, state2));
                assert(searched(*comp, *delta, v1, v2, (head + 1) as nat) == matched_states(
                    *comp,
                    *delta,
                    v1,
                    v2,
                    iso.search(),
                    (state1, state2),
                ));
                if !iso.is_isomorphic_state(state1, state2) {
                    proof {
                        assert forall|k: nat| !(#[trigger] searched(*comp, *delta, v1, v2, k)).0
                            implies searched(*comp, *delta, v1, v2, k) == searched(
                            *comp,
                            *delta,
                            v1,
                            v2,
                            (head + 1) as nat,
                        ) by {
                            if k <= head {
                                lemma_search_stays(*comp, *delta, v1, v2, k, head as nat);
                            } else {
                                lemma_search_stays(*comp, *delta, v1, v2, (head + 1) as nat, k);
                            }
                        }
                        assert(!searched(*comp, *delta, v1, v2, (head + 1) as nat).0);
                    }
                    if iso.nondet {
                        return Err(
                            OpenFstError::InvalidOperation(
                                "Isomorphic: Non-determinism as an unweighted automaton.",
                            ),
                        );
                    }
                    return Ok(false);
                }
                head = head + 1;
                proof {
                    let start = (v1.start->0, v2.start->0);
                    let i = choose|i: int| 0 <= i < before.len() && before[i] == start;
                    assert(iso.queue@[i] == start);
                    assert forall|k: int| 0 <= k < head implies states_pair(
                        *comp,
                        *delta,
                        v1,
                        v2,
                        queued(iso.queue@),
                        #[trigger] iso.queue@[k],
                    ) by {
                        assert(iso.queue@[k] == before[k]);
                        if k < head - 1 {
                            lemma_pairs_grow(
                                *comp,
                                *delta,
                                v1,
                                v2,
                                before,
                                iso.queue@,
                                before[k],
                            );
                        }
                    }
                }
            }
            proof {
                let pairs = queued(iso.queue@);
                assert(one_to_one(pairs)) by {
                    assert forall|p: (usize, usize), q: (usize, usize)| #[trigger]
                        pairs.contains(p) && #[trigger] pairs.contains(q) implies (p.0 == q.0
                        <==> p.1 == q.1) by {
                        let i = choose|i: int| 0 <= i < iso.queue@.len() && iso.queue@[i] == p;
                        let j = choose|j: int| 0 <= j < iso.queue@.len() && iso.queue@[j] == q;
                        assert(iso.paired.at(iso.queue@[i].0) == p.1);
                        assert(iso.paired.at(iso.queue@[j].0) == q.1);
                    }
                }
                assert forall|p: (usize, usize)| #[trigger] pairs.contains(p) implies states_pair(
                    *comp,
                    *delta,
                    v1,
                    v2,
                    pairs,
                    p,
                ) by {
                    let i = choose|i: int| 0 <= i < iso.queue@.len() && iso.queue@[i] == p;
                    assert(states_pair(*comp, *delta, v1, v2, pairs, iso.queue@[i]));
                }
                assert(is_matching(*comp, *delta, v1, v2, pairs));
                assert forall|k: nat| (#[trigger] searched(*comp, *delta, v1, v2, k)).0 by {
                    if k <= head {
                        lemma_search_stays(*comp, *delta, v1, v2, k, head as nat);
                    } else {
                        lemma_search_stays(*comp, *delta, v1, v2, head as nat, k);
                    }
                }
            }
            Ok(true)
        },
        _ => Ok(false),
    }
}

proof fn lemma_pairs_grow<W: Weight, C: WeightCompare<W>>(
    comp: C,
    delta: W::Delta,
    v1: FstV<W>,
    v2: FstV<W>,
    before: Seq<(usize, usize)>,
    after: Seq<(usize, usize)>,
    pair: (usize, usize),
)
    requires
        before.len() <= after.len(),
        forall|i: int| 0 <= i < before.len() ==> after[i] == before[i],
        states_pair(comp, delta, v1, v2, queued(before), pair),
    ensures
        states_pair(comp, delta, v1, v2, queued(after), pair),
{
    let arcs1 = in_arc_order(comp, delta, v1.arcs(pair.0 as int));
    let arcs2 = in_arc_order(comp, delta, v2.arcs(pair.1 as int));
    assert forall|i: int| 0 <= i < arcs1.len() implies #[trigger] arcs_pair(
        delta,
        arcs1,
        arcs2,
        queued(after),
        i,
    ) by {
        assert(arcs_pair(delta, arcs1, arcs2, queued(before), i));
        let p = (arcs1[i].nextstate, arcs2[i].nextstate);
        let j = choose|j: int| 0 <= j < before.len() && before[j] == p;
        assert(after[j] == p);
    }
}

/// Tests whether two machines are isomorphic: equal up to state renumbering and arc
/// reordering.
///
/// Weights are ordered by their natural comparison when they are not
/// approximately equal.
pub fn isomorphic<W: OrderedWeight>(
    fst1: &VectorFst<W>,
    fst2: &VectorFst<W>,
    delta: &W::Delta,
) -> (result: Result<bool, OpenFstError>)
    requires
        fst1@.wf(),
        fst2@.wf(),
    ensures
        result == Ok::<bool, OpenFstError>(true) <==> are_isomorphic(
            OwnOrder,
            *delta,
            fst1@,
            fst2@,
        ),
        result is Err <==> a_guess_fails(OwnOrder, *delta, fst1@, fst2@),
        result matches Err(e) ==> e is InvalidOperation && has_ambiguous(OwnOrder, *delta, fst1@),
{
    isomorphic_with(fst1, fst2, delta, &OwnOrder)
}

} // verus!
