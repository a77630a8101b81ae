//! What composing comes to is one machine, and trimming it afterwards is trimming it on
//! the way.
use crate::arc::Arc;
use crate::arcsort::{
    is_arc_sorted, is_stable_order, is_stable_sort, precedes, ArcCompare, ILabelCompare,
    OLabelCompare,
};
use crate::compose::{
    asks_second, compose_start, composes, composes_sorted, found_for, is_composition,
    is_sequence_composition, is_sorted_copy, pair_steps, searches, walked_arcs, walked_steps,
    ComposeModel, ComposeStateTuple, Composing,
};
use crate::compose_filter::SequenceComposeFilter;
use crate::compose_laws::lemma_all_there;
use crate::connect::trimmed;
use crate::filter_state::CharFilterState;
use crate::hash_table::Key;
use crate::matcher::{said_sorted, Matcher, SortedMatcher};
use crate::unfold::{
    is_unfolding, law_unfolding_is_unique, unfolded, unfolds, Unfolding,
};
use crate::vector_fst::FstV;
use crate::weight::Weight;
use vstd::prelude::*;

verus! {

/// The first positions in which a stable sort puts arcs are the same each time.
proof fn lemma_one_order<W: Weight, C: ArcCompare<W>>(
    comp: C,
    arcs: Seq<Arc<W>>,
    a: Seq<usize>,
    b: Seq<usize>,
    k: int,
)
    requires
        is_stable_order(comp, arcs, a),
        is_stable_order(comp, arcs, b),
        a.no_duplicates(),
        b.no_duplicates(),
        0 <= k <= arcs.len(),
    ensures
        forall|i: int| 0 <= i < k ==> #[trigger] a[i] == b[i],
    decreases k,
{
    if k > 0 {
        lemma_one_order(comp, arcs, a, b, k - 1);
        let x = a[k - 1] as int;
        let y = b[k - 1] as int;
        if x != y {
            lemma_all_there(a, y);
            lemma_all_there(b, x);
            let i = choose|i: int| 0 <= i < a.len() && #[trigger] a[i] == y;
            let j = choose|j: int| 0 <= j < b.len() && #[trigger] b[j] == x;
            if i < k - 1 {
                assert(b[i] == b[k - 1]);
            }
            if j < k - 1 {
                assert(a[j] == a[k - 1]);
            }
            assert(precedes(comp, arcs, a[k - 1] as int, a[i] as int));
            assert(precedes(comp, arcs, b[k - 1] as int, b[j] as int));
            comp.lemma_order(arcs[x], arcs[y], arcs[x]);
        }
    }
}

/// A stable order names no position twice.
proof fn lemma_order_has_each_once<W: Weight, C: ArcCompare<W>>(
    comp: C,
    arcs: Seq<Arc<W>>,
    order: Seq<usize>,
)
    requires
        is_stable_order(comp, arcs, order),
    ensures
        order.no_duplicates(),
{
    assert forall|i: int, j: int| 0 <= i < j < order.len() implies order[i] != order[j] by {
        assert(precedes(comp, arcs, order[i] as int, order[j] as int));
        let arc = arcs[order[i] as int];
        comp.lemma_order(arc, arc, arc);
    }
}

/// There is one way to sort arcs that keeps those that compare equal in the order they
/// were in.
pub proof fn law_sorting_has_one_outcome<W: Weight, C: ArcCompare<W>>(
    comp: C,
    arcs: Seq<Arc<W>>,
    a: Seq<Arc<W>>,
    b: Seq<Arc<W>>,
)
    requires
        is_stable_sort(comp, arcs, a),
        is_stable_sort(comp, arcs, b),
    ensures
        a == b,
{
    let p = choose|p: Seq<usize>| #[trigger]
        is_stable_order(comp, arcs, p) && a == p.map_values(|i: usize| arcs[i as int]);
    let q = choose|q: Seq<usize>| #[trigger]
        is_stable_order(comp, arcs, q) && b == q.map_values(|i: usize| arcs[i as int]);
    lemma_order_has_each_once(comp, arcs, p);
    lemma_order_has_each_once(comp, arcs, q);
    lemma_one_order(comp, arcs, p, q, arcs.len() as int);
    assert(p =~= q);
}

/// There is one machine that sorting the arcs of another comes to.
pub proof fn law_sorted_machine_is_one<W: Weight, C: ArcCompare<W>>(
    comp: C,
    v: FstV<W>,
    a: FstV<W>,
    b: FstV<W>,
)
    requires
        is_arc_sorted(comp, v, a),
        is_arc_sorted(comp, v, b),
    ensures
        a == b,
{
    assert forall|s: int| 0 <= s < v.n() implies #[trigger] a.states[s] == b.states[s] by {
        law_sorting_has_one_outcome(comp, v.states[s].arcs, a.states[s].arcs, b.states[s].arcs);
    }
    assert(a.states =~= b.states);
}

/// There is one copy of a machine sorted the way a matcher needs.
pub proof fn law_sorted_copy_is_one<W: Weight>(
    v: FstV<W>,
    by_output: bool,
    a: FstV<W>,
    b: FstV<W>,
)
    requires
        is_sorted_copy(v, by_output, a),
        is_sorted_copy(v, by_output, b),
    ensures
        a == b,
{
    if !said_sorted(v, by_output) {
        if by_output {
            law_sorted_machine_is_one(OLabelCompare, v, a, b);
        } else {
            law_sorted_machine_is_one(ILabelCompare, v, a, b);
        }
    }
}

/// Where two models have the same arcs and ends, a value unfolds to the same from both.
proof fn lemma_same_unfolding<W: Weight, K: Key, U: Unfolding<W, K>>(
    model1: U::Model,
    model2: U::Model,
    start: K,
    v: FstV<W>,
)
    requires
        unfolded::<W, K, U>(model1, start, true, v),
        forall|key: K| #[trigger] U::fails(model1, key) == U::fails(model2, key),
        forall|key: K| #[trigger] U::steps(model1, key) == U::steps(model2, key),
        forall|key: K| #[trigger] U::ending(model1, key) == U::ending(model2, key),
    ensures
        unfolded::<W, K, U>(model2, start, true, v),
{
    let table = choose|table: Seq<K>| #[trigger]
        is_unfolding::<W, K, U>(model1, start, true, table, v.states);
    assert forall|s: int| 0 <= s < v.states.len() implies unfolds::<W, K, U>(
        model2,
        table[s],
        #[trigger] v.states[s],
        table,
    ) by {
        assert(unfolds::<W, K, U>(model1, table[s], v.states[s], table));
    }
    assert(is_unfolding::<W, K, U>(model2, start, true, table, v.states));
}

/// Whether two matchers find the same arcs and cost the same to ask.
pub open spec fn find_alike<W: Weight, M: Matcher<W>, N: Matcher<W>>(m: M, n: N) -> bool {
    &&& m.spec_match_type() == n.spec_match_type()
    &&& forall|s: usize, label: i32| #[trigger] m.spec_matches(s, label) == n.spec_matches(s, label)
    &&& forall|s: usize| #[trigger] m.spec_priority(s) == n.spec_priority(s)
}

proof fn lemma_same_pair_steps<
    W: Weight,
    M1: Matcher<W>,
    M2: Matcher<W>,
    N1: Matcher<W>,
    N2: Matcher<W>,
>(
    rule1: (FstV<W>, M1, M2),
    rule2: (FstV<W>, N1, N2),
    key: ComposeStateTuple<CharFilterState>,
    arc: Arc<W>,
    found: Seq<Arc<W>>,
    second: bool,
    k: int,
)
    requires
        rule1.0 == rule2.0,
    ensures
        pair_steps::<W, SequenceComposeFilter<W, M1, M2>>(rule1, key, arc, found, second, k)
            == pair_steps::<W, SequenceComposeFilter<W, N1, N2>>(
            rule2,
            key,
            arc,
            found,
            second,
            k,
        ),
    decreases k,
{
    if k > 0 {
        lemma_same_pair_steps::<W, M1, M2, N1, N2>(
            rule1,
            rule2,
            key,
            arc,
            found,
            second,
            k - 1,
        );
    }
}

proof fn lemma_same_walked_steps<
    W: Weight,
    M1: Matcher<W>,
    M2: Matcher<W>,
    N1: Matcher<W>,
    N2: Matcher<W>,
>(
    rule1: (FstV<W>, M1, M2),
    rule2: (FstV<W>, N1, N2),
    key: ComposeStateTuple<CharFilterState>,
    walked: Seq<Arc<W>>,
    second: bool,
    k: int,
)
    requires
        rule1.0 == rule2.0,
        find_alike::<W, M1, N1>(rule1.1, rule2.1),
        find_alike::<W, M2, N2>(rule1.2, rule2.2),
    ensures
        walked_steps::<W, SequenceComposeFilter<W, M1, M2>>(rule1, key, walked, second, k)
            == walked_steps::<W, SequenceComposeFilter<W, N1, N2>>(
            rule2,
            key,
            walked,
            second,
            k,
        ),
    decreases k,
{
    if k > 0 {
        lemma_same_walked_steps::<W, M1, M2, N1, N2>(rule1, rule2, key, walked, second, k - 1);
        let found = found_for::<W, SequenceComposeFilter<W, M1, M2>>(
            rule1,
            key,
            walked[k - 1],
            second,
        );
        assert(found == found_for::<W, SequenceComposeFilter<W, N1, N2>>(
            rule2,
            key,
            walked[k - 1],
            second,
        ));
        lemma_same_pair_steps::<W, M1, M2, N1, N2>(
            rule1,
            rule2,
            key,
            walked[k - 1],
            found,
            second,
            found.len() as int,
        );
    }
}

/// Where the matchers find alike, the same steps leave a pair of states, and a path that
/// ends there takes on the same.
pub proof fn lemma_same_steps<
    W: Weight,
    M1: Matcher<W>,
    M2: Matcher<W>,
    N1: Matcher<W>,
    N2: Matcher<W>,
>(
    l: FstV<W>,
    r: FstV<W>,
    rule1: (FstV<W>, M1, M2),
    rule2: (FstV<W>, N1, N2),
    key: ComposeStateTuple<CharFilterState>,
)
    requires
        rule1.0 == rule2.0,
        find_alike::<W, M1, N1>(rule1.1, rule2.1),
        find_alike::<W, M2, N2>(rule1.2, rule2.2),
    ensures
        ({
            let model1 = ComposeModel { fst1: l, fst2: r, rule: rule1 };
            let model2 = ComposeModel { fst1: l, fst2: r, rule: rule2 };
            &&& Composing::<W, SequenceComposeFilter<W, M1, M2>>::steps(model1, key)
                == Composing::<W, SequenceComposeFilter<W, N1, N2>>::steps(model2, key)
            &&& Composing::<W, SequenceComposeFilter<W, M1, M2>>::ending(model1, key)
                == Composing::<W, SequenceComposeFilter<W, N1, N2>>::ending(model2, key)
            &&& Composing::<W, SequenceComposeFilter<W, M1, M2>>::fails(model1, key)
                == Composing::<W, SequenceComposeFilter<W, N1, N2>>::fails(model2, key)
        }),
{
    let model1 = ComposeModel { fst1: l, fst2: r, rule: rule1 };
    let model2 = ComposeModel { fst1: l, fst2: r, rule: rule2 };
    let second = asks_second::<W, SequenceComposeFilter<W, M1, M2>>(
        rule1,
        key.state1,
        key.state2,
    );
    assert(rule1.1.spec_priority(key.state1) == rule2.1.spec_priority(key.state1));
    assert(rule1.2.spec_priority(key.state2) == rule2.2.spec_priority(key.state2));
    assert(second == asks_second::<W, SequenceComposeFilter<W, N1, N2>>(
        rule2,
        key.state1,
        key.state2,
    ));
    let walked = walked_arcs::<W, SequenceComposeFilter<W, M1, M2>>(model1, key, second);
    assert(walked == walked_arcs::<W, SequenceComposeFilter<W, N1, N2>>(
        model2,
        key,
        second,
    ));
    lemma_same_walked_steps::<W, M1, M2, N1, N2>(
        rule1,
        rule2,
        key,
        walked,
        second,
        walked.len() as int,
    );
}

/// Two machines sorted for matching have one composition.
pub proof fn law_sorted_machines_have_one_composition<W: Weight>(
    l: FstV<W>,
    r: FstV<W>,
    o: FstV<W>,
    a: FstV<W>,
    b: FstV<W>,
)
    requires
        is_sequence_composition(l, r, o, a),
        is_sequence_composition(l, r, o, b),
    ensures
        a == b,
{
    let (m1, m2) = choose|m1: SortedMatcher<W>, m2: SortedMatcher<W>| #[trigger]
        searches(m1, l, true) && #[trigger] searches(m2, r, false) && is_composition::<
            W,
            SequenceComposeFilter<W, SortedMatcher<W>, SortedMatcher<W>>,
        >(l, r, (l, m1, m2), o, a);
    let (n1, n2) = choose|n1: SortedMatcher<W>, n2: SortedMatcher<W>| #[trigger]
        searches(n1, l, true) && #[trigger] searches(n2, r, false) && is_composition::<
            W,
            SequenceComposeFilter<W, SortedMatcher<W>, SortedMatcher<W>>,
        >(l, r, (l, n1, n2), o, b);
    if l.start is Some && r.start is Some {
        lemma_one_composition(l, r, m1, m2, n1, n2, a, b);
    } else {
        assert(a.states =~= b.states);
    }
}

proof fn lemma_one_composition<'a, W: Weight>(
    l: FstV<W>,
    r: FstV<W>,
    m1: SortedMatcher<'a, W>,
    m2: SortedMatcher<'a, W>,
    n1: SortedMatcher<'a, W>,
    n2: SortedMatcher<'a, W>,
    a: FstV<W>,
    b: FstV<W>,
)
    requires
        l.start is Some,
        r.start is Some,
        searches(m1, l, true),
        searches(m2, r, false),
        searches(n1, l, true),
        searches(n2, r, false),
        unfolded::<
            W,
            ComposeStateTuple<CharFilterState>,
            Composing<
                'a,
                W,
                SequenceComposeFilter<'a, W, SortedMatcher<'a, W>, SortedMatcher<'a, W>>,
            >,
        >(
            ComposeModel { fst1: l, fst2: r, rule: (l, m1, m2) },
            compose_start::<
                W,
                SequenceComposeFilter<'a, W, SortedMatcher<'a, W>, SortedMatcher<'a, W>>,
            >((l, m1, m2), l.start->0, r.start->0),
            true,
            a,
        ),
        unfolded::<
            W,
            ComposeStateTuple<CharFilterState>,
            Composing<
                'a,
                W,
                SequenceComposeFilter<'a, W, SortedMatcher<'a, W>, SortedMatcher<'a, W>>,
            >,
        >(
            ComposeModel { fst1: l, fst2: r, rule: (l, n1, n2) },
            compose_start::<
                W,
                SequenceComposeFilter<'a, W, SortedMatcher<'a, W>, SortedMatcher<'a, W>>,
            >((l, n1, n2), l.start->0, r.start->0),
            true,
            b,
        ),
    ensures
        a.start == b.start,
        a.states == b.states,
{
    let model1 = ComposeModel { fst1: l, fst2: r, rule: (l, m1, m2) };
    let model2 = ComposeModel { fst1: l, fst2: r, rule: (l, n1, n2) };
    let start = compose_start::<
        W,
        SequenceComposeFilter<'a, W, SortedMatcher<'a, W>, SortedMatcher<'a, W>>,
    >((l, m1, m2), l.start->0, r.start->0);
    assert forall|key: ComposeStateTuple<CharFilterState>| #[trigger]
        Composing::<
            'a,
            W,
            SequenceComposeFilter<'a, W, SortedMatcher<'a, W>, SortedMatcher<'a, W>>,
        >::steps(model1, key) == Composing::<
            'a,
            W,
            SequenceComposeFilter<'a, W, SortedMatcher<'a, W>, SortedMatcher<'a, W>>,
        >::steps(model2, key) by {
        lemma_same_steps::<
            W,
            SortedMatcher<'a, W>,
            SortedMatcher<'a, W>,
            SortedMatcher<'a, W>,
            SortedMatcher<'a, W>,
        >(l, r, model1.rule, model2.rule, key);
    }
    assert forall|key: ComposeStateTuple<CharFilterState>| #[trigger]
        Composing::<
            'a,
            W,
            SequenceComposeFilter<'a, W, SortedMatcher<'a, W>, SortedMatcher<'a, W>>,
        >::ending(model1, key) == Composing::<
            'a,
            W,
            SequenceComposeFilter<'a, W, SortedMatcher<'a, W>, SortedMatcher<'a, W>>,
        >::ending(model2, key) by {
        lemma_same_steps::<
            W,
            SortedMatcher<'a, W>,
            SortedMatcher<'a, W>,
            SortedMatcher<'a, W>,
            SortedMatcher<'a, W>,
        >(l, r, model1.rule, model2.rule, key);
    }
    assert forall|key: ComposeStateTuple<CharFilterState>| #[trigger]
        Composing::<
            'a,
            W,
            SequenceComposeFilter<'a, W, SortedMatcher<'a, W>, SortedMatcher<'a, W>>,
        >::fails(model1, key) == Composing::<
            'a,
            W,
            SequenceComposeFilter<'a, W, SortedMatcher<'a, W>, SortedMatcher<'a, W>>,
        >::fails(model2, key) by {
        lemma_same_steps::<
            W,
            SortedMatcher<'a, W>,
            SortedMatcher<'a, W>,
            SortedMatcher<'a, W>,
            SortedMatcher<'a, W>,
        >(l, r, model1.rule, model2.rule, key);
    }
    lemma_same_unfolding::<
        W,
        ComposeStateTuple<CharFilterState>,
        Composing<
            'a,
            W,
            SequenceComposeFilter<'a, W, SortedMatcher<'a, W>, SortedMatcher<'a, W>>,
        >,
    >(model1, model2, start, a);
    let t1 = choose|t: Seq<ComposeStateTuple<CharFilterState>>| #[trigger]
        is_unfolding::<
            W,
            ComposeStateTuple<CharFilterState>,
            Composing<
                'a,
                W,
                SequenceComposeFilter<'a, W, SortedMatcher<'a, W>, SortedMatcher<'a, W>>,
            >,
        >(model2, start, true, t, a.states);
    let t2 = choose|t: Seq<ComposeStateTuple<CharFilterState>>| #[trigger]
        is_unfolding::<
            W,
            ComposeStateTuple<CharFilterState>,
            Composing<
                'a,
                W,
                SequenceComposeFilter<'a, W, SortedMatcher<'a, W>, SortedMatcher<'a, W>>,
            >,
        >(model2, start, true, t, b.states);
    law_unfolding_is_unique::<
        W,
        ComposeStateTuple<CharFilterState>,
        Composing<
            'a,
            W,
            SequenceComposeFilter<'a, W, SortedMatcher<'a, W>, SortedMatcher<'a, W>>,
        >,
    >(model2, start, true, t1, a.states, t2, b.states);
}

proof fn lemma_one_raw_composition<W: Weight>(
    v1: FstV<W>,
    v2: FstV<W>,
    o: FstV<W>,
    connects1: bool,
    connects2: bool,
    a: FstV<W>,
    b: FstV<W>,
) -> (raw: FstV<W>)
    requires
        composes(v1, v2, o, connects1, a),
        composes(v1, v2, o, connects2, b),
    ensures
        a == (if connects1 {
            trimmed(raw)
        } else {
            raw
        }),
        b == (if connects2 {
            trimmed(raw)
        } else {
            raw
        }),
{
    let (l1, r1, raw1) = choose|l: FstV<W>, r: FstV<W>, raw: FstV<W>|
        {
            &&& is_sorted_copy(v1, true, l)
            &&& is_sorted_copy(v2, false, r)
            &&& #[trigger] composes_sorted(l, r, o, raw)
            &&& a == (if connects1 {
                trimmed(raw)
            } else {
                raw
            })
        };
    let (l2, r2, raw2) = choose|l: FstV<W>, r: FstV<W>, raw: FstV<W>|
        {
            &&& is_sorted_copy(v1, true, l)
            &&& is_sorted_copy(v2, false, r)
            &&& #[trigger] composes_sorted(l, r, o, raw)
            &&& b == (if connects2 {
                trimmed(raw)
            } else {
                raw
            })
        };
    law_sorted_copy_is_one(v1, true, l1, l2);
    law_sorted_copy_is_one(v2, false, r1, r2);
    law_sorted_machines_have_one_composition(l1, r1, o, raw1, raw2);
    raw1
}

/// Composing two machines comes to one machine: whoever composes them again gets the
/// same one.
pub proof fn law_composing_has_one_outcome<W: Weight>(
    v1: FstV<W>,
    v2: FstV<W>,
    o: FstV<W>,
    connects: bool,
    a: FstV<W>,
    b: FstV<W>,
)
    requires
        composes(v1, v2, o, connects, a),
        composes(v1, v2, o, connects, b),
    ensures
        a == b,
{
    let raw = lemma_one_raw_composition(v1, v2, o, connects, connects, a, b);
}

/// Composing and dropping the states that lead nowhere comes to what composing without
/// dropping them and trimming afterwards comes to.
pub proof fn law_connecting_is_trimming<W: Weight>(
    v1: FstV<W>,
    v2: FstV<W>,
    o: FstV<W>,
    whole: FstV<W>,
    connected: FstV<W>,
)
    requires
        composes(v1, v2, o, false, whole),
        composes(v1, v2, o, true, connected),
    ensures
        connected == trimmed(whole),
{
    let raw = lemma_one_raw_composition(v1, v2, o, false, true, whole, connected);
}

} // verus!
