//! Whether two machines are the same, state for state and arc for arc.
use crate::arc::Arc;
use crate::concat::{check_symbols, symbols_agree};
use crate::properties::{compat_properties, spec_compat_properties, K_COPY_PROPERTIES};
use crate::vector_fst::{FstV, VectorFst};
use crate::weight::Weight;
use vstd::prelude::*;

verus! {

/// Compare the states and the arcs.
pub const EQUAL_FSTS: u8 = 0x01;

/// Compare how the machines are kept.
pub const EQUAL_FST_TYPES: u8 = 0x02;

/// Ask that what is known of one does not deny what is known of the other.
pub const EQUAL_COMPAT_PROPERTIES: u8 = 0x04;

/// Ask that the labels are named alike.
pub const EQUAL_COMPAT_SYMBOLS: u8 = 0x08;

/// Compare everything.
pub const EQUAL_ALL: u8 = 0x0f;

/// Whether two arcs differ in their weights at most.
pub open spec fn same_route<W>(a: Arc<W>, b: Arc<W>) -> bool {
    a.ilabel == b.ilabel && a.olabel == b.olabel && a.nextstate == b.nextstate
}

/// Whether two machines differ in their weights at most.
pub open spec fn same_shape<W: Weight>(v1: FstV<W>, v2: FstV<W>) -> bool {
    &&& v1.start == v2.start
    &&& v1.n() == v2.n()
    &&& forall|s: int| 0 <= s < v1.n() ==> #[trigger] same_routes(v1, v2, s)
}

/// Whether the arcs leaving a state differ in their weights at most.
pub open spec fn same_routes<W: Weight>(v1: FstV<W>, v2: FstV<W>, s: int) -> bool {
    &&& v1.arcs(s).len() == v2.arcs(s).len()
    &&& forall|i: int|
        0 <= i < v1.arcs(s).len() ==> same_route(#[trigger] v1.arcs(s)[i], v2.arcs(s)[i])
}

/// Whether the machines pass what is asked of them beside their states.
pub open spec fn passes<W: Weight>(v1: FstV<W>, v2: FstV<W>, etype: u8) -> bool {
    &&& etype & EQUAL_COMPAT_PROPERTIES != 0 ==> spec_compat_properties(
        v1.props & K_COPY_PROPERTIES,
        v2.props & K_COPY_PROPERTIES,
    )
    &&& etype & EQUAL_COMPAT_SYMBOLS != 0 ==> symbols_agree(v1, v2)
}

/// Whether `weight_equal` may say `said` of the `i`th weights at state `s`, the
/// final one coming before those of the arcs.
pub open spec fn says<W: Weight, F: Fn(&W, &W) -> bool>(
    weight_equal: F,
    v1: FstV<W>,
    v2: FstV<W>,
    s: int,
    i: int,
    said: bool,
) -> bool {
    if i == 0 {
        call_ensures(weight_equal, (&v1.fin(s), &v2.fin(s)), said)
    } else {
        call_ensures(weight_equal, (&v1.arcs(s)[i - 1].weight, &v2.arcs(s)[i - 1].weight), said)
    }
}

/// Whether there is an `i`th weight at state `s`.
pub open spec fn weighs_at<W: Weight>(v: FstV<W>, s: int, i: int) -> bool {
    0 <= s < v.n() && 0 <= i <= v.arcs(s).len()
}

/// Whether two machines are equal, comparing weights with `weight_equal`.
pub fn equal_with<W: Weight, F: Fn(&W, &W) -> bool>(
    fst1: &VectorFst<W>,
    fst2: &VectorFst<W>,
    weight_equal: F,
    etype: u8,
) -> (same: bool)
    requires
        forall|a: W, b: W| #[trigger] call_requires(weight_equal, (&a, &b)),
    ensures
        same && etype & EQUAL_FSTS != 0 ==> same_shape(fst1@, fst2@) && forall|s: int, i: int|
            weighs_at(fst1@, s, i) ==> #[trigger] says(weight_equal, fst1@, fst2@, s, i, true),
        same ==> passes(fst1@, fst2@, etype),
        !same && passes(fst1@, fst2@, etype) ==> etype & EQUAL_FSTS != 0 && (!same_shape(
            fst1@,
            fst2@,
        ) || exists|s: int, i: int|
            weighs_at(fst1@, s, i) && #[trigger] says(weight_equal, fst1@, fst2@, s, i, false)),
{
    if etype & EQUAL_COMPAT_PROPERTIES != 0 && !compat_properties(
        fst1.known_properties(K_COPY_PROPERTIES),
        fst2.known_properties(K_COPY_PROPERTIES),
    ) {
        return false;
    }
    // Whether the symbol tables are compatible.
    if etype & EQUAL_COMPAT_SYMBOLS != 0 && !check_symbols(fst1, fst2) {
        return false;
    }
    // Nothing else to check when the topology is not being compared.
    if etype & EQUAL_FSTS == 0 {
        return true;
    }
    // The start states.
    match (fst1.start(), fst2.start()) {
        (Some(s1), Some(s2)) => {
            if s1 != s2 {
                return false;
            }
        },
        (None, None) => {},
        _ => {
            return false;
        },
    }
    if fst1.num_states() != fst2.num_states() {
        return false;
    }
    // The states have to come out in the same order.
    let n: usize = fst1.num_states();
    let mut s: usize = 0;
    while s < n
        invariant
            s <= n,
            n == fst1@.n(),
            n == fst2@.n(),
            etype & EQUAL_FSTS != 0,
            forall|a: W, b: W| #[trigger] call_requires(weight_equal, (&a, &b)),
            forall|x: int| 0 <= x < s ==> #[trigger] same_routes(fst1@, fst2@, x),
            forall|x: int, i: int|
                x < s && weighs_at(fst1@, x, i) ==> #[trigger] says(
                    weight_equal,
                    fst1@,
                    fst2@,
                    x,
                    i,
                    true,
                ),
        decreases n - s,
    {
        let final1 = fst1.final_weight(s);
        let final2 = fst2.final_weight(s);
        if !weight_equal(&final1, &final2) {
            assert(weighs_at(fst1@, s as int, 0));
            assert(says(weight_equal, fst1@, fst2@, s as int, 0, false));
            return false;
        }
        let arcs1 = fst1.arcs(s);
        let arcs2 = fst2.arcs(s);
        if arcs1.len() != arcs2.len() {
            assert(!same_routes(fst1@, fst2@, s as int));
            return false;
        }
        // So do the arcs leaving each of them.
        let mut k: usize = 0;
        while k < arcs1.len()
            invariant
                k <= arcs1@.len(),
                s < n,
                n == fst1@.n(),
                arcs1@ == fst1@.arcs(s as int),
                arcs2@ == fst2@.arcs(s as int),
                arcs1@.len() == arcs2@.len(),
                etype & EQUAL_FSTS != 0,
                forall|a: W, b: W| #[trigger] call_requires(weight_equal, (&a, &b)),
                forall|i: int| 0 <= i < k ==> same_route(#[trigger] arcs1@[i], arcs2@[i]),
                forall|i: int|
                    0 <= i <= k ==> #[trigger] says(
                        weight_equal,
                        fst1@,
                        fst2@,
                        s as int,
                        i,
                        true,
                    ),
            decreases arcs1@.len() - k,
        {
            let a1 = &arcs1[k];
            let a2 = &arcs2[k];
            if a1.ilabel != a2.ilabel || a1.olabel != a2.olabel || a1.nextstate != a2.nextstate {
                assert(!same_route(arcs1@[k as int], arcs2@[k as int]));
                assert(!same_routes(fst1@, fst2@, s as int));
                return false;
            }
            if !weight_equal(&a1.weight, &a2.weight) {
                assert(weighs_at(fst1@, s as int, k + 1));
                assert(says(weight_equal, fst1@, fst2@, s as int, k + 1, false));
                return false;
            }
            k = k + 1;
        }
        s = s + 1;
    }
    true
}

/// Whether two machines are alike, weights being compared to within `delta`.
pub open spec fn alike<W: Weight>(v1: FstV<W>, v2: FstV<W>, delta: W::Delta) -> bool {
    &&& same_shape(v1, v2)
    &&& forall|s: int| 0 <= s < v1.n() ==> (#[trigger] v1.fin(s)).spec_approx(v2.fin(s), delta)
    &&& forall|s: int, i: int|
        0 <= s < v1.n() && 0 <= i < v1.arcs(s).len() ==> (
        #[trigger] v1.arcs(s)[i]).weight.spec_approx(v2.arcs(s)[i].weight, delta)
}

/// Whether two machines are equal, comparing weights to within `delta`.
pub fn equal<W: Weight>(
    fst1: &VectorFst<W>,
    fst2: &VectorFst<W>,
    delta: &W::Delta,
    etype: u8,
) -> (same: bool)
    ensures
        same == (passes(fst1@, fst2@, etype) && (etype & EQUAL_FSTS != 0 ==> alike(
            fst1@,
            fst2@,
            *delta,
        ))),
{
    let weight_equal = |w1: &W, w2: &W| -> (b: bool)
        ensures
            b == w1.spec_approx(*w2, *delta),
        { w1.approx_equal(w2, delta) };
    let same = equal_with(fst1, fst2, weight_equal, etype);
    proof {
        let v1 = fst1@;
        let v2 = fst2@;
        if same && etype & EQUAL_FSTS != 0 {
            assert forall|s: int| 0 <= s < v1.n() implies (#[trigger] v1.fin(s)).spec_approx(
                v2.fin(s),
                *delta,
            ) by {
                assert(weighs_at(v1, s, 0));
                assert(says(weight_equal, v1, v2, s, 0, true));
            }
            assert forall|s: int, i: int|
                0 <= s < v1.n() && 0 <= i < v1.arcs(s).len() implies (
            #[trigger] v1.arcs(s)[i]).weight.spec_approx(v2.arcs(s)[i].weight, *delta) by {
                assert(weighs_at(v1, s, i + 1));
                assert(says(weight_equal, v1, v2, s, i + 1, true));
            }
        }
        if !same && passes(v1, v2, etype) && same_shape(v1, v2) {
            let (s, i) = choose|s: int, i: int|
                weighs_at(v1, s, i) && #[trigger] says(weight_equal, v1, v2, s, i, false);
            if i == 0 {
                assert(!v1.fin(s).spec_approx(v2.fin(s), *delta));
            } else {
                assert(!v1.arcs(s)[i - 1].weight.spec_approx(v2.arcs(s)[i - 1].weight, *delta));
            }
        }
    }
    same
}

} // verus!
