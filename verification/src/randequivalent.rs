//! Deciding whether two machines agree, by sampling.
//!
//! Deciding equivalence outright needs two deterministic acceptors; this asks a weaker
//! question of anything: take paths drawn from one of the two, and check that both give
//! what such a path reads and writes the same total weight. Enough draws that agree is
//! evidence rather than proof: a difference the sampling never visits is a difference it
//! never sees.
use crate::arcsort::{
    arc_sort, is_arc_sorted, lemma_arc_sorted_wf, ILabelCompare, OLabelCompare,
};
use crate::components::{cyclic, said_cyclic};
use crate::compose::{compose, composes};
use crate::compose_unique::{law_composing_has_one_outcome, law_sorted_machine_is_one};
use crate::concat::{check_symbols, symbols_agree};
use crate::connect::{connect, trimmed};
use crate::error::OpenFstError;
use crate::matcher::{labels_sorted, said_sorted};
use crate::project::{project, projected, ProjectType};
use crate::push::{never_settles, spec_total_weight, total_weight};
use crate::shortest_distance::{
    distance_in, is_distance, settles_at, settles_first, shortest_distance_forward,
};
use crate::vector_fst::{FstV, VectorFst};
use crate::weight::{Weight, IDEMPOTENT};
use vstd::prelude::*;

verus! {

/// Whether `l` is `v` made ready to be compared: trimmed, its arcs sorted by what they
/// read.
pub open spec fn is_readied<W: Weight>(v: FstV<W>, l: FstV<W>) -> bool {
    is_arc_sorted(ILabelCompare, trimmed(v), l)
}

/// Whether `b` is what `f` does with a path: the path's inputs, then `f`, then the path's
/// outputs.
pub open spec fn does_with<W: Weight>(f: FstV<W>, path: FstV<W>, b: FstV<W>) -> bool {
    exists|t: FstV<W>, s: FstV<W>|
        {
            &&& composes(projected(path, ProjectType::Input), f, FstV::empty(), true, t)
            &&& #[trigger] is_arc_sorted(OLabelCompare, t, s)
            &&& composes(s, projected(path, ProjectType::Output), FstV::empty(), true, b)
        }
}

/// Whether the paths of `b` cannot be summed: over a semiring where a cycle does not
/// settle, the sum of the paths through one is not a number to compare.
pub open spec fn gives_up<W: Weight>(b: FstV<W>) -> bool {
    W::spec_properties() & IDEMPOTENT == 0 && said_cyclic(b)
}

/// Whether all paths of `b` together weigh `w`.
pub open spec fn sums_to<W: Weight>(b: FstV<W>, delta: W::Delta, w: W) -> bool {
    exists|dist: Seq<W>| #[trigger]
        is_distance(b, false, delta, dist) && w == spec_total_weight(b, dist, false)
}

/// Whether `f` gives the path a total that cannot be compared.
pub open spec fn passes_over<W: Weight>(f: FstV<W>, path: FstV<W>) -> bool {
    exists|b: FstV<W>| #[trigger] does_with(f, path, b) && gives_up(b)
}

/// Whether `f` gives the path the total `w`.
pub open spec fn totals<W: Weight>(f: FstV<W>, path: FstV<W>, delta: W::Delta, w: W) -> bool {
    exists|b: FstV<W>| #[trigger] does_with(f, path, b) && !gives_up(b) && sums_to(b, delta, w)
}

/// Whether `f` cannot give the path a total: something is said to be sorted that is not,
/// or the distances keep on changing.
pub open spec fn cannot_total<W: Weight>(f: FstV<W>, path: FstV<W>, delta: W::Delta) -> bool {
    ||| cannot_compose(projected(path, ProjectType::Input), f)
    ||| exists|t: FstV<W>, s: FstV<W>|
        {
            &&& composes(projected(path, ProjectType::Input), f, FstV::empty(), true, t)
            &&& #[trigger] is_arc_sorted(OLabelCompare, t, s)
            &&& cannot_compose(s, projected(path, ProjectType::Output))
        }
    ||| exists|b: FstV<W>| #[trigger] does_with(f, path, b) && never_settles(b, false, delta)
}

/// Whether both machines are said to be sorted for composing, and neither is.
pub open spec fn cannot_compose<W: Weight>(a: FstV<W>, b: FstV<W>) -> bool {
    &&& said_sorted(a, true) && !labels_sorted(a, true)
    &&& said_sorted(b, false) && !labels_sorted(b, false)
}

/// Whether the two give the path totals that are alike, or that cannot be compared.
pub open spec fn agree_on<W: Weight>(
    l: FstV<W>,
    r: FstV<W>,
    path: FstV<W>,
    delta: W::Delta,
) -> bool {
    ||| passes_over(l, path)
    ||| passes_over(r, path)
    ||| exists|w1: W, w2: W| #[trigger]
        totals(l, path, delta, w1) && #[trigger] totals(r, path, delta, w2) && w1.spec_approx(
            w2,
            delta,
        )
}

/// Whether the two give the path totals that are not alike.
pub open spec fn differ_on<W: Weight>(
    l: FstV<W>,
    r: FstV<W>,
    path: FstV<W>,
    delta: W::Delta,
) -> bool {
    exists|w1: W, w2: W| #[trigger]
        totals(l, path, delta, w1) && #[trigger] totals(r, path, delta, w2) && !w1.spec_approx(
            w2,
            delta,
        )
}

/// The total that `fst` gives a path, or nothing where it cannot be compared.
fn total_through<W: Weight>(
    fst: &VectorFst<W>,
    path: &VectorFst<W>,
    delta: &W::Delta,
) -> (result: Result<Option<W>, OpenFstError>)
    requires
        fst@.wf(),
        path@.wf(),
        path@.n() < usize::MAX,
    ensures
        match result {
            Ok(Some(w)) => totals(fst@, path@, *delta, w),
            Ok(None) => passes_over(fst@, path@),
            Err(e) => e is InvalidOperation && cannot_total(fst@, path@, *delta),
        },
{
    let mut inputs = path.duplicate();
    let mut outputs = path.duplicate();
    if let Err(e) = project(&mut inputs, ProjectType::Input) {
        return Err(e);
    }
    if let Err(e) = project(&mut outputs, ProjectType::Output) {
        return Err(e);
    }
    proof {
        lemma_projected_wf(path@, ProjectType::Input);
        lemma_projected_wf(path@, ProjectType::Output);
    }
    let mut through: VectorFst<W> = VectorFst::new();
    if let Err(e) = compose(&inputs, fst, &mut through) {
        return Err(e);
    }
    let ghost t = through@;
    arc_sort(&mut through, &OLabelCompare);
    proof {
        lemma_arc_sorted_wf(OLabelCompare, t, through@);
    }
    let mut both: VectorFst<W> = VectorFst::new();
    if let Err(e) = compose(&through, &outputs, &mut both) {
        return Err(e);
    }
    let ghost b = both@;
    assert(does_with(fst@, path@, b));
    proof {
        lemma_composed_start(through@, outputs@, FstV::empty(), b);
    }
    if W::properties() & IDEMPOTENT == 0 && cyclic(&both) {
        return Ok(None);
    }
    match shortest_distance_forward(&both, delta) {
        Ok(dist) => {
            let w = total_weight(&both, &dist, false);
            assert(sums_to(b, *delta, w));
            Ok(Some(w))
        },
        Err(e) => Err(e),
    }
}

proof fn lemma_projected_wf<W: Weight>(v: FstV<W>, side: ProjectType)
    requires
        v.wf(),
    ensures
        projected(v, side).wf(),
{
    let w = projected(v, side);
    assert forall|s: int, i: int| 0 <= s < w.n() && 0 <= i < w.states[s].arcs.len() implies (
    #[trigger] w.states[s].arcs[i]).nextstate < w.n() by {
        assert(v.states[s].arcs[i].nextstate < v.n());
    }
}

/// A trimmed machine with a state has a start.
proof fn lemma_composed_start<W: Weight>(a: FstV<W>, b: FstV<W>, o: FstV<W>, c: FstV<W>)
    requires
        composes(a, b, o, true, c),
    ensures
        c.start is Some || c.n() == 0,
{
    let (l, r, raw) = choose|l: FstV<W>, r: FstV<W>, raw: FstV<W>|
        {
            &&& crate::compose::is_sorted_copy(a, true, l)
            &&& crate::compose::is_sorted_copy(b, false, r)
            &&& #[trigger] crate::compose::composes_sorted(l, r, o, raw)
            &&& c == trimmed(raw)
        };
    crate::connect::lemma_trimmed_start(raw);
}

/// Whether the drawn `paths` get the same weight from both machines.
///
/// The paths may be drawn from either, so that one only one of them has is as likely to
/// be tried as one they share. Machines whose labels are named differently are refused.
pub fn rand_equivalent<W: Weight>(
    fst1: &VectorFst<W>,
    fst2: &VectorFst<W>,
    paths: &Vec<VectorFst<W>>,
    delta: &W::Delta,
) -> (result: Result<bool, OpenFstError>)
    requires
        fst1@.wf(),
        fst2@.wf(),
        forall|i: int|
            0 <= i < paths@.len() ==> (#[trigger] paths@[i])@.wf() && paths@[i]@.n() < usize::MAX,
    ensures
        result matches Err(e) ==> e is SymbolTable || e is InvalidOperation,
        (result matches Err(e) && e is SymbolTable) <==> !symbols_agree(fst1@, fst2@),
        symbols_agree(fst1@, fst2@) ==> exists|l: FstV<W>, r: FstV<W>|
            {
                &&& #[trigger] is_readied(fst1@, l)
                &&& #[trigger] is_readied(fst2@, r)
                &&& match result {
                    Ok(true) => forall|i: int|
                        0 <= i < paths@.len() ==> agree_on(l, r, (#[trigger] paths@[i])@, *delta),
                    Ok(false) => exists|i: int|
                        0 <= i < paths@.len() && differ_on(l, r, (#[trigger] paths@[i])@, *delta),
                    Err(_) => exists|i: int|
                        0 <= i < paths@.len() && (cannot_total(
                            l,
                            (#[trigger] paths@[i])@,
                            *delta,
                        ) || cannot_total(r, paths@[i]@, *delta)),
                }
            },
{
    if !check_symbols(fst1, fst2) {
        return Err(
            OpenFstError::SymbolTable("RandEquivalent: the two FSTs' symbol tables do not agree"),
        );
    }
    let mut left = fst1.duplicate();
    let mut right = fst2.duplicate();
    connect(&mut left);
    connect(&mut right);
    let ghost l0 = left@;
    let ghost r0 = right@;
    arc_sort(&mut left, &ILabelCompare);
    arc_sort(&mut right, &ILabelCompare);
    let ghost l = left@;
    let ghost r = right@;
    proof {
        lemma_arc_sorted_wf(ILabelCompare, l0, l);
        lemma_arc_sorted_wf(ILabelCompare, r0, r);
        assert(is_readied(fst1@, l) && is_readied(fst2@, r));
    }
    let mut i: usize = 0;
    while i < paths.len()
        invariant
            i <= paths@.len(),
            symbols_agree(fst1@, fst2@),
            is_readied(fst1@, l),
            is_readied(fst2@, r),
            left@ == l,
            right@ == r,
            l.wf(),
            r.wf(),
            forall|j: int|
                0 <= j < paths@.len() ==> (#[trigger] paths@[j])@.wf() && paths@[j]@.n()
                    < usize::MAX,
            forall|j: int| 0 <= j < i ==> agree_on(l, r, (#[trigger] paths@[j])@, *delta),
        decreases paths@.len() - i,
    {
        let path = &paths[i];
        assert(paths@[i as int]@.wf());
        let sum1 = match total_through(&left, path, delta) {
            Ok(sum) => sum,
            Err(e) => {
                assert(cannot_total(l, paths@[i as int]@, *delta));
                return Err(e);
            },
        };
        if let Some(w1) = sum1 {
            let sum2 = match total_through(&right, path, delta) {
                Ok(sum) => sum,
                Err(e) => {
                    assert(cannot_total(r, paths@[i as int]@, *delta));
                    return Err(e);
                },
            };
            if let Some(w2) = sum2 {
                if !w1.approx_equal(&w2, delta) {
                    assert(differ_on(l, r, paths@[i as int]@, *delta));
                    return Ok(false);
                }
            }
        }
        assert(agree_on(l, r, paths@[i as int]@, *delta));
        i = i + 1;
    }
    Ok(true)
}

/// As [`rand_equivalent`], with weights compared as they usually are.
pub fn rand_equivalent_default<W: Weight>(
    fst1: &VectorFst<W>,
    fst2: &VectorFst<W>,
    paths: &Vec<VectorFst<W>>,
) -> (result: Result<bool, OpenFstError>)
    requires
        fst1@.wf(),
        fst2@.wf(),
        forall|i: int|
            0 <= i < paths@.len() ==> (#[trigger] paths@[i])@.wf() && paths@[i]@.n() < usize::MAX,
    ensures
        result matches Err(e) ==> e is SymbolTable || e is InvalidOperation,
        (result matches Err(e) && e is SymbolTable) <==> !symbols_agree(fst1@, fst2@),
        symbols_agree(fst1@, fst2@) ==> exists|l: FstV<W>, r: FstV<W>|
            {
                let delta = W::spec_default_delta();
                &&& #[trigger] is_readied(fst1@, l)
                &&& #[trigger] is_readied(fst2@, r)
                &&& match result {
                    Ok(true) => forall|i: int|
                        0 <= i < paths@.len() ==> agree_on(l, r, (#[trigger] paths@[i])@, delta),
                    Ok(false) => exists|i: int|
                        0 <= i < paths@.len() && differ_on(l, r, (#[trigger] paths@[i])@, delta),
                    Err(_) => exists|i: int|
                        0 <= i < paths@.len() && (cannot_total(
                            l,
                            (#[trigger] paths@[i])@,
                            delta,
                        ) || cannot_total(r, paths@[i]@, delta)),
                }
            },
{
    let delta = W::default_delta();
    rand_equivalent(fst1, fst2, paths, &delta)
}

/// What a machine does with a path is one machine.
proof fn lemma_does_one_thing<W: Weight>(f: FstV<W>, path: FstV<W>, a: FstV<W>, b: FstV<W>)
    requires
        does_with(f, path, a),
        does_with(f, path, b),
    ensures
        a == b,
{
    let inputs = projected(path, ProjectType::Input);
    let outputs = projected(path, ProjectType::Output);
    let (t1, s1) = choose|t: FstV<W>, s: FstV<W>|
        {
            &&& composes(inputs, f, FstV::empty(), true, t)
            &&& #[trigger] is_arc_sorted(OLabelCompare, t, s)
            &&& composes(s, outputs, FstV::empty(), true, a)
        };
    let (t2, s2) = choose|t: FstV<W>, s: FstV<W>|
        {
            &&& composes(inputs, f, FstV::empty(), true, t)
            &&& #[trigger] is_arc_sorted(OLabelCompare, t, s)
            &&& composes(s, outputs, FstV::empty(), true, b)
        };
    law_composing_has_one_outcome(inputs, f, FstV::empty(), true, t1, t2);
    law_sorted_machine_is_one(OLabelCompare, t1, s1, s2);
    law_composing_has_one_outcome(s1, outputs, FstV::empty(), true, a, b);
}

/// A machine gives a path one total.
pub proof fn law_a_path_has_one_total<W: Weight>(
    f: FstV<W>,
    path: FstV<W>,
    delta: W::Delta,
    w1: W,
    w2: W,
)
    requires
        totals(f, path, delta, w1),
        totals(f, path, delta, w2),
    ensures
        w1 == w2,
{
    let a = choose|b: FstV<W>| #[trigger]
        does_with(f, path, b) && !gives_up(b) && sums_to(b, delta, w1);
    let b = choose|b: FstV<W>| #[trigger]
        does_with(f, path, b) && !gives_up(b) && sums_to(b, delta, w2);
    lemma_does_one_thing(f, path, a, b);
    let d1 = choose|dist: Seq<W>| #[trigger]
        is_distance(a, false, delta, dist) && w1 == spec_total_weight(a, dist, false);
    let d2 = choose|dist: Seq<W>| #[trigger]
        is_distance(a, false, delta, dist) && w2 == spec_total_weight(a, dist, false);
    let k1 = choose|k: nat| #[trigger]
        settles_first(a, false, delta, k) && d1 == distance_in(a, false, k + 1);
    let k2 = choose|k: nat| #[trigger]
        settles_first(a, false, delta, k) && d2 == distance_in(a, false, k + 1);
    assert(settles_at(a, false, delta, k1) && settles_at(a, false, delta, k2));
    assert(k1 == k2);
}

/// Equal machines never differ: whichever paths are drawn, where the total of each path is
/// close to itself, as a weight of the semiring is, the answer for a machine and one that
/// is equal to it is not `Ok(false)`.
pub proof fn law_equal_machines_do_not_differ<W: Weight>(
    v: FstV<W>,
    l: FstV<W>,
    r: FstV<W>,
    path: FstV<W>,
    delta: W::Delta,
)
    requires
        forall|w: W| #[trigger] totals(l, path, delta, w) ==> w.spec_approx(w, delta),
        is_readied(v, l),
        is_readied(v, r),
    ensures
        !differ_on(l, r, path, delta),
{
    law_sorted_machine_is_one(ILabelCompare, trimmed(v), l, r);
    if differ_on(l, r, path, delta) {
        let (w1, w2) = choose|w1: W, w2: W| #[trigger]
            totals(l, path, delta, w1) && #[trigger] totals(r, path, delta, w2)
                && !w1.spec_approx(w2, delta);
        law_a_path_has_one_total(l, path, delta, w1, w2);
    }
}

} // verus!
