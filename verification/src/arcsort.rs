//! Putting the arcs of each state in order.
use crate::arc::Arc;
use crate::properties::{
    K_ACCEPTOR, K_ARC_SORT_PROPERTIES, K_FST_PROPERTIES, K_I_LABEL_SORTED, K_O_LABEL_SORTED,
};
use crate::vector_fst::{lemma_forget_forget, set_bits, FstV, VectorFst};
use crate::weight::Weight;
use std::cmp::Ordering;
use vstd::prelude::*;

verus! {

/// An order on the arcs leaving one state.
///
/// A comparison is usable here, rather than any closure, because of the
/// properties method: sorting establishes something about the machine, and the
/// machine has to be told what.
pub trait ArcCompare<W: Weight> {
    /// Whether `lhs` has to come before `rhs`.
    spec fn before(&self, lhs: Arc<W>, rhs: Arc<W>) -> bool;

    /// The properties the sorted machine has, given those it had before.
    spec fn spec_properties(&self, props: u64) -> u64;

    /// No two arcs come before each other, and whatever lies between two arcs
    /// that are in order is in order with one of them.
    proof fn lemma_order(&self, a: Arc<W>, b: Arc<W>, c: Arc<W>)
        ensures
            self.before(a, b) ==> !self.before(b, a),
            self.before(a, c) ==> self.before(a, b) || self.before(b, c),
    ;

    /// Which of two arcs comes first.
    fn compare(&self, lhs: &Arc<W>, rhs: &Arc<W>) -> (order: Ordering)
        ensures
            order == Ordering::Less <==> self.before(*lhs, *rhs),
            order == Ordering::Greater <==> self.before(*rhs, *lhs),
    ;

    /// The properties the sorted machine has, given those it had before.
    fn properties(&self, props: u64) -> (out: u64)
        ensures
            out == self.spec_properties(props),
    ;
}

/// Orders arcs by input label, then by output label.
#[derive(Debug, Clone, Copy)]
pub struct ILabelCompare;

/// Which of two pairs of labels comes first.
fn compare_labels(a: i32, b: i32, c: i32, d: i32) -> (order: Ordering)
    ensures
        order == Ordering::Less <==> a < c || (a == c && b < d),
        order == Ordering::Greater <==> c < a || (a == c && d < b),
{
    if a < c || (a == c && b < d) {
        Ordering::Less
    } else if a == c && b == d {
        Ordering::Equal
    } else {
        Ordering::Greater
    }
}

impl<W: Weight> ArcCompare<W> for ILabelCompare {
    open spec fn before(&self, lhs: Arc<W>, rhs: Arc<W>) -> bool {
        lhs.ilabel < rhs.ilabel || (lhs.ilabel == rhs.ilabel && lhs.olabel < rhs.olabel)
    }

    /// On an acceptor the two sides carry the same label, so sorting by one
    /// sorts by the other.
    open spec fn spec_properties(&self, props: u64) -> u64 {
        (props & K_ARC_SORT_PROPERTIES) | K_I_LABEL_SORTED | (if props & K_ACCEPTOR != 0 {
            K_O_LABEL_SORTED
        } else {
            0
        })
    }

    proof fn lemma_order(&self, a: Arc<W>, b: Arc<W>, c: Arc<W>) {
    }

    fn compare(&self, lhs: &Arc<W>, rhs: &Arc<W>) -> (order: Ordering) {
        compare_labels(lhs.ilabel, lhs.olabel, rhs.ilabel, rhs.olabel)
    }

    fn properties(&self, props: u64) -> (out: u64) {
        let other: u64 = if props & K_ACCEPTOR != 0 {
            K_O_LABEL_SORTED
        } else {
            0
        };
        (props & K_ARC_SORT_PROPERTIES) | K_I_LABEL_SORTED | other
    }
}

/// Orders arcs by output label, then by input label.
#[derive(Debug, Clone, Copy)]
pub struct OLabelCompare;

impl<W: Weight> ArcCompare<W> for OLabelCompare {
    open spec fn before(&self, lhs: Arc<W>, rhs: Arc<W>) -> bool {
        lhs.olabel < rhs.olabel || (lhs.olabel == rhs.olabel && lhs.ilabel < rhs.ilabel)
    }

    open spec fn spec_properties(&self, props: u64) -> u64 {
        (props & K_ARC_SORT_PROPERTIES) | K_O_LABEL_SORTED | (if props & K_ACCEPTOR != 0 {
            K_I_LABEL_SORTED
        } else {
            0
        })
    }

    proof fn lemma_order(&self, a: Arc<W>, b: Arc<W>, c: Arc<W>) {
    }

    fn compare(&self, lhs: &Arc<W>, rhs: &Arc<W>) -> (order: Ordering) {
        compare_labels(lhs.olabel, lhs.ilabel, rhs.olabel, rhs.ilabel)
    }

    fn properties(&self, props: u64) -> (out: u64) {
        let other: u64 = if props & K_ACCEPTOR != 0 {
            K_I_LABEL_SORTED
        } else {
            0
        };
        (props & K_ARC_SORT_PROPERTIES) | K_O_LABEL_SORTED | other
    }
}

/// Whether the arc at `i` has to stand before the arc at `j`: it compares less,
/// or compares equal and was there first.
pub open spec fn precedes<W: Weight, C: ArcCompare<W>>(comp: C, arcs: Seq<Arc<W>>, i: int, j: int) -> bool {
    comp.before(arcs[i], arcs[j]) || (!comp.before(arcs[j], arcs[i]) && i < j)
}

/// Whether `order` lists the positions of `arcs`, each once, in the order in
/// which a stable sort puts them.
pub open spec fn is_stable_order<W: Weight, C: ArcCompare<W>>(
    comp: C,
    arcs: Seq<Arc<W>>,
    order: Seq<usize>,
) -> bool {
    &&& order.len() == arcs.len()
    &&& forall|i: int| 0 <= i < order.len() ==> #[trigger] order[i] < arcs.len()
    &&& forall|i: int, j: int|
        0 <= i < j < order.len() ==> precedes(
            comp,
            arcs,
            #[trigger] order[i] as int,
            #[trigger] order[j] as int,
        )
}

/// Whether `sorted` is what a stable sort makes of `arcs`.
pub open spec fn is_stable_sort<W: Weight, C: ArcCompare<W>>(
    comp: C,
    arcs: Seq<Arc<W>>,
    sorted: Seq<Arc<W>>,
) -> bool {
    exists|order: Seq<usize>| #[trigger]
        is_stable_order(comp, arcs, order) && sorted == order.map_values(
            |i: usize| arcs[i as int],
        )
}

/// Whether `lhs` has to come before `rhs`.
fn goes_first<W: Weight, C: ArcCompare<W>>(comp: &C, lhs: &Arc<W>, rhs: &Arc<W>) -> (b: bool)
    ensures
        b == comp.before(*lhs, *rhs),
{
    match comp.compare(lhs, rhs) {
        Ordering::Less => true,
        _ => false,
    }
}

/// The positions of `arcs` in the order in which a stable sort puts them.
fn stable_order<W: Weight, C: ArcCompare<W>>(comp: &C, arcs: &Vec<Arc<W>>) -> (order: Vec<usize>)
    ensures
        is_stable_order(*comp, arcs@, order@),
{
    let mut order: Vec<usize> = Vec::new();
    let mut k: usize = 0;
    while k < arcs.len()
        invariant
            k <= arcs@.len(),
            order@.len() == k,
            forall|i: int| 0 <= i < k ==> #[trigger] order@[i] < k,
            forall|i: int, j: int|
                0 <= i < j < k ==> precedes(
                    *comp,
                    arcs@,
                    #[trigger] order@[i] as int,
                    #[trigger] order@[j] as int,
                ),
        decreases arcs@.len() - k,
    {
        let ghost before = order@;
        let mut at: usize = k;
        let mut done: bool = false;
        while !done
            invariant
                at <= k,
                k < arcs@.len(),
                order@ == before,
                before.len() == k,
                forall|i: int| 0 <= i < k ==> #[trigger] before[i] < k,
                forall|i: int|
                    at <= i < k ==> comp.before(arcs@[k as int], arcs@[#[trigger] before[i] as int]),
                done ==> at == 0 || !comp.before(arcs@[k as int], arcs@[before[at - 1] as int]),
            decreases
                    at,
                    if done {
                        0int
                    } else {
                        1int
                    },
        {
            if at == 0 {
                done = true;
            } else {
                if goes_first(comp, &arcs[k], &arcs[order[at - 1]]) {
                    at = at - 1;
                } else {
                    done = true;
                }
            }
        }
        order.insert(at, k);
        proof {
            let kk = k as int;
            let a = at as int;
            assert forall|i: int, j: int| 0 <= i < j < k + 1 implies precedes(
                *comp,
                arcs@,
                #[trigger] order@[i] as int,
                #[trigger] order@[j] as int,
            ) by {
                if i == a {
                    assert(order@[j] == before[j - 1]);
                    assert(comp.before(arcs@[kk], arcs@[before[j - 1] as int]));
                } else if j == a {
                    assert(order@[i] == before[i]);
                    if i < a - 1 {
                        assert(precedes(*comp, arcs@, before[i] as int, before[a - 1] as int));
                    }
                    comp.lemma_order(
                        arcs@[kk],
                        arcs@[before[a - 1] as int],
                        arcs@[before[i] as int],
                    );
                    comp.lemma_order(
                        arcs@[before[i] as int],
                        arcs@[before[a - 1] as int],
                        arcs@[kk],
                    );
                } else {
                    let ii = if i < a {
                        i
                    } else {
                        i - 1
                    };
                    let jj = if j < a {
                        j
                    } else {
                        j - 1
                    };
                    assert(order@[i] == before[ii] && order@[j] == before[jj]);
                    assert(precedes(*comp, arcs@, before[ii] as int, before[jj] as int));
                }
            }
        }
        k = k + 1;
    }
    order
}

/// Whether `w` is what sorting the arcs of `v` comes to.
pub open spec fn is_arc_sorted<W: Weight, C: ArcCompare<W>>(comp: C, v: FstV<W>, w: FstV<W>) -> bool {
    &&& w.start == v.start
    &&& w.isymbols == v.isymbols
    &&& w.osymbols == v.osymbols
    &&& w.props == set_bits(
        if v.n() == 0 {
            v.props
        } else {
            v.forget().props
        },
        comp.spec_properties(v.props & K_FST_PROPERTIES),
        K_FST_PROPERTIES,
    )
    &&& w.n() == v.n()
    &&& forall|s: int|
        0 <= s < v.n() ==> (#[trigger] w.states[s]).final_weight == v.states[s].final_weight
            && is_stable_sort(comp, v.states[s].arcs, w.states[s].arcs)
}

/// Sorts the arcs leaving every state of `fst`.
///
/// The sort is stable, so arcs that compare equal keep the order they were in.
/// That is not a detail: two arcs alike in labels but differing in weight or
/// destination are equal to both comparisons here, and an operation reading
/// them back has to see the same order every time.
pub fn arc_sort<W: Weight, C: ArcCompare<W>>(fst: &mut VectorFst<W>, comp: &C)
    ensures
        is_arc_sorted(*comp, old(fst)@, final(fst)@),
{
    let ghost v = fst@;
    let props: u64 = comp.properties(fst.known_properties(K_FST_PROPERTIES));
    let nstates: usize = fst.num_states();
    let mut s: usize = 0;
    while s < nstates
        invariant
            s <= nstates,
            nstates == v.n(),
            fst@.n() == v.n(),
            fst@.start == v.start,
            fst@.isymbols == v.isymbols,
            fst@.osymbols == v.osymbols,
            s == 0 ==> fst@.props == v.props,
            s > 0 ==> fst@.props == v.forget().props,
            forall|x: int|
                0 <= x < s ==> (#[trigger] fst@.states[x]).final_weight == v.states[x].final_weight
                    && is_stable_sort(*comp, v.states[x].arcs, fst@.states[x].arcs),
            forall|x: int| s <= x < v.n() ==> #[trigger] fst@.states[x] == v.states[x],
        decreases nstates - s,
    {
        let order = stable_order(comp, fst.arcs(s));
        let from = fst.arcs(s);
        let ghost arcs = from@;
        let mut sorted: Vec<Arc<W>> = Vec::new();
        let mut i: usize = 0;
        while i < order.len()
            invariant
                i <= order@.len(),
                from@ == arcs,
                is_stable_order(*comp, arcs, order@),
                sorted@ == order@.take(i as int).map_values(|k: usize| arcs[k as int]),
            decreases order@.len() - i,
        {
            assert(order@[i as int] < arcs.len());
            sorted.push(from[order[i]].duplicate());
            i = i + 1;
            assert(sorted@ =~= order@.take(i as int).map_values(|k: usize| arcs[k as int]));
        }
        assert(order@.take(order@.len() as int) =~= order@);
        assert(is_stable_sort(*comp, arcs, sorted@));
        proof {
            lemma_forget_forget(v);
        }
        fst.set_arcs(s, sorted);
        s = s + 1;
    }
    fst.set_properties(props, K_FST_PROPERTIES);
}

/// What a stable sort makes of arcs is in order.
pub proof fn law_sorted_arcs_are_in_order<W: Weight, C: ArcCompare<W>>(
    comp: C,
    arcs: Seq<Arc<W>>,
    sorted: Seq<Arc<W>>,
    i: int,
    j: int,
)
    requires
        is_stable_sort(comp, arcs, sorted),
        0 <= i < j < sorted.len(),
    ensures
        !comp.before(sorted[j], sorted[i]),
{
    let order = choose|order: Seq<usize>| #[trigger]
        is_stable_order(comp, arcs, order) && sorted == order.map_values(|i: usize| arcs[i as int]);
    assert(precedes(comp, arcs, order[i] as int, order[j] as int));
    comp.lemma_order(sorted[i], sorted[j], sorted[j]);
}

/// A stable sort keeps every arc, each as often as it was there.
pub proof fn law_sorting_permutes<W: Weight, C: ArcCompare<W>>(
    comp: C,
    arcs: Seq<Arc<W>>,
    sorted: Seq<Arc<W>>,
)
    requires
        is_stable_sort(comp, arcs, sorted),
    ensures
        sorted.len() == arcs.len(),
        exists|order: Seq<usize>| #[trigger]
            is_stable_order(comp, arcs, order) && order.no_duplicates() && forall|i: int|
                0 <= i < order.len() ==> sorted[i] == arcs[#[trigger] order[i] as int],
{
    let order = choose|order: Seq<usize>| #[trigger]
        is_stable_order(comp, arcs, order) && sorted == order.map_values(|i: usize| arcs[i as int]);
    assert forall|i: int, j: int| 0 <= i < j < order.len() implies order[i] != order[j] by {
        assert(precedes(comp, arcs, order[i] as int, order[j] as int));
        comp.lemma_order(arcs[order[i] as int], arcs[order[i] as int], arcs[order[i] as int]);
    }
    assert(order.no_duplicates());
}

/// Sorting arcs leaves a machine in order.
pub proof fn lemma_arc_sorted_wf<W: Weight, C: ArcCompare<W>>(comp: C, v: FstV<W>, w: FstV<W>)
    requires
        v.wf(),
        is_arc_sorted(comp, v, w),
    ensures
        w.wf(),
{
    assert forall|s: int, i: int| 0 <= s < w.n() && 0 <= i < w.states[s].arcs.len() implies (
    #[trigger] w.states[s].arcs[i]).nextstate < w.n() by {
        let arcs = v.states[s].arcs;
        let sorted = w.states[s].arcs;
        let order = choose|order: Seq<usize>| #[trigger]
            is_stable_order(comp, arcs, order) && sorted == order.map_values(
                |i: usize| arcs[i as int],
            );
        assert(v.states[s].arcs[order[i] as int].nextstate < v.n());
    }
}

} // verus!
