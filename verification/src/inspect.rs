//! What holds of a machine, by what is known of it or by looking.
use crate::arc::{Arc, EPSILON};
use crate::project::is_acceptor;
use crate::properties::{
    K_ACCEPTOR, K_I_DETERMINISTIC, K_NON_I_DETERMINISTIC, K_NOT_ACCEPTOR, K_NO_EPSILONS,
    K_NO_I_EPSILONS, K_EPSILONS, K_I_EPSILONS, K_UNWEIGHTED, K_WEIGHTED,
};
use crate::vector_fst::{FstV, VectorFst};
use crate::weight::Weight;
use vstd::prelude::*;

verus! {

/// What is said of a machine: what is known, or where nothing is, the truth.
pub open spec fn said<W: Weight>(v: FstV<W>, is: u64, is_not: u64, truth: bool) -> bool {
    if v.props & is != 0 {
        true
    } else if v.props & is_not != 0 {
        false
    } else {
        truth
    }
}

/// What is known of a machine, one way or the other.
fn known<W: Weight>(fst: &VectorFst<W>, is: u64, is_not: u64) -> (answer: Option<bool>)
    ensures
        answer == (if fst@.props & is != 0 {
            Some(true)
        } else if fst@.props & is_not != 0 {
            Some(false)
        } else {
            None
        }),
{
    if fst.known_properties(is) != 0 {
        Some(true)
    } else if fst.known_properties(is_not) != 0 {
        Some(false)
    } else {
        None
    }
}

/// Whether an arc passes.
pub trait ArcTest<W: Weight> {
    /// Whether the arc passes.
    spec fn passes(&self, arc: Arc<W>) -> bool;

    /// Whether the arc passes.
    fn test(&self, arc: &Arc<W>) -> (b: bool)
        ensures
            b == self.passes(*arc),
    ;
}

/// Whether every arc passes.
pub open spec fn all_pass<W: Weight, T: ArcTest<W>>(v: FstV<W>, test: T) -> bool {
    forall|s: int, i: int|
        0 <= s < v.n() && 0 <= i < v.arcs(s).len() ==> test.passes(#[trigger] v.arcs(s)[i])
}

/// Whether every arc passes.
fn check_all<W: Weight, T: ArcTest<W>>(fst: &VectorFst<W>, test: &T) -> (b: bool)
    ensures
        b == all_pass(fst@, *test),
{
    let n: usize = fst.num_states();
    let mut s: usize = 0;
    while s < n
        invariant
            s <= n,
            n == fst@.n(),
            forall|t: int, i: int|
                0 <= t < s && 0 <= i < fst@.arcs(t).len() ==> test.passes(
                    #[trigger] fst@.arcs(t)[i],
                ),
        decreases n - s,
    {
        let arcs = fst.arcs(s);
        let mut i: usize = 0;
        while i < arcs.len()
            invariant
                i <= arcs@.len(),
                s < n,
                n == fst@.n(),
                arcs@ == fst@.arcs(s as int),
                forall|j: int| 0 <= j < i ==> test.passes(#[trigger] arcs@[j]),
            decreases arcs@.len() - i,
        {
            if !test.test(&arcs[i]) {
                assert(!test.passes(fst@.arcs(s as int)[i as int]));
                return false;
            }
            i = i + 1;
        }
        s = s + 1;
    }
    true
}

/// Passes an arc that writes what it reads.
pub struct SameLabels;

impl<W: Weight> ArcTest<W> for SameLabels {
    open spec fn passes(&self, arc: Arc<W>) -> bool {
        arc.ilabel == arc.olabel
    }

    fn test(&self, arc: &Arc<W>) -> (b: bool) {
        arc.ilabel == arc.olabel
    }
}

/// Passes an arc that reads something.
pub struct ReadsSomething;

impl<W: Weight> ArcTest<W> for ReadsSomething {
    open spec fn passes(&self, arc: Arc<W>) -> bool {
        arc.ilabel != EPSILON
    }

    fn test(&self, arc: &Arc<W>) -> (b: bool) {
        arc.ilabel != EPSILON
    }
}

/// Passes an arc that reads or writes something.
pub struct NoEpsilon;

impl<W: Weight> ArcTest<W> for NoEpsilon {
    open spec fn passes(&self, arc: Arc<W>) -> bool {
        arc.ilabel != EPSILON || arc.olabel != EPSILON
    }

    fn test(&self, arc: &Arc<W>) -> (b: bool) {
        arc.ilabel != EPSILON || arc.olabel != EPSILON
    }
}

/// Passes an arc that weighs one or zero.
pub struct NoWeight;

/// Whether a weight is one or zero.
pub open spec fn is_plain<W: Weight>(w: W) -> bool {
    w == W::spec_one() || w == W::spec_zero()
}

/// Whether a weight is one or zero.
fn check_plain<W: Weight>(w: &W) -> (b: bool)
    ensures
        b == is_plain(*w),
{
    w.same(&W::one()) || w.same(&W::zero())
}

impl<W: Weight> ArcTest<W> for NoWeight {
    open spec fn passes(&self, arc: Arc<W>) -> bool {
        is_plain(arc.weight)
    }

    fn test(&self, arc: &Arc<W>) -> (b: bool) {
        check_plain(&arc.weight)
    }
}

/// Whether a machine is said to be an acceptor.
pub open spec fn said_acceptor<W: Weight>(v: FstV<W>) -> bool {
    said(v, K_ACCEPTOR, K_NOT_ACCEPTOR, is_acceptor(v))
}

/// Whether a machine is said to be an acceptor.
pub fn acceptor<W: Weight>(fst: &VectorFst<W>) -> (b: bool)
    ensures
        b == said_acceptor(fst@),
{
    match known(fst, K_ACCEPTOR, K_NOT_ACCEPTOR) {
        Some(b) => b,
        None => {
            let b = check_all(fst, &SameLabels);
            proof {
                let v = fst@;
                if b {
                    assert forall|s: int, i: int|
                        0 <= s < v.n() && 0 <= i < v.states[s].arcs.len() implies (
                    #[trigger] v.states[s].arcs[i]).ilabel == v.states[s].arcs[i].olabel by {
                        assert(SameLabels.passes(v.arcs(s)[i]));
                    }
                } else {
                    let (s, i) = choose|s: int, i: int|
                        0 <= s < v.n() && 0 <= i < v.arcs(s).len() && !SameLabels.passes(
                            #[trigger] v.arcs(s)[i],
                        );
                    assert(v.states[s].arcs[i].ilabel != v.states[s].arcs[i].olabel);
                }
            }
            b
        },
    }
}

/// Whether a machine is said to have no arc that reads nothing.
pub open spec fn said_no_input_epsilons<W: Weight>(v: FstV<W>) -> bool {
    said(v, K_NO_I_EPSILONS, K_I_EPSILONS, all_pass(v, ReadsSomething))
}

/// Whether a machine is said to have no arc that reads nothing.
pub fn no_input_epsilons<W: Weight>(fst: &VectorFst<W>) -> (b: bool)
    ensures
        b == said_no_input_epsilons(fst@),
{
    match known(fst, K_NO_I_EPSILONS, K_I_EPSILONS) {
        Some(b) => b,
        None => check_all(fst, &ReadsSomething),
    }
}

/// Whether a machine is said to have no arc that reads and writes nothing.
pub open spec fn said_no_epsilons<W: Weight>(v: FstV<W>) -> bool {
    said(v, K_NO_EPSILONS, K_EPSILONS, all_pass(v, NoEpsilon))
}

/// Whether a machine is said to have no arc that reads and writes nothing.
pub fn no_epsilons<W: Weight>(fst: &VectorFst<W>) -> (b: bool)
    ensures
        b == said_no_epsilons(fst@),
{
    match known(fst, K_NO_EPSILONS, K_EPSILONS) {
        Some(b) => b,
        None => check_all(fst, &NoEpsilon),
    }
}

/// Whether nothing in a machine weighs anything.
pub open spec fn is_unweighted<W: Weight>(v: FstV<W>) -> bool {
    all_pass(v, NoWeight) && forall|s: int| 0 <= s < v.n() ==> is_plain(#[trigger] v.fin(s))
}

/// Whether nothing in a machine is said to weigh anything.
pub open spec fn said_unweighted<W: Weight>(v: FstV<W>) -> bool {
    said(v, K_UNWEIGHTED, K_WEIGHTED, is_unweighted(v))
}

/// Whether nothing in a machine is said to weigh anything.
pub fn unweighted<W: Weight>(fst: &VectorFst<W>) -> (b: bool)
    ensures
        b == said_unweighted(fst@),
{
    match known(fst, K_UNWEIGHTED, K_WEIGHTED) {
        Some(b) => b,
        None => check_unweighted(fst),
    }
}

/// Whether nothing in a machine weighs anything.
fn check_unweighted<W: Weight>(fst: &VectorFst<W>) -> (b: bool)
    ensures
        b == is_unweighted(fst@),
{
    let n: usize = fst.num_states();
    let mut s: usize = 0;
    while s < n
        invariant
            s <= n,
            n == fst@.n(),
            forall|t: int| 0 <= t < s ==> is_plain(#[trigger] fst@.fin(t)),
        decreases n - s,
    {
        if !check_plain(&fst.final_weight(s)) {
            assert(!is_plain(fst@.fin(s as int)));
            return false;
        }
        s = s + 1;
    }
    check_all(fst, &NoWeight)
}

/// Whether no two arcs of a state read the same label.
pub open spec fn reads_once<W>(arcs: Seq<Arc<W>>) -> bool {
    forall|i: int, j: int|
        0 <= i < j < arcs.len() ==> (#[trigger] arcs[i]).ilabel != (#[trigger] arcs[j]).ilabel
}

/// Whether no two arcs of any state read the same label.
pub open spec fn is_input_deterministic<W: Weight>(v: FstV<W>) -> bool {
    forall|s: int| 0 <= s < v.n() ==> #[trigger] reads_once(v.arcs(s))
}

/// Whether no two arcs of any state are said to read the same label.
pub open spec fn said_input_deterministic<W: Weight>(v: FstV<W>) -> bool {
    said(v, K_I_DETERMINISTIC, K_NON_I_DETERMINISTIC, is_input_deterministic(v))
}

/// Whether no two arcs of any state are said to read the same label.
pub fn input_deterministic<W: Weight>(fst: &VectorFst<W>) -> (b: bool)
    ensures
        b == said_input_deterministic(fst@),
{
    match known(fst, K_I_DETERMINISTIC, K_NON_I_DETERMINISTIC) {
        Some(b) => b,
        None => check_input_deterministic(fst),
    }
}

/// Whether no two arcs of any state read the same label.
fn check_input_deterministic<W: Weight>(fst: &VectorFst<W>) -> (b: bool)
    ensures
        b == is_input_deterministic(fst@),
{
    let n: usize = fst.num_states();
    let mut s: usize = 0;
    while s < n
        invariant
            s <= n,
            n == fst@.n(),
            forall|t: int| 0 <= t < s ==> #[trigger] reads_once(fst@.arcs(t)),
        decreases n - s,
    {
        if !check_reads_once(fst.arcs(s)) {
            assert(!reads_once(fst@.arcs(s as int)));
            return false;
        }
        s = s + 1;
    }
    true
}

/// Whether no two arcs of a state read the same label.
fn check_reads_once<W>(arcs: &Vec<Arc<W>>) -> (b: bool)
    ensures
        b == reads_once(arcs@),
{
    let mut j: usize = 0;
    while j < arcs.len()
        invariant
            j <= arcs@.len(),
            forall|x: int, y: int|
                0 <= x < y < j ==> (#[trigger] arcs@[x]).ilabel != (#[trigger] arcs@[y]).ilabel,
        decreases arcs@.len() - j,
    {
        let mut i: usize = 0;
        while i < j
            invariant
                i <= j,
                j < arcs@.len(),
                forall|x: int| 0 <= x < i ==> (#[trigger] arcs@[x]).ilabel != arcs@[j as int].ilabel,
            decreases j - i,
        {
            if arcs[i].ilabel == arcs[j].ilabel {
                return false;
            }
            i = i + 1;
        }
        j = j + 1;
    }
    true
}

} // verus!
