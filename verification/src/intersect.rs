//! What two acceptors both accept.
//!
//! Intersection is composition read on acceptors: an acceptor's two sides carry the
//! same label, so running one into the other keeps exactly the strings both have.
use crate::arc::Arc;
use crate::compose::{compose, composes};
use crate::compose_laws::{
    labels_are_plain, law_composed_paths_have_parts, law_paths_compose, multiplies_freely,
};
use crate::connect::succeeds;
use crate::error::OpenFstError;
use crate::inspect::{acceptor, said_acceptor};
use crate::matcher::{labels_sorted, said_sorted};
use crate::paths::{
    accepted_weight, end_of, is_acceptor, is_accepting, lemma_writes_what_is_read, reads,
};
use crate::vector_fst::{FstV, VectorFst};
use crate::weight::{spec_is_final, Weight};
use vstd::prelude::*;

verus! {

/// The acceptor accepting what `fst1` and `fst2` both accept.
///
/// Composition of two transducers is a different operation with a different
/// meaning, so asking for their intersection is an error.
pub fn intersect<W: Weight>(
    fst1: &VectorFst<W>,
    fst2: &VectorFst<W>,
    ofst: &mut VectorFst<W>,
) -> (result: Result<(), OpenFstError>)
    requires
        fst1@.wf(),
        fst2@.wf(),
    ensures
        result is Ok <==> said_acceptor(fst1@) && said_acceptor(fst2@) && (!said_sorted(
            fst1@,
            true,
        ) || labels_sorted(fst1@, true) || !said_sorted(fst2@, false) || labels_sorted(
            fst2@,
            false,
        )),
        result is Ok ==> composes(fst1@, fst2@, old(ofst)@, true, final(ofst)@),
        result matches Err(e) ==> e is InvalidOperation,
        !said_acceptor(fst1@) || !said_acceptor(fst2@) ==> final(ofst)@ == old(ofst)@,
{
    if !acceptor(fst1) {
        return Err(
            OpenFstError::InvalidOperation("Intersect: the 1st argument is not an acceptor"),
        );
    }
    if !acceptor(fst2) {
        return Err(
            OpenFstError::InvalidOperation("Intersect: the 2nd argument is not an acceptor"),
        );
    }
    compose(fst1, fst2, ofst)
}

/// What two acceptors both accept, their intersection accepts, and it weighs what the
/// two weigh together.
pub proof fn law_intersection_accepts_what_both_do<W: Weight>(
    v1: FstV<W>,
    v2: FstV<W>,
    o: FstV<W>,
    c: FstV<W>,
    run1: Seq<Arc<W>>,
    run2: Seq<Arc<W>>,
) -> (run: Seq<Arc<W>>)
    requires
        v1.wf(),
        v2.wf(),
        is_acceptor(v1),
        labels_are_plain(v1, v2),
        composes(v1, v2, o, true, c),
        is_accepting(v1, run1),
        is_accepting(v2, run2),
        reads(run1) == reads(run2),
        spec_is_final(
            v1.fin(end_of(v1.start->0 as int, run1)).spec_times(
                v2.fin(end_of(v2.start->0 as int, run2)),
            ),
        ),
    ensures
        is_accepting(c, run),
        reads(run) == reads(run1),
        multiplies_freely::<W>() ==> accepted_weight(c, run) == accepted_weight(
            v1,
            run1,
        ).spec_times(accepted_weight(v2, run2)),
{
    lemma_writes_what_is_read(v1, v1.start->0 as int, run1);
    law_paths_compose(v1, v2, o, true, c, run1, run2)
}

/// What the intersection of two acceptors accepts, both accept.
pub proof fn law_intersection_accepts_nothing_else<W: Weight>(
    v1: FstV<W>,
    v2: FstV<W>,
    o: FstV<W>,
    c: FstV<W>,
    run: Seq<Arc<W>>,
) -> (runs: (Seq<Arc<W>>, Seq<Arc<W>>))
    requires
        v1.wf(),
        v2.wf(),
        is_acceptor(v1),
        labels_are_plain(v1, v2),
        composes(v1, v2, o, true, c),
        succeeds(c, run),
    ensures
        is_accepting(v1, runs.0),
        is_accepting(v2, runs.1),
        reads(run) == reads(runs.0),
        reads(run) == reads(runs.1),
{
    let (run1, run2) = law_composed_paths_have_parts(v1, v2, o, true, c, run);
    lemma_writes_what_is_read(v1, v1.start->0 as int, run1);
    (run1, run2)
}

} // verus!
