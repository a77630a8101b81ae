//! Deciding which arcs an algorithm looks at.
use crate::arc::{Arc, EPSILON};
use crate::weight::Weight;
use vstd::prelude::*;

verus! {

/// Decides which arcs are looked at.
pub trait ArcFilter<W: Weight> {
    /// Whether `arc` is looked at.
    spec fn accepts(&self, arc: Arc<W>) -> bool;

    /// Whether `arc` is looked at.
    fn call(&self, arc: &Arc<W>) -> (b: bool)
        ensures
            b == self.accepts(*arc),
    ;
}

/// Looks at every arc.
#[derive(Debug, Clone, Copy)]
pub struct AnyArcFilter;

impl<W: Weight> ArcFilter<W> for AnyArcFilter {
    open spec fn accepts(&self, arc: Arc<W>) -> bool {
        true
    }

    fn call(&self, _arc: &Arc<W>) -> (b: bool) {
        true
    }
}

/// Looks at the arcs that read and write nothing.
#[derive(Debug, Clone, Copy)]
pub struct EpsilonArcFilter;

impl<W: Weight> ArcFilter<W> for EpsilonArcFilter {
    open spec fn accepts(&self, arc: Arc<W>) -> bool {
        arc.ilabel == EPSILON && arc.olabel == EPSILON
    }

    fn call(&self, arc: &Arc<W>) -> (b: bool) {
        arc.ilabel == EPSILON && arc.olabel == EPSILON
    }
}

} // verus!
