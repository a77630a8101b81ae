//! Arcs, and the labels and states they name.
use crate::weight::Weight;
use vstd::prelude::*;

verus! {

/// The label that reads or writes nothing.
pub const EPSILON: i32 = 0;

/// The label of no arc at all.
pub const NO_LABEL: i32 = -1;

/// The state of no machine at all.
pub const NO_STATE: usize = usize::MAX;

/// An arc: what it reads, what it writes, what it weighs and where it leads.
#[derive(Debug, PartialEq, Eq)]
pub struct Arc<W> {
    /// The label read.
    pub ilabel: i32,
    /// The label written.
    pub olabel: i32,
    /// The weight taken on.
    pub weight: W,
    /// The state reached.
    pub nextstate: usize,
}

impl<W: Weight> Arc<W> {
    /// An arc from its parts.
    pub fn new(ilabel: i32, olabel: i32, weight: W, nextstate: usize) -> (arc: Self)
        ensures
            arc == (Arc { ilabel, olabel, weight, nextstate }),
    {
        Arc { ilabel, olabel, weight, nextstate }
    }

    /// An arc equal to this one.
    pub fn duplicate(&self) -> (arc: Self)
        ensures
            arc == *self,
    {
        Arc {
            ilabel: self.ilabel,
            olabel: self.olabel,
            weight: self.weight.duplicate(),
            nextstate: self.nextstate,
        }
    }

    /// This arc, leading elsewhere.
    pub fn redirected(&self, nextstate: usize) -> (arc: Self)
        ensures
            arc == (Arc { nextstate, ..*self }),
    {
        Arc {
            ilabel: self.ilabel,
            olabel: self.olabel,
            weight: self.weight.duplicate(),
            nextstate,
        }
    }
}

} // verus!
