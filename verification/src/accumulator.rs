//! Summing the weights of a run of arcs.
//!
//! Looking ahead asks, over and over, what the arcs in some range of a state weigh
//! together.
use crate::arc::Arc;
use crate::error::OpenFstError;
use crate::vector_fst::{FstV, VectorFst};
use crate::weight::Weight;
use vstd::prelude::*;

verus! {

/// Sums the weights of arcs.
pub trait WeightAccumulator<W: Weight>: Sized {
    /// What two weights sum to.
    spec fn adder(&self) -> spec_fn(W, W) -> W;

    /// Whether the arcs of `v` can be prepared for.
    spec fn takes(&self, v: FstV<W>) -> bool;

    /// Prepares for the arcs of `fst`. What a sum comes to does not change.
    fn init(&mut self, fst: &VectorFst<W>) -> (result: Result<(), OpenFstError>)
        ensures
            result is Ok <==> old(self).takes(fst@),
            final(self).adder() == old(self).adder(),
    ;

    /// Says which state the next ranges come from. What a sum comes to does not
    /// change.
    fn set_state(&mut self, state: usize)
        ensures
            final(self).adder() == old(self).adder(),
    ;

    /// The sum of two weights.
    fn sum(&self, w: &W, v: &W) -> (sum: W)
        ensures
            sum == self.adder()(*w, *v),
    ;

    /// `w` plus the weights of the arcs from `begin` up to `end`, as far as there
    /// are so many.
    fn sum_range(&mut self, w: &W, arcs: &Vec<Arc<W>>, begin: usize, end: usize) -> (sum: W)
        ensures
            sum == sum_over(old(self).adder(), *w, arcs@, begin as int, range_end(arcs@, end as int)),
            final(self).adder() == old(self).adder(),
    ;
}

/// Where a range of arcs ends: at `end`, or with the arcs.
pub open spec fn range_end<W>(arcs: Seq<Arc<W>>, end: int) -> int {
    if end <= arcs.len() {
        end
    } else {
        arcs.len() as int
    }
}

/// `w` plus the weights of the arcs from `begin` up to `end`, in this order.
pub open spec fn sum_over<W>(
    adder: spec_fn(W, W) -> W,
    w: W,
    arcs: Seq<Arc<W>>,
    begin: int,
    end: int,
) -> W
    decreases end - begin,
{
    if end <= begin {
        w
    } else {
        adder(sum_over(adder, w, arcs, begin, end - 1), arcs[end - 1].weight)
    }
}

/// Sums with the semiring's own addition, walking the range.
///
/// Nothing is precomputed, so a range of `n` arcs costs `n` additions.
#[derive(Debug, Clone, Copy, Default)]
pub struct DefaultAccumulator;

impl<W: Weight> WeightAccumulator<W> for DefaultAccumulator {
    open spec fn adder(&self) -> spec_fn(W, W) -> W {
        |w: W, v: W| w.spec_plus(v)
    }

    open spec fn takes(&self, v: FstV<W>) -> bool {
        true
    }

    fn init(&mut self, _fst: &VectorFst<W>) -> (result: Result<(), OpenFstError>) {
        Ok(())
    }

    fn set_state(&mut self, _state: usize) {
    }

    fn sum(&self, w: &W, v: &W) -> (sum: W) {
        w.plus(v)
    }

    fn sum_range(&mut self, w: &W, arcs: &Vec<Arc<W>>, begin: usize, end: usize) -> (sum: W) {
        let ghost adder: spec_fn(W, W) -> W = WeightAccumulator::<W>::adder(&*self);
        let mut sum: W = w.duplicate();
        let last: usize = if end <= arcs.len() {
            end
        } else {
            arcs.len()
        };
        let mut i: usize = begin;
        while i < last
            invariant
                begin <= i,
                i <= last || i == begin,
                last <= arcs@.len(),
                adder == WeightAccumulator::<W>::adder(&*self),
                sum == sum_over(adder, *w, arcs@, begin as int, i as int),
            decreases last - i,
        {
            sum = self.sum(&sum, &arcs[i].weight);
            i += 1;
        }
        sum
    }
}

/// A weight that can be read as a log weight: as how much probability there is, the
/// more the less it weighs.
pub trait LogValued: Weight {
    /// The numbers that log weights are worked out in.
    type Log: Copy;

    /// The number that stands for no probability at all.
    spec fn spec_no_mass() -> Self::Log;

    /// The number that a weight is, read as a log weight.
    spec fn spec_log(self) -> Self::Log;

    /// The weight that a number is.
    spec fn spec_of_log(log: Self::Log) -> Self;

    /// The sum of two numbers in the log semiring.
    spec fn spec_gather(a: Self::Log, b: Self::Log) -> Self::Log;

    /// What is to be added to `part` for `all`, which is less.
    spec fn spec_remainder(all: Self::Log, part: Self::Log) -> Self::Log;

    /// Whether a number is less than another.
    spec fn spec_less(a: Self::Log, b: Self::Log) -> bool;

    /// The number that stands for no probability at all.
    fn no_mass() -> (log: Self::Log)
        ensures
            log == Self::spec_no_mass(),
    ;

    /// The number that a weight is, read as a log weight.
    fn log(&self) -> (log: Self::Log)
        ensures
            log == self.spec_log(),
    ;

    /// The weight that a number is.
    fn of_log(log: Self::Log) -> (w: Self)
        ensures
            w == Self::spec_of_log(log),
    ;

    /// The sum of two numbers in the log semiring.
    fn gather(a: Self::Log, b: Self::Log) -> (log: Self::Log)
        ensures
            log == Self::spec_gather(a, b),
    ;

    /// What is to be added to `part` for `all`, which is less.
    fn remainder(all: Self::Log, part: Self::Log) -> (log: Self::Log)
        requires
            Self::spec_less(all, part),
        ensures
            log == Self::spec_remainder(all, part),
    ;

    /// Whether a number is less than another.
    fn less(a: Self::Log, b: Self::Log) -> (less: bool)
        ensures
            less == Self::spec_less(a, b),
    ;
}

/// The sum of two weights read as log weights.
pub open spec fn log_sum<W: LogValued>(w: W, v: W) -> W {
    if w == W::spec_zero() {
        v
    } else {
        W::spec_of_log(W::spec_gather(w.spec_log(), v.spec_log()))
    }
}

/// The sum of two weights read as log weights, as a function.
pub open spec fn log_adder<W: LogValued>() -> spec_fn(W, W) -> W {
    |w: W, v: W| log_sum(w, v)
}

/// The sum of two weights read as log weights.
pub fn log_plus<W: LogValued>(w: &W, v: &W) -> (sum: W)
    ensures
        sum == log_sum(*w, *v),
{
    let zero = W::zero();
    if w.same(&zero) {
        v.duplicate()
    } else {
        W::of_log(W::gather(w.log(), v.log()))
    }
}

/// `w` plus the weights of the arcs from `begin` up to `end`, read as log weights.
pub fn log_walk<W: LogValued>(w: &W, arcs: &Vec<Arc<W>>, begin: usize, end: usize) -> (sum: W)
    ensures
        sum == sum_over(log_adder(), *w, arcs@, begin as int, range_end(arcs@, end as int)),
{
    let mut sum: W = w.duplicate();
    let last: usize = if end <= arcs.len() {
        end
    } else {
        arcs.len()
    };
    let mut i: usize = begin;
    while i < last
        invariant
            begin <= i,
            i <= last || i == begin,
            last <= arcs@.len(),
            sum == sum_over(log_adder(), *w, arcs@, begin as int, i as int),
        decreases last - i,
    {
        sum = log_plus(&sum, &arcs[i].weight);
        i += 1;
    }
    sum
}

/// Sums in the log semiring, walking the range.
///
/// The weights are read as log weights whatever semiring they belong to: how much
/// probability mass lies in a range, rather than what the semiring says the best
/// path is.
#[derive(Debug, Clone, Copy, Default)]
pub struct LogAccumulator;

impl<W: LogValued> WeightAccumulator<W> for LogAccumulator {
    open spec fn adder(&self) -> spec_fn(W, W) -> W {
        log_adder()
    }

    open spec fn takes(&self, v: FstV<W>) -> bool {
        true
    }

    fn init(&mut self, _fst: &VectorFst<W>) -> (result: Result<(), OpenFstError>) {
        Ok(())
    }

    fn set_state(&mut self, _state: usize) {
    }

    fn sum(&self, w: &W, v: &W) -> (sum: W) {
        log_plus(w, v)
    }

    fn sum_range(&mut self, w: &W, arcs: &Vec<Arc<W>>, begin: usize, end: usize) -> (sum: W) {
        log_walk(w, arcs, begin, end)
    }
}

/// A range cut in two sums to the same: going on from what the first part came to
/// is going over the whole.
pub proof fn law_sums_join<W>(
    adder: spec_fn(W, W) -> W,
    w: W,
    arcs: Seq<Arc<W>>,
    begin: int,
    middle: int,
    end: int,
)
    requires
        0 <= begin <= middle <= end <= arcs.len(),
    ensures
        sum_over(adder, sum_over(adder, w, arcs, begin, middle), arcs, middle, end) == sum_over(
            adder,
            w,
            arcs,
            begin,
            end,
        ),
    decreases end - middle,
{
    if middle < end {
        law_sums_join(adder, w, arcs, begin, middle, end - 1);
    }
}

} // verus!
