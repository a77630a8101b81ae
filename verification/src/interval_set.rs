//! Sets of numbers, kept as runs of consecutive ones.
use vstd::prelude::*;

verus! {

/// A run of numbers: from `begin` up to, but not including, `end`.
#[derive(Debug, Clone, Copy, PartialEq, Eq)]
pub struct Interval {
    /// The first number.
    pub begin: usize,
    /// The number after the last.
    pub end: usize,
}

/// A set of numbers, as few runs as there are gaps in it.
#[derive(Debug)]
pub struct IntervalSet {
    intervals: Vec<Interval>,
}

impl View for IntervalSet {
    type V = Seq<Interval>;

    closed spec fn view(&self) -> Seq<Interval> {
        self.intervals@
    }
}

/// Whether one of the runs holds `i`.
pub open spec fn held(intervals: Seq<Interval>, i: int) -> bool {
    exists|k: int| 0 <= k < intervals.len() && within_run(#[trigger] intervals[k], i)
}

/// Whether the run holds `i`.
pub open spec fn within_run(interval: Interval, i: int) -> bool {
    interval.begin <= i < interval.end
}

/// Whether the runs are in order, none empty and none touching the next.
pub open spec fn separated(intervals: Seq<Interval>) -> bool {
    &&& forall|k: int| 0 <= k < intervals.len() ==> (#[trigger] intervals[k]).begin < intervals[k].end
    &&& forall|j: int, k: int|
        0 <= j < k < intervals.len() ==> (#[trigger] intervals[j]).end < (#[trigger] intervals[k]).begin
}

impl IntervalSet {
    /// The set of no numbers.
    pub fn new() -> (set: Self)
        ensures
            set@ == Seq::<Interval>::empty(),
    {
        IntervalSet { intervals: Vec::new() }
    }

    /// How many runs there are.
    pub fn size(&self) -> (n: usize)
        ensures
            n == self@.len(),
    {
        self.intervals.len()
    }

    /// Whether `i` is in the set.
    pub fn member(&self, i: usize) -> (b: bool)
        ensures
            b == held(self@, i as int),
    {
        let mut k: usize = 0;
        while k < self.intervals.len()
            invariant
                k <= self.intervals@.len(),
                forall|j: int| 0 <= j < k ==> !within_run(#[trigger] self.intervals@[j], i as int),
            decreases self.intervals@.len() - k,
        {
            let run = self.intervals[k];
            if run.begin <= i && i < run.end {
                assert(within_run(self.intervals@[k as int], i as int));
                return true;
            }
            k += 1;
        }
        false
    }

    /// The set of the numbers one past the places where a flag is set.
    pub fn from_flags(flags: &Vec<bool>) -> (set: Self)
        requires
            flags@.len() < usize::MAX,
        ensures
            separated(set@),
            forall|i: int| #[trigger] held(set@, i) <==> 1 <= i <= flags@.len() && flags@[i - 1],
    {
        let mut intervals: Vec<Interval> = Vec::new();
        let mut i: usize = 0;
        while i < flags.len()
            invariant
                i <= flags@.len(),
                flags@.len() < usize::MAX,
                separated(intervals@),
                forall|k: int| 0 <= k < intervals@.len() ==> (#[trigger] intervals@[k]).end <= i + 1,
                forall|j: int| #[trigger]
                    held(intervals@, j) <==> 1 <= j <= i && flags@[j - 1],
            decreases flags@.len() - i,
        {
            let ghost before = intervals@;
            if flags[i] {
                let n: usize = intervals.len();
                if n > 0 && intervals[n - 1].end == i + 1 {
                    let begin: usize = intervals[n - 1].begin;
                    intervals.set(n - 1, Interval { begin, end: i + 2 });
                } else {
                    intervals.push(Interval { begin: i + 1, end: i + 2 });
                }
                proof {
                    lemma_one_more(before, intervals@, i + 1);
                }
            }
            i += 1;
        }
        IntervalSet { intervals }
    }
}

/// Letting the last run end one further, or beginning a run, adds the one number.
proof fn lemma_one_more(before: Seq<Interval>, after: Seq<Interval>, i: int)
    requires
        forall|k: int| 0 <= k < before.len() ==> (#[trigger] before[k]).end <= i,
        after == before.push(Interval { begin: i as usize, end: (i + 1) as usize }) || (before.len()
            > 0 && before.last().begin < before.last().end == i && after == before.update(
            before.len() - 1,
            Interval { begin: before.last().begin, end: (i + 1) as usize },
        )),
        0 <= i < usize::MAX,
    ensures
        forall|j: int| #[trigger] held(after, j) <==> held(before, j) || j == i,
{
    let m = after.len() - 1;
    assert forall|j: int| #[trigger] held(after, j) <==> held(before, j) || j == i by {
        if held(after, j) {
            let k = choose|k: int| 0 <= k < after.len() && within_run(#[trigger] after[k], j);
            if k < before.len() && j != i {
                assert(within_run(before[k], j));
            }
        }
        if held(before, j) {
            let k = choose|k: int| 0 <= k < before.len() && within_run(#[trigger] before[k], j);
            assert(within_run(after[k], j));
        }
        if j == i {
            assert(within_run(after[m], j));
        }
    }
}

} // verus!
