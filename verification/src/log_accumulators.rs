//! Summing long runs of arcs from sums that were stored on the way.
//!
//! For a state with many arcs, walking a range each time is the cost that matters. The
//! accumulators here trade space for that: a sum stored every so many arcs turns the sum
//! of a range into a subtraction. Subtraction is why they sum in the log semiring rather
//! than in an arbitrary one, which has no inverse for its addition.
use crate::accumulator::{log_adder, log_plus, log_sum, log_walk, range_end, sum_over, LogValued};
use crate::arc::Arc;
use crate::error::OpenFstError;
use crate::hash_table::Table;
use crate::vector_fst::{FstV, VectorFst};
use vstd::arithmetic::div_mod::{lemma_fundamental_div_mod, lemma_fundamental_div_mod_converse};
use vstd::prelude::*;

verus! {

/// The sum of the first `n` arcs, as a number.
pub open spec fn mass<W: LogValued>(arcs: Seq<Arc<W>>, n: int) -> W::Log
    decreases n,
{
    if n <= 0 {
        W::spec_no_mass()
    } else {
        W::spec_gather(mass(arcs, n - 1), arcs[n - 1].weight.spec_log())
    }
}

/// `w` plus what `all` is more than `part`. Where it is not less, the arcs between them
/// weigh nothing, and nothing is added.
pub open spec fn with_remainder<W: LogValued>(w: W, all: W::Log, part: W::Log) -> W {
    if W::spec_less(all, part) {
        log_sum(w, W::spec_of_log(W::spec_remainder(all, part)))
    } else {
        w
    }
}

/// `w` plus what `all` is more than `part`.
fn add_remainder<W: LogValued>(w: W, all: W::Log, part: W::Log) -> (sum: W)
    ensures
        sum == with_remainder(w, all, part),
{
    if W::less(all, part) {
        let between = W::of_log(W::remainder(all, part));
        log_plus(&w, &between)
    } else {
        w
    }
}

/// How many sums are stored for a state with `n` arcs: none for a state with few, and
/// otherwise that of no arc and one every `period` arcs.
pub open spec fn points(limit: int, period: int, n: int) -> int {
    if n < limit {
        0
    } else {
        1 + n / period
    }
}

/// How many sums are stored for the first `k` states.
pub open spec fn all_points<W: LogValued>(limit: int, period: int, v: FstV<W>, k: int) -> int
    decreases k,
{
    if k <= 0 {
        0
    } else {
        all_points(limit, period, v, k - 1) + points(limit, period, v.arcs(k - 1).len() as int)
    }
}

/// The sum stored at `k` in the run that starts at `base`.
pub open spec fn point<L>(sums: Seq<L>, base: int, k: int) -> L {
    sums[base + k]
}

/// Whether the run that starts at `base` is that of a state's arcs.
pub open spec fn holds_run<W: LogValued>(
    period: int,
    sums: Seq<W::Log>,
    base: int,
    arcs: Seq<Arc<W>>,
) -> bool {
    &&& base + arcs.len() as int / period < sums.len()
    &&& forall|k: int|
        0 <= k <= arcs.len() as int / period ==> #[trigger] point(sums, base, k) == mass(
            arcs,
            k * period,
        )
}

/// Whether a state's run is stored, and where, as it should be.
pub open spec fn is_placed<W: LogValued>(
    limit: int,
    period: int,
    sums: Seq<W::Log>,
    place: Option<usize>,
    arcs: Seq<Arc<W>>,
) -> bool {
    match place {
        Some(base) => limit <= arcs.len() && holds_run(period, sums, base as int, arcs),
        None => arcs.len() < limit,
    }
}

/// The number of the first stored point at or after `begin`.
pub open spec fn first_point(period: int, begin: int) -> int {
    if begin > 0 {
        (begin - 1) / period + 1
    } else {
        0
    }
}

/// `w` plus the arcs from `begin` up to `end`, from sums stored every `period` arcs: the
/// arcs before the first stored point one by one, then what the last stored point is
/// more than the first, then the arcs after that one by one.
pub open spec fn sum_by_points<W: LogValued>(
    period: int,
    w: W,
    arcs: Seq<Arc<W>>,
    begin: int,
    end: int,
) -> W {
    let first = first_point(period, begin) * period;
    let last = end / period * period;
    if end <= begin {
        w
    } else if first < last {
        let before = sum_over(log_adder(), w, arcs, begin, range_end(arcs, first));
        let between = with_remainder(before, mass(arcs, last), mass(arcs, first));
        sum_over(log_adder(), between, arcs, last, range_end(arcs, end))
    } else {
        sum_over(log_adder(), w, arcs, begin, range_end(arcs, end))
    }
}

/// Going on by one: a multiple of `p` has been come to, or not.
proof fn lemma_step(i: int, p: int)
    requires
        0 <= i,
        0 < p,
    ensures
        (i + 1) % p == 0 ==> (i + 1) / p == i / p + 1 && (i + 1) / p * p == i + 1,
        (i + 1) % p != 0 ==> (i + 1) / p == i / p,
{
    lemma_fundamental_div_mod(i, p);
    lemma_fundamental_div_mod(i + 1, p);
    let q = i / p;
    let r = i % p;
    assert(p * q == q * p) by (nonlinear_arith);
    assert((q + 1) * p == q * p + p) by (nonlinear_arith);
    if r + 1 == p {
        lemma_fundamental_div_mod_converse(i + 1, p, q + 1, 0);
    } else {
        lemma_fundamental_div_mod_converse(i + 1, p, q, r + 1);
    }
    assert(p * ((i + 1) / p) == (i + 1) / p * p) by (nonlinear_arith);
}

/// What is stored stays where it is when more is stored.
proof fn lemma_run_stays<W: LogValued>(
    period: int,
    sums: Seq<W::Log>,
    more: Seq<W::Log>,
    base: int,
    arcs: Seq<Arc<W>>,
)
    requires
        0 <= base,
        0 < period,
        holds_run(period, sums, base, arcs),
        sums.len() <= more.len(),
        more.take(sums.len() as int) == sums,
    ensures
        holds_run(period, more, base, arcs),
{
    assert forall|k: int| 0 <= k <= arcs.len() as int / period implies #[trigger] point(
        more,
        base,
        k,
    ) == mass(arcs, k * period) by {
        assert(point(sums, base, k) == mass(arcs, k * period));
        assert(more.take(sums.len() as int)[base + k] == sums[base + k]);
    }
}

/// Sums in the log semiring, with sums stored every `arc_period` arcs for every state
/// that has at least `arc_limit` of them.
///
/// A range then costs one subtraction plus whatever falls outside the stored points, at
/// most `arc_period` arcs at each end.
pub struct FastLogAccumulator<W: LogValued> {
    arc_limit: usize,
    arc_period: usize,
    weights: Vec<W::Log>,
    positions: Vec<Option<usize>>,
    current: Option<usize>,
}

impl<W: LogValued> FastLogAccumulator<W> {
    /// The fewest arcs a state must have for sums to be stored.
    pub closed spec fn limit(&self) -> int {
        self.arc_limit as int
    }

    /// How many arcs lie between stored sums.
    pub closed spec fn period(&self) -> int {
        self.arc_period as int
    }

    /// The stored sums, the runs of all states laid end to end.
    pub closed spec fn sums(&self) -> Seq<W::Log> {
        self.weights@
    }

    /// Where the run of a state starts, if it has one.
    pub closed spec fn place(&self, state: usize) -> Option<usize> {
        if state < self.positions@.len() {
            self.positions@[state as int]
        } else {
            None
        }
    }

    /// Where the run of the state that is being asked about starts, if it has one.
    pub closed spec fn here(&self) -> Option<usize> {
        self.current
    }

    /// Whether the period and the limit make sense.
    pub open spec fn wf(&self) -> bool {
        0 < self.period() <= self.limit() <= usize::MAX
    }

    /// Whether what is stored is that of the states of `v`.
    pub open spec fn is_prepared(&self, v: FstV<W>) -> bool {
        &&& self.wf()
        &&& forall|s: int|
            0 <= s < v.n() ==> is_placed(
                self.limit(),
                self.period(),
                self.sums(),
                #[trigger] self.place(s as usize),
                v.arcs(s),
            )
    }

    /// Stores sums for states with at least `arc_limit` arcs, every `arc_period` of
    /// them. A period larger than the limit would store no useful point for a state right
    /// at the limit.
    pub fn new(arc_limit: usize, arc_period: usize) -> (result: Result<Self, OpenFstError>)
        ensures
            result is Ok <==> 0 < arc_period <= arc_limit,
            result matches Ok(acc) ==> {
                &&& acc.wf()
                &&& acc.limit() == arc_limit
                &&& acc.period() == arc_period
                &&& acc.sums() == Seq::<W::Log>::empty()
                &&& acc.here() is None
            },
            result matches Err(e) ==> e is InvalidOperation,
    {
        if arc_period == 0 || arc_limit < arc_period {
            return Err(
                OpenFstError::InvalidOperation(
                    "FastLogAccumulator: the period must be positive and no larger than the limit",
                ),
            );
        }
        Ok(
            FastLogAccumulator {
                arc_limit,
                arc_period,
                weights: Vec::new(),
                positions: Vec::new(),
                current: None,
            },
        )
    }

    /// How many stored sums there are, over every state.
    pub fn stored(&self) -> (n: usize)
        ensures
            n == self.sums().len(),
    {
        self.weights.len()
    }

    /// Stores the run of some arcs behind what there is.
    fn push_run(&mut self, arcs: &Vec<Arc<W>>)
        requires
            old(self).wf(),
        ensures
            final(self).limit() == old(self).limit(),
            final(self).period() == old(self).period(),
            final(self).positions@ == old(self).positions@,
            final(self).current == old(self).current,
            final(self).sums().len() == old(self).sums().len() + 1 + arcs@.len() as int
                / old(self).period(),
            final(self).sums().take(old(self).sums().len() as int) == old(self).sums(),
            holds_run(
                old(self).period(),
                final(self).sums(),
                old(self).sums().len() as int,
                arcs@,
            ),
    {
        let ghost before = self.weights@;
        let ghost base = before.len() as int;
        let period: usize = self.arc_period;
        let mut sum: W::Log = W::no_mass();
        self.weights.push(sum);
        let n: usize = arcs.len();
        let mut i: usize = 0;
        proof {
            assert(0int / period as int == 0) by (nonlinear_arith)
                requires
                    period > 0,
            ;
            assert(0int * period == 0) by (nonlinear_arith);
            assert(point(self.weights@, base, 0) == mass(arcs@, 0int * period));
        }
        while i < n
            invariant
                i <= n == arcs@.len(),
                period == old(self).arc_period,
                period > 0,
                self.arc_limit == old(self).arc_limit,
                self.arc_period == old(self).arc_period,
                self.positions@ == old(self).positions@,
                self.current == old(self).current,
                before == old(self).weights@,
                base == before.len(),
                sum == mass(arcs@, i as int),
                self.weights@.len() == base + 1 + i as int / period as int,
                self.weights@.take(base) =~= before,
                forall|k: int|
                    0 <= k <= i as int / period as int ==> #[trigger] point(self.weights@, base, k)
                        == mass(arcs@, k * period),
            decreases n - i,
        {
            proof {
                lemma_step(i as int, period as int);
            }
            let ghost earlier = self.weights@;
            sum = W::gather(sum, arcs[i].weight.log());
            i += 1;
            if i % period == 0 {
                self.weights.push(sum);
                assert(self.weights@.take(base) =~= earlier.take(base));
                assert forall|k: int| 0 <= k <= i as int / period as int implies #[trigger] point(
                    self.weights@,
                    base,
                    k,
                ) == mass(arcs@, k * period) by {
                    if k < i as int / period as int {
                        assert(point(earlier, base, k) == mass(arcs@, k * period));
                    }
                }
            }
        }
    }

    /// Stores the sums of the states of `fst`.
    pub fn init(&mut self, fst: &VectorFst<W>) -> (result: Result<(), OpenFstError>)
        requires
            old(self).wf(),
        ensures
            result is Ok,
            final(self).is_prepared(fst@),
            final(self).limit() == old(self).limit(),
            final(self).period() == old(self).period(),
            final(self).sums().len() == all_points(
                old(self).limit(),
                old(self).period(),
                fst@,
                fst@.n() as int,
            ),
            final(self).here() is None,
    {
        self.weights = Vec::new();
        self.positions = Vec::new();
        self.current = None;
        let n: usize = fst.num_states();
        let mut s: usize = 0;
        while s < n
            invariant
                s <= n == fst@.n(),
                self.wf(),
                self.limit() == old(self).limit(),
                self.period() == old(self).period(),
                self.current is None,
                self.positions@.len() == s,
                self.weights@.len() == all_points(
                    self.limit(),
                    self.period(),
                    fst@,
                    s as int,
                ),
                forall|t: int|
                    0 <= t < s ==> is_placed(
                        self.limit(),
                        self.period(),
                        self.weights@,
                        #[trigger] self.positions@[t],
                        fst@.arcs(t),
                    ),
            decreases n - s,
        {
            let arcs = fst.arcs(s);
            if arcs.len() < self.arc_limit {
                self.positions.push(None);
            } else {
                let base: usize = self.weights.len();
                let ghost earlier = *self;
                self.push_run(arcs);
                proof {
                    assert forall|t: int| 0 <= t < s implies is_placed(
                        self.limit(),
                        self.period(),
                        self.weights@,
                        #[trigger] self.positions@[t],
                        fst@.arcs(t),
                    ) by {
                        assert(earlier.positions@[t] == self.positions@[t]);
                        if let Some(at) = self.positions@[t] {
                            lemma_run_stays(
                                self.period(),
                                earlier.weights@,
                                self.weights@,
                                at as int,
                                fst@.arcs(t),
                            );
                        }
                    }
                }
                self.positions.push(Some(base));
            }
            s += 1;
        }
        Ok(())
    }

    /// Says which state the next ranges come from.
    pub fn set_state(&mut self, state: usize)
        ensures
            final(self).limit() == old(self).limit(),
            final(self).period() == old(self).period(),
            final(self).sums() == old(self).sums(),
            forall|s: usize| final(self).place(s) == #[trigger] old(self).place(s),
            final(self).here() == old(self).place(state),
    {
        self.current = if state < self.positions.len() {
            self.positions[state]
        } else {
            None
        };
    }

    /// The sum of two weights.
    pub fn sum(&self, w: &W, v: &W) -> (sum: W)
        ensures
            sum == log_sum(*w, *v),
    {
        log_plus(w, v)
    }

    /// `w` plus the weights of the arcs from `begin` up to `end`, which are those of the
    /// state that is being asked about.
    ///
    /// Where that state has a run of stored sums, the range may not go past its last one.
    pub fn sum_range(&self, w: &W, arcs: &Vec<Arc<W>>, begin: usize, end: usize) -> (sum: W)
        requires
            self.wf(),
            self.here() matches Some(base) ==> {
                &&& holds_run(self.period(), self.sums(), base as int, arcs@)
                &&& begin + self.period() <= usize::MAX
                &&& end as int / self.period() <= arcs@.len() as int / self.period()
            },
        ensures
            sum == (if self.here() is Some {
                sum_by_points(self.period(), *w, arcs@, begin as int, end as int)
            } else {
                sum_over(log_adder(), *w, arcs@, begin as int, range_end(arcs@, end as int))
            }),
    {
        let base: usize = match self.current {
            Some(base) => base,
            None => {
                return log_walk(w, arcs, begin, end);
            },
        };
        if end <= begin {
            return w.duplicate();
        }
        let period: usize = self.arc_period;
        let index_begin: usize = if begin > 0 {
            proof {
                lemma_fundamental_div_mod(begin - 1, period as int);
                assert(period * ((begin - 1) / period as int) == (begin - 1) / period as int
                    * period) by (nonlinear_arith);
                assert(((begin - 1) / period as int + 1) * period == (begin - 1) / period as int
                    * period + period) by (nonlinear_arith);
                assert((begin - 1) / period as int <= begin - 1) by (nonlinear_arith)
                    requires
                        period > 0,
                        begin > 0,
                ;
            }
            (begin - 1) / period + 1
        } else {
            0
        };
        let index_end: usize = end / period;
        proof {
            lemma_fundamental_div_mod(end as int, period as int);
            assert(period * (end as int / period as int) == end as int / period as int * period)
                by (nonlinear_arith);
            assert(index_begin as int == first_point(period as int, begin as int));
            assert(index_begin * period <= begin + period);
        }
        let stored_begin: usize = index_begin * period;
        let stored_end: usize = index_end * period;
        if stored_begin >= stored_end {
            return log_walk(w, arcs, begin, end);
        }
        let before = log_walk(w, arcs, begin, stored_begin);
        proof {
            assert(index_begin < index_end) by (nonlinear_arith)
                requires
                    index_begin * period < index_end * period,
                    period > 0,
            ;
            assert(point(self.weights@, base as int, index_end as int) == mass(
                arcs@,
                index_end * period,
            ));
            assert(point(self.weights@, base as int, index_begin as int) == mass(
                arcs@,
                index_begin * period,
            ));
        }
        let total: usize = self.weights.len();
        assert(base + index_end < total);
        let between = add_remainder(
            before,
            self.weights[base + index_end],
            self.weights[base + index_begin],
        );
        log_walk(&between, arcs, stored_end, end)
    }
}

impl<W: LogValued> Default for FastLogAccumulator<W> {
    fn default() -> (acc: Self)
        ensures
            acc.wf(),
            acc.limit() == 20,
            acc.period() == 10,
            acc.sums() == Seq::<W::Log>::empty(),
            acc.here() is None,
    {
        FastLogAccumulator {
            arc_limit: 20,
            arc_period: 10,
            weights: Vec::new(),
            positions: Vec::new(),
            current: None,
        }
    }
}

/// Sums in the log semiring, working the sums out as states are asked about rather than
/// up front.
///
/// Where only a few states are ever looked at, preparing for all of them is wasted. This
/// fills the run of a state the first time the state is seen, and then extends it only as
/// far as it is asked about.
pub struct CacheLogAccumulator<W: LogValued> {
    arc_limit: usize,
    states: Table<usize>,
    runs: Vec<Vec<W::Log>>,
    current: Option<usize>,
}

/// Whether a run is the sums of the first arcs, up to some number of them.
pub open spec fn is_run<W: LogValued>(run: Seq<W::Log>, arcs: Seq<Arc<W>>) -> bool {
    &&& 0 < run.len() <= arcs.len() + 1
    &&& forall|k: int| 0 <= k < run.len() ==> #[trigger] run[k] == mass(arcs, k)
}

/// How many sums a run of `had` holds once it goes as far as `end`.
pub open spec fn run_length(had: int, arcs: int, end: int) -> int {
    let wanted = if end <= arcs {
        end + 1
    } else {
        arcs + 1
    };
    if had >= wanted {
        had
    } else {
        wanted
    }
}

/// The smaller of two numbers.
pub open spec fn at_most(a: int, b: int) -> int {
    if a <= b {
        a
    } else {
        b
    }
}

/// Whether `at` is the first position from `from` on after whose arc the sum is no longer
/// more than `target`, or where the `n` arcs end.
pub open spec fn is_where_reached<W: LogValued>(
    arcs: Seq<Arc<W>>,
    target: W::Log,
    from: int,
    n: int,
    at: int,
) -> bool {
    &&& from <= at
    &&& at == from || at <= n
    &&& forall|k: int| from <= k < at ==> W::spec_less(target, #[trigger] mass(arcs, k + 1))
    &&& at < n ==> !W::spec_less(target, mass(arcs, at + 1))
}

/// Whether the sums of more and more arcs only ever come down to `target`.
pub open spec fn comes_down<W: LogValued>(arcs: Seq<Arc<W>>, target: W::Log) -> bool {
    forall|j: int, k: int|
        0 <= j <= k <= arcs.len() && W::spec_less(target, #[trigger] mass(arcs, k))
            ==> W::spec_less(target, #[trigger] mass(arcs, j))
}

impl<W: LogValued> CacheLogAccumulator<W> {
    /// The fewest arcs a range must reach for a state to be remembered.
    pub closed spec fn limit(&self) -> int {
        self.arc_limit as int
    }

    /// The states that are remembered, in the order they were first asked about.
    pub closed spec fn remembered(&self) -> Seq<usize> {
        self.states@
    }

    /// The run of the state remembered at `i`.
    pub closed spec fn run(&self, i: int) -> Seq<W::Log> {
        self.runs@[i]@
    }

    /// The state that is being asked about.
    pub closed spec fn here(&self) -> Option<usize> {
        self.current
    }

    /// Whether there is a run for each state that is remembered.
    pub closed spec fn wf(&self) -> bool {
        &&& self.states.wf()
        &&& self.runs@.len() == self.states@.len()
    }

    /// Whether what is remembered of a state is the sums of its arcs.
    pub open spec fn is_true_of(&self, state: usize, arcs: Seq<Arc<W>>) -> bool {
        forall|i: int|
            0 <= i < self.remembered().len() && #[trigger] self.remembered()[i] == state ==> is_run(
                self.run(i),
                arcs,
            )
    }

    /// Whether this is `other`, but for the run of `state`, which goes as far as `end`.
    pub open spec fn extends(
        &self,
        other: &Self,
        state: usize,
        arcs: Seq<Arc<W>>,
        end: int,
    ) -> bool {
        &&& self.wf()
        &&& self.limit() == other.limit()
        &&& self.here() == other.here()
        &&& self.remembered() == (if other.remembered().contains(state) {
            other.remembered()
        } else {
            other.remembered().push(state)
        })
        &&& self.is_true_of(state, arcs)
        &&& forall|i: int|
            0 <= i < other.remembered().len() && other.remembered()[i] != state
                ==> #[trigger] self.run(i) == other.run(i)
        &&& forall|i: int|
            0 <= i < self.remembered().len() && self.remembered()[i] == state ==> (#[trigger] self.run(
                i,
            )).len() == run_length(
                if i < other.remembered().len() {
                    other.run(i).len() as int
                } else {
                    1
                },
                arcs.len() as int,
                end,
            )
    }

    /// Remembers states of which ranges up to `arc_limit` arcs are asked about.
    pub fn new(arc_limit: usize) -> (acc: Self)
        ensures
            acc.wf(),
            acc.limit() == arc_limit,
            acc.remembered() == Seq::<usize>::empty(),
            acc.here() is None,
    {
        CacheLogAccumulator { arc_limit, states: Table::new(), runs: Vec::new(), current: None }
    }

    /// How many states are being remembered.
    pub fn cached_states(&self) -> (n: usize)
        requires
            self.wf(),
        ensures
            n == self.remembered().len(),
    {
        self.runs.len()
    }

    /// Fills the run of a state as far as `end`, or as there are arcs. Returns where the
    /// run is.
    fn extend(&mut self, state: usize, arcs: &Vec<Arc<W>>, end: usize) -> (at: usize)
        requires
            old(self).wf(),
            old(self).is_true_of(state, arcs@),
        ensures
            final(self).extends(old(self), state, arcs@, end as int),
            at < final(self).remembered().len(),
            final(self).remembered()[at as int] == state,
    {
        let ghost before = *self;
        let at: usize = self.states.insert(state);
        proof {
            before.states.lemma_distinct();
            self.states.lemma_distinct();
            if before.states@.contains(state) {
                let i = choose|i: int| 0 <= i < before.states@.len() && before.states@[i] == state;
                assert(self.states@[i] == self.states@[at as int]);
                assert(before.remembered()[at as int] == state);
            } else {
                assert(self.states@[before.states@.len() as int] == state);
                assert(at == before.states@.len());
            }
        }
        if at == self.runs.len() {
            let mut run: Vec<W::Log> = Vec::new();
            run.push(W::no_mass());
            self.runs.push(run);
        } else {
            assert(is_run(before.run(at as int), arcs@));
        }
        let ghost runs = self.runs@;
        extend_run(&mut self.runs[at], arcs, end);
        proof {
            assert(self.runs@ =~= runs.update(at as int, self.runs@[at as int]));
            assert forall|i: int|
                0 <= i < self.remembered().len() && self.remembered()[i] == state implies i
                == at by {
                assert(self.states@[i] == self.states@[at as int]);
            }
        }
        at
    }

    /// Says which state the next ranges come from.
    pub fn set_state(&mut self, state: usize)
        requires
            old(self).wf(),
        ensures
            final(self).wf(),
            final(self).limit() == old(self).limit(),
            final(self).remembered() == old(self).remembered(),
            forall|i: int| #[trigger] final(self).run(i) == old(self).run(i),
            final(self).here() == Some(state),
    {
        self.current = Some(state);
    }

    /// The sum of two weights.
    pub fn sum(&self, w: &W, v: &W) -> (sum: W)
        ensures
            sum == log_sum(*w, *v),
    {
        log_plus(w, v)
    }

    /// Whether a range up to `end` of the state that is being asked about is walked: no
    /// state is, or it is one that is not remembered and the range is short.
    pub open spec fn walks(&self, end: int) -> bool {
        match self.here() {
            Some(state) => !self.remembered().contains(state) && end < self.limit(),
            None => true,
        }
    }

    /// `w` plus the weights of the arcs from `begin` up to `end`, which are those of the
    /// state that is being asked about.
    ///
    /// A state with few arcs is not remembered: walking it costs less than the run would.
    pub fn sum_range(&mut self, w: &W, arcs: &Vec<Arc<W>>, begin: usize, end: usize) -> (sum: W)
        requires
            old(self).wf(),
            old(self).here() matches Some(state) ==> old(self).is_true_of(state, arcs@),
        ensures
            old(self).walks(end as int) ==> {
                &&& *final(self) == *old(self)
                &&& sum == sum_over(
                    log_adder(),
                    *w,
                    arcs@,
                    begin as int,
                    range_end(arcs@, end as int),
                )
            },
            !old(self).walks(end as int) ==> {
                &&& old(self).here() matches Some(state) && final(self).extends(
                    old(self),
                    state,
                    arcs@,
                    end as int,
                )
                &&& exists|i: int|
                    0 <= i < final(self).remembered().len() && final(self).remembered()[i]
                        == old(self).here()->0 && {
                        let last = (#[trigger] final(self).run(i)).len() - 1;
                        sum == with_remainder(
                            *w,
                            mass(arcs@, at_most(end as int, last)),
                            mass(arcs@, at_most(begin as int, last)),
                        )
                    }
            },
    {
        let state: usize = match self.current {
            Some(state) => state,
            None => {
                return log_walk(w, arcs, begin, end);
            },
        };
        let known: bool = self.states.find(&state).is_some();
        proof {
            if known {
                assert(self.remembered().contains(state));
            }
        }
        if !known && end < self.arc_limit {
            return log_walk(w, arcs, begin, end);
        }
        let at: usize = self.extend(state, arcs, end);
        let ghost run = self.run(at as int);
        assert(is_run(run, arcs@));
        let run = &self.runs[at];
        let last: usize = run.len() - 1;
        let to: usize = if end <= last {
            end
        } else {
            last
        };
        let from: usize = if begin <= last {
            begin
        } else {
            last
        };
        let sum = add_remainder(w.duplicate(), run[to], run[from]);
        sum
    }

    /// The first position at or after `from` after whose arc the sum is no longer more
    /// than `w`, among the first `narcs` arcs or those that are known of, if the sums
    /// come down. Drawing a weight and finding the arc whose share of the total it falls
    /// in takes exactly this.
    pub fn lower_bound(&mut self, w: &W, arcs: &Vec<Arc<W>>, from: usize, narcs: usize) -> (at:
        usize)
        requires
            old(self).wf(),
            from < usize::MAX,
            old(self).here() matches Some(state) ==> old(self).is_true_of(state, arcs@),
        ensures
            match old(self).here() {
                Some(state) => {
                    &&& final(self).extends(old(self), state, arcs@, narcs as int)
                    &&& comes_down(arcs@, w.spec_log()) ==> exists|i: int|
                        0 <= i < final(self).remembered().len() && final(self).remembered()[i]
                            == state && is_where_reached(
                            arcs@,
                            w.spec_log(),
                            from as int,
                            (#[trigger] final(self).run(i)).len() - 1,
                            at as int,
                        )
                },
                None => {
                    &&& *final(self) == *old(self)
                    &&& from <= arcs@.len() ==> is_where_reached(
                        arcs@,
                        w.spec_log(),
                        from as int,
                        arcs@.len() as int,
                        at as int,
                    )
                    &&& from > arcs@.len() ==> at == arcs@.len()
                },
            },
    {
        let target: W::Log = w.log();
        let state: usize = match self.current {
            Some(state) => state,
            None => {
                return walk_to(arcs, target, from);
            },
        };
        let slot: usize = self.extend(state, arcs, narcs);
        let ghost r = self.run(slot as int);
        assert(is_run(r, arcs@));
        let run = &self.runs[slot];
        let mut lo: usize = from + 1;
        let mut hi: usize = run.len();
        while lo < hi
            invariant
                run@ == r,
                is_run(r, arcs@),
                target == w.spec_log(),
                from + 1 <= lo,
                lo == from + 1 || lo <= r.len(),
                lo <= hi || lo == from + 1,
                hi <= r.len(),
                comes_down(arcs@, target) ==> forall|k: int|
                    from < k < lo ==> W::spec_less(target, #[trigger] mass(arcs@, k)),
                comes_down(arcs@, target) && hi < r.len() ==> !W::spec_less(
                    target,
                    mass(arcs@, hi as int),
                ),
            decreases hi - lo,
        {
            let mid: usize = lo + (hi - lo) / 2;
            assert(r[mid as int] == mass(arcs@, mid as int));
            if W::less(target, run[mid]) {
                lo = mid + 1;
            } else {
                hi = mid;
            }
        }
        proof {
            assert(self.run(slot as int) == r);
            if comes_down(arcs@, target) {
                let at = lo - 1;
                assert forall|k: int| from <= k < at implies W::spec_less(
                    target,
                    #[trigger] mass(arcs@, k + 1),
                ) by {}
                assert(is_where_reached(arcs@, target, from as int, r.len() - 1, at));
            }
        }
        lo - 1
    }
}

impl<W: LogValued> Default for CacheLogAccumulator<W> {
    fn default() -> (acc: Self)
        ensures
            acc.wf(),
            acc.limit() == 10,
            acc.remembered() == Seq::<usize>::empty(),
            acc.here() is None,
    {
        Self::new(10)
    }
}

/// Fills a run as far as `end`, or as there are arcs.
fn extend_run<W: LogValued>(run: &mut Vec<W::Log>, arcs: &Vec<Arc<W>>, end: usize)
    requires
        is_run(old(run)@, arcs@),
    ensures
        is_run(final(run)@, arcs@),
        final(run)@.len() == run_length(
            old(run)@.len() as int,
            arcs@.len() as int,
            end as int,
        ),
{
    let n: usize = arcs.len();
    let wanted: usize = if end <= n {
        end
    } else {
        n
    };
    let mut filled: usize = run.len() - 1;
    let mut sum: W::Log = run[filled];
    while filled < wanted
        invariant
            wanted <= n == arcs@.len(),
            filled + 1 == run@.len(),
            is_run(run@, arcs@),
            sum == mass(arcs@, filled as int),
            old(run)@.len() <= run@.len(),
            run@.len() == old(run)@.len() || filled <= wanted,
        decreases wanted - filled,
    {
        sum = W::gather(sum, arcs[filled].weight.log());
        run.push(sum);
        filled += 1;
    }
}

/// The first position from `from` on after whose arc the sum is no longer more than
/// `target`, walking the arcs.
fn walk_to<W: LogValued>(arcs: &Vec<Arc<W>>, target: W::Log, from: usize) -> (at: usize)
    ensures
        from <= arcs@.len() ==> is_where_reached(
            arcs@,
            target,
            from as int,
            arcs@.len() as int,
            at as int,
        ),
        from > arcs@.len() ==> at == arcs@.len(),
{
    let len: usize = arcs.len();
    let mut n: usize = 0;
    let mut x: W::Log = W::no_mass();
    while n < len
        invariant
            n <= len == arcs@.len(),
            x == mass(arcs@, n as int),
            forall|k: int| from <= k < n ==> W::spec_less(target, #[trigger] mass(arcs@, k + 1)),
        decreases len - n,
    {
        x = W::gather(x, arcs[n].weight.log());
        assert(x == mass(arcs@, n + 1));
        if n >= from && !W::less(target, x) {
            return n;
        }
        n += 1;
    }
    n
}

/// Where the sums come down to a target is one position, whether it is walked to or
/// looked up.
pub proof fn law_walking_finds_what_is_remembered<W: LogValued>(
    arcs: Seq<Arc<W>>,
    target: W::Log,
    from: int,
    a: int,
    b: int,
)
    requires
        0 <= from <= arcs.len(),
        is_where_reached(arcs, target, from, arcs.len() as int, a),
        is_where_reached(arcs, target, from, arcs.len() as int, b),
    ensures
        a == b,
{
    if a < b {
        assert(W::spec_less(target, mass(arcs, a + 1)));
    } else if b < a {
        assert(W::spec_less(target, mass(arcs, b + 1)));
    }
}

} // verus!
