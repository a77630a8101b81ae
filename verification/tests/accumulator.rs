#![allow(dead_code)]

use sicada::accumulator::{DefaultAccumulator, LogAccumulator, LogValued, WeightAccumulator};
use sicada::arc::Arc;
use sicada::log_accumulators::{CacheLogAccumulator, FastLogAccumulator};
use sicada::vector_fst::VectorFst;
use sicada::weight::{COMMUTATIVE, IDEMPOTENT, LEFT_SEMIRING, PATH, RIGHT_SEMIRING, Weight};

/// The tropical semiring: the least weight wins, and weights along a path add up.
#[derive(Clone, Copy, Debug, PartialEq, PartialOrd)]
struct TropicalWeight(f32);

impl TropicalWeight {
    fn new(value: f32) -> Self {
        TropicalWeight(value)
    }

    fn value(&self) -> f32 {
        self.0
    }
}

impl Weight for TropicalWeight {
    type Delta = f32;

    fn spec_zero() -> Self {
        unreachable!()
    }

    fn spec_one() -> Self {
        unreachable!()
    }

    fn spec_no_weight() -> Self {
        unreachable!()
    }

    fn spec_plus(self, _other: Self) -> Self {
        unreachable!()
    }

    fn spec_times(self, _other: Self) -> Self {
        unreachable!()
    }

    fn spec_member(self) -> bool {
        unreachable!()
    }

    fn spec_approx(self, _other: Self, _delta: f32) -> bool {
        unreachable!()
    }

    fn spec_quantize(self, _delta: f32) -> Self {
        unreachable!()
    }

    fn spec_hash_word(self) -> u64 {
        unreachable!()
    }

    fn spec_properties() -> u64 {
        unreachable!()
    }

    fn spec_default_delta() -> f32 {
        unreachable!()
    }

    fn zero() -> Self {
        TropicalWeight(f32::INFINITY)
    }

    fn one() -> Self {
        TropicalWeight(0.0)
    }

    fn no_weight() -> Self {
        TropicalWeight(f32::NAN)
    }

    fn plus(&self, other: &Self) -> Self {
        if !self.is_member() || !other.is_member() {
            return Self::no_weight();
        }
        TropicalWeight(self.0.min(other.0))
    }

    fn times(&self, other: &Self) -> Self {
        if !self.is_member() || !other.is_member() {
            return Self::no_weight();
        }
        TropicalWeight(self.0 + other.0)
    }

    fn duplicate(&self) -> Self {
        *self
    }

    fn same(&self, other: &Self) -> bool {
        self.0 == other.0
    }

    fn is_member(&self) -> bool {
        !self.0.is_nan() && self.0 != f32::NEG_INFINITY
    }

    fn approx_equal(&self, other: &Self, delta: &f32) -> bool {
        self.0 <= other.0 + delta && other.0 <= self.0 + delta
    }

    fn quantize(&self, delta: &f32) -> Self {
        if self.0.is_finite() {
            TropicalWeight((self.0 / delta + 0.5).floor() * delta)
        } else {
            *self
        }
    }

    fn hash_word(&self) -> u64 {
        self.0.to_bits() as u64
    }

    fn properties() -> u64 {
        LEFT_SEMIRING | RIGHT_SEMIRING | COMMUTATIVE | IDEMPOTENT | PATH
    }

    fn default_delta() -> f32 {
        1.0 / 1024.0
    }
}

/// A small generator of repeatable numbers.
struct Rng(u64);

impl Rng {
    fn new(seed: u64) -> Self {
        Rng(seed.wrapping_mul(0x9E37_79B9_7F4A_7C15) | 1)
    }

    fn next(&mut self) -> u64 {
        self.0 ^= self.0 << 13;
        self.0 ^= self.0 >> 7;
        self.0 ^= self.0 << 17;
        self.0
    }

    /// A number less than `bound`.
    fn below(&mut self, bound: usize) -> usize {
        ((self.next() >> 11) % bound as u64) as usize
    }
}

/// The log semiring: weights are negated logarithms of probabilities.
#[derive(Clone, Copy, Debug, PartialEq, PartialOrd)]
struct LogWeight(f32);

impl LogWeight {
    fn value(&self) -> f32 {
        self.0
    }
}

impl Weight for LogWeight {
    type Delta = f32;

    fn spec_zero() -> Self {
        unreachable!()
    }

    fn spec_one() -> Self {
        unreachable!()
    }

    fn spec_no_weight() -> Self {
        unreachable!()
    }

    fn spec_plus(self, _other: Self) -> Self {
        unreachable!()
    }

    fn spec_times(self, _other: Self) -> Self {
        unreachable!()
    }

    fn spec_member(self) -> bool {
        unreachable!()
    }

    fn spec_approx(self, _other: Self, _delta: f32) -> bool {
        unreachable!()
    }

    fn spec_quantize(self, _delta: f32) -> Self {
        unreachable!()
    }

    fn spec_hash_word(self) -> u64 {
        unreachable!()
    }

    fn spec_properties() -> u64 {
        unreachable!()
    }

    fn spec_default_delta() -> f32 {
        unreachable!()
    }

    fn zero() -> Self {
        LogWeight(f32::INFINITY)
    }

    fn one() -> Self {
        LogWeight(0.0)
    }

    fn no_weight() -> Self {
        LogWeight(f32::NAN)
    }

    fn plus(&self, other: &Self) -> Self {
        LogWeight(log_plus_raw(self.0 as f64, other.0 as f64) as f32)
    }

    fn times(&self, other: &Self) -> Self {
        LogWeight(self.0 + other.0)
    }

    fn duplicate(&self) -> Self {
        *self
    }

    fn same(&self, other: &Self) -> bool {
        self.0 == other.0
    }

    fn is_member(&self) -> bool {
        !self.0.is_nan() && self.0 != f32::NEG_INFINITY
    }

    fn approx_equal(&self, other: &Self, delta: &f32) -> bool {
        self.0 <= other.0 + delta && other.0 <= self.0 + delta
    }

    fn quantize(&self, _delta: &f32) -> Self {
        *self
    }

    fn hash_word(&self) -> u64 {
        self.0.to_bits() as u64
    }

    fn properties() -> u64 {
        LEFT_SEMIRING | RIGHT_SEMIRING | COMMUTATIVE
    }

    fn default_delta() -> f32 {
        1.0 / 1024.0
    }
}

impl LogValued for LogWeight {
    type Log = f64;

    fn spec_no_mass() -> f64 {
        unreachable!()
    }

    fn spec_log(self) -> f64 {
        unreachable!()
    }

    fn spec_of_log(_log: f64) -> Self {
        unreachable!()
    }

    fn spec_gather(_a: f64, _b: f64) -> f64 {
        unreachable!()
    }

    fn spec_remainder(_all: f64, _part: f64) -> f64 {
        unreachable!()
    }

    fn spec_less(_a: f64, _b: f64) -> bool {
        unreachable!()
    }

    fn no_mass() -> f64 {
        f64::INFINITY
    }

    fn log(&self) -> f64 {
        self.0 as f64
    }

    fn of_log(log: f64) -> Self {
        LogWeight(log as f32)
    }

    fn gather(a: f64, b: f64) -> f64 {
        log_plus_raw(a, b)
    }

    fn remainder(all: f64, part: f64) -> f64 {
        if part == f64::INFINITY {
            all
        } else {
            all - (1.0 - (all - part).exp()).ln()
        }
    }

    fn less(a: f64, b: f64) -> bool {
        a < b
    }
}

/// The sum of the log semiring, on the raw values.
fn log_plus_raw(f1: f64, f2: f64) -> f64 {
    if f1 == f64::INFINITY {
        f2
    } else if f2 == f64::INFINITY {
        f1
    } else if f1 > f2 {
        f2 - (f2 - f1).exp().ln_1p()
    } else {
        f1 - (f1 - f2).exp().ln_1p()
    }
}

/// One state with `weights` arcs leaving it.
fn fan(weights: &[f64]) -> VectorFst<LogWeight> {
    let mut fst = VectorFst::new();
    let start = fst.add_state();
    let end = fst.add_state();
    fst.set_start(start);
    fst.set_final(end, LogWeight::one());
    for (index, weight) in weights.iter().enumerate() {
        fst.add_arc(
            start,
            Arc::new(
                index as i32 + 1,
                index as i32 + 1,
                LogWeight(*weight as f32),
                end,
            ),
        );
    }
    fst
}

/// The log-semiring sum of a range, worked out directly.
fn reference(weights: &[f64], begin: usize, end: usize) -> f64 {
    let mut sum = f64::INFINITY;
    for weight in &weights[begin..end] {
        sum = log_plus_raw(sum, *weight);
    }
    sum
}

/// The plain accumulator is the semiring's own sum.
#[test]
fn the_default_accumulator_is_the_semirings_own_sum() {
    let mut fst: VectorFst<TropicalWeight> = VectorFst::new();
    let start = fst.add_state();
    let end = fst.add_state();
    fst.set_start(start);
    fst.set_final(end, TropicalWeight::one());
    for weight in [3.0f32, 1.0, 4.0, 1.0, 5.0] {
        fst.add_arc(start, Arc::new(1, 1, TropicalWeight(weight), end));
    }

    let mut acc = DefaultAccumulator;
    // Over the tropical semiring the sum of a range is its minimum.
    assert_eq!(
        acc.sum_range(&TropicalWeight::zero(), fst.arcs(start), 1, 4),
        TropicalWeight(1.0)
    );
    assert_eq!(
        acc.sum_range(&TropicalWeight::zero(), fst.arcs(start), 0, 5),
        TropicalWeight(1.0)
    );
    assert_eq!(
        acc.sum_range(&TropicalWeight::zero(), fst.arcs(start), 2, 2),
        TropicalWeight::zero(),
        "an empty range adds nothing"
    );
}

/// The log accumulator sums in the log semiring whatever the arcs' own
/// semiring is.
#[test]
fn the_log_accumulator_sums_in_the_log_semiring() {
    let weights = [1.0f64, 2.0, 3.0];
    let fst = fan(&weights);
    let mut acc = LogAccumulator;
    let got = acc.sum_range(&LogWeight::zero(), fst.arcs(0), 0, 3);
    let want = reference(&weights, 0, 3);
    assert!(
        (got.value() as f64 - want).abs() < 1e-5,
        "{got:?} against {want}"
    );
}

/// Precomputing has to give the same answer as walking, for every range.
#[test]
fn the_fast_accumulator_agrees_with_walking_for_every_range() {
    let mut rng = Rng::new(0x00AC_C000_u64);
    for round in 0..40 {
        let narcs = 1 + rng.below(40);
        let weights: Vec<f64> = (0..narcs).map(|_| rng.below(20) as f64 / 4.0).collect();
        let fst = fan(&weights);

        let mut fast = FastLogAccumulator::new(8, 4).unwrap();
        fast.init(&fst).unwrap();
        fast.set_state(0);

        let mut cache = CacheLogAccumulator::<LogWeight>::new(8);
        cache.set_state(0);

        for begin in 0..=narcs {
            for end in begin..=narcs {
                let want = reference(&weights, begin, end);
                for (name, got) in [
                    (
                        "fast",
                        fast.sum_range(&LogWeight::zero(), fst.arcs(0), begin, end),
                    ),
                    (
                        "cache",
                        cache.sum_range(&LogWeight::zero(), fst.arcs(0), begin, end),
                    ),
                    (
                        "plain",
                        LogAccumulator.sum_range(&LogWeight::zero(), fst.arcs(0), begin, end),
                    ),
                ] {
                    let got = got.value() as f64;
                    let close = if want.is_infinite() {
                        got.is_infinite()
                    } else {
                        (got - want).abs() < 1e-4
                    };
                    assert!(
                        close,
                        "round {round}, {name}, {begin}..{end}: {got} against {want}"
                    );
                }
            }
        }
    }
}

/// A state below the limit is not precomputed, and one above it is.
#[test]
fn only_states_with_enough_arcs_are_precomputed() {
    let small = fan(&[1.0, 2.0]);
    let mut acc = FastLogAccumulator::<LogWeight>::new(8, 4).unwrap();
    acc.init(&small).unwrap();
    assert_eq!(acc.stored(), 0, "two arcs is not worth a table");

    let big = fan(&[1.0; 20]);
    let mut acc = FastLogAccumulator::<LogWeight>::new(8, 4).unwrap();
    acc.init(&big).unwrap();
    // One entry for the empty prefix, then one every four arcs.
    assert_eq!(acc.stored(), 1 + 20 / 4);
}

/// A period larger than the limit would store no point for a state right at
/// the limit, so it is refused rather than flagged.
#[test]
fn a_period_larger_than_the_limit_is_refused() {
    assert!(FastLogAccumulator::<LogWeight>::new(4, 8).is_err());
    assert!(FastLogAccumulator::<LogWeight>::new(8, 0).is_err());
    assert!(FastLogAccumulator::<LogWeight>::new(8, 8).is_ok());
}

/// The cache fills in only the states it is asked about.
#[test]
fn the_cache_fills_in_only_what_is_asked_for() {
    let mut fst: VectorFst<LogWeight> = VectorFst::new();
    for _ in 0..3 {
        fst.add_state();
    }
    fst.set_start(0);
    fst.set_final(2, LogWeight::one());
    for state in [0usize, 1] {
        for index in 0..12 {
            fst.add_arc(state, Arc::new(index + 1, index + 1, LogWeight(1.0), 2));
        }
    }

    let mut acc = CacheLogAccumulator::<LogWeight>::new(4);
    assert_eq!(acc.cached_states(), 0);
    acc.set_state(0);
    acc.sum_range(&LogWeight::zero(), fst.arcs(0), 0, 12);
    assert_eq!(acc.cached_states(), 1, "only state 0 was asked about");
}

/// Drawing a weight and finding where it falls.
///
/// The answer is the last position whose running total has not yet passed
/// the weight: with the running total descending as arcs are added, the
/// position returned for a target strictly between two consecutive totals
/// is the earlier of the two.
#[test]
fn the_lower_bound_is_where_the_cumulative_sum_reaches_the_weight() {
    let weights = vec![1.0f64; 8];
    let fst = fan(&weights);
    let mut acc = CacheLogAccumulator::<LogWeight>::new(4);
    acc.set_state(0);

    // The running totals descend, and the gaps between them are far larger
    // than the precision of the weight the target is carried in.
    let total = |k: usize| reference(&weights, 0, k);
    for k in 1..8 {
        let midpoint = (total(k) + total(k + 1)) / 2.0;
        assert!(total(k + 1) < midpoint && midpoint < total(k), "{k}");
        let at = acc.lower_bound(&LogWeight(midpoint as f32), fst.arcs(0), 0, 8);
        assert_eq!(at, k, "a target between totals {k} and {k} + 1");
    }
}

/// Without a state to remember, the search walks instead, and has to give
/// the same answer.
#[test]
fn the_lower_bound_agrees_whether_or_not_the_state_is_remembered() {
    let weights = vec![1.0f64, 2.0, 0.5, 3.0, 1.5, 0.25];
    let fst = fan(&weights);
    let total = |k: usize| reference(&weights, 0, k);

    let mut remembered = CacheLogAccumulator::<LogWeight>::new(1);
    remembered.set_state(0);
    // Never told a state, so it walks.
    let mut walking = CacheLogAccumulator::<LogWeight>::new(1);

    for k in 1..weights.len() {
        let midpoint = (total(k) + total(k + 1)) / 2.0;
        let target = LogWeight(midpoint as f32);
        assert_eq!(
            remembered.lower_bound(&target, fst.arcs(0), 0, weights.len()),
            walking.lower_bound(&target, fst.arcs(0), 0, weights.len()),
            "position {k}"
        );
    }
}
