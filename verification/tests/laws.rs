#![allow(dead_code)]

use sicada::accumulator::{DefaultAccumulator, WeightAccumulator};
use sicada::arc::Arc;
use sicada::compose::{ComposeOptions, compose, compose_options};
use sicada::concat::concat_onto;
use sicada::connect::connect;
use sicada::difference::difference;
use sicada::error::OpenFstError;
use sicada::intersect::intersect;
use sicada::properties::{K_ACCEPTOR, K_ACCESSIBLE, K_ACYCLIC, K_CO_ACCESSIBLE, K_CYCLIC, K_EPSILONS, K_FST_PROPERTIES, K_INITIAL_ACYCLIC, K_INITIAL_CYCLIC, K_I_DETERMINISTIC, K_I_EPSILONS, K_I_LABEL_SORTED, K_NON_I_DETERMINISTIC, K_NON_O_DETERMINISTIC, K_NOT_ACCEPTOR, K_NOT_ACCESSIBLE, K_NOT_CO_ACCESSIBLE, K_NOT_I_LABEL_SORTED, K_NOT_O_LABEL_SORTED, K_NOT_STRING, K_NOT_TOP_SORTED, K_NO_EPSILONS, K_NO_I_EPSILONS, K_NO_O_EPSILONS, K_O_DETERMINISTIC, K_O_EPSILONS, K_O_LABEL_SORTED, K_STRING, K_TOP_SORTED, K_UNWEIGHTED, K_UNWEIGHTED_CYCLES, K_WEIGHTED, K_WEIGHTED_CYCLES};
use sicada::push::remove_weight;
use sicada::reweight::{ReweightType, reweight};
use sicada::vector_fst::VectorFst;
use sicada::weight::{COMMUTATIVE, Divide, DivideType, IDEMPOTENT, LEFT_SEMIRING, PATH, RIGHT_SEMIRING, Weight};
use sicada::wire::{ByteReader, write_bool, write_i32, write_i64, write_name, write_u64};

/// The tropical semiring: the least weight wins, and weights along a path add up.
#[derive(Clone, Copy, Debug, PartialEq, PartialOrd)]
struct TropicalWeight(f32);

impl TropicalWeight {
    fn new(value: f32) -> Self {
        TropicalWeight(value)
    }

    fn value(&self) -> f32 {
        self.0
    }
}

impl Weight for TropicalWeight {
    type Delta = f32;

    fn spec_zero() -> Self {
        unreachable!()
    }

    fn spec_one() -> Self {
        unreachable!()
    }

    fn spec_no_weight() -> Self {
        unreachable!()
    }

    fn spec_plus(self, _other: Self) -> Self {
        unreachable!()
    }

    fn spec_times(self, _other: Self) -> Self {
        unreachable!()
    }

    fn spec_member(self) -> bool {
        unreachable!()
    }

    fn spec_approx(self, _other: Self, _delta: f32) -> bool {
        unreachable!()
    }

    fn spec_quantize(self, _delta: f32) -> Self {
        unreachable!()
    }

    fn spec_hash_word(self) -> u64 {
        unreachable!()
    }

    fn spec_properties() -> u64 {
        unreachable!()
    }

    fn spec_default_delta() -> f32 {
        unreachable!()
    }

    fn zero() -> Self {
        TropicalWeight(f32::INFINITY)
    }

    fn one() -> Self {
        TropicalWeight(0.0)
    }

    fn no_weight() -> Self {
        TropicalWeight(f32::NAN)
    }

    fn plus(&self, other: &Self) -> Self {
        if !self.is_member() || !other.is_member() {
            return Self::no_weight();
        }
        TropicalWeight(self.0.min(other.0))
    }

    fn times(&self, other: &Self) -> Self {
        if !self.is_member() || !other.is_member() {
            return Self::no_weight();
        }
        TropicalWeight(self.0 + other.0)
    }

    fn duplicate(&self) -> Self {
        *self
    }

    fn same(&self, other: &Self) -> bool {
        self.0 == other.0
    }

    fn is_member(&self) -> bool {
        !self.0.is_nan() && self.0 != f32::NEG_INFINITY
    }

    fn approx_equal(&self, other: &Self, delta: &f32) -> bool {
        self.0 <= other.0 + delta && other.0 <= self.0 + delta
    }

    fn quantize(&self, delta: &f32) -> Self {
        if self.0.is_finite() {
            TropicalWeight((self.0 / delta + 0.5).floor() * delta)
        } else {
            *self
        }
    }

    fn hash_word(&self) -> u64 {
        self.0.to_bits() as u64
    }

    fn properties() -> u64 {
        LEFT_SEMIRING | RIGHT_SEMIRING | COMMUTATIVE | IDEMPOTENT | PATH
    }

    fn default_delta() -> f32 {
        1.0 / 1024.0
    }
}

impl Divide for TropicalWeight {
    fn spec_divide(self, _divisor: Self, _side: DivideType) -> Self {
        unreachable!()
    }

    fn divide(&self, divisor: &Self, _side: DivideType) -> Self {
        if !self.is_member() || !divisor.is_member() || divisor.0 == f32::INFINITY {
            Self::no_weight()
        } else if self.0 == f32::INFINITY {
            Self::zero()
        } else {
            TropicalWeight(self.0 - divisor.0)
        }
    }
}

/// An arc whose weight is tropical.
#[derive(Clone, Copy, Debug, PartialEq)]
struct StdArc {
    ilabel: i32,
    olabel: i32,
    weight: TropicalWeight,
    nextstate: i32,
}

impl StdArc {
    fn new(ilabel: i32, olabel: i32, weight: TropicalWeight, nextstate: i32) -> Self {
        StdArc { ilabel, olabel, weight, nextstate }
    }

    fn of(arc: &Arc<TropicalWeight>) -> Self {
        StdArc::new(arc.ilabel, arc.olabel, arc.weight, arc.nextstate as i32)
    }

    fn raw(&self) -> Arc<TropicalWeight> {
        Arc::new(self.ilabel, self.olabel, self.weight, self.nextstate as usize)
    }

    fn ilabel(&self) -> i32 {
        self.ilabel
    }

    fn olabel(&self) -> i32 {
        self.olabel
    }

    fn weight(&self) -> TropicalWeight {
        self.weight
    }

    fn nextstate(&self) -> i32 {
        self.nextstate
    }
}

/// A machine over tropical weights, with states counted by `i32`.
struct StdVectorFst(VectorFst<TropicalWeight>);

impl std::ops::Deref for StdVectorFst {
    type Target = VectorFst<TropicalWeight>;

    fn deref(&self) -> &VectorFst<TropicalWeight> {
        &self.0
    }
}

impl std::ops::DerefMut for StdVectorFst {
    fn deref_mut(&mut self) -> &mut VectorFst<TropicalWeight> {
        &mut self.0
    }
}

impl Clone for StdVectorFst {
    fn clone(&self) -> Self {
        StdVectorFst(self.0.duplicate())
    }
}

impl StdVectorFst {
    fn new() -> Self {
        StdVectorFst(VectorFst::new())
    }

    fn add_state(&mut self) -> i32 {
        self.0.add_state() as i32
    }

    fn set_start(&mut self, s: i32) {
        self.0.set_start(s as usize);
    }

    fn start(&self) -> Option<i32> {
        self.0.start().map(|s| s as i32)
    }

    fn set_final(&mut self, s: i32, weight: TropicalWeight) {
        self.0.set_final(s as usize, weight);
    }

    fn final_weight(&self, s: i32) -> TropicalWeight {
        self.0.final_weight(s as usize)
    }

    fn add_arc(&mut self, s: i32, arc: StdArc) {
        self.0.add_arc(s as usize, arc.raw());
    }

    fn states(&self) -> std::ops::Range<i32> {
        0..self.0.num_states() as i32
    }

    fn arcs(&self, s: i32) -> std::vec::IntoIter<StdArc> {
        let arcs: Vec<StdArc> = self.0.arcs(s as usize).iter().map(StdArc::of).collect();
        arcs.into_iter()
    }

    fn num_arcs(&self, s: i32) -> usize {
        self.0.num_arcs(s as usize)
    }

    fn delete_arcs(&mut self, s: i32) {
        self.0.delete_arcs(s as usize);
    }

    fn mutate_arcs(&mut self, s: i32, change: impl Fn(&mut StdArc)) {
        let mut arcs: Vec<StdArc> = self.arcs(s).collect();
        for arc in &mut arcs {
            change(arc);
        }
        self.0.set_arcs(s as usize, arcs.iter().map(StdArc::raw).collect());
    }

    /// What holds of the machine, read off its states and arcs where `test` says so.
    fn properties(&self, mask: u64, test: bool) -> u64 {
        if test {
            compute_properties(&self.0) & mask
        } else {
            self.0.known_properties(mask)
        }
    }

    /// Reads off the machine what holds of it, and keeps that with it.
    fn learn_properties(&mut self) {
        let props = compute_properties(&self.0);
        self.0.set_properties(props, K_FST_PROPERTIES);
    }
}

/// Every property of a machine that can be read off its states and arcs.
fn compute_properties<W: Weight>(fst: &VectorFst<W>) -> u64 {
    let n = fst.num_states();
    let one = W::one();
    let zero = W::zero();
    let mut props = 0u64;
    let mut reach = vec![vec![false; n]; n];
    for s in 0..n {
        for arc in fst.arcs(s) {
            reach[s][arc.nextstate] = true;
        }
    }
    for k in 0..n {
        for i in 0..n {
            if reach[i][k] {
                for j in 0..n {
                    if reach[k][j] {
                        reach[i][j] = true;
                    }
                }
            }
        }
    }
    let start = fst.start();
    let arcs: Vec<(usize, &Arc<W>)> =
        (0..n).flat_map(|s| fst.arcs(s).iter().map(move |arc| (s, arc))).collect();
    let repeats = |label: fn(&Arc<W>) -> i32| {
        (0..n).any(|s| {
            let mut labels: Vec<i32> = fst.arcs(s).iter().map(label).collect();
            labels.sort();
            labels.windows(2).any(|pair| pair[0] == pair[1])
        })
    };
    let falls = |label: fn(&Arc<W>) -> i32| {
        (0..n).any(|s| fst.arcs(s).windows(2).any(|pair| label(&pair[0]) > label(&pair[1])))
    };
    let mut set = |holds: bool, yes: u64, no: u64| {
        props |= if holds { yes } else { no };
    };
    set(arcs.iter().all(|(_, a)| a.ilabel == a.olabel), K_ACCEPTOR, K_NOT_ACCEPTOR);
    set(!repeats(|a| a.ilabel), K_I_DETERMINISTIC, K_NON_I_DETERMINISTIC);
    set(!repeats(|a| a.olabel), K_O_DETERMINISTIC, K_NON_O_DETERMINISTIC);
    set(arcs.iter().any(|(_, a)| a.ilabel == 0 && a.olabel == 0), K_EPSILONS, K_NO_EPSILONS);
    set(arcs.iter().any(|(_, a)| a.ilabel == 0), K_I_EPSILONS, K_NO_I_EPSILONS);
    set(arcs.iter().any(|(_, a)| a.olabel == 0), K_O_EPSILONS, K_NO_O_EPSILONS);
    set(!falls(|a| a.ilabel), K_I_LABEL_SORTED, K_NOT_I_LABEL_SORTED);
    set(!falls(|a| a.olabel), K_O_LABEL_SORTED, K_NOT_O_LABEL_SORTED);
    let weighted = arcs.iter().any(|(_, a)| !a.weight.same(&one) && !a.weight.same(&zero))
        || (0..n).any(|s| {
            let w = fst.final_weight(s);
            !w.same(&one) && !w.same(&zero)
        });
    set(weighted, K_WEIGHTED, K_UNWEIGHTED);
    let has_cycle = (0..n).any(|s| reach[s][s]);
    set(has_cycle, K_CYCLIC, K_ACYCLIC);
    let initial_cycle = start.is_some_and(|s| reach[s][s]);
    set(initial_cycle, K_INITIAL_CYCLIC, K_INITIAL_ACYCLIC);
    set(arcs.iter().all(|(s, a)| a.nextstate > *s), K_TOP_SORTED, K_NOT_TOP_SORTED);
    let seen = |s: usize| start.is_some_and(|i| i == s || reach[i][s]);
    let ends = |s: usize| (0..n).any(|t| fst.is_final(t) && (s == t || reach[s][t]));
    set((0..n).all(seen), K_ACCESSIBLE, K_NOT_ACCESSIBLE);
    set((0..n).all(ends), K_CO_ACCESSIBLE, K_NOT_CO_ACCESSIBLE);
    let string = start.map_or(n == 0, |i| i == 0)
        && (0..n).all(|s| {
            if fst.is_final(s) {
                fst.num_arcs(s) == 0 && s + 1 == n
            } else {
                fst.num_arcs(s) == 1 && fst.arcs(s)[0].nextstate == s + 1
            }
        });
    set(string, K_STRING, K_NOT_STRING);
    let weighted_cycle =
        arcs.iter().any(|(s, a)| {
            !a.weight.same(&one) && !a.weight.same(&zero) && (a.nextstate == *s || reach[a.nextstate][*s])
        });
    set(weighted_cycle, K_WEIGHTED_CYCLES, K_UNWEIGHTED_CYCLES);
    props
}

/// Every successful path of at most `limit` arcs: its two label strings and its weight.
fn paths(fst: &StdVectorFst, limit: usize) -> Vec<(Vec<i32>, Vec<i32>, TropicalWeight)> {
    let mut found = Vec::new();
    let mut open = Vec::new();
    if let Some(start) = fst.start() {
        open.push((start, Vec::new(), Vec::new(), TropicalWeight::one(), 0usize));
    }
    while let Some((s, input, output, weight, length)) = open.pop() {
        let end = fst.final_weight(s);
        if end != TropicalWeight::zero() {
            found.push((input.clone(), output.clone(), weight.times(&end)));
        }
        if length < limit {
            for arc in fst.arcs(s) {
                let mut input: Vec<i32> = input.clone();
                let mut output: Vec<i32> = output.clone();
                input.push(arc.ilabel());
                output.push(arc.olabel());
                open.push((arc.nextstate(), input, output, weight.times(&arc.weight()), length + 1));
            }
        }
    }
    found
}

/// The same paths with the epsilons taken out of their strings.
fn visible_paths(fst: &StdVectorFst, limit: usize) -> Vec<(Vec<i32>, Vec<i32>, TropicalWeight)> {
    let seen = |labels: Vec<i32>| labels.into_iter().filter(|label| *label != 0).collect();
    paths(fst, limit).into_iter().map(|(i, o, w)| (seen(i), seen(o), w)).collect()
}

/// The paths in order, with their weights written out.
fn sorted(paths: Vec<(Vec<i32>, Vec<i32>, TropicalWeight)>) -> Vec<(Vec<i32>, Vec<i32>, String)> {
    let mut rows: Vec<(Vec<i32>, Vec<i32>, String)> =
        paths.into_iter().map(|(i, o, w)| (i, o, format!("{:.4}", w.value()))).collect();
    rows.sort();
    rows
}

fn chain(arcs: &[(i32, i32, f32)], end: f32) -> StdVectorFst {
    let mut fst = StdVectorFst::new();
    fst.add_state();
    fst.set_start(0);
    for (at, (ilabel, olabel, weight)) in arcs.iter().enumerate() {
        let next = fst.add_state();
        fst.add_arc(at as i32, StdArc::new(*ilabel, *olabel, TropicalWeight(*weight), next));
    }
    fst.set_final(arcs.len() as i32, TropicalWeight(end));
    fst
}

/// Where the first reads x and writes y, and the second reads y and writes z, the
/// composition reads x and writes z, and the weights add up.
#[test]
fn composing_relates_what_the_two_relate() {
    let first = chain(&[(1, 2, 0.5), (3, 4, 1.0)], 0.25);
    let second = chain(&[(2, 5, 2.0), (4, 6, 4.0)], 8.0);
    let mut out = StdVectorFst::new();
    compose(&first, &second, &mut out).unwrap();
    assert_eq!(
        sorted(visible_paths(&out, 8)),
        vec![(vec![1, 3], vec![5, 6], "15.7500".to_string())]
    );

    // What the first writes is not what this one reads.
    let other = chain(&[(2, 5, 2.0), (7, 6, 4.0)], 8.0);
    let mut none = StdVectorFst::new();
    compose(&first, &other, &mut none).unwrap();
    assert!(paths(&none, 8).is_empty());
}

/// Epsilons on both sides could be taken in several orders; the pair is found once.
#[test]
fn a_pair_of_paths_with_epsilons_is_found_once() {
    let first = chain(&[(1, 0, 1.0), (2, 0, 1.0), (3, 9, 1.0)], 0.0);
    let second = chain(&[(0, 5, 1.0), (0, 6, 1.0), (9, 7, 1.0), (0, 8, 1.0)], 0.0);
    let mut out = StdVectorFst::new();
    compose(&first, &second, &mut out).unwrap();
    assert_eq!(
        sorted(visible_paths(&out, 12)),
        vec![(vec![1, 2, 3], vec![5, 6, 7, 8], "7.0000".to_string())]
    );
}

/// An acceptor of some words over the labels one and two.
fn words(words: &[&[i32]]) -> StdVectorFst {
    let mut fst = StdVectorFst::new();
    fst.add_state();
    fst.set_start(0);
    for word in words {
        let mut at = 0;
        for label in word.iter() {
            let found = fst.arcs(at).find(|arc| arc.ilabel() == *label);
            at = match found {
                Some(arc) => arc.nextstate(),
                None => {
                    let next = fst.add_state();
                    fst.add_arc(at, StdArc::new(*label, *label, TropicalWeight::one(), next));
                    next
                }
            };
        }
        fst.set_final(at, TropicalWeight::one());
    }
    fst.learn_properties();
    fst
}

fn accepted(fst: &StdVectorFst) -> Vec<Vec<i32>> {
    let mut strings: Vec<Vec<i32>> =
        visible_paths(fst, 8).into_iter().map(|(input, _, _)| input).collect();
    strings.sort();
    strings
}

/// A string is in the difference exactly if the first has it and the second has not, and
/// in the intersection exactly if both have it.
#[test]
fn difference_and_intersection_divide_the_first_between_them() {
    let first = words(&[&[], &[1], &[1, 2], &[2, 2]]);
    let second = words(&[&[1], &[2, 2], &[2, 1]]);

    let mut rest = StdVectorFst::new();
    difference(&first, &second, &mut rest).unwrap();
    assert_eq!(accepted(&rest), vec![vec![], vec![1, 2]]);

    let mut both = StdVectorFst::new();
    intersect(&first, &second, &mut both).unwrap();
    assert_eq!(accepted(&both), vec![vec![1], vec![2, 2]]);
}

/// Moving weight by potentials leaves every path's weight alone, whichever way it is
/// moved, and also where the start can be come back to.
#[test]
fn reweighting_keeps_the_weights_of_paths() {
    let mut fst = chain(&[(1, 1, 1.0), (2, 2, 2.0)], 4.0);
    fst.add_arc(0, StdArc::new(3, 3, TropicalWeight(5.0), 2));
    let mut looping = fst.clone();
    looping.add_arc(1, StdArc::new(4, 4, TropicalWeight(6.0), 0));
    for machine in [fst, looping] {
        let want = sorted(visible_paths(&machine, 5));
        for to in [ReweightType::ToInitial, ReweightType::ToFinal] {
            let mut moved = machine.clone();
            let potential =
                vec![TropicalWeight(0.5), TropicalWeight(-1.0), TropicalWeight(2.0)];
            reweight(&mut moved, &potential, to);
            let mut got = sorted(visible_paths(&moved, 6));
            got.retain(|path| want.contains(path));
            assert_eq!(got, want);
        }
    }
}

/// Sums join where a range is cut.
#[test]
fn sums_join_where_a_range_is_cut() {
    let mut fst = StdVectorFst::new();
    fst.add_state();
    for weight in [3.0, 1.0, 2.0, 0.5] {
        fst.add_arc(0, StdArc::new(1, 1, TropicalWeight(weight), 0));
    }
    let arcs = fst.0.arcs(0);
    let mut acc = DefaultAccumulator;
    let whole = acc.sum_range(&TropicalWeight::zero(), arcs, 0, 3);
    let part = acc.sum_range(&TropicalWeight::zero(), arcs, 0, 2);
    assert_eq!(acc.sum_range(&part, arcs, 2, 3), whole);
    assert_eq!(whole, TropicalWeight(1.0));
}

/// Numbers and names are read back as they were written, one after the other.
#[test]
fn what_is_written_is_read_back() {
    let mut bytes = Vec::new();
    write_bool(&mut bytes, true);
    write_i32(&mut bytes, -2);
    write_u64(&mut bytes, u64::MAX);
    write_i64(&mut bytes, i64::MIN);
    write_name(&mut bytes, "\u{e4}b").unwrap();
    assert_eq!(&bytes[..5], &[1, 0xfe, 0xff, 0xff, 0xff]);

    let mut reader = ByteReader::new(&bytes);
    assert_eq!(reader.read_bool(), Ok(true));
    assert_eq!(reader.read_i32(), Ok(-2));
    assert_eq!(reader.read_u64(), Ok(u64::MAX));
    assert_eq!(reader.read_i64(), Ok(i64::MIN));
    assert_eq!(reader.read_name(), Ok("\u{e4}b".to_string()));
    assert!(matches!(reader.read_u8(), Err(OpenFstError::Io(_))));
}

/// Dividing a weight out divides each path by it once, however often the path comes back
/// to the start.
#[test]
fn a_weight_is_divided_out_of_each_path_once() {
    let mut fst = StdVectorFst::new();
    fst.add_state();
    fst.set_start(0);
    fst.add_arc(0, StdArc::new(1, 1, TropicalWeight(2.0), 0));
    fst.set_final(0, TropicalWeight(5.0));
    let before = sorted(paths(&fst, 4));

    remove_weight(&mut fst, &TropicalWeight(1.5), false);
    let mut after: Vec<(Vec<i32>, Vec<i32>, TropicalWeight)> = paths(&fst, 4);
    assert_eq!(after.len(), 5);
    for path in after.iter_mut() {
        path.2 = TropicalWeight(1.5).times(&path.2);
    }
    assert_eq!(sorted(after), before);
    // The way round twice weighs 2 + 2 + 5, less what was divided out once.
    let twice = paths(&fst, 4).into_iter().find(|p| p.0.len() == 2).unwrap();
    assert_eq!(twice.2, TropicalWeight(7.5));
}

/// Dividing a weight out at the end changes no arc.
#[test]
fn a_weight_divided_out_at_the_end_leaves_the_arcs() {
    let mut fst = chain(&[(1, 2, 1.0), (3, 4, 2.0)], 4.0);
    let arcs: Vec<StdArc> = (0..2).map(|s| StdArc::of(&fst.0.arcs(s)[0])).collect();
    remove_weight(&mut fst, &TropicalWeight(3.0), true);
    for (s, arc) in arcs.iter().enumerate() {
        assert_eq!(StdArc::of(&fst.0.arcs(s)[0]), *arc);
    }
    assert_eq!(paths(&fst, 4), vec![(vec![1, 3], vec![2, 4], TropicalWeight(4.0))]);
}

/// The start, the final weights and the arcs of a machine.
fn shape(fst: &StdVectorFst) -> (Option<usize>, Vec<(String, Vec<StdArc>)>) {
    let states = (0..fst.0.num_states())
        .map(|s| {
            let arcs = fst.0.arcs(s).iter().map(StdArc::of).collect();
            (format!("{:?}", fst.0.final_weight(s)), arcs)
        })
        .collect();
    (fst.0.start(), states)
}

/// Composing again gives the same machine, and connecting on the way is trimming
/// afterwards.
#[test]
fn connecting_a_composition_is_trimming_it() {
    let mut fst1 = chain(&[(1, 2, 1.0), (3, 4, 0.5)], 0.0);
    fst1.add_arc(0, StdArc::new(5, 2, TropicalWeight(2.0), 0));
    fst1.add_arc(1, StdArc::new(6, 9, TropicalWeight(2.0), 2));
    let mut fst2 = chain(&[(2, 7, 1.5), (4, 8, 0.25)], 1.0);
    fst2.add_arc(0, StdArc::new(2, 2, TropicalWeight(0.0), 0));

    let mut first = StdVectorFst::new();
    compose(&fst1, &fst2, &mut first).unwrap();
    let mut second = StdVectorFst::new();
    compose_options(&fst1, &fst2, &mut second, &ComposeOptions { connect: true }).unwrap();
    let mut whole = StdVectorFst::new();
    compose_options(&fst1, &fst2, &mut whole, &ComposeOptions { connect: false }).unwrap();
    assert!(whole.0.num_states() > first.0.num_states());
    connect(&mut whole);

    assert_eq!(shape(&first), shape(&second));
    assert_eq!(shape(&whole), shape(&first));
}

/// Two machines in a row relate what the one and then the other relates, at the product
/// of the weights, whichever of the two the other is added to.
#[test]
fn two_machines_in_a_row_weigh_what_they_weigh_together() {
    let first = chain(&[(1, 2, 1.0), (0, 3, 0.5)], 0.25);
    let second = chain(&[(4, 0, 2.0)], 1.0);

    let mut after = StdVectorFst(first.0.duplicate());
    sicada::concat::concat(&mut after, &second).unwrap();
    let mut before = StdVectorFst(second.0.duplicate());
    concat_onto(&first, &mut before).unwrap();

    let expected = vec![(vec![1, 4], vec![2, 3], TropicalWeight(4.75))];
    assert_eq!(sorted(visible_paths(&after, 6)), sorted(expected.clone()));
    assert_eq!(sorted(visible_paths(&before, 6)), sorted(expected));
}

/// What a difference keeps weighs what it weighed in the first machine.
#[test]
fn a_difference_keeps_the_weights_of_the_first() {
    let mut first = chain(&[(1, 1, 1.0), (2, 2, 2.0)], 0.5);
    first.add_arc(0, StdArc::new(3, 3, TropicalWeight(4.0), 2));
    let second = words(&[&[1, 2]]);
    let mut left = StdVectorFst::new();
    difference(&first, &second, &mut left).unwrap();
    assert_eq!(sorted(visible_paths(&left, 6)), sorted(vec![(vec![3], vec![3], TropicalWeight(4.5))]));
}
