#![allow(dead_code)]

use sicada::add_on::AddOn;
use sicada::arc::Arc;
use sicada::arc_map::ArcMapper;
use sicada::encode::{ENCODE_FLAGS, ENCODE_LABELS, ENCODE_WEIGHTS, EncodeMapper, EncodeTable, EncodeType, Triple, decode, encode};
use sicada::encode_format::{ENCODE_DEPRECATED_MAGIC_NUMBER, ENCODE_MAGIC_NUMBER, EncodeTableHeader};
use sicada::error::OpenFstError;
use sicada::properties::{K_ACCEPTOR, K_ACCESSIBLE, K_ACYCLIC, K_CO_ACCESSIBLE, K_CYCLIC, K_EPSILONS, K_FST_PROPERTIES, K_INITIAL_ACYCLIC, K_INITIAL_CYCLIC, K_I_DETERMINISTIC, K_I_EPSILONS, K_I_LABEL_SORTED, K_NON_I_DETERMINISTIC, K_NON_O_DETERMINISTIC, K_NOT_ACCEPTOR, K_NOT_ACCESSIBLE, K_NOT_CO_ACCESSIBLE, K_NOT_I_LABEL_SORTED, K_NOT_O_LABEL_SORTED, K_NOT_STRING, K_NOT_TOP_SORTED, K_NO_EPSILONS, K_NO_I_EPSILONS, K_NO_O_EPSILONS, K_O_DETERMINISTIC, K_O_EPSILONS, K_O_LABEL_SORTED, K_STRING, K_TOP_SORTED, K_UNWEIGHTED, K_UNWEIGHTED_CYCLES, K_WEIGHTED, K_WEIGHTED_CYCLES};
use sicada::symbol_table::SymbolTable;
use sicada::vector_fst::VectorFst;
use sicada::weight::{COMMUTATIVE, IDEMPOTENT, LEFT_SEMIRING, PATH, RIGHT_SEMIRING, Weight};
use sicada::wire::{ByteReader, Bytes, Parsed};
use std::rc::Rc;

/// The tropical semiring: the least weight wins, and weights along a path add up.
#[derive(Clone, Copy, Debug, PartialEq, PartialOrd)]
struct TropicalWeight(f32);

impl TropicalWeight {
    fn new(value: f32) -> Self {
        TropicalWeight(value)
    }

    fn value(&self) -> f32 {
        self.0
    }
}

impl Weight for TropicalWeight {
    type Delta = f32;

    fn spec_zero() -> Self {
        unreachable!()
    }

    fn spec_one() -> Self {
        unreachable!()
    }

    fn spec_no_weight() -> Self {
        unreachable!()
    }

    fn spec_plus(self, _other: Self) -> Self {
        unreachable!()
    }

    fn spec_times(self, _other: Self) -> Self {
        unreachable!()
    }

    fn spec_member(self) -> bool {
        unreachable!()
    }

    fn spec_approx(self, _other: Self, _delta: f32) -> bool {
        unreachable!()
    }

    fn spec_quantize(self, _delta: f32) -> Self {
        unreachable!()
    }

    fn spec_hash_word(self) -> u64 {
        unreachable!()
    }

    fn spec_properties() -> u64 {
        unreachable!()
    }

    fn spec_default_delta() -> f32 {
        unreachable!()
    }

    fn zero() -> Self {
        TropicalWeight(f32::INFINITY)
    }

    fn one() -> Self {
        TropicalWeight(0.0)
    }

    fn no_weight() -> Self {
        TropicalWeight(f32::NAN)
    }

    fn plus(&self, other: &Self) -> Self {
        if !self.is_member() || !other.is_member() {
            return Self::no_weight();
        }
        TropicalWeight(self.0.min(other.0))
    }

    fn times(&self, other: &Self) -> Self {
        if !self.is_member() || !other.is_member() {
            return Self::no_weight();
        }
        TropicalWeight(self.0 + other.0)
    }

    fn duplicate(&self) -> Self {
        *self
    }

    fn same(&self, other: &Self) -> bool {
        self.0 == other.0
    }

    fn is_member(&self) -> bool {
        !self.0.is_nan() && self.0 != f32::NEG_INFINITY
    }

    fn approx_equal(&self, other: &Self, delta: &f32) -> bool {
        self.0 <= other.0 + delta && other.0 <= self.0 + delta
    }

    fn quantize(&self, delta: &f32) -> Self {
        if self.0.is_finite() {
            TropicalWeight((self.0 / delta + 0.5).floor() * delta)
        } else {
            *self
        }
    }

    fn hash_word(&self) -> u64 {
        self.0.to_bits() as u64
    }

    fn properties() -> u64 {
        LEFT_SEMIRING | RIGHT_SEMIRING | COMMUTATIVE | IDEMPOTENT | PATH
    }

    fn default_delta() -> f32 {
        1.0 / 1024.0
    }
}

/// An arc whose weight is tropical.
#[derive(Clone, Copy, Debug, PartialEq)]
struct StdArc {
    ilabel: i32,
    olabel: i32,
    weight: TropicalWeight,
    nextstate: i32,
}

impl StdArc {
    fn new(ilabel: i32, olabel: i32, weight: TropicalWeight, nextstate: i32) -> Self {
        StdArc { ilabel, olabel, weight, nextstate }
    }

    fn of(arc: &Arc<TropicalWeight>) -> Self {
        StdArc::new(arc.ilabel, arc.olabel, arc.weight, arc.nextstate as i32)
    }

    fn raw(&self) -> Arc<TropicalWeight> {
        Arc::new(self.ilabel, self.olabel, self.weight, self.nextstate as usize)
    }

    fn ilabel(&self) -> i32 {
        self.ilabel
    }

    fn olabel(&self) -> i32 {
        self.olabel
    }

    fn weight(&self) -> TropicalWeight {
        self.weight
    }

    fn nextstate(&self) -> i32 {
        self.nextstate
    }
}

/// A machine over tropical weights, with states counted by `i32`.
struct StdVectorFst(VectorFst<TropicalWeight>);

impl std::ops::Deref for StdVectorFst {
    type Target = VectorFst<TropicalWeight>;

    fn deref(&self) -> &VectorFst<TropicalWeight> {
        &self.0
    }
}

impl std::ops::DerefMut for StdVectorFst {
    fn deref_mut(&mut self) -> &mut VectorFst<TropicalWeight> {
        &mut self.0
    }
}

impl Clone for StdVectorFst {
    fn clone(&self) -> Self {
        StdVectorFst(self.0.duplicate())
    }
}

impl StdVectorFst {
    fn new() -> Self {
        StdVectorFst(VectorFst::new())
    }

    fn add_state(&mut self) -> i32 {
        self.0.add_state() as i32
    }

    fn set_start(&mut self, s: i32) {
        self.0.set_start(s as usize);
    }

    fn start(&self) -> Option<i32> {
        self.0.start().map(|s| s as i32)
    }

    fn set_final(&mut self, s: i32, weight: TropicalWeight) {
        self.0.set_final(s as usize, weight);
    }

    fn final_weight(&self, s: i32) -> TropicalWeight {
        self.0.final_weight(s as usize)
    }

    fn add_arc(&mut self, s: i32, arc: StdArc) {
        self.0.add_arc(s as usize, arc.raw());
    }

    fn states(&self) -> std::ops::Range<i32> {
        0..self.0.num_states() as i32
    }

    fn arcs(&self, s: i32) -> std::vec::IntoIter<StdArc> {
        let arcs: Vec<StdArc> = self.0.arcs(s as usize).iter().map(StdArc::of).collect();
        arcs.into_iter()
    }

    fn num_arcs(&self, s: i32) -> usize {
        self.0.num_arcs(s as usize)
    }

    fn delete_arcs(&mut self, s: i32) {
        self.0.delete_arcs(s as usize);
    }

    fn mutate_arcs(&mut self, s: i32, change: impl Fn(&mut StdArc)) {
        let mut arcs: Vec<StdArc> = self.arcs(s).collect();
        for arc in &mut arcs {
            change(arc);
        }
        self.0.set_arcs(s as usize, arcs.iter().map(StdArc::raw).collect());
    }

    /// What holds of the machine, read off its states and arcs where `test` says so.
    fn properties(&self, mask: u64, test: bool) -> u64 {
        if test {
            compute_properties(&self.0) & mask
        } else {
            self.0.known_properties(mask)
        }
    }

    /// Reads off the machine what holds of it, and keeps that with it.
    fn learn_properties(&mut self) {
        let props = compute_properties(&self.0);
        self.0.set_properties(props, K_FST_PROPERTIES);
    }
}

/// Every property of a machine that can be read off its states and arcs.
fn compute_properties<W: Weight>(fst: &VectorFst<W>) -> u64 {
    let n = fst.num_states();
    let one = W::one();
    let zero = W::zero();
    let mut props = 0u64;
    let mut reach = vec![vec![false; n]; n];
    for s in 0..n {
        for arc in fst.arcs(s) {
            reach[s][arc.nextstate] = true;
        }
    }
    for k in 0..n {
        for i in 0..n {
            if reach[i][k] {
                for j in 0..n {
                    if reach[k][j] {
                        reach[i][j] = true;
                    }
                }
            }
        }
    }
    let start = fst.start();
    let arcs: Vec<(usize, &Arc<W>)> =
        (0..n).flat_map(|s| fst.arcs(s).iter().map(move |arc| (s, arc))).collect();
    let repeats = |label: fn(&Arc<W>) -> i32| {
        (0..n).any(|s| {
            let mut labels: Vec<i32> = fst.arcs(s).iter().map(label).collect();
            labels.sort();
            labels.windows(2).any(|pair| pair[0] == pair[1])
        })
    };
    let falls = |label: fn(&Arc<W>) -> i32| {
        (0..n).any(|s| fst.arcs(s).windows(2).any(|pair| label(&pair[0]) > label(&pair[1])))
    };
    let mut set = |holds: bool, yes: u64, no: u64| {
        props |= if holds { yes } else { no };
    };
    set(arcs.iter().all(|(_, a)| a.ilabel == a.olabel), K_ACCEPTOR, K_NOT_ACCEPTOR);
    set(!repeats(|a| a.ilabel), K_I_DETERMINISTIC, K_NON_I_DETERMINISTIC);
    set(!repeats(|a| a.olabel), K_O_DETERMINISTIC, K_NON_O_DETERMINISTIC);
    set(arcs.iter().any(|(_, a)| a.ilabel == 0 && a.olabel == 0), K_EPSILONS, K_NO_EPSILONS);
    set(arcs.iter().any(|(_, a)| a.ilabel == 0), K_I_EPSILONS, K_NO_I_EPSILONS);
    set(arcs.iter().any(|(_, a)| a.olabel == 0), K_O_EPSILONS, K_NO_O_EPSILONS);
    set(!falls(|a| a.ilabel), K_I_LABEL_SORTED, K_NOT_I_LABEL_SORTED);
    set(!falls(|a| a.olabel), K_O_LABEL_SORTED, K_NOT_O_LABEL_SORTED);
    let weighted = arcs.iter().any(|(_, a)| !a.weight.same(&one) && !a.weight.same(&zero))
        || (0..n).any(|s| {
            let w = fst.final_weight(s);
            !w.same(&one) && !w.same(&zero)
        });
    set(weighted, K_WEIGHTED, K_UNWEIGHTED);
    let has_cycle = (0..n).any(|s| reach[s][s]);
    set(has_cycle, K_CYCLIC, K_ACYCLIC);
    let initial_cycle = start.is_some_and(|s| reach[s][s]);
    set(initial_cycle, K_INITIAL_CYCLIC, K_INITIAL_ACYCLIC);
    set(arcs.iter().all(|(s, a)| a.nextstate > *s), K_TOP_SORTED, K_NOT_TOP_SORTED);
    let seen = |s: usize| start.is_some_and(|i| i == s || reach[i][s]);
    let ends = |s: usize| (0..n).any(|t| fst.is_final(t) && (s == t || reach[s][t]));
    set((0..n).all(seen), K_ACCESSIBLE, K_NOT_ACCESSIBLE);
    set((0..n).all(ends), K_CO_ACCESSIBLE, K_NOT_CO_ACCESSIBLE);
    let string = start.map_or(n == 0, |i| i == 0)
        && (0..n).all(|s| {
            if fst.is_final(s) {
                fst.num_arcs(s) == 0 && s + 1 == n
            } else {
                fst.num_arcs(s) == 1 && fst.arcs(s)[0].nextstate == s + 1
            }
        });
    set(string, K_STRING, K_NOT_STRING);
    let weighted_cycle =
        arcs.iter().any(|(s, a)| {
            !a.weight.same(&one) && !a.weight.same(&zero) && (a.nextstate == *s || reach[a.nextstate][*s])
        });
    set(weighted_cycle, K_WEIGHTED_CYCLES, K_UNWEIGHTED_CYCLES);
    props
}

/// A small generator of repeatable numbers.
struct Rng(u64);

impl Rng {
    fn new(seed: u64) -> Self {
        Rng(seed.wrapping_mul(0x9E37_79B9_7F4A_7C15) | 1)
    }

    fn next(&mut self) -> u64 {
        self.0 ^= self.0 << 13;
        self.0 ^= self.0 >> 7;
        self.0 ^= self.0 << 17;
        self.0
    }

    /// A number less than `bound`.
    fn below(&mut self, bound: usize) -> usize {
        ((self.next() >> 11) % bound as u64) as usize
    }
}

/// An acceptor with no cycle, in which every state but the last has an arc on.
fn random_acyclic_fst(rng: &mut Rng, states: usize) -> StdVectorFst {
    let mut fst = StdVectorFst::new();
    for _ in 0..states {
        fst.add_state();
    }
    fst.set_start(0);
    for s in 0..states - 1 {
        let arcs = 1 + rng.below(3);
        for _ in 0..arcs {
            let next = s + 1 + rng.below(states - 1 - s);
            let label = 1 + rng.below(3) as i32;
            let weight = TropicalWeight::new(rng.below(5) as f32);
            fst.add_arc(s as i32, StdArc::new(label, label, weight, next as i32));
        }
        if rng.below(4) == 0 {
            fst.set_final(s as i32, TropicalWeight::new(rng.below(5) as f32));
        }
    }
    fst.set_final(states as i32 - 1, TropicalWeight::new(rng.below(5) as f32));
    fst.learn_properties();
    fst
}

/// Every successful path of at most `limit` arcs: its two label strings and its weight.
fn paths(fst: &StdVectorFst, limit: usize) -> Vec<(Vec<i32>, Vec<i32>, TropicalWeight)> {
    let mut found = Vec::new();
    let mut open = Vec::new();
    if let Some(start) = fst.start() {
        open.push((start, Vec::new(), Vec::new(), TropicalWeight::one(), 0usize));
    }
    while let Some((s, input, output, weight, length)) = open.pop() {
        let end = fst.final_weight(s);
        if end != TropicalWeight::zero() {
            found.push((input.clone(), output.clone(), weight.times(&end)));
        }
        if length < limit {
            for arc in fst.arcs(s) {
                let mut input: Vec<i32> = input.clone();
                let mut output: Vec<i32> = output.clone();
                input.push(arc.ilabel());
                output.push(arc.olabel());
                open.push((arc.nextstate(), input, output, weight.times(&arc.weight()), length + 1));
            }
        }
    }
    found
}

/// What each pair of strings weighs: the sum over the paths that spell it.
fn string_weights(
    paths: Vec<(Vec<i32>, Vec<i32>, TropicalWeight)>,
) -> Vec<(Vec<i32>, Vec<i32>, String)> {
    let mut total: std::collections::BTreeMap<(Vec<i32>, Vec<i32>), TropicalWeight> =
        std::collections::BTreeMap::new();
    for (input, output, weight) in paths {
        let entry = total.entry((input, output)).or_insert(TropicalWeight::zero());
        *entry = entry.plus(&weight);
    }
    total.into_iter().map(|((i, o), w)| (i, o, format!("{:.4}", w.value()))).collect()
}

impl AddOn for TropicalWeight {
    fn is_writable(&self) -> bool {
        unreachable!()
    }

    fn written(&self) -> Bytes {
        unreachable!()
    }

    fn parsed(_bytes: Bytes) -> Parsed<Self> {
        unreachable!()
    }

    fn read(reader: &mut ByteReader<'_>) -> Result<Self, OpenFstError> {
        let bits = reader.read_u32()?;
        Ok(TropicalWeight(f32::from_bits(bits)))
    }

    fn write(&self, writer: &mut Vec<u8>) -> Result<(), OpenFstError> {
        writer.extend_from_slice(&self.0.to_le_bytes());
        Ok(())
    }
}

fn mapper(flags: u8) -> EncodeMapper<TropicalWeight> {
    EncodeMapper::new(flags)
}

/// 0 -a/1-> 1 -b/2-> 2, with 2 final at weight 3.
fn chain() -> StdVectorFst {
    let mut fst = StdVectorFst::new();
    for _ in 0..3 {
        fst.add_state();
    }
    fst.set_start(0);
    fst.add_arc(0, StdArc::new(1, 10, TropicalWeight(1.0), 1));
    fst.add_arc(1, StdArc::new(2, 20, TropicalWeight(2.0), 2));
    fst.set_final(2, TropicalWeight(3.0));
    fst
}

fn observable(fst: &StdVectorFst) -> Vec<(Vec<i32>, Vec<i32>, String)> {
    string_weights(paths(fst, 12))
}

/// The contract of the whole file: whatever is folded away comes back.
#[test]
fn encoding_and_decoding_gives_back_the_same_paths() {
    let mut rng = Rng::new(0x_E4C0_DEED);
    for round in 0..200 {
        let fst = random_acyclic_fst(&mut rng, 6);
        let before = observable(&fst);
        for flags in [ENCODE_LABELS, ENCODE_WEIGHTS, ENCODE_FLAGS] {
            let mut encoder = mapper(flags);
            let mut copy = fst.clone();
            encode(&mut copy, &mut encoder).unwrap();
            decode(&mut copy, &encoder).unwrap();
            assert_eq!(observable(&copy), before, "round {round}, flags {flags}");
        }
    }
}

/// Encoding the labels makes the input and output sides agree, which is
/// what determinization needs.
#[test]
fn encoding_labels_makes_an_acceptor() {
    let mut fst = chain();
    assert_eq!(fst.properties(K_ACCEPTOR, true) & K_ACCEPTOR, 0);

    let mut encoder = mapper(ENCODE_LABELS);
    encode(&mut fst, &mut encoder).unwrap();
    for state in 0..fst.num_states() as i32 {
        for arc in fst.arcs(state) {
            assert_eq!(arc.ilabel(), arc.olabel());
        }
    }
    assert_ne!(fst.properties(K_ACCEPTOR, true) & K_ACCEPTOR, 0);
    // The weights are untouched.
    assert_eq!(fst.final_weight(2), TropicalWeight(3.0));
}

/// Encoding the weights makes every arc weight One, as unweighted
/// minimization requires.
#[test]
fn encoding_weights_makes_it_unweighted() {
    let mut fst = chain();
    let mut encoder = mapper(ENCODE_WEIGHTS);
    encode(&mut fst, &mut encoder).unwrap();
    for state in 0..fst.num_states() as i32 {
        for arc in fst.arcs(state) {
            assert_eq!(arc.weight(), TropicalWeight::one());
        }
    }
    assert_ne!(fst.properties(K_UNWEIGHTED, true) & K_UNWEIGHTED, 0);
    // The output labels are untouched. The trailing epsilon is the arc
    // the final weight of state 2 became.
    let olabels: Vec<i32> = (0..fst.num_states() as i32)
        .flat_map(|s| fst.arcs(s).map(|a| a.olabel()).collect::<Vec<_>>())
        .collect();
    assert_eq!(olabels, vec![10, 20, 0]);
}

/// A final weight has nowhere to go once weights are labels, so it becomes
/// an arc to a state added for the purpose, and decoding folds it back.
#[test]
fn a_final_weight_becomes_an_arc_and_comes_back() {
    let mut fst = chain();
    let before = fst.num_states();

    let mut encoder = mapper(ENCODE_WEIGHTS);
    encode(&mut fst, &mut encoder).unwrap();
    assert_eq!(fst.num_states(), before + 1, "a superfinal state was added");
    assert_eq!(
        fst.final_weight(2),
        TropicalWeight::zero(),
        "state 2 is no longer final; its weight left on an arc"
    );
    assert_eq!(fst.num_arcs(2), 1);

    decode(&mut fst, &encoder).unwrap();
    assert_eq!(fst.final_weight(2), TropicalWeight(3.0));
    assert_eq!(fst.num_arcs(2), 0);
}

/// An unweighted final state has nothing to fold away, so no arc is made
/// for it and the state stays final.
#[test]
fn a_final_state_at_weight_one_keeps_its_final_weight() {
    let mut fst = chain();
    fst.set_final(2, TropicalWeight::one());
    let mut encoder = mapper(ENCODE_WEIGHTS);
    encode(&mut fst, &mut encoder).unwrap();
    // One triple for each of the two arcs, and one for the final weight.
    assert_eq!(encoder.table().len(), 3);
    decode(&mut fst, &encoder).unwrap();
    assert_eq!(fst.final_weight(2), TropicalWeight::one());
}

/// Two arcs alike in what is being encoded share a label; two that differ
/// in it do not.
#[test]
fn arcs_share_a_label_exactly_when_what_is_encoded_matches() {
    let mut fst = StdVectorFst::new();
    for _ in 0..2 {
        fst.add_state();
    }
    fst.set_start(0);
    fst.add_arc(0, StdArc::new(1, 10, TropicalWeight(1.0), 1));
    fst.add_arc(0, StdArc::new(1, 10, TropicalWeight(1.0), 1)); // identical
    fst.add_arc(0, StdArc::new(1, 10, TropicalWeight(2.0), 1)); // other weight
    fst.add_arc(0, StdArc::new(1, 99, TropicalWeight(1.0), 1)); // other olabel

    let mut labels = fst.clone();
    let mut encoder = mapper(ENCODE_LABELS);
    encode(&mut labels, &mut encoder).unwrap();
    let got: Vec<i32> = labels.arcs(0).map(|a| a.ilabel()).collect();
    assert_eq!(
        got,
        vec![1, 1, 1, 2],
        "only the output label separates them when weights are not encoded"
    );

    let mut weights = fst.clone();
    let mut encoder = mapper(ENCODE_WEIGHTS);
    encode(&mut weights, &mut encoder).unwrap();
    let got: Vec<i32> = weights.arcs(0).map(|a| a.ilabel()).collect();
    assert_eq!(
        got,
        vec![1, 1, 2, 1],
        "only the weight separates them when labels are not encoded"
    );

    let mut both = fst;
    let mut encoder = mapper(ENCODE_FLAGS);
    encode(&mut both, &mut encoder).unwrap();
    let got: Vec<i32> = both.arcs(0).map(|a| a.ilabel()).collect();
    assert_eq!(got, vec![1, 1, 2, 3]);
}

/// Encoding clears the symbol tables, because the labels no longer mean
/// what they meant; decoding puts them back.
#[test]
fn symbol_tables_are_kept_aside_and_put_back() {
    let mut syms = SymbolTable::new("input");
    syms.add_symbol("a", 1);
    let mut osyms = SymbolTable::new("output");
    osyms.add_symbol("A", 1);

    let mut fst = chain();
    fst.set_input_symbols(Some(Rc::new(syms)));
    fst.set_output_symbols(Some(Rc::new(osyms)));

    let mut encoder = mapper(ENCODE_FLAGS);
    encode(&mut fst, &mut encoder).unwrap();
    assert!(fst.input_symbols().is_none());
    assert!(fst.output_symbols().is_none());

    decode(&mut fst, &encoder).unwrap();
    assert_eq!(fst.input_symbols().unwrap().name(), "input");
    assert_eq!(fst.output_symbols().unwrap().name(), "output");
}

/// A label with no entry in the table is refused, and nothing is rewritten.
#[test]
fn decoding_a_label_the_table_does_not_have_is_refused() {
    let mut fst = chain();
    let mut encoder = mapper(ENCODE_FLAGS);
    encode(&mut fst, &mut encoder).unwrap();

    // A label one past the last one the table assigned.
    let past_the_end = encoder.table().len() as i32 + 1;
    fst.add_arc(
        0,
        StdArc::new(past_the_end, past_the_end, TropicalWeight::one(), 1),
    );
    let before: Vec<StdArc> = fst.arcs(0).collect();

    let err = decode(&mut fst, &encoder).unwrap_err();
    assert!(err.message().contains("encode table"), "{}", err.message());
    assert_eq!(
        fst.arcs(0).collect::<Vec<_>>(),
        before,
        "nothing was rewritten"
    );
}

/// An arc whose two sides disagree cannot have come from a label-encoded
/// FST, so decoding refuses it rather than guessing.
#[test]
fn decoding_refuses_an_arc_that_was_never_encoded_that_way() {
    let mut fst = chain();
    let mut encoder = mapper(ENCODE_FLAGS);
    encode(&mut fst, &mut encoder).unwrap();
    fst.add_arc(0, StdArc::new(1, 2, TropicalWeight::one(), 1));
    assert!(decode(&mut fst, &encoder).is_err());

    let mut fst = chain();
    let mut encoder = mapper(ENCODE_WEIGHTS);
    encode(&mut fst, &mut encoder).unwrap();
    fst.add_arc(0, StdArc::new(1, 1, TropicalWeight(7.0), 1));
    assert!(decode(&mut fst, &encoder).is_err());
}

/// The properties the mapper claims have to be the ones the result has.
#[test]
fn encode_the_claimed_properties_are_the_ones_the_result_has() {
    let mut rng = Rng::new(0x_9E0_9E0);
    for round in 0..100 {
        let fst = random_acyclic_fst(&mut rng, 5);
        let inprops = fst.properties(K_FST_PROPERTIES, true);
        for flags in [ENCODE_LABELS, ENCODE_WEIGHTS, ENCODE_FLAGS] {
            let mut encoder = mapper(flags);
            let mut copy = fst.clone();
            let claimed = encoder.properties(inprops);
            encode(&mut copy, &mut encoder).unwrap();
            let actual = copy.properties(K_FST_PROPERTIES, true);
            assert_eq!(
                claimed & !actual & K_FST_PROPERTIES,
                0,
                "round {round}, flags {flags}: claimed a property the result does not have: \
                 {:#x}",
                claimed & !actual
            );
        }
    }
}

/// The bytes of a table, one by one. Nothing about this layout may drift.
#[test]
fn the_table_matches_the_bytes_openfst_writes() {
    let mut table: EncodeTable<TropicalWeight> = EncodeTable::new(ENCODE_FLAGS);
    table.encode(&StdArc::new(1, 2, TropicalWeight(0.5), 1).raw());
    table.encode(&StdArc::new(3, 4, TropicalWeight(1.5), 1).raw());

    let mut bytes = Vec::new();
    table.write(&mut bytes, "standard").unwrap();

    let golden: [u8; 49] = [
        0x4a, 0x6d, 0xd9, 0x7e,                          // magic 2128178506
        0x08, 0x00, 0x00, 0x00,                          // arc type length 8
        b's', b't', b'a', b'n', b'd', b'a', b'r', b'd',  // "standard"
        0x03,                                            // flags: labels|weights
        0x02, 0x00, 0x00, 0x00, 0x00, 0x00, 0x00, 0x00,  // two triples
        0x01, 0x00, 0x00, 0x00,                          // ilabel 1
        0x02, 0x00, 0x00, 0x00,                          // olabel 2
        0x00, 0x00, 0x00, 0x3f,                          // weight 0.5
        0x03, 0x00, 0x00, 0x00,                          // ilabel 3
        0x04, 0x00, 0x00, 0x00,                          // olabel 4
        0x00, 0x00, 0xc0, 0x3f,                          // weight 1.5
    ];
    assert_eq!(bytes, golden);
}

#[test]
fn a_table_round_trips_through_bytes() {
    let mut table: EncodeTable<TropicalWeight> = EncodeTable::new(ENCODE_FLAGS);
    for (ilabel, olabel, weight) in [(1, 2, 0.5), (3, 4, 1.5), (1, 2, 2.5)] {
        table.encode(&StdArc::new(ilabel, olabel, TropicalWeight(weight), 1).raw());
    }
    let mut syms = SymbolTable::new("input");
    syms.add_symbol("a", 1);
    table.set_input_symbols(Some(Rc::new(syms)));

    let mut bytes = Vec::new();
    table.write(&mut bytes, "standard").unwrap();
    let read: EncodeTable<TropicalWeight> =
        EncodeTable::read(&mut ByteReader::new(&bytes)).unwrap();

    assert_eq!(read.len(), table.len());
    assert_eq!(read.flags(), table.flags());
    for label in 1..=table.len() as i32 {
        assert_eq!(read.decode(label), table.decode(label), "label {label}");
    }
    assert_eq!(read.input_symbols().unwrap().name(), "input");
    assert!(read.output_symbols().is_none());
}

/// The format before this one had no arc type and a 32-bit flags field. It is
/// still readable.
#[test]
fn the_deprecated_header_is_still_readable() {
    let mut bytes = Vec::new();
    bytes.extend_from_slice(&ENCODE_DEPRECATED_MAGIC_NUMBER.to_le_bytes());
    bytes.extend_from_slice(&(ENCODE_FLAGS as u32).to_le_bytes());
    bytes.extend_from_slice(&1i64.to_le_bytes());
    bytes.extend_from_slice(&7i32.to_le_bytes());
    bytes.extend_from_slice(&8i32.to_le_bytes());
    bytes.extend_from_slice(&0.25f32.to_le_bytes());

    let table: EncodeTable<TropicalWeight> =
        EncodeTable::read(&mut ByteReader::new(&bytes)).unwrap();
    assert_eq!(table.len(), 1);
    assert_eq!(
        table.decode(1),
        Some(&Triple {
            ilabel: 7,
            olabel: 8,
            weight: TropicalWeight(0.25)
        })
    );
}

#[test]
fn a_stream_that_is_not_an_encode_table_is_refused() {
    let bytes = 12345i32.to_le_bytes().to_vec();
    assert!(EncodeTable::<TropicalWeight>::read(&mut ByteReader::new(&bytes)).is_err());
}

/// A count larger than the triples that follow fails on the short read
/// rather than reserving for it.
#[test]
fn a_table_claiming_more_triples_than_it_has_is_refused() {
    let mut bytes = Vec::new();
    bytes.extend_from_slice(&ENCODE_MAGIC_NUMBER.to_le_bytes());
    bytes.extend_from_slice(&8i32.to_le_bytes());
    bytes.extend_from_slice(b"standard");
    bytes.push(ENCODE_FLAGS);
    bytes.extend_from_slice(&u64::MAX.to_le_bytes());
    assert!(EncodeTable::<TropicalWeight>::read(&mut ByteReader::new(&bytes)).is_err());
}

/// A header says what it said, in the current format.
#[test]
fn a_header_round_trips_through_bytes() {
    let header = EncodeTableHeader {
        arc_type: "log".to_string(),
        flags: ENCODE_LABELS,
        size: 5,
    };
    let mut bytes = Vec::new();
    header.write(&mut bytes).unwrap();
    assert_eq!(bytes.len(), 4 + (4 + 3) + 1 + 8);
    let read = EncodeTableHeader::read(&mut ByteReader::new(&bytes)).unwrap();
    assert_eq!(read.arc_type, "log");
    assert_eq!(read.flags, ENCODE_LABELS);
    assert_eq!(read.size, 5);
}

/// Something else, a stream that stops short and a name that is no text each give
/// their own error.
#[test]
fn a_broken_header_says_what_is_wrong() {
    let bytes = 12345i32.to_le_bytes().to_vec();
    assert!(matches!(
        EncodeTableHeader::read(&mut ByteReader::new(&bytes)),
        Err(OpenFstError::InvalidFstHeader(_))
    ));
    let bytes = ENCODE_MAGIC_NUMBER.to_le_bytes().to_vec();
    assert!(matches!(
        EncodeTableHeader::read(&mut ByteReader::new(&bytes)),
        Err(OpenFstError::Io(_))
    ));
    let mut bytes = ENCODE_MAGIC_NUMBER.to_le_bytes().to_vec();
    bytes.extend_from_slice(&1i32.to_le_bytes());
    bytes.push(0xff);
    bytes.push(0);
    bytes.extend_from_slice(&0u64.to_le_bytes());
    assert!(matches!(
        EncodeTableHeader::read(&mut ByteReader::new(&bytes)),
        Err(OpenFstError::Io("stream did not contain valid UTF-8"))
    ));
}

/// A symbol table keeps its name and its symbols, in their order.
#[test]
fn a_symbol_table_round_trips_through_bytes() {
    let mut syms = SymbolTable::new("phones");
    syms.add_symbol("\u{3b1}", 4);
    syms.add_symbol("b", 2);
    syms.add_symbol("b", 2);
    let mut bytes = Vec::new();
    syms.write(&mut bytes).unwrap();
    assert_eq!(&bytes[4..14], b"\x06\0\0\0phones");
    assert_eq!(&bytes[14..22], &5i64.to_le_bytes());
    assert_eq!(&bytes[22..30], &2i64.to_le_bytes());
    let read = SymbolTable::read(&mut ByteReader::new(&bytes)).unwrap();
    assert_eq!(read.name(), "phones");
    assert_eq!(read.find_symbol(4), Some("\u{3b1}"));
    assert_eq!(read.find_symbol(2), Some("b"));
    assert_eq!(read.find_symbol(3), None);

    let bytes = 3i32.to_le_bytes().to_vec();
    assert!(matches!(
        SymbolTable::read(&mut ByteReader::new(&bytes)),
        Err(OpenFstError::SymbolTable(_))
    ));
}

/// Decoding undoes encoding arc by arc.
#[test]
fn an_encoded_arc_is_decoded_to_itself() {
    let arc = StdArc::new(3, 4, TropicalWeight(2.5), 1).raw();
    let mut encoder = mapper(ENCODE_FLAGS);
    let coded = encoder.map(&arc);
    assert_eq!((coded.ilabel, coded.olabel, coded.weight), (1, 1, TropicalWeight::one()));
    let mut decoder = encoder.inverse();
    assert_eq!(decoder.encode_type(), EncodeType::Decode);
    let back = decoder.map(&coded);
    assert_eq!(StdArc::of(&back), StdArc::of(&arc));
}

/// A table whose bytes end inside the triples, or that says it holds more of them than
/// follow, is refused.
#[test]
fn a_table_with_missing_triples_is_refused() {
    let mut table: EncodeTable<TropicalWeight> = EncodeTable::new(ENCODE_FLAGS);
    for (ilabel, olabel, weight) in [(1, 2, 0.5), (3, 4, 1.5)] {
        table.encode(&StdArc::new(ilabel, olabel, TropicalWeight(weight), 1).raw());
    }
    let mut bytes = Vec::new();
    table.write(&mut bytes, "standard").unwrap();
    // Two triples of twelve bytes follow the header, whose last eight bytes are the size.
    let header = bytes.len() - 24;
    for end in header..bytes.len() {
        let read = EncodeTable::<TropicalWeight>::read(&mut ByteReader::new(&bytes[..end].to_vec()));
        assert!(read.is_err(), "cut off at {end}");
    }
    bytes[header - 8..header].copy_from_slice(&3u64.to_le_bytes());
    assert!(EncodeTable::<TropicalWeight>::read(&mut ByteReader::new(&bytes)).is_err());
}
