#![allow(dead_code)]

use sicada::arc::Arc;
use sicada::compose_filter::{AltSequenceComposeFilter, ComposeFilter, MatchComposeFilter, MultiEpsFilter, NoMatchComposeFilter, NullComposeFilter, SequenceComposeFilter, TrivialComposeFilter};
use sicada::filter_state::{CharFilterState, STATE_DEFAULT, STATE_EPS1, STATE_EPS2, TrivialFilterState};
use sicada::matcher::ScanMatcher;
use sicada::properties::{K_I_LABEL_INVARIANT_PROPERTIES, K_O_LABEL_INVARIANT_PROPERTIES};
use sicada::vector_fst::VectorFst;
use sicada::weight::{COMMUTATIVE, IDEMPOTENT, LEFT_SEMIRING, PATH, RIGHT_SEMIRING, Weight};

/// The tropical semiring: the least weight wins, and weights along a path add up.
#[derive(Clone, Copy, Debug, PartialEq, PartialOrd)]
struct TropicalWeight(f32);

impl TropicalWeight {
    fn new(value: f32) -> Self {
        TropicalWeight(value)
    }

    fn value(&self) -> f32 {
        self.0
    }
}

impl Weight for TropicalWeight {
    type Delta = f32;

    fn spec_zero() -> Self {
        unreachable!()
    }

    fn spec_one() -> Self {
        unreachable!()
    }

    fn spec_no_weight() -> Self {
        unreachable!()
    }

    fn spec_plus(self, _other: Self) -> Self {
        unreachable!()
    }

    fn spec_times(self, _other: Self) -> Self {
        unreachable!()
    }

    fn spec_member(self) -> bool {
        unreachable!()
    }

    fn spec_approx(self, _other: Self, _delta: f32) -> bool {
        unreachable!()
    }

    fn spec_quantize(self, _delta: f32) -> Self {
        unreachable!()
    }

    fn spec_hash_word(self) -> u64 {
        unreachable!()
    }

    fn spec_properties() -> u64 {
        unreachable!()
    }

    fn spec_default_delta() -> f32 {
        unreachable!()
    }

    fn zero() -> Self {
        TropicalWeight(f32::INFINITY)
    }

    fn one() -> Self {
        TropicalWeight(0.0)
    }

    fn no_weight() -> Self {
        TropicalWeight(f32::NAN)
    }

    fn plus(&self, other: &Self) -> Self {
        if !self.is_member() || !other.is_member() {
            return Self::no_weight();
        }
        TropicalWeight(self.0.min(other.0))
    }

    fn times(&self, other: &Self) -> Self {
        if !self.is_member() || !other.is_member() {
            return Self::no_weight();
        }
        TropicalWeight(self.0 + other.0)
    }

    fn duplicate(&self) -> Self {
        *self
    }

    fn same(&self, other: &Self) -> bool {
        self.0 == other.0
    }

    fn is_member(&self) -> bool {
        !self.0.is_nan() && self.0 != f32::NEG_INFINITY
    }

    fn approx_equal(&self, other: &Self, delta: &f32) -> bool {
        self.0 <= other.0 + delta && other.0 <= self.0 + delta
    }

    fn quantize(&self, delta: &f32) -> Self {
        if self.0.is_finite() {
            TropicalWeight((self.0 / delta + 0.5).floor() * delta)
        } else {
            *self
        }
    }

    fn hash_word(&self) -> u64 {
        self.0.to_bits() as u64
    }

    fn properties() -> u64 {
        LEFT_SEMIRING | RIGHT_SEMIRING | COMMUTATIVE | IDEMPOTENT | PATH
    }

    fn default_delta() -> f32 {
        1.0 / 1024.0
    }
}

/// The labels a filter distinguishes: "this side did not consume a symbol",
/// epsilon, and an ordinary symbol.
const LABELS: [i32; 3] = [-1, 0, 5];

/// The four `(alleps, noeps)` combinations, as the state shapes producing
/// them: `alleps` is `num_arcs == num_epsilons && !final`, `noeps` is
/// `num_epsilons == 0`.
const SHAPES: [(usize, usize); 4] = [(0, 0), (1, 1), (1, 0), (2, 1)];

/// A machine whose first state has as many arcs as the shape says, so many of
/// them carrying epsilon on the side that is looked at.
fn machine(shape: (usize, usize), output: bool) -> VectorFst<TropicalWeight> {
    let mut fst = VectorFst::new();
    fst.add_states(2);
    fst.set_start(0);
    for i in 0..shape.0 {
        let label = if i < shape.1 { 0 } else { 9 };
        let (ilabel, olabel) = if output { (9, label) } else { (label, 9) };
        fst.add_arc(0, Arc::new(ilabel, olabel, TropicalWeight::one(), 1));
    }
    fst
}

fn side1(shape: (usize, usize)) -> VectorFst<TropicalWeight> {
    machine(shape, true)
}

fn side2(shape: (usize, usize)) -> VectorFst<TropicalWeight> {
    machine(shape, false)
}

/// Finds the arcs of the first machine by what they write.
fn finder1(fst: &VectorFst<TropicalWeight>) -> ScanMatcher<'_, TropicalWeight> {
    ScanMatcher::new(fst, true)
}

/// Finds the arcs of the second machine by what they read.
fn finder2(fst: &VectorFst<TropicalWeight>) -> ScanMatcher<'_, TropicalWeight> {
    ScanMatcher::new(fst, false)
}

type Edge = Arc<TropicalWeight>;

fn arcs(olabel1: i32, ilabel2: i32) -> (Edge, Edge) {
    (
        Arc::new(0, olabel1, TropicalWeight::one(), 1),
        Arc::new(ilabel2, 0, TropicalWeight::one(), 1),
    )
}

fn decide(fs: Option<CharFilterState>) -> char {
    match fs {
        None => '-',
        Some(fs) => (b'0' + fs.state_copied() as u8) as char,
    }
}

/// The false state stands for no state, so a filter that returns it is refusing
/// the arc.
fn decide_trivial(fs: Option<TrivialFilterState>) -> char {
    match fs {
        Some(fs) if fs.state() => '1',
        _ => '-',
    }
}

/// Walks the label and filter-state combinations for one configured filter.
fn sweep<F: ComposeFilter<TropicalWeight, State = CharFilterState>>(
    out: &mut String,
    make: impl Fn() -> F,
) {
    for fs in [STATE_DEFAULT, STATE_EPS1, STATE_EPS2] {
        for olabel1 in LABELS {
            for ilabel2 in LABELS {
                let mut filter = make();
                filter.set_state(0, 0, &CharFilterState::new(fs));
                let (mut arc1, mut arc2) = arcs(olabel1, ilabel2);
                out.push(decide(filter.filter_arc(&mut arc1, &mut arc2)));
            }
        }
    }
}

/// Every filter's whole decision table.
///
/// These are the tables that decide which of the many interleavings of two
/// machines' epsilons composition keeps, so getting one cell wrong duplicates
/// paths or drops them.
#[test]
fn the_decision_tables_match_openfst() {
    let mut sequence = String::new();
    for shape in SHAPES {
        let fst1 = side1(shape);
        sweep(&mut sequence, || {
            SequenceComposeFilter::new(&fst1, finder1(&fst1), finder2(&fst1))
        });
    }
    assert_eq!(
        sequence,
        "---0--000-------00-------00---0--000-------00-------000000--000000----00000----001110--000111----00111----00"
    );

    let mut altsequence = String::new();
    for shape in SHAPES {
        let fst2 = side2(shape);
        sweep(&mut altsequence, || {
            AltSequenceComposeFilter::new(&fst2, finder1(&fst2), finder2(&fst2))
        });
    }
    assert_eq!(
        altsequence,
        "-00----00-------00-00----00-00----00-------00-00----000000--0000--0--0000000--0001001--1001--1--1001001--100"
    );

    let mut matching = String::new();
    for shape1 in SHAPES {
        for shape2 in SHAPES {
            let fst1 = side1(shape1);
            let fst2 = side2(shape2);
            sweep(&mut matching, || {
                MatchComposeFilter::new(&fst1, &fst2, finder1(&fst1), finder2(&fst2))
            });
        }
    }
    assert_eq!(
        matching,
        "0000000001--1--100-22----00-00-00-001--1--100-22----000000000001--1--100-22----001001001001--1--100-22----000--0000001--1--100-22----00----00-001--1--100-22----000--0000001--1--100-22----001--1001001--1--100-22----000000000001--1--100-22----00-00-00-001--1--100-22----000000000001--1--100-22----001001001001--1--100-22----000220000001--1--100-22----00-22-00-001--1--100-22----000220000001--1--100-22----001221001001--1--100-22----00"
    );

    let plain = side1((1, 0));
    let here = TrivialFilterState::new(true);
    let stateless = |mut decide: Box<dyn FnMut(i32, i32) -> char>| {
        let mut out = String::new();
        for olabel1 in LABELS {
            for ilabel2 in LABELS {
                out.push(decide(olabel1, ilabel2));
            }
        }
        out
    };

    let mut nomatch = NoMatchComposeFilter::new(finder1(&plain), finder2(&plain));
    nomatch.set_state(0, 0, &here);
    assert_eq!(
        stateless(Box::new(|olabel1, ilabel2| {
            let (mut arc1, mut arc2) = arcs(olabel1, ilabel2);
            decide_trivial(nomatch.filter_arc(&mut arc1, &mut arc2))
        })),
        "1111-1111"
    );

    let mut null = NullComposeFilter::new(finder1(&plain), finder2(&plain));
    null.set_state(0, 0, &here);
    assert_eq!(
        stateless(Box::new(|olabel1, ilabel2| {
            let (mut arc1, mut arc2) = arcs(olabel1, ilabel2);
            decide_trivial(null.filter_arc(&mut arc1, &mut arc2))
        })),
        "----11-11"
    );

    let mut trivial = TrivialComposeFilter::new(finder1(&plain), finder2(&plain));
    trivial.set_state(0, 0, &here);
    assert_eq!(
        stateless(Box::new(|olabel1, ilabel2| {
            let (mut arc1, mut arc2) = arcs(olabel1, ilabel2);
            decide_trivial(trivial.filter_arc(&mut arc1, &mut arc2))
        })),
        "111111111"
    );
}

/// Every filter starts in the state its own table is indexed by.
#[test]
fn every_filter_starts_where_its_table_begins() {
    let fst = side1((1, 0));
    assert_eq!(
        SequenceComposeFilter::new(&fst, finder1(&fst), finder2(&fst)).start(),
        CharFilterState::new(STATE_DEFAULT)
    );
    assert_eq!(
        AltSequenceComposeFilter::new(&fst, finder1(&fst), finder2(&fst)).start(),
        CharFilterState::new(STATE_DEFAULT)
    );
    assert_eq!(
        MatchComposeFilter::new(&fst, &fst, finder1(&fst), finder2(&fst)).start(),
        CharFilterState::new(STATE_DEFAULT)
    );
    assert!(NullComposeFilter::new(finder1(&fst), finder2(&fst)).start().state());
    assert!(NoMatchComposeFilter::new(finder1(&fst), finder2(&fst)).start().state());
    assert!(TrivialComposeFilter::new(finder1(&fst), finder2(&fst)).start().state());
}

/// `set_state` recomputes only when the composition state actually moved;
/// the early return keeps a filter from re-reading the FSTs on every arc of
/// a state.
#[test]
fn set_state_is_idempotent() {
    let fst1 = side1((2, 1));
    let mut filter = SequenceComposeFilter::new(&fst1, finder1(&fst1), finder2(&fst1));

    filter.set_state(0, 0, &CharFilterState::new(STATE_DEFAULT));
    let (mut arc1, mut arc2) = arcs(-1, 5);
    let first = filter.filter_arc(&mut arc1, &mut arc2);

    filter.set_state(0, 0, &CharFilterState::new(STATE_DEFAULT));
    let (mut arc1, mut arc2) = arcs(-1, 5);
    assert_eq!(filter.filter_arc(&mut arc1, &mut arc2), first);
}

/// With multi-epsilons kept, a side that did not consume a symbol takes the
/// other side's label rather than being rewritten to epsilon.
#[test]
fn multi_eps_copies_the_matched_label_across() {
    let fst = machine((0, 0), true);
    let mut filter =
        MultiEpsFilter::new(TrivialComposeFilter::new(finder1(&fst), finder2(&fst)), true);
    filter.set_state(0, 0, &TrivialFilterState::new(true));

    // Side 1 did not consume: its input label becomes side 2's.
    let mut arc1 = Arc::new(5, -1, TropicalWeight::one(), 1);
    let mut arc2 = Arc::new(7, 8, TropicalWeight::one(), 2);
    filter.filter_arc(&mut arc1, &mut arc2);
    assert_eq!(arc1.ilabel, 7);
    assert_eq!(arc1.olabel, -1, "the marker itself is left alone");
    assert_eq!(
        (arc2.ilabel, arc2.olabel),
        (7, 8),
        "side 2 is untouched"
    );

    // Side 2 did not consume: its output label becomes side 1's.
    let mut arc1 = Arc::new(5, 9, TropicalWeight::one(), 1);
    let mut arc2 = Arc::new(-1, 8, TropicalWeight::one(), 2);
    filter.filter_arc(&mut arc1, &mut arc2);
    assert_eq!(arc2.olabel, 9);
    assert_eq!(arc2.ilabel, -1, "the marker itself is left alone");
    assert_eq!(
        (arc1.ilabel, arc1.olabel),
        (5, 9),
        "side 1 is untouched"
    );
}

#[test]
fn multi_eps_leaves_labels_alone_when_it_is_told_not_to_keep_them() {
    let fst = machine((0, 0), true);
    let mut filter =
        MultiEpsFilter::new(TrivialComposeFilter::new(finder1(&fst), finder2(&fst)), false);
    filter.set_state(0, 0, &TrivialFilterState::new(true));
    let mut arc1 = Arc::new(5, -1, TropicalWeight::one(), 1);
    let mut arc2 = Arc::new(7, 8, TropicalWeight::one(), 2);
    filter.filter_arc(&mut arc1, &mut arc2);
    assert_eq!((arc1.ilabel, arc1.olabel), (5, -1));
    assert_eq!((arc2.ilabel, arc2.olabel), (7, 8));
}

/// Wrapping a filter narrows the properties composition may claim: a
/// multi-epsilon that survives into the output is a label the filter put
/// there, so nothing label-dependent carries over.
#[test]
fn multi_eps_keeps_only_label_invariant_properties() {
    let fst = machine((0, 0), true);
    let filter = MultiEpsFilter::new(TrivialComposeFilter::new(finder1(&fst), finder2(&fst)), true);
    let all = u64::MAX;
    assert_eq!(
        filter.properties(all),
        K_I_LABEL_INVARIANT_PROPERTIES & K_O_LABEL_INVARIANT_PROPERTIES
    );
}
