//! Splitting weights across arcs.
//!
//! Some weights are made of pieces: a string weight is a sequence of labels,
//! and a gallic weight is a string paired with a weight. A machine carrying them
//! can be rewritten so that each piece sits on its own arc. That is how the
//! output of a determinization over the gallic semiring is turned back into an
//! ordinary transducer.
//!
//! What can be split, and how, is a [`FactorIterator`]: given a weight, it
//! enumerates the ways of writing it as a first piece and a remainder.
use crate::arc::{Arc, EPSILON};
use crate::hash_table::{fx_hash, fx_word, Key};
use crate::properties::{K_ACCESSIBLE, K_ERROR, K_FST_PROPERTIES};
use crate::string_weight::{GallicWeight, StringWeight};
use crate::unfold::{arcs_follow, distinct, in_order, numbered, unfold, unfolds, Step, Unfolding};
use crate::vector_fst::{lemma_forget_forget, named_after, set_bits, FstV, StateV, VectorFst};
use crate::weight::Weight;
use vstd::prelude::*;

verus! {

/// Split the final weights, putting the pieces on arcs to new states.
pub const FINAL_WEIGHTS: u8 = 0x01;

/// Split the arc weights, putting the remainder on the state reached.
pub const ARC_WEIGHTS: u8 = 0x02;

/// How to split weights.
pub struct FactorWeightOptions<D> {
    /// How closely two remainders must agree to be treated as the same state.
    pub delta: D,
    /// Which weights to split.
    pub mode: u8,
    /// The input label of an arc made from a final weight.
    pub final_ilabel: i32,
    /// The output label of such an arc.
    pub final_olabel: i32,
    /// Whether to increment the input label when a final weight splits into
    /// more than one arc, so the arcs stay distinguishable.
    pub increment_final_ilabel: bool,
    /// As above, for the output label.
    pub increment_final_olabel: bool,
}

impl<D> FactorWeightOptions<D> {
    /// Splits all weights, remainders being rounded by `delta`.
    pub fn new(delta: D) -> (opts: Self)
        ensures
            opts == (FactorWeightOptions {
                delta,
                mode: 0x03,
                final_ilabel: EPSILON,
                final_olabel: EPSILON,
                increment_final_ilabel: false,
                increment_final_olabel: false,
            }),
    {
        FactorWeightOptions {
            delta,
            mode: 0x03,
            final_ilabel: EPSILON,
            final_olabel: EPSILON,
            increment_final_ilabel: false,
            increment_final_olabel: false,
        }
    }
}

/// Enumerates the ways of writing a weight as a first piece and a remainder.
///
/// An iterator that yields nothing says the weight cannot be split, and it is
/// left where it is.
pub trait FactorIterator<W: Weight>: Sized {
    /// The ways of writing `weight` as a first piece and a remainder.
    spec fn pieces(weight: W) -> Seq<(W, W)>;

    /// The ways that have not come yet.
    spec fn left(&self) -> Seq<(W, W)>;

    /// Begins splitting `weight`.
    fn new(weight: W) -> (it: Self)
        ensures
            it.left() == Self::pieces(weight),
    ;

    /// The next `(first, remainder)` pair, if any.
    fn next(&mut self) -> (piece: Option<(W, W)>)
        ensures
            old(self).left().len() == 0 ==> piece is None && final(self).left() == old(
                self,
            ).left(),
            old(self).left().len() > 0 ==> piece == Some(old(self).left()[0]) && final(self).left()
                == old(self).left().drop_first(),
    ;
}

/// Splits nothing. The result is the input, restructured only by whatever
/// else the options ask for.
pub struct IdentityFactor;

impl<W: Weight> FactorIterator<W> for IdentityFactor {
    open spec fn pieces(weight: W) -> Seq<(W, W)> {
        Seq::empty()
    }

    open spec fn left(&self) -> Seq<(W, W)> {
        Seq::empty()
    }

    fn new(weight: W) -> (it: Self) {
        IdentityFactor
    }

    fn next(&mut self) -> (piece: Option<(W, W)>) {
        None
    }
}

/// Moves every weight onto the state it leads to.
///
/// Only meaningful with [`ARC_WEIGHTS`]: it unfolds the machine until any two
/// paths reaching the same state carry the same weight.
pub struct OneFactor<W> {
    weight: Option<W>,
}

impl<W: Weight> FactorIterator<W> for OneFactor<W> {
    open spec fn pieces(weight: W) -> Seq<(W, W)> {
        if weight == W::spec_one() {
            Seq::empty()
        } else {
            seq![(W::spec_one(), weight)]
        }
    }

    closed spec fn left(&self) -> Seq<(W, W)> {
        match self.weight {
            Some(weight) => seq![(W::spec_one(), weight)],
            None => Seq::empty(),
        }
    }

    fn new(weight: W) -> (it: Self) {
        if weight.same(&W::one()) {
            OneFactor { weight: None }
        } else {
            OneFactor { weight: Some(weight) }
        }
    }

    fn next(&mut self) -> (piece: Option<(W, W)>) {
        let ghost before = self.left();
        match self.weight.take() {
            Some(weight) => {
                assert(before.drop_first() =~= self.left());
                Some((W::one(), weight))
            },
            None => None,
        }
    }
}

/// Splits a string weight into its first label and the rest.
pub struct StringFactor<const S: u8> {
    weight: StringWeight<S>,
    done: bool,
}

/// A string split after its first label.
pub open spec fn string_pieces<const S: u8>(weight: StringWeight<S>) -> Seq<
    (StringWeight<S>, StringWeight<S>),
> {
    let labels = weight.string();
    if labels.len() <= 1 {
        Seq::empty()
    } else {
        seq![(StringWeight::of(seq![labels[0]]), StringWeight::of(labels.drop_first()))]
    }
}

/// The first label of a string of two or more, and the rest.
fn split_string<const S: u8>(weight: &StringWeight<S>) -> (split: (
    StringWeight<S>,
    StringWeight<S>,
))
    requires
        weight.string().len() > 1,
    ensures
        split == (
            StringWeight::<S>::of(seq![weight.string()[0]]),
            StringWeight::<S>::of(weight.string().drop_first()),
        ),
{
    let labels = weight.labels();
    let mut rest: Vec<i32> = Vec::new();
    let mut i: usize = 1;
    while i < labels.len()
        invariant
            1 <= i <= labels@.len(),
            rest@ =~= labels@.subrange(1, i as int),
        decreases labels@.len() - i,
    {
        rest.push(labels[i]);
        i = i + 1;
    }
    assert(rest@ =~= labels@.drop_first());
    (StringWeight::single(labels[0]), StringWeight::new(rest))
}

impl<const S: u8> FactorIterator<StringWeight<S>> for StringFactor<S> {
    open spec fn pieces(weight: StringWeight<S>) -> Seq<(StringWeight<S>, StringWeight<S>)> {
        string_pieces(weight)
    }

    closed spec fn left(&self) -> Seq<(StringWeight<S>, StringWeight<S>)> {
        if self.done {
            Seq::empty()
        } else {
            string_pieces(self.weight)
        }
    }

    fn new(weight: StringWeight<S>) -> (it: Self) {
        let done = weight.size() <= 1;
        StringFactor { weight, done }
    }

    fn next(&mut self) -> (piece: Option<(StringWeight<S>, StringWeight<S>)>) {
        if self.done || self.weight.size() <= 1 {
            return None;
        }
        let ghost before = self.left();
        self.done = true;
        assert(before.drop_first() =~= self.left());
        Some(split_string(&self.weight))
    }
}

/// Splits a gallic weight by splitting its string part, leaving the weight
/// part on the first piece.
pub struct GallicFactor<W, const G: u8> {
    weight: GallicWeight<W, G>,
    done: bool,
}

/// A gallic weight split after the first label of its string. The weight travels
/// with the first label; the rest of the string carries nothing.
pub open spec fn gallic_pieces<W: Weight, const G: u8>(weight: GallicWeight<W, G>) -> Seq<
    (GallicWeight<W, G>, GallicWeight<W, G>),
> {
    let split = string_pieces(weight.labels);
    if split.len() == 0 {
        Seq::empty()
    } else {
        seq![
            (
                GallicWeight { labels: split[0].0, weight: weight.weight },
                GallicWeight { labels: split[0].1, weight: W::spec_one() },
            ),
        ]
    }
}

impl<W: Weight, const G: u8> FactorIterator<GallicWeight<W, G>> for GallicFactor<W, G> {
    open spec fn pieces(weight: GallicWeight<W, G>) -> Seq<
        (GallicWeight<W, G>, GallicWeight<W, G>),
    > {
        gallic_pieces(weight)
    }

    closed spec fn left(&self) -> Seq<(GallicWeight<W, G>, GallicWeight<W, G>)> {
        if self.done {
            Seq::empty()
        } else {
            gallic_pieces(self.weight)
        }
    }

    fn new(weight: GallicWeight<W, G>) -> (it: Self) {
        let done = weight.labels.size() <= 1;
        GallicFactor { weight, done }
    }

    fn next(&mut self) -> (piece: Option<(GallicWeight<W, G>, GallicWeight<W, G>)>) {
        if self.done || self.weight.labels.size() <= 1 {
            return None;
        }
        let ghost before = self.left();
        self.done = true;
        assert(before.drop_first() =~= self.left());
        // The weight travels with the first label; the rest of the string
        // carries nothing, so that the two multiply back to the original.
        let (first, rest) = split_string(&self.weight.labels);
        Some(
            (
                GallicWeight::from_parts(first, self.weight.weight.duplicate()),
                GallicWeight::from_parts(rest, W::one()),
            ),
        )
    }
}

/// The two pieces of a string multiply back to the string.
pub proof fn law_string_pieces_multiply<const S: u8>(weight: StringWeight<S>)
    requires
        string_pieces(weight).len() > 0,
    ensures
        string_pieces(weight)[0].0.spec_times(string_pieces(weight)[0].1) == weight,
{
    let labels = weight.string();
    crate::string_weight::lemma_labels_view(seq![labels[0]]);
    crate::string_weight::lemma_labels_view(labels.drop_first());
    assert(seq![labels[0]] + labels.drop_first() =~= labels);
    if let crate::string_weight::StringWeightValue::Labels(l) = weight.value {
        crate::string_weight::lemma_labels_of_view(l);
    }
}

/// A state of the result: a state of the input plus the remainder owed to it.
///
/// The input state is `None` for the states that exist only to pay out a final
/// weight that was split.
pub struct Element<W> {
    /// The state of the input.
    pub state: Option<usize>,
    /// The remainder owed.
    pub weight: W,
}

impl<W: Weight> Key for Element<W> {
    open spec fn spec_key_word(self) -> u64 {
        fx_word(self.state.spec_key_word(), self.weight.spec_hash_word(), usize::BITS)
    }

    fn key_word(&self) -> (h: u64) {
        fx_hash(self.state.key_word(), self.weight.hash_word())
    }

    fn key_same(&self, other: &Self) -> (b: bool) {
        self.state.key_same(&other.state) && self.weight.same(&other.weight)
    }

    fn key_copy(&self) -> (k: Self) {
        Element { state: self.state, weight: self.weight.duplicate() }
    }
}

/// What the split of an arc's weight becomes.
pub open spec fn arc_steps<W: Weight, FI: FactorIterator<W>>(
    opts: FactorWeightOptions<W::Delta>,
    owed: W,
    arc: Arc<W>,
) -> Seq<Step<W, Element<W>>> {
    let weight = owed.spec_times(arc.weight);
    let pieces = FI::pieces(weight);
    if opts.mode & ARC_WEIGHTS == 0 || pieces.len() == 0 {
        seq![
            Step {
                ilabel: arc.ilabel,
                olabel: arc.olabel,
                weight,
                to: Element { state: Some(arc.nextstate), weight: W::spec_one() },
            },
        ]
    } else {
        pieces.map_values(
            |piece: (W, W)|
                Step {
                    ilabel: arc.ilabel,
                    olabel: arc.olabel,
                    weight: piece.0,
                    to: Element {
                        state: Some(arc.nextstate),
                        weight: piece.1.spec_quantize(opts.delta),
                    },
                },
        )
    }
}

/// What the splits of the first `k` arcs become.
pub open spec fn arcs_steps<W: Weight, FI: FactorIterator<W>>(
    opts: FactorWeightOptions<W::Delta>,
    owed: W,
    arcs: Seq<Arc<W>>,
    k: int,
) -> Seq<Step<W, Element<W>>>
    decreases k,
{
    if k <= 0 {
        Seq::empty()
    } else {
        arcs_steps::<W, FI>(opts, owed, arcs, k - 1) + arc_steps::<W, FI>(
            opts,
            owed,
            arcs[k - 1],
        )
    }
}

/// The label of the `i`th arc made from a final weight. The largest label there is
/// stays as it is.
pub open spec fn final_label(label: i32, increment: bool, i: int) -> i32 {
    if !increment {
        label
    } else if label + i > i32::MAX {
        i32::MAX
    } else {
        (label + i) as i32
    }
}

/// The final weight owed: what was carried in, times whatever the input state
/// itself is final with.
pub open spec fn final_owed<W: Weight>(v: FstV<W>, key: Element<W>) -> W {
    match key.state {
        Some(s) => key.weight.spec_times(v.fin(s as int)),
        None => key.weight,
    }
}

/// What the split of a final weight becomes.
pub open spec fn final_steps<W: Weight, FI: FactorIterator<W>>(
    opts: FactorWeightOptions<W::Delta>,
    v: FstV<W>,
    key: Element<W>,
) -> Seq<Step<W, Element<W>>> {
    if opts.mode & FINAL_WEIGHTS != 0 && (key.state matches Some(s) ==> v.fin(s as int)
        != W::spec_zero()) {
        let pieces = FI::pieces(final_owed(v, key));
        Seq::new(
            pieces.len(),
            |i: int|
                Step {
                    ilabel: final_label(opts.final_ilabel, opts.increment_final_ilabel, i),
                    olabel: final_label(opts.final_olabel, opts.increment_final_olabel, i),
                    weight: pieces[i].0,
                    to: Element { state: None, weight: pieces[i].1.spec_quantize(opts.delta) },
                },
        )
    } else {
        Seq::empty()
    }
}

/// What a machine with its weights split is built from.
pub struct Factoring<'a, W: Weight, F> {
    ifst: &'a VectorFst<W>,
    opts: &'a FactorWeightOptions<W::Delta>,
    factor: F,
}

/// Whether `factor` begins splitting a weight the way `FI` does.
pub open spec fn is_factor<W: Weight, FI: FactorIterator<W>, F: Fn(W) -> FI>(factor: F) -> bool {
    &&& forall|w: W| #[trigger] call_requires(factor, (w,))
    &&& forall|w: W, it: FI| #[trigger]
        call_ensures(factor, (w,), it) ==> it.left() == FI::pieces(w)
}

impl<'a, W: Weight, FI: FactorIterator<W>, F: Fn(W) -> FI> Factoring<'a, W, F> {
    /// The arcs that one arc becomes.
    fn add_arc(&self, owed: &W, arc: &Arc<W>, steps: &mut Vec<Step<W, Element<W>>>)
        requires
            is_factor::<W, FI, F>(self.factor),
        ensures
            final(steps)@ == old(steps)@ + arc_steps::<W, FI>(*self.opts, *owed, *arc),
    {
        let ghost opts = *self.opts;
        let weight = owed.times(&arc.weight);
        let mut factors = (self.factor)(weight.duplicate());
        let ghost pieces = FI::pieces(weight);
        let ghost before = steps@;
        let first = if self.opts.mode & ARC_WEIGHTS != 0 {
            factors.next()
        } else {
            None
        };
        match first {
            None => {
                // Nothing to split, so the whole weight rides the arc.
                steps.push(
                    Step {
                        ilabel: arc.ilabel,
                        olabel: arc.olabel,
                        weight,
                        to: Element { state: Some(arc.nextstate), weight: W::one() },
                    },
                );
                assert(steps@ =~= before + arc_steps::<W, FI>(opts, *owed, *arc));
            },
            Some(pair) => {
                let ghost all = arc_steps::<W, FI>(opts, *owed, *arc);
                let mut pair: Option<(W, W)> = Some(pair);
                let ghost mut i: int = 0;
                assert(factors.left() =~= pieces.skip(1));
                assert(before + all.take(0) =~= before);
                loop
                    invariant_except_break
                        pair == (if i < pieces.len() {
                            Some(pieces[i])
                        } else {
                            None
                        }),
                        i < pieces.len() ==> factors.left() == pieces.skip(i + 1),
                    invariant
                        0 <= i <= pieces.len(),
                        opts == *self.opts,
                        pieces == FI::pieces(owed.spec_times(arc.weight)),
                        opts.mode & ARC_WEIGHTS != 0,
                        pieces.len() > 0,
                        all == arc_steps::<W, FI>(opts, *owed, *arc),
                        steps@ == before + all.take(i),
                    ensures
                        i == pieces.len(),
                    decreases pieces.len() - i,
                {
                    match pair {
                        None => {
                            break;
                        },
                        Some((head, rest)) => {
                            steps.push(
                                Step {
                                    ilabel: arc.ilabel,
                                    olabel: arc.olabel,
                                    weight: head,
                                    to: Element {
                                        state: Some(arc.nextstate),
                                        weight: rest.quantize(&self.opts.delta),
                                    },
                                },
                            );
                            pair = factors.next();
                            proof {
                                i = i + 1;
                                if i < pieces.len() {
                                    assert(factors.left() =~= pieces.skip(i + 1));
                                }
                                assert(steps@ =~= before + all.take(i));
                            }
                        },
                    }
                }
                assert(all.take(i) =~= all);
            },
        }
    }

    /// The arcs that a final weight becomes.
    fn add_final(&self, weight: W, steps: &mut Vec<Step<W, Element<W>>>, Ghost(key): Ghost<Element<W>>)
        requires
            is_factor::<W, FI, F>(self.factor),
            weight == final_owed(self.ifst@, key),
            final_steps::<W, FI>(*self.opts, self.ifst@, key).len() == FI::pieces(weight).len(),
        ensures
            final(steps)@ == old(steps)@ + final_steps::<W, FI>(*self.opts, self.ifst@, key),
    {
        let ghost opts = *self.opts;
        let ghost pieces = FI::pieces(weight);
        let ghost all = final_steps::<W, FI>(opts, self.ifst@, key);
        let ghost before = steps@;
        let mut factors = (self.factor)(weight);
        let mut ilabel: i32 = self.opts.final_ilabel;
        let mut olabel: i32 = self.opts.final_olabel;
        let ghost mut i: int = 0;
        assert(factors.left() =~= pieces.skip(0));
        assert(before + all.take(0) =~= before);
        loop
            invariant
                0 <= i <= pieces.len(),
                opts == *self.opts,
                pieces == FI::pieces(final_owed(self.ifst@, key)),
                all == final_steps::<W, FI>(opts, self.ifst@, key),
                all.len() == pieces.len(),
                factors.left() == pieces.skip(i),
                ilabel == final_label(opts.final_ilabel, opts.increment_final_ilabel, i),
                olabel == final_label(opts.final_olabel, opts.increment_final_olabel, i),
                steps@ == before + all.take(i),
            ensures
                i == pieces.len(),
            decreases pieces.len() - i,
        {
            match factors.next() {
                None => {
                    break;
                },
                Some((head, rest)) => {
                    steps.push(
                        Step {
                            ilabel,
                            olabel,
                            weight: head,
                            to: Element { state: None, weight: rest.quantize(&self.opts.delta) },
                        },
                    );
                    if self.opts.increment_final_ilabel && ilabel < i32::MAX {
                        ilabel = ilabel + 1;
                    }
                    if self.opts.increment_final_olabel && olabel < i32::MAX {
                        olabel = olabel + 1;
                    }
                    proof {
                        i = i + 1;
                        assert(factors.left() =~= pieces.skip(i));
                        assert(steps@ =~= before + all.take(i));
                    }
                },
            }
        }
        assert(all.take(i) =~= all);
    }
}

/// Whether a weight owed at the end is split further.
pub open spec fn splittable<W: Weight, FI: FactorIterator<W>>(
    opts: FactorWeightOptions<W::Delta>,
    weight: W,
) -> bool {
    opts.mode & FINAL_WEIGHTS != 0 && FI::pieces(weight).len() > 0
}

/// The arcs that leave a state of the result.
pub open spec fn element_steps<W: Weight, FI: FactorIterator<W>>(
    opts: FactorWeightOptions<W::Delta>,
    v: FstV<W>,
    key: Element<W>,
) -> Seq<Step<W, Element<W>>> {
    (match key.state {
        Some(s) => {
            let arcs = v.arcs(s as int);
            arcs_steps::<W, FI>(opts, key.weight, arcs, arcs.len() as int)
        },
        None => Seq::empty(),
    }) + final_steps::<W, FI>(opts, v, key)
}

/// What a path that ends in a state of the result takes on.
pub open spec fn element_ending<W: Weight, FI: FactorIterator<W>>(
    opts: FactorWeightOptions<W::Delta>,
    v: FstV<W>,
    key: Element<W>,
) -> W {
    let weight = final_owed(v, key);
    if splittable::<W, FI>(opts, weight) {
        W::spec_zero()
    } else {
        weight
    }
}

/// Whether a state is what an element becomes.
pub open spec fn element_unfolds<W: Weight, FI: FactorIterator<W>>(
    opts: FactorWeightOptions<W::Delta>,
    v: FstV<W>,
    key: Element<W>,
    state: StateV<W>,
    table: Seq<Element<W>>,
) -> bool {
    &&& state.arcs.len() == element_steps::<W, FI>(opts, v, key).len()
    &&& arcs_follow(element_steps::<W, FI>(opts, v, key), state.arcs, table)
    &&& state.final_weight == element_ending::<W, FI>(opts, v, key)
}

/// Whether the states are those of `v` with its weights split, `table` holding the
/// element of each.
pub open spec fn is_factored<W: Weight, FI: FactorIterator<W>>(
    opts: FactorWeightOptions<W::Delta>,
    v: FstV<W>,
    start: usize,
    table: Seq<Element<W>>,
    states: Seq<StateV<W>>,
) -> bool {
    &&& distinct(table)
    &&& table.len() == states.len()
    &&& table.len() > 0
    &&& table[0] == factor_start::<W>(start)
    &&& in_order(states, false)
    &&& forall|s: int|
        0 <= s < states.len() ==> element_unfolds::<W, FI>(
            opts,
            v,
            table[s],
            #[trigger] states[s],
            table,
        )
}

/// Whether `r` is what splitting the weights of `v` leaves where `o` was.
pub open spec fn factors<W: Weight, FI: FactorIterator<W>>(
    opts: FactorWeightOptions<W::Delta>,
    v: FstV<W>,
    o: FstV<W>,
    r: FstV<W>,
) -> bool {
    &&& r == (FstV {
        start: r.start,
        states: r.states,
        props: set_bits(
            named_after(v, o).props,
            spec_factor_weight_properties(v.props & K_FST_PROPERTIES),
            K_FST_PROPERTIES,
        ),
        ..named_after(v, o)
    })
    &&& match v.start {
        None => r.start is None && r.n() == 0,
        Some(s) => r.start == Some(0usize) && exists|table: Seq<Element<W>>| #[trigger]
            is_factored::<W, FI>(opts, v, s, table, r.states),
    }
}

/// Splitting weights leaves a machine in order.
pub proof fn lemma_factored_wf<W: Weight, FI: FactorIterator<W>>(
    opts: FactorWeightOptions<W::Delta>,
    v: FstV<W>,
    o: FstV<W>,
    r: FstV<W>,
)
    requires
        factors::<W, FI>(opts, v, o, r),
    ensures
        r.wf(),
{
    if let Some(start) = v.start {
        let table = choose|table: Seq<Element<W>>| #[trigger]
            is_factored::<W, FI>(opts, v, start, table, r.states);
        assert forall|s: int, i: int|
            0 <= s < r.n() && 0 <= i < r.states[s].arcs.len() implies (
        #[trigger] r.states[s].arcs[i]).nextstate < r.n() by {
            assert(element_unfolds::<W, FI>(opts, v, table[s], r.states[s], table));
            let steps = element_steps::<W, FI>(opts, v, table[s]);
            assert(numbered(steps[i], r.states[s].arcs[i], table));
        }
    }
}

proof fn lemma_arcs_lead<W: Weight, FI: FactorIterator<W>>(
    opts: FactorWeightOptions<W::Delta>,
    owed: W,
    arcs: Seq<Arc<W>>,
    k: int,
    n: nat,
)
    requires
        0 <= k <= arcs.len(),
        forall|i: int| 0 <= i < arcs.len() ==> (#[trigger] arcs[i]).nextstate < n,
    ensures
        forall|i: int|
            0 <= i < arcs_steps::<W, FI>(opts, owed, arcs, k).len() ==> {
                let to = (#[trigger] arcs_steps::<W, FI>(opts, owed, arcs, k)[i]).to;
                to.state is Some && to.state->0 < n
            },
    decreases k,
{
    if k > 0 {
        lemma_arcs_lead::<W, FI>(opts, owed, arcs, k - 1, n);
        let before = arcs_steps::<W, FI>(opts, owed, arcs, k - 1);
        let more = arc_steps::<W, FI>(opts, owed, arcs[k - 1]);
        let all = arcs_steps::<W, FI>(opts, owed, arcs, k);
        assert forall|i: int| 0 <= i < all.len() implies {
            let to = (#[trigger] all[i]).to;
            to.state is Some && to.state->0 < n
        } by {
            if i < before.len() {
                assert(all[i] == before[i]);
            } else {
                assert(all[i] == more[i - before.len()]);
            }
        }
    }
}

impl<'a, W: Weight, FI: FactorIterator<W>, F: Fn(W) -> FI> Unfolding<W, Element<W>> for Factoring<
    'a,
    W,
    F,
> {
    type Model = (FstV<W>, FactorWeightOptions<W::Delta>);

    closed spec fn ready(&self) -> bool {
        is_factor::<W, FI, F>(self.factor)
    }

    closed spec fn model(&self) -> Self::Model {
        (self.ifst@, *self.opts)
    }

    open spec fn fits(model: Self::Model, key: Element<W>) -> bool {
        model.0.wf() && (key.state matches Some(s) ==> s < model.0.n())
    }

    open spec fn fails(model: Self::Model, key: Element<W>) -> bool {
        false
    }

    open spec fn steps(model: Self::Model, key: Element<W>) -> Seq<Step<W, Element<W>>> {
        element_steps::<W, FI>(model.1, model.0, key)
    }

    open spec fn ending(model: Self::Model, key: Element<W>) -> W {
        element_ending::<W, FI>(model.1, model.0, key)
    }

    fn expand(&mut self, key: &Element<W>) -> (expansion: Option<
        (Vec<Step<W, Element<W>>>, W),
    >) {
        let ghost v = self.ifst@;
        let ghost opts = *self.opts;
        let mut steps: Vec<Step<W, Element<W>>> = Vec::new();
        let ghost mut from_arcs: Seq<Step<W, Element<W>>> = Seq::empty();
        let mut ends = true;
        let mut owed = key.weight.duplicate();
        if let Some(s) = key.state {
            let arcs = self.ifst.arcs(s);
            let mut k: usize = 0;
            while k < arcs.len()
                invariant
                    k <= arcs@.len(),
                    opts == *self.opts,
                    is_factor::<W, FI, F>(self.factor),
                    steps@ == arcs_steps::<W, FI>(opts, key.weight, arcs@, k as int),
                decreases arcs@.len() - k,
            {
                self.add_arc(&key.weight, &arcs[k], &mut steps);
                k = k + 1;
            }
            proof {
                from_arcs = steps@;
                assert forall|i: int| 0 <= i < arcs@.len() implies (
                #[trigger] arcs@[i]).nextstate < v.n() by {
                    assert(v.states[s as int].arcs[i].nextstate < v.n());
                }
                lemma_arcs_lead::<W, FI>(opts, key.weight, arcs@, arcs@.len() as int, v.n());
            }
            let weight = self.ifst.final_weight(s);
            ends = !weight.same(&W::zero());
            owed = key.weight.times(&weight);
        }
        // The final weight owed here: what was carried in, times whatever the
        // input state itself is final with.
        if self.opts.mode & FINAL_WEIGHTS != 0 && ends {
            self.add_final(owed.duplicate(), &mut steps, Ghost(*key));
        }
        assert(steps@ =~= from_arcs + final_steps::<W, FI>(opts, v, *key));
        // A state is final when what it owes cannot be split any further.
        let mut split = false;
        if self.opts.mode & FINAL_WEIGHTS != 0 {
            let mut factors = (self.factor)(owed.duplicate());
            split = factors.next().is_some();
        }
        let weight = if split {
            W::zero()
        } else {
            owed
        };
        Some((steps, weight))
    }
}

/// What is known of a machine with its weights split: every state was reached.
pub open spec fn spec_factor_weight_properties(props: u64) -> u64 {
    K_ACCESSIBLE | (props & K_ERROR)
}

/// What is known of a machine with its weights split: every state was reached.
pub fn factor_weight_properties(props: u64) -> (out: u64)
    ensures
        out == spec_factor_weight_properties(props),
{
    K_ACCESSIBLE | (props & K_ERROR)
}

/// The value of the state where the result begins.
pub open spec fn factor_start<W: Weight>(start: usize) -> Element<W> {
    Element { state: Some(start), weight: W::spec_one() }
}

/// Rewrites `ifst` into `ofst` with its weights split according to `opts`.
///
/// `factor` says how to split one weight, and is given as the constructor
/// itself: `GallicFactor::new`, `StringFactor::new` or `IdentityFactor::new`.
pub fn factor_weight<W: Weight, FI: FactorIterator<W>, F: Fn(W) -> FI>(
    ifst: &VectorFst<W>,
    ofst: &mut VectorFst<W>,
    factor: F,
    opts: &FactorWeightOptions<W::Delta>,
)
    requires
        ifst@.wf(),
        is_factor::<W, FI, F>(factor),
    ensures
        factors::<W, FI>(*opts, ifst@, old(ofst)@, final(ofst)@),
{
    ofst.delete_all_states();
    ofst.set_input_symbols(ifst.input_symbols());
    ofst.set_output_symbols(ifst.output_symbols());
    let ghost named = ofst@;
    proof {
        lemma_forget_forget(old(ofst)@);
        lemma_forget_forget(named);
        assert(named.states =~= Seq::empty());
        assert(named == named_after(ifst@, old(ofst)@));
    }
    let iprops: u64 = ifst.known_properties(K_FST_PROPERTIES);
    if let Some(istart) = ifst.start() {
        let mut factoring = Factoring { ifst, opts, factor };
        let start = Element { state: Some(istart), weight: W::one() };
        let built = unfold(&mut factoring, start, false, None, ofst);
        assert(built is Some);
        proof {
            let table = built->0@;
            assert forall|s: int| 0 <= s < ofst@.n() implies element_unfolds::<W, FI>(
                *opts,
                ifst@,
                table[s],
                #[trigger] ofst@.states[s],
                table,
            ) by {
                assert(unfolds::<W, Element<W>, Factoring<W, F>>(
                    (ifst@, *opts),
                    table[s],
                    ofst@.states[s],
                    table,
                ));
            }
            assert(is_factored::<W, FI>(*opts, ifst@, istart, table, ofst@.states));
        }
    }
    let props: u64 = factor_weight_properties(iprops);
    ofst.set_properties(props, K_FST_PROPERTIES);
}

} // verus!
