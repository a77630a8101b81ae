//! Weights that are label sequences, and such sequences paired with a weight.
use crate::hash_table::{fx_hash, fx_word};
use crate::weight::{
    natural_less, spec_natural_less, Divide, DivideType, Weight, COMMUTATIVE, IDEMPOTENT,
    LEFT_SEMIRING, RIGHT_SEMIRING,
};
use vstd::prelude::*;

verus! {

/// A sequence of labels.
#[derive(Debug, PartialEq, Eq, Hash)]
pub enum Labels {
    /// No label.
    Empty,
    /// A label and those that follow it.
    Before(i32, Box<Labels>),
}

impl View for Labels {
    type V = Seq<i32>;

    open spec fn view(&self) -> Seq<i32> {
        sequence(*self)
    }
}

/// The sequence that labels are.
pub open spec fn sequence(labels: Labels) -> Seq<i32>
    decreases labels,
{
    match labels {
        Labels::Empty => Seq::empty(),
        Labels::Before(label, rest) => seq![label] + sequence(*rest),
    }
}

/// The labels that a sequence holds.
pub open spec fn labels_of(seq: Seq<i32>) -> Labels
    decreases seq.len(),
{
    if seq.len() == 0 {
        Labels::Empty
    } else {
        Labels::Before(seq[0], Box::new(labels_of(seq.drop_first())))
    }
}

/// The labels that a sequence holds are that sequence.
pub proof fn lemma_labels_view(seq: Seq<i32>)
    ensures
        labels_of(seq)@ == seq,
    decreases seq.len(),
{
    if seq.len() > 0 {
        lemma_labels_view(seq.drop_first());
        assert(labels_of(seq)@ =~= seq);
    }
}

/// Labels are told apart by the sequences they are.
pub proof fn lemma_labels_of_view(labels: Labels)
    ensures
        labels_of(labels@) == labels,
    decreases labels,
{
    match labels {
        Labels::Empty => {},
        Labels::Before(label, rest) => {
            lemma_labels_of_view(*rest);
            assert(labels@.drop_first() =~= rest@);
        },
    }
}

impl Labels {
    /// The labels of `seq`.
    pub fn from_vec(seq: &Vec<i32>) -> (labels: Labels)
        ensures
            labels == labels_of(seq@),
            labels@ == seq@,
    {
        let mut labels = Labels::Empty;
        let mut i: usize = seq.len();
        while i > 0
            invariant
                i <= seq@.len(),
                labels == labels_of(seq@.skip(i as int)),
            decreases i,
        {
            i = i - 1;
            labels = Labels::Before(seq[i], Box::new(labels));
            assert(seq@.skip(i as int).drop_first() =~= seq@.skip(i + 1));
        }
        assert(seq@.skip(0) =~= seq@);
        proof {
            lemma_labels_view(seq@);
        }
        labels
    }

    /// The labels, one after the other.
    pub fn to_vec(&self) -> (seq: Vec<i32>)
        ensures
            seq@ == self@,
    {
        let mut seq: Vec<i32> = Vec::new();
        let mut at: &Labels = self;
        loop
            invariant
                seq@ + at@ == self@,
            decreases *at,
        {
            match at {
                Labels::Empty => {
                    assert(seq@ + at@ =~= seq@);
                    return seq;
                },
                Labels::Before(label, rest) => {
                    let ghost before = seq@;
                    seq.push(*label);
                    assert(before + at@ =~= seq@ + rest@);
                    at = &**rest;
                },
            }
        }
    }

    /// A copy of the labels.
    pub fn duplicate(&self) -> (labels: Labels)
        ensures
            labels == *self,
    {
        proof {
            lemma_labels_of_view(*self);
        }
        Labels::from_vec(&self.to_vec())
    }

    /// Whether the two are the same labels.
    pub fn same(&self, other: &Labels) -> (b: bool)
        ensures
            b == (*self == *other),
    {
        let mut a: &Labels = self;
        let mut b: &Labels = other;
        loop
            invariant
                (*a == *b) == (*self == *other),
            decreases *a,
        {
            match (a, b) {
                (Labels::Empty, Labels::Empty) => {
                    return true;
                },
                (Labels::Before(x, s), Labels::Before(y, t)) => {
                    if *x != *y {
                        return false;
                    }
                    a = &**s;
                    b = &**t;
                },
                _ => {
                    return false;
                },
            }
        }
    }
}

/// The length of the longest common beginning.
pub open spec fn common_prefix(a: Seq<i32>, b: Seq<i32>) -> int
    decreases a.len(),
{
    if a.len() == 0 || b.len() == 0 || a[0] != b[0] {
        0
    } else {
        1 + common_prefix(a.drop_first(), b.drop_first())
    }
}

/// The longest common beginning is common, and the longest.
pub proof fn law_common_prefix(a: Seq<i32>, b: Seq<i32>)
    ensures
        0 <= common_prefix(a, b) <= a.len(),
        common_prefix(a, b) <= b.len(),
        a.take(common_prefix(a, b)) == b.take(common_prefix(a, b)),
        common_prefix(a, b) < a.len() && common_prefix(a, b) < b.len() ==> a[common_prefix(a, b)]
            != b[common_prefix(a, b)],
    decreases a.len(),
{
    if a.len() == 0 || b.len() == 0 || a[0] != b[0] {
        assert(a.take(0) =~= b.take(0));
    } else {
        law_common_prefix(a.drop_first(), b.drop_first());
        let k = common_prefix(a, b);
        assert(a.take(k) =~= seq![a[0]] + a.drop_first().take(k - 1));
        assert(b.take(k) =~= seq![b[0]] + b.drop_first().take(k - 1));
    }
}

/// The length of the longest common beginning.
fn find_common_prefix(a: &Vec<i32>, b: &Vec<i32>) -> (k: usize)
    ensures
        k == common_prefix(a@, b@),
        k <= a@.len(),
{
    let mut k: usize = 0;
    assert(a@.skip(0) =~= a@);
    assert(b@.skip(0) =~= b@);
    while k < a.len() && k < b.len() && a[k] == b[k]
        invariant
            k <= a@.len(),
            k <= b@.len(),
            common_prefix(a@, b@) == k + common_prefix(a@.skip(k as int), b@.skip(k as int)),
        decreases a@.len() - k,
    {
        assert(a@.skip(k as int).drop_first() =~= a@.skip(k + 1));
        assert(b@.skip(k as int).drop_first() =~= b@.skip(k + 1));
        k = k + 1;
    }
    k
}

/// The labels of `seq` from `from` until `to`.
fn part(seq: &Vec<i32>, from: usize, to: usize) -> (out: Vec<i32>)
    requires
        from <= to <= seq@.len(),
    ensures
        out@ == seq@.subrange(from as int, to as int),
{
    let mut out: Vec<i32> = Vec::new();
    let mut i: usize = from;
    while i < to
        invariant
            from <= i <= to,
            to <= seq@.len(),
            out@ == seq@.subrange(from as int, i as int),
        decreases to - i,
    {
        out.push(seq[i]);
        i = i + 1;
        assert(out@ =~= seq@.subrange(from as int, i as int));
    }
    out
}

/// The labels of `seq`, the last first.
fn reversed(seq: &Vec<i32>) -> (out: Vec<i32>)
    ensures
        out@ == seq@.reverse(),
{
    let mut out: Vec<i32> = Vec::new();
    let mut i: usize = seq.len();
    while i > 0
        invariant
            i <= seq@.len(),
            out@ =~= seq@.skip(i as int).reverse(),
        decreases i,
    {
        i = i - 1;
        out.push(seq[i]);
    }
    assert(seq@.skip(0) =~= seq@);
    out
}

/// The sum is the longest common beginning.
pub const STRING_LEFT: u8 = 0;

/// The sum is the longest common end.
pub const STRING_RIGHT: u8 = 1;

/// Only equal strings have a sum.
pub const STRING_RESTRICT: u8 = 2;

/// What a string weight is.
#[derive(Debug, PartialEq, Eq, Hash)]
pub enum StringWeightValue {
    /// No string at all: the sum of nothing.
    Infinity,
    /// What a sum or a quotient that does not exist comes to.
    Bad,
    /// A string.
    Labels(Labels),
}

/// A weight that is a string of labels. `SIDE` says what two strings add up to.
#[derive(Debug, PartialEq, Eq, Hash)]
pub struct StringWeight<const SIDE: u8> {
    /// What the weight is.
    pub value: StringWeightValue,
}

impl<const SIDE: u8> StringWeight<SIDE> {
    /// The weight that is the string `seq`.
    pub open spec fn of(seq: Seq<i32>) -> Self {
        StringWeight { value: StringWeightValue::Labels(labels_of(seq)) }
    }

    /// The weight that stands for what does not exist.
    pub open spec fn bad() -> Self {
        StringWeight { value: StringWeightValue::Bad }
    }

    /// The weight that is no string at all.
    pub open spec fn infinity() -> Self {
        StringWeight { value: StringWeightValue::Infinity }
    }

    /// The string that the weight is.
    pub open spec fn string(self) -> Seq<i32> {
        match self.value {
            StringWeightValue::Labels(labels) => labels@,
            _ => Seq::empty(),
        }
    }

    /// The weight that is the string `labels`.
    pub fn new(labels: Vec<i32>) -> (w: Self)
        ensures
            w == Self::of(labels@),
            w.string() == labels@,
    {
        StringWeight { value: StringWeightValue::Labels(Labels::from_vec(&labels)) }
    }

    /// The weight that is the string of one label.
    pub fn single(label: i32) -> (w: Self)
        ensures
            w == Self::of(seq![label]),
            w.string() == seq![label],
    {
        let mut labels: Vec<i32> = Vec::new();
        labels.push(label);
        assert(labels@ =~= seq![label]);
        Self::new(labels)
    }

    /// The length of the string; of what is no string, nothing.
    pub fn size(&self) -> (n: usize)
        ensures
            n == self.string().len(),
    {
        match &self.value {
            StringWeightValue::Labels(labels) => labels.to_vec().len(),
            _ => 0,
        }
    }

    /// The labels of the string.
    pub fn labels(&self) -> (labels: Vec<i32>)
        ensures
            labels@ == self.string(),
    {
        match &self.value {
            StringWeightValue::Labels(labels) => labels.to_vec(),
            _ => Vec::new(),
        }
    }
}

/// What two strings add up to.
pub open spec fn string_sum<const SIDE: u8>(a: Seq<i32>, b: Seq<i32>) -> StringWeight<SIDE> {
    if SIDE == STRING_LEFT {
        StringWeight::of(a.subrange(0, common_prefix(a, b)))
    } else if SIDE == STRING_RIGHT {
        StringWeight::of(
            a.reverse().subrange(0, common_prefix(a.reverse(), b.reverse())).reverse(),
        )
    } else if a == b {
        StringWeight::of(a)
    } else {
        StringWeight::bad()
    }
}

/// A word for a sequence of labels.
pub open spec fn string_word(seq: Seq<i32>) -> u64
    decreases seq.len(),
{
    if seq.len() == 0 {
        2
    } else {
        fx_word(string_word(seq.drop_last()), seq.last() as u64, usize::BITS)
    }
}

fn label_word(label: i32) -> (word: u64)
    ensures
        word == label as u64,
{
    #[verifier::truncate]
    let word: u64 = label as u64;
    word
}

/// Strings are alike when they are the same.
#[derive(Debug, Clone, Copy)]
pub struct Exactly;

impl<const SIDE: u8> Weight for StringWeight<SIDE> {
    type Delta = Exactly;

    open spec fn spec_zero() -> Self {
        StringWeight::infinity()
    }

    open spec fn spec_one() -> Self {
        StringWeight::of(Seq::empty())
    }

    open spec fn spec_no_weight() -> Self {
        StringWeight::bad()
    }

    open spec fn spec_plus(self, other: Self) -> Self {
        if !self.spec_member() || !other.spec_member() {
            StringWeight::bad()
        } else if self == Self::spec_zero() {
            other
        } else if other == Self::spec_zero() {
            self
        } else {
            string_sum(self.string(), other.string())
        }
    }

    open spec fn spec_times(self, other: Self) -> Self {
        if !self.spec_member() || !other.spec_member() {
            StringWeight::bad()
        } else if self == Self::spec_zero() || other == Self::spec_zero() {
            Self::spec_zero()
        } else {
            StringWeight::of(self.string() + other.string())
        }
    }

    open spec fn spec_member(self) -> bool {
        self.value !is Bad
    }

    open spec fn spec_approx(self, other: Self, delta: Exactly) -> bool {
        self == other
    }

    open spec fn spec_quantize(self, delta: Exactly) -> Self {
        self
    }

    open spec fn spec_hash_word(self) -> u64 {
        match self.value {
            StringWeightValue::Infinity => 0,
            StringWeightValue::Bad => 1,
            StringWeightValue::Labels(labels) => string_word(labels@),
        }
    }

    open spec fn spec_default_delta() -> Exactly {
        Exactly
    }

    open spec fn spec_properties() -> u64 {
        if SIDE == STRING_LEFT {
            LEFT_SEMIRING | IDEMPOTENT
        } else if SIDE == STRING_RIGHT {
            RIGHT_SEMIRING | IDEMPOTENT
        } else {
            LEFT_SEMIRING | RIGHT_SEMIRING | IDEMPOTENT
        }
    }

    fn zero() -> (w: Self) {
        StringWeight { value: StringWeightValue::Infinity }
    }

    fn one() -> (w: Self) {
        StringWeight { value: StringWeightValue::Labels(Labels::Empty) }
    }

    fn no_weight() -> (w: Self) {
        StringWeight { value: StringWeightValue::Bad }
    }

    fn plus(&self, other: &Self) -> (w: Self) {
        match (&self.value, &other.value) {
            (StringWeightValue::Bad, _) => StringWeight { value: StringWeightValue::Bad },
            (_, StringWeightValue::Bad) => StringWeight { value: StringWeightValue::Bad },
            (StringWeightValue::Infinity, _) => other.duplicate(),
            (_, StringWeightValue::Infinity) => self.duplicate(),
            (StringWeightValue::Labels(a), StringWeightValue::Labels(b)) => {
                proof {
                    lemma_labels_of_view(*a);
                    lemma_labels_of_view(*b);
                }
                let x = a.to_vec();
                let y = b.to_vec();
                if SIDE == STRING_LEFT {
                    let k: usize = find_common_prefix(&x, &y);
                    StringWeight::new(part(&x, 0, k))
                } else if SIDE == STRING_RIGHT {
                    let rx = reversed(&x);
                    let ry = reversed(&y);
                    let k: usize = find_common_prefix(&rx, &ry);
                    StringWeight::new(reversed(&part(&rx, 0, k)))
                } else if a.same(b) {
                    StringWeight::new(x)
                } else {
                    StringWeight { value: StringWeightValue::Bad }
                }
            },
        }
    }

    fn times(&self, other: &Self) -> (w: Self) {
        match (&self.value, &other.value) {
            (StringWeightValue::Bad, _) => StringWeight { value: StringWeightValue::Bad },
            (_, StringWeightValue::Bad) => StringWeight { value: StringWeightValue::Bad },
            (StringWeightValue::Infinity, _) => Self::zero(),
            (_, StringWeightValue::Infinity) => Self::zero(),
            (StringWeightValue::Labels(a), StringWeightValue::Labels(b)) => {
                let mut x = a.to_vec();
                let mut y = b.to_vec();
                x.append(&mut y);
                assert(x@ =~= a@ + b@);
                StringWeight::new(x)
            },
        }
    }

    fn duplicate(&self) -> (w: Self) {
        match &self.value {
            StringWeightValue::Infinity => StringWeight { value: StringWeightValue::Infinity },
            StringWeightValue::Bad => StringWeight { value: StringWeightValue::Bad },
            StringWeightValue::Labels(labels) => StringWeight {
                value: StringWeightValue::Labels(labels.duplicate()),
            },
        }
    }

    fn same(&self, other: &Self) -> (b: bool) {
        match (&self.value, &other.value) {
            (StringWeightValue::Infinity, StringWeightValue::Infinity) => true,
            (StringWeightValue::Bad, StringWeightValue::Bad) => true,
            (StringWeightValue::Labels(a), StringWeightValue::Labels(b)) => a.same(b),
            _ => false,
        }
    }

    fn is_member(&self) -> (b: bool) {
        match &self.value {
            StringWeightValue::Bad => false,
            _ => true,
        }
    }

    fn approx_equal(&self, other: &Self, delta: &Exactly) -> (b: bool) {
        self.same(other)
    }

    fn quantize(&self, delta: &Exactly) -> (w: Self) {
        self.duplicate()
    }

    fn hash_word(&self) -> (h: u64) {
        match &self.value {
            StringWeightValue::Infinity => 0,
            StringWeightValue::Bad => 1,
            StringWeightValue::Labels(labels) => {
                let seq = labels.to_vec();
                let mut h: u64 = 2;
                let mut i: usize = 0;
                while i < seq.len()
                    invariant
                        i <= seq@.len(),
                        h == string_word(seq@.take(i as int)),
                    decreases seq@.len() - i,
                {
                    assert(seq@.take(i + 1).drop_last() =~= seq@.take(i as int));
                    h = fx_hash(h, label_word(seq[i]));
                    i = i + 1;
                }
                assert(seq@.take(seq@.len() as int) =~= seq@);
                h
            },
        }
    }

    fn default_delta() -> (delta: Exactly) {
        Exactly
    }

    fn properties() -> (p: u64) {
        if SIDE == STRING_LEFT {
            LEFT_SEMIRING | IDEMPOTENT
        } else if SIDE == STRING_RIGHT {
            RIGHT_SEMIRING | IDEMPOTENT
        } else {
            LEFT_SEMIRING | RIGHT_SEMIRING | IDEMPOTENT
        }
    }
}

/// Whether strings of this kind can be divided from that side.
pub open spec fn divides_from(kind: u8, side: DivideType) -> bool {
    match side {
        DivideType::Left => kind != STRING_RIGHT,
        DivideType::Right => kind != STRING_LEFT,
        DivideType::Any => false,
    }
}

/// What is left of `a` once as many labels as `b` has are taken off one end.
pub open spec fn string_rest(a: Seq<i32>, b: Seq<i32>, side: DivideType) -> Seq<i32> {
    if b.len() > a.len() {
        Seq::empty()
    } else if side is Left {
        a.subrange(b.len() as int, a.len() as int)
    } else {
        a.subrange(0, a.len() - b.len())
    }
}

impl<const SIDE: u8> Divide for StringWeight<SIDE> {
    open spec fn spec_divide(self, divisor: Self, side: DivideType) -> Self {
        if !divides_from(SIDE, side) || !self.spec_member() || !divisor.spec_member() || divisor
            == Self::spec_zero() {
            StringWeight::bad()
        } else if self == Self::spec_zero() {
            Self::spec_zero()
        } else {
            StringWeight::of(string_rest(self.string(), divisor.string(), side))
        }
    }

    fn divide(&self, divisor: &Self, side: DivideType) -> (w: Self) {
        let possible = match side {
            DivideType::Left => SIDE != STRING_RIGHT,
            DivideType::Right => SIDE != STRING_LEFT,
            DivideType::Any => false,
        };
        if !possible {
            return StringWeight { value: StringWeightValue::Bad };
        }
        match (&self.value, &divisor.value) {
            (StringWeightValue::Bad, _) => StringWeight { value: StringWeightValue::Bad },
            (_, StringWeightValue::Bad) => StringWeight { value: StringWeightValue::Bad },
            (_, StringWeightValue::Infinity) => StringWeight { value: StringWeightValue::Bad },
            (StringWeightValue::Infinity, _) => Self::zero(),
            (StringWeightValue::Labels(a), StringWeightValue::Labels(b)) => {
                let x = a.to_vec();
                let k: usize = b.to_vec().len();
                if k > x.len() {
                    StringWeight::new(Vec::new())
                } else {
                    match side {
                        DivideType::Left => StringWeight::new(part(&x, k, x.len())),
                        _ => StringWeight::new(part(&x, 0, x.len() - k)),
                    }
                }
            },
        }
    }
}

/// The string part of a gallic weight adds up from the left.
pub const GALLIC_LEFT: u8 = 0;

/// The string part of a gallic weight adds up from the right.
pub const GALLIC_RIGHT: u8 = 1;

/// Only gallic weights with equal strings have a sum.
pub const GALLIC_RESTRICT: u8 = 2;

/// The sum of two gallic weights is the one that weighs less.
pub const GALLIC_MIN: u8 = 3;

/// A string paired with a weight.
#[derive(Debug, PartialEq, Eq, Hash)]
pub struct GallicWeight<W, const G: u8> {
    /// The string.
    pub labels: StringWeight<G>,
    /// The weight.
    pub weight: W,
}

impl<W: Weight, const G: u8> GallicWeight<W, G> {
    /// A string paired with a weight.
    pub fn from_parts(labels: StringWeight<G>, weight: W) -> (w: Self)
        ensures
            w == (GallicWeight { labels, weight }),
    {
        GallicWeight { labels, weight }
    }

    /// The string.
    pub fn labels(&self) -> (labels: &StringWeight<G>)
        ensures
            *labels == self.labels,
    {
        &self.labels
    }

    /// The weight.
    pub fn weight(&self) -> (weight: &W)
        ensures
            *weight == self.weight,
    {
        &self.weight
    }
}

impl<W: Weight, const G: u8> Weight for GallicWeight<W, G> {
    type Delta = W::Delta;

    open spec fn spec_zero() -> Self {
        GallicWeight { labels: StringWeight::infinity(), weight: W::spec_zero() }
    }

    open spec fn spec_one() -> Self {
        GallicWeight { labels: StringWeight::of(Seq::empty()), weight: W::spec_one() }
    }

    open spec fn spec_no_weight() -> Self {
        GallicWeight { labels: StringWeight::bad(), weight: W::spec_no_weight() }
    }

    open spec fn spec_plus(self, other: Self) -> Self {
        if G == GALLIC_MIN {
            if spec_natural_less(self.weight, other.weight) {
                self
            } else {
                other
            }
        } else {
            GallicWeight {
                labels: self.labels.spec_plus(other.labels),
                weight: self.weight.spec_plus(other.weight),
            }
        }
    }

    open spec fn spec_times(self, other: Self) -> Self {
        GallicWeight {
            labels: self.labels.spec_times(other.labels),
            weight: self.weight.spec_times(other.weight),
        }
    }

    open spec fn spec_member(self) -> bool {
        self.labels.spec_member() && self.weight.spec_member()
    }

    open spec fn spec_approx(self, other: Self, delta: W::Delta) -> bool {
        self.labels == other.labels && self.weight.spec_approx(other.weight, delta)
    }

    open spec fn spec_quantize(self, delta: W::Delta) -> Self {
        GallicWeight { labels: self.labels, weight: self.weight.spec_quantize(delta) }
    }

    open spec fn spec_hash_word(self) -> u64 {
        fx_word(self.labels.spec_hash_word(), self.weight.spec_hash_word(), usize::BITS)
    }

    open spec fn spec_default_delta() -> W::Delta {
        W::spec_default_delta()
    }

    open spec fn spec_properties() -> u64 {
        StringWeight::<G>::spec_properties() & W::spec_properties() & (LEFT_SEMIRING
            | RIGHT_SEMIRING | COMMUTATIVE | IDEMPOTENT)
    }

    fn zero() -> (w: Self) {
        GallicWeight { labels: StringWeight::zero(), weight: W::zero() }
    }

    fn one() -> (w: Self) {
        GallicWeight { labels: StringWeight::one(), weight: W::one() }
    }

    fn no_weight() -> (w: Self) {
        GallicWeight { labels: StringWeight::no_weight(), weight: W::no_weight() }
    }

    fn plus(&self, other: &Self) -> (w: Self) {
        if G == GALLIC_MIN {
            if natural_less(&self.weight, &other.weight) {
                self.duplicate()
            } else {
                other.duplicate()
            }
        } else {
            GallicWeight {
                labels: self.labels.plus(&other.labels),
                weight: self.weight.plus(&other.weight),
            }
        }
    }

    fn times(&self, other: &Self) -> (w: Self) {
        GallicWeight {
            labels: self.labels.times(&other.labels),
            weight: self.weight.times(&other.weight),
        }
    }

    fn duplicate(&self) -> (w: Self) {
        GallicWeight { labels: self.labels.duplicate(), weight: self.weight.duplicate() }
    }

    fn same(&self, other: &Self) -> (b: bool) {
        self.labels.same(&other.labels) && self.weight.same(&other.weight)
    }

    fn is_member(&self) -> (b: bool) {
        self.labels.is_member() && self.weight.is_member()
    }

    fn approx_equal(&self, other: &Self, delta: &W::Delta) -> (b: bool) {
        self.labels.same(&other.labels) && self.weight.approx_equal(&other.weight, delta)
    }

    fn quantize(&self, delta: &W::Delta) -> (w: Self) {
        GallicWeight { labels: self.labels.duplicate(), weight: self.weight.quantize(delta) }
    }

    fn hash_word(&self) -> (h: u64) {
        fx_hash(self.labels.hash_word(), self.weight.hash_word())
    }

    fn default_delta() -> (delta: W::Delta) {
        W::default_delta()
    }

    fn properties() -> (p: u64) {
        StringWeight::<G>::properties() & W::properties() & (LEFT_SEMIRING | RIGHT_SEMIRING
            | COMMUTATIVE | IDEMPOTENT)
    }
}

impl<W: Divide, const G: u8> Divide for GallicWeight<W, G> {
    open spec fn spec_divide(self, divisor: Self, side: DivideType) -> Self {
        GallicWeight {
            labels: self.labels.spec_divide(divisor.labels, side),
            weight: self.weight.spec_divide(divisor.weight, side),
        }
    }

    fn divide(&self, divisor: &Self, side: DivideType) -> (w: Self) {
        GallicWeight {
            labels: self.labels.divide(&divisor.labels, side),
            weight: self.weight.divide(&divisor.weight, side),
        }
    }
}

} // verus!
