//! The state a composition filter carries between arcs.
//!
//! A filter state is whatever a composition filter needs to remember about the
//! path it took to reach the current pair of states. For the epsilon-sequencing
//! filters that is which side was allowed to consume epsilons.
//!
//! That an arc is not allowed is said by `None` from a filter, so no filter state
//! has to be set aside to say it.
use crate::arc::NO_LABEL;
use crate::hash_table::{fx_hash, fx_word, Key};
use crate::weight::Weight;
use vstd::prelude::*;

verus! {

/// The filter state a composition starts in, and returns to once both sides
/// have consumed a real symbol.
pub const STATE_DEFAULT: i8 = 0;

/// Only the first side may consume epsilons from here.
pub const STATE_EPS1: i8 = 1;

/// Only the second side may consume epsilons from here.
pub const STATE_EPS2: i8 = 2;

/// The state of a composition filter.
pub trait FilterState: Key {
    /// A value no real filter state equals.
    spec fn spec_no_state() -> Self;

    /// A small integer standing for this state.
    spec fn spec_hash_value(self) -> usize;

    /// A value no real filter state equals.
    ///
    /// Not a "this arc is disallowed" marker; that is `None` from a filter. This is
    /// the entry an erasable table fills a freed slot with, which is why it
    /// only has to be distinguishable from anything real.
    fn no_state() -> (fs: Self)
        ensures
            fs == Self::spec_no_state(),
    ;

    /// A small integer standing for this state.
    ///
    /// It has to be a *value*, not a hasher's output: a composition state table
    /// can use it as part of a vector index, so a well-spread hash would be
    /// useless there.
    fn hash_value(&self) -> (h: usize)
        ensures
            h == self.spec_hash_value(),
    ;
}

/// An integer that can number states.
pub trait ArcStateId: Key + Copy {
    /// The number of no state.
    spec fn spec_none() -> Self;

    /// The number as an index.
    spec fn spec_index(self) -> usize;

    /// The number of no state.
    fn none() -> (s: Self)
        ensures
            s == Self::spec_none(),
    ;

    /// The number as an index.
    fn index(&self) -> (i: usize)
        ensures
            i == self.spec_index(),
    ;
}

impl Key for i8 {
    open spec fn spec_key_word(self) -> u64 {
        self as u64
    }

    fn key_word(&self) -> (h: u64) {
        #[verifier::truncate]
        let word: u64 = *self as u64;
        word
    }

    fn key_same(&self, other: &Self) -> (b: bool) {
        *self == *other
    }

    fn key_copy(&self) -> (k: Self) {
        *self
    }
}

impl Key for i16 {
    open spec fn spec_key_word(self) -> u64 {
        self as u64
    }

    fn key_word(&self) -> (h: u64) {
        #[verifier::truncate]
        let word: u64 = *self as u64;
        word
    }

    fn key_same(&self, other: &Self) -> (b: bool) {
        *self == *other
    }

    fn key_copy(&self) -> (k: Self) {
        *self
    }
}

impl ArcStateId for i8 {
    open spec fn spec_none() -> Self {
        (-1) as i8
    }

    open spec fn spec_index(self) -> usize {
        self as usize
    }

    fn none() -> (s: Self) {
        -1
    }

    fn index(&self) -> (i: usize) {
        #[verifier::truncate]
        let i: usize = *self as usize;
        i
    }
}

impl ArcStateId for i16 {
    open spec fn spec_none() -> Self {
        (-1) as i16
    }

    open spec fn spec_index(self) -> usize {
        self as usize
    }

    fn none() -> (s: Self) {
        -1
    }

    fn index(&self) -> (i: usize) {
        #[verifier::truncate]
        let i: usize = *self as usize;
        i
    }
}

impl ArcStateId for i32 {
    open spec fn spec_none() -> Self {
        (-1) as i32
    }

    open spec fn spec_index(self) -> usize {
        self as usize
    }

    fn none() -> (s: Self) {
        -1
    }

    fn index(&self) -> (i: usize) {
        #[verifier::truncate]
        let i: usize = *self as usize;
        i
    }
}

impl ArcStateId for usize {
    open spec fn spec_none() -> Self {
        usize::MAX
    }

    open spec fn spec_index(self) -> usize {
        self
    }

    fn none() -> (s: Self) {
        usize::MAX
    }

    fn index(&self) -> (i: usize) {
        *self
    }
}

/// A filter state that is an integer.
#[derive(Debug, PartialEq, Eq, Hash)]
pub struct IntegerFilterState<T> {
    /// The integer.
    pub state: T,
}

impl<T> IntegerFilterState<T> {
    /// The filter state that is `state`.
    pub fn new(state: T) -> (fs: Self)
        ensures
            fs.state == state,
    {
        IntegerFilterState { state }
    }

    /// The integer.
    pub fn state(&self) -> (state: &T)
        ensures
            *state == self.state,
    {
        &self.state
    }
}

impl<T: Copy> IntegerFilterState<T> {
    /// The integer.
    pub fn state_copied(&self) -> (state: T)
        ensures
            state == self.state,
    {
        self.state
    }
}

impl<T: ArcStateId> Key for IntegerFilterState<T> {
    open spec fn spec_key_word(self) -> u64 {
        self.state.spec_key_word()
    }

    fn key_word(&self) -> (h: u64) {
        self.state.key_word()
    }

    fn key_same(&self, other: &Self) -> (b: bool) {
        self.state.key_same(&other.state)
    }

    fn key_copy(&self) -> (k: Self) {
        IntegerFilterState { state: self.state.key_copy() }
    }
}

impl<T: ArcStateId> FilterState for IntegerFilterState<T> {
    open spec fn spec_no_state() -> Self {
        IntegerFilterState { state: T::spec_none() }
    }

    open spec fn spec_hash_value(self) -> usize {
        self.state.spec_index()
    }

    fn no_state() -> (fs: Self) {
        Self::new(T::none())
    }

    fn hash_value(&self) -> (h: usize) {
        self.state.index()
    }
}

/// A filter state in eight bits.
pub type CharFilterState = IntegerFilterState<i8>;

/// A filter state in sixteen bits.
pub type ShortFilterState = IntegerFilterState<i16>;

/// A filter state in thirty-two bits.
pub type IntFilterState = IntegerFilterState<i32>;

/// A filter state that is a label.
///
/// Kept apart from [`IntegerFilterState`], so that a label and a state number
/// cannot be crossed by accident.
#[derive(Debug, PartialEq, Eq, Hash)]
pub struct LabelFilterState {
    /// The label.
    pub label: i32,
}

impl LabelFilterState {
    /// The filter state that is `label`.
    pub fn new(label: i32) -> (fs: Self)
        ensures
            fs.label == label,
    {
        LabelFilterState { label }
    }

    /// The label.
    pub fn label(&self) -> (label: &i32)
        ensures
            *label == self.label,
    {
        &self.label
    }

    /// The label.
    pub fn label_copied(&self) -> (label: i32)
        ensures
            label == self.label,
    {
        self.label
    }
}

impl Key for LabelFilterState {
    open spec fn spec_key_word(self) -> u64 {
        self.label.spec_key_word()
    }

    fn key_word(&self) -> (h: u64) {
        self.label.key_word()
    }

    fn key_same(&self, other: &Self) -> (b: bool) {
        self.label == other.label
    }

    fn key_copy(&self) -> (k: Self) {
        LabelFilterState { label: self.label }
    }
}

impl FilterState for LabelFilterState {
    open spec fn spec_no_state() -> Self {
        LabelFilterState { label: NO_LABEL }
    }

    open spec fn spec_hash_value(self) -> usize {
        self.label as usize
    }

    fn no_state() -> (fs: Self) {
        Self::new(NO_LABEL)
    }

    fn hash_value(&self) -> (h: usize) {
        #[verifier::truncate]
        let h: usize = self.label as usize;
        h
    }
}

/// A filter state that is a weight.
#[derive(Debug, PartialEq, Eq, Hash)]
pub struct WeightFilterState<W> {
    /// The weight.
    pub weight: W,
}

impl<W: Weight> WeightFilterState<W> {
    /// The filter state that is `weight`.
    pub fn new(weight: W) -> (fs: Self)
        ensures
            fs.weight == weight,
    {
        WeightFilterState { weight }
    }

    /// The weight.
    pub fn weight(&self) -> (weight: W)
        ensures
            weight == self.weight,
    {
        self.weight.duplicate()
    }
}

impl<W: Weight> Key for WeightFilterState<W> {
    open spec fn spec_key_word(self) -> u64 {
        fx_word(0, self.weight.spec_hash_word(), usize::BITS)
    }

    fn key_word(&self) -> (h: u64) {
        fx_hash(0, self.weight.hash_word())
    }

    fn key_same(&self, other: &Self) -> (b: bool) {
        self.weight.same(&other.weight)
    }

    fn key_copy(&self) -> (k: Self) {
        WeightFilterState { weight: self.weight.duplicate() }
    }
}

impl<W: Weight> FilterState for WeightFilterState<W> {
    /// A filter state that is zero never arises from a real composition.
    open spec fn spec_no_state() -> Self {
        WeightFilterState { weight: W::spec_zero() }
    }

    open spec fn spec_hash_value(self) -> usize {
        fx_word(0, self.weight.spec_hash_word(), usize::BITS) as usize
    }

    fn no_state() -> (fs: Self) {
        Self::new(W::zero())
    }

    fn hash_value(&self) -> (h: usize) {
        #[verifier::truncate]
        let h: usize = fx_hash(0, self.weight.hash_word()) as usize;
        h
    }
}

/// Values, one before the other.
#[derive(Debug, PartialEq, Eq, Hash)]
pub enum Listed<T> {
    /// No value.
    End,
    /// A value and those that follow it.
    Before(T, Box<Listed<T>>),
}

/// The sequence that listed values are.
pub open spec fn listed<T>(list: Listed<T>) -> Seq<T>
    decreases list,
{
    match list {
        Listed::End => Seq::empty(),
        Listed::Before(value, rest) => seq![value] + listed(*rest),
    }
}

/// A filter state that is a list.
#[derive(Debug, PartialEq, Eq, Hash)]
pub struct ListFilterState<T> {
    /// The list.
    pub list: Listed<T>,
}

impl<T: ArcStateId> ListFilterState<T> {
    /// The filter state that is the list of `s` alone.
    pub fn new(s: T) -> (fs: Self)
        ensures
            fs.list == Listed::Before(s, Box::new(Listed::End)),
            listed(fs.list) == seq![s],
    {
        let list = Listed::Before(s, Box::new(Listed::End));
        assert(listed(list) =~= seq![s]) by {
            reveal_with_fuel(listed, 2);
        }
        ListFilterState { list }
    }

    /// The list, front first.
    pub fn state(&self) -> (values: Vec<T>)
        ensures
            values@ == listed(self.list),
    {
        let mut values: Vec<T> = Vec::new();
        let mut at: &Listed<T> = &self.list;
        loop
            invariant
                values@ + listed(*at) == listed(self.list),
            decreases *at,
        {
            match at {
                Listed::End => {
                    assert(values@ + listed(*at) =~= values@);
                    return values;
                },
                Listed::Before(value, rest) => {
                    let ghost before = values@;
                    values.push(*value);
                    assert(before + listed(*at) =~= values@ + listed(**rest));
                    at = &**rest;
                },
            }
        }
    }

    /// The list, to be changed.
    pub fn state_mut(&mut self) -> (list: &mut Listed<T>)
        ensures
            *list == old(self).list,
            final(self).list == *final(list),
    {
        &mut self.list
    }
}

/// What the shift-and-xor of a list comes to, having come to `h` before it.
pub open spec fn mixed<T: ArcStateId>(list: Listed<T>, h: usize) -> usize
    decreases list,
{
    match list {
        Listed::End => h,
        Listed::Before(value, rest) => mixed(*rest, h ^ (h << 1usize) ^ value.spec_index()),
    }
}

/// A word for a list, having come to `h` before it.
pub open spec fn list_word<T: ArcStateId>(list: Listed<T>, h: u64) -> u64
    decreases list,
{
    match list {
        Listed::End => h,
        Listed::Before(value, rest) => list_word(
            *rest,
            fx_word(h, value.spec_key_word(), usize::BITS),
        ),
    }
}

impl<T: ArcStateId> Listed<T> {
    /// A copy of the list.
    pub fn duplicate(&self) -> (list: Self)
        ensures
            list == *self,
        decreases self,
    {
        match self {
            Listed::End => Listed::End,
            Listed::Before(value, rest) => Listed::Before(*value, Box::new(rest.duplicate())),
        }
    }

    /// Whether the two are the same list.
    pub fn same(&self, other: &Self) -> (b: bool)
        ensures
            b == (*self == *other),
        decreases self,
    {
        match (self, other) {
            (Listed::End, Listed::End) => true,
            (Listed::Before(x, s), Listed::Before(y, t)) => x.key_same(y) && s.same(t),
            _ => false,
        }
    }
}

impl<T: ArcStateId> Key for ListFilterState<T> {
    open spec fn spec_key_word(self) -> u64 {
        list_word(self.list, 0)
    }

    fn key_word(&self) -> (h: u64) {
        let mut h: u64 = 0;
        let mut at: &Listed<T> = &self.list;
        loop
            invariant
                list_word(*at, h) == list_word(self.list, 0),
            decreases *at,
        {
            match at {
                Listed::End => {
                    return h;
                },
                Listed::Before(value, rest) => {
                    h = fx_hash(h, value.key_word());
                    at = &**rest;
                },
            }
        }
    }

    fn key_same(&self, other: &Self) -> (b: bool) {
        self.list.same(&other.list)
    }

    fn key_copy(&self) -> (k: Self) {
        ListFilterState { list: self.list.duplicate() }
    }
}

impl<T: ArcStateId> FilterState for ListFilterState<T> {
    open spec fn spec_no_state() -> Self {
        ListFilterState { list: Listed::Before(T::spec_none(), Box::new(Listed::End)) }
    }

    open spec fn spec_hash_value(self) -> usize {
        mixed(self.list, 0)
    }

    fn no_state() -> (fs: Self) {
        Self::new(T::none())
    }

    fn hash_value(&self) -> (h: usize) {
        let mut h: usize = 0;
        let mut at: &Listed<T> = &self.list;
        loop
            invariant
                mixed(*at, h) == mixed(self.list, 0),
            decreases *at,
        {
            match at {
                Listed::End => {
                    return h;
                },
                Listed::Before(value, rest) => {
                    h = h ^ (h << 1usize) ^ value.index();
                    at = &**rest;
                },
            }
        }
    }
}

/// Two filter states side by side.
#[derive(Debug, PartialEq, Eq, Hash)]
pub struct PairFilterState<FS1, FS2> {
    /// The first.
    pub fs1: FS1,
    /// The second.
    pub fs2: FS2,
}

impl<FS1: FilterState, FS2: FilterState> PairFilterState<FS1, FS2> {
    /// Two filter states side by side.
    pub fn new(fs1: FS1, fs2: FS2) -> (fs: Self)
        ensures
            fs == (PairFilterState { fs1, fs2 }),
    {
        PairFilterState { fs1, fs2 }
    }

    /// The first.
    pub fn state1(&self) -> (fs1: &FS1)
        ensures
            *fs1 == self.fs1,
    {
        &self.fs1
    }

    /// The second.
    pub fn state2(&self) -> (fs2: &FS2)
        ensures
            *fs2 == self.fs2,
    {
        &self.fs2
    }
}

impl<FS1: FilterState, FS2: FilterState> Key for PairFilterState<FS1, FS2> {
    open spec fn spec_key_word(self) -> u64 {
        fx_word(self.fs1.spec_key_word(), self.fs2.spec_key_word(), usize::BITS)
    }

    fn key_word(&self) -> (h: u64) {
        fx_hash(self.fs1.key_word(), self.fs2.key_word())
    }

    fn key_same(&self, other: &Self) -> (b: bool) {
        self.fs1.key_same(&other.fs1) && self.fs2.key_same(&other.fs2)
    }

    fn key_copy(&self) -> (k: Self) {
        PairFilterState { fs1: self.fs1.key_copy(), fs2: self.fs2.key_copy() }
    }
}

impl<FS1: FilterState, FS2: FilterState> FilterState for PairFilterState<FS1, FS2> {
    open spec fn spec_no_state() -> Self {
        PairFilterState { fs1: FS1::spec_no_state(), fs2: FS2::spec_no_state() }
    }

    open spec fn spec_hash_value(self) -> usize {
        let h1 = self.fs1.spec_hash_value();
        (h1 << 5usize) ^ (h1 >> (usize::BITS - 5)) ^ self.fs2.spec_hash_value()
    }

    fn no_state() -> (fs: Self) {
        Self::new(FS1::no_state(), FS2::no_state())
    }

    fn hash_value(&self) -> (h: usize) {
        let h1: usize = self.fs1.hash_value();
        (h1 << 5usize) ^ (h1 >> (usize::BITS - 5)) ^ self.fs2.hash_value()
    }
}

/// A filter state that has nothing to remember.
#[derive(Debug, PartialEq, Eq, Hash)]
pub struct TrivialFilterState {
    /// Whether it is a filter state at all.
    pub state: bool,
}

impl TrivialFilterState {
    /// The filter state that is `state`.
    pub fn new(state: bool) -> (fs: Self)
        ensures
            fs.state == state,
    {
        TrivialFilterState { state }
    }

    /// Whether it is a filter state at all.
    pub fn state(&self) -> (state: bool)
        ensures
            state == self.state,
    {
        self.state
    }
}

impl Key for TrivialFilterState {
    open spec fn spec_key_word(self) -> u64 {
        if self.state {
            1
        } else {
            0
        }
    }

    fn key_word(&self) -> (h: u64) {
        if self.state {
            1
        } else {
            0
        }
    }

    fn key_same(&self, other: &Self) -> (b: bool) {
        self.state == other.state
    }

    fn key_copy(&self) -> (k: Self) {
        TrivialFilterState { state: self.state }
    }
}

impl FilterState for TrivialFilterState {
    open spec fn spec_no_state() -> Self {
        TrivialFilterState { state: false }
    }

    open spec fn spec_hash_value(self) -> usize {
        0
    }

    fn no_state() -> (fs: Self) {
        Self::new(false)
    }

    fn hash_value(&self) -> (h: usize) {
        0
    }
}

} // verus!
