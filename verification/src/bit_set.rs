//! Sets of small numbers.
use vstd::prelude::*;

verus! {

/// A set of numbers that grows to hold what is put in it.
#[derive(Debug)]
pub struct GrowableBitSet {
    bits: Vec<bool>,
}

impl View for GrowableBitSet {
    type V = Set<int>;

    closed spec fn view(&self) -> Set<int> {
        Set::new(|i: int| 0 <= i < self.bits@.len() && self.bits@[i])
    }
}

impl GrowableBitSet {
    /// How many numbers there is room for.
    pub closed spec fn room(self) -> nat {
        self.bits@.len()
    }

    /// The empty set.
    pub fn new() -> (set: Self)
        ensures
            set@ == Set::<int>::empty(),
            set.room() == 0,
    {
        let set = GrowableBitSet { bits: Vec::new() };
        assert(set@ =~= Set::<int>::empty());
        set
    }

    /// Empties the set.
    pub fn clear(&mut self)
        ensures
            final(self)@ == Set::<int>::empty(),
            final(self).room() == 0,
    {
        self.bits.clear();
        assert(self@ =~= Set::<int>::empty());
    }

    /// Makes room for the numbers below `n`.
    pub fn ensure(&mut self, n: usize)
        ensures
            final(self)@ == old(self)@,
            final(self).room() == (if old(self).room() < n {
                n as nat
            } else {
                old(self).room()
            }),
    {
        while self.bits.len() < n
            invariant
                self.bits@.len() >= old(self).bits@.len(),
                self.bits@.len() <= n || self.bits@.len() == old(self).bits@.len(),
                forall|i: int| 0 <= i < old(self).bits@.len() ==> self.bits@[i] == old(self).bits@[i],
                forall|i: int| old(self).bits@.len() <= i < self.bits@.len() ==> !self.bits@[i],
            decreases n - self.bits@.len(),
        {
            self.bits.push(false);
        }
        assert(self@ =~= old(self)@);
    }

    /// Puts `i` in the set.
    pub fn insert(&mut self, i: usize)
        requires
            i < usize::MAX,
        ensures
            final(self)@ == old(self)@.insert(i as int),
            final(self).room() == (if old(self).room() <= i {
                (i + 1) as nat
            } else {
                old(self).room()
            }),
    {
        self.ensure(i + 1);
        self.bits.set(i, true);
        assert(self@ =~= old(self)@.insert(i as int));
    }

    /// Takes `i` out of the set.
    pub fn remove(&mut self, i: usize)
        ensures
            final(self)@ == old(self)@.remove(i as int),
            final(self).room() == old(self).room(),
    {
        if i < self.bits.len() {
            self.bits.set(i, false);
        }
        assert(self@ =~= old(self)@.remove(i as int));
    }

    /// Whether `i` is in the set.
    pub fn contains(&self, i: usize) -> (b: bool)
        ensures
            b == self@.contains(i as int),
    {
        i < self.bits.len() && self.bits[i]
    }

    /// How many numbers there is room for.
    pub fn len(&self) -> (n: usize)
        ensures
            n == self.room(),
    {
        self.bits.len()
    }
}

} // verus!
