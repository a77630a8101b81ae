//! Lists that can be looked up.
use crate::hash_table::{fx_hash, fx_word, Key};
use vstd::prelude::*;

verus! {

/// Values, one before the other.
pub enum List<T> {
    /// No value.
    End,
    /// A value and those that follow it.
    Before(T, Box<List<T>>),
}

/// The sequence that a list is.
pub open spec fn sequence<T>(list: List<T>) -> Seq<T>
    decreases list,
{
    match list {
        List::End => Seq::empty(),
        List::Before(value, rest) => seq![value] + sequence(*rest),
    }
}

/// The list of what a sequence holds.
pub open spec fn list_of<T>(seq: Seq<T>) -> List<T>
    decreases seq.len(),
{
    if seq.len() == 0 {
        List::End
    } else {
        List::Before(seq[0], Box::new(list_of(seq.drop_first())))
    }
}

/// The list of what a sequence holds is that sequence.
pub proof fn lemma_list_sequence<T>(seq: Seq<T>)
    ensures
        sequence(list_of(seq)) == seq,
    decreases seq.len(),
{
    if seq.len() > 0 {
        lemma_list_sequence(seq.drop_first());
        assert(sequence(list_of(seq)) =~= seq);
    }
}

/// Lists are told apart by the sequences they are.
pub proof fn lemma_list_of_sequence<T>(list: List<T>)
    ensures
        list_of(sequence(list)) == list,
    decreases list,
{
    match list {
        List::End => {},
        List::Before(value, rest) => {
            lemma_list_of_sequence(*rest);
            assert(sequence(list).drop_first() =~= sequence(*rest));
        },
    }
}

/// A word for the first `k` values.
pub open spec fn list_word<T: Key>(seq: Seq<T>, k: int) -> u64
    decreases k,
{
    if k <= 0 {
        0
    } else {
        fx_word(list_word(seq, k - 1), seq[k - 1].spec_key_word(), usize::BITS)
    }
}

impl<T: Key> List<T> {
    /// The list of what a vector holds.
    pub fn from_vec(seq: &Vec<T>) -> (list: Self)
        ensures
            list == list_of(seq@),
            sequence(list) == seq@,
    {
        let mut list: List<T> = List::End;
        let mut i: usize = seq.len();
        while i > 0
            invariant
                i <= seq@.len(),
                list == list_of(seq@.skip(i as int)),
            decreases i,
        {
            i = i - 1;
            list = List::Before(seq[i].key_copy(), Box::new(list));
            assert(seq@.skip(i as int).drop_first() =~= seq@.skip(i + 1));
        }
        assert(seq@.skip(0) =~= seq@);
        proof {
            lemma_list_sequence(seq@);
        }
        list
    }

    /// What the list holds.
    pub fn to_vec(&self) -> (seq: Vec<T>)
        ensures
            seq@ == sequence(*self),
    {
        let mut seq: Vec<T> = Vec::new();
        let mut at: &List<T> = self;
        loop
            invariant
                seq@ + sequence(*at) == sequence(*self),
            decreases *at,
        {
            match at {
                List::End => {
                    assert(seq@ + sequence(*at) =~= seq@);
                    return seq;
                },
                List::Before(value, rest) => {
                    let ghost before = seq@;
                    seq.push(value.key_copy());
                    assert(before + sequence(*at) =~= seq@ + sequence(**rest));
                    at = &**rest;
                },
            }
        }
    }
}

impl<T: Key> Key for List<T> {
    open spec fn spec_key_word(self) -> u64 {
        list_word(sequence(self), sequence(self).len() as int)
    }

    fn key_word(&self) -> (h: u64) {
        let seq = self.to_vec();
        let mut h: u64 = 0;
        let mut i: usize = 0;
        while i < seq.len()
            invariant
                i <= seq@.len(),
                h == list_word(seq@, i as int),
            decreases seq@.len() - i,
        {
            h = fx_hash(h, seq[i].key_word());
            i = i + 1;
        }
        h
    }

    fn key_same(&self, other: &Self) -> (b: bool) {
        let mut a: &List<T> = self;
        let mut b: &List<T> = other;
        loop
            invariant
                (*a == *b) == (*self == *other),
            decreases *a,
        {
            match (a, b) {
                (List::End, List::End) => {
                    return true;
                },
                (List::Before(x, s), List::Before(y, t)) => {
                    if !x.key_same(y) {
                        return false;
                    }
                    a = &**s;
                    b = &**t;
                },
                _ => {
                    return false;
                },
            }
        }
    }

    fn key_copy(&self) -> (k: Self) {
        proof {
            lemma_list_of_sequence(*self);
        }
        List::from_vec(&self.to_vec())
    }
}

} // verus!
