//! Values numbered in the order in which they were first met.
use hashbrown::HashMap;
use std::hash::Hasher;
use vstd::prelude::*;

verus! {

/// A map from words to numbers, kept by the `hashbrown` crate.
#[verifier::external_body]
pub struct IdMap {
    map: HashMap<u64, usize>,
}

/// What a map holds.
pub uninterp spec fn id_map_entries(map: IdMap) -> Map<u64, usize>;

/// `hashbrown::HashMap::new`: a map that holds nothing.
#[verifier::external_body]
fn id_map_new() -> (fresh: IdMap)
    ensures
        id_map_entries(fresh).dom().is_empty(),
{
    IdMap { map: HashMap::new() }
}

/// `hashbrown::HashMap::get`: the number that the map holds for `key`, if any.
#[verifier::external_body]
fn id_map_get(map: &IdMap, key: u64) -> (value: Option<usize>)
    ensures
        value == (if id_map_entries(*map).contains_key(key) {
            Some(id_map_entries(*map)[key])
        } else {
            None
        }),
{
    map.map.get(&key).copied()
}

/// `hashbrown::HashMap::insert`: makes the map hold `value` for `key`, in place of
/// what it held for it.
#[verifier::external_body]
fn id_map_insert(map: &mut IdMap, key: u64, value: usize)
    ensures
        id_map_entries(*final(map)) == id_map_entries(*old(map)).insert(key, value),
{
    map.map.insert(key, value);
}

/// What the `rustc_hash` crate's hasher gives for two words on a machine whose
/// pointers have `bits` bits.
pub uninterp spec fn fx_word(a: u64, b: u64, bits: u32) -> u64;

/// `rustc_hash::FxHasher`, fed two words: one word that depends on the two and on
/// the width of a pointer alone.
#[verifier::external_body]
pub(crate) fn fx_hash(a: u64, b: u64) -> (h: u64)
    ensures
        h == fx_word(a, b, usize::BITS),
{
    let mut hasher = rustc_hash::FxHasher::default();
    hasher.write_u64(a);
    hasher.write_u64(b);
    hasher.finish()
}

/// A value that can be looked up.
pub trait Key: Sized {
    /// A word that depends on the value alone.
    spec fn spec_key_word(self) -> u64;

    /// A word that depends on the value alone.
    fn key_word(&self) -> (h: u64)
        ensures
            h == self.spec_key_word(),
    ;

    /// Whether the two are the same value.
    fn key_same(&self, other: &Self) -> (b: bool)
        ensures
            b == (*self == *other),
    ;

    /// A copy of the value.
    fn key_copy(&self) -> (k: Self)
        ensures
            k == *self,
    ;
}

impl Key for usize {
    open spec fn spec_key_word(self) -> u64 {
        self as u64
    }

    fn key_word(&self) -> (h: u64) {
        *self as u64
    }

    fn key_same(&self, other: &Self) -> (b: bool) {
        *self == *other
    }

    fn key_copy(&self) -> (k: Self) {
        *self
    }
}

impl Key for i32 {
    open spec fn spec_key_word(self) -> u64 {
        self as u64
    }

    fn key_word(&self) -> (h: u64) {
        #[verifier::truncate]
        let word: u64 = *self as u64;
        word
    }

    fn key_same(&self, other: &Self) -> (b: bool) {
        *self == *other
    }

    fn key_copy(&self) -> (k: Self) {
        *self
    }
}

impl<A: Key, B: Key> Key for (A, B) {
    open spec fn spec_key_word(self) -> u64 {
        fx_word(self.0.spec_key_word(), self.1.spec_key_word(), usize::BITS)
    }

    fn key_word(&self) -> (h: u64) {
        fx_hash(self.0.key_word(), self.1.key_word())
    }

    fn key_same(&self, other: &Self) -> (b: bool) {
        self.0.key_same(&other.0) && self.1.key_same(&other.1)
    }

    fn key_copy(&self) -> (k: Self) {
        (self.0.key_copy(), self.1.key_copy())
    }
}

impl<A: Key> Key for Option<A> {
    open spec fn spec_key_word(self) -> u64 {
        match self {
            Some(a) => fx_word(1, a.spec_key_word(), usize::BITS),
            None => 0,
        }
    }

    fn key_word(&self) -> (h: u64) {
        match self {
            Some(a) => fx_hash(1, a.key_word()),
            None => 0,
        }
    }

    fn key_same(&self, other: &Self) -> (b: bool) {
        match (self, other) {
            (Some(a), Some(b)) => a.key_same(b),
            (None, None) => true,
            _ => false,
        }
    }

    fn key_copy(&self) -> (k: Self) {
        match self {
            Some(a) => Some(a.key_copy()),
            None => None,
        }
    }
}

/// A map from numbers to numbers.
pub struct IndexMap {
    ids: IdMap,
}

impl IndexMap {
    /// Whether the map holds something for `key`.
    pub closed spec fn has(&self, key: usize) -> bool {
        id_map_entries(self.ids).contains_key(key as u64)
    }

    /// What the map holds for `key`.
    pub closed spec fn at(&self, key: usize) -> usize {
        id_map_entries(self.ids)[key as u64]
    }

    /// A map that holds nothing.
    pub fn new() -> (map: Self)
        ensures
            forall|key: usize| !(#[trigger] map.has(key)),
    {
        IndexMap { ids: id_map_new() }
    }

    /// What the map holds for `key`, if anything.
    pub fn get(&self, key: usize) -> (value: Option<usize>)
        ensures
            value == (if self.has(key) {
                Some(self.at(key))
            } else {
                None
            }),
    {
        id_map_get(&self.ids, key as u64)
    }

    /// Makes the map hold `value` for `key`.
    pub fn insert(&mut self, key: usize, value: usize)
        ensures
            forall|k: usize| #[trigger] final(self).has(k) <==> old(self).has(k) || k == key,
            forall|k: usize| #[trigger]
                final(self).at(k) == (if k == key {
                    value
                } else {
                    old(self).at(k)
                }),
    {
        id_map_insert(&mut self.ids, key as u64, value);
    }
}

/// Whether following `next` from `from` comes by `i`. A link to itself is the end.
pub open spec fn chained(next: Seq<usize>, from: int, i: int) -> bool
    decreases from,
{
    from == i || (0 <= next[from] < from && chained(next, next[from] as int, i))
}

/// Values numbered in the order in which they were first met, each once.
pub struct Table<K> {
    entries: Vec<K>,
    next: Vec<usize>,
    heads: IdMap,
}

impl<K> View for Table<K> {
    type V = Seq<K>;

    closed spec fn view(&self) -> Seq<K> {
        self.entries@
    }
}

impl<K: Key> Table<K> {
    spec fn linked(&self) -> bool {
        let heads = id_map_entries(self.heads);
        &&& self.next@.len() == self.entries@.len()
        &&& forall|h: u64| #[trigger]
            heads.contains_key(h) ==> heads[h] < self.entries@.len()
        &&& forall|i: int| 0 <= i < self.next@.len() ==> #[trigger] self.next@[i] <= i
        &&& forall|i: int|
            0 <= i < self.entries@.len() ==> heads.contains_key(
                (#[trigger] self.entries@[i]).spec_key_word(),
            ) && chained(self.next@, heads[self.entries@[i].spec_key_word()] as int, i)
    }

    /// Whether the table is in order: nothing is in it twice.
    pub closed spec fn wf(&self) -> bool {
        self.linked() && self.entries@.no_duplicates()
    }

    /// Nothing is in a table twice.
    pub proof fn lemma_distinct(&self)
        requires
            self.wf(),
        ensures
            self@.no_duplicates(),
    {
    }

    /// A table of nothing.
    pub fn new() -> (table: Self)
        ensures
            table.wf(),
            table@ == Seq::<K>::empty(),
    {
        Table { entries: Vec::new(), next: Vec::new(), heads: id_map_new() }
    }

    /// How many values there are.
    pub fn len(&self) -> (n: usize)
        ensures
            n == self@.len(),
    {
        self.entries.len()
    }

    /// The value with number `i`.
    pub fn get(&self, i: usize) -> (k: &K)
        requires
            i < self@.len(),
        ensures
            *k == self@[i as int],
    {
        &self.entries[i]
    }

    /// The number of `key`, if it has one.
    pub fn find(&self, key: &K) -> (found: Option<usize>)
        requires
            self.wf(),
        ensures
            match found {
                Some(i) => i < self@.len() && self@[i as int] == *key,
                None => !self@.contains(*key),
            },
    {
        let head = id_map_get(&self.heads, key.key_word());
        match head {
            None => None,
            Some(head) => {
                let mut at: usize = head;
                loop
                    invariant
                        self.linked(),
                        at < self.entries@.len(),
                        forall|i: int|
                            0 <= i < self.entries@.len() && #[trigger] self.entries@[i] == *key
                                ==> chained(self.next@, at as int, i),
                    decreases at,
                {
                    if self.entries[at].key_same(key) {
                        return Some(at);
                    }
                    let next: usize = self.next[at];
                    if next == at {
                        return None;
                    }
                    at = next;
                }
            },
        }
    }

    /// The number of `key`, which is the next one where it had none.
    pub fn insert(&mut self, key: K) -> (i: usize)
        requires
            old(self).wf(),
        ensures
            final(self).wf(),
            i < final(self)@.len(),
            final(self)@[i as int] == key,
            final(self)@ == (if old(self)@.contains(key) {
                old(self)@
            } else {
                old(self)@.push(key)
            }),
    {
        if let Some(i) = self.find(&key) {
            assert(self@.contains(self@[i as int]));
            return i;
        }
        let i: usize = self.entries.len();
        let word: u64 = key.key_word();
        let ghost heads = id_map_entries(self.heads);
        let ghost next = self.next@;
        let ghost entries = self.entries@;
        match id_map_get(&self.heads, word) {
            Some(head) => {
                self.next.push(head);
            },
            None => {
                self.next.push(i);
            },
        }
        id_map_insert(&mut self.heads, word, i);
        self.entries.push(key);
        assert forall|j: int| 0 <= j < self.entries@.len() implies {
            let heads = id_map_entries(self.heads);
            heads.contains_key((#[trigger] self.entries@[j]).spec_key_word()) && chained(
                self.next@,
                heads[self.entries@[j].spec_key_word()] as int,
                j,
            )
        } by {
            if j < i {
                let w = entries[j].spec_key_word();
                assert(self.entries@[j] == entries[j]);
                lemma_chained_push(next, self.next@[i as int], heads[w] as int, j);
                assert(self.next@ =~= next.push(self.next@[i as int]));
            }
        }
        assert(self.entries@.no_duplicates()) by {
            assert(self.entries@ =~= entries.push(key));
            assert forall|a: int, b: int|
                0 <= a < self.entries@.len() && 0 <= b < self.entries@.len() && a
                    != b implies self.entries@[a] != self.entries@[b] by {
                if a == i {
                    assert(entries.contains(entries[b]));
                } else if b == i {
                    assert(entries.contains(entries[a]));
                }
            }
        }
        i
    }
}

proof fn lemma_chained_push(next: Seq<usize>, link: usize, from: int, i: int)
    requires
        0 <= from < next.len(),
    ensures
        chained(next.push(link), from, i) == chained(next, from, i),
    decreases from,
{
    if 0 <= next[from] < from {
        lemma_chained_push(next, link, next[from] as int, i);
    }
}

} // verus!
