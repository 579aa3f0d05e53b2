//! A map with integer keys: a hash index into dense, parallel vectors, so that
//! lookups go through the hash and walks go through memory in order.
use vstd::prelude::*;

use ahash::AHashMap;

verus! {

#[verifier::external_type_specification]
#[verifier::external_body]
#[verifier::reject_recursive_types(K)]
#[verifier::reject_recursive_types(V)]
#[verifier::reject_recursive_types(S)]
pub struct ExAHashMap<K, V, S>(AHashMap<K, V, S>);

#[verifier::external_type_specification]
#[verifier::external_body]
pub struct ExRandomState(ahash::RandomState);

/// What an `AHashMap` from keys to positions holds.
pub uninterp spec fn index_contents(m: AHashMap<u64, usize>) -> Map<u64, usize>;

/// `AHashMap::new`: the map starts out empty.
#[verifier::external_body]
fn index_new() -> (m: AHashMap<u64, usize>)
    ensures
        index_contents(m) == (Map::<u64, usize>::empty()),
{
    AHashMap::new()
}

/// `AHashMap::get`: the value stored under the key, if there is one.
#[verifier::external_body]
fn index_get(m: &AHashMap<u64, usize>, key: u64) -> (r: Option<usize>)
    ensures
        r.is_some() == index_contents(*m).contains_key(key),
        r.is_some() ==> r->0 == index_contents(*m)[key],
{
    m.get(&key).copied()
}

/// `AHashMap::insert`: the key maps to the value afterwards, other keys stay as
/// they were.
#[verifier::external_body]
fn index_insert(m: &mut AHashMap<u64, usize>, key: u64, position: usize)
    ensures
        index_contents(*final(m)) == index_contents(*old(m)).insert(key, position),
{
    m.insert(key, position);
}

/// `AHashMap::remove`: the key is gone afterwards, other keys stay as they were.
#[verifier::external_body]
fn index_remove(m: &mut AHashMap<u64, usize>, key: u64)
    ensures
        index_contents(*final(m)) == index_contents(*old(m)).remove(key),
{
    m.remove(&key);
}

/// A map from `u64` keys to values.
pub struct KeyedMap<V> {
    index: AHashMap<u64, usize>,
    keys: Vec<u64>,
    values: Vec<V>,
}

impl<V> View for KeyedMap<V> {
    type V = Map<u64, V>;

    closed spec fn view(&self) -> Map<u64, V> {
        Map::new(
            |k: u64| index_contents(self.index).contains_key(k),
            |k: u64| self.values@[index_contents(self.index)[k] as int],
        )
    }
}

impl<V> KeyedMap<V> {
    /// The index and the vectors agree.
    pub closed spec fn wf(&self) -> bool {
        let idx = index_contents(self.index);
        &&& self.keys@.len() == self.values@.len()
        &&& forall|i: int|
            0 <= i < self.keys@.len() ==> idx.contains_key(#[trigger] self.keys@[i])
                && idx[self.keys@[i]] == i
        &&& forall|k: u64| #[trigger]
            idx.contains_key(k) ==> idx[k] < self.keys@.len() && self.keys@[idx[k] as int] == k
    }

    /// The keys in the order in which a walk meets them.
    pub closed spec fn key_order(&self) -> Seq<u64> {
        self.keys@
    }

    /// A walk meets each key of the map once.
    pub proof fn lemma_key_order(&self)
        requires
            self.wf(),
        ensures
            self.key_order().no_duplicates(),
            forall|k: u64| #[trigger]
                self@.contains_key(k) <==> self.key_order().contains(k),
            self@.dom() == self.key_order().to_set(),
            self@.dom().finite(),
            self@.len() == self.key_order().len(),
    {
        assert forall|i: int, j: int|
            0 <= i < self.keys@.len() && 0 <= j < self.keys@.len() && i != j implies self.keys@[i]
            != self.keys@[j] by {}
        assert forall|k: u64| self@.contains_key(k) implies self.key_order().contains(k) by {
            let i = index_contents(self.index)[k] as int;
            assert(self.keys@[i] == k);
        }
        assert(self@.dom() =~= self.key_order().to_set());
        self.key_order().unique_seq_to_set();
    }

    pub fn new() -> (r: KeyedMap<V>)
        ensures
            r.wf(),
            r@ == Map::<u64, V>::empty(),
    {
        let r = KeyedMap { index: index_new(), keys: Vec::new(), values: Vec::new() };
        assert(r@ =~= Map::<u64, V>::empty());
        r
    }

    pub fn len(&self) -> (r: usize)
        requires
            self.wf(),
        ensures
            r == self.key_order().len(),
            r == self@.len(),
    {
        proof {
            self.lemma_key_order();
        }
        self.keys.len()
    }

    pub fn contains_key(&self, key: u64) -> (r: bool)
        requires
            self.wf(),
        ensures
            r == self@.contains_key(key),
    {
        index_get(&self.index, key).is_some()
    }

    pub fn get(&self, key: u64) -> (r: Option<&V>)
        requires
            self.wf(),
        ensures
            r == (if self@.contains_key(key) {
                Some(&self@[key])
            } else {
                None
            }),
    {
        match index_get(&self.index, key) {
            Some(i) => Some(&self.values[i]),
            None => None,
        }
    }

    /// The stored value, to be changed in place.
    pub fn get_mut(&mut self, key: u64) -> (r: Option<&mut V>)
        requires
            old(self).wf(),
        ensures
            final(self).wf(),
            r.is_some() == old(self)@.contains_key(key),
            r.is_none() ==> *final(self) == *old(self),
            r matches Some(v) ==> *v == old(self)@[key] && final(self)@ == old(self)@.insert(
                key,
                *final(v),
            ) && final(self).key_order() == old(self).key_order(),
    {
        match index_get(&self.index, key) {
            Some(i) => {
                let r = &mut self.values[i];
                Some(r)
            },
            None => None,
        }
    }

    /// Stores a value under a key, in place of what was there.
    pub fn insert(&mut self, key: u64, value: V)
        requires
            old(self).wf(),
        ensures
            final(self).wf(),
            final(self)@ == old(self)@.insert(key, value),
            final(self).key_order() == (if old(self)@.contains_key(key) {
                old(self).key_order()
            } else {
                old(self).key_order().push(key)
            }),
    {
        match index_get(&self.index, key) {
            Some(i) => {
                self.values.set(i, value);
            },
            None => {
                let i: usize = self.keys.len();
                self.keys.push(key);
                self.values.push(value);
                index_insert(&mut self.index, key, i);
            },
        }
        assert(self@ =~= old(self)@.insert(key, value));
    }

    /// Takes a value out. The last entry of the walk moves into its place.
    pub fn remove(&mut self, key: u64) -> (r: Option<V>)
        requires
            old(self).wf(),
        ensures
            final(self).wf(),
            final(self)@ == old(self)@.remove(key),
            r == (if old(self)@.contains_key(key) {
                Some(old(self)@[key])
            } else {
                None
            }),
            !old(self)@.contains_key(key) ==> *final(self) == *old(self),
    {
        match index_get(&self.index, key) {
            Some(i) => {
                let last: usize = self.keys.len() - 1;
                let moved: u64 = self.keys[last];
                index_remove(&mut self.index, key);
                if i != last {
                    index_insert(&mut self.index, moved, i);
                }
                let k: u64 = self.keys.swap_remove(i);
                let value = self.values.swap_remove(i);
                assert(self@ =~= old(self)@.remove(key));
                Some(value)
            },
            None => {
                assert(old(self)@.remove(key) =~= old(self)@);
                None
            },
        }
    }

    /// The key at a place of the walk.
    pub fn key_at(&self, i: usize) -> (r: u64)
        requires
            self.wf(),
            i < self.key_order().len(),
        ensures
            r == self.key_order()[i as int],
            self@.contains_key(r),
    {
        self.keys[i]
    }

    /// The value at a place of the walk.
    pub fn value_at(&self, i: usize) -> (r: &V)
        requires
            self.wf(),
            i < self.key_order().len(),
        ensures
            *r == self@[self.key_order()[i as int]],
    {
        &self.values[i]
    }
}

} // verus!
