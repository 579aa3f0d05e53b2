//! A map keyed by 32-bit codes, kept under the `u64` keys of a [`KeyedMap`].
use vstd::prelude::*;

use crate::store::keyed::KeyedMap;

verus! {

/// The key of a code.
pub open spec fn key_of(code: i32) -> u64 {
    (code + 0x8000_0000) as u64
}

fn key(code: i32) -> (r: u64)
    ensures
        r == key_of(code),
{
    (code as i64 + 0x8000_0000) as u64
}

/// The code of a key.
pub open spec fn code_of(key: u64) -> i32 {
    (key - 0x8000_0000) as i32
}

/// What a map under keys holds under codes.
pub open spec fn by_code<V>(m: Map<u64, V>) -> Map<i32, V> {
    Map::new(|c: i32| m.contains_key(key_of(c)), |c: i32| m[key_of(c)])
}

pub struct CodeMap<V> {
    entries: KeyedMap<V>,
}

impl<V> View for CodeMap<V> {
    type V = Map<i32, V>;

    closed spec fn view(&self) -> Map<i32, V> {
        by_code(self.entries@)
    }
}

impl<V> CodeMap<V> {
    pub closed spec fn wf(&self) -> bool {
        &&& self.entries.wf()
        &&& forall|k: u64| #[trigger] self.entries@.contains_key(k) ==> k <= 0xffff_ffff
    }

    /// The codes in the order in which a walk meets them.
    pub closed spec fn code_order(&self) -> Seq<i32> {
        Seq::new(self.entries.key_order().len(), |i: int| code_of(self.entries.key_order()[i]))
    }

    /// A walk meets each code of the map.
    pub proof fn lemma_code_order(&self)
        requires
            self.wf(),
        ensures
            forall|c: i32| #[trigger]
                self@.contains_key(c) ==> exists|i: int|
                    0 <= i < self.code_order().len() && #[trigger] self.code_order()[i] == c,
            forall|i: int|
                0 <= i < self.code_order().len() ==> self@.contains_key(
                    #[trigger] self.code_order()[i],
                ),
    {
        self.entries.lemma_key_order();
        let keys = self.entries.key_order();
        assert forall|c: i32| #[trigger] self@.contains_key(c) implies exists|i: int|
            0 <= i < self.code_order().len() && #[trigger] self.code_order()[i] == c by {
            assert(keys.contains(key_of(c)));
            let i = choose|i: int| 0 <= i < keys.len() && keys[i] == key_of(c);
            assert(self.code_order()[i] == c);
        }
        assert forall|i: int| 0 <= i < self.code_order().len() implies self@.contains_key(
            #[trigger] self.code_order()[i],
        ) by {
            assert(keys.contains(keys[i]));
            assert(self.entries@.contains_key(keys[i]));
            assert(key_of(code_of(keys[i])) == keys[i]);
        }
    }

    pub fn len(&self) -> (r: usize)
        requires
            self.wf(),
        ensures
            r == self.code_order().len(),
    {
        self.entries.len()
    }

    /// The code at a place of the walk.
    pub fn code_at(&self, i: usize) -> (r: i32)
        requires
            self.wf(),
            i < self.code_order().len(),
        ensures
            r == self.code_order()[i as int],
    {
        (self.entries.key_at(i) as i64 - 0x8000_0000) as i32
    }

    /// The value at a place of the walk.
    pub fn value_at(&self, i: usize) -> (r: &V)
        requires
            self.wf(),
            i < self.code_order().len(),
        ensures
            *r == self@[self.code_order()[i as int]],
    {
        proof {
            self.entries.lemma_key_order();
            let k = self.entries.key_order()[i as int];
            assert(self.entries.key_order().contains(k));
            assert(self.entries@.contains_key(k));
            assert(key_of(code_of(k)) == k);
        }
        self.entries.value_at(i)
    }

    pub fn new() -> (r: CodeMap<V>)
        ensures
            r.wf(),
            r@ == Map::<i32, V>::empty(),
    {
        let r = CodeMap { entries: KeyedMap::new() };
        assert(r@ =~= Map::<i32, V>::empty());
        r
    }

    pub fn contains_key(&self, code: i32) -> (r: bool)
        requires
            self.wf(),
        ensures
            r == self@.contains_key(code),
    {
        self.entries.contains_key(key(code))
    }

    pub fn get(&self, code: i32) -> (r: Option<&V>)
        requires
            self.wf(),
        ensures
            r == (if self@.contains_key(code) {
                Some(&self@[code])
            } else {
                None
            }),
    {
        self.entries.get(key(code))
    }

    /// The stored value, to be changed in place.
    pub fn get_mut(&mut self, code: i32) -> (r: Option<&mut V>)
        requires
            old(self).wf(),
        ensures
            final(self).wf(),
            r.is_some() == old(self)@.contains_key(code),
            r.is_none() ==> *final(self) == *old(self),
            r matches Some(v) ==> *v == old(self)@[code] && final(self)@ == old(self)@.insert(
                code,
                *final(v),
            ),
    {
        let ghost m = self.entries@;
        proof {
            assert forall|v: V|
                m.contains_key(key_of(code)) implies #[trigger] by_code(m.insert(key_of(code), v))
                == by_code(m).insert(code, v) by {
                assert(by_code(m.insert(key_of(code), v)) =~= by_code(m).insert(code, v));
            }
        }
        self.entries.get_mut(key(code))
    }

    /// Stores a value under a code, in place of what was there.
    pub fn insert(&mut self, code: i32, value: V)
        requires
            old(self).wf(),
        ensures
            final(self).wf(),
            final(self)@ == old(self)@.insert(code, value),
    {
        self.entries.insert(key(code), value);
        assert(self@ =~= old(self)@.insert(code, value));
    }

    /// A map has finitely many codes.
    pub proof fn lemma_finite(&self)
        requires
            self.wf(),
        ensures
            self@.dom().finite(),
    {
        self.entries.lemma_key_order();
        let codes = self.entries@.dom().map(|k: u64| (k - 0x8000_0000) as i32);
        self.entries@.dom().lemma_map_finite(|k: u64| (k - 0x8000_0000) as i32);
        assert forall|c: i32| self@.dom().contains(c) implies codes.contains(c) by {
            assert(self.entries@.dom().contains(key_of(c)));
            assert((key_of(c) - 0x8000_0000) as i32 == c);
        }
        assert(self@.dom().subset_of(codes));
        vstd::set_lib::lemma_len_subset(self@.dom(), codes);
    }
}

} // verus!
