//! Slots with stable handles.
use vstd::prelude::*;

use slab::Slab;

verus! {

#[verifier::external_type_specification]
#[verifier::external_body]
#[verifier::reject_recursive_types(T)]
pub struct ExSlab<T>(Slab<T>);

/// What a `Slab` of positions holds, by slot.
pub uninterp spec fn slab_contents(s: Slab<usize>) -> Map<usize, usize>;

/// `Slab::new`: nothing is stored yet.
#[verifier::external_body]
fn slab_new() -> (s: Slab<usize>)
    ensures
        slab_contents(s) == (Map::<usize, usize>::empty()),
{
    Slab::new()
}

/// `Slab::insert`: the value goes into a slot that was vacant, whose key is
/// returned; other slots stay as they were.
#[verifier::external_body]
fn slab_insert(s: &mut Slab<usize>, position: usize) -> (key: usize)
    ensures
        !slab_contents(*old(s)).contains_key(key),
        slab_contents(*final(s)) == slab_contents(*old(s)).insert(key, position),
{
    s.insert(position)
}

/// `Slab::get`: the value in the slot, if the slot is occupied.
#[verifier::external_body]
fn slab_get(s: &Slab<usize>, key: usize) -> (r: Option<usize>)
    ensures
        r.is_some() == slab_contents(*s).contains_key(key),
        r.is_some() ==> r->0 == slab_contents(*s)[key],
{
    s.get(key).copied()
}

/// `Slab::index_mut`: writes to an occupied slot; other slots stay as they were.
#[verifier::external_body]
fn slab_set(s: &mut Slab<usize>, key: usize, position: usize)
    requires
        slab_contents(*old(s)).contains_key(key),
    ensures
        slab_contents(*final(s)) == slab_contents(*old(s)).insert(key, position),
{
    s[key] = position;
}

/// `Slab::remove`: the slot is vacant afterwards and its value is returned;
/// other slots stay as they were.
#[verifier::external_body]
fn slab_remove(s: &mut Slab<usize>, key: usize) -> (r: usize)
    requires
        slab_contents(*old(s)).contains_key(key),
    ensures
        r == slab_contents(*old(s))[key],
        slab_contents(*final(s)) == slab_contents(*old(s)).remove(key),
{
    s.remove(key)
}

/// Values that keep their handle while they are stored. The handles come from a
/// slab; the values lie side by side.
pub struct Arena<T> {
    slots: Slab<usize>,
    handles: Vec<usize>,
    values: Vec<T>,
}

impl<T> View for Arena<T> {
    type V = Map<usize, T>;

    closed spec fn view(&self) -> Map<usize, T> {
        Map::new(
            |h: usize| slab_contents(self.slots).contains_key(h),
            |h: usize| self.values@[slab_contents(self.slots)[h] as int],
        )
    }
}

impl<T: Copy> Arena<T> {
    /// The slots and the vectors agree.
    pub closed spec fn wf(&self) -> bool {
        let at = slab_contents(self.slots);
        &&& self.handles@.len() == self.values@.len()
        &&& forall|i: int|
            0 <= i < self.handles@.len() ==> at.contains_key(#[trigger] self.handles@[i])
                && at[self.handles@[i]] == i
        &&& forall|h: usize| #[trigger]
            at.contains_key(h) ==> at[h] < self.handles@.len() && self.handles@[at[h] as int] == h
    }

    /// The arena holds finitely many values.
    pub proof fn lemma_finite(&self)
        requires
            self.wf(),
        ensures
            self@.dom().finite(),
    {
        assert forall|h: usize| self@.contains_key(h) implies self.handles@.contains(h) by {
            let i = slab_contents(self.slots)[h] as int;
            assert(self.handles@[i] == h);
        }
        assert(self@.dom() =~= self.handles@.to_set());
        vstd::seq_lib::seq_to_set_is_finite(self.handles@);
    }

    /// There are no more values than a machine word can count.
    pub proof fn lemma_len_bound(&self)
        requires
            self.wf(),
        ensures
            self@.dom().finite(),
            self@.len() <= usize::MAX,
    {
        self.lemma_finite();
        self.handles@.unique_seq_to_set();
        assert forall|h: usize| self@.contains_key(h) implies self.handles@.contains(h) by {
            let i = slab_contents(self.slots)[h] as int;
            assert(self.handles@[i] == h);
        }
        assert(self@.dom() =~= self.handles@.to_set());
        assert(self.handles.len() <= usize::MAX);
    }

    pub fn new() -> (r: Arena<T>)
        ensures
            r.wf(),
            r@ == Map::<usize, T>::empty(),
    {
        let r = Arena { slots: slab_new(), handles: Vec::new(), values: Vec::new() };
        assert(r@ =~= Map::<usize, T>::empty());
        r
    }

    /// How many values are stored.
    pub fn len(&self) -> (r: usize)
        requires
            self.wf(),
        ensures
            r == self@.len(),
    {
        proof {
            self.lemma_finite();
            assert(self.handles@.no_duplicates());
            self.handles@.unique_seq_to_set();
            assert forall|h: usize| self@.contains_key(h) implies self.handles@.contains(h) by {
                let i = slab_contents(self.slots)[h] as int;
                assert(self.handles@[i] == h);
            }
            assert(self@.dom() =~= self.handles@.to_set());
        }
        self.handles.len()
    }

    pub fn contains(&self, handle: usize) -> (r: bool)
        requires
            self.wf(),
        ensures
            r == self@.contains_key(handle),
    {
        slab_get(&self.slots, handle).is_some()
    }

    pub fn get(&self, handle: usize) -> (r: T)
        requires
            self.wf(),
            self@.contains_key(handle),
        ensures
            r == self@[handle],
    {
        match slab_get(&self.slots, handle) {
            Some(i) => self.values[i],
            None => {
                assert(false);
                self.values[0]
            },
        }
    }

    /// Overwrites the value behind a handle.
    pub fn set(&mut self, handle: usize, value: T)
        requires
            old(self).wf(),
            old(self)@.contains_key(handle),
        ensures
            final(self).wf(),
            final(self)@ == old(self)@.insert(handle, value),
    {
        match slab_get(&self.slots, handle) {
            Some(i) => {
                self.values.set(i, value);
            },
            None => {},
        }
        assert(self@ =~= old(self)@.insert(handle, value));
    }

    /// Stores a value and hands out its handle.
    pub fn insert(&mut self, value: T) -> (handle: usize)
        requires
            old(self).wf(),
        ensures
            final(self).wf(),
            !old(self)@.contains_key(handle),
            final(self)@ == old(self)@.insert(handle, value),
    {
        let i: usize = self.values.len();
        let handle: usize = slab_insert(&mut self.slots, i);
        self.handles.push(handle);
        self.values.push(value);
        assert(self@ =~= old(self)@.insert(handle, value));
        handle
    }

    /// Takes the value behind a handle out. The handle may be given to a later
    /// value.
    pub fn remove(&mut self, handle: usize) -> (r: T)
        requires
            old(self).wf(),
            old(self)@.contains_key(handle),
        ensures
            final(self).wf(),
            r == old(self)@[handle],
            final(self)@ == old(self)@.remove(handle),
    {
        let i: usize = slab_remove(&mut self.slots, handle);
        let last: usize = self.handles.len() - 1;
        let moved: usize = self.handles[last];
        if i != last {
            slab_set(&mut self.slots, moved, i);
        }
        let h: usize = self.handles.swap_remove(i);
        let value = self.values.swap_remove(i);
        assert(self@ =~= old(self)@.remove(handle));
        value
    }
}

} // verus!
