//! Counters of a ring.
use vstd::prelude::*;

verus! {

/// A counter. Minus one means that nothing has happened yet.
#[derive(Debug, Clone, Copy, PartialEq, Eq, Structural)]
pub struct Sequence {
    value: i64,
}

impl View for Sequence {
    type V = int;

    closed spec fn view(&self) -> int {
        self.value as int
    }
}

impl Sequence {
    pub fn new(initial: i64) -> (r: Sequence)
        ensures
            r@ == initial,
    {
        Sequence { value: initial }
    }

    pub fn get(&self) -> (r: i64)
        ensures
            r == self@,
    {
        self.value
    }

    pub fn set(&mut self, val: i64)
        ensures
            final(self)@ == val,
    {
        self.value = val;
    }

    /// Stores a new value where the present one is as expected. Answers with the
    /// value that was there.
    pub fn compare_exchange(&mut self, expected: i64, new: i64) -> (r: Result<i64, i64>)
        ensures
            old(self)@ == expected ==> r == Ok::<i64, i64>(expected) && final(self)@ == new,
            old(self)@ != expected ==> r is Err && r->Err_0 == old(self)@ && *final(self) == *old(
                self,
            ),
    {
        let was: i64 = self.value;
        if was == expected {
            self.value = new;
            Ok(was)
        } else {
            Err(was)
        }
    }
}

impl Default for Sequence {
    fn default() -> (r: Sequence)
        ensures
            r@ == -1,
    {
        Sequence::new(-1)
    }
}

} // verus!
