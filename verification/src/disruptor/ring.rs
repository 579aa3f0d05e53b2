//! The ring.
use vstd::prelude::*;

use crate::disruptor::sequence::Sequence;
use crate::math;

verus! {

/// Whether a producer may claim a sequence: no consumer may be more than a lap
/// behind it.
pub open spec fn may_claim(next: int, capacity: int, gating: Seq<Sequence>) -> bool {
    next - capacity >= 0 ==> forall|i: int|
        0 <= i < gating.len() ==> (#[trigger] gating[i])@ >= next - capacity
}

/// The slot of a sequence.
pub open spec fn slot_of(seq: int, capacity: int) -> int {
    seq % capacity
}

/// A ring of slots for one producer. The slot of a sequence belongs to the
/// producer until it publishes the sequence, and then to the consumers until all
/// of them have gone past it.
pub struct RingBuffer<T> {
    buffer: Vec<T>,
    cursor: Sequence,
    gating: Vec<Sequence>,
}

impl<T> RingBuffer<T> {
    pub closed spec fn slots(&self) -> Seq<T> {
        self.buffer@
    }

    /// The highest sequence that was published.
    pub closed spec fn published(&self) -> Sequence {
        self.cursor
    }

    /// How far each consumer has read.
    pub closed spec fn consumers(&self) -> Seq<Sequence> {
        self.gating@
    }

    pub closed spec fn wf(&self) -> bool {
        &&& math::power_of_two(self.buffer@.len() as int)
        &&& self.buffer@.len() <= i64::MAX
    }

    /// Number of slots, a power of two.
    pub fn capacity(&self) -> (r: usize)
        ensures
            r == self.slots().len(),
    {
        self.buffer.len()
    }

    /// The last sequence that the producer published.
    pub fn cursor(&self) -> (r: &Sequence)
        ensures
            *r == self.published(),
    {
        &self.cursor
    }

    /// Adds a consumer that the producer must not overrun. Answers with the place
    /// of the consumer.
    pub fn add_gating(&mut self, seq: Sequence) -> (r: usize)
        requires
            old(self).wf(),
        ensures
            final(self).wf(),
            r == old(self).consumers().len(),
            final(self).consumers() == old(self).consumers().push(seq),
            final(self).slots() == old(self).slots(),
            final(self).published() == old(self).published(),
    {
        let at: usize = self.gating.len();
        self.gating.push(seq);
        at
    }

    /// Notes how far a consumer has read.
    pub fn advance(&mut self, consumer: usize, seq: i64)
        requires
            old(self).wf(),
            consumer < old(self).consumers().len(),
        ensures
            final(self).wf(),
            final(self).consumers().len() == old(self).consumers().len(),
            final(self).consumers()[consumer as int]@ == seq,
            forall|i: int|
                0 <= i < old(self).consumers().len() && i != consumer ==> #[trigger] final(self).consumers()[i] == old(self).consumers()[i],
            final(self).slots() == old(self).slots(),
            final(self).published() == old(self).published(),
    {
        self.gating.set(consumer, Sequence::new(seq));
    }

    /// One look of a producer that wants the next sequence: that sequence, or none
    /// where a consumer is too far behind.
    pub fn try_next_seq(&self, current: i64) -> (r: Option<i64>)
        requires
            self.wf(),
            -1 <= current < i64::MAX,
        ensures
            r.is_some() == may_claim(current + 1, self.slots().len() as int, self.consumers()),
            r matches Some(n) ==> n == current + 1,
    {
        let next: i64 = current + 1;
        let wrap_point: i64 = next - self.buffer.len() as i64;
        if wrap_point >= 0 {
            let mut i: usize = 0;
            while i < self.gating.len()
                invariant
                    i <= self.gating@.len(),
                    wrap_point >= 0,
                    wrap_point == next - self.buffer@.len(),
                    next == current + 1,
                    forall|j: int| 0 <= j < i ==> (#[trigger] self.gating@[j])@ >= wrap_point,
                decreases self.gating.len() - i,
            {
                if self.gating[i].get() < wrap_point {
                    return None;
                }
                i = i + 1;
            }
        }
        Some(next)
    }

    /// The next sequence, once no consumer is too far behind.
    pub fn next_seq(&self, current: i64) -> (r: i64)
        requires
            self.wf(),
            -1 <= current < i64::MAX,
            may_claim(current + 1, self.slots().len() as int, self.consumers()),
        ensures
            r == current + 1,
    {
        current + 1
    }

    fn index_of(&self, seq: i64) -> (r: usize)
        requires
            self.wf(),
            0 <= seq,
        ensures
            r == slot_of(seq as int, self.slots().len() as int),
            r < self.slots().len(),
    {
        (seq as u64 % self.buffer.len() as u64) as usize
    }

    /// The slot of a sequence, for the producer that has claimed it and not yet
    /// published it.
    pub fn slot_mut(&mut self, seq: i64) -> (r: &mut T)
        requires
            old(self).wf(),
            0 <= seq,
        ensures
            final(self).wf(),
            *r == old(self).slots()[slot_of(seq as int, old(self).slots().len() as int)],
            final(self).slots() == old(self).slots().update(
                slot_of(seq as int, old(self).slots().len() as int),
                *final(r),
            ),
            final(self).published() == old(self).published(),
            final(self).consumers() == old(self).consumers(),
    {
        let i: usize = self.index_of(seq);
        &mut self.buffer[i]
    }

    /// The slot of a published sequence.
    pub fn slot(&self, seq: i64) -> (r: &T)
        requires
            self.wf(),
            0 <= seq,
        ensures
            *r == self.slots()[slot_of(seq as int, self.slots().len() as int)],
    {
        let i: usize = self.index_of(seq);
        &self.buffer[i]
    }

    /// Shows a sequence to the consumers. A producer publishes in ascending order
    /// and leaves none out.
    pub fn publish(&mut self, seq: i64)
        requires
            old(self).wf(),
        ensures
            final(self).wf(),
            final(self).published()@ == seq,
            final(self).slots() == old(self).slots(),
            final(self).consumers() == old(self).consumers(),
    {
        self.cursor.set(seq);
    }
}

impl<T: Default> RingBuffer<T> {
    /// A ring in which nothing was published.
    pub fn new(capacity: usize) -> (r: RingBuffer<T>)
        requires
            math::power_of_two(capacity as int),
            capacity <= i64::MAX,
        ensures
            r.wf(),
            r.slots().len() == capacity,
            forall|i: int|
                0 <= i < capacity ==> call_ensures(T::default, (), #[trigger] r.slots()[i]),
            r.published()@ == -1,
            r.consumers().len() == 0,
    {
        let mut buffer: Vec<T> = Vec::new();
        while buffer.len() < capacity
            invariant
                buffer@.len() <= capacity,
                forall|i: int|
                    0 <= i < buffer@.len() ==> call_ensures(T::default, (), #[trigger] buffer@[i]),
            decreases capacity - buffer@.len(),
        {
            buffer.push(T::default());
        }
        RingBuffer { buffer, cursor: Sequence::new(-1), gating: Vec::new() }
    }
}

/// Whether a number of slots will do.
pub fn valid_capacity(capacity: usize) -> (r: bool)
    ensures
        r == math::power_of_two(capacity as int),
{
    let mut n: usize = capacity;
    while n > 1 && n % 2 == 0
        invariant
            math::power_of_two(capacity as int) == math::power_of_two(n as int),
        decreases n,
    {
        n = n / 2;
    }
    n == 1
}

/// A claimed slot holds nothing that a consumer has still to read: every
/// sequence between what a consumer has read and the claimed one has another
/// slot.
pub proof fn law_claim_overwrites_nothing(
    next: int,
    capacity: int,
    gating: Seq<Sequence>,
    i: int,
    seq: int,
)
    requires
        capacity > 0,
        may_claim(next, capacity, gating),
        0 <= i < gating.len(),
        0 <= seq,
        gating[i]@ < seq < next,
    ensures
        slot_of(seq, capacity) != slot_of(next, capacity),
{
    assert(next - seq < capacity) by {
        if next - capacity >= 0 {
            assert(gating[i]@ >= next - capacity);
        }
    }
    if seq % capacity == next % capacity {
        vstd::arithmetic::div_mod::lemma_fundamental_div_mod(seq, capacity);
        vstd::arithmetic::div_mod::lemma_fundamental_div_mod(next, capacity);
        let d = next / capacity - seq / capacity;
        assert(capacity * d == next - seq) by (nonlinear_arith)
            requires
                d == next / capacity - seq / capacity,
                next == capacity * (next / capacity) + next % capacity,
                seq == capacity * (seq / capacity) + seq % capacity,
                seq % capacity == next % capacity,
        ;
        assert(d >= 1) by (nonlinear_arith)
            requires
                capacity * d > 0,
                capacity > 0,
        ;
        assert(capacity * d >= capacity) by (nonlinear_arith)
            requires
                d >= 1,
                capacity > 0,
        ;
    }
}

/// A claim is turned down only where it would overwrite something: the slot then holds a sequence
/// that some consumer has still to read.
pub proof fn law_claims_wait_for_consumers(next: int, capacity: int, gating: Seq<Sequence>)
    requires
        capacity > 0,
        !may_claim(next, capacity, gating),
    ensures
        exists|i: int|
            0 <= i < gating.len() && (#[trigger] gating[i])@ < next - capacity && slot_of(
                next - capacity,
                capacity,
            ) == slot_of(next, capacity) && 0 <= next - capacity < next,
{
    let i = choose|i: int| 0 <= i < gating.len() && (#[trigger] gating[i])@ < next - capacity;
    assert(gating[i]@ < next - capacity);
    vstd::arithmetic::div_mod::lemma_mod_sub_multiples_vanish(next, capacity);
}

} // verus!
