//! Commands that wait for the engine in a ring: one side puts them in, the other one
//! takes them out and has them applied.
use vstd::prelude::*;

use crate::disruptor::ring;
use crate::disruptor::ring::RingBuffer;
use crate::disruptor::sequence::Sequence;
use crate::engine::facade;
use crate::engine::facade::MatchingEngine;
use crate::engine::lemmas;
use crate::engine::model;
use crate::engine::model::{Answer, EngineModel};
use crate::math;
use crate::types::command::Command;
use crate::types::ids::Timestamp;
use crate::types::receipt::{CommandReceipt, ReceiptModel};

verus! {

/// A command in the ring.
#[derive(Debug, Clone, Copy)]
pub struct PipelineEvent {
    pub cmd: Command,
    pub ts: Timestamp,
}

impl Default for PipelineEvent {
    fn default() -> (r: PipelineEvent)
        ensures
            r == (PipelineEvent { cmd: Command::Nop, ts: Timestamp(0) }),
    {
        PipelineEvent { cmd: Command::Nop, ts: Timestamp(0) }
    }
}

/// An engine and the commands that wait for it, the oldest first.
#[verifier::ext_equal]
pub struct QueueModel {
    pub engine: EngineModel,
    pub waiting: Seq<(Command, Timestamp)>,
    /// How many commands can wait.
    pub capacity: int,
    /// The sequence of the command that was put in last.
    pub last: int,
}

/// An engine behind a ring of commands.
pub struct AsyncMatchingEngine {
    engine: MatchingEngine,
    ring: RingBuffer<PipelineEvent>,
    producer_cursor: i64,
    consumer_cursor: i64,
}

/// The commands in the slots of some sequences.
spec fn commands_in(slots: Seq<PipelineEvent>, taken: int, last: int) -> Seq<(Command, Timestamp)> {
    Seq::new(
        (last - taken) as nat,
        |i: int|
            {
                let e = slots[ring::slot_of(taken + 1 + i, slots.len() as int)];
                (e.cmd, e.ts)
            },
    )
}

/// An engine after a command, and its answer.
#[verifier::opaque]
spec fn answer(e: EngineModel, c: (Command, Timestamp)) -> Answer {
    model::submit(e, c.0, c.1)
}

/// An engine after some commands, and its answers.
spec fn served(e: EngineModel, cmds: Seq<(Command, Timestamp)>) -> (EngineModel, Seq<ReceiptModel>)
    decreases cmds.len(),
{
    if cmds.len() == 0 {
        (e, Seq::empty())
    } else {
        let (before, receipts) = served(e, cmds.drop_last());
        let (after, r) = answer(before, cmds.last());
        (after, receipts.push(r))
    }
}

proof fn lemma_served(e: EngineModel, cmds: Seq<(Command, Timestamp)>)
    ensures
        served(e, cmds) == model::submit_each(e, cmds),
    decreases cmds.len(),
{
    if cmds.len() > 0 {
        lemma_served(e, cmds.drop_last());
        reveal(answer);
    }
}

/// Sequences less than a lap apart have different slots.
proof fn lemma_slots_differ(a: int, b: int, capacity: int)
    requires
        0 <= a < b,
        b - a < capacity,
    ensures
        ring::slot_of(a, capacity) != ring::slot_of(b, capacity),
{
    if a % capacity == b % capacity {
        vstd::arithmetic::div_mod::lemma_fundamental_div_mod(a, capacity);
        vstd::arithmetic::div_mod::lemma_fundamental_div_mod(b, capacity);
        let laps = b / capacity - a / capacity;
        assert(b - a == capacity * laps) by (nonlinear_arith)
            requires
                a == capacity * (a / capacity) + a % capacity,
                b == capacity * (b / capacity) + b % capacity,
                a % capacity == b % capacity,
                laps == b / capacity - a / capacity,
        ;
        assert(false) by (nonlinear_arith)
            requires
                b - a == capacity * laps,
                0 < b - a < capacity,
        ;
    }
}

impl View for AsyncMatchingEngine {
    type V = QueueModel;

    closed spec fn view(&self) -> QueueModel {
        QueueModel {
            engine: self.engine@,
            waiting: commands_in(
                self.ring.slots(),
                self.consumer_cursor as int,
                self.producer_cursor as int,
            ),
            capacity: self.ring.slots().len() as int,
            last: self.producer_cursor as int,
        }
    }
}

impl AsyncMatchingEngine {
    /// The consumer is behind the producer, by no more than a lap.
    pub closed spec fn wf(&self) -> bool {
        &&& self.engine.wf()
        &&& self.ring.wf()
        &&& self.ring.slots().len() > 0
        &&& self.ring.published()@ == self.producer_cursor
        &&& self.ring.consumers().len() == 1
        &&& self.ring.consumers()[0]@ == self.consumer_cursor
        &&& -1 <= self.consumer_cursor <= self.producer_cursor
        &&& self.producer_cursor - self.consumer_cursor <= self.ring.slots().len()
    }

    pub fn new(engine: MatchingEngine, ring_size: usize) -> (r: AsyncMatchingEngine)
        requires
            engine.wf(),
            math::power_of_two(ring_size as int),
            ring_size <= i64::MAX,
        ensures
            r.wf(),
            r@ == (QueueModel {
                engine: engine@,
                waiting: Seq::empty(),
                capacity: ring_size as int,
                last: -1,
            }),
    {
        let mut ring: RingBuffer<PipelineEvent> = RingBuffer::new(ring_size);
        let consumer: usize = ring.add_gating(Sequence::new(-1));
        let r = AsyncMatchingEngine { engine, ring, producer_cursor: -1, consumer_cursor: -1 };
        assert(r@.waiting =~= Seq::<(Command, Timestamp)>::empty());
        r
    }

    pub fn engine(&self) -> (r: &MatchingEngine)
        ensures
            r@ == self@.engine,
            self.wf() ==> r.wf(),
    {
        &self.engine
    }

    /// Puts a command in. Returns the sequence under which it is answered, or `None`
    /// where the ring is full.
    pub fn submit(&mut self, cmd: Command, ts: Timestamp) -> (r: Option<i64>)
        requires
            old(self).wf(),
            old(self)@.last < i64::MAX,
        ensures
            final(self).wf(),
            r == (if old(self)@.waiting.len() < old(self)@.capacity {
                Some((old(self)@.last + 1) as i64)
            } else {
                None
            }),
            final(self)@ == (if r.is_some() {
                QueueModel {
                    waiting: old(self)@.waiting.push((cmd, ts)),
                    last: old(self)@.last + 1,
                    ..old(self)@
                }
            } else {
                old(self)@
            }),
    {
        let ghost before = self@.waiting;
        let ghost n = self.ring.slots().len() as int;
        proof {
            assert(self.ring.consumers()[0]@ == self.consumer_cursor);
        }
        match self.ring.try_next_seq(self.producer_cursor) {
            None => None,
            Some(seq) => {
                *self.ring.slot_mut(seq) = PipelineEvent { cmd, ts };
                self.ring.publish(seq);
                self.producer_cursor = seq;
                proof {
                    let taken = self.consumer_cursor as int;
                    assert forall|i: int| 0 <= i < before.len() implies self@.waiting[i]
                        == #[trigger] before[i] by {
                        lemma_slots_differ(taken + 1 + i, seq as int, n);
                    }
                    assert(self@.waiting =~= before.push((cmd, ts)));
                }
                Some(seq)
            },
        }
    }

    /// Takes the oldest command out and has it applied. Returns its sequence and its
    /// receipt, or `None` where nothing waits.
    pub fn serve(&mut self) -> (r: Option<(i64, CommandReceipt)>)
        requires
            old(self).wf(),
            old(self)@.waiting.len() > 0 ==> model::submit(
                old(self)@.engine,
                old(self)@.waiting[0].0,
                old(self)@.waiting[0].1,
            ).0.exact(),
        ensures
            final(self).wf(),
            r.is_some() == (old(self)@.waiting.len() > 0),
            r.is_none() ==> final(self)@ == old(self)@,
            r matches Some((seq, receipt)) ==> {
                let oldest = old(self)@.waiting[0];
                let answer = model::submit(old(self)@.engine, oldest.0, oldest.1);
                &&& seq == old(self)@.last + 1 - old(self)@.waiting.len()
                &&& receipt@ == answer.1
                &&& final(self)@ == (QueueModel {
                    engine: answer.0,
                    waiting: old(self)@.waiting.drop_first(),
                    ..old(self)@
                })
            },
    {
        if self.consumer_cursor == self.producer_cursor {
            return None;
        }
        let ghost before = self@.waiting;
        let seq: i64 = self.consumer_cursor + 1;
        let event = *self.ring.slot(seq);
        proof {
            assert(before[0] == (event.cmd, event.ts));
        }
        let receipt = self.engine.submit(event.cmd, event.ts);
        self.ring.advance(0, seq);
        self.consumer_cursor = seq;
        proof {
            assert(self@.waiting =~= before.drop_first());
        }
        Some((seq, receipt))
    }

    /// Has all waiting commands applied, and gives the engine back with their receipts.
    pub fn shutdown(self) -> (r: (MatchingEngine, Vec<CommandReceipt>))
        requires
            self.wf(),
            model::submit_each(self@.engine, self@.waiting).0.exact(),
        ensures
            r.0.wf(),
            r.0@ == model::submit_each(self@.engine, self@.waiting).0,
            facade::receipts_of(r.1@) == model::submit_each(self@.engine, self@.waiting).1,
    {
        let ghost e = self@.engine;
        let ghost w = self@.waiting;
        let mut q = self;
        let mut receipts: Vec<CommandReceipt> = Vec::new();
        proof {
            lemma_served(e, w);
            assert(w.take(0) =~= Seq::<(Command, Timestamp)>::empty());
            assert(w.skip(0) =~= w);
            assert(facade::receipts_of(receipts@) =~= Seq::<ReceiptModel>::empty());
        }
        loop
            invariant
                q.wf(),
                receipts@.len() <= w.len(),
                served(e, w).0.exact(),
                q@.waiting == w.skip(receipts@.len() as int),
                (q@.engine, facade::receipts_of(receipts@)) == served(
                    e,
                    w.take(receipts@.len() as int),
                ),
            ensures
                q.wf(),
                (q@.engine, facade::receipts_of(receipts@)) == served(e, w),
            decreases w.len() - receipts@.len(),
        {
            let ghost k = receipts@.len() as int;
            let ghost before = receipts@;
            let ghost oldest = w[k];
            proof {
                if k < w.len() {
                    lemma_served_exact(e, w, k + 1);
                    assert(w.take(k + 1).drop_last() =~= w.take(k));
                    assert(w.skip(k)[0] == oldest);
                    reveal(answer);
                }
            }
            match q.serve() {
                None => {
                    assert(w.take(k) =~= w);
                    break ;
                },
                Some((seq, receipt)) => {
                    receipts.push(receipt);
                    proof {
                        assert(w.skip(k).drop_first() =~= w.skip(k + 1));
                        assert(facade::receipts_of(receipts@) =~= facade::receipts_of(before).push(
                            receipt@,
                        ));
                    }
                },
            }
        }
        (q.engine, receipts)
    }
}

/// Commands are applied exactly only where the ones before them were.
proof fn lemma_served_exact(e: EngineModel, cmds: Seq<(Command, Timestamp)>, k: int)
    requires
        0 <= k <= cmds.len(),
        served(e, cmds).0.exact(),
    ensures
        served(e, cmds.take(k)).0.exact(),
    decreases cmds.len(),
{
    if k == cmds.len() {
        assert(cmds.take(k) =~= cmds);
    } else {
        let rest = cmds.drop_last();
        lemma_answer_exact(served(e, rest).0, cmds.last());
        lemma_served_exact(e, rest, k);
        assert(rest.take(k) =~= cmds.take(k));
    }
}

proof fn lemma_answer_exact(e: EngineModel, c: (Command, Timestamp))
    requires
        answer(e, c).0.exact(),
    ensures
        e.exact(),
{
    reveal(answer);
    lemmas::lemma_envelope_exact(e, model::next_envelope(e, c.0, c.1));
}

proof fn lemma_oldest_first(e: EngineModel, cmds: Seq<(Command, Timestamp)>)
    requires
        cmds.len() > 0,
    ensures
        served(e, cmds).0 == served(answer(e, cmds[0]).0, cmds.drop_first()).0,
    decreases cmds.len(),
{
    if cmds.len() == 1 {
        assert(cmds.drop_last() =~= Seq::<(Command, Timestamp)>::empty());
        assert(cmds.drop_first() =~= Seq::<(Command, Timestamp)>::empty());
        assert(served(e, cmds.drop_last()).0 == e);
    } else {
        lemma_oldest_first(e, cmds.drop_last());
        assert(cmds.drop_last()[0] == cmds[0]);
        assert(cmds.drop_last().drop_first() =~= cmds.drop_first().drop_last());
        assert(cmds.drop_first().last() == cmds.last());
    }
}

/// It makes no difference when the commands that wait are served: the oldest one first
/// and the others afterwards gives what all of them in turn give.
pub proof fn law_order_is_kept(e: EngineModel, cmds: Seq<(Command, Timestamp)>)
    requires
        cmds.len() > 0,
    ensures
        model::submit_each(e, cmds).0 == model::submit_each(
            model::submit(e, cmds[0].0, cmds[0].1).0,
            cmds.drop_first(),
        ).0,
{
    let first = answer(e, cmds[0]).0;
    lemma_oldest_first(e, cmds);
    lemma_served(e, cmds);
    lemma_served(first, cmds.drop_first());
    reveal(answer);
}

} // verus!
