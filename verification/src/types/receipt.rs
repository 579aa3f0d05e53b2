//! The outcome of a command.
use vstd::prelude::*;

use smallvec::SmallVec;

use crate::types::event::Event;
use crate::types::ids::SeqNo;
use crate::types::reject::RejectReason;

verus! {

/// The events of one command, in the order in which they happened. Few
/// commands have more than four, so that many fit without an allocation.
#[verifier::external_body]
#[derive(Debug)]
pub struct EventList {
    inner: SmallVec<[Event; 4]>,
}

/// What a `SmallVec` of events holds.
pub uninterp spec fn event_list(l: EventList) -> Seq<Event>;

/// `SmallVec::new`: nothing is stored yet.
#[verifier::external_body]
fn event_list_new() -> (l: EventList)
    ensures
        event_list(l) == (Seq::<Event>::empty()),
{
    EventList { inner: SmallVec::new() }
}

/// `SmallVec::push`: the event goes to the end.
#[verifier::external_body]
fn event_list_push(l: &mut EventList, event: Event)
    ensures
        event_list(*final(l)) == event_list(*old(l)).push(event),
{
    l.inner.push(event);
}

/// `SmallVec::as_slice`: the stored events, in order.
#[verifier::external_body]
fn event_list_slice(l: &EventList) -> (r: &[Event])
    ensures
        r@ == event_list(*l),
{
    l.inner.as_slice()
}

impl View for EventList {
    type V = Seq<Event>;

    open spec fn view(&self) -> Seq<Event> {
        event_list(*self)
    }
}

impl EventList {
    pub fn new() -> (r: EventList)
        ensures
            r@ == Seq::<Event>::empty(),
    {
        event_list_new()
    }

    pub fn push(&mut self, event: Event)
        ensures
            final(self)@ == old(self)@.push(event),
    {
        event_list_push(self, event)
    }

    pub fn as_slice(&self) -> (r: &[Event])
        ensures
            r@ == self@,
    {
        event_list_slice(self)
    }

    /// Adds the events of another list behind these.
    pub fn append(&mut self, other: &EventList)
        ensures
            final(self)@ == old(self)@ + other@,
    {
        let more = other.as_slice();
        let mut i: usize = 0;
        while i < more.len()
            invariant
                i <= more@.len(),
                more@ == other@,
                self@ == old(self)@ + other@.subrange(0, i as int),
            decreases more@.len() - i,
        {
            self.push(more[i]);
            assert(other@.subrange(0, i + 1) =~= other@.subrange(0, i as int).push(other@[i as int]));
            i = i + 1;
        }
        assert(other@.subrange(0, i as int) =~= other@);
    }
}

/// The final outcome of a command: its place in the journal, what became of it,
/// and everything that happened on the way.
#[derive(Debug)]
pub struct CommandReceipt {
    pub seq_no: SeqNo,
    pub status: CommandStatus,
    pub events: EventList,
}

#[derive(Debug, Clone, Copy, PartialEq, Eq, Structural)]
pub enum CommandStatus {
    Accepted,
    Rejected(RejectReason),
    Filled,
    PartiallyFilled,
    Cancelled,
}

/// A receipt as a mathematical value.
pub struct ReceiptModel {
    pub seq_no: SeqNo,
    pub status: CommandStatus,
    pub events: Seq<Event>,
}

impl View for CommandReceipt {
    type V = ReceiptModel;

    open spec fn view(&self) -> ReceiptModel {
        ReceiptModel { seq_no: self.seq_no, status: self.status, events: self.events@ }
    }
}

/// A receipt without events.
pub open spec fn plain_receipt(seq_no: SeqNo, status: CommandStatus) -> ReceiptModel {
    ReceiptModel { seq_no, status, events: Seq::empty() }
}

impl CommandReceipt {
    pub fn rejected(seq_no: SeqNo, reason: RejectReason) -> (r: CommandReceipt)
        ensures
            r@ == plain_receipt(seq_no, CommandStatus::Rejected(reason)),
    {
        CommandReceipt { seq_no, status: CommandStatus::Rejected(reason), events: EventList::new() }
    }

    /// A receipt of a command that needed no events.
    pub fn accepted(seq_no: SeqNo) -> (r: CommandReceipt)
        ensures
            r@ == plain_receipt(seq_no, CommandStatus::Accepted),
    {
        CommandReceipt { seq_no, status: CommandStatus::Accepted, events: EventList::new() }
    }
}

} // verus!
