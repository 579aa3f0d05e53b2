//! What a book is asked to do and what it answers.
use vstd::prelude::*;

use smallvec::SmallVec;

use crate::types::enums::{OrderType, SelfTradePrevention, Side, TimeInForce};
use crate::types::event::Trade;
use crate::types::ids::{ClientOrderId, OrderId, Timestamp, UserId};
use crate::types::numeric::{Price, Size};
use crate::types::reject::RejectReason;

verus! {

/// An order at rest.
///
/// `size_remaining` is what the book shows. An iceberg keeps the rest of its
/// quantity in `hidden_remaining` and shows at most `visible_slice` at a time;
/// for other orders both are zero.
#[derive(Debug, Clone, Copy)]
pub struct RestingOrder {
    pub order_id: OrderId,
    pub user_id: UserId,
    pub client_order_id: ClientOrderId,
    pub price: Price,
    pub size_remaining: Size,
    pub side: Side,
    pub timestamp: Timestamp,
    pub visible_slice: Size,
    pub hidden_remaining: Size,
}

#[derive(Debug, Clone, Copy)]
pub struct CancelOutcome {
    pub order_id: OrderId,
    pub user_id: UserId,
    pub side: Side,
    pub price: Price,
    pub remaining_size: Size,
}

/// A resting order that self-trade prevention took away or made smaller.
#[derive(Debug, Clone, Copy)]
pub struct StpCancellation {
    pub order_id: OrderId,
    pub user_id: UserId,
    pub side: Side,
    pub price: Price,
    /// What was taken away: all that the order showed, or a part of it.
    pub size_cancelled: Size,
    /// Whether the order left the book.
    pub full_cancel: bool,
}

#[derive(Debug, Clone, Copy)]
pub struct PlaceParams {
    pub order_id: OrderId,
    pub user_id: UserId,
    pub client_order_id: ClientOrderId,
    pub side: Side,
    pub order_type: OrderType,
    pub time_in_force: TimeInForce,
    pub price: Price,
    pub size: Size,
    pub timestamp: Timestamp,
    pub stp: SelfTradePrevention,
    /// Visible slice of an iceberg: positive and at most the size.
    pub visible_size: Option<Size>,
}

/// The trades of one order. Few orders have more than four.
#[verifier::external_body]
#[derive(Debug)]
pub struct TradeList {
    inner: SmallVec<[Trade; 4]>,
}

/// What a `SmallVec` of trades holds.
pub uninterp spec fn trade_list(l: TradeList) -> Seq<Trade>;

/// `SmallVec::new`: nothing is stored yet.
#[verifier::external_body]
fn trade_list_new() -> (l: TradeList)
    ensures
        trade_list(l) == (Seq::<Trade>::empty()),
{
    TradeList { inner: SmallVec::new() }
}

/// `SmallVec::push`: the trade goes to the end.
#[verifier::external_body]
fn trade_list_push(l: &mut TradeList, trade: Trade)
    ensures
        trade_list(*final(l)) == trade_list(*old(l)).push(trade),
{
    l.inner.push(trade);
}

/// `SmallVec::as_slice`: the stored trades, in order.
#[verifier::external_body]
fn trade_list_slice(l: &TradeList) -> (r: &[Trade])
    ensures
        r@ == trade_list(*l),
{
    l.inner.as_slice()
}

impl View for TradeList {
    type V = Seq<Trade>;

    open spec fn view(&self) -> Seq<Trade> {
        trade_list(*self)
    }
}

impl TradeList {
    pub fn new() -> (r: TradeList)
        ensures
            r@ == Seq::<Trade>::empty(),
    {
        trade_list_new()
    }

    pub fn push(&mut self, trade: Trade)
        ensures
            final(self)@ == old(self)@.push(trade),
    {
        trade_list_push(self, trade)
    }

    pub fn as_slice(&self) -> (r: &[Trade])
        ensures
            r@ == self@,
    {
        trade_list_slice(self)
    }
}

/// The cancellations of one order by self-trade prevention.
#[verifier::external_body]
#[derive(Debug)]
pub struct StpList {
    inner: SmallVec<[StpCancellation; 2]>,
}

/// What a `SmallVec` of cancellations holds.
pub uninterp spec fn stp_list(l: StpList) -> Seq<StpCancellation>;

/// `SmallVec::new`: nothing is stored yet.
#[verifier::external_body]
fn stp_list_new() -> (l: StpList)
    ensures
        stp_list(l) == (Seq::<StpCancellation>::empty()),
{
    StpList { inner: SmallVec::new() }
}

/// `SmallVec::push`: the cancellation goes to the end.
#[verifier::external_body]
fn stp_list_push(l: &mut StpList, cancellation: StpCancellation)
    ensures
        stp_list(*final(l)) == stp_list(*old(l)).push(cancellation),
{
    l.inner.push(cancellation);
}

/// `SmallVec::as_slice`: the stored cancellations, in order.
#[verifier::external_body]
fn stp_list_slice(l: &StpList) -> (r: &[StpCancellation])
    ensures
        r@ == stp_list(*l),
{
    l.inner.as_slice()
}

impl View for StpList {
    type V = Seq<StpCancellation>;

    open spec fn view(&self) -> Seq<StpCancellation> {
        stp_list(*self)
    }
}

impl StpList {
    pub fn new() -> (r: StpList)
        ensures
            r@ == Seq::<StpCancellation>::empty(),
    {
        stp_list_new()
    }

    pub fn push(&mut self, cancellation: StpCancellation)
        ensures
            final(self)@ == old(self)@.push(cancellation),
    {
        stp_list_push(self, cancellation)
    }

    pub fn as_slice(&self) -> (r: &[StpCancellation])
        ensures
            r@ == self@,
    {
        stp_list_slice(self)
    }
}

/// What became of a placed order.
#[derive(Debug)]
pub struct PlacementOutcome {
    pub trades: TradeList,
    /// Quantity that traded. What self-trade prevention neutralised is no fill.
    pub filled: Size,
    /// Quantity that is still wanted.
    pub remaining: Size,
    pub rested: bool,
    pub reject: Option<RejectReason>,
    /// Resting orders of the same user that were cancelled or made smaller.
    pub stp_cancellations: StpList,
}

} // verus!
