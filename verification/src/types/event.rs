//! What happens while a command is processed.
use vstd::prelude::*;

use crate::types::enums::Side;
use crate::types::ids::{ClientOrderId, OrderId, SymbolId, Timestamp, UserId};
use crate::types::numeric::{Price, Size};
use crate::types::reject::RejectReason;

verus! {

#[derive(Debug, Clone, Copy)]
pub enum Event {
    OrderAccepted(OrderAccepted),
    OrderRejected(OrderRejected),
    OrderCancelled(OrderCancelled),
    OrderFilled(OrderFilled),
    OrderPartiallyFilled(OrderPartiallyFilled),
    Trade(Trade),
}

#[derive(Debug, Clone, Copy)]
pub struct Trade {
    pub symbol_id: SymbolId,
    pub price: Price,
    pub size: Size,
    pub taker_order_id: OrderId,
    pub taker_user_id: UserId,
    pub maker_order_id: OrderId,
    pub maker_user_id: UserId,
    pub taker_side: Side,
    pub timestamp: Timestamp,
}

#[derive(Debug, Clone, Copy)]
pub struct OrderAccepted {
    pub order_id: OrderId,
    pub client_order_id: ClientOrderId,
    pub user_id: UserId,
    pub symbol_id: SymbolId,
    pub timestamp: Timestamp,
}

#[derive(Debug, Clone, Copy)]
pub struct OrderRejected {
    pub client_order_id: ClientOrderId,
    pub user_id: UserId,
    pub symbol_id: SymbolId,
    pub reason: RejectReason,
    pub timestamp: Timestamp,
}

#[derive(Debug, Clone, Copy)]
pub struct OrderCancelled {
    pub order_id: OrderId,
    pub user_id: UserId,
    pub symbol_id: SymbolId,
    pub remaining_size: Size,
    pub timestamp: Timestamp,
}

#[derive(Debug, Clone, Copy)]
pub struct OrderFilled {
    pub order_id: OrderId,
    pub user_id: UserId,
    pub symbol_id: SymbolId,
    pub filled_size: Size,
    pub timestamp: Timestamp,
}

#[derive(Debug, Clone, Copy)]
pub struct OrderPartiallyFilled {
    pub order_id: OrderId,
    pub user_id: UserId,
    pub symbol_id: SymbolId,
    pub filled_size: Size,
    pub remaining_size: Size,
    pub timestamp: Timestamp,
}

} // verus!
