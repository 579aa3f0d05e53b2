//! What users and operators ask of the engine.
use vstd::prelude::*;

use crate::types::enums::{OrderType, SelfTradePrevention, Side, TimeInForce};
use crate::types::ids::{ClientOrderId, CurrencyId, OrderId, SeqNo, SymbolId, Timestamp, UserId};
use crate::types::numeric::{Amount, Price, Size};
use crate::types::symbol::SymbolSpec;

verus! {

/// Input of the engine. Each variant carries the fields that it needs.
#[derive(Debug, Clone, Copy)]
pub enum Command {
    PlaceOrder(PlaceOrder),
    CancelOrder(CancelOrder),
    ModifyOrder(ModifyOrder),
    AddUser(AddUser),
    AdjustBalance(AdjustBalance),
    SuspendUser(UserId),
    ResumeUser(UserId),
    /// A new tradable symbol. It goes through the journal, so that a restored
    /// engine knows it too.
    RegisterSymbol(SymbolSpec),
    /// A new mark price. Positions that it puts below their maintenance margin
    /// are closed at it, and stops that it reaches fire.
    SetMarkPrice(SetMarkPrice),
    /// A funding settlement of a perpetual. With a positive rate longs pay
    /// shorts.
    ApplyFunding(ApplyFunding),
    /// Closes every position of a future at its settlement price and suspends
    /// the symbol.
    SettleFuture(SettleFuture),
    Nop,
}

#[derive(Debug, Clone, Copy)]
pub struct SetMarkPrice {
    pub symbol_id: SymbolId,
    pub mark_price: Price,
}

#[derive(Debug, Clone, Copy)]
pub struct ApplyFunding {
    pub symbol_id: SymbolId,
    /// Basis points; positive where longs pay.
    pub rate_bps: i32,
}

#[derive(Debug, Clone, Copy)]
pub struct SettleFuture {
    pub symbol_id: SymbolId,
    pub settlement_price: Price,
}

#[derive(Debug, Clone, Copy)]
pub struct PlaceOrder {
    pub user_id: UserId,
    pub symbol_id: SymbolId,
    pub client_order_id: ClientOrderId,
    pub side: Side,
    pub order_type: OrderType,
    pub time_in_force: TimeInForce,
    /// Absent for market orders.
    pub price: Option<Price>,
    pub size: Size,
    /// Upper bound at which a bid is reserved. Absent: the price. Asks do not
    /// use it.
    pub reserve_price: Option<Price>,
    /// Trigger of a stop order.
    pub stop_price: Option<Price>,
    /// Visible slice of an iceberg.
    pub visible_size: Option<Size>,
    pub self_trade_prevention: SelfTradePrevention,
}

#[derive(Debug, Clone, Copy)]
pub struct CancelOrder {
    pub user_id: UserId,
    pub symbol_id: SymbolId,
    pub order_id: OrderId,
}

#[derive(Debug, Clone, Copy)]
pub struct ModifyOrder {
    pub user_id: UserId,
    pub symbol_id: SymbolId,
    pub order_id: OrderId,
    pub new_price: Option<Price>,
    pub new_size: Option<Size>,
}

#[derive(Debug, Clone, Copy)]
pub struct AddUser {
    pub user_id: UserId,
}

#[derive(Debug, Clone, Copy)]
pub struct AdjustBalance {
    pub user_id: UserId,
    pub currency_id: CurrencyId,
    /// Positive for a deposit, negative for a withdrawal.
    pub delta: Amount,
    /// Key under which the outer system knows the transfer. The same key is not accepted
    /// twice for one user and currency.
    pub transaction_id: u64,
}

/// A command together with what the engine added when it took it in.
#[derive(Debug, Clone, Copy)]
pub struct CommandEnvelope {
    pub seq_no: SeqNo,
    pub received_at: Timestamp,
    pub command: Command,
}

} // verus!
