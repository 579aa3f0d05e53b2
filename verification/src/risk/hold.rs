//! Reservations, positions and the reports about them.
use vstd::prelude::*;

use crate::types::enums::Side;
use crate::types::ids::{CurrencyId, OrderId, SymbolId, UserId};
use crate::types::numeric::{Amount, Bps, Price, Size};

verus! {

/// A derivative position that was closed by force.
#[derive(Debug, Clone, Copy)]
pub struct LiquidationReport {
    pub user_id: UserId,
    pub symbol_id: SymbolId,
    pub size_closed: Size,
    pub close_price: Price,
    pub realized_pnl: Amount,
    pub margin_released: Amount,
}

/// What one user paid in a funding settlement.
#[derive(Debug, Clone, Copy)]
pub struct FundingReport {
    pub user_id: UserId,
    pub symbol_id: SymbolId,
    /// Positive where the user paid, negative where the user received.
    pub payment: Amount,
}

/// Funds reserved for an open order.
#[derive(Debug, Clone, Copy)]
pub struct Hold {
    pub user_id: UserId,
    pub symbol_id: SymbolId,
    pub order_id: OrderId,
    pub side: Side,
    pub currency: CurrencyId,
    pub remaining_size: Size,
    pub remaining_amount: Amount,
    /// Fee rate of the reservation: the taker's, which is the worst case.
    pub pre_check_fee_bps: Bps,
    pub kind: HoldKind,
}

#[derive(Debug, Clone, Copy)]
pub enum HoldKind {
    /// A bid reserves quote currency at its reserve price, an ask reserves base
    /// currency one to one.
    Spot { bid_reserve_price: Option<Price> },
    /// Always quote currency: margin and fee for the whole order. Fills draw it
    /// down in proportion to `original_size`.
    Derivative {
        reserve_margin: Amount,
        reserve_fee: Amount,
        original_size: Size,
        ref_price: Price,
    },
}

/// A derivative position. Positive size is long, negative size is short. The
/// entry price is the average weighted by size and means nothing when flat.
#[derive(Debug, Clone, Copy, PartialEq, Eq, Structural)]
pub struct Position {
    pub size: Size,
    pub entry_price: Price,
    pub margin_locked: Amount,
    pub margin_currency: CurrencyId,
}

impl Position {
    /// No position.
    pub open spec fn flat() -> Position {
        Position {
            size: Size(0),
            entry_price: Price(0),
            margin_locked: Amount(0),
            margin_currency: CurrencyId(0),
        }
    }

    pub fn is_flat(&self) -> (r: bool)
        ensures
            r == (self.size.0 == 0),
    {
        self.size.is_zero()
    }

    pub fn is_long(&self) -> (r: bool)
        ensures
            r == (self.size.0 > 0),
    {
        self.size.0 > 0
    }

    pub fn is_short(&self) -> (r: bool)
        ensures
            r == (self.size.0 < 0),
    {
        self.size.0 < 0
    }

    pub fn abs_size(&self) -> (r: Size)
        requires
            self.size.0 != i64::MIN,
        ensures
            r.0 == (if self.size.0 >= 0 {
                self.size.0 as int
            } else {
                -self.size.0
            }),
    {
        if self.size.0 >= 0 {
            self.size
        } else {
            Size(-self.size.0)
        }
    }
}

impl Default for Position {
    fn default() -> (r: Position)
        ensures
            r == Position::flat(),
    {
        Position {
            size: Size(0),
            entry_price: Price(0),
            margin_locked: Amount(0),
            margin_currency: CurrencyId(0),
        }
    }
}

} // verus!
