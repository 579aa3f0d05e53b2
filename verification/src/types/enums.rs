//! Closed choices that orders and symbols are described with.
use vstd::prelude::*;

use crate::types::ids::Timestamp;

verus! {

#[derive(Debug, Clone, Copy, PartialEq, Eq, Hash, Structural)]
pub enum Side {
    Bid,
    Ask,
}

impl Side {
    /// The side that an order of this side trades with.
    pub open spec fn other(self) -> Side {
        match self {
            Side::Bid => Side::Ask,
            Side::Ask => Side::Bid,
        }
    }

    pub fn opposite(self) -> (r: Side)
        ensures
            r == self.other(),
    {
        match self {
            Side::Bid => Side::Ask,
            Side::Ask => Side::Bid,
        }
    }
}

#[derive(Debug, Clone, Copy, PartialEq, Eq, Hash, Structural)]
pub enum OrderType {
    Limit,
    Market,
    StopLimit,
    StopMarket,
    Iceberg,
}

/// How long an order stays, apart from what kind of order it is.
#[derive(Debug, Clone, Copy, PartialEq, Eq, Hash, Structural)]
pub enum TimeInForce {
    Gtc,
    Ioc,
    Fok,
    Day,
    Gtd(Timestamp),
    /// Rests or is refused, never takes.
    PostOnly,
}

/// What happens when an order meets another one of the same user.
#[derive(Debug, Clone, Copy, PartialEq, Eq, Hash, Structural)]
pub enum SelfTradePrevention {
    /// The two trade.
    Allow,
    CancelTaker,
    CancelMaker,
    CancelBoth,
    DecrementAndCancel,
}

#[derive(Debug, Clone, Copy, PartialEq, Eq, Hash, Structural)]
pub enum SymbolKind {
    Spot,
    PerpetualSwap,
    Future,
}

#[derive(Debug, Clone, Copy, PartialEq, Eq, Hash, Structural)]
pub enum PositionSide {
    Long,
    Short,
    Flat,
}

} // verus!
