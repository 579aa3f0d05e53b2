//! Reasons for refusing a command.
use vstd::prelude::*;

verus! {

#[derive(Debug, Clone, Copy, PartialEq, Eq, Hash, Structural)]
pub enum RejectReason {
    UnknownUser,
    UnknownSymbol,
    UnknownOrder,
    SymbolSuspended,
    UserSuspended,
    InsufficientFunds,
    InsufficientMargin,
    PositionLimitExceeded,
    InvalidReservePrice,
    PriceBandViolation,
    SizeBelowMinimum,
    SizeAboveMaximum,
    PriceTickMisaligned,
    SizeLotMisaligned,
    MissingPrice,
    PostOnlyWouldCross,
    FokUnfillable,
    SelfTradePrevented,
    StopNotTriggered,
    Expired,
    InvalidOrderBookState,
    UnsupportedCommand,
    ArithmeticOverflow,
    SerializationFailed,
}

impl RejectReason {
    /// The text shown to a user.
    pub open spec fn text(self) -> Seq<char> {
        match self {
            RejectReason::UnknownUser => "user does not exist"@,
            RejectReason::UnknownSymbol => "symbol does not exist"@,
            RejectReason::UnknownOrder => "order id does not exist"@,
            RejectReason::SymbolSuspended => "symbol is suspended"@,
            RejectReason::UserSuspended => "user is suspended"@,
            RejectReason::InsufficientFunds => "insufficient funds"@,
            RejectReason::InsufficientMargin => "insufficient margin"@,
            RejectReason::PositionLimitExceeded => "position limit exceeded"@,
            RejectReason::InvalidReservePrice => "invalid reserve price for bid"@,
            RejectReason::PriceBandViolation => "price outside allowed band"@,
            RejectReason::SizeBelowMinimum => "order size below minimum"@,
            RejectReason::SizeAboveMaximum => "order size above maximum"@,
            RejectReason::PriceTickMisaligned => "price not aligned to tick size"@,
            RejectReason::SizeLotMisaligned => "size not aligned to lot size"@,
            RejectReason::MissingPrice => "missing required price for order type"@,
            RejectReason::PostOnlyWouldCross => "post-only order would take liquidity"@,
            RejectReason::FokUnfillable => "FOK order cannot be fully filled"@,
            RejectReason::SelfTradePrevented => "self-trade prevented"@,
            RejectReason::StopNotTriggered => "stop price not triggered"@,
            RejectReason::Expired => "order has expired"@,
            RejectReason::InvalidOrderBookState => "invalid order book state"@,
            RejectReason::UnsupportedCommand => "command type not supported in this context"@,
            RejectReason::ArithmeticOverflow => "arithmetic overflow"@,
            RejectReason::SerializationFailed => "serialization failed"@,
        }
    }

    /// The text shown to a user.
    pub fn message(self) -> (r: &'static str)
        ensures
            r@ == self.text(),
    {
        match self {
            RejectReason::UnknownUser => "user does not exist",
            RejectReason::UnknownSymbol => "symbol does not exist",
            RejectReason::UnknownOrder => "order id does not exist",
            RejectReason::SymbolSuspended => "symbol is suspended",
            RejectReason::UserSuspended => "user is suspended",
            RejectReason::InsufficientFunds => "insufficient funds",
            RejectReason::InsufficientMargin => "insufficient margin",
            RejectReason::PositionLimitExceeded => "position limit exceeded",
            RejectReason::InvalidReservePrice => "invalid reserve price for bid",
            RejectReason::PriceBandViolation => "price outside allowed band",
            RejectReason::SizeBelowMinimum => "order size below minimum",
            RejectReason::SizeAboveMaximum => "order size above maximum",
            RejectReason::PriceTickMisaligned => "price not aligned to tick size",
            RejectReason::SizeLotMisaligned => "size not aligned to lot size",
            RejectReason::MissingPrice => "missing required price for order type",
            RejectReason::PostOnlyWouldCross => "post-only order would take liquidity",
            RejectReason::FokUnfillable => "FOK order cannot be fully filled",
            RejectReason::SelfTradePrevented => "self-trade prevented",
            RejectReason::StopNotTriggered => "stop price not triggered",
            RejectReason::Expired => "order has expired",
            RejectReason::InvalidOrderBookState => "invalid order book state",
            RejectReason::UnsupportedCommand => "command type not supported in this context",
            RejectReason::ArithmeticOverflow => "arithmetic overflow",
            RejectReason::SerializationFailed => "serialization failed",
        }
    }
}

} // verus!
