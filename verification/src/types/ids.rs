//! Identifiers. Each is a distinct type so that one cannot stand for another.
use vstd::prelude::*;

verus! {

/// A user of the exchange. Zero is the exchange's own fee account.
#[derive(Debug, Clone, Copy, PartialEq, Eq, PartialOrd, Ord, Hash, Default, Structural)]
pub struct UserId(pub u64);

/// An order, numbered by the engine.
#[derive(Debug, Clone, Copy, PartialEq, Eq, PartialOrd, Ord, Hash, Default, Structural)]
pub struct OrderId(pub u64);

/// A tradable symbol.
#[derive(Debug, Clone, Copy, PartialEq, Eq, PartialOrd, Ord, Hash, Default, Structural)]
pub struct SymbolId(pub u32);

/// A currency.
#[derive(Debug, Clone, Copy, PartialEq, Eq, PartialOrd, Ord, Hash, Default, Structural)]
pub struct CurrencyId(pub u32);

/// A request id chosen by the client. The engine only hands it back, so that a
/// rejection can be matched with its request.
#[derive(Debug, Clone, Copy, PartialEq, Eq, Hash, Default, Structural)]
pub struct ClientOrderId(pub u64);

/// Position of a command in the journal.
#[derive(Debug, Clone, Copy, PartialEq, Eq, PartialOrd, Ord, Hash, Default, Structural)]
pub struct SeqNo(pub u64);

/// Nanoseconds since the UNIX epoch.
#[derive(Debug, Clone, Copy, PartialEq, Eq, PartialOrd, Ord, Hash, Default, Structural)]
pub struct Timestamp(pub i64);

} // verus!
