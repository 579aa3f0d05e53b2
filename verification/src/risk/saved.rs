//! What the ledger saves of itself.
use vstd::prelude::*;

use crate::risk::hold::{Hold, Position};
use crate::risk::model;
use crate::risk::model::{AccountModel, Ledger};
use crate::risk::transfers;
use crate::risk::transfers::Transfer;
use crate::store::listing;
use crate::types::ids::{CurrencyId, OrderId, SymbolId, UserId};
use crate::types::numeric::Amount;

verus! {

/// A saved account. Amounts are listed by the number of their currency, positions by
/// that of their symbol.
#[derive(Debug)]
pub struct AccountSnapshot {
    pub user_id: UserId,
    pub balances: Vec<(u32, Amount)>,
    pub holds: Vec<(u32, Amount)>,
    pub positions: Vec<(u32, Position)>,
    pub is_suspended: bool,
}

/// A saved ledger: accounts by the number of their user, reservations by that of their
/// order, and the transfers that were accepted.
#[derive(Debug)]
pub struct RiskSnapshot {
    pub accounts: Vec<(u64, AccountSnapshot)>,
    pub holds: Vec<(u64, Hold)>,
    pub transfers: Vec<Transfer>,
}

/// The amounts that a map holds, zero where nothing is stored.
pub open spec fn amounts_in(m: Map<u32, Amount>) -> Map<CurrencyId, int> {
    Map::new(
        |c: CurrencyId| true,
        |c: CurrencyId|
            if m.contains_key(c.0) {
                m[c.0].0 as int
            } else {
                0
            },
    )
}

pub open spec fn positions_in(m: Map<u32, Position>) -> Map<SymbolId, Position> {
    Map::new(|s: SymbolId| m.contains_key(s.0), |s: SymbolId| m[s.0])
}

/// The account that a saved one stands for.
pub open spec fn account_of(s: AccountSnapshot) -> AccountModel {
    AccountModel {
        user_id: s.user_id,
        free: amounts_in(listing::map_of(s.balances@)),
        held: amounts_in(listing::map_of(s.holds@)),
        positions: positions_in(listing::map_of(s.positions@)),
        is_suspended: s.is_suspended,
    }
}

/// The entries that a list of accounts stands for.
pub open spec fn account_entries(s: Seq<(u64, AccountSnapshot)>) -> Seq<(u64, AccountModel)> {
    s.map_values(|e: (u64, AccountSnapshot)| (e.0, account_of(e.1)))
}

/// The ledger that a saved one stands for.
pub open spec fn ledger_of(s: RiskSnapshot) -> Ledger {
    let accounts = listing::map_of(account_entries(s.accounts@));
    let holds = listing::map_of(s.holds@);
    Ledger {
        accounts: Map::new(|u: UserId| accounts.contains_key(u.0), |u: UserId| accounts[u.0]),
        holds: Map::new(|id: OrderId| holds.contains_key(id.0), |id: OrderId| holds[id.0]),
        transfers: transfers::transfers_in(s.transfers@),
        exact: true,
    }
}

/// Whether lists can be those of a ledger: the account that collects the fees is there.
pub open spec fn ledger_ok(l: Ledger) -> bool {
    l.has(model::house())
}

} // verus!
