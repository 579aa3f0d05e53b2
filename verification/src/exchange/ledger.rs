//! What the ledger of the exchange does, as functions on the users of one shard.
use vstd::prelude::*;

use crate::exchange::api::{
    CommandResultCode, CoreSymbolSpecification, Currency, MatcherEventType, MatcherTradeEvent,
    OrderAction, OrderCommand, OrderCommandType, OrderType, Price, SymbolId, UserId,
};

verus! {

/// A user: the transaction seen last, and the free money per currency.
#[verifier::ext_equal]
pub struct Profile {
    pub last_tx: int,
    pub accounts: Map<Currency, int>,
}

/// What is recorded for a currency.
pub open spec fn amount(m: Map<Currency, int>, currency: Currency) -> int {
    if m.contains_key(currency) {
        m[currency]
    } else {
        0
    }
}

pub open spec fn fits(n: int) -> bool {
    i64::MIN <= n <= i64::MAX
}

/// One shard of the ledger. `exact` tells whether every number so far fitted the
/// machine.
#[verifier::ext_equal]
pub struct RiskModel {
    pub shard: u64,
    pub mask: u64,
    pub users: Map<UserId, Profile>,
    pub symbols: Map<SymbolId, CoreSymbolSpecification>,
    pub fees: Map<Currency, int>,
    pub exact: bool,
}

impl RiskModel {
    /// Whether a user belongs to the shard.
    pub open spec fn owns(self, uid: UserId) -> bool {
        self.mask == 0 || (uid & self.mask) == self.shard
    }

    pub open spec fn balance(self, uid: UserId, currency: Currency) -> int {
        free(self.users, uid, currency)
    }

    pub open spec fn checked(self, ok: bool) -> RiskModel {
        RiskModel { exact: self.exact && ok, ..self }
    }

    /// A user gets an amount, or gives one that is negative. Nothing happens to users
    /// that are not known.
    pub open spec fn credited(self, uid: UserId, currency: Currency, n: int) -> RiskModel {
        if self.users.contains_key(uid) {
            let p = self.users[uid];
            let sum = amount(p.accounts, currency) + n;
            RiskModel {
                users: self.users.insert(
                    uid,
                    Profile { accounts: p.accounts.insert(currency, sum), ..p },
                ),
                exact: self.exact && fits(sum),
                ..self
            }
        } else {
            self
        }
    }

    /// Fees come in.
    pub open spec fn earned(self, currency: Currency, n: int) -> RiskModel {
        let sum = amount(self.fees, currency) + n;
        RiskModel {
            fees: self.fees.insert(currency, sum),
            exact: self.exact && fits(sum),
            ..self
        }
    }
}

/// The price at which an order is frozen: budget orders and asks at their own
/// price.
pub open spec fn hold_price(c: OrderCommand) -> Price {
    match c.action {
        OrderAction::Bid => if c.order_type == OrderType::FokBudget || c.order_type
            == OrderType::IocBudget {
            c.price
        } else {
            c.reserve_price
        },
        OrderAction::Ask => c.price,
    }
}

/// Product of three numbers, and whether the machine can form it.
pub open spec fn mul3(a: int, b: int, c: int) -> int {
    a * b * c
}

pub open spec fn mul3_fits(a: int, b: int, c: int) -> bool {
    fits(a * b) && fits(a * b * c)
}

/// What an order freezes, or `None` where that does not fit.
pub open spec fn hold(
    action: OrderAction,
    size: int,
    reserve: Price,
    spec: CoreSymbolSpecification,
) -> Option<int> {
    match action {
        OrderAction::Bid => {
            let notional = mul3(size, reserve as int, spec.quote_scale_k as int);
            let fee = size * spec.taker_fee;
            if mul3_fits(size, reserve as int, spec.quote_scale_k as int) && fits(fee) && fits(
                notional + fee,
            ) {
                Some(notional + fee)
            } else {
                None
            }
        },
        OrderAction::Ask => if fits(size * spec.base_scale_k) {
            Some(size * spec.base_scale_k)
        } else {
            None
        },
    }
}

/// The currency that an order freezes.
pub open spec fn hold_currency(action: OrderAction, spec: CoreSymbolSpecification) -> Currency {
    match action {
        OrderAction::Bid => spec.quote_currency,
        OrderAction::Ask => spec.base_currency,
    }
}

/// The answer to an order, in the order of the checks.
pub open spec fn order_code(r: RiskModel, c: OrderCommand, reserve: Price) -> CommandResultCode {
    if c.size <= 0 || c.price <= 0 || reserve <= 0 {
        CommandResultCode::RiskInvalidOrderParams
    } else if c.action == OrderAction::Bid && reserve < c.price {
        CommandResultCode::RiskInvalidReserveBidPrice
    } else if !r.symbols.contains_key(c.symbol) {
        CommandResultCode::InvalidSymbol
    } else {
        let spec = r.symbols[c.symbol];
        match hold(c.action, c.size as int, reserve, spec) {
            None => CommandResultCode::RiskArithmeticOverflow,
            Some(n) => if !r.users.contains_key(c.uid) {
                CommandResultCode::AuthInvalidUser
            } else if r.balance(c.uid, hold_currency(c.action, spec)) >= n {
                CommandResultCode::ValidForMatchingEngine
            } else {
                CommandResultCode::RiskNsf
            },
        }
    }
}

/// The shard once an order was checked: what a valid one may cost is frozen.
pub open spec fn order_checked(r: RiskModel, c: OrderCommand, reserve: Price) -> RiskModel {
    if order_code(r, c, reserve) == CommandResultCode::ValidForMatchingEngine {
        let spec = r.symbols[c.symbol];
        r.credited(
            c.uid,
            hold_currency(c.action, spec),
            -hold(c.action, c.size as int, reserve, spec).unwrap(),
        )
    } else {
        r
    }
}

/// Free money of a user.
pub open spec fn free(users: Map<UserId, Profile>, uid: UserId, currency: Currency) -> int {
    if users.contains_key(uid) {
        amount(users[uid].accounts, currency)
    } else {
        0
    }
}

/// The answer to a balance adjustment.
pub open spec fn adjust_code(
    users: Map<UserId, Profile>,
    uid: UserId,
    currency: Currency,
    n: int,
    tx: int,
) -> CommandResultCode {
    if !users.contains_key(uid) {
        CommandResultCode::AuthInvalidUser
    } else if tx <= users[uid].last_tx {
        CommandResultCode::UserMgmtDuplicateTransaction
    } else if !fits(free(users, uid, currency) + n) {
        CommandResultCode::RiskArithmeticOverflow
    } else if free(users, uid, currency) + n < 0 {
        CommandResultCode::RiskNsf
    } else {
        CommandResultCode::Success
    }
}

/// The users once a balance was adjusted.
pub open spec fn adjusted(
    users: Map<UserId, Profile>,
    uid: UserId,
    currency: Currency,
    n: int,
    tx: int,
) -> Map<UserId, Profile> {
    if adjust_code(users, uid, currency, n, tx) == CommandResultCode::Success {
        users.insert(
            uid,
            Profile {
                last_tx: tx,
                accounts: users[uid].accounts.insert(currency, free(users, uid, currency) + n),
            },
        )
    } else {
        users
    }
}

/// A new user has nothing.
pub open spec fn user_added(r: RiskModel, uid: UserId) -> RiskModel {
    if r.users.contains_key(uid) {
        r
    } else {
        RiskModel {
            users: r.users.insert(uid, Profile { last_tx: 0, accounts: Map::empty() }),
            ..r
        }
    }
}

/// What a shard does with a command before matching.
#[verifier::ext_equal]
pub struct PreStep {
    pub risk: RiskModel,
    pub code: CommandResultCode,
    pub reserve_price: Price,
}

/// A command as a shard leaves it.
pub open spec fn answered(c: OrderCommand, step: PreStep) -> OrderCommand {
    OrderCommand { result_code: step.code, reserve_price: step.reserve_price, ..c }
}

pub open spec fn pre_processed(r: RiskModel, c: OrderCommand) -> PreStep {
    if !r.owns(c.uid) {
        PreStep { risk: r, code: c.result_code, reserve_price: c.reserve_price }
    } else {
        match c.command {
            OrderCommandType::PlaceOrder => PreStep {
                risk: order_checked(r, c, hold_price(c)),
                code: order_code(r, c, hold_price(c)),
                reserve_price: hold_price(c),
            },
            OrderCommandType::AddUser => PreStep {
                risk: user_added(r, c.uid),
                code: if r.users.contains_key(c.uid) {
                    CommandResultCode::UserMgmtUserAlreadyExists
                } else {
                    CommandResultCode::Success
                },
                reserve_price: c.reserve_price,
            },
            OrderCommandType::BalanceAdjustment => PreStep {
                risk: RiskModel {
                    users: adjusted(
                        r.users,
                        c.uid,
                        c.symbol,
                        c.price as int,
                        c.order_id as i64 as int,
                    ),
                    ..r
                },
                code: adjust_code(
                    r.users,
                    c.uid,
                    c.symbol,
                    c.price as int,
                    c.order_id as i64 as int,
                ),
                reserve_price: c.reserve_price,
            },
            _ => PreStep { risk: r, code: c.result_code, reserve_price: c.reserve_price },
        }
    }
}

/// Whether the machine can form the amounts of a trade.
pub open spec fn trade_fits(e: MatcherTradeEvent, spec: CoreSymbolSpecification) -> bool {
    &&& mul3_fits(e.size as int, e.price as int, spec.quote_scale_k as int)
    &&& fits(e.size * spec.base_scale_k)
    &&& fits(e.size * spec.taker_fee)
    &&& fits(e.size * spec.maker_fee)
    &&& fits(e.bidder_hold_price - e.price)
    &&& mul3_fits(e.size as int, e.bidder_hold_price - e.price, spec.quote_scale_k as int)
}

/// What the price of a trade comes to.
pub open spec fn notional(e: MatcherTradeEvent, spec: CoreSymbolSpecification) -> int {
    mul3(e.size as int, e.price as int, spec.quote_scale_k as int)
}

/// What the bidder froze beyond the price of a trade.
pub open spec fn refund(e: MatcherTradeEvent, spec: CoreSymbolSpecification) -> int {
    mul3(e.size as int, e.bidder_hold_price - e.price, spec.quote_scale_k as int)
}

/// The incoming side of a trade is settled. Its shard takes the fees of both sides.
pub open spec fn taker_settled(
    r: RiskModel,
    uid: UserId,
    e: MatcherTradeEvent,
    spec: CoreSymbolSpecification,
    sell: bool,
) -> RiskModel {
    let q = spec.quote_currency;
    let r1 = r.earned(q, e.size * spec.taker_fee + e.size * spec.maker_fee);
    if sell {
        r1.credited(uid, q, notional(e, spec) - e.size * spec.taker_fee)
    } else {
        r1.credited(uid, q, refund(e, spec)).credited(
            uid,
            spec.base_currency,
            e.size * spec.base_scale_k,
        )
    }
}

/// The resting side of a trade is settled. A resting bid froze the fee of an incoming
/// one and gets the difference back.
pub open spec fn maker_settled(
    r: RiskModel,
    e: MatcherTradeEvent,
    spec: CoreSymbolSpecification,
    sell: bool,
) -> RiskModel {
    let q = spec.quote_currency;
    let uid = e.matched_order_uid;
    if sell {
        r.credited(
            uid,
            q,
            refund(e, spec) + (e.size * spec.taker_fee - e.size * spec.maker_fee),
        ).credited(uid, spec.base_currency, e.size * spec.base_scale_k)
    } else {
        r.credited(uid, q, notional(e, spec) - e.size * spec.maker_fee)
    }
}

/// A shard after a trade: it settles the sides that belong to it.
pub open spec fn trade_settled(
    r: RiskModel,
    uid: UserId,
    e: MatcherTradeEvent,
    spec: CoreSymbolSpecification,
    sell: bool,
) -> RiskModel {
    let r0 = r.checked(trade_fits(e, spec));
    let r1 = if r.owns(uid) {
        taker_settled(r0, uid, e, spec, sell)
    } else {
        r0
    };
    if r.owns(e.matched_order_uid) {
        maker_settled(r1, e, spec, sell)
    } else {
        r1
    }
}

/// Whether the machine can form the amounts of a refund.
pub open spec fn reject_fits(e: MatcherTradeEvent, spec: CoreSymbolSpecification) -> bool {
    &&& fits(e.size * spec.base_scale_k)
    &&& mul3_fits(e.size as int, e.bidder_hold_price as int, spec.quote_scale_k as int)
    &&& fits(e.size * spec.taker_fee)
    &&& fits(
        mul3(e.size as int, e.bidder_hold_price as int, spec.quote_scale_k as int) + e.size
            * spec.taker_fee,
    )
}

/// A shard after an order left: what it froze is given back.
pub open spec fn reject_settled(
    r: RiskModel,
    uid: UserId,
    e: MatcherTradeEvent,
    spec: CoreSymbolSpecification,
    sell: bool,
) -> RiskModel {
    if r.owns(uid) {
        let r0 = r.checked(reject_fits(e, spec));
        if sell {
            r0.credited(uid, spec.base_currency, e.size * spec.base_scale_k)
        } else {
            r0.credited(
                uid,
                spec.quote_currency,
                mul3(e.size as int, e.bidder_hold_price as int, spec.quote_scale_k as int) + e.size
                    * spec.taker_fee,
            )
        }
    } else {
        r
    }
}

/// A shard after an event. An order that self-trade prevention took out of the book
/// froze its money on the other side.
pub open spec fn event_settled(
    r: RiskModel,
    uid: UserId,
    e: MatcherTradeEvent,
    spec: CoreSymbolSpecification,
    sell: bool,
) -> RiskModel {
    match e.event_type {
        MatcherEventType::Trade => trade_settled(r, uid, e, spec, sell),
        MatcherEventType::Reject => reject_settled(r, uid, e, spec, sell),
        MatcherEventType::Reduce => reject_settled(r, uid, e, spec, sell),
        MatcherEventType::RejectMaker => reject_settled(r, uid, e, spec, !sell),
    }
}

/// A shard after all events of a command.
pub open spec fn settled(
    r: RiskModel,
    uid: UserId,
    events: Seq<MatcherTradeEvent>,
    spec: CoreSymbolSpecification,
    sell: bool,
) -> RiskModel
    decreases events.len(),
{
    if events.len() == 0 {
        r
    } else {
        event_settled(
            settled(r, uid, events.drop_last(), spec, sell),
            uid,
            events.last(),
            spec,
            sell,
        )
    }
}

/// What a shard does after matching with the events of a command.
pub open spec fn post_processed(
    r: RiskModel,
    uid: UserId,
    symbol: SymbolId,
    action: OrderAction,
    events: Seq<MatcherTradeEvent>,
) -> RiskModel {
    if events.len() == 0 || !r.symbols.contains_key(symbol) {
        r
    } else {
        settled(r, uid, events, r.symbols[symbol], action == OrderAction::Ask)
    }
}

} // verus!
