//! What the ledger of the exchange is for: what an order freezes, what it gives back, and who
//! pays what to whom.
use vstd::prelude::*;

use crate::exchange::api::{
    CommandResultCode, CoreSymbolSpecification, Currency, MatcherEventType, MatcherTradeEvent,
    OrderAction, OrderCommand, OrderCommandType, OrderType, UserId,
};
use crate::exchange::ledger;
use crate::exchange::ledger::RiskModel;

verus! {

/// What a user has free in a currency.
pub open spec fn has_free(r: RiskModel, u: UserId, c: Currency) -> int {
    if r.users.contains_key(u) && r.users[u].accounts.contains_key(c) {
        r.users[u].accounts[c]
    } else {
        0
    }
}

/// What the fees have come to in a currency.
pub open spec fn collected(r: RiskModel, c: Currency) -> int {
    if r.fees.contains_key(c) {
        r.fees[c]
    } else {
        0
    }
}

/// The price that the money of an order is frozen at: its own, or for a bid without a budget
/// the reserve price that it names.
pub open spec fn frozen_at(c: OrderCommand) -> int {
    if c.action == OrderAction::Bid && c.order_type != OrderType::FokBudget && c.order_type
        != OrderType::IocBudget {
        c.reserve_price as int
    } else {
        c.price as int
    }
}

/// What a size costs at the worst: a bid the price and the taker's fee, an ask the size itself.
pub open spec fn worst_case(
    action: OrderAction,
    size: int,
    at: int,
    spec: CoreSymbolSpecification,
) -> int {
    match action {
        OrderAction::Bid => size * at * spec.quote_scale_k + size * spec.taker_fee,
        OrderAction::Ask => size * spec.base_scale_k,
    }
}

/// The currency that an order pays with.
pub open spec fn pays_in(action: OrderAction, spec: CoreSymbolSpecification) -> Currency {
    match action {
        OrderAction::Bid => spec.quote_currency,
        OrderAction::Ask => spec.base_currency,
    }
}

/// Whether the free money of one user in one currency changed by an amount, and that of nobody
/// else and in no other currency.
pub open spec fn only_changed(
    r: RiskModel,
    t: RiskModel,
    u: UserId,
    c: Currency,
    n: int,
) -> bool {
    &&& has_free(t, u, c) == has_free(r, u, c) + n
    &&& forall|v: UserId, d: Currency|
        v != u || d != c ==> #[trigger] has_free(t, v, d) == has_free(r, v, d)
    &&& t.fees == r.fees
    &&& t.users.dom() == r.users.dom()
    &&& t.symbols == r.symbols
}

proof fn lemma_credited(r: RiskModel, u: UserId, c: Currency, n: int)
    requires
        r.users.contains_key(u),
    ensures
        only_changed(r, r.credited(u, c, n), u, c, n),
{
    assert(r.credited(u, c, n).users.dom() =~= r.users.dom());
}

/// An order is let through exactly where its size and prices are positive, a bid does not bid
/// more than it is frozen at, its symbol and its user are known, the amount fits, and the user
/// has that much free. The amount is then frozen, and nothing else changes. Otherwise
/// nothing changes at all, and the answer says why.
pub proof fn law_orders_freeze_their_worst_case(r: RiskModel, c: OrderCommand)
    requires
        c.command == OrderCommandType::PlaceOrder,
        r.owns(c.uid),
    ensures
        ({
            let step = ledger::pre_processed(r, c);
            let at = frozen_at(c);
            let spec = r.symbols[c.symbol];
            let n = worst_case(c.action, c.size as int, at, spec);
            let ok = step.code == CommandResultCode::ValidForMatchingEngine;
            &&& step.reserve_price == at
            &&& ok ==> {
                &&& c.size > 0 && c.price > 0 && at > 0
                &&& c.action == OrderAction::Bid ==> at >= c.price
                &&& r.symbols.contains_key(c.symbol)
                &&& r.users.contains_key(c.uid)
                &&& i64::MIN <= n <= i64::MAX
                &&& has_free(r, c.uid, pays_in(c.action, spec)) >= n
                &&& only_changed(r, step.risk, c.uid, pays_in(c.action, spec), -n)
            }
            &&& !ok ==> step.risk == r
            &&& match step.code {
                CommandResultCode::ValidForMatchingEngine => true,
                CommandResultCode::RiskInvalidOrderParams => c.size <= 0 || c.price <= 0 || at
                    <= 0,
                CommandResultCode::RiskInvalidReserveBidPrice => c.action == OrderAction::Bid && at
                    < c.price,
                CommandResultCode::InvalidSymbol => !r.symbols.contains_key(c.symbol),
                CommandResultCode::AuthInvalidUser => !r.users.contains_key(c.uid),
                CommandResultCode::RiskNsf => has_free(r, c.uid, pays_in(c.action, spec)) < n,
                CommandResultCode::RiskArithmeticOverflow => !(i64::MIN <= n <= i64::MAX) || !(
                i64::MIN <= c.size * at <= i64::MAX) || !(i64::MIN <= c.size * at
                    * spec.quote_scale_k <= i64::MAX) || !(i64::MIN <= c.size * spec.taker_fee
                    <= i64::MAX),
                _ => false,
            }
        }),
{
    let spec = r.symbols[c.symbol];
    let n = worst_case(c.action, c.size as int, frozen_at(c), spec);
    if r.users.contains_key(c.uid) {
        lemma_credited(r, c.uid, pays_in(c.action, spec), -n);
    }
}

/// What leaves an order gives back is what it froze: an order that is frozen and then leaves
/// whole leaves the money of everybody as it was.
pub proof fn law_frozen_money_comes_back(r: RiskModel, c: OrderCommand, e: MatcherTradeEvent)
    requires
        c.command == OrderCommandType::PlaceOrder,
        r.owns(c.uid),
        ledger::pre_processed(r, c).code == CommandResultCode::ValidForMatchingEngine,
        e.event_type == MatcherEventType::Reject,
        e.size == c.size,
        e.bidder_hold_price == frozen_at(c),
    ensures
        ({
            let t = ledger::post_processed(
                ledger::pre_processed(r, c).risk,
                c.uid,
                c.symbol,
                c.action,
                seq![e],
            );
            &&& forall|u: UserId, d: Currency| #[trigger] has_free(t, u, d) == has_free(r, u, d)
            &&& forall|d: Currency| #[trigger] collected(t, d) == collected(r, d)
        }),
{
    let t1 = ledger::pre_processed(r, c).risk;
    let spec = r.symbols[c.symbol];
    reveal_with_fuel(ledger::settled, 2);
    assert(seq![e].drop_last() =~= Seq::<MatcherTradeEvent>::empty());
    assert(t1.symbols == r.symbols);
    assert(t1.owns(c.uid));
}

/// What an order that leaves gives back: a bid the price that it was frozen at and the taker's
/// fee, an ask the size. An order that prevention struck is one of the other side.
pub proof fn law_leaving_orders_give_back(
    r: RiskModel,
    u: UserId,
    e: MatcherTradeEvent,
    spec: CoreSymbolSpecification,
    action: OrderAction,
)
    requires
        r.owns(u),
        r.users.contains_key(u),
        e.event_type != MatcherEventType::Trade,
    ensures
        ({
            let t = ledger::event_settled(r, u, e, spec, action == OrderAction::Ask);
            let side = if e.event_type == MatcherEventType::RejectMaker {
                action.other()
            } else {
                action
            };
            only_changed(
                r,
                t,
                u,
                pays_in(side, spec),
                worst_case(side, e.size as int, e.bidder_hold_price as int, spec),
            )
        }),
{
    let side = if e.event_type == MatcherEventType::RejectMaker {
        action.other()
    } else {
        action
    };
    let r0 = r.checked(ledger::reject_fits(e, spec));
    lemma_credited(
        r0,
        u,
        pays_in(side, spec),
        worst_case(side, e.size as int, e.bidder_hold_price as int, spec),
    );
    assert forall|v: UserId, d: Currency| #[trigger] has_free(r0, v, d) == has_free(r, v, d) by {}
}

/// What a trade of a size at a price comes to.
pub open spec fn price_paid(e: MatcherTradeEvent, spec: CoreSymbolSpecification) -> int {
    e.size * e.price * spec.quote_scale_k
}

/// What a buyer gets from a trade beyond the size: what was frozen for it and is not paid. The
/// taker pays the taker's fee and the maker the maker's.
pub open spec fn change_of(e: MatcherTradeEvent, spec: CoreSymbolSpecification, fee: int) -> int {
    worst_case(OrderAction::Bid, e.size as int, e.bidder_hold_price as int, spec) - price_paid(
        e,
        spec,
    ) - e.size * fee
}

/// A trade between two users of a shard: the buyer gets the size and what was frozen beyond the
/// price and the fee, the seller gets the price less the fee, each pays its own fee, and both
/// fees are collected. Nobody else is touched.
pub proof fn law_trades_pay_both_sides(
    r: RiskModel,
    taker: UserId,
    e: MatcherTradeEvent,
    spec: CoreSymbolSpecification,
    action: OrderAction,
)
    requires
        r.owns(taker),
        r.owns(e.matched_order_uid),
        r.users.contains_key(taker),
        r.users.contains_key(e.matched_order_uid),
        taker != e.matched_order_uid,
        spec.base_currency != spec.quote_currency,
        e.event_type == MatcherEventType::Trade,
    ensures
        ({
            let t = ledger::event_settled(r, taker, e, spec, action == OrderAction::Ask);
            let maker = e.matched_order_uid;
            let (buyer, seller, buyer_fee, seller_fee) = match action {
                OrderAction::Bid => (
                    taker,
                    maker,
                    spec.taker_fee as int,
                    spec.maker_fee as int,
                ),
                OrderAction::Ask => (maker, taker, spec.maker_fee as int, spec.taker_fee as int),
            };
            let q = spec.quote_currency;
            let b = spec.base_currency;
            &&& has_free(t, buyer, b) == has_free(r, buyer, b) + e.size * spec.base_scale_k
            &&& has_free(t, buyer, q) == has_free(r, buyer, q) + change_of(e, spec, buyer_fee)
            &&& has_free(t, seller, b) == has_free(r, seller, b)
            &&& has_free(t, seller, q) == has_free(r, seller, q) + price_paid(e, spec) - e.size
                * seller_fee
            &&& collected(t, q) == collected(r, q) + e.size * spec.taker_fee + e.size
                * spec.maker_fee
            &&& forall|d: Currency| d != q ==> #[trigger] collected(t, d) == collected(r, d)
            &&& forall|u: UserId, d: Currency|
                (u != taker && u != maker) || (d != b && d != q) ==> #[trigger] has_free(t, u, d)
                    == has_free(r, u, d)
        }),
{
    let s = e.size as int;
    let h = e.bidder_hold_price as int;
    let p = e.price as int;
    let k = spec.quote_scale_k as int;
    assert(s * (h - p) * k == s * h * k - s * p * k) by (nonlinear_arith);
}

/// A side whose user belongs to another shard is left to that shard.
pub proof fn law_shards_settle_their_users(
    r: RiskModel,
    taker: UserId,
    e: MatcherTradeEvent,
    spec: CoreSymbolSpecification,
    action: OrderAction,
    u: UserId,
    d: Currency,
)
    requires
        !r.owns(u),
        !r.users.contains_key(u),
    ensures
        has_free(
            ledger::event_settled(r, taker, e, spec, action == OrderAction::Ask),
            u,
            d,
        ) == has_free(r, u, d),
        !r.owns(taker) && !r.owns(e.matched_order_uid) ==> ledger::event_settled(
            r,
            taker,
            e,
            spec,
            action == OrderAction::Ask,
        ).users == r.users,
        !r.owns(taker) ==> ledger::event_settled(
            r,
            taker,
            e,
            spec,
            action == OrderAction::Ask,
        ).fees == r.fees,
{
}

/// A balance adjustment is made exactly where the user is known, its transaction number is larger
/// than the last one of the user, and the sum fits and is not negative. It changes that one
/// balance by its amount and notes the number.
pub proof fn law_adjustments_change_one_balance(r: RiskModel, c: OrderCommand)
    requires
        c.command == OrderCommandType::BalanceAdjustment,
        r.owns(c.uid),
        c.order_id <= i64::MAX,
    ensures
        ({
            let step = ledger::pre_processed(r, c);
            let sum = has_free(r, c.uid, c.symbol) + c.price;
            let known = r.users.contains_key(c.uid);
            let newer = c.order_id > r.users[c.uid].last_tx;
            &&& step.code == CommandResultCode::Success <==> known && newer && 0 <= sum
                <= i64::MAX
            &&& step.code == CommandResultCode::Success ==> {
                &&& only_changed(r, step.risk, c.uid, c.symbol, c.price as int)
                &&& step.risk.users[c.uid].last_tx == c.order_id
            }
            &&& step.code != CommandResultCode::Success ==> step.risk.users == r.users
            &&& step.code == CommandResultCode::AuthInvalidUser <==> !known
            &&& step.code == CommandResultCode::UserMgmtDuplicateTransaction <==> known && !newer
            &&& step.code == CommandResultCode::RiskNsf <==> known && newer && i64::MIN <= sum < 0
        }),
{
    let t = ledger::pre_processed(r, c).risk;
    if r.users.contains_key(c.uid) {
        assert(t.users.dom() =~= r.users.dom());
    }
    assert(c.order_id as i64 == c.order_id);
}

/// A user is added once and begins with nothing.
pub proof fn law_users_begin_with_nothing(r: RiskModel, c: OrderCommand)
    requires
        c.command == OrderCommandType::AddUser,
        r.owns(c.uid),
    ensures
        ({
            let step = ledger::pre_processed(r, c);
            &&& step.risk.users.contains_key(c.uid)
            &&& r.users.contains_key(c.uid) ==> step.risk == r && step.code
                == CommandResultCode::UserMgmtUserAlreadyExists
            &&& !r.users.contains_key(c.uid) ==> {
                &&& step.code == CommandResultCode::Success
                &&& step.risk.users == r.users.insert(c.uid, step.risk.users[c.uid])
                &&& forall|d: Currency| #[trigger] has_free(step.risk, c.uid, d) == 0
                &&& step.risk.users[c.uid].last_tx == 0
            }
        }),
{
}

/// Commands of users of other shards, and commands about orders in the book, pass a shard of the
/// ledger unchanged on their way to matching.
pub proof fn law_other_commands_pass(r: RiskModel, c: OrderCommand)
    requires
        !r.owns(c.uid) || (c.command != OrderCommandType::PlaceOrder && c.command
            != OrderCommandType::AddUser && c.command != OrderCommandType::BalanceAdjustment),
    ensures
        ledger::pre_processed(r, c).risk == r,
        ledger::pre_processed(r, c).code == c.result_code,
        ledger::pre_processed(r, c).reserve_price == c.reserve_price,
{
}

} // verus!
