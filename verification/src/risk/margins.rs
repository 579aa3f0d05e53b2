//! What margins are for: positions that a mark leaves uncovered are closed, and an order
//! is covered before it reaches a book.
use vstd::prelude::*;

use crate::math;
use crate::risk::hold::{HoldKind, Position};
use crate::risk::model;
use crate::risk::model::{AccountModel, Ledger};
use crate::types::command::PlaceOrder;
use crate::types::enums::Side;
use crate::types::ids::{CurrencyId, OrderId, UserId};
use crate::types::numeric;
use crate::types::numeric::Price;
use crate::types::reject::RejectReason;
use crate::types::symbol::{SymbolKindParams, SymbolSpec};

verus! {

/// How often a positive number goes into another one, without the fraction.
pub open spec fn whole(a: int, b: int) -> int {
    if a >= 0 {
        a / b
    } else {
        -((-a) / b)
    }
}

/// The size of a position without its direction.
pub open spec fn extent(p: Position) -> int {
    if p.size.0 >= 0 {
        p.size.0 as int
    } else {
        -p.size.0
    }
}

/// What a position is worth at a mark: its margin, and what it won or lost since entry.
pub open spec fn equity(p: Position, mark: Price, spec: SymbolSpec) -> int {
    p.margin_locked.0 + whole(
        (mark.0 - p.entry_price.0) * p.size.0,
        spec.base_minor_per_major as int,
    )
}

/// What a position must be worth at a mark at the least.
pub open spec fn maintenance(p: Position, mark: Price, spec: SymbolSpec) -> int {
    let rate: int = match spec.kind_params {
        SymbolKindParams::Spot => 0,
        SymbolKindParams::PerpetualSwap(k) => k.maintenance_margin_bps.0 as int,
        SymbolKindParams::Future(k) => k.maintenance_margin_bps.0 as int,
    };
    whole(whole(mark.0 * extent(p), spec.base_minor_per_major as int) * rate, 10_000)
}

/// Whether an account has its position in a symbol closed for what it is worth: nothing of the
/// position is left, and nothing else of the account is touched.
pub open spec fn closed_for(
    a: AccountModel,
    b: AccountModel,
    spec: SymbolSpec,
    worth: int,
) -> bool {
    let p = a.positions[spec.symbol_id];
    let q = b.positions[spec.symbol_id];
    &&& q.size.0 == 0
    &&& q.entry_price.0 == 0
    &&& q.margin_locked.0 == 0
    &&& q.margin_currency == p.margin_currency
    &&& b.positions == a.positions.insert(spec.symbol_id, q)
    &&& b.free == a.free.insert(spec.quote_currency, a.free[spec.quote_currency] + worth)
    &&& b.held == a.held
    &&& b.is_suspended == a.is_suspended
}

/// A position is closed at a mark exactly where margin and profit fall below the
/// maintenance margin. Its user then has what it was worth, and nothing of it is left. All
/// other positions, and everything else of every account, stay as they are.
pub proof fn law_uncovered_positions_are_closed(s: Ledger, spec: SymbolSpec, mark: Price, u: UserId)
    requires
        s.has(u),
        u != UserId(0),
        spec.base_minor_per_major > 0,
        !(spec.kind_params is Spot),
        s.accounts[u].positions.contains_key(spec.symbol_id),
        s.accounts[u].positions[spec.symbol_id].size.0 != i64::MIN,
    ensures
        ({
            let a = s.accounts[u];
            let b = model::liquidate(s, spec, mark).accounts[u];
            let p = a.positions[spec.symbol_id];
            let q = b.positions[spec.symbol_id];
            &&& p.size.0 != 0 && equity(p, mark, spec) < maintenance(p, mark, spec) ==> closed_for(
                a,
                b,
                spec,
                equity(p, mark, spec),
            )
            &&& p.size.0 == 0 || equity(p, mark, spec) >= maintenance(p, mark, spec) ==> b == a
            &&& q.size.0 != 0 ==> equity(q, mark, spec) >= maintenance(q, mark, spec)
        }),
{
    let p = s.accounts[u].positions[spec.symbol_id];
    lemma_profit(p, mark, spec);
}

/// A mark in a spot symbol, where there are no positions, changes nothing, and no mark
/// touches the reservations or the account that collects the fees.
pub proof fn law_marks_touch_positions_only(s: Ledger, spec: SymbolSpec, mark: Price)
    ensures
        spec.kind_params is Spot ==> model::liquidate(s, spec, mark) == s,
        model::liquidate(s, spec, mark).holds == s.holds,
        model::liquidate(s, spec, mark).transfers == s.transfers,
        s.has(UserId(0)) ==> model::liquidate(s, spec, mark).accounts[UserId(0)]
            == s.accounts[UserId(0)],
        forall|u: UserId| #[trigger] model::liquidate(s, spec, mark).has(u) == s.has(u),
        forall|u: UserId| #[trigger]
            s.has(u) && !s.accounts[u].positions.contains_key(spec.symbol_id)
                ==> model::liquidate(s, spec, mark).accounts[u] == s.accounts[u],
{
}

pub proof fn lemma_profit(p: Position, price: Price, spec: SymbolSpec)
    requires
        spec.base_minor_per_major > 0,
    ensures
        model::profit(p, extent(p), price, spec) == whole(
            (price.0 - p.entry_price.0) * p.size.0,
            spec.base_minor_per_major as int,
        ),
{
    let d = price.0 - p.entry_price.0;
    let n = p.size.0 as int;
    assert((-d) * (-n) == d * n) by (nonlinear_arith);
    assert((p.entry_price.0 - price.0) * (-n) == (-d) * (-n));
}

/// A future settles all positions at its price: each user has margin and profit, and no
/// position is left.
pub proof fn law_settlement_closes_all(s: Ledger, spec: SymbolSpec, price: Price, u: UserId)
    requires
        s.has(u),
        u != UserId(0),
        spec.base_minor_per_major > 0,
        s.accounts[u].positions.contains_key(spec.symbol_id),
        s.accounts[u].positions[spec.symbol_id].size.0 != i64::MIN,
    ensures
        ({
            let a = s.accounts[u];
            let b = model::sweep(s, spec, price, None).accounts[u];
            let p = a.positions[spec.symbol_id];
            let q = b.positions[spec.symbol_id];
            &&& q.size.0 == 0
            &&& p.size.0 != 0 ==> closed_for(a, b, spec, equity(p, price, spec))
            &&& p.size.0 == 0 ==> b == a
        }),
{
    lemma_profit(s.accounts[u].positions[spec.symbol_id], price, spec);
}

/// Funding moves `size * mark * rate` from each position, in the quote currency and without
/// the fractions: where the rate is positive, longs pay and shorts receive, and where it
/// is negative the other way round. Nothing else of an account changes.
pub proof fn law_funding_is_paid_by_size(
    s: Ledger,
    spec: SymbolSpec,
    mark: Price,
    rate: int,
    u: UserId,
)
    requires
        s.has(u),
        u != UserId(0),
        spec.base_minor_per_major > 0,
        s.accounts[u].positions.contains_key(spec.symbol_id),
    ensures
        ({
            let a = s.accounts[u];
            let b = model::apply_funding(s, spec, mark, rate).accounts[u];
            let p = a.positions[spec.symbol_id];
            let paid = a.free[spec.quote_currency] - b.free[spec.quote_currency];
            &&& paid == whole(
                whole(p.size.0 * mark.0 * rate, spec.base_minor_per_major as int),
                10_000,
            )
            &&& mark.0 >= 0 && rate >= 0 && p.size.0 >= 0 ==> paid >= 0
            &&& mark.0 >= 0 && rate >= 0 && p.size.0 <= 0 ==> paid <= 0
            &&& b.positions == a.positions
            &&& b.held == a.held
            &&& b.is_suspended == a.is_suspended
            &&& s.has(UserId(0)) ==> model::apply_funding(s, spec, mark, rate).accounts[UserId(0)]
                == s.accounts[UserId(0)]
            &&& forall|c: CurrencyId|
                c != spec.quote_currency ==> #[trigger] b.free[c] == a.free[c]
        }),
{
    let p = s.accounts[u].positions[spec.symbol_id];
    let scale = spec.base_minor_per_major as int;
    let x = p.size.0 * mark.0 * rate;
    if mark.0 >= 0 && rate >= 0 {
        if p.size.0 >= 0 {
            assert(x >= 0) by (nonlinear_arith)
                requires
                    x == p.size.0 * mark.0 * rate,
                    mark.0 >= 0,
                    rate >= 0,
                    p.size.0 >= 0,
            ;
        } else {
            assert(x <= 0) by (nonlinear_arith)
                requires
                    x == p.size.0 * mark.0 * rate,
                    mark.0 >= 0,
                    rate >= 0,
                    p.size.0 <= 0,
            ;
        }
    }
    lemma_whole_sign(x, scale);
    if p.size.0 == 0 {
        assert(x == 0) by (nonlinear_arith)
            requires
                x == p.size.0 * mark.0 * rate,
                p.size.0 == 0,
        ;
    }
}

proof fn lemma_whole_sign(a: int, b: int)
    requires
        b > 0,
    ensures
        a >= 0 ==> whole(a, b) >= 0,
        a <= 0 ==> whole(a, b) <= 0,
        a == 0 ==> whole(a, b) == 0,
{
    if a >= 0 {
        vstd::arithmetic::div_mod::lemma_div_pos_is_pos(a, b);
    } else {
        vstd::arithmetic::div_mod::lemma_div_pos_is_pos(-a, b);
    }
    if a == 0 {
        assert(0int / b == 0) by (nonlinear_arith)
            requires
                b > 0,
        ;
    }
}

/// The price of an order.
pub open spec fn limit(cmd: PlaceOrder) -> int {
    match cmd.price {
        Some(p) => p.0 as int,
        None => 0,
    }
}

/// The size of an order with the direction in which it moves a position.
pub open spec fn directed(cmd: PlaceOrder) -> int {
    match cmd.side {
        Side::Bid => cmd.size.0 as int,
        Side::Ask => -cmd.size.0,
    }
}

/// Whether an amount is a rate of another one, rounded up.
pub open spec fn rounded_up(part: int, amount: int, bps: int) -> bool {
    part * 10_000 >= amount * bps && (part - 1) * 10_000 < amount * bps
}

/// What the position in a symbol would be after an order of it filled whole.
pub open spec fn left_by(p: Position, cmd: PlaceOrder) -> int {
    let n = p.size.0 + directed(cmd);
    if n >= 0 {
        n
    } else {
        -n
    }
}

/// The rate of the initial margin.
pub open spec fn initial_rate(spec: SymbolSpec) -> int {
    match spec.kind_params {
        SymbolKindParams::Spot => 0,
        SymbolKindParams::PerpetualSwap(k) => k.initial_margin_bps.0 as int,
        SymbolKindParams::Future(k) => k.initial_margin_bps.0 as int,
    }
}

/// An accepted order in a derivative is covered: what it reserves and what the position
/// of its user locks already are together the initial margin of the position that the
/// order would leave at its price, rounded up. It reserves no margin where the position
/// locks enough alone. Besides, it reserves the taker's fee, rounded up. What it reserves
/// leaves the free balance, which had that much.
pub proof fn law_accepted_orders_are_margined(
    s: Ledger,
    cmd: PlaceOrder,
    spec: SymbolSpec,
    order_id: OrderId,
    margin: int,
)
    requires
        model::pre_check_place(s, cmd, spec, order_id).1 is Ok,
        model::pre_check_place(s, cmd, spec, order_id).0.exact,
        !(spec.kind_params is Spot),
        spec.base_minor_per_major > 0,
        limit(cmd) >= 0,
        s.accounts[cmd.user_id].position_in(cmd.symbol_id).margin_locked.0 >= 0,
        left_by(s.accounts[cmd.user_id].position_in(cmd.symbol_id), cmd) <= i64::MAX,
        rounded_up(
            margin,
            limit(cmd) * left_by(
                s.accounts[cmd.user_id].position_in(cmd.symbol_id),
                cmd,
            ) / (spec.base_minor_per_major as int),
            initial_rate(spec),
        ),
    ensures
        ({
            let t = model::pre_check_place(s, cmd, spec, order_id).0;
            let p = s.accounts[cmd.user_id].position_in(cmd.symbol_id);
            let h = t.holds[order_id];
            let gross = limit(cmd) * cmd.size.0 / (spec.base_minor_per_major as int);
            &&& t.holds.contains_key(order_id)
            &&& h.kind matches HoldKind::Derivative {
                reserve_margin,
                reserve_fee,
                original_size,
                ref_price,
            } && {
                &&& reserve_margin.0 >= 0
                &&& reserve_margin.0 + p.margin_locked.0 >= margin
                &&& p.margin_locked.0 >= margin ==> reserve_margin.0 == 0
                &&& p.margin_locked.0 < margin ==> reserve_margin.0 + p.margin_locked.0 == margin
                &&& rounded_up(
                    reserve_fee.0 as int,
                    gross,
                    spec.fee_schedule.taker_bps.0 as int,
                )
                &&& original_size == cmd.size
                &&& ref_price.0 == limit(cmd)
                &&& h.remaining_amount.0 == reserve_margin.0 + reserve_fee.0
            }
            &&& h.user_id == cmd.user_id
            &&& h.side == cmd.side
            &&& h.symbol_id == cmd.symbol_id
            &&& h.remaining_size == cmd.size
            &&& h.currency == spec.quote_currency
            &&& reserves(s, t, cmd.user_id, order_id)
        }),
{
    let p = s.accounts[cmd.user_id].position_in(cmd.symbol_id);
    let price = limit(cmd);
    let scale = spec.base_minor_per_major as int;
    let target = left_by(p, cmd);
    lemma_quote(price, target, scale);
    lemma_quote(price, cmd.size.0 as int, scale);
    lemma_rated(price * target / scale, initial_rate(spec), margin);
    lemma_rated_is(price * (cmd.size.0 as int) / scale, spec.fee_schedule.taker_bps.0 as int);
    let t = model::pre_check_place(s, cmd, spec, order_id).0;
    assert(t.holds.contains_key(order_id));
    assert(reserves(s, t, cmd.user_id, order_id)) by {
        let b = t.accounts[cmd.user_id];
        assert(t.accounts =~= s.accounts.insert(cmd.user_id, b));
    }
}

/// Whether a ledger has moved the amount of a hold from free to reserved, and nothing
/// else.
pub open spec fn reserves(s: Ledger, t: Ledger, u: UserId, order_id: OrderId) -> bool {
    let h = t.holds[order_id];
    let a = s.accounts[u];
    let b = t.accounts[u];
    let n = h.remaining_amount.0 as int;
    &&& n == 0 || a.free[h.currency] >= n
    &&& b.free == a.free.insert(h.currency, a.free[h.currency] - n)
    &&& b.held == a.held.insert(h.currency, a.held[h.currency] + n)
    &&& b.positions == a.positions
    &&& b.is_suspended == a.is_suspended
    &&& t.accounts == s.accounts.insert(u, b)
    &&& t.holds == s.holds.insert(order_id, h)
    &&& t.transfers == s.transfers
}

pub proof fn lemma_quote(price: int, size: int, scale: int)
    requires
        price >= 0,
        size >= 0,
        scale > 0,
    ensures
        price * size >= 0,
        math::tdiv(price * size, scale) == price * size / scale,
        price * size / scale >= 0,
{
    assert(price * size >= 0) by (nonlinear_arith)
        requires
            price >= 0,
            size >= 0,
    ;
    vstd::arithmetic::div_mod::lemma_div_pos_is_pos(price * size, scale);
}

proof fn lemma_rated_is(amount: int, bps: int)
    requires
        amount >= 0,
        bps >= 0,
    ensures
        numeric::bps_of_ceil(amount, bps) >= 0,
        rounded_up(numeric::bps_of_ceil(amount, bps), amount, bps),
{
    assert(amount * bps >= 0) by (nonlinear_arith)
        requires
            amount >= 0,
            bps >= 0,
    ;
}

pub proof fn lemma_rated(amount: int, bps: int, part: int)
    requires
        amount >= 0,
        bps >= 0,
        rounded_up(part, amount, bps),
    ensures
        numeric::bps_of_ceil(amount, bps) == part,
        part >= 0,
{
    lemma_rated_is(amount, bps);
}

/// An order in a derivative that is refused for want of margin asked for more than its user
/// had free.
pub proof fn law_margin_is_refused_for_want_of_money(
    s: Ledger,
    cmd: PlaceOrder,
    spec: SymbolSpec,
    order_id: OrderId,
    margin: int,
    fee: int,
)
    requires
        !(spec.kind_params is Spot),
        spec.base_minor_per_major > 0,
        cmd.price is Some,
        limit(cmd) >= 0,
        s.accounts[cmd.user_id].position_in(cmd.symbol_id).margin_locked.0 >= 0,
        math::fits_i64(
            s.accounts[cmd.user_id].position_in(cmd.symbol_id).size.0 + directed(cmd),
        ),
        left_by(s.accounts[cmd.user_id].position_in(cmd.symbol_id), cmd) <= i64::MAX,
        rounded_up(
            margin,
            limit(cmd) * left_by(
                s.accounts[cmd.user_id].position_in(cmd.symbol_id),
                cmd,
            ) / (spec.base_minor_per_major as int),
            initial_rate(spec),
        ),
        rounded_up(
            fee,
            limit(cmd) * cmd.size.0 / (spec.base_minor_per_major as int),
            spec.fee_schedule.taker_bps.0 as int,
        ),
        model::pre_check_place(s, cmd, spec, order_id).1 == Err::<(), RejectReason>(
            RejectReason::InsufficientMargin,
        ),
    ensures
        ({
            let a = s.accounts[cmd.user_id];
            let locked = a.position_in(cmd.symbol_id).margin_locked.0;
            let more = if margin > locked {
                margin - locked
            } else {
                0
            };
            &&& a.free[spec.quote_currency] < more + fee
            &&& model::pre_check_place(s, cmd, spec, order_id).0.accounts == s.accounts
            &&& model::pre_check_place(s, cmd, spec, order_id).0.holds == s.holds
        }),
{
    let p = s.accounts[cmd.user_id].position_in(cmd.symbol_id);
    let price = limit(cmd);
    let scale = spec.base_minor_per_major as int;
    let target = left_by(p, cmd);
    assert(cmd.size.0 > 0);
    lemma_quote(price, target, scale);
    lemma_quote(price, cmd.size.0 as int, scale);
    lemma_rated(price * target / scale, initial_rate(spec), margin);
    lemma_rated(
        price * (cmd.size.0 as int) / scale,
        spec.fee_schedule.taker_bps.0 as int,
        fee,
    );
}

} // verus!
