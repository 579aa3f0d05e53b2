//! What checks, reservations and settlements are for: which orders are taken, what they
//! reserve, what comes back, and who pays what to whom.
use vstd::prelude::*;

use crate::math;
use crate::risk::hold::{Hold, HoldKind};
use crate::risk::laws;
use crate::risk::margins;
use crate::risk::model;
use crate::risk::model::{AccountModel, Ledger};
use crate::types::command::{AdjustBalance, PlaceOrder};
use crate::types::enums::Side;
use crate::types::event::Trade;
use crate::types::ids::{CurrencyId, OrderId, SymbolId, UserId};
use crate::types::numeric::{Bps, Price, Size};
use crate::types::reject::RejectReason;
use crate::types::symbol::SymbolSpec;

verus! {

/// Whether a price is a whole number of steps.
pub open spec fn on_grid(n: int, step: int) -> bool {
    exists|k: int| n == #[trigger] (k * step)
}

/// Whether a price lies no further above and below the reference of its symbol than the
/// symbol allows.
pub open spec fn in_band(price: int, spec: SymbolSpec) -> bool {
    spec.price_band.reference_price matches Some(r) ==> {
        &&& spec.price_band.upper_bps_from_ref matches Some(up) ==> (price - r.0) * 10_000 <= r.0
            * up.0
        &&& spec.price_band.lower_bps_from_ref matches Some(down) ==> (r.0 - price) * 10_000
            <= r.0 * down.0
    }
}

/// Every accepted order makes sense: its symbol and its user are not suspended, its size
/// lies within the limits of the symbol and is a multiple of the lot, and its price is there,
/// is a multiple of the tick and lies in the band.
pub proof fn law_accepted_orders_make_sense(
    s: Ledger,
    cmd: PlaceOrder,
    spec: SymbolSpec,
    order_id: OrderId,
)
    requires
        model::pre_check_place(s, cmd, spec, order_id).1 is Ok,
        spec.price_band.reference_price matches Some(r) ==> r.0 >= 0,
    ensures
        !spec.is_suspended,
        cmd.size.0 > 0,
        spec.min_order_size.0 <= cmd.size.0 <= spec.max_order_size.0,
        cmd.price is Some,
        spec.tick_size.0 > 0 ==> on_grid(margins::limit(cmd), spec.tick_size.0 as int),
        spec.lot_size.0 > 0 ==> on_grid(cmd.size.0 as int, spec.lot_size.0 as int),
        in_band(margins::limit(cmd), spec),
        s.has(cmd.user_id),
        !s.accounts[cmd.user_id].is_suspended,
        cmd.side == Side::Bid && spec.kind_params is Spot ==> (cmd.reserve_price matches Some(at)
            ==> at.0 >= margins::limit(cmd)),
{
    let price = margins::limit(cmd);
    if spec.tick_size.0 > 0 {
        lemma_on_grid(price, spec.tick_size.0 as int);
    }
    if spec.lot_size.0 > 0 {
        lemma_on_grid(cmd.size.0 as int, spec.lot_size.0 as int);
    }
    lemma_band(cmd.price->0, spec);
}

proof fn lemma_on_grid(n: int, step: int)
    requires
        step > 0,
    ensures
        on_grid(n, step) == (n % step == 0),
{
    if n % step == 0 {
        vstd::arithmetic::div_mod::lemma_fundamental_div_mod(n, step);
        let k = n / step;
        assert(step * k == k * step) by (nonlinear_arith);
        assert(n == k * step);
    }
    if on_grid(n, step) {
        let k = choose|k: int| n == #[trigger] (k * step);
        vstd::arithmetic::div_mod::lemma_mod_multiples_basic(k, step);
    }
}

proof fn lemma_band(price: Price, spec: SymbolSpec)
    requires
        spec.price_band.reference_price matches Some(r) ==> r.0 >= 0,
    ensures
        model::out_of_band(price, spec) == !in_band(price.0 as int, spec),
{
    if let Some(r) = spec.price_band.reference_price {
        if let Some(up) = spec.price_band.upper_bps_from_ref {
            let x = r.0 * (10_000 + up.0);
            assert(x == 10_000 * r.0 + r.0 * up.0) by (nonlinear_arith)
                requires
                    x == r.0 * (10_000 + up.0),
            ;
            assert(r.0 * up.0 >= 0) by (nonlinear_arith)
                requires
                    r.0 >= 0,
                    up.0 >= 0,
            ;
        }
        if let Some(down) = spec.price_band.lower_bps_from_ref {
            assert(r.0 * (10_000 - down.0) == 10_000 * r.0 - r.0 * down.0) by (nonlinear_arith);
        }
    }
}

/// What a spot order costs at the worst: a bid its price, or the reserve that it names, with
/// the taker's fee on top, and an ask its size.
pub open spec fn worst_case(cmd: PlaceOrder, spec: SymbolSpec, amount: int, fee: int) -> bool {
    match cmd.side {
        Side::Bid => {
            let at = match cmd.reserve_price {
                Some(p) => p.0 as int,
                None => margins::limit(cmd),
            };
            let gross = at * cmd.size.0 / (spec.base_minor_per_major as int);
            margins::rounded_up(fee, gross, spec.fee_schedule.taker_bps.0 as int) && amount
                == gross + fee
        },
        Side::Ask => fee == 0 && amount == cmd.size.0,
    }
}

/// What an order pays with.
pub open spec fn pays_in(side: Side, spec: SymbolSpec) -> CurrencyId {
    match side {
        Side::Bid => spec.quote_currency,
        Side::Ask => spec.base_currency,
    }
}

/// An accepted spot order reserves its worst case: a bid in the quote currency, an ask in the
/// base currency. That much leaves the free balance, which had it.
pub proof fn law_accepted_spot_orders_are_reserved(
    s: Ledger,
    cmd: PlaceOrder,
    spec: SymbolSpec,
    order_id: OrderId,
    amount: int,
    fee: int,
)
    requires
        model::pre_check_place(s, cmd, spec, order_id).1 is Ok,
        spec.kind_params is Spot,
        spec.base_minor_per_major > 0,
        margins::limit(cmd) >= 0,
        worst_case(cmd, spec, amount, fee),
    ensures
        ({
            let t = model::pre_check_place(s, cmd, spec, order_id).0;
            let h = t.holds[order_id];
            &&& t.holds.contains_key(order_id)
            &&& h.remaining_amount.0 == amount
            &&& h.currency == pays_in(cmd.side, spec)
            &&& h.remaining_size == cmd.size
            &&& h.user_id == cmd.user_id
            &&& h.symbol_id == cmd.symbol_id
            &&& h.side == cmd.side
            &&& h.order_id == order_id
            &&& h.pre_check_fee_bps == spec.fee_schedule.taker_bps
            &&& h.kind matches HoldKind::Spot { bid_reserve_price } && (match cmd.side {
                Side::Bid => bid_reserve_price == (match cmd.reserve_price {
                    Some(p) => Some(p),
                    None => cmd.price,
                }),
                Side::Ask => bid_reserve_price is None,
            })
            &&& margins::reserves(s, t, cmd.user_id, order_id)
        }),
{
    lemma_spot_need(s, cmd, spec, order_id, amount, fee);
    let t = model::pre_check_place(s, cmd, spec, order_id).0;
    let b = t.accounts[cmd.user_id];
    assert(t.accounts =~= s.accounts.insert(cmd.user_id, b));
}

proof fn lemma_spot_need(
    s: Ledger,
    cmd: PlaceOrder,
    spec: SymbolSpec,
    order_id: OrderId,
    amount: int,
    fee: int,
)
    requires
        spec.kind_params is Spot,
        spec.base_minor_per_major > 0,
        cmd.price is Some,
        cmd.size.0 > 0,
        margins::limit(cmd) >= 0,
        worst_case(cmd, spec, amount, fee),
        cmd.side == Side::Bid ==> (cmd.reserve_price matches Some(at) ==> at.0 >= margins::limit(
            cmd,
        )),
    ensures
        model::spot_need(cmd, spec, cmd.price->0) matches Ok((c, n, at)) ==> n == amount,
        amount >= 0,
{
    if cmd.side == Side::Bid {
        let at = match cmd.reserve_price {
            Some(p) => p.0 as int,
            None => margins::limit(cmd),
        };
        margins::lemma_quote(at, cmd.size.0 as int, spec.base_minor_per_major as int);
        margins::lemma_rated(
            at * cmd.size.0 / (spec.base_minor_per_major as int),
            spec.fee_schedule.taker_bps.0 as int,
            fee,
        );
    }
}

/// A refused order leaves all accounts and reservations as they were, and there is a reason
/// for it that is true.
pub proof fn law_refusals_are_true(
    s: Ledger,
    cmd: PlaceOrder,
    spec: SymbolSpec,
    order_id: OrderId,
    amount: int,
    fee: int,
)
    requires
        spec.price_band.reference_price matches Some(r) ==> r.0 >= 0,
        spec.base_minor_per_major > 0,
        spec.kind_params is Spot && margins::limit(cmd) >= 0 ==> worst_case(
            cmd,
            spec,
            amount,
            fee,
        ),
    ensures
        ({
            let (t, r) = model::pre_check_place(s, cmd, spec, order_id);
            r matches Err(reason) ==> {
                &&& t.accounts == s.accounts
                &&& t.holds == s.holds
                &&& t.transfers == s.transfers
                &&& match reason {
                    RejectReason::SymbolSuspended => spec.is_suspended,
                    RejectReason::SizeBelowMinimum => cmd.size.0 <= 0 || cmd.size.0
                        < spec.min_order_size.0,
                    RejectReason::SizeAboveMaximum => cmd.size.0 > spec.max_order_size.0,
                    RejectReason::MissingPrice => cmd.price is None,
                    RejectReason::PriceTickMisaligned => !on_grid(
                        margins::limit(cmd),
                        spec.tick_size.0 as int,
                    ),
                    RejectReason::SizeLotMisaligned => !on_grid(
                        cmd.size.0 as int,
                        spec.lot_size.0 as int,
                    ),
                    RejectReason::PriceBandViolation => !in_band(margins::limit(cmd), spec),
                    RejectReason::UnknownUser => !s.has(cmd.user_id),
                    RejectReason::UserSuspended => s.has(cmd.user_id)
                        && s.accounts[cmd.user_id].is_suspended,
                    RejectReason::InvalidReservePrice => cmd.side == Side::Bid && (
                    cmd.reserve_price matches Some(at) && at.0 < margins::limit(cmd)),
                    RejectReason::InsufficientFunds => spec.kind_params is Spot && (
                    margins::limit(cmd) >= 0 ==> s.accounts[cmd.user_id].free[pays_in(
                        cmd.side,
                        spec,
                    )] < amount),
                    RejectReason::InsufficientMargin => !(spec.kind_params is Spot),
                    RejectReason::ArithmeticOverflow => cmd.side == Side::Bid || !(
                    spec.kind_params is Spot),
                    _ => false,
                }
            }
        }),
{
    let (t, r) = model::pre_check_place(s, cmd, spec, order_id);
    if spec.tick_size.0 > 0 {
        lemma_on_grid(margins::limit(cmd), spec.tick_size.0 as int);
    }
    if spec.lot_size.0 > 0 {
        lemma_on_grid(cmd.size.0 as int, spec.lot_size.0 as int);
    }
    if cmd.price is Some {
        lemma_band(cmd.price->0, spec);
    }
    if r == Err::<(), RejectReason>(RejectReason::InsufficientFunds) && margins::limit(cmd) >= 0 {
        lemma_spot_need(s, cmd, spec, order_id, amount, fee);
    }
}

/// A released reservation comes back whole: what was still reserved for the order is free
/// again, the reservation is gone, and everything else stays.
pub proof fn law_released_money_is_free(s: Ledger, id: OrderId)
    requires
        s.holds.contains_key(id),
        s.has(s.holds[id].user_id),
    ensures
        ({
            let h = s.holds[id];
            let n = h.remaining_amount.0 as int;
            let (t, r) = model::release_hold(s, id);
            let a = s.accounts[h.user_id];
            let b = t.accounts[h.user_id];
            &&& r is Ok
            &&& t.holds == s.holds.remove(id)
            &&& b.free == a.free.insert(h.currency, a.free[h.currency] + n)
            &&& b.held == a.held.insert(h.currency, a.held[h.currency] - n)
            &&& b.positions == a.positions
            &&& t.accounts == s.accounts.insert(h.user_id, b)
        }),
{
    let h = s.holds[id];
    let t = model::release_hold(s, id).0;
    assert(t.accounts =~= s.accounts.insert(h.user_id, t.accounts[h.user_id]));
}

/// Releasing a part of an order gives back the same part of what is reserved for it, without
/// the fraction, and the reservation stands for that much less.
pub proof fn law_parts_come_back_in_proportion(s: Ledger, id: OrderId, size: Size)
    requires
        s.holds.contains_key(id),
        s.has(s.holds[id].user_id),
        0 < size.0 <= s.holds[id].remaining_size.0,
        s.holds[id].remaining_amount.0 >= 0,
    ensures
        ({
            let h = s.holds[id];
            let (t, r) = model::partial_release_hold(s, id, size);
            let g = t.holds[id];
            let back = h.remaining_amount.0 - g.remaining_amount.0;
            let a = s.accounts[h.user_id];
            let b = t.accounts[h.user_id];
            &&& r is Ok
            &&& t.holds == s.holds.insert(id, g)
            &&& laws::kin(h, g)
            &&& g.remaining_size.0 == h.remaining_size.0 - size.0
            &&& back * h.remaining_size.0 <= h.remaining_amount.0 * size.0
            &&& h.remaining_amount.0 * size.0 < (back + 1) * h.remaining_size.0
            &&& b.free == a.free.insert(h.currency, a.free[h.currency] + back)
            &&& b.held == a.held.insert(h.currency, a.held[h.currency] - back)
            &&& b.positions == a.positions
            &&& t.accounts == s.accounts.insert(h.user_id, b)
        }),
{
    let h = s.holds[id];
    let n = h.remaining_size.0 as int;
    let x = h.remaining_amount.0 * size.0;
    let back = math::tdiv(x, n);
    math::lemma_part_between(h.remaining_amount.0 as int, size.0 as int, n);
    math::lemma_tdiv_remainder(x, n);
    assert(x >= 0) by (nonlinear_arith)
        requires
            x == h.remaining_amount.0 * size.0,
            h.remaining_amount.0 >= 0,
            size.0 > 0,
    ;
    vstd::arithmetic::div_mod::lemma_fundamental_div_mod(x, n);
    vstd::arithmetic::div_mod::lemma_mod_bound(x, n);
    assert(back == x / n);
    assert(back * n == n * (x / n)) by (nonlinear_arith)
        requires
            back == x / n,
    ;
    assert((back + 1) * n == back * n + n) by (nonlinear_arith);
    let t = model::partial_release_hold(s, id, size).0;
    assert(t.accounts =~= s.accounts.insert(h.user_id, t.accounts[h.user_id]));
}

/// An accepted deposit or withdrawal changes the free balance of its user in its currency by
/// its amount, and nothing else. A withdrawal is accepted only where the free balance covers
/// it, and a refused one changes no account.
pub proof fn law_transfers_change_one_balance(s: Ledger, cmd: AdjustBalance)
    ensures
        ({
            let (t, r) = model::adjust_balance(s, cmd);
            let a = s.accounts[cmd.user_id];
            let b = t.accounts[cmd.user_id];
            let c = cmd.currency_id;
            &&& r is Ok ==> {
                &&& s.has(cmd.user_id)
                &&& b.free == a.free.insert(c, a.free[c] + cmd.delta.0)
                &&& b.held == a.held
                &&& b.positions == a.positions
                &&& cmd.delta.0 < 0 ==> b.free[c] >= 0
                &&& t.accounts == s.accounts.insert(cmd.user_id, b)
                &&& t.holds == s.holds
            }
            &&& r matches Err(reason) ==> {
                &&& t.accounts == s.accounts
                &&& t.holds == s.holds
                &&& t.transfers == s.transfers
                &&& reason == RejectReason::UnknownUser ==> !s.has(cmd.user_id)
                &&& reason == RejectReason::InsufficientFunds ==> cmd.delta.0 < 0 && a.free[c]
                    + cmd.delta.0 < 0
                &&& reason == RejectReason::UnknownUser || reason
                    == RejectReason::InsufficientFunds || reason
                    == RejectReason::UnsupportedCommand
            }
        }),
{
}

/// A new user has nothing and may trade. A user is added once, and the account that collects
/// the fees is nobody's. Suspending a user changes nothing else, and resuming undoes it.
pub proof fn law_users_begin_with_nothing(s: Ledger, u: UserId)
    ensures
        model::add_user(s, u).1 is Ok <==> u != UserId(0) && !s.has(u),
        model::add_user(s, u).1 is Ok ==> {
            let a = model::add_user(s, u).0.accounts[u];
            &&& model::add_user(s, u).0.accounts == s.accounts.insert(u, a)
            &&& forall|c: CurrencyId| #[trigger] a.free[c] == 0
            &&& forall|c: CurrencyId| #[trigger] a.held[c] == 0
            &&& a.positions.dom() == Set::<SymbolId>::empty()
            &&& !a.is_suspended
        },
        model::add_user(s, u).1 is Err ==> model::add_user(s, u).0 == s,
        forall|x: bool| #[trigger] model::set_suspended(s, u, x).1 is Ok <==> s.has(u),
        forall|x: bool| s.has(u) ==> {
            let a = #[trigger] model::set_suspended(s, u, x).0.accounts[u];
            &&& a.is_suspended == x
            &&& a == (AccountModel { is_suspended: x, ..s.accounts[u] })
            &&& model::set_suspended(s, u, x).0.accounts == s.accounts.insert(u, a)
        },
{
}

/// What an account has in a currency, free or reserved.
pub open spec fn owns(a: AccountModel, c: CurrencyId) -> int {
    a.free[c] + a.held[c]
}

/// The fee rate of a side: the order that came in pays as taker, the one that rested as maker.
pub open spec fn rate_of(is_taker: bool, spec: SymbolSpec) -> int {
    if is_taker {
        spec.fee_schedule.taker_bps.0 as int
    } else {
        spec.fee_schedule.maker_bps.0 as int
    }
}

/// What a trade comes to in the quote currency.
pub open spec fn price_paid(trade: Trade, spec: SymbolSpec) -> int {
    trade.price.0 * trade.size.0 / (spec.base_minor_per_major as int)
}

/// The fee of a side, rounded up.
pub open spec fn is_fee(fee: int, is_taker: bool, trade: Trade, spec: SymbolSpec) -> bool {
    margins::rounded_up(fee, price_paid(trade, spec), rate_of(is_taker, spec))
}

/// What one side of a spot trade does to an account: a buyer gets the size and pays the price and
/// the fee, a seller gives the size and gets the price less the fee.
pub open spec fn spot_change(
    a: AccountModel,
    b: AccountModel,
    side: Side,
    trade: Trade,
    spec: SymbolSpec,
    fee: int,
) -> bool {
    let paid = price_paid(trade, spec);
    &&& match side {
        Side::Bid => owns(b, spec.base_currency) == owns(a, spec.base_currency) + trade.size.0
            && owns(b, spec.quote_currency) == owns(a, spec.quote_currency) - paid - fee,
        Side::Ask => owns(b, spec.base_currency) == owns(a, spec.base_currency) - trade.size.0
            && owns(b, spec.quote_currency) == owns(a, spec.quote_currency) + paid - fee,
    }
    &&& b.positions == a.positions
    &&& b.is_suspended == a.is_suspended
    &&& forall|c: CurrencyId|
        c != spec.base_currency && c != spec.quote_currency ==> #[trigger] b.free[c] == a.free[c]
    &&& forall|c: CurrencyId|
        c != spec.base_currency && c != spec.quote_currency ==> #[trigger] b.held[c] == a.held[c]
}

proof fn lemma_spot_side(
    s: Ledger,
    trade: Trade,
    h: Hold,
    is_taker: bool,
    spec: SymbolSpec,
    fee: int,
)
    requires
        laws::spot_hold(h, spec),
        spec.base_minor_per_major > 0,
        spec.base_currency != spec.quote_currency,
        trade.price.0 >= 0,
        trade.size.0 > 0,
        is_fee(fee, is_taker, trade, spec),
        s.has(model::house()),
        h.user_id != model::house(),
        model::settle_side(s, trade, h, is_taker, spec).1 is Ok,
    ensures
        ({
            let t = model::settle_side(s, trade, h, is_taker, spec).0;
            let u = h.user_id;
            &&& spot_change(s.accounts[u], t.accounts[u], h.side, trade, spec, fee)
            &&& t.accounts[model::house()].free[spec.quote_currency]
                == s.accounts[model::house()].free[spec.quote_currency] + fee
            &&& forall|v: UserId|
                v != u && v != model::house() ==> #[trigger] t.accounts[v] == s.accounts[v]
            &&& forall|v: UserId| #[trigger] t.has(v) == s.has(v)
        }),
{
    margins::lemma_quote(
        trade.price.0 as int,
        trade.size.0 as int,
        spec.base_minor_per_major as int,
    );
    margins::lemma_rated(price_paid(trade, spec), rate_of(is_taker, spec), fee);
    assert(s.has(h.user_id));
}

/// A settled spot trade moves its size from the seller to the buyer and its price from the
/// buyer to the seller, each side pays its own fee, the taker the taker's and the maker the
/// maker's, and the account that collects the fees gets both. Nobody else is touched.
pub proof fn law_spot_trades_pay_both_sides(
    s: Ledger,
    trade: Trade,
    spec: SymbolSpec,
    taker_fee: int,
    maker_fee: int,
)
    requires
        s.has(UserId(0)),
        s.holds.contains_key(trade.taker_order_id),
        s.holds.contains_key(trade.maker_order_id),
        trade.taker_order_id != trade.maker_order_id,
        laws::spot_hold(s.holds[trade.taker_order_id], spec),
        laws::spot_hold(s.holds[trade.maker_order_id], spec),
        s.holds[trade.taker_order_id].user_id != s.holds[trade.maker_order_id].user_id,
        s.holds[trade.taker_order_id].user_id != UserId(0),
        s.holds[trade.maker_order_id].user_id != UserId(0),
        spec.base_minor_per_major > 0,
        spec.base_currency != spec.quote_currency,
        trade.price.0 >= 0,
        trade.size.0 > 0,
        is_fee(taker_fee, true, trade, spec),
        is_fee(maker_fee, false, trade, spec),
        model::apply_trade(s, trade, spec).1 is Ok,
    ensures
        ({
            let t = model::apply_trade(s, trade, spec).0;
            let th = s.holds[trade.taker_order_id];
            let mh = s.holds[trade.maker_order_id];
            let u = th.user_id;
            let v = mh.user_id;
            &&& spot_change(s.accounts[u], t.accounts[u], th.side, trade, spec, taker_fee)
            &&& spot_change(s.accounts[v], t.accounts[v], mh.side, trade, spec, maker_fee)
            &&& t.accounts[UserId(0)].free[spec.quote_currency]
                == s.accounts[UserId(0)].free[spec.quote_currency] + taker_fee + maker_fee
            &&& forall|w: UserId|
                w != u && w != v && w != UserId(0) ==> #[trigger] t.accounts[w] == s.accounts[w]
        }),
{
    let th = s.holds[trade.taker_order_id];
    let mh = s.holds[trade.maker_order_id];
    let s1 = s.drop_hold(trade.taker_order_id);
    let s2 = s1.drop_hold(trade.maker_order_id);
    lemma_spot_side(s2, trade, th, true, spec, taker_fee);
    let s3 = model::settle_side(s2, trade, th, true, spec).0;
    assert(s3.has(model::house()));
    lemma_spot_side(s3, trade, mh, false, spec, maker_fee);
}

/// What a drawn-down reservation leaves of the reserved balance.
proof fn lemma_drawn(s: Ledger, h: Hold, amount: int, size: int)
    requires
        model::drawn_down(s, h, amount, size).0.exact,
    ensures
        ({
            let (t, r) = model::drawn_down(s, h, amount, size);
            let before = s.accounts[h.user_id].held[h.currency];
            let after = t.accounts[h.user_id].held[h.currency];
            match r {
                Ok(None) => size == h.remaining_size.0 && after == before - (h.remaining_amount.0
                    - amount),
                Ok(Some(k)) => {
                    &&& size != h.remaining_size.0
                    &&& k.remaining_size.0 == h.remaining_size.0 - size
                    &&& k.remaining_amount.0 == h.remaining_amount.0 - amount
                    &&& after == before
                    &&& k.order_id == h.order_id && k.user_id == h.user_id && k.symbol_id
                        == h.symbol_id
                    &&& k.side == h.side && k.currency == h.currency && k.kind == h.kind
                    &&& k.pre_check_fee_bps == h.pre_check_fee_bps
                },
                Err(_) => false,
            }
        }),
{
}

/// What a payment from a reservation leaves of the reserved balance.
proof fn lemma_paid(s: Ledger, u: UserId, c: CurrencyId, reserved: int, cost: int)
    ensures
        model::pay_from_reserve(s, u, c, reserved, cost).0.accounts[u].held[c]
            == s.accounts[u].held[c] - reserved,
{
}

proof fn lemma_opens(
    s: Ledger,
    trade: Trade,
    h: Hold,
    notional: int,
    fee: int,
    reserved: int,
    imr: Bps,
    spec: SymbolSpec,
)
    requires
        model::settle_open(s, trade, h, notional, fee, reserved, imr, spec).1 is Ok,
    ensures
        model::settle_open(
            s,
            trade,
            h,
            notional,
            fee,
            reserved,
            imr,
            spec,
        ).0.accounts[h.user_id].held[h.currency] == s.accounts[h.user_id].held[h.currency]
            - reserved,
{
    let margin = model::rated(Some(notional), imr);
    if let Some(cost) = model::summed(margin, Some(fee)) {
        lemma_paid(s, h.user_id, h.currency, reserved, cost);
    }
}

proof fn lemma_flips(
    s: Ledger,
    trade: Trade,
    h: Hold,
    fee: int,
    reserved: int,
    imr: Bps,
    spec: SymbolSpec,
)
    requires
        model::settle_flip(s, trade, h, fee, reserved, imr, spec).1 is Ok,
    ensures
        model::settle_flip(
            s,
            trade,
            h,
            fee,
            reserved,
            imr,
            spec,
        ).0.accounts[h.user_id].held[h.currency] == s.accounts[h.user_id].held[h.currency]
            - reserved,
{
    let p = s.accounts[h.user_id].position_in(h.symbol_id);
    let added = model::signed(h.side, trade.size.0 as int);
    let closed = model::word_abs(p.size.0 as int);
    let opened = model::word_abs(added) - closed;
    let gain = model::profit(p, closed, trade.price, spec);
    let s1 = s.claim(math::fits_i64(opened) && math::fits_i64(gain));
    if let Some(margin) = model::rated(
        model::quoted(trade.price.0 as int, opened, spec),
        imr,
    ) {
        lemma_paid(s1, h.user_id, h.currency, reserved, margin + fee);
    }
}

proof fn lemma_reduces(
    s: Ledger,
    trade: Trade,
    h: Hold,
    fee: int,
    reserved: int,
    spec: SymbolSpec,
)
    requires
        model::settle_reduce(s, trade, h, fee, reserved, spec).1 is Ok,
    ensures
        model::settle_reduce(
            s,
            trade,
            h,
            fee,
            reserved,
            spec,
        ).0.accounts[h.user_id].held[h.currency] == s.accounts[h.user_id].held[h.currency]
            - reserved,
{
    lemma_paid(s, h.user_id, h.currency, reserved, fee);
}

/// Whether the reservation of an order and the reserved balance of its user went down together,
/// and the reservation is gone where the order is filled whole.
pub open spec fn follows(s: Ledger, trade: Trade, h: Hold, settled: model::Settled) -> bool {
    let before = s.accounts[h.user_id].held[h.currency];
    let after = settled.0.accounts[h.user_id].held[h.currency];
    match settled.1 {
        Ok(None) => trade.size.0 == h.remaining_size.0 && after == before - h.remaining_amount.0,
        Ok(Some(k)) => {
            &&& trade.size.0 != h.remaining_size.0
            &&& k.remaining_size.0 == h.remaining_size.0 - trade.size.0
            &&& after == before - (h.remaining_amount.0 - k.remaining_amount.0)
            &&& k.order_id == h.order_id && k.user_id == h.user_id && k.symbol_id == h.symbol_id
            &&& k.side == h.side && k.currency == h.currency && k.kind == h.kind
            &&& k.pre_check_fee_bps == h.pre_check_fee_bps
        },
        Err(_) => false,
    }
}

proof fn lemma_spot_follows(
    s: Ledger,
    trade: Trade,
    h: Hold,
    is_taker: bool,
    spec: SymbolSpec,
)
    requires
        model::settle_spot(s, trade, h, is_taker, spec).1 is Ok,
        model::settle_spot(s, trade, h, is_taker, spec).0.exact,
    ensures
        follows(s, trade, h, model::settle_spot(s, trade, h, is_taker, spec)),
{
    let u = h.user_id;
    match h.side {
        Side::Bid => {
            if let HoldKind::Spot { bid_reserve_price: Some(reserve) } = h.kind {
                let (release, slack, fee) = model::bid_terms(
                    trade,
                    h,
                    reserve,
                    is_taker,
                    spec,
                )->0;
                let t = s.reserve(u, h.currency, -release).credit(u, h.currency, slack).credit(
                    u,
                    spec.base_currency,
                    trade.size.0 as int,
                ).credit(model::house(), spec.quote_currency, fee);
                lemma_drawn(t, h, release, trade.size.0 as int);
            }
        },
        Side::Ask => {
            let (net, fee) = model::ask_terms(trade, is_taker, spec)->0;
            let t = s.reserve(u, h.currency, -(trade.size.0 as int)).credit(
                u,
                spec.quote_currency,
                net,
            ).credit(model::house(), spec.quote_currency, fee);
            lemma_drawn(t, h, trade.size.0 as int, trade.size.0 as int);
        },
    }
}

/// A fill takes from what its order reserved, and the reservation of the order and the reserved
/// balance of its user go down together. An order that is filled whole has no reservation any
/// more: what was not used of it is free again.
#[verifier::spinoff_prover]
#[verifier::rlimit(40)]
pub proof fn law_reservations_follow_fills(
    s: Ledger,
    trade: Trade,
    h: Hold,
    is_taker: bool,
    spec: SymbolSpec,
)
    requires
        model::settle_side(s, trade, h, is_taker, spec).1 is Ok,
        model::settle_side(s, trade, h, is_taker, spec).0.exact,
    ensures
        follows(s, trade, h, model::settle_side(s, trade, h, is_taker, spec)),
{
    match h.kind {
        HoldKind::Spot { bid_reserve_price } => {
            lemma_spot_follows(s, trade, h, is_taker, spec);
        },
        HoldKind::Derivative { reserve_margin, reserve_fee, original_size, ref_price } => {
            let imr = model::initial_margin(spec)->0;
            let p = s.accounts[h.user_id].position_in(h.symbol_id);
            let added = model::signed(h.side, trade.size.0 as int);
            let against = p.size.0 != 0 && (p.size.0 > 0) != (added > 0);
            let flips = against && model::word_abs(added) > model::word_abs(p.size.0 as int);
            let margin_share = model::share(reserve_margin, trade.size, original_size);
            let fee_share = model::share(reserve_fee, trade.size, original_size);
            let notional = model::quoted(trade.price.0 as int, trade.size.0 as int, spec);
            let f = model::rated(notional, model::fee_rate(is_taker, spec))->0;
            let reserved = margin_share + fee_share;
            let s1 = s.claim(
                trade.size.0 != i64::MIN && original_size.0 != 0 && math::fits_i64(margin_share)
                    && math::fits_i64(fee_share),
            );
            let (t, r) = if flips {
                model::settle_flip(s1, trade, h, f, reserved, imr, spec)
            } else if against {
                model::settle_reduce(s1, trade, h, f, reserved, spec)
            } else {
                model::settle_open(s1, trade, h, notional->0, f, reserved, imr, spec)
            };
            if flips {
                lemma_flips(s1, trade, h, f, reserved, imr, spec);
            } else if against {
                lemma_reduces(s1, trade, h, f, reserved, spec);
            } else {
                lemma_opens(s1, trade, h, notional->0, f, reserved, imr, spec);
            }
            lemma_drawn(t, h, reserved, trade.size.0 as int);
        },
    }
}

} // verus!
