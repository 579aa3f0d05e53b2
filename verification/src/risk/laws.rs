//! What holds of the ledger as a whole.
use vstd::prelude::*;

use crate::math;
use crate::risk::hold::{Hold, HoldKind};
use crate::risk::model;
use crate::risk::model::{AccountModel, Ledger};
use crate::store::sums;
use crate::types::command::{AdjustBalance, PlaceOrder};
use crate::types::enums::Side;
use crate::types::event::Trade;
use crate::types::ids::{CurrencyId, OrderId, SymbolId, UserId};
use crate::types::numeric;
use crate::types::numeric::{Bps, Price, Size};
use crate::types::reject::RejectReason;
use crate::types::symbol::SymbolSpec;

verus! {

/// Finitely many accounts with finitely many positions.
pub open spec fn finite_accounts(m: Map<UserId, AccountModel>) -> bool {
    &&& m.dom().finite()
    &&& forall|u: UserId| #[trigger] m.contains_key(u) ==> m[u].positions.dom().finite()
}

/// A ledger with finitely many accounts and positions, one of the accounts being
/// the house's.
pub open spec fn finite(s: Ledger) -> bool {
    finite_accounts(s.accounts) && s.has(model::house())
}

/// What an account update does to the total.
pub proof fn lemma_account_total(s: Ledger, u: UserId, a: AccountModel, c: CurrencyId)
    requires
        finite(s),
        s.has(u),
        a.positions.dom().finite(),
    ensures
        finite(s.with_account(u, a)),
        model::total_internal(s.with_account(u, a), c) == model::total_internal(s, c)
            + model::worth_in(c)(a) - model::worth_in(c)(s.accounts[u]),
{
    sums::lemma_sum_insert(s.accounts, model::worth_in(c), u, a);
    let m = s.with_account(u, a).accounts;
    assert forall|v: UserId| #[trigger] m.contains_key(v) implies m[v].positions.dom().finite() by {
        if v != u {
            assert(s.accounts.contains_key(v));
        }
    }
}

/// Free money counts in full.
pub proof fn lemma_credit_total(s: Ledger, u: UserId, d: CurrencyId, x: int, c: CurrencyId)
    requires
        finite(s),
        s.has(u),
    ensures
        finite(s.credit(u, d, x)),
        model::total_internal(s.credit(u, d, x), c) == model::total_internal(s, c) + (if c == d {
            x
        } else {
            0
        }),
{
    let a = s.accounts[u].credited(d, x);
    assert(a.positions == s.accounts[u].positions);
    lemma_account_total(s, u, a, c);
    assert(s.credit(u, d, x).accounts == s.with_account(u, a).accounts);
}

/// Reserved money counts in full.
pub proof fn lemma_reserve_total(s: Ledger, u: UserId, d: CurrencyId, x: int, c: CurrencyId)
    requires
        finite(s),
        s.has(u),
    ensures
        finite(s.reserve(u, d, x)),
        model::total_internal(s.reserve(u, d, x), c) == model::total_internal(s, c) + (if c == d {
            x
        } else {
            0
        }),
{
    let a = s.accounts[u].reserved(d, x);
    assert(a.positions == s.accounts[u].positions);
    lemma_account_total(s, u, a, c);
    assert(s.reserve(u, d, x).accounts == s.with_account(u, a).accounts);
}

/// Opening and suspending accounts moves no money.
pub proof fn law_users_conserve(s: Ledger, u: UserId, suspended: bool, c: CurrencyId)
    requires
        finite(s),
    ensures
        model::total_internal(model::add_user(s, u).0, c) == model::total_internal(s, c),
        model::total_internal(model::set_suspended(s, u, suspended).0, c)
            == model::total_internal(s, c),
        finite(model::add_user(s, u).0),
        finite(model::set_suspended(s, u, suspended).0),
{
    if !s.has(u) && u != model::house() {
        let a = model::empty_account(u);
        sums::lemma_sum_insert(s.accounts, model::worth_in(c), u, a);
        assert(a.positions.dom() =~= Set::<SymbolId>::empty());
        assert(sums::sum_map(a.positions, model::margin_in(c)) == 0);
        let m = s.with_account(u, a).accounts;
        assert forall|v: UserId| #[trigger] m.contains_key(v) implies m[v].positions.dom().finite() by {
            if v != u {
                assert(s.accounts.contains_key(v));
            }
        }
    }
    if s.has(u) {
        let b = AccountModel { is_suspended: suspended, ..s.accounts[u] };
        lemma_account_total(s, u, b, c);
    }
}

/// A deposit or withdrawal changes the total of its currency by what it moves,
/// and no other total. A refused one changes nothing.
pub proof fn law_adjustment_moves_its_amount(s: Ledger, cmd: AdjustBalance, c: CurrencyId)
    requires
        finite(s),
    ensures
        finite(model::adjust_balance(s, cmd).0),
        model::total_internal(model::adjust_balance(s, cmd).0, c) == model::total_internal(s, c)
            + (if model::adjust_balance(s, cmd).1 is Ok && c == cmd.currency_id {
            cmd.delta.0 as int
        } else {
            0
        }),
{
    if s.has(cmd.user_id) {
        lemma_credit_total(s, cmd.user_id, cmd.currency_id, cmd.delta.0 as int, c);
    }
}

/// Reserving funds moves no money.
proof fn lemma_lock_total(s: Ledger, h: Hold, short: RejectReason, c: CurrencyId)
    requires
        finite(s),
        s.has(h.user_id),
    ensures
        finite(model::lock(s, h, short).0),
        model::total_internal(model::lock(s, h, short).0, c) == model::total_internal(s, c),
        model::lock(s, h, short).0.accounts.dom() == s.accounts.dom(),
{
    let amount = h.remaining_amount.0 as int;
    lemma_credit_total(s, h.user_id, h.currency, -amount, c);
    lemma_reserve_total(
        s.credit(h.user_id, h.currency, -amount),
        h.user_id,
        h.currency,
        amount,
        c,
    );
    assert(model::lock(s, h, short).0.accounts.dom() =~= s.accounts.dom());
}

/// Checking an order, whether it passes or not, leaves every total as it was.
pub proof fn law_pre_check_conserves(
    s: Ledger,
    cmd: PlaceOrder,
    spec: SymbolSpec,
    order_id: OrderId,
    c: CurrencyId,
)
    requires
        finite(s),
    ensures
        finite(model::pre_check_place(s, cmd, spec, order_id).0),
        model::total_internal(model::pre_check_place(s, cmd, spec, order_id).0, c)
            == model::total_internal(s, c),
        model::pre_check_place(s, cmd, spec, order_id).0.accounts.dom() == s.accounts.dom(),
{
    if model::order_refusal(cmd, spec).is_none() && s.has(cmd.user_id)
        && !s.accounts[cmd.user_id].is_suspended {
        let price = cmd.price->0;
        match model::initial_margin(spec) {
            None => {
                if let Ok((currency, amount, at)) = model::spot_need(cmd, spec, price) {
                    let h = Hold {
                        user_id: cmd.user_id,
                        symbol_id: cmd.symbol_id,
                        order_id,
                        side: cmd.side,
                        currency,
                        remaining_size: cmd.size,
                        remaining_amount: numeric::Amount(amount as i64),
                        pre_check_fee_bps: spec.fee_schedule.taker_bps,
                        kind: HoldKind::Spot { bid_reserve_price: at },
                    };
                    lemma_lock_total(s, h, RejectReason::InsufficientFunds, c);
                }
            },
            Some(imr) => {
                let a = s.accounts[cmd.user_id];
                let ok = math::fits_i64(
                    a.position_in(cmd.symbol_id).size.0 + model::signed(
                        cmd.side,
                        cmd.size.0 as int,
                    ),
                );
                let s1 = s.claim(ok);
                if let Some((margin, fee)) = model::derivative_need(a, cmd, spec, imr, price) {
                    let h = Hold {
                        user_id: cmd.user_id,
                        symbol_id: cmd.symbol_id,
                        order_id,
                        side: cmd.side,
                        currency: spec.quote_currency,
                        remaining_size: cmd.size,
                        remaining_amount: numeric::Amount((margin + fee) as i64),
                        pre_check_fee_bps: spec.fee_schedule.taker_bps,
                        kind: HoldKind::Derivative {
                            reserve_margin: numeric::Amount(margin as i64),
                            reserve_fee: numeric::Amount(fee as i64),
                            original_size: cmd.size,
                            ref_price: price,
                        },
                    };
                    lemma_lock_total(s1, h, RejectReason::InsufficientMargin, c);
                }
            },
        }
    }
}

proof fn lemma_unreserve_total(s: Ledger, u: UserId, d: CurrencyId, x: int, c: CurrencyId)
    requires
        finite(s),
        s.has(u),
    ensures
        finite(s.unreserve(u, d, x)),
        model::total_internal(s.unreserve(u, d, x), c) == model::total_internal(s, c),
        s.unreserve(u, d, x).accounts.dom() == s.accounts.dom(),
{
    lemma_reserve_total(s, u, d, -x, c);
    lemma_credit_total(s.reserve(u, d, -x), u, d, x, c);
    assert(s.unreserve(u, d, x).accounts.dom() =~= s.accounts.dom());
}

/// Giving a reservation back, whole or in part, leaves every total as it was.
pub proof fn law_release_conserves(s: Ledger, order_id: OrderId, size: Size, c: CurrencyId)
    requires
        finite(s),
    ensures
        finite(model::release_hold(s, order_id).0),
        model::total_internal(model::release_hold(s, order_id).0, c) == model::total_internal(
            s,
            c,
        ),
        model::release_hold(s, order_id).0.accounts.dom() == s.accounts.dom(),
        finite(model::partial_release_hold(s, order_id, size).0),
        model::total_internal(model::partial_release_hold(s, order_id, size).0, c)
            == model::total_internal(s, c),
        model::partial_release_hold(s, order_id, size).0.accounts.dom() == s.accounts.dom(),
{
    if s.holds.contains_key(order_id) {
        let h = s.holds[order_id];
        let t = s.drop_hold(order_id);
        if s.has(h.user_id) {
            lemma_unreserve_total(t, h.user_id, h.currency, h.remaining_amount.0 as int, c);
            if size.0 > 0 && h.remaining_size.0 > 0 {
                let part = if size.0 <= h.remaining_size.0 {
                    size.0 as int
                } else {
                    h.remaining_size.0 as int
                };
                let amount = model::released_part(h, part);
                let smaller = Hold {
                    remaining_size: Size((h.remaining_size.0 - part) as i64),
                    remaining_amount: numeric::Amount((h.remaining_amount.0 - amount) as i64),
                    ..h
                };
                let t2 = Ledger { holds: s.holds.insert(order_id, smaller), ..s };
                lemma_unreserve_total(t2, h.user_id, h.currency, amount, c);
            }
        }
    }
}

/// Giving a reservation back keeps the users.
pub proof fn lemma_release_users(s: Ledger, order_id: OrderId, size: Size)
    ensures
        model::release_hold(s, order_id).0.accounts.dom() == s.accounts.dom(),
        model::partial_release_hold(s, order_id, size).0.accounts.dom() == s.accounts.dom(),
{
    assert(model::release_hold(s, order_id).0.accounts.dom() =~= s.accounts.dom());
    assert(model::partial_release_hold(s, order_id, size).0.accounts.dom()
        =~= s.accounts.dom());
}

/// What is left of a reservation after a fill.
proof fn lemma_drawn_down(s: Ledger, h: Hold, amount: int, size: int, c: CurrencyId)
    requires
        finite(s),
        s.has(h.user_id),
    ensures
        ({
            let (t, r) = model::drawn_down(s, h, amount, size);
            &&& finite(t)
            &&& model::total_internal(t, c) == model::total_internal(s, c)
            &&& t.accounts.dom() == s.accounts.dom()
            &&& t.holds == s.holds
            &&& r == (if h.remaining_size.0 - size == 0 {
                Ok::<Option<Hold>, RejectReason>(None)
            } else {
                Ok(
                    Some(
                        Hold {
                            remaining_amount: numeric::Amount(
                                (h.remaining_amount.0 - amount) as i64,
                            ),
                            remaining_size: Size((h.remaining_size.0 - size) as i64),
                            ..h
                        },
                    ),
                )
            })
        }),
{
    let left = h.remaining_amount.0 - amount;
    let open = h.remaining_size.0 - size;
    let t = s.claim(math::fits_i64(left) && math::fits_i64(open));
    if open == 0 && left != 0 {
        lemma_unreserve_total(t, h.user_id, h.currency, left, c);
    }
}

/// Whether a reservation is one of a spot order of a symbol.
pub open spec fn spot_hold(h: Hold, spec: SymbolSpec) -> bool {
    match h.side {
        Side::Bid => h.currency == spec.quote_currency && (h.kind matches HoldKind::Spot {
            bid_reserve_price: at,
        } && at.is_some()),
        Side::Ask => h.currency == spec.base_currency && h.kind is Spot,
    }
}

/// What one side of a spot trade does to the total of a currency: the buyer's
/// side takes the price out of the quote currency and adds the base, the
/// seller's side the other way round. The fee stays inside.
pub open spec fn spot_effect(side: Side, trade: Trade, spec: SymbolSpec, c: CurrencyId) -> int {
    let cost = math::tdiv(
        trade.price.0 * trade.size.0,
        spec.base_minor_per_major as int,
    );
    let quote = if c == spec.quote_currency {
        cost
    } else {
        0
    };
    let base = if c == spec.base_currency {
        trade.size.0 as int
    } else {
        0
    };
    match side {
        Side::Bid => base - quote,
        Side::Ask => quote - base,
    }
}

/// Settling one side of a spot trade.
proof fn lemma_settle_spot(
    s: Ledger,
    trade: Trade,
    h: Hold,
    is_taker: bool,
    spec: SymbolSpec,
    c: CurrencyId,
)
    requires
        finite(s),
        spot_hold(h, spec),
        model::settle_spot(s, trade, h, is_taker, spec).1 is Ok,
    ensures
        ({
            let (t, r) = model::settle_spot(s, trade, h, is_taker, spec);
            &&& finite(t)
            &&& model::total_internal(t, c) == model::total_internal(s, c) + spot_effect(
                h.side,
                trade,
                spec,
                c,
            )
            &&& t.accounts.dom() == s.accounts.dom()
        }),
{
    let u = h.user_id;
    let size = trade.size.0 as int;
    let house = model::house();
    match h.side {
        Side::Bid => {
            let reserve = match h.kind {
                HoldKind::Spot { bid_reserve_price } => bid_reserve_price->0,
                _ => Price(0),
            };
            let (release, slack, fee) = model::bid_terms(trade, h, reserve, is_taker, spec)->0;
            let s1 = s.reserve(u, h.currency, -release);
            let s2 = s1.credit(u, h.currency, slack);
            let s3 = s2.credit(u, spec.base_currency, size);
            let s4 = s3.credit(house, spec.quote_currency, fee);
            lemma_reserve_total(s, u, h.currency, -release, c);
            lemma_credit_total(s1, u, h.currency, slack, c);
            lemma_credit_total(s2, u, spec.base_currency, size, c);
            lemma_credit_total(s3, house, spec.quote_currency, fee, c);
            lemma_drawn_down(s4, h, release, size, c);
            assert(s4.accounts.dom() =~= s.accounts.dom());
        },
        Side::Ask => {
            let (net, fee) = model::ask_terms(trade, is_taker, spec)->0;
            let s1 = s.reserve(u, h.currency, -size);
            let s2 = s1.credit(u, spec.quote_currency, net);
            let s3 = s2.credit(house, spec.quote_currency, fee);
            lemma_reserve_total(s, u, h.currency, -size, c);
            lemma_credit_total(s1, u, spec.quote_currency, net, c);
            lemma_credit_total(s2, house, spec.quote_currency, fee, c);
            lemma_drawn_down(s3, h, size, size, c);
            assert(s3.accounts.dom() =~= s.accounts.dom());
        },
    }
}

/// A spot trade that settles leaves the total of every currency exactly as it
/// was, fees included.
pub proof fn law_spot_trade_conserves(s: Ledger, trade: Trade, spec: SymbolSpec, c: CurrencyId)
    requires
        finite(s),
        s.holds.contains_key(trade.taker_order_id),
        s.holds.contains_key(trade.maker_order_id),
        spot_hold(s.holds[trade.taker_order_id], spec),
        spot_hold(s.holds[trade.maker_order_id], spec),
        s.holds[trade.taker_order_id].side == s.holds[trade.maker_order_id].side.other(),
        model::apply_trade(s, trade, spec).1 is Ok,
    ensures
        finite(model::apply_trade(s, trade, spec).0),
        model::total_internal(model::apply_trade(s, trade, spec).0, c) == model::total_internal(
            s,
            c,
        ),
        model::apply_trade(s, trade, spec).0.accounts.dom() == s.accounts.dom(),
{
    let th = s.holds[trade.taker_order_id];
    let s1 = s.drop_hold(trade.taker_order_id);
    let mh = s1.holds[trade.maker_order_id];
    let s2 = s1.drop_hold(trade.maker_order_id);
    assert(trade.taker_order_id != trade.maker_order_id);
    assert(mh == s.holds[trade.maker_order_id]);
    lemma_settle_spot(s2, trade, th, true, spec, c);
    let s3 = model::settle_side(s2, trade, th, true, spec).0;
    lemma_settle_spot(s3, trade, mh, false, spec, c);
}

/// Whether two reservations are states of one: only what is left differs.
pub open spec fn kin(h: Hold, g: Hold) -> bool {
    g == Hold { remaining_amount: g.remaining_amount, remaining_size: g.remaining_size, ..h }
}

/// The same reservations and the same users.
pub open spec fn stable(s: Ledger, t: Ledger) -> bool {
    t.holds == s.holds && t.accounts.dom() == s.accounts.dom()
}

proof fn lemma_update_stable(s: Ledger, u: UserId, a: AccountModel)
    requires
        s.has(u),
    ensures
        stable(s, s.with_account(u, a)),
{
    assert(s.with_account(u, a).accounts.dom() =~= s.accounts.dom());
}

proof fn lemma_credit_stable(s: Ledger, u: UserId, c: CurrencyId, x: int)
    requires
        s.has(u),
    ensures
        stable(s, s.credit(u, c, x)),
{
    lemma_update_stable(s, u, s.accounts[u].credited(c, x));
}

proof fn lemma_reserve_stable(s: Ledger, u: UserId, c: CurrencyId, x: int)
    requires
        s.has(u),
    ensures
        stable(s, s.reserve(u, c, x)),
{
    lemma_update_stable(s, u, s.accounts[u].reserved(c, x));
}

proof fn lemma_pay_stable(s: Ledger, u: UserId, c: CurrencyId, reserved: int, cost: int)
    requires
        s.has(u),
    ensures
        stable(s, model::pay_from_reserve(s, u, c, reserved, cost).0),
{
    let t = s.reserve(u, c, -reserved);
    lemma_reserve_stable(s, u, c, -reserved);
    assert(t.has(u));
    lemma_credit_stable(t.claim(math::fits_i64(cost - reserved)), u, c, reserved - cost);
    lemma_credit_stable(t, u, c, numeric::saturated(reserved - cost));
}

proof fn lemma_drawn_stable(s: Ledger, h: Hold, amount: int, size: int)
    requires
        s.has(h.user_id),
    ensures
        stable(s, model::drawn_down(s, h, amount, size).0),
{
    let left = h.remaining_amount.0 - amount;
    let open = h.remaining_size.0 - size;
    let t = s.claim(math::fits_i64(left) && math::fits_i64(open));
    lemma_reserve_stable(t, h.user_id, h.currency, -left);
    assert(t.reserve(h.user_id, h.currency, -left).has(h.user_id));
    lemma_credit_stable(t.reserve(h.user_id, h.currency, -left), h.user_id, h.currency, left);
}

proof fn lemma_open_stable(
    s: Ledger,
    trade: Trade,
    h: Hold,
    notional: int,
    fee: int,
    reserved: int,
    imr: Bps,
    spec: SymbolSpec,
)
    requires
        s.has(h.user_id),
        s.has(model::house()),
    ensures
        stable(s, model::settle_open(s, trade, h, notional, fee, reserved, imr, spec).0),
{
    let u = h.user_id;
    let margin = model::rated(Some(notional), imr);
    if let Some(cost) = model::summed(margin, Some(fee)) {
        let (t, paid) = model::pay_from_reserve(s, u, h.currency, reserved, cost);
        lemma_pay_stable(s, u, h.currency, reserved, cost);
        assert(t.has(u) && t.has(model::house()));
        if paid {
            let (t2, r) = model::settle_open(s, trade, h, notional, fee, reserved, imr, spec);
            assert(t2.accounts.dom() =~= t.accounts.dom());
        }
    }
}

proof fn lemma_flip_stable(
    s: Ledger,
    trade: Trade,
    h: Hold,
    fee: int,
    reserved: int,
    imr: Bps,
    spec: SymbolSpec,
)
    requires
        s.has(h.user_id),
        s.has(model::house()),
    ensures
        stable(s, model::settle_flip(s, trade, h, fee, reserved, imr, spec).0),
{
    let u = h.user_id;
    let p = s.accounts[u].position_in(h.symbol_id);
    let added = model::signed(h.side, trade.size.0 as int);
    let closed = model::word_abs(p.size.0 as int);
    let opened = model::word_abs(added) - closed;
    let gain = model::profit(p, closed, trade.price, spec);
    let s1 = s.claim(math::fits_i64(opened) && math::fits_i64(gain));
    if let Some(margin) = model::rated(model::quoted(trade.price.0 as int, opened, spec), imr) {
        lemma_reserve_stable(s1, u, h.currency, -reserved);
        let (t, paid) = model::pay_from_reserve(s1, u, h.currency, reserved, margin + fee);
        lemma_pay_stable(s1, u, h.currency, reserved, margin + fee);
        assert(t.has(u) && t.has(model::house()));
        let (t2, r) = model::settle_flip(s, trade, h, fee, reserved, imr, spec);
        if paid && r is Ok {
            assert(t2.accounts.dom() =~= t.accounts.dom());
        }
    }
}

proof fn lemma_reduce_stable(
    s: Ledger,
    trade: Trade,
    h: Hold,
    fee: int,
    reserved: int,
    spec: SymbolSpec,
)
    requires
        s.has(h.user_id),
        s.has(model::house()),
    ensures
        stable(s, model::settle_reduce(s, trade, h, fee, reserved, spec).0),
{
    let u = h.user_id;
    let (t, paid) = model::pay_from_reserve(s, u, h.currency, reserved, fee);
    lemma_pay_stable(s, u, h.currency, reserved, fee);
    assert(t.has(u) && t.has(model::house()));
    if paid {
        let (t2, r) = model::settle_reduce(s, trade, h, fee, reserved, spec);
        assert(t2.accounts.dom() =~= t.accounts.dom());
    }
}

/// What is left of a side's reservation after its fill.
pub open spec fn drawn(h: Hold, size: int, r: Option<Hold>) -> bool {
    if size == h.remaining_size.0 {
        r.is_none()
    } else {
        r.is_some() && kin(h, r.unwrap()) && r.unwrap().remaining_size.0 == h.remaining_size.0
            - size
    }
}

proof fn lemma_derivative_holds(
    s: Ledger,
    trade: Trade,
    h: Hold,
    is_taker: bool,
    spec: SymbolSpec,
)
    requires
        s.has(model::house()),
        0 < trade.size.0 <= h.remaining_size.0,
        model::settle_derivative(s, trade, h, is_taker, spec).1 is Ok,
    ensures
        stable(s, model::settle_derivative(s, trade, h, is_taker, spec).0),
        drawn(
            h,
            trade.size.0 as int,
            model::settle_derivative(s, trade, h, is_taker, spec).1->Ok_0,
        ),
{
    if let (
        HoldKind::Derivative { reserve_margin, reserve_fee, original_size, ref_price },
        Some(imr),
    ) = (h.kind, model::initial_margin(spec)) {
        let margin_share = model::share(reserve_margin, trade.size, original_size);
        let fee_share = model::share(reserve_fee, trade.size, original_size);
        let notional = model::quoted(trade.price.0 as int, trade.size.0 as int, spec);
        let fee = model::rated(notional, model::fee_rate(is_taker, spec));
        let s1 = s.claim(
            trade.size.0 != i64::MIN && original_size.0 != 0 && math::fits_i64(margin_share)
                && math::fits_i64(fee_share),
        );
        if let (Some(reserved), Some(f)) = (model::fitted(margin_share + fee_share), fee) {
            lemma_flip_stable(s1, trade, h, f, reserved, imr, spec);
            lemma_reduce_stable(s1, trade, h, f, reserved, spec);
            lemma_open_stable(s1, trade, h, notional->0, f, reserved, imr, spec);
            let t1 = model::settle_flip(s1, trade, h, f, reserved, imr, spec).0;
            let t2 = model::settle_reduce(s1, trade, h, f, reserved, spec).0;
            let t3 = model::settle_open(s1, trade, h, notional->0, f, reserved, imr, spec).0;
            assert(t1.has(h.user_id) && t2.has(h.user_id) && t3.has(h.user_id));
            lemma_drawn_stable(t1, h, reserved, trade.size.0 as int);
            lemma_drawn_stable(t2, h, reserved, trade.size.0 as int);
            lemma_drawn_stable(t3, h, reserved, trade.size.0 as int);
        }
    }
}

proof fn lemma_spot_holds(s: Ledger, trade: Trade, h: Hold, is_taker: bool, spec: SymbolSpec)
    requires
        s.has(model::house()),
        0 < trade.size.0 <= h.remaining_size.0,
        model::settle_spot(s, trade, h, is_taker, spec).1 is Ok,
    ensures
        stable(s, model::settle_spot(s, trade, h, is_taker, spec).0),
        drawn(h, trade.size.0 as int, model::settle_spot(s, trade, h, is_taker, spec).1->Ok_0),
{
    let (t, r) = model::settle_spot(s, trade, h, is_taker, spec);
    assert(t.accounts.dom() =~= s.accounts.dom());
}

/// Settling a side changes no recorded reservation and no set of users, and
/// draws the reservation of the side down by the size of the trade.
pub proof fn lemma_side_holds(s: Ledger, trade: Trade, h: Hold, is_taker: bool, spec: SymbolSpec)
    requires
        s.has(model::house()),
        0 < trade.size.0 <= h.remaining_size.0,
        model::settle_side(s, trade, h, is_taker, spec).1 is Ok,
    ensures
        stable(s, model::settle_side(s, trade, h, is_taker, spec).0),
        drawn(h, trade.size.0 as int, model::settle_side(s, trade, h, is_taker, spec).1->Ok_0),
{
    if h.kind is Spot {
        lemma_spot_holds(s, trade, h, is_taker, spec);
    } else {
        lemma_derivative_holds(s, trade, h, is_taker, spec);
    }
}

/// Whether `n` is `m` after `done` of the order with an id was filled.
pub open spec fn filled(
    m: Map<OrderId, Hold>,
    n: Map<OrderId, Hold>,
    id: OrderId,
    done: int,
) -> bool {
    if m.contains_key(id) && m[id].remaining_size.0 != done {
        n.contains_key(id) && kin(m[id], n[id]) && n[id].remaining_size.0
            == m[id].remaining_size.0 - done
    } else {
        !n.contains_key(id)
    }
}

/// What a settled trade does to the reservations: those of its two orders are
/// drawn down by its size, the others stay.
pub proof fn law_trade_draws_down(s: Ledger, trade: Trade, spec: SymbolSpec, id: OrderId)
    requires
        s.has(model::house()),
        s.holds.contains_key(trade.taker_order_id),
        s.holds.contains_key(trade.maker_order_id),
        s.holds[trade.taker_order_id].order_id == trade.taker_order_id,
        s.holds[trade.maker_order_id].order_id == trade.maker_order_id,
        0 < trade.size.0 <= s.holds[trade.taker_order_id].remaining_size.0,
        trade.size.0 <= s.holds[trade.maker_order_id].remaining_size.0,
        s.holds.contains_key(id) ==> s.holds[id].remaining_size.0 != 0,
        model::apply_trade(s, trade, spec).1 is Ok,
    ensures
        filled(
            s.holds,
            model::apply_trade(s, trade, spec).0.holds,
            id,
            if id == trade.taker_order_id || id == trade.maker_order_id {
                trade.size.0 as int
            } else {
                0
            },
        ),
        model::apply_trade(s, trade, spec).0.accounts.dom() == s.accounts.dom(),
{
    let th = s.holds[trade.taker_order_id];
    let s1 = s.drop_hold(trade.taker_order_id);
    assert(trade.taker_order_id != trade.maker_order_id);
    let mh = s1.holds[trade.maker_order_id];
    let s2 = s1.drop_hold(trade.maker_order_id);
    lemma_side_holds(s2, trade, th, true, spec);
    let s3 = model::settle_side(s2, trade, th, true, spec).0;
    assert(s3.has(model::house()));
    lemma_side_holds(s3, trade, mh, false, spec);
}

} // verus!
