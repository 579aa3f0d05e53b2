//! Positions belong to known symbols and have their margin in the right currency,
//! whatever the engine does.
use vstd::prelude::*;

use crate::engine::model;
use crate::engine::model::{EngineModel, PendingStop};
use crate::math;
use crate::matching::model as book_model;
use crate::matching::model::OutcomeModel;
use crate::matching::outcome::StpCancellation;
use crate::risk::hold::{Hold, HoldKind, Position};
use crate::risk::model as risk_model;
use crate::risk::model::{AccountModel, Ledger};
use crate::risk::value;
use crate::types::command::{Command, CommandEnvelope, ModifyOrder, PlaceOrder, SetMarkPrice};
use crate::types::enums::{OrderType, Side};
use crate::types::event::Trade;
use crate::types::ids::{CurrencyId, OrderId, SeqNo, SymbolId, Timestamp, UserId};
use crate::types::numeric;
use crate::types::numeric::{Amount, Bps, Price, Size};
use crate::types::symbol::SymbolSpec;

verus! {

/// Symbols by their ids.
pub type Symbols = Map<SymbolId, SymbolSpec>;

/// Whether the positions of an account are in known symbols, finitely many, and each
/// with its margin in the quote currency of its symbol.
pub open spec fn account_ok(a: AccountModel, symbols: Symbols) -> bool {
    &&& a.positions.dom().finite()
    &&& forall|t: SymbolId| #[trigger]
        a.positions.contains_key(t) ==> symbols.contains_key(t) && value::orderly(
            a.positions[t],
            symbols[t].quote_currency,
        )
}

/// Whether a reservation, if it is one of a derivative order, is in the quote currency
/// of a known symbol.
pub open spec fn hold_ok(h: Hold, symbols: Symbols) -> bool {
    h.kind is Derivative ==> symbols.contains_key(h.symbol_id) && h.currency
        == symbols[h.symbol_id].quote_currency
}

/// Whether all positions and all reservations of a ledger are of this kind.
pub open spec fn in_order(l: Ledger, symbols: Symbols) -> bool {
    &&& l.accounts.dom().finite()
    &&& l.has(risk_model::house())
    &&& forall|u: UserId| #[trigger]
        l.accounts.contains_key(u) ==> account_ok(l.accounts[u], symbols)
    &&& forall|id: OrderId| #[trigger] l.holds.contains_key(id) ==> hold_ok(l.holds[id], symbols)
}

/// A ledger in order is one that the laws on trades and closings speak of.
pub proof fn lemma_tidy(l: Ledger, symbols: Symbols, s: SymbolId)
    requires
        in_order(l, symbols),
        symbols.contains_key(s),
        symbols[s].symbol_id == s,
    ensures
        value::tidy(l, symbols[s]),
{
    let spec = symbols[s];
    assert forall|u: UserId| #[trigger] l.accounts.contains_key(u) implies value::orderly(
        l.accounts[u].position_in(s),
        spec.quote_currency,
    ) by {
        assert(account_ok(l.accounts[u], symbols));
    }
}

proof fn lemma_account(l: Ledger, u: UserId, a: AccountModel, symbols: Symbols)
    requires
        in_order(l, symbols),
        account_ok(a, symbols),
    ensures
        in_order(l.with_account(u, a), symbols),
        forall|v: UserId| l.has(v) ==> l.with_account(u, a).has(v),
{
    let t = l.with_account(u, a);
    assert forall|v: UserId| #[trigger] t.accounts.contains_key(v) implies account_ok(
        t.accounts[v],
        symbols,
    ) by {
        if v != u {
            assert(l.accounts.contains_key(v));
        }
    }
}

proof fn lemma_credit(l: Ledger, u: UserId, c: CurrencyId, x: int, symbols: Symbols)
    requires
        in_order(l, symbols),
        l.has(u),
    ensures
        in_order(l.credit(u, c, x), symbols),
        forall|v: UserId| l.has(v) ==> l.credit(u, c, x).has(v),
        l.credit(u, c, x).accounts[u].positions == l.accounts[u].positions,
{
    lemma_account(l, u, l.accounts[u].credited(c, x), symbols);
}

proof fn lemma_reserve(l: Ledger, u: UserId, c: CurrencyId, x: int, symbols: Symbols)
    requires
        in_order(l, symbols),
        l.has(u),
    ensures
        in_order(l.reserve(u, c, x), symbols),
        forall|v: UserId| l.has(v) ==> l.reserve(u, c, x).has(v),
        l.reserve(u, c, x).accounts[u].positions == l.accounts[u].positions,
{
    lemma_account(l, u, l.accounts[u].reserved(c, x), symbols);
}

proof fn lemma_position(
    l: Ledger,
    u: UserId,
    s: SymbolId,
    q: Position,
    symbols: Symbols,
)
    requires
        in_order(l, symbols),
        l.has(u),
        symbols.contains_key(s),
        value::orderly(q, symbols[s].quote_currency),
    ensures
        in_order(l.set_position(u, s, q), symbols),
        forall|v: UserId| l.has(v) ==> l.set_position(u, s, q).has(v),
{
    let a = l.accounts[u].with_position(s, q);
    assert(account_ok(l.accounts[u], symbols));
    assert forall|t: SymbolId| #[trigger] a.positions.contains_key(t) implies symbols.contains_key(t)
        && value::orderly(a.positions[t], symbols[t].quote_currency) by {
        if t != s {
            assert(l.accounts[u].positions.contains_key(t));
        }
    }
    lemma_account(l, u, a, symbols);
}

proof fn lemma_unreserve(l: Ledger, u: UserId, c: CurrencyId, x: int, symbols: Symbols)
    requires
        in_order(l, symbols),
        l.has(u),
    ensures
        in_order(l.unreserve(u, c, x), symbols),
{
    lemma_reserve(l, u, c, -x, symbols);
    lemma_credit(l.reserve(u, c, -x), u, c, x, symbols);
}

proof fn lemma_pay(
    l: Ledger,
    u: UserId,
    c: CurrencyId,
    reserved: int,
    cost: int,
    symbols: Symbols,
)
    requires
        in_order(l, symbols),
        l.has(u),
    ensures
        ({
            let t = risk_model::pay_from_reserve(l, u, c, reserved, cost).0;
            &&& in_order(t, symbols)
            &&& forall|v: UserId| l.has(v) ==> t.has(v)
            &&& t.accounts[u].positions == l.accounts[u].positions
        }),
{
    let t = l.reserve(u, c, -reserved);
    lemma_reserve(l, u, c, -reserved, symbols);
    lemma_credit(t, u, c, numeric::saturated(reserved - cost), symbols);
    let t1 = t.claim(math::fits_i64(cost - reserved));
    assert(in_order(t1, symbols));
    lemma_credit(t1, u, c, reserved - cost, symbols);
}

proof fn lemma_drawn(l: Ledger, h: Hold, amount: int, size: int, symbols: Symbols)
    requires
        in_order(l, symbols),
        l.has(h.user_id),
        hold_ok(h, symbols),
    ensures
        ({
            let (t, r) = risk_model::drawn_down(l, h, amount, size);
            &&& in_order(t, symbols)
            &&& r matches Ok(Some(g)) ==> hold_ok(g, symbols)
        }),
{
    let left = h.remaining_amount.0 - amount;
    let open = h.remaining_size.0 - size;
    let t = l.claim(math::fits_i64(left) && math::fits_i64(open));
    assert(in_order(t, symbols));
    lemma_unreserve(t, h.user_id, h.currency, left, symbols);
}

proof fn lemma_open(
    l: Ledger,
    trade: Trade,
    h: Hold,
    notional: int,
    fee: int,
    reserved: int,
    imr: Bps,
    spec: SymbolSpec,
    symbols: Symbols,
)
    requires
        in_order(l, symbols),
        l.has(h.user_id),
        hold_ok(h, symbols),
        h.kind is Derivative,
    ensures
        ({
            let t = risk_model::settle_open(l, trade, h, notional, fee, reserved, imr, spec).0;
            in_order(t, symbols) && t.has(h.user_id)
        }),
{
    let u = h.user_id;
    let margin = risk_model::rated(Some(notional), imr);
    if let Some(cost) = risk_model::summed(margin, Some(fee)) {
        let (t, paid) = risk_model::pay_from_reserve(l, u, h.currency, reserved, cost);
        lemma_pay(l, u, h.currency, reserved, cost, symbols);
        if paid {
            let p = t.accounts[u].position_in(h.symbol_id);
            let added = risk_model::signed(h.side, trade.size.0 as int);
            let entry = risk_model::blended_entry(p, added, trade.size, trade.price);
            let locked = p.margin_locked.0 + margin->0;
            let q = Position {
                size: Size((p.size.0 + added) as i64),
                entry_price: Price(entry as i64),
                margin_locked: Amount(locked as i64),
                margin_currency: h.currency,
            };
            lemma_position(t, u, h.symbol_id, q, symbols);
            let t2 = t.set_position(u, h.symbol_id, q).claim(
                math::fits_i64(p.size.0 + added) && math::fits_i64(entry)
                    && math::fits_i64(locked),
            );
            assert(in_order(t2, symbols));
            lemma_credit(t2, risk_model::house(), spec.quote_currency, fee, symbols);
        }
    }
}

proof fn lemma_flip(
    l: Ledger,
    trade: Trade,
    h: Hold,
    fee: int,
    reserved: int,
    imr: Bps,
    spec: SymbolSpec,
    symbols: Symbols,
)
    requires
        in_order(l, symbols),
        l.has(h.user_id),
        hold_ok(h, symbols),
        h.kind is Derivative,
    ensures
        ({
            let t = risk_model::settle_flip(l, trade, h, fee, reserved, imr, spec).0;
            in_order(t, symbols) && t.has(h.user_id)
        }),
{
    let u = h.user_id;
    let p = l.accounts[u].position_in(h.symbol_id);
    let added = risk_model::signed(h.side, trade.size.0 as int);
    let closed = risk_model::word_abs(p.size.0 as int);
    let opened = risk_model::word_abs(added) - closed;
    let gain = risk_model::profit(p, closed, trade.price, spec);
    let s1 = l.claim(math::fits_i64(opened) && math::fits_i64(gain));
    assert(in_order(s1, symbols));
    lemma_reserve(s1, u, h.currency, -reserved, symbols);
    if let Some(margin) = risk_model::rated(
        risk_model::quoted(trade.price.0 as int, opened, spec),
        imr,
    ) {
        let (t, paid) = risk_model::pay_from_reserve(s1, u, h.currency, reserved, margin + fee);
        lemma_pay(s1, u, h.currency, reserved, margin + fee, symbols);
        if math::fits_i64(margin + fee) && paid {
            let q = Position {
                size: Size(
                    (if added > 0 {
                        opened
                    } else {
                        -opened
                    }) as i64,
                ),
                entry_price: trade.price,
                margin_locked: Amount(margin as i64),
                margin_currency: h.currency,
            };
            let t1 = t.claim(
                math::fits_i64(reserved - margin - fee) && math::fits_i64(
                    p.margin_locked.0 + gain,
                ) && math::fits_i64(-opened),
            );
            assert(in_order(t1, symbols));
            lemma_credit(t1, u, h.currency, p.margin_locked.0 + gain, symbols);
            let t2 = t1.credit(u, h.currency, p.margin_locked.0 + gain);
            lemma_position(t2, u, h.symbol_id, q, symbols);
            lemma_credit(
                t2.set_position(u, h.symbol_id, q),
                risk_model::house(),
                spec.quote_currency,
                fee,
                symbols,
            );
        }
    }
}

proof fn lemma_reduce(
    l: Ledger,
    trade: Trade,
    h: Hold,
    fee: int,
    reserved: int,
    spec: SymbolSpec,
    symbols: Symbols,
)
    requires
        in_order(l, symbols),
        l.has(h.user_id),
        hold_ok(h, symbols),
        h.kind is Derivative,
        l.accounts[h.user_id].position_in(h.symbol_id).size.0 != 0,
    ensures
        ({
            let t = risk_model::settle_reduce(l, trade, h, fee, reserved, spec).0;
            in_order(t, symbols) && t.has(h.user_id)
        }),
{
    let u = h.user_id;
    let (t, paid) = risk_model::pay_from_reserve(l, u, h.currency, reserved, fee);
    lemma_pay(l, u, h.currency, reserved, fee, symbols);
    if paid {
        let p = t.accounts[u].position_in(h.symbol_id);
        let left = p.size.0 + risk_model::signed(h.side, trade.size.0 as int);
        let gain = risk_model::profit(p, trade.size.0 as int, trade.price, spec);
        let freed = math::tdiv(
            p.margin_locked.0 * trade.size.0,
            risk_model::word_abs(p.size.0 as int),
        );
        let kept = numeric::saturated(p.margin_locked.0 - freed);
        let q = Position {
            size: Size(left as i64),
            entry_price: if left == 0 {
                Price(0)
            } else {
                p.entry_price
            },
            margin_locked: Amount(kept as i64),
            margin_currency: p.margin_currency,
        };
        assert(account_ok(t.accounts[u], symbols));
        assert(t.accounts[u].positions.contains_key(h.symbol_id));
        lemma_position(t, u, h.symbol_id, q, symbols);
        let t2 = t.set_position(u, h.symbol_id, q).claim(
            math::fits_i64(left) && math::fits_i64(gain) && math::fits_i64(freed),
        );
        let t3 = t2.claim(
            math::fits_i64(t2.accounts[u].free[spec.quote_currency] + freed),
        );
        assert(in_order(t3, symbols));
        lemma_credit(t3, u, spec.quote_currency, freed + gain, symbols);
        lemma_credit(
            t3.credit(u, spec.quote_currency, freed + gain),
            risk_model::house(),
            spec.quote_currency,
            fee,
            symbols,
        );
    }
}

proof fn lemma_derivative(
    l: Ledger,
    trade: Trade,
    h: Hold,
    is_taker: bool,
    spec: SymbolSpec,
    symbols: Symbols,
)
    requires
        in_order(l, symbols),
        hold_ok(h, symbols),
    ensures
        ({
            let (t, r) = risk_model::settle_derivative(l, trade, h, is_taker, spec);
            &&& in_order(t, symbols)
            &&& r matches Ok(Some(g)) ==> hold_ok(g, symbols)
        }),
{
    if let (
        HoldKind::Derivative { reserve_margin, reserve_fee, original_size, ref_price },
        Some(imr),
    ) = (h.kind, risk_model::initial_margin(spec)) {
        if l.has(h.user_id) {
            let p = l.accounts[h.user_id].position_in(h.symbol_id);
            let added = risk_model::signed(h.side, trade.size.0 as int);
            let against = p.size.0 != 0 && (p.size.0 > 0) != (added > 0);
            let flips = against && risk_model::word_abs(added) > risk_model::word_abs(
                p.size.0 as int,
            );
            let margin_share = risk_model::share(reserve_margin, trade.size, original_size);
            let fee_share = risk_model::share(reserve_fee, trade.size, original_size);
            let notional = risk_model::quoted(trade.price.0 as int, trade.size.0 as int, spec);
            let fee = risk_model::rated(notional, risk_model::fee_rate(is_taker, spec));
            let s1 = l.claim(
                trade.size.0 != i64::MIN && original_size.0 != 0 && math::fits_i64(margin_share)
                    && math::fits_i64(fee_share),
            );
            assert(in_order(s1, symbols));
            if let (Some(reserved), Some(f)) = (
                risk_model::fitted(margin_share + fee_share),
                fee,
            ) {
                let t = if flips {
                    lemma_flip(s1, trade, h, f, reserved, imr, spec, symbols);
                    risk_model::settle_flip(s1, trade, h, f, reserved, imr, spec).0
                } else if against {
                    lemma_reduce(s1, trade, h, f, reserved, spec, symbols);
                    risk_model::settle_reduce(s1, trade, h, f, reserved, spec).0
                } else {
                    lemma_open(s1, trade, h, notional->0, f, reserved, imr, spec, symbols);
                    risk_model::settle_open(s1, trade, h, notional->0, f, reserved, imr, spec).0
                };
                lemma_drawn(t, h, reserved, trade.size.0 as int, symbols);
            }
        }
    }
}

proof fn lemma_spot(
    l: Ledger,
    trade: Trade,
    h: Hold,
    is_taker: bool,
    spec: SymbolSpec,
    symbols: Symbols,
)
    requires
        in_order(l, symbols),
        hold_ok(h, symbols),
    ensures
        ({
            let (t, r) = risk_model::settle_spot(l, trade, h, is_taker, spec);
            &&& in_order(t, symbols)
            &&& r matches Ok(Some(g)) ==> hold_ok(g, symbols)
        }),
{
    let u = h.user_id;
    let size = trade.size.0 as int;
    let house = risk_model::house();
    if l.has(u) {
        match h.side {
            Side::Bid => {
                if let HoldKind::Spot { bid_reserve_price: Some(reserve) } = h.kind {
                    if let Some((release, slack, fee)) = risk_model::bid_terms(
                        trade,
                        h,
                        reserve,
                        is_taker,
                        spec,
                    ) {
                        let s1 = l.reserve(u, h.currency, -release);
                        let s2 = s1.credit(u, h.currency, slack);
                        let s3 = s2.credit(u, spec.base_currency, size);
                        lemma_reserve(l, u, h.currency, -release, symbols);
                        lemma_credit(s1, u, h.currency, slack, symbols);
                        lemma_credit(s2, u, spec.base_currency, size, symbols);
                        lemma_credit(s3, house, spec.quote_currency, fee, symbols);
                        lemma_drawn(
                            s3.credit(house, spec.quote_currency, fee),
                            h,
                            release,
                            size,
                            symbols,
                        );
                    }
                }
            },
            Side::Ask => {
                if let Some((net, fee)) = risk_model::ask_terms(trade, is_taker, spec) {
                    let s1 = l.reserve(u, h.currency, -size);
                    let s2 = s1.credit(u, spec.quote_currency, net);
                    lemma_reserve(l, u, h.currency, -size, symbols);
                    lemma_credit(s1, u, spec.quote_currency, net, symbols);
                    lemma_credit(s2, house, spec.quote_currency, fee, symbols);
                    lemma_drawn(
                        s2.credit(house, spec.quote_currency, fee),
                        h,
                        size,
                        size,
                        symbols,
                    );
                }
            },
        }
    }
}

/// Recording a reservation.
proof fn lemma_put(l: Ledger, h: Hold, symbols: Symbols)
    requires
        in_order(l, symbols),
        hold_ok(h, symbols),
    ensures
        in_order(l.put_hold(h), symbols),
{
    let t = l.put_hold(h);
    assert forall|id: OrderId| #[trigger] t.holds.contains_key(id) implies hold_ok(
        t.holds[id],
        symbols,
    ) by {
        if id != h.order_id {
            assert(l.holds.contains_key(id));
        }
    }
}

/// Dropping a reservation.
proof fn lemma_drop(l: Ledger, id: OrderId, symbols: Symbols)
    requires
        in_order(l, symbols),
    ensures
        in_order(l.drop_hold(id), symbols),
{
    let t = l.drop_hold(id);
    assert forall|x: OrderId| #[trigger] t.holds.contains_key(x) implies hold_ok(
        t.holds[x],
        symbols,
    ) by {
        assert(l.holds.contains_key(x));
    }
}

proof fn lemma_side(
    l: Ledger,
    trade: Trade,
    h: Hold,
    is_taker: bool,
    spec: SymbolSpec,
    symbols: Symbols,
)
    requires
        in_order(l, symbols),
        hold_ok(h, symbols),
    ensures
        ({
            let (t, r) = risk_model::settle_side(l, trade, h, is_taker, spec);
            &&& in_order(t, symbols)
            &&& r matches Ok(Some(g)) ==> hold_ok(g, symbols)
        }),
{
    lemma_spot(l, trade, h, is_taker, spec, symbols);
    lemma_derivative(l, trade, h, is_taker, spec, symbols);
}

/// Settling a trade keeps the ledger in order.
proof fn lemma_trade(l: Ledger, trade: Trade, spec: SymbolSpec, symbols: Symbols)
    requires
        in_order(l, symbols),
    ensures
        in_order(risk_model::apply_trade(l, trade, spec).0, symbols),
{
    if l.holds.contains_key(trade.taker_order_id) {
        let th = l.holds[trade.taker_order_id];
        let s1 = l.drop_hold(trade.taker_order_id);
        lemma_drop(l, trade.taker_order_id, symbols);
        if s1.holds.contains_key(trade.maker_order_id) {
            let mh = s1.holds[trade.maker_order_id];
            let s2 = s1.drop_hold(trade.maker_order_id);
            lemma_drop(s1, trade.maker_order_id, symbols);
            lemma_side(s2, trade, th, true, spec, symbols);
            let (s3, taker) = risk_model::settle_side(s2, trade, th, true, spec);
            if let Ok(t) = taker {
                lemma_side(s3, trade, mh, false, spec, symbols);
                let (s4, maker) = risk_model::settle_side(s3, trade, mh, false, spec);
                if let Ok(m) = maker {
                    if let Some(g) = t {
                        lemma_put(s4, g, symbols);
                    }
                    if let Some(g) = m {
                        lemma_put(risk_model::put_back(s4, t), g, symbols);
                    }
                }
            }
        }
    }
}

proof fn lemma_trades(l: Ledger, trades: Seq<Trade>, spec: SymbolSpec, symbols: Symbols)
    requires
        in_order(l, symbols),
    ensures
        in_order(model::settle_trades(l, trades, spec), symbols),
    decreases trades.len(),
{
    if trades.len() > 0 {
        lemma_trades(l, trades.drop_last(), spec, symbols);
        lemma_trade(
            model::settle_trades(l, trades.drop_last(), spec),
            trades.last(),
            spec,
            symbols,
        );
    }
}

/// Giving a reservation back, whole or in part, keeps the ledger in order.
proof fn lemma_release(l: Ledger, order_id: OrderId, size: Size, symbols: Symbols)
    requires
        in_order(l, symbols),
    ensures
        in_order(risk_model::release_hold(l, order_id).0, symbols),
        in_order(risk_model::partial_release_hold(l, order_id, size).0, symbols),
{
    if l.holds.contains_key(order_id) {
        let h = l.holds[order_id];
        let t = l.drop_hold(order_id);
        lemma_drop(l, order_id, symbols);
        if l.has(h.user_id) {
            lemma_unreserve(t, h.user_id, h.currency, h.remaining_amount.0 as int, symbols);
        }
        if size.0 > 0 && h.remaining_size.0 > 0 {
            let part = if size.0 <= h.remaining_size.0 {
                size.0 as int
            } else {
                h.remaining_size.0 as int
            };
            let amount = risk_model::released_part(h, part);
            let smaller = Hold {
                remaining_size: Size((h.remaining_size.0 - part) as i64),
                remaining_amount: Amount(
                    (h.remaining_amount.0 - amount) as i64,
                ),
                ..h
            };
            let t2 = Ledger { holds: l.holds.insert(order_id, smaller), ..l };
            assert forall|id: OrderId| #[trigger] t2.holds.contains_key(id) implies hold_ok(
                t2.holds[id],
                symbols,
            ) by {
                if id != order_id {
                    assert(l.holds.contains_key(id));
                }
            }
            if l.has(h.user_id) {
                lemma_unreserve(t2, h.user_id, h.currency, amount, symbols);
            }
        }
    }
}

proof fn lemma_cancels(l: Ledger, cancels: Seq<StpCancellation>, symbols: Symbols)
    requires
        in_order(l, symbols),
    ensures
        in_order(model::release_cancelled(l, cancels), symbols),
    decreases cancels.len(),
{
    if cancels.len() > 0 {
        let c = cancels.last();
        lemma_cancels(l, cancels.drop_last(), symbols);
        lemma_release(
            model::release_cancelled(l, cancels.drop_last()),
            c.order_id,
            c.size_cancelled,
            symbols,
        );
    }
}

proof fn lemma_outcome(
    l: Ledger,
    order_id: OrderId,
    p: PlaceOrder,
    o: OutcomeModel,
    spec: SymbolSpec,
    symbols: Symbols,
)
    requires
        in_order(l, symbols),
    ensures
        in_order(model::settle_outcome(l, order_id, p, o, spec), symbols),
{
    lemma_trades(l, o.trades, spec, symbols);
    let traded = model::settle_trades(l, o.trades, spec);
    lemma_cancels(traded, o.stp_cancellations, symbols);
    lemma_release(
        model::release_cancelled(traded, o.stp_cancellations),
        order_id,
        Size(model::neutralized(p, o) as i64),
        symbols,
    );
}

/// Checking an order and reserving for it keeps the ledger in order.
proof fn lemma_check(l: Ledger, p: PlaceOrder, order_id: OrderId, symbols: Symbols)
    requires
        in_order(l, symbols),
        symbols.contains_key(p.symbol_id),
    ensures
        in_order(
            risk_model::pre_check_place(l, p, symbols[p.symbol_id], order_id).0,
            symbols,
        ),
{
    let spec = symbols[p.symbol_id];
    let (k, r) = risk_model::pre_check_place(l, p, spec, order_id);
    if r is Ok {
        let h = k.holds[order_id];
        let x = h.remaining_amount.0 as int;
        assert(h.user_id == p.user_id && h.symbol_id == p.symbol_id && h.order_id == order_id);
        assert(hold_ok(h, symbols));
        lemma_credit(l, h.user_id, h.currency, -x, symbols);
        let l1 = l.credit(h.user_id, h.currency, -x);
        lemma_reserve(l1, h.user_id, h.currency, x, symbols);
        let l2 = l1.reserve(h.user_id, h.currency, x);
        lemma_put(l2, h, symbols);
        assert(k.accounts == l2.put_hold(h).accounts);
        assert(k.holds == l2.put_hold(h).holds);
    } else {
        assert(k.accounts == l.accounts && k.holds == l.holds);
    }
}

proof fn lemma_apply(
    e: EngineModel,
    order_id: OrderId,
    p: PlaceOrder,
    spec: SymbolSpec,
    now: Timestamp,
)
    requires
        in_order(e.ledger, e.symbols),
    ensures
        ({
            let f = model::apply_to_book(e, order_id, p, spec, now).0;
            in_order(f.ledger, e.symbols) && f.symbols == e.symbols
        }),
{
    let params = model::params_of(order_id, p, now);
    let b = e.books[p.symbol_id];
    let o = book_model::outcome_of(b, params);
    let e1 = e.with_book(p.symbol_id, book_model::book_after_place(b, params)).claim(
        book_model::can_rest(b, params),
    );
    assert(in_order(e1.ledger, e.symbols));
    lemma_release(e1.ledger, order_id, p.size, e.symbols);
    lemma_outcome(e1.ledger, order_id, p, o, spec, e.symbols);
}

proof fn lemma_place(e: EngineModel, seq_no: SeqNo, p: PlaceOrder, now: Timestamp)
    requires
        in_order(e.ledger, e.symbols),
    ensures
        in_order(model::handle_place(e, seq_no, p, now).0.ledger, e.symbols),
        model::handle_place(e, seq_no, p, now).0.symbols == e.symbols,
{
    let order_id = OrderId(e.next_order_id as u64);
    let e1 = e.with_next_order_id();
    assert(in_order(e1.ledger, e.symbols));
    if e.symbols.contains_key(p.symbol_id) {
        if let Some(p2) = model::lowered(p) {
            let spec = e.symbols[p.symbol_id];
            lemma_check(e1.ledger, p2, order_id, e.symbols);
            let l = risk_model::pre_check_place(e1.ledger, p2, spec, order_id).0;
            let e2 = e1.with_ledger(l);
            lemma_release(l, order_id, p2.size, e.symbols);
            lemma_apply(e2, order_id, p2, spec, now);
            lemma_apply(
                e2,
                order_id,
                PlaceOrder { order_type: OrderType::Limit, ..p2 },
                spec,
                now,
            );
        }
    }
}

proof fn lemma_modify(e: EngineModel, seq_no: SeqNo, m: ModifyOrder, now: Timestamp)
    requires
        in_order(e.ledger, e.symbols),
        e.books.dom() == e.symbols.dom(),
    ensures
        in_order(model::handle_modify(e, seq_no, m, now).0.ledger, e.symbols),
        model::handle_modify(e, seq_no, m, now).0.symbols == e.symbols,
{
    if e.books.contains_key(m.symbol_id) {
        assert(e.symbols.dom().contains(m.symbol_id));
        let b = e.books[m.symbol_id];
        let p = model::replacement(b.order(m.order_id), m);
        let order_id = OrderId(e.next_order_id as u64);
        let spec = e.symbols[m.symbol_id];
        let e1 = e.with_next_order_id();
        assert(in_order(e1.ledger, e.symbols));
        lemma_release(e1.ledger, m.order_id, Size(0), e.symbols);
        let l1 = risk_model::release_hold(e1.ledger, m.order_id).0;
        let e2 = e1.with_book(m.symbol_id, b.without(m.order_id)).with_ledger(l1);
        lemma_check(l1, p, order_id, e.symbols);
        let l2 = risk_model::pre_check_place(l1, p, spec, order_id).0;
        lemma_apply(e2.with_ledger(l2), order_id, p, spec, now);
    }
}

proof fn lemma_fired(e: EngineModel, stops: Seq<PendingStop>, spec: SymbolSpec, now: Timestamp)
    requires
        in_order(e.ledger, e.symbols),
    ensures
        ({
            let f = model::place_fired(e, stops, spec, now).0;
            in_order(f.ledger, e.symbols) && f.symbols == e.symbols
        }),
    decreases stops.len(),
{
    if stops.len() > 0 {
        lemma_fired(e, stops.drop_last(), spec, now);
        let stop = stops.last();
        lemma_apply(
            model::place_fired(e, stops.drop_last(), spec, now).0,
            stop.order_id,
            PlaceOrder { order_type: OrderType::Limit, ..stop.place_order },
            spec,
            now,
        );
    }
}

/// Closing positions keeps the ledger in order.
proof fn lemma_sweep(
    l: Ledger,
    spec: SymbolSpec,
    price: Price,
    below: Option<Bps>,
    symbols: Symbols,
)
    requires
        in_order(l, symbols),
    ensures
        in_order(risk_model::sweep(l, spec, price, below), symbols),
{
    let t = risk_model::sweep(l, spec, price, below);
    assert(t.accounts.dom() =~= l.accounts.dom());
    assert forall|u: UserId| #[trigger] t.accounts.contains_key(u) implies account_ok(
        t.accounts[u],
        symbols,
    ) by {
        assert(l.accounts.contains_key(u));
        let a = l.accounts[u];
        let b = t.accounts[u];
        if u != risk_model::house() && risk_model::closes(a, spec, price, below) {
            assert(b.positions.dom() =~= a.positions.dom());
            assert forall|y: SymbolId| #[trigger] b.positions.contains_key(y) implies
                symbols.contains_key(y) && value::orderly(
                b.positions[y],
                symbols[y].quote_currency,
            ) by {
                assert(a.positions.contains_key(y));
            }
        }
    }
}

proof fn lemma_funding(
    l: Ledger,
    spec: SymbolSpec,
    mark: Price,
    rate: int,
    symbols: Symbols,
)
    requires
        in_order(l, symbols),
    ensures
        in_order(risk_model::apply_funding(l, spec, mark, rate), symbols),
{
    let t = risk_model::apply_funding(l, spec, mark, rate);
    assert(t.accounts.dom() =~= l.accounts.dom());
    assert forall|u: UserId| #[trigger] t.accounts.contains_key(u) implies account_ok(
        t.accounts[u],
        symbols,
    ) by {
        assert(l.accounts.contains_key(u));
        assert(t.accounts[u].positions == l.accounts[u].positions);
    }
}

proof fn lemma_mark(e: EngineModel, seq_no: SeqNo, m: SetMarkPrice, now: Timestamp)
    requires
        in_order(e.ledger, e.symbols),
    ensures
        in_order(model::handle_set_mark_price(e, seq_no, m, now).0.ledger, e.symbols),
        model::handle_set_mark_price(e, seq_no, m, now).0.symbols == e.symbols,
{
    if e.symbols.contains_key(m.symbol_id) {
        let spec = e.symbols[m.symbol_id];
        let stops = e.pending_stops[m.symbol_id];
        let l = risk_model::liquidate(e.ledger, spec, m.mark_price);
        let e1 = EngineModel {
            mark_prices: e.mark_prices.insert(m.symbol_id, m.mark_price),
            ledger: l,
            pending_stops: e.pending_stops.insert(
                m.symbol_id,
                model::waiting(stops, m.mark_price),
            ),
            ..e
        };
        lemma_sweep(
            e.ledger,
            spec,
            m.mark_price,
            risk_model::maintenance_margin(spec),
            e.symbols,
        );
        lemma_fired(e1, model::fired(stops, m.mark_price), spec, now);
    }
}

/// Other symbols under which the same positions are in order.
proof fn lemma_symbols(l: Ledger, symbols: Symbols, more: Symbols)
    requires
        in_order(l, symbols),
        forall|s: SymbolId| #[trigger]
            symbols.contains_key(s) ==> more.contains_key(s) && more[s].quote_currency
                == symbols[s].quote_currency,
    ensures
        in_order(l, more),
{
    assert forall|u: UserId| #[trigger] l.accounts.contains_key(u) implies account_ok(
        l.accounts[u],
        more,
    ) by {
        assert(account_ok(l.accounts[u], symbols));
    }
    assert forall|id: OrderId| #[trigger] l.holds.contains_key(id) implies hold_ok(
        l.holds[id],
        more,
    ) by {
        assert(hold_ok(l.holds[id], symbols));
    }
}

proof fn lemma_ledger_commands(e: EngineModel, env: CommandEnvelope)
    requires
        in_order(e.ledger, e.symbols),
        env.command is AddUser || env.command is SuspendUser || env.command is ResumeUser
            || env.command is AdjustBalance,
    ensures
        in_order(model::dispatch(e, env).0.ledger, model::dispatch(e, env).0.symbols),
{
    let l = e.ledger;
    match env.command {
        Command::AddUser(a) => {
            lemma_account(l, a.user_id, risk_model::empty_account(a.user_id), e.symbols);
        },
        Command::SuspendUser(u) => {
            if l.has(u) {
                lemma_account(
                    l,
                    u,
                    AccountModel { is_suspended: true, ..l.accounts[u] },
                    e.symbols,
                );
            }
        },
        Command::ResumeUser(u) => {
            if l.has(u) {
                lemma_account(
                    l,
                    u,
                    AccountModel { is_suspended: false, ..l.accounts[u] },
                    e.symbols,
                );
            }
        },
        Command::AdjustBalance(a) => {
            if l.has(a.user_id) {
                lemma_credit(l, a.user_id, a.currency_id, a.delta.0 as int, e.symbols);
            }
        },
        _ => {},
    }
}

/// Every command keeps the ledger in order.
pub proof fn lemma_dispatch(e: EngineModel, env: CommandEnvelope)
    requires
        in_order(e.ledger, e.symbols),
        e.books.dom() == e.symbols.dom(),
    ensures
        in_order(model::dispatch(e, env).0.ledger, model::dispatch(e, env).0.symbols),
{
    reveal(model::dispatch_trading);
    let seq_no = env.seq_no;
    let now = env.received_at;
    let f = model::dispatch(e, env).0;
    match env.command {
        Command::PlaceOrder(p) => {
            lemma_place(e, seq_no, p, now);
        },
        Command::CancelOrder(c) => {
            lemma_release(e.ledger, c.order_id, Size(0), e.symbols);
        },
        Command::ModifyOrder(m) => {
            lemma_modify(e, seq_no, m, now);
        },
        Command::SetMarkPrice(m) => {
            lemma_mark(e, seq_no, m, now);
        },
        Command::RegisterSymbol(spec) => {
            lemma_symbols(e.ledger, e.symbols, f.symbols);
        },
        Command::ApplyFunding(x) => {
            lemma_funding(
                e.ledger,
                e.symbols[x.symbol_id],
                e.mark_prices[x.symbol_id],
                x.rate_bps as int,
                e.symbols,
            );
        },
        Command::SettleFuture(x) => {
            lemma_sweep(
                e.ledger,
                e.symbols[x.symbol_id],
                x.settlement_price,
                None,
                e.symbols,
            );
            lemma_symbols(f.ledger, e.symbols, f.symbols);
        },
        Command::Nop => {},
        _ => {
            lemma_ledger_commands(e, env);
        },
    }
}

} // verus!
