//! What a derivative trade does to the positions of its two sides, and what each side pays.
use vstd::prelude::*;

use crate::math;
use crate::risk::charges;
use crate::risk::engine;
use crate::risk::hold::{Hold, HoldKind, Position};
use crate::risk::margins;
use crate::risk::model;
use crate::risk::model::{AccountModel, Ledger};
use crate::risk::value;
use crate::types::enums::Side;
use crate::types::event::Trade;
use crate::types::ids::{CurrencyId, UserId};
use crate::types::numeric::Bps;
use crate::types::symbol::SymbolSpec;

verus! {

/// By how much a trade moves the position of a side.
pub open spec fn step(side: Side, trade: Trade) -> int {
    match side {
        Side::Bid => trade.size.0 as int,
        Side::Ask => -trade.size.0,
    }
}

/// Whether a fill goes the other way than a position.
pub open spec fn against(p: Position, n: int) -> bool {
    (p.size.0 > 0 && n < 0) || (p.size.0 < 0 && n > 0)
}

/// How much of a fill opens a position: all of it, what goes beyond the position that it
/// closes, or nothing.
pub open spec fn opened(p: Position, trade: Trade, n: int) -> int {
    if !against(p, n) {
        trade.size.0 as int
    } else if trade.size.0 > margins::extent(p) {
        trade.size.0 - margins::extent(p)
    } else {
        0
    }
}

/// Whether an amount is the margin of what a fill opens.
pub open spec fn is_margin(m: int, p: Position, trade: Trade, spec: SymbolSpec, n: int) -> bool {
    margins::rounded_up(
        m,
        trade.price.0 * opened(p, trade, n) / (spec.base_minor_per_major as int),
        margins::initial_rate(spec),
    )
}

/// What a fill does to the position of a side and to its money. The position moves by the
/// size of the fill. A fill in its direction adds margin at the initial rate and moves the
/// entry price to the average by size. One against it realises the profit of what it closes
/// and frees margin in proportion; where it goes beyond the position, it closes all of
/// it and opens the rest at its own price. The side pays its fee in any case.
pub open spec fn fill_change(
    a: AccountModel,
    b: AccountModel,
    side: Side,
    trade: Trade,
    spec: SymbolSpec,
    margin: int,
    fee: int,
) -> bool {
    let p = a.position_in(spec.symbol_id);
    let q = b.position_in(spec.symbol_id);
    let n = step(side, trade);
    let c = spec.quote_currency;
    let scale = spec.base_minor_per_major as int;
    let got = charges::owns(b, c) - charges::owns(a, c);
    &&& q.size.0 == p.size.0 + n
    &&& !against(p, n) ==> {
        &&& q.margin_locked.0 == p.margin_locked.0 + margin
        &&& got == -margin - fee
        &&& p.size.0 == 0 ==> q.entry_price == trade.price
        &&& p.size.0 != 0 ==> {
            let all = margins::extent(p) * p.entry_price.0 + trade.size.0 * trade.price.0;
            &&& q.entry_price.0 * margins::extent(q) <= all
            &&& all < (q.entry_price.0 + 1) * margins::extent(q)
        }
    }
    &&& against(p, n) && trade.size.0 <= margins::extent(p) ==> {
        let freed = p.margin_locked.0 - q.margin_locked.0;
        &&& freed * margins::extent(p) <= p.margin_locked.0 * trade.size.0
        &&& p.margin_locked.0 * trade.size.0 < (freed + 1) * margins::extent(p)
        &&& got == freed + margins::whole(
            (trade.price.0 - p.entry_price.0) * (-n),
            scale,
        ) - fee
        &&& q.size.0 != 0 ==> q.entry_price == p.entry_price
    }
    &&& against(p, n) && trade.size.0 > margins::extent(p) ==> {
        &&& q.margin_locked.0 == margin
        &&& q.entry_price == trade.price
        &&& got == p.margin_locked.0 + margins::whole(
            (trade.price.0 - p.entry_price.0) * p.size.0,
            scale,
        ) - margin - fee
    }
    &&& forall|d: CurrencyId| d != c ==> #[trigger] b.free[d] == a.free[d]
    &&& forall|d: CurrencyId| d != c ==> #[trigger] b.held[d] == a.held[d]
    &&& b.is_suspended == a.is_suspended
}

/// Whether the premises of a fill are there: prices and margins that are not negative.
pub open spec fn fillable(s: Ledger, h: Hold, trade: Trade, spec: SymbolSpec) -> bool {
    let p = s.accounts[h.user_id].position_in(spec.symbol_id);
    &&& value::derivative_hold(h, spec)
    &&& !(spec.kind_params is Spot)
    &&& spec.base_minor_per_major > 0
    &&& trade.price.0 >= 0
    &&& trade.size.0 > 0
    &&& h.user_id != UserId(0)
    &&& p.size.0 != i64::MIN
    &&& p.entry_price.0 >= 0
    &&& p.margin_locked.0 >= 0
}

proof fn lemma_mean(all: int, n: int)
    requires
        n > 0,
        all >= 0,
    ensures
        math::tdiv(all, n) * n <= all,
        all < (math::tdiv(all, n) + 1) * n,
        math::tdiv(all, n) >= 0,
{
    let e = all / n;
    vstd::arithmetic::div_mod::lemma_fundamental_div_mod(all, n);
    vstd::arithmetic::div_mod::lemma_mod_bound(all, n);
    vstd::arithmetic::div_mod::lemma_div_pos_is_pos(all, n);
    assert(e * n == n * e) by (nonlinear_arith);
    assert((e + 1) * n == e * n + n) by (nonlinear_arith);
}

/// The money that a payment out of a reservation moves.
proof fn lemma_pay(s: Ledger, u: UserId, c: CurrencyId, reserved: int, cost: int)
    requires
        u != UserId(0),
        math::fits_i64(reserved),
        0 <= cost,
        model::pay_from_reserve(s, u, c, reserved, cost).1,
    ensures
        ({
            let t = model::pay_from_reserve(s, u, c, reserved, cost).0;
            let a = s.accounts[u];
            let b = t.accounts[u];
            &&& charges::owns(b, c) == charges::owns(a, c) - cost
            &&& b.positions == a.positions
            &&& b.is_suspended == a.is_suspended
            &&& forall|d: CurrencyId| d != c ==> #[trigger] b.free[d] == a.free[d]
            &&& forall|d: CurrencyId| d != c ==> #[trigger] b.held[d] == a.held[d]
            &&& t.accounts == s.accounts.insert(u, b)
            &&& t.exact ==> s.exact
        }),
{
    let t = model::pay_from_reserve(s, u, c, reserved, cost).0;
    assert(t.accounts =~= s.accounts.insert(u, t.accounts[u]));
}

/// What a fill does to the rest of the ledger: only its side and the collected fees change.
spec fn only(s: Ledger, t: Ledger, u: UserId, c: CurrencyId, fee: int) -> bool {
    &&& t.accounts[UserId(0)].free[c] == s.accounts[UserId(0)].free[c] + fee
    &&& forall|v: UserId| v != u && v != UserId(0) ==> #[trigger] t.accounts[v] == s.accounts[v]
    &&& forall|v: UserId| #[trigger] t.has(v) == s.has(v)
}

proof fn lemma_open(
    s: Ledger,
    trade: Trade,
    h: Hold,
    fee: int,
    reserved: int,
    imr: Bps,
    spec: SymbolSpec,
    margin: int,
)
    requires
        s.has(h.user_id),
        s.has(UserId(0)),
        fillable(s, h, trade, spec),
        model::initial_margin(spec) == Some(imr),
        math::fits_i64(reserved),
        fee >= 0,
        !against(s.accounts[h.user_id].position_in(spec.symbol_id), step(h.side, trade)),
        is_margin(
            margin,
            s.accounts[h.user_id].position_in(spec.symbol_id),
            trade,
            spec,
            step(h.side, trade),
        ),
        ({
            let (t, r) = model::settle_open(
                s,
                trade,
                h,
                charges::price_paid(trade, spec),
                fee,
                reserved,
                imr,
                spec,
            );
            r is Ok && t.exact
        }),
    ensures
        ({
            let t = model::settle_open(
                s,
                trade,
                h,
                charges::price_paid(trade, spec),
                fee,
                reserved,
                imr,
                spec,
            ).0;
            &&& fill_change(
                s.accounts[h.user_id],
                t.accounts[h.user_id],
                h.side,
                trade,
                spec,
                margin,
                fee,
            )
            &&& only(s, t, h.user_id, spec.quote_currency, fee)
        }),
{
    let u = h.user_id;
    let paid = charges::price_paid(trade, spec);
    let p = s.accounts[u].position_in(spec.symbol_id);
    margins::lemma_quote(
        trade.price.0 as int,
        trade.size.0 as int,
        spec.base_minor_per_major as int,
    );
    margins::lemma_rated(paid, margins::initial_rate(spec), margin);
    lemma_pay(s, u, h.currency, reserved, margin + fee);
    let n = step(h.side, trade);
    let k = if p.size.0 + n >= 0 {
        p.size.0 + n
    } else {
        -(p.size.0 + n)
    };
    if p.size.0 != 0 {
        let all = margins::extent(p) * p.entry_price.0 + trade.size.0 * trade.price.0;
        assert(margins::extent(p) * p.entry_price.0 >= 0) by (nonlinear_arith)
            requires
                margins::extent(p) >= 0,
                p.entry_price.0 >= 0,
        ;
        assert(trade.size.0 * trade.price.0 >= 0) by (nonlinear_arith)
            requires
                trade.size.0 >= 0,
                trade.price.0 >= 0,
        ;
        lemma_mean(all, k);
    }
}

proof fn lemma_reduce(
    s: Ledger,
    trade: Trade,
    h: Hold,
    fee: int,
    reserved: int,
    spec: SymbolSpec,
    margin: int,
)
    requires
        s.has(h.user_id),
        s.has(UserId(0)),
        fillable(s, h, trade, spec),
        math::fits_i64(reserved),
        fee >= 0,
        against(s.accounts[h.user_id].position_in(spec.symbol_id), step(h.side, trade)),
        trade.size.0 <= margins::extent(s.accounts[h.user_id].position_in(spec.symbol_id)),
        ({
            let (t, r) = model::settle_reduce(s, trade, h, fee, reserved, spec);
            r is Ok && t.exact
        }),
    ensures
        ({
            let t = model::settle_reduce(s, trade, h, fee, reserved, spec).0;
            &&& fill_change(
                s.accounts[h.user_id],
                t.accounts[h.user_id],
                h.side,
                trade,
                spec,
                margin,
                fee,
            )
            &&& only(s, t, h.user_id, spec.quote_currency, fee)
        }),
{
    let u = h.user_id;
    let p = s.accounts[u].position_in(spec.symbol_id);
    lemma_pay(s, u, h.currency, reserved, fee);
    let k = margins::extent(p);
    let x = p.margin_locked.0 * trade.size.0;
    assert(x >= 0) by (nonlinear_arith)
        requires
            x == p.margin_locked.0 * trade.size.0,
            p.margin_locked.0 >= 0,
            trade.size.0 >= 0,
    ;
    lemma_mean(x, k);
    math::lemma_part_between(p.margin_locked.0 as int, trade.size.0 as int, k);
    let d = trade.price.0 - p.entry_price.0;
    let n = step(h.side, trade);
    assert((p.entry_price.0 - trade.price.0) * trade.size.0 == d * (-trade.size.0))
        by (nonlinear_arith)
        requires
            d == trade.price.0 - p.entry_price.0,
    ;
}

proof fn lemma_flip(
    s: Ledger,
    trade: Trade,
    h: Hold,
    fee: int,
    reserved: int,
    imr: Bps,
    spec: SymbolSpec,
    margin: int,
)
    requires
        s.has(h.user_id),
        s.has(UserId(0)),
        fillable(s, h, trade, spec),
        model::initial_margin(spec) == Some(imr),
        math::fits_i64(reserved),
        fee >= 0,
        against(s.accounts[h.user_id].position_in(spec.symbol_id), step(h.side, trade)),
        trade.size.0 > margins::extent(s.accounts[h.user_id].position_in(spec.symbol_id)),
        is_margin(
            margin,
            s.accounts[h.user_id].position_in(spec.symbol_id),
            trade,
            spec,
            step(h.side, trade),
        ),
        ({
            let (t, r) = model::settle_flip(s, trade, h, fee, reserved, imr, spec);
            r is Ok && t.exact
        }),
    ensures
        ({
            let t = model::settle_flip(s, trade, h, fee, reserved, imr, spec).0;
            &&& fill_change(
                s.accounts[h.user_id],
                t.accounts[h.user_id],
                h.side,
                trade,
                spec,
                margin,
                fee,
            )
            &&& only(s, t, h.user_id, spec.quote_currency, fee)
        }),
{
    let u = h.user_id;
    let p = s.accounts[u].position_in(spec.symbol_id);
    let more = trade.size.0 - margins::extent(p);
    margins::lemma_quote(trade.price.0 as int, more, spec.base_minor_per_major as int);
    margins::lemma_rated(
        trade.price.0 * more / (spec.base_minor_per_major as int),
        margins::initial_rate(spec),
        margin,
    );
    margins::lemma_profit(p, trade.price, spec);
    let added = model::signed(h.side, trade.size.0 as int);
    let closed = model::word_abs(p.size.0 as int);
    let s1 = s.claim(
        math::fits_i64(model::word_abs(added) - closed) && math::fits_i64(
            model::profit(p, closed, trade.price, spec),
        ),
    );
    lemma_pay(s1, u, h.currency, reserved, margin + fee);
}

/// What is left of a reservation changes neither the position nor the money of a side.
proof fn lemma_carried(
    s: Ledger,
    t: Ledger,
    h: Hold,
    trade: Trade,
    spec: SymbolSpec,
    margin: int,
    fee: int,
    amount: int,
)
    requires
        fill_change(
            s.accounts[h.user_id],
            t.accounts[h.user_id],
            h.side,
            trade,
            spec,
            margin,
            fee,
        ),
        only(s, t, h.user_id, spec.quote_currency, fee),
        s.has(h.user_id),
        h.user_id != UserId(0),
        h.currency == spec.quote_currency,
    ensures
        ({
            let f = model::drawn_down(t, h, amount, trade.size.0 as int).0;
            &&& fill_change(
                s.accounts[h.user_id],
                f.accounts[h.user_id],
                h.side,
                trade,
                spec,
                margin,
                fee,
            )
            &&& only(s, f, h.user_id, spec.quote_currency, fee)
        }),
{
    assert(t.has(h.user_id) == s.has(h.user_id));
    lemma_drawn(t, h, amount, trade.size.0 as int);
    let f = model::drawn_down(t, h, amount, trade.size.0 as int).0;
    assert forall|v: UserId| #[trigger] f.has(v) == s.has(v) by {
        assert(t.has(v) == s.has(v));
    }
}

/// Which way a side is settled.
proof fn lemma_way(
    s: Ledger,
    trade: Trade,
    h: Hold,
    is_taker: bool,
    spec: SymbolSpec,
    fee: int,
    s1: Ledger,
    reserved: int,
    imr: Bps,
)
    requires
        fillable(s, h, trade, spec),
        charges::is_fee(fee, is_taker, trade, spec),
        model::settle_side(s, trade, h, is_taker, spec).1 is Ok,
        model::settle_side(s, trade, h, is_taker, spec).0.exact,
        model::initial_margin(spec) == Some(imr),
        h.kind matches HoldKind::Derivative {
            reserve_margin,
            reserve_fee,
            original_size,
            ref_price,
        } && {
            let margin_share = model::share(reserve_margin, trade.size, original_size);
            let fee_share = model::share(reserve_fee, trade.size, original_size);
            &&& reserved == margin_share + fee_share
            &&& s1 == s.claim(
                trade.size.0 != i64::MIN && original_size.0 != 0 && math::fits_i64(margin_share)
                    && math::fits_i64(fee_share),
            )
        },
    ensures
        s.has(h.user_id),
        math::fits_i64(reserved),
        fee >= 0,
        ({
            let p = s.accounts[h.user_id].position_in(spec.symbol_id);
            let n = step(h.side, trade);
            let (t, r) = if !against(p, n) {
                model::settle_open(
                    s1,
                    trade,
                    h,
                    charges::price_paid(trade, spec),
                    fee,
                    reserved,
                    imr,
                    spec,
                )
            } else if trade.size.0 <= margins::extent(p) {
                model::settle_reduce(s1, trade, h, fee, reserved, spec)
            } else {
                model::settle_flip(s1, trade, h, fee, reserved, imr, spec)
            };
            &&& r is Ok
            &&& t.exact
            &&& model::settle_side(s, trade, h, is_taker, spec) == model::drawn_down(
                t,
                h,
                reserved,
                trade.size.0 as int,
            )
        }),
{
    margins::lemma_quote(
        trade.price.0 as int,
        trade.size.0 as int,
        spec.base_minor_per_major as int,
    );
    margins::lemma_rated(
        charges::price_paid(trade, spec),
        charges::rate_of(is_taker, spec),
        fee,
    );
}

/// One side of a derivative trade.
#[verifier::spinoff_prover]
#[verifier::rlimit(40)]
proof fn lemma_side(
    s: Ledger,
    trade: Trade,
    h: Hold,
    is_taker: bool,
    spec: SymbolSpec,
    margin: int,
    fee: int,
)
    requires
        s.has(UserId(0)),
        fillable(s, h, trade, spec),
        charges::is_fee(fee, is_taker, trade, spec),
        is_margin(
            margin,
            s.accounts[h.user_id].position_in(spec.symbol_id),
            trade,
            spec,
            step(h.side, trade),
        ),
        model::settle_side(s, trade, h, is_taker, spec).1 is Ok,
        model::settle_side(s, trade, h, is_taker, spec).0.exact,
    ensures
        ({
            let t = model::settle_side(s, trade, h, is_taker, spec).0;
            &&& fill_change(
                s.accounts[h.user_id],
                t.accounts[h.user_id],
                h.side,
                trade,
                spec,
                margin,
                fee,
            )
            &&& only(s, t, h.user_id, spec.quote_currency, fee)
        }),
{
    if let (
        HoldKind::Derivative { reserve_margin, reserve_fee, original_size, ref_price },
        Some(imr),
    ) = (h.kind, model::initial_margin(spec)) {
        let margin_share = model::share(reserve_margin, trade.size, original_size);
        let fee_share = model::share(reserve_fee, trade.size, original_size);
        let reserved = margin_share + fee_share;
        let s1 = s.claim(
            trade.size.0 != i64::MIN && original_size.0 != 0 && math::fits_i64(margin_share)
                && math::fits_i64(fee_share),
        );
        lemma_way(s, trade, h, is_taker, spec, fee, s1, reserved, imr);
        lemma_ways(s, s1, trade, h, spec, margin, fee, reserved, imr);
    }
}

/// Each way of settling a side does what a fill should.
#[verifier::spinoff_prover]
proof fn lemma_ways(
    s: Ledger,
    s1: Ledger,
    trade: Trade,
    h: Hold,
    spec: SymbolSpec,
    margin: int,
    fee: int,
    reserved: int,
    imr: Bps,
)
    requires
        s.has(UserId(0)),
        s.has(h.user_id),
        s1.accounts == s.accounts,
        fillable(s, h, trade, spec),
        fee >= 0,
        math::fits_i64(reserved),
        model::initial_margin(spec) == Some(imr),
        is_margin(
            margin,
            s.accounts[h.user_id].position_in(spec.symbol_id),
            trade,
            spec,
            step(h.side, trade),
        ),
    ensures
        ({
            let p = s.accounts[h.user_id].position_in(spec.symbol_id);
            let n = step(h.side, trade);
            let (t, r) = if !against(p, n) {
                model::settle_open(
                    s1,
                    trade,
                    h,
                    charges::price_paid(trade, spec),
                    fee,
                    reserved,
                    imr,
                    spec,
                )
            } else if trade.size.0 <= margins::extent(p) {
                model::settle_reduce(s1, trade, h, fee, reserved, spec)
            } else {
                model::settle_flip(s1, trade, h, fee, reserved, imr, spec)
            };
            let f = model::drawn_down(t, h, reserved, trade.size.0 as int).0;
            r is Ok && t.exact ==> {
                &&& fill_change(
                    s.accounts[h.user_id],
                    f.accounts[h.user_id],
                    h.side,
                    trade,
                    spec,
                    margin,
                    fee,
                )
                &&& only(s, f, h.user_id, spec.quote_currency, fee)
            }
        }),
{
    let p = s.accounts[h.user_id].position_in(spec.symbol_id);
    let n = step(h.side, trade);
    let paid = charges::price_paid(trade, spec);
    let (t, r) = if !against(p, n) {
        model::settle_open(s1, trade, h, paid, fee, reserved, imr, spec)
    } else if trade.size.0 <= margins::extent(p) {
        model::settle_reduce(s1, trade, h, fee, reserved, spec)
    } else {
        model::settle_flip(s1, trade, h, fee, reserved, imr, spec)
    };
    if r is Ok && t.exact {
        if !against(p, n) {
            lemma_open(s1, trade, h, fee, reserved, imr, spec, margin);
        } else if trade.size.0 <= margins::extent(p) {
            lemma_reduce(s1, trade, h, fee, reserved, spec, margin);
        } else {
            lemma_flip(s1, trade, h, fee, reserved, imr, spec, margin);
        }
        lemma_carried(s1, t, h, trade, spec, margin, fee, reserved);
        let f = model::drawn_down(t, h, reserved, trade.size.0 as int).0;
        assert forall|v: UserId| #[trigger] f.has(v) == s.has(v) by {
            assert(f.has(v) == s1.has(v));
        }
    }
}

proof fn lemma_drawn(s: Ledger, h: Hold, amount: int, size: int)
    requires
        s.has(h.user_id),
        h.user_id != UserId(0),
    ensures
        ({
            let t = model::drawn_down(s, h, amount, size).0;
            let a = s.accounts[h.user_id];
            let b = t.accounts[h.user_id];
            &&& charges::owns(b, h.currency) == charges::owns(a, h.currency)
            &&& b.positions == a.positions
            &&& b.is_suspended == a.is_suspended
            &&& forall|d: CurrencyId| d != h.currency ==> #[trigger] b.free[d] == a.free[d]
            &&& forall|d: CurrencyId| d != h.currency ==> #[trigger] b.held[d] == a.held[d]
            &&& t.accounts == s.accounts.insert(h.user_id, b)
        }),
{
    let t = model::drawn_down(s, h, amount, size).0;
    assert(t.accounts =~= s.accounts.insert(h.user_id, t.accounts[h.user_id]));
}

/// A settled derivative trade moves the positions of both of its sides by its size, in opposite
/// directions, and each side locks, frees, wins, loses and pays what its own position and
/// its own role ask for. The account that collects the fees gets both fees, and nobody
/// else is touched.
pub proof fn law_derivative_trades_move_both_positions(
    s: Ledger,
    trade: Trade,
    spec: SymbolSpec,
    margins_of: (int, int),
    fees: (int, int),
)
    requires
        s.has(UserId(0)),
        s.holds.contains_key(trade.taker_order_id),
        s.holds.contains_key(trade.maker_order_id),
        trade.taker_order_id != trade.maker_order_id,
        s.holds[trade.taker_order_id].user_id != s.holds[trade.maker_order_id].user_id,
        fillable(s, s.holds[trade.taker_order_id], trade, spec),
        fillable(s, s.holds[trade.maker_order_id], trade, spec),
        charges::is_fee(fees.0, true, trade, spec),
        charges::is_fee(fees.1, false, trade, spec),
        is_margin(
            margins_of.0,
            s.accounts[s.holds[trade.taker_order_id].user_id].position_in(spec.symbol_id),
            trade,
            spec,
            step(s.holds[trade.taker_order_id].side, trade),
        ),
        is_margin(
            margins_of.1,
            s.accounts[s.holds[trade.maker_order_id].user_id].position_in(spec.symbol_id),
            trade,
            spec,
            step(s.holds[trade.maker_order_id].side, trade),
        ),
        model::apply_trade(s, trade, spec).1 is Ok,
        model::apply_trade(s, trade, spec).0.exact,
    ensures
        ({
            let t = model::apply_trade(s, trade, spec).0;
            let th = s.holds[trade.taker_order_id];
            let mh = s.holds[trade.maker_order_id];
            let u = th.user_id;
            let v = mh.user_id;
            &&& fill_change(
                s.accounts[u],
                t.accounts[u],
                th.side,
                trade,
                spec,
                margins_of.0,
                fees.0,
            )
            &&& fill_change(
                s.accounts[v],
                t.accounts[v],
                mh.side,
                trade,
                spec,
                margins_of.1,
                fees.1,
            )
            &&& t.accounts[UserId(0)].free[spec.quote_currency]
                == s.accounts[UserId(0)].free[spec.quote_currency] + fees.0 + fees.1
            &&& forall|w: UserId|
                w != u && w != v && w != UserId(0) ==> #[trigger] t.accounts[w] == s.accounts[w]
        }),
{
    let th = s.holds[trade.taker_order_id];
    let mh = s.holds[trade.maker_order_id];
    let s1 = s.drop_hold(trade.taker_order_id);
    let s2 = s1.drop_hold(trade.maker_order_id);
    let (s3, r) = model::settle_side(s2, trade, th, true, spec);
    engine::lemma_side_exact(s3, trade, mh, false, spec);
    lemma_side(s2, trade, th, true, spec, margins_of.0, fees.0);
    assert(s3.has(UserId(0)));
    assert(s3.accounts[mh.user_id] == s.accounts[mh.user_id]);
    lemma_side(s3, trade, mh, false, spec, margins_of.1, fees.1);
}

} // verus!
