//! What derivative trades do to the worth of the ledger: the money in it and the
//! open profits at a fixed mark.
use vstd::prelude::*;

use crate::math;
use crate::risk::hold::{Hold, HoldKind, Position};
use crate::risk::laws;
use crate::risk::model;
use crate::risk::model::{AccountModel, Ledger, Mark};
use crate::store::sums;
use crate::types::event::Trade;
use crate::types::ids::{CurrencyId, UserId};
use crate::types::numeric;
use crate::types::numeric::{Amount, Bps, Price, Size};
use crate::types::symbol::SymbolSpec;

verus! {

/// A mark for a symbol.
pub open spec fn mark_of(spec: SymbolSpec, mark: Price) -> Mark {
    Mark { symbol_id: spec.symbol_id, price: mark, scale: spec.base_minor_per_major }
}

/// Open profit of a position in minor units times the scale of its symbol.
pub open spec fn raw_of(p: Position, mark: Price) -> int {
    (mark.0 - p.entry_price.0) * p.size.0
}

/// The worth of the ledger in the currency of a symbol, times the scale of the
/// symbol: all money, and the open profits of all positions in the symbol.
pub open spec fn value(s: Ledger, spec: SymbolSpec, mark: Price) -> int {
    spec.base_minor_per_major * model::total_internal(s, spec.quote_currency) + sums::sum_map(
        s.accounts,
        model::raw_profit_in(spec.quote_currency, mark_of(spec, mark)),
    )
}

/// Whether a position has its margin in a currency, or is none.
pub open spec fn orderly(p: Position, c: CurrencyId) -> bool {
    p.margin_currency == c || (p.size.0 == 0 && p.margin_locked.0 == 0)
}

/// Whether all positions in a symbol have their margin in its quote currency.
pub open spec fn all_orderly(m: Map<UserId, AccountModel>, spec: SymbolSpec) -> bool {
    forall|u: UserId| #[trigger]
        m.contains_key(u) ==> orderly(m[u].position_in(spec.symbol_id), spec.quote_currency)
}

/// A ledger that the laws speak of.
pub open spec fn tidy(s: Ledger, spec: SymbolSpec) -> bool {
    laws::finite(s) && all_orderly(s.accounts, spec)
}

proof fn lemma_update(s: Ledger, u: UserId, a: AccountModel, spec: SymbolSpec, mark: Price)
    requires
        tidy(s, spec),
        s.has(u),
        a.positions.dom().finite(),
        orderly(a.position_in(spec.symbol_id), spec.quote_currency),
    ensures
        tidy(s.with_account(u, a), spec),
        value(s.with_account(u, a), spec, mark) == value(s, spec, mark)
            + spec.base_minor_per_major * (model::worth_in(spec.quote_currency)(a)
            - model::worth_in(spec.quote_currency)(s.accounts[u])) + raw_of(
            a.position_in(spec.symbol_id),
            mark,
        ) - raw_of(s.accounts[u].position_in(spec.symbol_id), mark),
{
    let c = spec.quote_currency;
    let f = model::raw_profit_in(c, mark_of(spec, mark));
    let t = s.with_account(u, a);
    laws::lemma_account_total(s, u, a, c);
    sums::lemma_sum_insert(s.accounts, f, u, a);
    lemma_raw(a, spec, mark);
    assert(s.accounts.contains_key(u));
    lemma_raw(s.accounts[u], spec, mark);
    let w = model::worth_in(c)(a) - model::worth_in(c)(s.accounts[u]);
    assert(spec.base_minor_per_major * (model::total_internal(s, c) + w)
        == spec.base_minor_per_major * model::total_internal(s, c) + spec.base_minor_per_major * w)
        by (nonlinear_arith);
    assert forall|v: UserId| #[trigger] t.accounts.contains_key(v) implies orderly(
        t.accounts[v].position_in(spec.symbol_id),
        spec.quote_currency,
    ) by {
        if v != u {
            assert(s.accounts.contains_key(v));
        }
    }
}

proof fn lemma_raw(a: AccountModel, spec: SymbolSpec, mark: Price)
    requires
        orderly(a.position_in(spec.symbol_id), spec.quote_currency),
    ensures
        model::raw_profit_in(spec.quote_currency, mark_of(spec, mark))(a) == raw_of(
            a.position_in(spec.symbol_id),
            mark,
        ),
{
    let p = a.position_in(spec.symbol_id);
    if p.size.0 == 0 {
        assert((mark.0 - p.entry_price.0) * 0 == 0);
    }
}

/// Free money in the quote currency.
proof fn lemma_credit(s: Ledger, u: UserId, x: int, spec: SymbolSpec, mark: Price)
    requires
        tidy(s, spec),
        s.has(u),
    ensures
        ({
            let t = s.credit(u, spec.quote_currency, x);
            &&& tidy(t, spec)
            &&& value(t, spec, mark) == value(s, spec, mark) + spec.base_minor_per_major * x
            &&& t.accounts.dom() == s.accounts.dom()
        }),
{
    let a = s.accounts[u].credited(spec.quote_currency, x);
    assert(s.accounts.contains_key(u));
    assert(a.positions == s.accounts[u].positions);
    lemma_update(s, u, a, spec, mark);
    let t = s.credit(u, spec.quote_currency, x);
    assert(t.accounts == s.with_account(u, a).accounts);
    assert(t.accounts.dom() =~= s.accounts.dom());
}

/// Reserved money in the quote currency.
proof fn lemma_reserve(s: Ledger, u: UserId, x: int, spec: SymbolSpec, mark: Price)
    requires
        tidy(s, spec),
        s.has(u),
    ensures
        ({
            let t = s.reserve(u, spec.quote_currency, x);
            &&& tidy(t, spec)
            &&& value(t, spec, mark) == value(s, spec, mark) + spec.base_minor_per_major * x
            &&& t.accounts.dom() == s.accounts.dom()
        }),
{
    let a = s.accounts[u].reserved(spec.quote_currency, x);
    assert(s.accounts.contains_key(u));
    assert(a.positions == s.accounts[u].positions);
    lemma_update(s, u, a, spec, mark);
    let t = s.reserve(u, spec.quote_currency, x);
    assert(t.accounts == s.with_account(u, a).accounts);
    assert(t.accounts.dom() =~= s.accounts.dom());
}

/// A position with its margin.
proof fn lemma_position(s: Ledger, u: UserId, q: Position, spec: SymbolSpec, mark: Price)
    requires
        tidy(s, spec),
        s.has(u),
        orderly(q, spec.quote_currency),
    ensures
        ({
            let t = s.set_position(u, spec.symbol_id, q);
            let p = s.accounts[u].position_in(spec.symbol_id);
            &&& tidy(t, spec)
            &&& value(t, spec, mark) == value(s, spec, mark) + spec.base_minor_per_major * (
            q.margin_locked.0 - p.margin_locked.0) + raw_of(q, mark) - raw_of(p, mark)
            &&& t.accounts.dom() == s.accounts.dom()
        }),
{
    let c = spec.quote_currency;
    let b = s.accounts[u];
    let a = b.with_position(spec.symbol_id, q);
    assert(s.accounts.contains_key(u));
    sums::lemma_sum_insert(b.positions, model::margin_in(c), spec.symbol_id, q);
    lemma_update(s, u, a, spec, mark);
    assert(a.position_in(spec.symbol_id) == q);
    assert(s.set_position(u, spec.symbol_id, q).accounts.dom() =~= s.accounts.dom());
}

/// Claims about the machine change nothing else.
proof fn lemma_same(s: Ledger, t: Ledger, spec: SymbolSpec, mark: Price)
    requires
        t.accounts == s.accounts,
    ensures
        value(t, spec, mark) == value(s, spec, mark),
        tidy(s, spec) ==> tidy(t, spec),
{
}

/// Paying out of a reservation costs what is paid.
proof fn lemma_pay(
    s: Ledger,
    u: UserId,
    reserved: int,
    cost: int,
    spec: SymbolSpec,
    mark: Price,
)
    requires
        tidy(s, spec),
        s.has(u),
        math::fits_i64(reserved),
        0 <= cost,
        model::pay_from_reserve(s, u, spec.quote_currency, reserved, cost).1,
    ensures
        ({
            let t = model::pay_from_reserve(s, u, spec.quote_currency, reserved, cost).0;
            &&& tidy(t, spec)
            &&& value(t, spec, mark) == value(s, spec, mark) - spec.base_minor_per_major * cost
            &&& t.accounts.dom() == s.accounts.dom()
            &&& t.accounts[u].positions == s.accounts[u].positions
        }),
{
    let c = spec.quote_currency;
    let k = spec.base_minor_per_major as int;
    let t = s.reserve(u, c, -reserved);
    lemma_reserve(s, u, -reserved, spec, mark);
    assert(t.has(u));
    assert(k * (-reserved) + k * (reserved - cost) == -(k * cost)) by (nonlinear_arith);
    if cost > reserved {
        let t1 = t.claim(math::fits_i64(cost - reserved));
        lemma_same(t, t1, spec, mark);
        lemma_credit(t1, u, reserved - cost, spec, mark);
    } else {
        lemma_credit(t, u, reserved - cost, spec, mark);
    }
}

/// What the fill of a side is worth at a mark.
pub open spec fn moved(h: Hold, trade: Trade, mark: Price) -> int {
    (mark.0 - trade.price.0) * model::signed(h.side, trade.size.0 as int)
}

/// What rounding may shift: the average entry price of a position that grows is
/// rounded once for the whole of it, a realised profit is rounded once.
pub open spec fn slack(p: Position, h: Hold, trade: Trade, spec: SymbolSpec) -> int {
    let added = model::signed(h.side, trade.size.0 as int);
    if p.size.0 != 0 && (p.size.0 > 0) != (added > 0) {
        spec.base_minor_per_major as int
    } else {
        math::magnitude(p.size.0 + added)
    }
}

/// The arithmetic of a position that grows.
proof fn lemma_grow(p: int, a: int, e: int, f: int, price: int, mark: int)
    requires
        a != 0,
        p == 0 || (p > 0) == (a > 0),
        p == 0 ==> f == price,
        p != 0 ==> f == math::tdiv(
            math::magnitude(p) * e + math::magnitude(a) * price,
            math::magnitude(p + a),
        ),
    ensures
        ({
            let off = (mark - f) * (p + a) - (mark - e) * p - (mark - price) * a;
            -math::magnitude(p + a) < off < math::magnitude(p + a)
        }),
{
    let n = p + a;
    let d = math::magnitude(n);
    if p == 0 {
        assert((mark - f) * (p + a) - (mark - e) * p - (mark - price) * a == 0) by (nonlinear_arith)
            requires
                p == 0,
                f == price,
        ;
    } else {
        let sum = math::magnitude(p) * e + math::magnitude(a) * price;
        math::lemma_tdiv_remainder(sum, d);
        let r = sum - d * f;
        assert((mark - f) * n == mark * n - f * n) by (nonlinear_arith);
        assert((mark - e) * p == mark * p - e * p) by (nonlinear_arith);
        assert((mark - price) * a == mark * a - price * a) by (nonlinear_arith);
        assert(mark * n == mark * p + mark * a) by (nonlinear_arith)
            requires
                n == p + a,
        ;
        assert(p * e == e * p && a * price == price * a && n * f == f * n) by (nonlinear_arith);
        assert((-p) * e == -(e * p)) by (nonlinear_arith);
        assert((-a) * price == -(price * a)) by (nonlinear_arith);
        assert((-n) * f == -(f * n)) by (nonlinear_arith);
        let off = (mark - f) * n - (mark - e) * p - (mark - price) * a;
        assert(off == if p > 0 { r } else { -r });
    }
}

/// A rate of something that is not negative is not negative.
proof fn lemma_rated(amount: int, bps: Bps)
    requires
        amount >= 0,
    ensures
        numeric::bps_of_ceil(amount, bps.0 as int) >= 0,
{
    assert(amount * bps.0 >= 0) by (nonlinear_arith)
        requires
            amount >= 0,
            bps.0 >= 0,
    ;
}

/// A fill that opens a position or adds to it.
proof fn lemma_open(
    s: Ledger,
    trade: Trade,
    h: Hold,
    notional: int,
    fee: int,
    reserved: int,
    imr: Bps,
    spec: SymbolSpec,
    mark: Price,
)
    requires
        tidy(s, spec),
        s.has(h.user_id),
        h.currency == spec.quote_currency,
        h.symbol_id == spec.symbol_id,
        trade.size.0 > 0,
        0 <= notional,
        0 <= fee,
        math::fits_i64(reserved),
        ({
            let p = s.accounts[h.user_id].position_in(h.symbol_id);
            let added = model::signed(h.side, trade.size.0 as int);
            p.size.0 == 0 || (p.size.0 > 0) == (added > 0)
        }),
        model::settle_open(s, trade, h, notional, fee, reserved, imr, spec).1 is Ok,
        model::settle_open(s, trade, h, notional, fee, reserved, imr, spec).0.exact,
    ensures
        ({
            let t = model::settle_open(s, trade, h, notional, fee, reserved, imr, spec).0;
            let p = s.accounts[h.user_id].position_in(h.symbol_id);
            let off = value(t, spec, mark) - value(s, spec, mark) - moved(h, trade, mark);
            &&& tidy(t, spec)
            &&& t.accounts.dom() == s.accounts.dom()
            &&& -slack(p, h, trade, spec) < off < slack(p, h, trade, spec)
        }),
{
    let u = h.user_id;
    let k = spec.base_minor_per_major as int;
    let c = spec.quote_currency;
    let margin = model::rated(Some(notional), imr)->0;
    let cost = margin + fee;
    lemma_rated(notional, imr);
    let (t, paid) = model::pay_from_reserve(s, u, c, reserved, cost);
    lemma_pay(s, u, reserved, cost, spec, mark);
    let p = t.accounts[u].position_in(h.symbol_id);
    let p0 = s.accounts[u].position_in(h.symbol_id);
    assert(p == p0);
    assert(t.accounts.contains_key(u));
    let added = model::signed(h.side, trade.size.0 as int);
    let entry = model::blended_entry(p, added, trade.size, trade.price);
    let locked = p.margin_locked.0 + margin;
    let q = Position {
        size: Size((p.size.0 + added) as i64),
        entry_price: Price(entry as i64),
        margin_locked: Amount(locked as i64),
        margin_currency: h.currency,
    };
    let t1 = t.set_position(u, h.symbol_id, q);
    lemma_position(t, u, q, spec, mark);
    let t2 = t1.claim(
        math::fits_i64(p.size.0 + added) && math::fits_i64(entry) && math::fits_i64(locked),
    );
    lemma_same(t1, t2, spec, mark);
    assert(t2.has(model::house()));
    lemma_credit(t2, model::house(), fee, spec, mark);
    let f = t2.credit(model::house(), c, fee);
    assert(f.exact);
    lemma_grow(
        p.size.0 as int,
        added,
        p.entry_price.0 as int,
        entry,
        trade.price.0 as int,
        mark.0 as int,
    );
    assert(-(k * cost) + k * (locked - p.margin_locked.0) + k * fee == 0) by (nonlinear_arith)
        requires
            cost == margin + fee,
            locked - p.margin_locked.0 == margin,
    ;
}

/// The arithmetic of a realised profit: closing `-a` of a position.
proof fn lemma_realise(p: int, a: int, closed: int, e: int, price: int, k: int, gain: int)
    requires
        k > 0,
        p != 0,
        p > 0 ==> a == -closed && gain == math::tdiv((price - e) * closed, k),
        p < 0 ==> a == closed && gain == math::tdiv((e - price) * closed, k),
    ensures
        -k < k * gain - (e - price) * a < k,
{
    if p > 0 {
        math::lemma_tdiv_remainder((price - e) * closed, k);
        assert((e - price) * a == (price - e) * closed) by (nonlinear_arith)
            requires
                a == -closed,
        ;
    } else {
        math::lemma_tdiv_remainder((e - price) * closed, k);
    }
}

/// A fill that makes a position smaller.
proof fn lemma_reduce(
    s: Ledger,
    trade: Trade,
    h: Hold,
    fee: int,
    reserved: int,
    spec: SymbolSpec,
    mark: Price,
)
    requires
        tidy(s, spec),
        s.has(h.user_id),
        h.currency == spec.quote_currency,
        h.symbol_id == spec.symbol_id,
        spec.base_minor_per_major > 0,
        trade.size.0 > 0,
        0 <= fee,
        math::fits_i64(reserved),
        ({
            let p = s.accounts[h.user_id].position_in(h.symbol_id);
            let added = model::signed(h.side, trade.size.0 as int);
            &&& p.size.0 != 0
            &&& (p.size.0 > 0) != (added > 0)
            &&& trade.size.0 <= math::magnitude(p.size.0 as int)
            &&& p.size.0 != i64::MIN
        }),
        model::settle_reduce(s, trade, h, fee, reserved, spec).1 is Ok,
        model::settle_reduce(s, trade, h, fee, reserved, spec).0.exact,
    ensures
        ({
            let t = model::settle_reduce(s, trade, h, fee, reserved, spec).0;
            let p = s.accounts[h.user_id].position_in(h.symbol_id);
            let off = value(t, spec, mark) - value(s, spec, mark) - moved(h, trade, mark);
            &&& tidy(t, spec)
            &&& t.accounts.dom() == s.accounts.dom()
            &&& -slack(p, h, trade, spec) < off < slack(p, h, trade, spec)
        }),
{
    let u = h.user_id;
    let k = spec.base_minor_per_major as int;
    let c = spec.quote_currency;
    let (t, paid) = model::pay_from_reserve(s, u, c, reserved, fee);
    lemma_pay(s, u, reserved, fee, spec, mark);
    let p = t.accounts[u].position_in(h.symbol_id);
    assert(p == s.accounts[u].position_in(h.symbol_id));
    assert(t.accounts.contains_key(u));
    let added = model::signed(h.side, trade.size.0 as int);
    let left = p.size.0 + added;
    let gain = model::profit(p, trade.size.0 as int, trade.price, spec);
    let whole = model::word_abs(p.size.0 as int);
    let freed = math::tdiv(p.margin_locked.0 * trade.size.0, whole);
    math::lemma_part_between(p.margin_locked.0 as int, trade.size.0 as int, whole);
    let kept = p.margin_locked.0 - freed;
    assert(numeric::saturated(kept) == kept);
    let q = Position {
        size: Size(left as i64),
        entry_price: if left == 0 {
            Price(0)
        } else {
            p.entry_price
        },
        margin_locked: Amount(kept as i64),
        margin_currency: p.margin_currency,
    };
    let t1 = t.set_position(u, h.symbol_id, q);
    lemma_position(t, u, q, spec, mark);
    let t2 = t1.claim(math::fits_i64(left) && math::fits_i64(gain) && math::fits_i64(freed));
    let t3 = t2.claim(math::fits_i64(t2.accounts[u].free[c] + freed));
    lemma_same(t1, t3, spec, mark);
    assert(t3.has(u));
    lemma_credit(t3, u, freed + gain, spec, mark);
    let t4 = t3.credit(u, c, freed + gain);
    assert(t4.has(model::house()));
    lemma_credit(t4, model::house(), fee, spec, mark);
    lemma_realise(
        p.size.0 as int,
        added,
        trade.size.0 as int,
        p.entry_price.0 as int,
        trade.price.0 as int,
        k,
        gain,
    );
    assert(raw_of(q, mark) - raw_of(p, mark) == (mark.0 - p.entry_price.0) * added)
        by (nonlinear_arith)
        requires
            left == p.size.0 + added,
            q.size.0 == left,
            left == 0 || q.entry_price == p.entry_price,
            raw_of(q, mark) == (mark.0 - q.entry_price.0) * q.size.0,
            raw_of(p, mark) == (mark.0 - p.entry_price.0) * p.size.0,
    ;
    assert((mark.0 - p.entry_price.0) * added + (p.entry_price.0 - trade.price.0) * added == (mark.0
        - trade.price.0) * added) by (nonlinear_arith);
    assert(-(k * fee) + k * (kept - p.margin_locked.0) + k * (freed + gain) + k * fee == k * gain)
        by (nonlinear_arith)
        requires
            kept == p.margin_locked.0 - freed,
    ;
}

/// A fill that turns a position round.
proof fn lemma_flip(
    s: Ledger,
    trade: Trade,
    h: Hold,
    fee: int,
    reserved: int,
    imr: Bps,
    spec: SymbolSpec,
    mark: Price,
)
    requires
        tidy(s, spec),
        s.has(h.user_id),
        h.currency == spec.quote_currency,
        h.symbol_id == spec.symbol_id,
        spec.base_minor_per_major > 0,
        trade.size.0 > 0,
        trade.price.0 >= 0,
        0 <= fee,
        math::fits_i64(reserved),
        ({
            let p = s.accounts[h.user_id].position_in(h.symbol_id);
            let added = model::signed(h.side, trade.size.0 as int);
            &&& p.size.0 != 0
            &&& (p.size.0 > 0) != (added > 0)
            &&& trade.size.0 > math::magnitude(p.size.0 as int)
            &&& p.size.0 != i64::MIN
        }),
        model::settle_flip(s, trade, h, fee, reserved, imr, spec).1 is Ok,
        model::settle_flip(s, trade, h, fee, reserved, imr, spec).0.exact,
    ensures
        ({
            let t = model::settle_flip(s, trade, h, fee, reserved, imr, spec).0;
            let p = s.accounts[h.user_id].position_in(h.symbol_id);
            let off = value(t, spec, mark) - value(s, spec, mark) - moved(h, trade, mark);
            &&& tidy(t, spec)
            &&& t.accounts.dom() == s.accounts.dom()
            &&& -slack(p, h, trade, spec) < off < slack(p, h, trade, spec)
        }),
{
    let u = h.user_id;
    let k = spec.base_minor_per_major as int;
    let c = spec.quote_currency;
    let p = s.accounts[u].position_in(h.symbol_id);
    let added = model::signed(h.side, trade.size.0 as int);
    let closed = model::word_abs(p.size.0 as int);
    let opened = model::word_abs(added) - closed;
    let gain = model::profit(p, closed, trade.price, spec);
    let s1 = s.claim(math::fits_i64(opened) && math::fits_i64(gain));
    lemma_same(s, s1, spec, mark);
    let margin = model::rated(model::quoted(trade.price.0 as int, opened, spec), imr)->0;
    assert(trade.price.0 * opened >= 0) by (nonlinear_arith)
        requires
            trade.price.0 >= 0,
            opened >= 0,
    ;
    math::lemma_tdiv_bounds(trade.price.0 * opened, k);
    lemma_rated(model::quoted(trade.price.0 as int, opened, spec)->0, imr);
    let cost = margin + fee;
    let (t, paid) = model::pay_from_reserve(s1, u, c, reserved, cost);
    lemma_pay(s1, u, reserved, cost, spec, mark);
    let q = Position {
        size: Size(
            (if added > 0 {
                opened
            } else {
                -opened
            }) as i64,
        ),
        entry_price: trade.price,
        margin_locked: Amount(margin as i64),
        margin_currency: h.currency,
    };
    let t1 = t.claim(
        math::fits_i64(reserved - margin - fee) && math::fits_i64(p.margin_locked.0 + gain)
            && math::fits_i64(-opened),
    );
    lemma_same(t, t1, spec, mark);
    assert(t1.has(u));
    lemma_credit(t1, u, p.margin_locked.0 + gain, spec, mark);
    let t2 = t1.credit(u, c, p.margin_locked.0 + gain);
    assert(t2.has(u));
    assert(t2.accounts[u].position_in(h.symbol_id) == p);
    lemma_position(t2, u, q, spec, mark);
    let t3 = t2.set_position(u, h.symbol_id, q);
    assert(t3.has(model::house()));
    lemma_credit(t3, model::house(), fee, spec, mark);
    assert(t3.credit(model::house(), c, fee).exact);
    lemma_realise(
        p.size.0 as int,
        -p.size.0,
        closed,
        p.entry_price.0 as int,
        trade.price.0 as int,
        k,
        gain,
    );
    assert(q.size.0 == p.size.0 + added);
    assert(raw_of(q, mark) - raw_of(p, mark) == (mark.0 - trade.price.0) * added + (
    p.entry_price.0 - trade.price.0) * p.size.0) by (nonlinear_arith)
        requires
            raw_of(q, mark) == (mark.0 - trade.price.0) * (p.size.0 + added),
            raw_of(p, mark) == (mark.0 - p.entry_price.0) * p.size.0,
    ;
    assert((p.entry_price.0 - trade.price.0) * (-p.size.0) == -((p.entry_price.0 - trade.price.0)
        * p.size.0)) by (nonlinear_arith);
    assert(-(k * cost) + k * (p.margin_locked.0 + gain) + k * (margin - p.margin_locked.0) + k * fee
        == k * gain) by (nonlinear_arith)
        requires
            cost == margin + fee,
    ;
}

/// Whether a reservation is one of a derivative order of a symbol.
pub open spec fn derivative_hold(h: Hold, spec: SymbolSpec) -> bool {
    &&& h.kind is Derivative
    &&& h.currency == spec.quote_currency
    &&& h.symbol_id == spec.symbol_id
}

/// One side of a derivative trade changes the worth at a mark by what its fill is
/// worth there, up to rounding.
proof fn lemma_side_value(
    s: Ledger,
    trade: Trade,
    h: Hold,
    is_taker: bool,
    spec: SymbolSpec,
    mark: Price,
)
    requires
        tidy(s, spec),
        derivative_hold(h, spec),
        spec.base_minor_per_major > 0,
        trade.price.0 >= 0,
        0 < trade.size.0,
        model::settle_side(s, trade, h, is_taker, spec).1 is Ok,
        model::settle_side(s, trade, h, is_taker, spec).0.exact,
    ensures
        ({
            let t = model::settle_side(s, trade, h, is_taker, spec).0;
            let p = s.accounts[h.user_id].position_in(h.symbol_id);
            let off = value(t, spec, mark) - value(s, spec, mark) - moved(h, trade, mark);
            &&& tidy(t, spec)
            &&& -slack(p, h, trade, spec) < off < slack(p, h, trade, spec)
        }),
{
    if let (
        HoldKind::Derivative { reserve_margin, reserve_fee, original_size, ref_price },
        Some(imr),
    ) = (h.kind, model::initial_margin(spec)) {
        let p = s.accounts[h.user_id].position_in(h.symbol_id);
        let added = model::signed(h.side, trade.size.0 as int);
        let against = p.size.0 != 0 && (p.size.0 > 0) != (added > 0);
        let flips = against && model::word_abs(added) > model::word_abs(p.size.0 as int);
        let margin_share = model::share(reserve_margin, trade.size, original_size);
        let fee_share = model::share(reserve_fee, trade.size, original_size);
        let notional = model::quoted(trade.price.0 as int, trade.size.0 as int, spec);
        let fee = model::rated(notional, model::fee_rate(is_taker, spec));
        let s1 = s.claim(
            trade.size.0 != i64::MIN && original_size.0 != 0 && math::fits_i64(margin_share)
                && math::fits_i64(fee_share),
        );
        let reserved = margin_share + fee_share;
        let f = fee->0;
        lemma_same(s, s1, spec, mark);
        assert(trade.price.0 * trade.size.0 >= 0) by (nonlinear_arith)
            requires
                trade.price.0 >= 0,
                trade.size.0 >= 0,
        ;
        math::lemma_tdiv_bounds(
            trade.price.0 * trade.size.0,
            spec.base_minor_per_major as int,
        );
        lemma_rated(notional->0, model::fee_rate(is_taker, spec));
        let t = if flips {
            model::settle_flip(s1, trade, h, f, reserved, imr, spec).0
        } else if against {
            model::settle_reduce(s1, trade, h, f, reserved, spec).0
        } else {
            model::settle_open(s1, trade, h, notional->0, f, reserved, imr, spec).0
        };
        assert(t.exact);
        if flips {
            if p.size.0 == i64::MIN {
                assert(!math::fits_i64(model::word_abs(added) - model::word_abs(p.size.0 as int)));
                lemma_flip_exact(s1, trade, h, f, reserved, imr, spec);
            }
            lemma_flip(s1, trade, h, f, reserved, imr, spec, mark);
        } else if against {
            lemma_reduce(s1, trade, h, f, reserved, spec, mark);
        } else {
            lemma_open(s1, trade, h, notional->0, f, reserved, imr, spec, mark);
        }
        assert(t.has(h.user_id));
        lemma_drawn(t, h, reserved, trade.size.0 as int, spec, mark);
    }
}

/// Turning a position round is exact only where the opened size fits.
proof fn lemma_flip_exact(
    s: Ledger,
    trade: Trade,
    h: Hold,
    fee: int,
    reserved: int,
    imr: Bps,
    spec: SymbolSpec,
)
    requires
        model::settle_flip(s, trade, h, fee, reserved, imr, spec).0.exact,
        model::settle_flip(s, trade, h, fee, reserved, imr, spec).1 is Ok,
    ensures
        math::fits_i64(
            model::word_abs(model::signed(h.side, trade.size.0 as int)) - model::word_abs(
                s.accounts[h.user_id].position_in(h.symbol_id).size.0 as int,
            ),
        ),
{
}

/// Drawing a reservation down moves no money.
proof fn lemma_drawn(
    s: Ledger,
    h: Hold,
    amount: int,
    size: int,
    spec: SymbolSpec,
    mark: Price,
)
    requires
        tidy(s, spec),
        s.has(h.user_id),
        h.currency == spec.quote_currency,
    ensures
        ({
            let t = model::drawn_down(s, h, amount, size).0;
            tidy(t, spec) && value(t, spec, mark) == value(s, spec, mark)
        }),
{
    let u = h.user_id;
    let k = spec.base_minor_per_major as int;
    let left = h.remaining_amount.0 - amount;
    let open = h.remaining_size.0 - size;
    let t = s.claim(math::fits_i64(left) && math::fits_i64(open));
    lemma_same(s, t, spec, mark);
    lemma_reserve(t, u, -left, spec, mark);
    let t1 = t.reserve(u, h.currency, -left);
    assert(t1.has(u));
    lemma_credit(t1, u, left, spec, mark);
    assert(k * (-left) + k * left == 0) by (nonlinear_arith);
}

/// What rounding may shift in a trade: that of the taker's position, and after it that of
/// the maker's.
pub open spec fn trade_slack(s: Ledger, trade: Trade, spec: SymbolSpec) -> int {
    let th = s.holds[trade.taker_order_id];
    let mh = s.holds[trade.maker_order_id];
    let mid = model::settle_side(
        s.drop_hold(trade.taker_order_id).drop_hold(trade.maker_order_id),
        trade,
        th,
        true,
        spec,
    ).0;
    slack(s.accounts[th.user_id].position_in(spec.symbol_id), th, trade, spec) + slack(
        mid.accounts[mh.user_id].position_in(spec.symbol_id),
        mh,
        trade,
        spec,
    )
}

/// A derivative trade that settles neither makes nor loses money: at any fixed
/// mark, all money and all open profits together stay the same, up to the
/// rounding of the two positions that it touches.
pub proof fn law_derivative_trade_conserves(
    s: Ledger,
    trade: Trade,
    spec: SymbolSpec,
    mark: Price,
)
    requires
        tidy(s, spec),
        s.holds.contains_key(trade.taker_order_id),
        s.holds.contains_key(trade.maker_order_id),
        derivative_hold(s.holds[trade.taker_order_id], spec),
        derivative_hold(s.holds[trade.maker_order_id], spec),
        s.holds[trade.taker_order_id].side == s.holds[trade.maker_order_id].side.other(),
        spec.base_minor_per_major > 0,
        trade.price.0 >= 0,
        trade.size.0 > 0,
        model::apply_trade(s, trade, spec).1 is Ok,
        model::apply_trade(s, trade, spec).0.exact,
    ensures
        ({
            let t = model::apply_trade(s, trade, spec).0;
            let bound = trade_slack(s, trade, spec);
            &&& tidy(t, spec)
            &&& -bound < value(t, spec, mark) - value(s, spec, mark) < bound
        }),
{
    let th = s.holds[trade.taker_order_id];
    let s1 = s.drop_hold(trade.taker_order_id);
    assert(trade.taker_order_id != trade.maker_order_id);
    let mh = s1.holds[trade.maker_order_id];
    let s2 = s1.drop_hold(trade.maker_order_id);
    lemma_same(s, s2, spec, mark);
    let s3 = model::settle_side(s2, trade, th, true, spec).0;
    crate::risk::engine::lemma_side_exact(s3, trade, mh, false, spec);
    lemma_side_value(s2, trade, th, true, spec, mark);
    lemma_side_value(s3, trade, mh, false, spec, mark);
    let s4 = model::settle_side(s3, trade, mh, false, spec).0;
    lemma_same(s4, model::apply_trade(s, trade, spec).0, spec, mark);
    assert(moved(th, trade, mark) + moved(mh, trade, mark) == 0) by (nonlinear_arith)
        requires
            moved(th, trade, mark) == (mark.0 - trade.price.0) * model::signed(
                th.side,
                trade.size.0 as int,
            ),
            moved(mh, trade, mark) == (mark.0 - trade.price.0) * model::signed(
                mh.side,
                trade.size.0 as int,
            ),
            model::signed(th.side, trade.size.0 as int) == -model::signed(
                mh.side,
                trade.size.0 as int,
            ),
    ;
}

/// Steps that touch no position, and leave the total of the quote currency as it was,
/// leave the worth at every mark as it was.
pub proof fn lemma_aside(s: Ledger, t: Ledger, spec: SymbolSpec, mark: Price)
    requires
        tidy(s, spec),
        t.accounts.dom() == s.accounts.dom(),
        forall|u: UserId| #[trigger]
            s.has(u) ==> t.accounts[u].positions == s.accounts[u].positions,
        model::total_internal(t, spec.quote_currency) == model::total_internal(
            s,
            spec.quote_currency,
        ),
    ensures
        tidy(t, spec),
        value(t, spec, mark) == value(s, spec, mark),
{
    let f = model::raw_profit_in(spec.quote_currency, mark_of(spec, mark));
    assert forall|u: UserId| #[trigger] s.accounts.contains_key(u) implies f(t.accounts[u]) == f(
        s.accounts[u],
    ) by {
        assert(s.has(u));
    }
    sums::lemma_sum_close(s.accounts, t.accounts, f, 0);
    assert forall|u: UserId| #[trigger] t.accounts.contains_key(u) implies
        t.accounts[u].positions.dom().finite() && orderly(
        t.accounts[u].position_in(spec.symbol_id),
        spec.quote_currency,
    ) by {
        assert(s.accounts.dom().contains(u));
        assert(s.accounts.contains_key(u) && s.has(u));
    }
}

/// What an account pays in a funding settlement.
pub open spec fn paid(spec: SymbolSpec, mark: Price, rate: int) -> spec_fn(AccountModel) -> int {
    |a: AccountModel|
        if model::funds(a, spec, mark, rate) {
            model::funding_of(a, spec, mark, rate)
        } else {
            0
        }
}

/// A funding settlement takes from the quote currency exactly what all users
/// pay together, and nothing from the others. Where longs and shorts pay each
/// other, the sum is zero and the total stays.
pub proof fn law_funding_moves_payments(
    s: Ledger,
    spec: SymbolSpec,
    mark: Price,
    rate: int,
    c: CurrencyId,
)
    requires
        laws::finite(s),
    ensures
        model::total_internal(model::apply_funding(s, spec, mark, rate), c)
            == model::total_internal(s, c) - (if c == spec.quote_currency {
            sums::sum_map(s.accounts.remove(model::house()), paid(spec, mark, rate))
        } else {
            0
        }),
{
    let t = model::apply_funding(s, spec, mark, rate);
    let f = model::worth_in(c);
    let house = model::house();
    let m = s.accounts.remove(house);
    let n = t.accounts.remove(house);
    assert(t.accounts.dom() =~= s.accounts.dom());
    assert(n.dom() =~= m.dom());
    sums::lemma_sum_take(s.accounts, f, house);
    sums::lemma_sum_take(t.accounts, f, house);
    let g = |a: AccountModel|
        if c == spec.quote_currency {
            -paid(spec, mark, rate)(a)
        } else {
            0
        };
    assert forall|u: UserId| #[trigger] m.contains_key(u) implies f(n[u]) == f(m[u]) + g(m[u]) by {
        let a = m[u];
        assert(s.has(u) && u != house);
        assert(n[u] == model::funded(u, a, spec, mark, rate));
        if model::funds(a, spec, mark, rate) {
            assert(n[u].positions == a.positions);
        }
    }
    sums::lemma_sum_added(m, n, f, g);
    lemma_negated(m, g, paid(spec, mark, rate), c == spec.quote_currency);
}

/// The sum of what is taken is what is taken from the sum.
proof fn lemma_negated<K>(
    m: Map<K, AccountModel>,
    g: spec_fn(AccountModel) -> int,
    f: spec_fn(AccountModel) -> int,
    on: bool,
)
    requires
        forall|a: AccountModel| #[trigger]
            g(a) == (if on {
                -f(a)
            } else {
                0
            }),
    ensures
        sums::sum_map(m, g) == (if on {
            -sums::sum_map(m, f)
        } else {
            0
        }),
    decreases m.dom().len(),
{
    if m.dom().finite() && m.dom().len() > 0 {
        vstd::set_lib::lemma_set_empty_equivalency_len(m.dom());
        let c = m.dom().choose();
        let a = m.remove(c);
        assert(a.dom() =~= m.dom().remove(c));
        lemma_negated(a, g, f, on);
        assert(g(m[c]) == (if on {
            -f(m[c])
        } else {
            0
        }));
    }
}

/// What an account adds to the worth of the ledger.
spec fn adds(spec: SymbolSpec, mark: Price) -> spec_fn(AccountModel) -> int {
    |a: AccountModel|
        spec.base_minor_per_major * model::worth_in(spec.quote_currency)(a) + model::raw_profit_in(
            spec.quote_currency,
            mark_of(spec, mark),
        )(a)
}

/// Closing positions at a price, by liquidation or settlement, neither makes nor
/// loses money: at that price as the mark, all money and all open profits
/// together stay the same, up to one rounding for each account. The lowest
/// machine word, whose magnitude the machine cannot form, is no size here.
pub proof fn law_closing_conserves(s: Ledger, spec: SymbolSpec, price: Price, below: Option<Bps>)
    requires
        tidy(s, spec),
        forall|u: UserId| #[trigger]
            s.has(u) ==> s.accounts[u].position_in(spec.symbol_id).size.0 != i64::MIN,
        spec.base_minor_per_major > 0,
        model::sweep(s, spec, price, below).exact,
    ensures
        ({
            let t = model::sweep(s, spec, price, below);
            let bound = spec.base_minor_per_major * s.accounts.dom().len();
            -bound <= value(t, spec, price) - value(s, spec, price) <= bound
        }),
{
    let t = model::sweep(s, spec, price, below);
    let c = spec.quote_currency;
    let k = spec.base_minor_per_major as int;
    let f = adds(spec, price);
    let w = model::worth_in(c);
    let r = model::raw_profit_in(c, mark_of(spec, price));
    assert(t.accounts.dom() =~= s.accounts.dom());
    assert forall|u: UserId| #[trigger] s.accounts.contains_key(u) implies -k <= f(t.accounts[u])
        - f(s.accounts[u]) <= k by {
        let a = s.accounts[u];
        assert(s.has(u));
        if u != model::house() && model::closes(a, spec, price, below) {
            lemma_closed(a, spec, price);
        }
    }
    sums::lemma_sum_close(s.accounts, t.accounts, f, k);
    sums::lemma_sum_linear(s.accounts, k, w, r, f);
    sums::lemma_sum_linear(t.accounts, k, w, r, f);
}

/// Closing positions keeps a ledger tidy.
pub proof fn lemma_closing_tidy(s: Ledger, spec: SymbolSpec, price: Price, below: Option<Bps>)
    requires
        tidy(s, spec),
    ensures
        tidy(model::sweep(s, spec, price, below), spec),
{
    let t = model::sweep(s, spec, price, below);
    assert(t.accounts.dom() =~= s.accounts.dom());
    assert forall|u: UserId| #[trigger] t.accounts.contains_key(u) implies
        t.accounts[u].positions.dom().finite() && orderly(
        t.accounts[u].position_in(spec.symbol_id),
        spec.quote_currency,
    ) by {
        assert(s.accounts.contains_key(u));
    }
}

/// A closed position leaves its worth as money, up to rounding.
proof fn lemma_closed(a: AccountModel, spec: SymbolSpec, price: Price)
    requires
        a.positions.dom().finite(),
        a.positions.contains_key(spec.symbol_id),
        a.positions[spec.symbol_id].size.0 != 0,
        a.positions[spec.symbol_id].size.0 != i64::MIN,
        orderly(a.position_in(spec.symbol_id), spec.quote_currency),
        spec.base_minor_per_major > 0,
        model::can_close(a, spec, price),
    ensures
        ({
            let b = model::closed(a, spec, price);
            let f = adds(spec, price);
            -spec.base_minor_per_major <= f(b) - f(a) <= spec.base_minor_per_major
        }),
{
    let c = spec.quote_currency;
    let k = spec.base_minor_per_major as int;
    let p = a.positions[spec.symbol_id];
    let q = Position { margin_currency: p.margin_currency, ..Position::flat() };
    let gain = model::close_gain(a, spec, price);
    let mid = a.credited(c, p.margin_locked.0 + gain);
    let b = mid.with_position(spec.symbol_id, q);
    assert(mid.positions == a.positions);
    sums::lemma_sum_insert(a.positions, model::margin_in(c), spec.symbol_id, q);
    lemma_raw(a, spec, price);
    lemma_raw(b, spec, price);
    assert(raw_of(q, price) == 0) by (nonlinear_arith)
        requires
            q.size.0 == 0,
            raw_of(q, price) == (price.0 - q.entry_price.0) * q.size.0,
    ;
    let closed = model::word_abs(p.size.0 as int);
    lemma_realise(
        p.size.0 as int,
        -p.size.0,
        closed,
        p.entry_price.0 as int,
        price.0 as int,
        k,
        gain,
    );
    assert((p.entry_price.0 - price.0) * (-p.size.0) == raw_of(p, price)) by (nonlinear_arith)
        requires
            raw_of(p, price) == (price.0 - p.entry_price.0) * p.size.0,
    ;
    let wa = model::worth_in(c)(a);
    assert(model::worth_in(c)(b) == wa + gain);
    assert(k * (wa + gain) == k * wa + k * gain) by (nonlinear_arith);
}

} // verus!
