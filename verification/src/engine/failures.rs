//! Why a trade can fail to settle.
use vstd::prelude::*;

use crate::engine::backing;
use crate::engine::laws;
use crate::engine::lemmas;
use crate::engine::model;
use crate::engine::model::{EngineModel, PendingStop};
use crate::matching::laws as book_laws;
use crate::matching::model as book_model;
use crate::risk::hold::Hold;
use crate::risk::laws as risk_laws;
use crate::risk::model as risk_model;
use crate::risk::model::Ledger;
use crate::risk::value;
use crate::types::command::{Command, CommandEnvelope, ModifyOrder, PlaceOrder, SetMarkPrice};
use crate::types::enums::OrderType;
use crate::types::event::Trade;
use crate::types::ids::{OrderId, SeqNo, SymbolId, Timestamp};
use crate::types::reject::RejectReason;
use crate::types::symbol::SymbolSpec;

verus! {

/// The reasons for which a trade in a symbol can fail to settle: an amount of it does not
/// fit, or in a derivative the free balance of a side does not cover what its fill costs
/// beyond the reservation, for margin or for the fee of a fill that reduces a position.
pub open spec fn may_fail(spec: SymbolSpec, reason: RejectReason) -> bool {
    ||| reason == RejectReason::ArithmeticOverflow
    ||| !(spec.kind_params is Spot) && (reason == RejectReason::InsufficientMargin || reason
        == RejectReason::InsufficientFunds)
}

/// Whether every reservation belongs to a user.
spec fn owned(l: Ledger) -> bool {
    forall|id: OrderId| #[trigger] l.holds.contains_key(id) ==> l.has(l.holds[id].user_id)
}

proof fn lemma_side_fails(s: Ledger, trade: Trade, h: Hold, is_taker: bool, spec: SymbolSpec)
    requires
        s.has(h.user_id),
        spec.kind_params is Spot ==> risk_laws::spot_hold(h, spec),
        !(spec.kind_params is Spot) ==> value::derivative_hold(h, spec),
    ensures
        risk_model::settle_side(s, trade, h, is_taker, spec).1 matches Err(r) ==> may_fail(spec, r),
{
}

/// A trade whose reservations are there fails for no other reason.
proof fn lemma_trade_fails(s: Ledger, trade: Trade, spec: SymbolSpec)
    requires
        s.has(risk_model::house()),
        backing::trade_held(s.holds, trade, spec),
        trade.size.0 <= s.holds[trade.taker_order_id].remaining_size.0,
        s.has(s.holds[trade.taker_order_id].user_id),
        s.has(s.holds[trade.maker_order_id].user_id),
    ensures
        risk_model::apply_trade(s, trade, spec).1 matches Err(r) ==> may_fail(spec, r),
{
    let th = s.holds[trade.taker_order_id];
    let mh = s.holds[trade.maker_order_id];
    let s1 = s.drop_hold(trade.taker_order_id);
    let s2 = s1.drop_hold(trade.maker_order_id);
    lemma_side_fails(s2, trade, th, true, spec);
    let (s3, r) = risk_model::settle_side(s2, trade, th, true, spec);
    if r is Ok {
        risk_laws::lemma_side_holds(s2, trade, th, true, spec);
        assert(s3.has(mh.user_id));
        lemma_side_fails(s3, trade, mh, false, spec);
    }
}

/// Nor do trades one after the other.
proof fn lemma_trades_fail(l: Ledger, trades: Seq<Trade>, spec: SymbolSpec)
    requires
        l.has(risk_model::house()),
        owned(l),
        backing::trades_held(l.holds, trades, spec),
        model::settle_trades(l, trades, spec).exact,
    ensures
        model::settle_failure(l, trades, spec) matches Some(r) ==> may_fail(spec, r),
    decreases trades.len(),
{
    if trades.len() > 0 {
        let rest = trades.drop_last();
        let trade = trades.last();
        let before = model::settle_trades(l, rest, spec);
        let taker = trade.taker_order_id;
        let maker = trade.maker_order_id;
        backing::lemma_held_before(l.holds, trades, spec);
        lemmas::lemma_settle_exact(l, trades, spec, rest.len() as int);
        assert(trades.subrange(0, rest.len() as int) =~= rest);
        lemma_trades_fail(l, rest, spec);
        if model::settle_failure(l, rest, spec) is None {
            backing::lemma_trades_settle(l, rest, spec, false);
            assert(book_laws::traded_by(trades, taker) <= l.holds[taker].remaining_size.0);
            assert(book_laws::traded_by(trades, maker) <= l.holds[maker].remaining_size.0);
            assert(risk_laws::filled(
                l.holds,
                before.holds,
                taker,
                book_laws::traded_by(rest, taker),
            ));
            assert(risk_laws::filled(
                l.holds,
                before.holds,
                maker,
                book_laws::traded_by(rest, maker),
            ));
            lemma_trade_fails(before, trade, spec);
        }
    }
}

/// An order on its way to the book settles, or fails for one of these reasons.
proof fn lemma_apply_fails(
    e: EngineModel,
    extra: Seq<PendingStop>,
    order_id: OrderId,
    p: PlaceOrder,
    now: Timestamp,
)
    requires
        e.sound(),
        e.failure is None,
        backing::backed_but(e, extra),
        extra.len() > 0,
        extra[0].order_id == order_id,
        extra[0].place_order.user_id == p.user_id,
        extra[0].place_order.symbol_id == p.symbol_id,
        extra[0].place_order.side == p.side,
        extra[0].place_order.size == p.size,
        model::apply_to_book(e, order_id, p, e.symbols[p.symbol_id], now).0.exact(),
    ensures
        model::apply_to_book(e, order_id, p, e.symbols[p.symbol_id], now).0.failure matches Some(
            r,
        ) ==> may_fail(e.symbols[p.symbol_id], r),
{
    let params = model::params_of(order_id, p, now);
    let b = e.books[p.symbol_id];
    let spec = e.symbols[p.symbol_id];
    let trades = book_model::outcome_of(b, params).trades;
    let l = e.ledger.claim(book_model::can_rest(b, params));
    backing::lemma_apply_held(e, extra, order_id, p, now);
    assert(owned(l)) by {
        assert(backing::no_stray(e, extra));
    }
    if model::settle_failure(l, trades, spec) is Some && book_model::refusal(b, params) is None {
        lemma_trades_fail(l, trades, spec);
    }
}

proof fn lemma_checked_fails(
    e: EngineModel,
    seq_no: SeqNo,
    order_id: OrderId,
    p: PlaceOrder,
    now: Timestamp,
)
    requires
        e.sound(),
        e.failure is None,
        backing::backed(e),
        !backing::live(e, order_id),
        e.symbols.contains_key(p.symbol_id),
        model::place_checked(
            e,
            seq_no,
            order_id,
            p,
            e.symbols[p.symbol_id],
            now,
        ).0.exact(),
    ensures
        model::place_checked(
            e,
            seq_no,
            order_id,
            p,
            e.symbols[p.symbol_id],
            now,
        ).0.failure matches Some(r) ==> may_fail(e.symbols[p.symbol_id], r),
{
    let spec = e.symbols[p.symbol_id];
    let (l, r) = risk_model::pre_check_place(e.ledger, p, spec, order_id);
    let e1 = e.with_ledger(l);
    backing::lemma_checked_backed(e, order_id, p, false);
    if r is Ok {
        let extra = seq![PendingStop { order_id, place_order: p }];
        let placed = if model::is_stop(p.order_type) {
            PlaceOrder { order_type: OrderType::Limit, ..p }
        } else {
            p
        };
        if model::apply_to_book(e1, order_id, placed, spec, now).0.exact() {
            lemma_apply_fails(e1, extra, order_id, placed, now);
        }
    }
}

proof fn lemma_place_fails(e: EngineModel, seq_no: SeqNo, p: PlaceOrder, now: Timestamp)
    requires
        laws::matched(e),
        e.failure is None,
        model::handle_place(e, seq_no, p, now).0.exact(),
    ensures
        model::handle_place(e, seq_no, p, now).0.failure matches Some(r) ==> e.symbols.contains_key(
            p.symbol_id,
        ) && may_fail(e.symbols[p.symbol_id], r),
{
    let e1 = e.with_next_order_id();
    let order_id = OrderId(e.next_order_id as u64);
    lemmas::lemma_place_exact(e, seq_no, p, now);
    lemmas::lemma_next_unused(e);
    backing::lemma_untouched_backed(e, e1, Seq::empty());
    backing::lemma_unused_not_live(e1, order_id);
    if e.symbols.contains_key(p.symbol_id) {
        if let Some(p2) = model::lowered(p) {
            lemma_checked_fails(e1, seq_no, order_id, p2, now);
        }
    }
}

proof fn lemma_modify_fails(e: EngineModel, seq_no: SeqNo, m: ModifyOrder, now: Timestamp)
    requires
        laws::matched(e),
        e.failure is None,
        model::handle_modify(e, seq_no, m, now).0.exact(),
    ensures
        model::handle_modify(e, seq_no, m, now).0.failure matches Some(r)
            ==> e.symbols.contains_key(m.symbol_id) && may_fail(e.symbols[m.symbol_id], r),
{
    let b = e.books[m.symbol_id];
    let p = model::replacement(b.order(m.order_id), m);
    if e.books.contains_key(m.symbol_id) && b.has_order(m.order_id) && b.order(
        m.order_id,
    ).user_id == m.user_id && p.size.0 > 0 {
        lemmas::lemma_modify_exact(e, seq_no, m, now);
        assert(e.symbols.contains_key(m.symbol_id));
        let order_id = OrderId(e.next_order_id as u64);
        let e1 = e.with_next_order_id();
        let l1 = risk_model::release_hold(e1.ledger, m.order_id).0;
        let g = e1.with_book(m.symbol_id, b.without(m.order_id));
        let e2 = g.with_ledger(l1);
        let (l2, r) = risk_model::pre_check_place(l1, p, e.symbols[m.symbol_id], order_id);
        lemmas::lemma_next_unused(e);
        backing::lemma_untouched_backed(e, e1, Seq::empty());
        backing::lemma_cancel_backed(e1, m.symbol_id, m.order_id, false);
        lemmas::lemma_cancel_sound(e1, m.symbol_id, m.order_id);
        assert(g.sound() && e2.sound());
        assert(lemmas::unused(g, order_id) && lemmas::unused(e2, order_id));
        backing::lemma_unused_not_live(e2, order_id);
        backing::lemma_checked_backed(e2, order_id, p, false);
        if r is Ok {
            let extra = seq![PendingStop { order_id, place_order: p }];
            lemma_apply_fails(e2.with_ledger(l2), extra, order_id, p, now);
        }
    }
}

/// Fired stops settle, or fail for one of these reasons.
proof fn lemma_fired_fails(
    e: EngineModel,
    stops: Seq<PendingStop>,
    k: int,
    s: SymbolId,
    now: Timestamp,
)
    requires
        0 <= k <= stops.len(),
        e.sound(),
        e.failure is None,
        backing::backed_but(e, stops),
        lemmas::ready(e, stops, s),
        e.books.contains_key(s),
        model::place_fired(e, stops.subrange(0, k), e.symbols[s], now).0.exact(),
    ensures
        model::place_fired(e, stops.subrange(0, k), e.symbols[s], now).0.failure matches Some(r)
            ==> may_fail(e.symbols[s], r),
    decreases k,
{
    if k == 0 {
        assert(stops.subrange(0, 0) =~= Seq::<PendingStop>::empty());
    } else {
        let head = stops.subrange(0, k);
        let spec = e.symbols[s];
        let n = stops.len() as int;
        let stop = stops[k - 1];
        let p = PlaceOrder { order_type: OrderType::Limit, ..stop.place_order };
        let before = model::place_fired(e, stops.subrange(0, k - 1), spec, now).0;
        assert(head.drop_last() =~= stops.subrange(0, k - 1));
        assert(head.last() == stop);
        lemmas::lemma_apply_exact(before, stop.order_id, p, spec, now);
        lemma_fired_fails(e, stops, k - 1, s, now);
        if before.failure is None {
            backing::lemma_place_fired_backed(e, stops, k - 1, s, now, false);
            let left = stops.subrange(k - 1, n);
            assert(left[0] == stop);
            assert(lemmas::unused(before, left[0].order_id));
            lemma_apply_fails(before, left, stop.order_id, p, now);
        }
    }
}

proof fn lemma_mark_fails(e: EngineModel, seq_no: SeqNo, m: SetMarkPrice, now: Timestamp)
    requires
        laws::matched(e),
        e.failure is None,
        model::handle_set_mark_price(e, seq_no, m, now).0.exact(),
    ensures
        model::handle_set_mark_price(e, seq_no, m, now).0.failure matches Some(r)
            ==> e.symbols.contains_key(m.symbol_id) && may_fail(e.symbols[m.symbol_id], r),
{
    let s = m.symbol_id;
    if e.symbols.contains_key(s) {
        let stops = e.pending_stops[s];
        let going = model::fired(stops, m.mark_price);
        let g = e.with_stops(s, model::waiting(stops, m.mark_price));
        let e1 = EngineModel {
            mark_prices: e.mark_prices.insert(s, m.mark_price),
            ledger: risk_model::liquidate(e.ledger, e.symbols[s], m.mark_price),
            pending_stops: e.pending_stops.insert(s, model::waiting(stops, m.mark_price)),
            ..e
        };
        assert(e.books.contains_key(s));
        backing::lemma_fired_backed(e, s, m.mark_price);
        lemmas::lemma_waiting_sound(e, s, m.mark_price);
        assert(e1.ledger.accounts.dom() =~= e.ledger.accounts.dom());
        backing::lemma_untouched_backed(g, e1, going);
        lemmas::lemma_fired_sound(e, s, m.mark_price);
        assert(lemmas::ready(e1, going, s));
        assert(going.subrange(0, going.len() as int) =~= going);
        lemma_fired_fails(e1, going, going.len() as int, s, now);
    }
}

/// The symbol in which a command can trade.
pub open spec fn trades_in(cmd: Command) -> Option<SymbolId> {
    match cmd {
        Command::PlaceOrder(p) => Some(p.symbol_id),
        Command::ModifyOrder(m) => Some(m.symbol_id),
        Command::SetMarkPrice(m) => Some(m.symbol_id),
        _ => None,
    }
}

/// Whether a command left the trades of its symbol settled, or one failed for one of these
/// reasons.
spec fn fails_in(e: EngineModel, env: CommandEnvelope, f: EngineModel) -> bool {
    f.failure matches Some(r) ==> (trades_in(env.command) matches Some(s)
        && e.symbols.contains_key(s) && may_fail(e.symbols[s], r))
}

proof fn lemma_trading_fails(e: EngineModel, env: CommandEnvelope)
    requires
        laws::matched(e),
        e.failure is None,
        model::dispatch_trading(e, env).0.exact(),
    ensures
        fails_in(e, env, model::dispatch_trading(e, env).0),
{
    reveal(model::dispatch_trading);
    match env.command {
        Command::PlaceOrder(p) => {
            lemma_place_fails(e, env.seq_no, p, env.received_at);
        },
        Command::ModifyOrder(m) => {
            lemma_modify_fails(e, env.seq_no, m, env.received_at);
        },
        Command::SetMarkPrice(m) => {
            lemma_mark_fails(e, env.seq_no, m, env.received_at);
        },
        _ => {},
    }
}

/// Settlement fails only by overflow, or in a derivative by a shortfall: in every state
/// that an engine can be in, the trades of a placed order, of a replaced one and of fired
/// stops all settle, unless an amount of one does not fit or, where the symbol is a
/// derivative, the free balance of a side does not cover what its fill costs beyond its
/// reservation. No other command can fail to settle.
pub proof fn law_settlement_fails_only_by(e: EngineModel, env: CommandEnvelope)
    requires
        laws::reachable(e),
        e.failure is None,
        model::apply_envelope(e, env).0.exact(),
    ensures
        model::apply_envelope(e, env).0.failure matches Some(r) ==> (trades_in(
            env.command,
        ) matches Some(s) && e.symbols.contains_key(s) && may_fail(e.symbols[s], r)),
{
    let e1 = laws::noted(e, env);
    laws::lemma_noted_reachable(e, env);
    lemmas::lemma_envelope_exact(e, env);
    if model::dispatch_trading(e1, env).0.exact() {
        lemma_trading_fails(e1, env);
    }
}

/// On spot symbols settlement fails only by overflow.
pub proof fn law_spot_settlement_fails_only_by_overflow(e: EngineModel, env: CommandEnvelope)
    requires
        laws::reachable(e),
        e.failure is None,
        model::apply_envelope(e, env).0.exact(),
        trades_in(env.command) matches Some(s) ==> (e.symbols.contains_key(s)
            ==> e.symbols[s].kind_params is Spot),
    ensures
        model::apply_envelope(e, env).0.failure matches Some(r) ==> r
            == RejectReason::ArithmeticOverflow,
{
    law_settlement_fails_only_by(e, env);
}

} // verus!
