//! What the commands on derivatives do to the worth of the ledger: the money in it and
//! the open profits at a fixed mark.
use vstd::prelude::*;

use crate::engine::backing;
use crate::engine::laws;
use crate::engine::lemmas;
use crate::engine::model;
use crate::engine::model::{EngineModel, PendingStop};
use crate::matching::laws as book_laws;
use crate::matching::model as book_model;
use crate::matching::model::OutcomeModel;
use crate::matching::outcome::StpCancellation;
use crate::risk::engine as risk_engine;
use crate::risk::laws as risk_laws;
use crate::risk::model as risk_model;
use crate::risk::model::Ledger;
use crate::risk::value;
use crate::types::command::{
    Command, CommandEnvelope, ModifyOrder, PlaceOrder, SetMarkPrice, SettleFuture,
};
use crate::types::enums::OrderType;
use crate::types::event::Trade;
use crate::types::ids::{OrderId, SeqNo, SymbolId, Timestamp, UserId};
use crate::types::numeric::{Price, Size};
use crate::types::symbol::SymbolSpec;

verus! {

/// What rounding may shift in some trades, one after the other.
pub open spec fn trades_slack(l: Ledger, trades: Seq<Trade>, spec: SymbolSpec) -> int
    decreases trades.len(),
{
    if trades.len() == 0 {
        0
    } else {
        let rest = trades.drop_last();
        trades_slack(l, rest, spec) + value::trade_slack(
            model::settle_trades(l, rest, spec),
            trades.last(),
            spec,
        )
    }
}

/// Whether a shift is none, or less than a bound in either direction.
pub open spec fn within(shift: int, bound: int) -> bool {
    shift == 0 || -bound < shift < bound
}

/// Whether no trade has a negative price.
pub open spec fn prices_ok(trades: Seq<Trade>) -> bool {
    forall|i: int| 0 <= i < trades.len() ==> (#[trigger] trades[i]).price.0 >= 0
}

/// A derivative symbol with a scale.
pub open spec fn scaled_derivative(spec: SymbolSpec) -> bool {
    !(spec.kind_params is Spot) && spec.base_minor_per_major > 0
}

/// What some settled trades in a derivative shift.
proof fn lemma_trades_worth(l: Ledger, trades: Seq<Trade>, spec: SymbolSpec, mark: Price)
    requires
        value::tidy(l, spec),
        scaled_derivative(spec),
        backing::trades_held(l.holds, trades, spec),
        prices_ok(trades),
        model::settle_trades(l, trades, spec).exact,
        model::settle_failure(l, trades, spec) is None,
    ensures
        ({
            let t = model::settle_trades(l, trades, spec);
            let bound = trades_slack(l, trades, spec);
            &&& value::tidy(t, spec)
            &&& within(value::value(t, spec, mark) - value::value(l, spec, mark), bound)
            &&& bound >= 0
        }),
    decreases trades.len(),
{
    if trades.len() > 0 {
        let rest = trades.drop_last();
        let trade = trades.last();
        let before = model::settle_trades(l, rest, spec);
        let (after, r) = risk_model::apply_trade(before, trade, spec);
        let taker = trade.taker_order_id;
        let maker = trade.maker_order_id;
        backing::lemma_held_before(l.holds, trades, spec);
        risk_engine::lemma_trade_exact(before, trade, spec);
        assert(prices_ok(rest)) by {
            assert forall|i: int| 0 <= i < rest.len() implies (#[trigger] rest[i]).price.0 >= 0 by {
                assert(rest[i] == trades[i]);
            }
        }
        assert(trades[trades.len() - 1].price.0 >= 0);
        lemma_trades_worth(l, rest, spec, mark);
        backing::lemma_trades_settle(l, rest, spec, false);
        assert(book_laws::traded_by(trades, taker) <= l.holds[taker].remaining_size.0);
        assert(book_laws::traded_by(trades, maker) <= l.holds[maker].remaining_size.0);
        assert(risk_laws::filled(
            l.holds,
            before.holds,
            taker,
            book_laws::traded_by(rest, taker),
        ));
        assert(risk_laws::filled(
            l.holds,
            before.holds,
            maker,
            book_laws::traded_by(rest, maker),
        ));
        value::law_derivative_trade_conserves(before, trade, spec, mark);
        let t = model::settle_trades(l, trades, spec);
        assert(t.accounts == after.accounts);
    }
}

/// Giving a reservation back shifts nothing.
proof fn lemma_release_worth(
    l: Ledger,
    order_id: OrderId,
    size: Size,
    spec: SymbolSpec,
    mark: Price,
)
    requires
        value::tidy(l, spec),
    ensures
        ({
            let t = risk_model::release_hold(l, order_id).0;
            value::tidy(t, spec) && value::value(t, spec, mark) == value::value(l, spec, mark)
        }),
        ({
            let t = risk_model::partial_release_hold(l, order_id, size).0;
            value::tidy(t, spec) && value::value(t, spec, mark) == value::value(l, spec, mark)
        }),
{
    risk_laws::law_release_conserves(l, order_id, size, spec.quote_currency);
    let t = risk_model::release_hold(l, order_id).0;
    assert forall|u: UserId| #[trigger] l.has(u) implies t.accounts[u].positions
        == l.accounts[u].positions by {}
    value::lemma_aside(l, t, spec, mark);
    let t2 = risk_model::partial_release_hold(l, order_id, size).0;
    assert forall|u: UserId| #[trigger] l.has(u) implies t2.accounts[u].positions
        == l.accounts[u].positions by {}
    value::lemma_aside(l, t2, spec, mark);
}

proof fn lemma_cancels_worth(
    l: Ledger,
    cancels: Seq<StpCancellation>,
    spec: SymbolSpec,
    mark: Price,
)
    requires
        value::tidy(l, spec),
    ensures
        ({
            let t = model::release_cancelled(l, cancels);
            value::tidy(t, spec) && value::value(t, spec, mark) == value::value(l, spec, mark)
        }),
    decreases cancels.len(),
{
    if cancels.len() > 0 {
        let c = cancels.last();
        lemma_cancels_worth(l, cancels.drop_last(), spec, mark);
        lemma_release_worth(
            model::release_cancelled(l, cancels.drop_last()),
            c.order_id,
            c.size_cancelled,
            spec,
            mark,
        );
    }
}

/// Checking an order and reserving for it shifts nothing.
proof fn lemma_check_worth(
    l: Ledger,
    p: PlaceOrder,
    spec: SymbolSpec,
    order_id: OrderId,
    mark: Price,
)
    requires
        value::tidy(l, spec),
    ensures
        ({
            let t = risk_model::pre_check_place(l, p, spec, order_id).0;
            value::tidy(t, spec) && value::value(t, spec, mark) == value::value(l, spec, mark)
        }),
{
    risk_laws::law_pre_check_conserves(l, p, spec, order_id, spec.quote_currency);
    let t = risk_model::pre_check_place(l, p, spec, order_id).0;
    assert forall|u: UserId| #[trigger] l.has(u) implies t.accounts[u].positions
        == l.accounts[u].positions by {}
    value::lemma_aside(l, t, spec, mark);
}

/// Settling what came of an order shifts what its trades shift.
proof fn lemma_outcome_worth(
    l: Ledger,
    order_id: OrderId,
    p: PlaceOrder,
    o: OutcomeModel,
    spec: SymbolSpec,
    mark: Price,
)
    requires
        value::tidy(l, spec),
        scaled_derivative(spec),
        backing::trades_held(l.holds, o.trades, spec),
        prices_ok(o.trades),
        model::settle_outcome(l, order_id, p, o, spec).exact,
        model::settle_failure(l, o.trades, spec) is None,
    ensures
        ({
            let t = model::settle_outcome(l, order_id, p, o, spec);
            &&& value::tidy(t, spec)
            &&& within(
                value::value(t, spec, mark) - value::value(l, spec, mark),
                trades_slack(l, o.trades, spec),
            )
            &&& trades_slack(l, o.trades, spec) >= 0
        }),
{
    let traded = model::settle_trades(l, o.trades, spec);
    lemmas::lemma_release_exact(traded, o.stp_cancellations, 0);
    assert(o.stp_cancellations.subrange(0, 0) =~= Seq::<StpCancellation>::empty());
    lemma_trades_worth(l, o.trades, spec, mark);
    lemma_cancels_worth(traded, o.stp_cancellations, spec, mark);
    lemma_release_worth(
        model::release_cancelled(traded, o.stp_cancellations),
        order_id,
        Size(model::neutralized(p, o) as i64),
        spec,
        mark,
    );
}

/// Placing an order that is on its way shifts what its trades shift.
proof fn lemma_apply_worth(
    e: EngineModel,
    extra: Seq<PendingStop>,
    order_id: OrderId,
    p: PlaceOrder,
    now: Timestamp,
    mark: Price,
)
    requires
        e.sound(),
        backing::backed_but(e, extra),
        extra.len() > 0,
        extra[0].order_id == order_id,
        extra[0].place_order.user_id == p.user_id,
        extra[0].place_order.symbol_id == p.symbol_id,
        extra[0].place_order.side == p.side,
        extra[0].place_order.size == p.size,
        value::tidy(e.ledger, e.symbols[p.symbol_id]),
        scaled_derivative(e.symbols[p.symbol_id]),
        prices_ok(
            model::trades_of(
                model::apply_to_book(e, order_id, p, e.symbols[p.symbol_id], now).2,
            ),
        ),
        model::apply_to_book(e, order_id, p, e.symbols[p.symbol_id], now).0.settled(),
    ensures
        ({
            let spec = e.symbols[p.symbol_id];
            let (f, status, events) = model::apply_to_book(e, order_id, p, spec, now);
            &&& value::tidy(f.ledger, spec)
            &&& within(
                value::value(f.ledger, spec, mark) - value::value(e.ledger, spec, mark),
                trades_slack(e.ledger, model::trades_of(events), spec),
            )
            &&& trades_slack(e.ledger, model::trades_of(events), spec) >= 0
        }),
{
    let spec = e.symbols[p.symbol_id];
    let params = model::params_of(order_id, p, now);
    let b = e.books[p.symbol_id];
    let o = book_model::outcome_of(b, params);
    let e1 = e.with_book(p.symbol_id, book_model::book_after_place(b, params)).claim(
        book_model::can_rest(b, params),
    );
    backing::lemma_apply_held(e, extra, order_id, p, now);
    lemmas::lemma_apply_trades(e, order_id, p, spec, now);
    lemmas::lemma_apply_exact(e, order_id, p, spec, now);
    assert(e1.ledger =~= e.ledger);
    if o.reject.is_none() {
        lemma_outcome_worth(e.ledger, order_id, p, o, spec, mark);
    } else {
        lemma_release_worth(e.ledger, order_id, p.size, spec, mark);
    }
}

/// The ledger in which the trades of an order settle: that of the engine, with the
/// reservation for the order, and without that of the order that it replaces.
pub open spec fn reserved(e: EngineModel, cmd: Command) -> Ledger {
    let order_id = OrderId(e.next_order_id as u64);
    match cmd {
        Command::PlaceOrder(p) => risk_model::pre_check_place(
            e.ledger,
            model::lowered(p)->0,
            e.symbols[p.symbol_id],
            order_id,
        ).0,
        Command::ModifyOrder(m) => risk_model::pre_check_place(
            risk_model::release_hold(e.ledger, m.order_id).0,
            model::replacement(e.books[m.symbol_id].order(m.order_id), m),
            e.symbols[m.symbol_id],
            order_id,
        ).0,
        _ => e.ledger,
    }
}

proof fn lemma_place_worth(
    e: EngineModel,
    seq_no: SeqNo,
    p: PlaceOrder,
    now: Timestamp,
    mark: Price,
)
    requires
        laws::reachable(e),
        e.symbols.contains_key(p.symbol_id),
        scaled_derivative(e.symbols[p.symbol_id]),
        prices_ok(model::trades_of(model::handle_place(e, seq_no, p, now).1.events)),
        model::handle_place(e, seq_no, p, now).0.settled(),
    ensures
        ({
            let spec = e.symbols[p.symbol_id];
            let (f, r) = model::handle_place(e, seq_no, p, now);
            within(
                value::value(f.ledger, spec, mark) - value::value(e.ledger, spec, mark),
                trades_slack(
                    reserved(e, Command::PlaceOrder(p)),
                    model::trades_of(r.events),
                    spec,
                ),
            )
        }),
{
    let spec = e.symbols[p.symbol_id];
    let order_id = OrderId(e.next_order_id as u64);
    let e1 = e.with_next_order_id();
    lemmas::lemma_place_exact(e, seq_no, p, now);
    assert(e1.ledger =~= e.ledger);
    laws::law_ledger_is_tidy(e, p.symbol_id);
    if let Some(p2) = model::lowered(p) {
        assert(p2.symbol_id == p.symbol_id);
        lemmas::lemma_next_unused(e);
        backing::lemma_untouched_backed(e, e1, Seq::empty());
        backing::lemma_unused_not_live(e1, order_id);
        backing::lemma_checked_backed(e1, order_id, p2, false);
        let (l, r) = risk_model::pre_check_place(e1.ledger, p2, spec, order_id);
        let e2 = e1.with_ledger(l);
        lemma_check_worth(e1.ledger, p2, spec, order_id, mark);
        if r is Ok {
            let extra = seq![PendingStop { order_id, place_order: p2 }];
            let fires = e.mark_prices.contains_key(p.symbol_id) && model::stop_trigger_met(
                p2.side,
                e.mark_prices[p.symbol_id],
                p2.stop_price->0,
            );
            if model::is_stop(p2.order_type) && p2.stop_price.is_none() {
                lemma_release_worth(l, order_id, p2.size, spec, mark);
            } else if model::is_stop(p2.order_type) && !fires {
            } else {
                let p3 = if model::is_stop(p2.order_type) {
                    PlaceOrder { order_type: OrderType::Limit, ..p2 }
                } else {
                    p2
                };
                assert(e2.sound());
                lemma_apply_worth(e2, extra, order_id, p3, now, mark);
            }
        }
    }
}

proof fn lemma_modify_worth(
    e: EngineModel,
    seq_no: SeqNo,
    m: ModifyOrder,
    now: Timestamp,
    mark: Price,
)
    requires
        laws::reachable(e),
        e.symbols.contains_key(m.symbol_id),
        scaled_derivative(e.symbols[m.symbol_id]),
        prices_ok(model::trades_of(model::handle_modify(e, seq_no, m, now).1.events)),
        model::handle_modify(e, seq_no, m, now).0.settled(),
    ensures
        ({
            let spec = e.symbols[m.symbol_id];
            let (f, r) = model::handle_modify(e, seq_no, m, now);
            within(
                value::value(f.ledger, spec, mark) - value::value(e.ledger, spec, mark),
                trades_slack(
                    reserved(e, Command::ModifyOrder(m)),
                    model::trades_of(r.events),
                    spec,
                ),
            )
        }),
{
    let spec = e.symbols[m.symbol_id];
    let b = e.books[m.symbol_id];
    let p = model::replacement(b.order(m.order_id), m);
    assert(e.books.dom().contains(m.symbol_id));
    laws::law_ledger_is_tidy(e, m.symbol_id);
    if b.has_order(m.order_id) && b.order(m.order_id).user_id == m.user_id && p.size.0 > 0 {
        lemmas::lemma_modify_exact(e, seq_no, m, now);
        let order_id = OrderId(e.next_order_id as u64);
        let e1 = e.with_next_order_id();
        assert(e1.ledger =~= e.ledger);
        let l1 = risk_model::release_hold(e1.ledger, m.order_id).0;
        let e2 = e1.with_book(m.symbol_id, b.without(m.order_id)).with_ledger(l1);
        let (l2, r) = risk_model::pre_check_place(l1, p, spec, order_id);
        let e3 = e2.with_ledger(l2);
        lemmas::lemma_next_unused(e);
        backing::lemma_untouched_backed(e, e1, Seq::empty());
        backing::lemma_cancel_backed(e1, m.symbol_id, m.order_id, false);
        lemmas::lemma_cancel_sound(e1, m.symbol_id, m.order_id);
        let g = e1.with_book(m.symbol_id, b.without(m.order_id));
        assert(g.sound() && lemmas::unused(g, order_id));
        assert(e2.sound() && lemmas::unused(e2, order_id));
        backing::lemma_unused_not_live(e2, order_id);
        backing::lemma_checked_backed(e2, order_id, p, false);
        lemma_release_worth(e1.ledger, m.order_id, Size(0), spec, mark);
        lemma_check_worth(l1, p, spec, order_id, mark);
        if r is Ok {
            let extra = seq![PendingStop { order_id, place_order: p }];
            let gone = model::cancelled_event(
                m.order_id,
                m.user_id,
                m.symbol_id,
                b.order(m.order_id).size_remaining.0 as int,
                now,
            );
            let events = model::apply_to_book(e3, order_id, p, spec, now).2;
            lemmas::lemma_no_trade(gone);
            lemmas::lemma_trades_joined(seq![gone], events);
            assert(model::trades_of(seq![gone] + events) =~= model::trades_of(events));
            assert(e3.sound());
            lemma_apply_worth(e3, extra, order_id, p, now, mark);
        }
    }
}

/// The symbol of a command that places, replaces or cancels an order.
pub open spec fn order_symbol(cmd: Command) -> Option<SymbolId> {
    match cmd {
        Command::PlaceOrder(p) => Some(p.symbol_id),
        Command::ModifyOrder(m) => Some(m.symbol_id),
        Command::CancelOrder(c) => Some(c.symbol_id),
        _ => None,
    }
}

/// Placing, replacing or cancelling an order in a derivative neither makes nor loses
/// money: at any fixed mark, all money and all open profits together stay the same, up to
/// the rounding of the trades that the order makes. Where it makes none, nothing shifts.
pub proof fn law_orders_keep_worth(e: EngineModel, env: CommandEnvelope, s: SymbolId, mark: Price)
    requires
        laws::reachable(e),
        order_symbol(env.command) == Some(s),
        e.symbols.contains_key(s),
        scaled_derivative(e.symbols[s]),
        prices_ok(model::trades_of(model::apply_envelope(e, env).1.events)),
        model::apply_envelope(e, env).0.settled(),
    ensures
        ({
            let (f, r) = model::apply_envelope(e, env);
            let spec = e.symbols[s];
            within(
                value::value(f.ledger, spec, mark) - value::value(e.ledger, spec, mark),
                trades_slack(reserved(e, env.command), model::trades_of(r.events), spec),
            )
        }),
{
    reveal(model::dispatch_trading);
    lemmas::lemma_envelope_exact(e, env);
    let e1 = laws::noted(e, env);
    assert(e1.ledger =~= e.ledger);
    laws::lemma_noted_reachable(e, env);
    let now = env.received_at;
    match env.command {
        Command::PlaceOrder(p) => {
            lemma_place_worth(e1, env.seq_no, p, now, mark);
        },
        Command::ModifyOrder(m) => {
            lemma_modify_worth(e1, env.seq_no, m, now, mark);
        },
        Command::CancelOrder(c) => {
            laws::law_ledger_is_tidy(e, s);
            lemma_release_worth(e.ledger, c.order_id, Size(0), e.symbols[s], mark);
        },
        _ => {},
    }
}

/// What rounding may shift in the trades of some stops that fire one after the other.
pub open spec fn fired_slack(
    e: EngineModel,
    stops: Seq<PendingStop>,
    spec: SymbolSpec,
    now: Timestamp,
) -> int
    decreases stops.len(),
{
    if stops.len() == 0 {
        0
    } else {
        let before = model::place_fired(e, stops.drop_last(), spec, now).0;
        let stop = stops.last();
        let events = model::apply_to_book(
            before,
            stop.order_id,
            PlaceOrder { order_type: OrderType::Limit, ..stop.place_order },
            spec,
            now,
        ).2;
        fired_slack(e, stops.drop_last(), spec, now) + trades_slack(
            before.ledger,
            model::trades_of(events),
            spec,
        )
    }
}

/// The first of two lists of trades, and the second.
proof fn lemma_prices_joined(a: Seq<Trade>, b: Seq<Trade>)
    requires
        prices_ok(a + b),
    ensures
        prices_ok(a),
        prices_ok(b),
{
    let all = a + b;
    assert forall|i: int| 0 <= i < a.len() implies (#[trigger] a[i]).price.0 >= 0 by {
        assert(all[i] == a[i]);
    }
    assert forall|i: int| 0 <= i < b.len() implies (#[trigger] b[i]).price.0 >= 0 by {
        assert(all[a.len() + i] == b[i]);
    }
}

/// Stops that fire one after the other shift what their trades shift.
proof fn lemma_fired_worth(
    e: EngineModel,
    stops: Seq<PendingStop>,
    k: int,
    s: SymbolId,
    now: Timestamp,
    mark: Price,
)
    requires
        0 <= k <= stops.len(),
        e.sound(),
        backing::backed_but(e, stops),
        lemmas::ready(e, stops, s),
        e.books.contains_key(s),
        value::tidy(e.ledger, e.symbols[s]),
        scaled_derivative(e.symbols[s]),
        prices_ok(
            model::trades_of(model::place_fired(e, stops.subrange(0, k), e.symbols[s], now).1),
        ),
        model::place_fired(e, stops.subrange(0, k), e.symbols[s], now).0.settled(),
    ensures
        ({
            let spec = e.symbols[s];
            let f = model::place_fired(e, stops.subrange(0, k), spec, now).0;
            let bound = fired_slack(e, stops.subrange(0, k), spec, now);
            &&& value::tidy(f.ledger, spec)
            &&& within(
                value::value(f.ledger, spec, mark) - value::value(e.ledger, spec, mark),
                bound,
            )
            &&& bound >= 0
        }),
    decreases k,
{
    let n = stops.len() as int;
    if k == 0 {
        assert(stops.subrange(0, 0) =~= Seq::<PendingStop>::empty());
    } else {
        let spec = e.symbols[s];
        let head = stops.subrange(0, k);
        assert(head.drop_last() =~= stops.subrange(0, k - 1));
        let stop = stops[k - 1];
        assert(head.last() == stop);
        let (before, events) = model::place_fired(e, stops.subrange(0, k - 1), spec, now);
        let p = PlaceOrder { order_type: OrderType::Limit, ..stop.place_order };
        let more = model::apply_to_book(before, stop.order_id, p, spec, now).2;
        lemmas::lemma_apply_exact(before, stop.order_id, p, spec, now);
        lemmas::lemma_trades_joined(events, more);
        lemma_prices_joined(model::trades_of(events), model::trades_of(more));
        lemma_fired_worth(e, stops, k - 1, s, now, mark);
        backing::lemma_place_fired_backed(e, stops, k - 1, s, now, false);
        let left = stops.subrange(k - 1, n);
        assert(left[0] == stop);
        lemma_apply_worth(before, left, stop.order_id, p, now, mark);
    }
}

/// The engine after a new mark, before the stops that it fires are placed.
pub open spec fn marked(e: EngineModel, m: SetMarkPrice) -> EngineModel {
    EngineModel {
        mark_prices: e.mark_prices.insert(m.symbol_id, m.mark_price),
        ledger: risk_model::liquidate(e.ledger, e.symbols[m.symbol_id], m.mark_price),
        pending_stops: e.pending_stops.insert(
            m.symbol_id,
            model::waiting(e.pending_stops[m.symbol_id], m.mark_price),
        ),
        ..e
    }
}

/// Whether every position in a symbol has a size whose magnitude the machine can form.
pub open spec fn sizes_ok(l: Ledger, s: SymbolId) -> bool {
    forall|u: UserId| #[trigger] l.has(u) ==> l.accounts[u].position_in(s).size.0 != i64::MIN
}

/// A new mark, with the positions that it closes and the stops that it fires, neither
/// makes nor loses money: at that mark, all money and all open profits together stay the
/// same, up to one rounding for each account and the rounding of the trades of the stops.
pub proof fn law_marks_keep_worth(e: EngineModel, env: CommandEnvelope, m: SetMarkPrice)
    requires
        laws::reachable(e),
        env.command == Command::SetMarkPrice(m),
        e.symbols.contains_key(m.symbol_id),
        scaled_derivative(e.symbols[m.symbol_id]),
        sizes_ok(e.ledger, m.symbol_id),
        prices_ok(model::trades_of(model::apply_envelope(e, env).1.events)),
        model::apply_envelope(e, env).0.settled(),
    ensures
        ({
            let f = model::apply_envelope(e, env).0;
            let spec = e.symbols[m.symbol_id];
            let bound = spec.base_minor_per_major * e.ledger.accounts.dom().len() + fired_slack(
                marked(e, m),
                model::fired(e.pending_stops[m.symbol_id], m.mark_price),
                spec,
                env.received_at,
            );
            -bound <= value::value(f.ledger, spec, m.mark_price) - value::value(
                e.ledger,
                spec,
                m.mark_price,
            ) <= bound
        }),
{
    reveal(model::dispatch_trading);
    lemmas::lemma_envelope_exact(e, env);
    let e0 = laws::noted(e, env);
    assert(e0.ledger =~= e.ledger);
    laws::lemma_noted_reachable(e, env);
    lemma_mark_worth(e0, env.seq_no, m, env.received_at);
    lemma_fired_apart(e0, e, m, env.received_at);
}

/// What a mark shifts.
proof fn lemma_mark_worth(e: EngineModel, seq_no: SeqNo, m: SetMarkPrice, now: Timestamp)
    requires
        laws::reachable(e),
        e.symbols.contains_key(m.symbol_id),
        scaled_derivative(e.symbols[m.symbol_id]),
        sizes_ok(e.ledger, m.symbol_id),
        prices_ok(model::trades_of(model::handle_set_mark_price(e, seq_no, m, now).1.events)),
        model::handle_set_mark_price(e, seq_no, m, now).0.settled(),
    ensures
        ({
            let f = model::handle_set_mark_price(e, seq_no, m, now).0;
            let spec = e.symbols[m.symbol_id];
            let bound = spec.base_minor_per_major * e.ledger.accounts.dom().len() + fired_slack(
                marked(e, m),
                model::fired(e.pending_stops[m.symbol_id], m.mark_price),
                spec,
                now,
            );
            -bound <= value::value(f.ledger, spec, m.mark_price) - value::value(
                e.ledger,
                spec,
                m.mark_price,
            ) <= bound
        }),
{
    let s = m.symbol_id;
    let spec = e.symbols[s];
    let mark = m.mark_price;
    let stops = e.pending_stops[s];
    let going = model::fired(stops, mark);
    let n = going.len() as int;
    let g = e.with_stops(s, model::waiting(stops, mark));
    let e1 = marked(e, m);
    assert(e.books.dom().contains(s));
    assert(e.books.contains_key(s));
    laws::law_ledger_is_tidy(e, s);
    backing::lemma_fired_backed(e, s, mark);
    lemmas::lemma_waiting_sound(e, s, mark);
    assert(e1.ledger.accounts.dom() =~= e.ledger.accounts.dom());
    backing::lemma_untouched_backed(g, e1, going);
    lemmas::lemma_fired_sound(e, s, mark);
    assert(lemmas::ready(e1, going, s));
    assert(going.subrange(0, n) =~= going);
    lemmas::lemma_fired_exact(e1, going, spec, now, 0);
    assert(going.subrange(0, 0) =~= Seq::<PendingStop>::empty());
    assert(e1.sound()) by {
        assert(g.sound());
    }
    value::law_closing_conserves(e.ledger, spec, mark, risk_model::maintenance_margin(spec));
    value::lemma_closing_tidy(e.ledger, spec, mark, risk_model::maintenance_margin(spec));
    lemma_fired_worth(e1, going, n, s, now, mark);
}

/// What the stops of a mark shift does not depend on the next sequence number.
proof fn lemma_fired_apart(e0: EngineModel, e: EngineModel, m: SetMarkPrice, now: Timestamp)
    requires
        e0 == laws::renumbered(e, e0.next_seq_no),
    ensures
        ({
            let spec = e.symbols[m.symbol_id];
            let stops = model::fired(e.pending_stops[m.symbol_id], m.mark_price);
            fired_slack(marked(e0, m), stops, spec, now) == fired_slack(
                marked(e, m),
                stops,
                spec,
                now,
            )
        }),
{
    let spec = e.symbols[m.symbol_id];
    let stops = model::fired(e.pending_stops[m.symbol_id], m.mark_price);
    assert(marked(e0, m) == laws::renumbered(marked(e, m), e0.next_seq_no));
    lemma_slack_apart(marked(e, m), stops, spec, now, e0.next_seq_no);
}

proof fn lemma_slack_apart(
    e: EngineModel,
    stops: Seq<PendingStop>,
    spec: SymbolSpec,
    now: Timestamp,
    n: int,
)
    ensures
        fired_slack(laws::renumbered(e, n), stops, spec, now) == fired_slack(e, stops, spec, now),
    decreases stops.len(),
{
    if stops.len() > 0 {
        lemma_slack_apart(e, stops.drop_last(), spec, now, n);
        laws::lemma_fired_apart(e, stops.drop_last(), spec, now, n);
        let stop = stops.last();
        laws::lemma_apply_apart(
            model::place_fired(e, stops.drop_last(), spec, now).0,
            stop.order_id,
            PlaceOrder { order_type: OrderType::Limit, ..stop.place_order },
            spec,
            now,
            n,
        );
    }
}

/// Settling a future neither makes nor loses money: at the settlement price, all money and
/// all open profits together stay the same, up to one rounding for each account.
pub proof fn law_settlement_keeps_worth(e: EngineModel, env: CommandEnvelope, x: SettleFuture)
    requires
        laws::reachable(e),
        env.command == Command::SettleFuture(x),
        e.symbols.contains_key(x.symbol_id),
        scaled_derivative(e.symbols[x.symbol_id]),
        sizes_ok(e.ledger, x.symbol_id),
        model::apply_envelope(e, env).0.settled(),
    ensures
        ({
            let f = model::apply_envelope(e, env).0;
            let spec = e.symbols[x.symbol_id];
            let bound = spec.base_minor_per_major * e.ledger.accounts.dom().len();
            -bound <= value::value(f.ledger, spec, x.settlement_price) - value::value(
                e.ledger,
                spec,
                x.settlement_price,
            ) <= bound
        }),
{
    reveal(model::dispatch_trading);
    lemmas::lemma_envelope_exact(e, env);
    let e0 = laws::noted(e, env);
    assert(e0.ledger =~= e.ledger);
    let spec = e.symbols[x.symbol_id];
    laws::law_ledger_is_tidy(e, x.symbol_id);
    assert(e.books.dom().contains(x.symbol_id));
    if spec.kind_params is Future {
        value::law_closing_conserves(e.ledger, spec, x.settlement_price, None);
    } else {
        assert(spec.base_minor_per_major * e.ledger.accounts.dom().len() >= 0) by (nonlinear_arith)
            requires
                spec.base_minor_per_major > 0,
        ;
    }
}

} // verus!
