//! What stops and marks are for: a stop waits until a mark reaches it, and a mark closes
//! the positions that it leaves uncovered.
use vstd::prelude::*;

use crate::engine::laws;
use crate::engine::model;
use crate::engine::model::{EngineModel, PendingStop};
use crate::risk::margins;
use crate::risk::model as risk_model;
use crate::types::command::{Command, CommandEnvelope, PlaceOrder, SetMarkPrice};
use crate::types::enums::{OrderType, Side};
use crate::types::event::Event;
use crate::types::ids::{Timestamp, UserId};
use crate::types::numeric::Price;
use crate::types::receipt::CommandStatus;
use crate::types::symbol::SymbolSpec;

verus! {

/// The price at which a stop fires.
pub open spec fn trigger(stop: PendingStop) -> int {
    match stop.place_order.stop_price {
        Some(p) => p.0 as int,
        None => 0,
    }
}

/// Whether a mark has not reached a stop: it is above a sell stop, or below a buy stop.
pub open spec fn short_of(mark: Price, stop: PendingStop) -> bool {
    match stop.place_order.side {
        Side::Ask => mark.0 > trigger(stop),
        Side::Bid => mark.0 < trigger(stop),
    }
}

/// Whether the events tell what became of a stop that left the waiting line: the book took
/// it or refused it.
pub open spec fn told_of(events: Seq<Event>, stop: PendingStop) -> bool {
    exists|k: int| 0 <= k < events.len() && is_about(#[trigger] events[k], stop)
}

/// Whether an event says that the book took a stop or refused it.
pub open spec fn is_about(event: Event, stop: PendingStop) -> bool {
    match event {
        Event::OrderAccepted(a) => a.order_id == stop.order_id && a.user_id
            == stop.place_order.user_id,
        Event::OrderRejected(r) => r.client_order_id == stop.place_order.client_order_id
            && r.user_id == stop.place_order.user_id,
        _ => false,
    }
}

proof fn lemma_waiting_is(stops: Seq<PendingStop>, mark: Price)
    requires
        forall|i: int|
            0 <= i < stops.len() ==> (#[trigger] stops[i]).place_order.stop_price is Some,
    ensures
        model::waiting(stops, mark) == stops.filter(|x: PendingStop| short_of(mark, x)),
        model::fired(stops, mark) == stops.filter(|x: PendingStop| !short_of(mark, x)),
    decreases stops.len(),
{
    reveal(Seq::filter);
    if stops.len() > 0 {
        let rest = stops.drop_last();
        assert forall|i: int| 0 <= i < rest.len() implies (
        #[trigger] rest[i]).place_order.stop_price is Some by {
            assert(rest[i] == stops[i]);
        }
        assert(stops.last() == stops[stops.len() - 1]);
        lemma_waiting_is(rest, mark);
    }
}

proof fn lemma_fired_keeps(
    e: EngineModel,
    stops: Seq<PendingStop>,
    spec: SymbolSpec,
    now: Timestamp,
)
    ensures
        ({
            let f = model::place_fired(e, stops, spec, now).0;
            &&& f.pending_stops == e.pending_stops
            &&& f.mark_prices == e.mark_prices
            &&& f.symbols == e.symbols
        }),
        forall|i: int|
            0 <= i < stops.len() ==> told_of(
                model::place_fired(e, stops, spec, now).1,
                #[trigger] stops[i],
            ),
    decreases stops.len(),
{
    if stops.len() > 0 {
        let rest = stops.drop_last();
        let stop = stops.last();
        lemma_fired_keeps(e, rest, spec, now);
        let (before, events) = model::place_fired(e, rest, spec, now);
        let p = PlaceOrder { order_type: OrderType::Limit, ..stop.place_order };
        let (after, status, more) = model::apply_to_book(before, stop.order_id, p, spec, now);
        assert(more.len() > 0 && is_about(more[0], stop));
        let all = events + more;
        assert(all[events.len() as int] == more[0]);
        assert forall|i: int| 0 <= i < stops.len() implies told_of(all, #[trigger] stops[i]) by {
            if i < rest.len() {
                assert(rest[i] == stops[i]);
                assert(told_of(events, rest[i]));
                let k = choose|k: int|
                    0 <= k < events.len() && is_about(#[trigger] events[k], rest[i]);
                assert(all[k] == events[k]);
            }
        }
    }
}

/// A mark leaves exactly the stops of its symbol waiting that it has not reached, in the
/// order in which they were placed: the sell stops below it and the buy stops above it. Every
/// other stop of the symbol goes to the book, and the events say so. The stops of other
/// symbols wait on.
pub proof fn law_marks_fire_the_stops_they_reach(
    e: EngineModel,
    env: CommandEnvelope,
    m: SetMarkPrice,
)
    requires
        env.command == Command::SetMarkPrice(m),
        e.symbols.contains_key(m.symbol_id),
        e.sound(),
    ensures
        ({
            let (f, r) = model::apply_envelope(e, env);
            let stops = e.pending_stops[m.symbol_id];
            &&& f.pending_stops == e.pending_stops.insert(
                m.symbol_id,
                stops.filter(|x: PendingStop| short_of(m.mark_price, x)),
            )
            &&& forall|i: int|
                0 <= i < stops.len() ==> f.pending_stops[m.symbol_id].contains(
                    #[trigger] stops[i],
                ) == short_of(m.mark_price, stops[i])
            &&& forall|i: int|
                0 <= i < stops.len() && !short_of(m.mark_price, #[trigger] stops[i]) ==> told_of(
                    r.events,
                    stops[i],
                )
            &&& f.mark_prices == e.mark_prices.insert(m.symbol_id, m.mark_price)
            &&& r.status == CommandStatus::Accepted
        }),
{
    reveal(model::dispatch_trading);
    let s = m.symbol_id;
    let e0 = laws::noted(e, env);
    let stops = e.pending_stops[s];
    let spec = e.symbols[s];
    assert forall|i: int| 0 <= i < stops.len() implies (
    #[trigger] stops[i]).place_order.stop_price is Some by {
        assert(model::stop_ok(e.pending_stops[s][i], s));
    }
    lemma_waiting_is(stops, m.mark_price);
    let going = model::fired(stops, m.mark_price);
    let stay = |x: PendingStop| short_of(m.mark_price, x);
    let go = |x: PendingStop| !short_of(m.mark_price, x);
    broadcast use vstd::seq_lib::group_filter_ensures;

    assert forall|i: int| 0 <= i < stops.len() implies stops.filter(stay).contains(
        #[trigger] stops[i],
    ) == short_of(m.mark_price, stops[i]) by {
    }
    let e1 = EngineModel {
        mark_prices: e0.mark_prices.insert(s, m.mark_price),
        ledger: risk_model::liquidate(e0.ledger, spec, m.mark_price),
        pending_stops: e0.pending_stops.insert(s, model::waiting(stops, m.mark_price)),
        ..e0
    };
    lemma_fired_keeps(e1, going, spec, env.received_at);
    let r = model::apply_envelope(e, env).1;
    assert forall|i: int| 0 <= i < stops.len() && !short_of(
        m.mark_price,
        #[trigger] stops[i],
    ) implies told_of(r.events, stops[i]) by {
        assert(stops.filter(go).contains(stops[i]));
        assert(going.contains(stops[i]));
        let k = choose|k: int| 0 <= k < going.len() && going[k] == stops[i];
        assert(told_of(r.events, going[k]));
    }
}

/// A mark that reaches no stop closes every position of its symbol whose margin and profit
/// fall below the maintenance margin, gives its user what it was worth, and leaves all other
/// positions as they are.
pub proof fn law_marks_close_uncovered_positions(
    e: EngineModel,
    env: CommandEnvelope,
    m: SetMarkPrice,
    u: UserId,
)
    requires
        env.command == Command::SetMarkPrice(m),
        e.symbols.contains_key(m.symbol_id),
        e.symbols[m.symbol_id].symbol_id == m.symbol_id,
        e.sound(),
        forall|i: int|
            0 <= i < e.pending_stops[m.symbol_id].len() ==> short_of(
                m.mark_price,
                #[trigger] e.pending_stops[m.symbol_id][i],
            ),
        e.ledger.has(u),
        u != UserId(0),
        e.symbols[m.symbol_id].base_minor_per_major > 0,
        !(e.symbols[m.symbol_id].kind_params is Spot),
        e.ledger.accounts[u].positions.contains_key(m.symbol_id),
        e.ledger.accounts[u].positions[m.symbol_id].size.0 != i64::MIN,
    ensures
        ({
            let spec = e.symbols[m.symbol_id];
            let a = e.ledger.accounts[u];
            let b = model::apply_envelope(e, env).0.ledger.accounts[u];
            let p = a.positions[m.symbol_id];
            let q = b.positions[m.symbol_id];
            let below = margins::equity(p, m.mark_price, spec) < margins::maintenance(
                p,
                m.mark_price,
                spec,
            );
            &&& p.size.0 != 0 && below ==> q.size.0 == 0 && q.margin_locked.0 == 0
                && b.free[spec.quote_currency] == a.free[spec.quote_currency] + margins::equity(
                p,
                m.mark_price,
                spec,
            )
            &&& p.size.0 == 0 || !below ==> b == a
            &&& q.size.0 != 0 ==> margins::equity(q, m.mark_price, spec) >= margins::maintenance(
                q,
                m.mark_price,
                spec,
            )
        }),
{
    reveal(model::dispatch_trading);
    let s = m.symbol_id;
    let e0 = laws::noted(e, env);
    let stops = e.pending_stops[s];
    let spec = e.symbols[s];
    lemma_none_fired(stops, m.mark_price);
    margins::law_uncovered_positions_are_closed(e0.ledger, spec, m.mark_price, u);
}

proof fn lemma_none_fired(stops: Seq<PendingStop>, mark: Price)
    requires
        forall|i: int| 0 <= i < stops.len() ==> short_of(mark, #[trigger] stops[i]),
        forall|i: int|
            0 <= i < stops.len() ==> (#[trigger] stops[i]).place_order.stop_price is Some,
    ensures
        model::fired(stops, mark).len() == 0,
    decreases stops.len(),
{
    if stops.len() > 0 {
        let rest = stops.drop_last();
        assert forall|i: int| 0 <= i < rest.len() implies short_of(mark, #[trigger] rest[i])
            && rest[i].place_order.stop_price is Some by {
            assert(rest[i] == stops[i]);
        }
        assert(short_of(mark, stops[stops.len() - 1]));
        lemma_none_fired(rest, mark);
    }
}

/// A stop order that is not refused waits, behind the other stops of its symbol, as long as
/// no mark has reached it: no mark was set, or a sell stop lies below it, or a buy stop above
/// it. Nothing trades. Where the mark has reached it already, it does not wait.
pub proof fn law_stops_wait_for_their_mark(e: EngineModel, env: CommandEnvelope, p: PlaceOrder)
    requires
        env.command == Command::PlaceOrder(p),
        p.order_type == OrderType::StopLimit || p.order_type == OrderType::StopMarket,
        p.stop_price is Some,
        e.symbols.contains_key(p.symbol_id),
        0 <= e.next_order_id <= u64::MAX,
        !(model::apply_envelope(e, env).1.status is Rejected),
    ensures
        ({
            let (f, r) = model::apply_envelope(e, env);
            let s = p.symbol_id;
            let w = f.pending_stops[s].last();
            let ahead = PendingStop { order_id: w.order_id, place_order: p };
            &&& !e.mark_prices.contains_key(s) || short_of(e.mark_prices[s], ahead) ==> {
                &&& f.pending_stops == e.pending_stops.insert(s, e.pending_stops[s].push(w))
                &&& w.order_id.0 == e.next_order_id
                &&& w.place_order.user_id == p.user_id
                &&& w.place_order.side == p.side
                &&& w.place_order.size == p.size
                &&& w.place_order.stop_price == p.stop_price
                &&& p.order_type == OrderType::StopLimit ==> w.place_order == p
                &&& f.books == e.books
                &&& r.status == CommandStatus::Accepted
            }
            &&& e.mark_prices.contains_key(s) && !short_of(e.mark_prices[s], ahead) ==> {
                &&& f.pending_stops == e.pending_stops
            }
        }),
{
    reveal(model::dispatch_trading);
}

} // verus!
