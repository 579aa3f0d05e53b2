//! Facts about the engine's model.
use vstd::prelude::*;

use crate::engine::model;
use crate::engine::model::{EngineModel, PendingStop};
use crate::matching::laws as book_laws;
use crate::matching::model as book_model;
use crate::matching::model::BookModel;
use crate::matching::outcome::{PlaceParams, StpCancellation};
use crate::risk::engine as risk_engine;
use crate::risk::model as risk_model;
use crate::risk::model::{AccountModel, Ledger, Mark};
use crate::store::sums;
use crate::types::command::{CommandEnvelope, ModifyOrder, PlaceOrder};
use crate::types::enums::Side;
use crate::types::event::{Event, Trade};
use crate::types::ids::{CurrencyId, OrderId, SeqNo, SymbolId, Timestamp};
use crate::types::numeric::Price;
use crate::types::symbol::SymbolSpec;

verus! {

/// Placing an order brings no other order into a book.
pub proof fn lemma_placed_queued(b: BookModel, p: PlaceParams, side: Side, id: OrderId)
    requires
        book_laws::queued(book_model::book_after_place(b, p).queue(side), id),
    ensures
        id == p.order_id || book_laws::queued(b.queue(side), id),
{
    if book_model::refusal(b, p).is_none() {
        let m = book_model::matching_of(b, p);
        let b2 = b.with_queue(p.side.other(), m.queue);
        if side == p.side {
            assert(b2.queue(side) == b.queue(side));
            if m.remaining > 0 && book_model::may_rest(p.time_in_force) {
                let o = book_model::resting_of(p, m.remaining);
                let rank = book_model::rank_of(o.side, o.price);
                book_laws::lemma_slot_range(b.queue(side), rank);
                book_laws::lemma_queued_insert(
                    b.queue(side),
                    book_model::slot_of(b.queue(side), rank),
                    o,
                    id,
                );
            }
        } else {
            assert(side == p.side.other());
            if !(p.time_in_force is PostOnly) {
                book_laws::lemma_no_newcomer(
                    book_model::taker_of(b.symbol_id, p),
                    b.queue(side),
                    p.size.0 as int,
                    id,
                );
            }
        }
    }
}

/// Whether an id was given out but no open order has it.
pub open spec fn unused(e: EngineModel, id: OrderId) -> bool {
    &&& id.0 < e.next_order_id
    &&& forall|s: SymbolId, side: Side|
        e.books.contains_key(s) ==> !book_laws::queued(#[trigger] e.books[s].queue(side), id)
    &&& forall|s: SymbolId, i: int| #![trigger e.pending_stops[s][i]]
        0 <= i < e.pending_stops[s].len() ==> e.pending_stops[s][i].order_id != id
}

/// The same books but for one, which holds one more order at most.
spec fn one_more(e: EngineModel, f: EngineModel, s: SymbolId, id: OrderId) -> bool {
    &&& e.books.contains_key(s)
    &&& f.books.dom() == e.books.dom()
    &&& f.symbols.dom() == e.symbols.dom()
    &&& f.pending_stops == e.pending_stops
    &&& f.next_order_id == e.next_order_id
    &&& forall|t: SymbolId| #[trigger] e.books.contains_key(t) && t != s ==> f.books[t] == e.books[t]
    &&& forall|side: Side, x: OrderId|
        book_laws::queued(f.books[s].queue(side), x) ==> x == id || book_laws::queued(e.books[s].queue(side), x)
}

proof fn lemma_one_more(e: EngineModel, f: EngineModel, s: SymbolId, id: OrderId)
    requires
        e.sound(),
        unused(e, id),
        one_more(e, f, s, id),
    ensures
        f.sound(),
        forall|x: OrderId| x != id && unused(e, x) ==> unused(f, x),
{
    assert forall|t: SymbolId, side: Side, i: int| #![trigger f.books[t].queue(side)[i]]
        f.books.contains_key(t) && 0 <= i < f.books[t].queue(side).len() implies f.books[t].queue(
        side,
    )[i].order_id.0 < f.next_order_id && (forall|u: SymbolId, j: int|
        #![trigger f.pending_stops[u][j]]
        0 <= j < f.pending_stops[u].len() ==> f.pending_stops[u][j].order_id != f.books[t].queue(
            side,
        )[i].order_id) by {
        let x = f.books[t].queue(side)[i].order_id;
        if t == s {
            assert(book_laws::queued(f.books[s].queue(side), x));
            if x != id {
                let k = choose|k: int|
                    0 <= k < e.books[s].queue(side).len() && (
                    #[trigger] e.books[s].queue(side)[k]).order_id == x;
                assert(e.books[s].queue(side)[k].order_id == x);
            }
        } else {
            assert(e.books.contains_key(t));
            assert(e.books[t].queue(side)[i].order_id == x);
        }
    }
    assert forall|x: OrderId| x != id && unused(e, x) implies unused(f, x) by {
        assert forall|t: SymbolId, side: Side| f.books.contains_key(t) implies !book_laws::queued(
            #[trigger] f.books[t].queue(side),
            x,
        ) by {
            assert(e.books.contains_key(t));
            assert(!book_laws::queued(e.books[t].queue(side), x));
        }
    }
}

/// Placing an order on the book keeps the engine sound, and uses no other id.
pub proof fn lemma_apply_sound(
    e: EngineModel,
    order_id: OrderId,
    p: PlaceOrder,
    spec: SymbolSpec,
    now: Timestamp,
)
    requires
        e.sound(),
        unused(e, order_id),
        e.books.contains_key(p.symbol_id),
    ensures
        model::apply_to_book(e, order_id, p, spec, now).0.sound(),
        forall|x: OrderId|
            x != order_id && unused(e, x) ==> unused(
                model::apply_to_book(e, order_id, p, spec, now).0,
                x,
            ),
{
    let f = model::apply_to_book(e, order_id, p, spec, now).0;
    let params = model::params_of(order_id, p, now);
    let s = p.symbol_id;
    assert(f.books =~= e.books.insert(s, book_model::book_after_place(e.books[s], params)));
    assert(f.books.dom() =~= e.books.dom());
    assert forall|side: Side, x: OrderId| book_laws::queued(f.books[s].queue(side), x) implies x == order_id
        || book_laws::queued(e.books[s].queue(side), x) by {
        lemma_placed_queued(e.books[s], params, side, x);
    }
    lemma_one_more(e, f, s, order_id);
}

/// The next id is unused once it was given out.
pub proof fn lemma_next_unused(e: EngineModel)
    requires
        e.sound(),
        0 <= e.next_order_id < u64::MAX,
    ensures
        e.with_next_order_id().sound(),
        unused(e.with_next_order_id(), OrderId(e.next_order_id as u64)),
{
    let f = e.with_next_order_id();
    let id = OrderId(e.next_order_id as u64);
    assert forall|s: SymbolId, side: Side| f.books.contains_key(s) implies !book_laws::queued(
        #[trigger] f.books[s].queue(side),
        id,
    ) by {
        if book_laws::queued(f.books[s].queue(side), id) {
            let q = e.books[s].queue(side);
            let i = choose|i: int| 0 <= i < q.len() && (#[trigger] q[i]).order_id == id;
            assert(e.books[s].queue(side)[i].order_id.0 < e.next_order_id);
        }
    }
}

/// The trades of two lists of events, one after the other.
pub proof fn lemma_trades_joined(a: Seq<Event>, b: Seq<Event>)
    ensures
        model::trades_of(a + b) == model::trades_of(a) + model::trades_of(b),
    decreases b.len(),
{
    if b.len() == 0 {
        assert(a + b =~= a);
        assert(model::trades_of(a) + model::trades_of(b) =~= model::trades_of(a));
    } else {
        lemma_trades_joined(a, b.drop_last());
        assert((a + b).drop_last() =~= a + b.drop_last());
        assert((a + b).last() == b.last());
        assert(model::trades_of(a + b) =~= model::trades_of(a) + model::trades_of(b));
    }
}

/// An event that reports no trade.
pub proof fn lemma_no_trade(x: Event)
    requires
        !(x is Trade),
    ensures
        model::trades_of(seq![x]) == Seq::<Trade>::empty(),
{
    assert(seq![x].drop_last() =~= Seq::<Event>::empty());
    assert(model::trades_of(Seq::<Event>::empty()) == Seq::<Trade>::empty());
}

proof fn lemma_reported_trades(trades: Seq<Trade>)
    ensures
        model::trades_of(model::trade_events(trades)) == trades,
    decreases trades.len(),
{
    let events = model::trade_events(trades);
    if trades.len() == 0 {
        assert(model::trades_of(events) =~= trades);
    } else {
        lemma_reported_trades(trades.drop_last());
        assert(events.drop_last() =~= model::trade_events(trades.drop_last()));
        assert(model::trades_of(events) =~= trades);
    }
}

proof fn lemma_prevented_trades(
    cancels: Seq<StpCancellation>,
    symbol_id: SymbolId,
    now: Timestamp,
)
    ensures
        model::trades_of(model::stp_events(cancels, symbol_id, now)) == Seq::<Trade>::empty(),
    decreases cancels.len(),
{
    if cancels.len() > 0 {
        lemma_prevented_trades(cancels.drop_last(), symbol_id, now);
        let before = model::stp_events(cancels.drop_last(), symbol_id, now);
        let all = model::stp_events(cancels, symbol_id, now);
        if cancels.last().full_cancel {
            assert(all.drop_last() =~= before);
        }
    }
}

/// The events of a placed order report the trades that it made.
pub proof fn lemma_apply_trades(
    e: EngineModel,
    order_id: OrderId,
    p: PlaceOrder,
    spec: SymbolSpec,
    now: Timestamp,
)
    ensures
        model::trades_of(model::apply_to_book(e, order_id, p, spec, now).2)
            == book_model::outcome_of(
            e.books[p.symbol_id],
            model::params_of(order_id, p, now),
        ).trades,
{
    let o = book_model::outcome_of(e.books[p.symbol_id], model::params_of(order_id, p, now));
    match o.reject {
        Some(reason) => {
            lemma_no_trade(model::rejected_event(p, reason, now));
            assert(o.trades =~= Seq::<Trade>::empty());
        },
        None => {
            let first = model::accepted_event(order_id, p, now);
            let middle = model::trade_events(o.trades);
            let prevented = model::stp_events(o.stp_cancellations, p.symbol_id, now);
            let last = model::verdict(order_id, p, o, now).1;
            lemma_no_trade(first);
            lemma_reported_trades(o.trades);
            lemma_prevented_trades(o.stp_cancellations, p.symbol_id, now);
            if last.len() > 0 {
                assert(last =~= seq![last[0]]);
                lemma_no_trade(last[0]);
            }
            lemma_trades_joined(seq![first], middle);
            lemma_trades_joined(seq![first] + middle, prevented);
            lemma_trades_joined(seq![first] + middle + prevented, last);
            assert(model::trades_of(last) =~= Seq::<Trade>::empty());
            assert(model::trades_of(seq![first] + middle + prevented + last) =~= o.trades);
        },
    }
}

/// Trades settle exactly only where the trades before them did.
pub proof fn lemma_settle_exact(l: Ledger, trades: Seq<Trade>, spec: SymbolSpec, k: int)
    requires
        0 <= k <= trades.len(),
        model::settle_trades(l, trades, spec).exact,
    ensures
        model::settle_trades(l, trades.subrange(0, k), spec).exact,
    decreases trades.len(),
{
    if k == trades.len() {
        assert(trades.subrange(0, k) =~= trades);
    } else {
        let before = model::settle_trades(l, trades.drop_last(), spec);
        if model::settle_failure(l, trades.drop_last(), spec) is None {
            risk_engine::lemma_trade_exact(before, trades.last(), spec);
        }
        assert(trades.drop_last().subrange(0, k) =~= trades.subrange(0, k));
        lemma_settle_exact(l, trades.drop_last(), spec, k);
    }
}

/// Trades are all settled only where the trades before them were, and after a
/// failure the ledger stays as it is.
pub proof fn lemma_settle_failure(l: Ledger, trades: Seq<Trade>, spec: SymbolSpec, k: int)
    requires
        0 <= k <= trades.len(),
    ensures
        ({
            let first = model::settlement(l, trades.subrange(0, k), spec);
            first.1 is Some ==> model::settlement(l, trades, spec) == first
        }),
    decreases trades.len(),
{
    if k == trades.len() {
        assert(trades.subrange(0, k) =~= trades);
    } else {
        assert(trades.drop_last().subrange(0, k) =~= trades.subrange(0, k));
        lemma_settle_failure(l, trades.drop_last(), spec, k);
    }
}

/// Reservations are released exactly only where the ledger was exact before.
pub proof fn lemma_release_exact(l: Ledger, cancels: Seq<StpCancellation>, k: int)
    requires
        0 <= k <= cancels.len(),
        model::release_cancelled(l, cancels).exact,
    ensures
        model::release_cancelled(l, cancels.subrange(0, k)).exact,
    decreases cancels.len(),
{
    if k == cancels.len() {
        assert(cancels.subrange(0, k) =~= cancels);
    } else {
        assert(cancels.drop_last().subrange(0, k) =~= cancels.subrange(0, k));
        lemma_release_exact(l, cancels.drop_last(), k);
    }
}

/// Placing an order on the book is exact only where each of its steps is.
pub proof fn lemma_apply_exact(
    e: EngineModel,
    order_id: OrderId,
    p: PlaceOrder,
    spec: SymbolSpec,
    now: Timestamp,
)
    requires
        model::apply_to_book(e, order_id, p, spec, now).0.exact(),
    ensures
        e.exact(),
        model::apply_to_book(e, order_id, p, spec, now).0.failure is None ==> e.failure is None,
        book_model::can_rest(e.books[p.symbol_id], model::params_of(order_id, p, now)),
{
    let params = model::params_of(order_id, p, now);
    let b = e.books[p.symbol_id];
    let o = book_model::outcome_of(b, params);
    let e1 = e.with_book(p.symbol_id, book_model::book_after_place(b, params)).claim(
        book_model::can_rest(b, params),
    );
    if o.reject.is_none() {
        let traded = model::settle_trades(e1.ledger, o.trades, spec);
        if model::settle_failure(e1.ledger, o.trades, spec) is None {
            lemma_release_exact(traded, o.stp_cancellations, 0);
        }
        assert(o.stp_cancellations.subrange(0, 0) =~= Seq::<StpCancellation>::empty());
        lemma_settle_exact(e1.ledger, o.trades, spec, 0);
        assert(o.trades.subrange(0, 0) =~= Seq::<Trade>::empty());
    }
}

/// An unused id is not in any book.
pub proof fn lemma_unused_book(e: EngineModel, s: SymbolId, id: OrderId)
    requires
        unused(e, id),
        e.books.contains_key(s),
    ensures
        !e.books[s].has_order(id),
{
    if e.books[s].has_order(id) {
        let (side, i) = choose|side: Side, i: int| #[trigger] e.books[s].rests_at(side, i, id);
        assert(!book_laws::queued(e.books[s].queue(side), id));
        assert(e.books[s].queue(side)[i].order_id == id);
    }
}

/// What an outcome reports never exceeds the order.
pub proof fn lemma_outcome_bounds(b: BookModel, p: PlaceParams)
    ensures
        book_model::outcome_of(b, p).reject.is_none() ==> {
            let o = book_model::outcome_of(b, p);
            &&& 0 <= o.filled
            &&& 0 <= o.remaining
            &&& o.filled + o.remaining <= p.size.0
        },
{
    if book_model::refusal(b, p).is_none() {
        crate::matching::book::lemma_matched_bounds(
            book_model::taker_of(b.symbol_id, p),
            b.queue(p.side.other()),
            p.size.0 as int,
        );
    }
}

/// A checked order is placed exactly only where its reservation was.
pub proof fn lemma_checked_exact(
    e: EngineModel,
    seq_no: SeqNo,
    order_id: OrderId,
    p: PlaceOrder,
    spec: SymbolSpec,
    now: Timestamp,
)
    requires
        model::place_checked(e, seq_no, order_id, p, spec, now).0.exact(),
    ensures
        risk_model::pre_check_place(e.ledger, p, spec, order_id).0.exact,
        e.exact(),
        risk_model::pre_check_place(e.ledger, p, spec, order_id).1 is Ok ==> p.price.is_some(),
{
    let (l, r) = risk_model::pre_check_place(e.ledger, p, spec, order_id);
    let e1 = e.with_ledger(l);
    if r is Ok {
        if !model::is_stop(p.order_type) {
            lemma_apply_exact(e1, order_id, p, spec, now);
        } else if p.stop_price.is_some() {
            let q = PlaceOrder { order_type: crate::types::enums::OrderType::Limit, ..p };
            if e.mark_prices.contains_key(p.symbol_id) && model::stop_trigger_met(
                p.side,
                e.mark_prices[p.symbol_id],
                p.stop_price->0,
            ) {
                lemma_apply_exact(e1, order_id, q, spec, now);
            }
        }
    }
}

/// An order is taken exactly only where there is an id left for it.
pub proof fn lemma_place_exact(e: EngineModel, seq_no: SeqNo, p: PlaceOrder, now: Timestamp)
    requires
        model::handle_place(e, seq_no, p, now).0.exact(),
    ensures
        e.next_order_id < u64::MAX,
        e.exact(),
{
    let e1 = e.with_next_order_id();
    if e.symbols.contains_key(p.symbol_id) && model::lowered(p).is_some() {
        lemma_checked_exact(
            e1,
            seq_no,
            OrderId(e.next_order_id as u64),
            model::lowered(p)->0,
            e.symbols[p.symbol_id],
            now,
        );
    }
}

/// A waiting stop with a new id keeps the engine sound.
pub proof fn lemma_stop_sound(e: EngineModel, s: SymbolId, stop: PendingStop)
    requires
        e.sound(),
        e.symbols.contains_key(s),
        unused(e, stop.order_id),
        model::stop_ok(stop, s),
        e.pending_stops.contains_key(s),
    ensures
        e.with_stops(s, e.pending_stops[s].push(stop)).sound(),
{
    let f = e.with_stops(s, e.pending_stops[s].push(stop));
    assert forall|t: SymbolId, i: int| #![trigger f.pending_stops[t][i]]
        0 <= i < f.pending_stops[t].len() implies (t == s && i == e.pending_stops[s].len()
        && f.pending_stops[t][i] == stop) || (i < e.pending_stops[t].len() && f.pending_stops[t][i]
        == e.pending_stops[t][i]) by {}
    assert forall|u: SymbolId, i: int, t: SymbolId, side: Side, j: int|
        #![trigger f.pending_stops[u][i], f.books[t].queue(side)[j]]
        0 <= i < f.pending_stops[u].len() && f.books.contains_key(t) && 0 <= j < f.books[t].queue(
            side,
        ).len() implies f.pending_stops[u][i].order_id != f.books[t].queue(side)[j].order_id by {
        assert(!book_laws::queued(e.books[t].queue(side), stop.order_id));
        assert(e.books[t].queue(side)[j] == f.books[t].queue(side)[j]);
        if f.pending_stops[u][i] != stop {
            assert(e.pending_stops[u][i] == f.pending_stops[u][i]);
        }
    }
}

/// An order that leaves a book keeps the engine sound, and frees no id.
pub proof fn lemma_cancel_sound(e: EngineModel, s: SymbolId, id: OrderId)
    requires
        e.sound(),
        e.books.contains_key(s),
        e.books[s].has_order(id),
    ensures
        e.with_book(s, e.books[s].without(id)).sound(),
        forall|x: OrderId| unused(e, x) ==> unused(e.with_book(s, e.books[s].without(id)), x),
{
    let f = e.with_book(s, e.books[s].without(id));
    let b = e.books[s];
    let (s0, i0) = choose|side: Side, i: int| #[trigger] b.rests_at(side, i, id);
    assert(b.rests_at((s0, i0).0, (s0, i0).1, id));
    let (at, k) = b.find(id);
    assert(b.rests_at(at, k, id));
    assert(f.books.dom() =~= e.books.dom());
    assert forall|side: Side, x: OrderId| book_laws::queued(f.books[s].queue(side), x) implies book_laws::queued(
        b.queue(side),
        x,
    ) by {
        let q = f.books[s].queue(side);
        let i = choose|i: int| 0 <= i < q.len() && (#[trigger] q[i]).order_id == x;
        if side == at {
            let m = if i < k {
                i
            } else {
                i + 1
            };
            assert(b.queue(side)[m] == q[i]);
        } else {
            assert(b.queue(side)[i] == q[i]);
        }
    }
    assert forall|t: SymbolId, side: Side, i: int| #![trigger f.books[t].queue(side)[i]]
        f.books.contains_key(t) && 0 <= i < f.books[t].queue(side).len() implies exists|j: int|
        0 <= j < e.books[t].queue(side).len() && (#[trigger] e.books[t].queue(side)[j]).order_id
            == f.books[t].queue(side)[i].order_id by {
        let x = f.books[t].queue(side)[i].order_id;
        if t == s {
            assert(book_laws::queued(f.books[s].queue(side), x));
        } else {
            assert(e.books[t].queue(side)[i].order_id == x);
        }
    }
    assert forall|x: OrderId| unused(e, x) implies unused(f, x) by {
        assert forall|t: SymbolId, side: Side| f.books.contains_key(t) implies !book_laws::queued(
            #[trigger] f.books[t].queue(side),
            x,
        ) by {
            assert(e.books.contains_key(t));
            assert(!book_laws::queued(e.books[t].queue(side), x));
        }
    }
}

/// What an order still wants fits a machine word.
pub proof fn lemma_open_fits(b: BookModel, id: OrderId)
    requires
        b.has_order(id),
        b.orders_ok(),
    ensures
        b.order(id).size_remaining.0 + b.order(id).hidden_remaining.0 <= i64::MAX,
        b.order(id).size_remaining.0 > 0,
        b.order(id).hidden_remaining.0 >= 0,
{
    let (s0, i0) = choose|side: Side, i: int| #[trigger] b.rests_at(side, i, id);
    assert(b.rests_at((s0, i0).0, (s0, i0).1, id));
    let (side, k) = b.find(id);
    assert(b.rests_at(side, k, id));
    assert(book_model::order_ok(b.queue(side)[k]));
}

/// An order is replaced exactly only where each step is exact.
pub proof fn lemma_modify_exact(e: EngineModel, seq_no: SeqNo, m: ModifyOrder, now: Timestamp)
    requires
        model::handle_modify(e, seq_no, m, now).0.exact(),
        e.books.contains_key(m.symbol_id),
        e.books[m.symbol_id].has_order(m.order_id),
        e.books[m.symbol_id].order(m.order_id).user_id == m.user_id,
        model::replacement(e.books[m.symbol_id].order(m.order_id), m).size.0 > 0,
    ensures
        e.next_order_id < u64::MAX,
        e.exact(),
        risk_model::release_hold(e.ledger, m.order_id).0.exact,
        risk_model::pre_check_place(
            risk_model::release_hold(e.with_next_order_id().ledger, m.order_id).0,
            model::replacement(e.books[m.symbol_id].order(m.order_id), m),
            e.symbols[m.symbol_id],
            OrderId(e.next_order_id as u64),
        ).0.exact,
{
    let b = e.books[m.symbol_id];
    let p = model::replacement(b.order(m.order_id), m);
    let order_id = OrderId(e.next_order_id as u64);
    let spec = e.symbols[m.symbol_id];
    let e1 = e.with_next_order_id();
    let l1 = risk_model::release_hold(e1.ledger, m.order_id).0;
    let e2 = e1.with_book(m.symbol_id, b.without(m.order_id)).with_ledger(l1);
    let (l2, r) = risk_model::pre_check_place(l1, p, spec, order_id);
    if r is Ok {
        lemma_apply_exact(e2.with_ledger(l2), order_id, p, spec, now);
    }
}

/// A new symbol keeps the engine sound.
pub proof fn lemma_register_sound(e: EngineModel, seq_no: SeqNo, spec: SymbolSpec)
    requires
        e.sound(),
        !e.symbols.contains_key(spec.symbol_id),
    ensures
        model::handle_register_symbol(e, seq_no, spec).0.sound(),
{
    let f = model::handle_register_symbol(e, seq_no, spec).0;
    let s = spec.symbol_id;
    assert(f.books.dom() =~= f.symbols.dom());
    assert forall|t: SymbolId, side: Side, i: int| #![trigger f.books[t].queue(side)[i]]
        f.books.contains_key(t) && 0 <= i < f.books[t].queue(side).len() implies t != s
        && e.books.contains_key(t) && e.books[t].queue(side)[i] == f.books[t].queue(side)[i] by {
        if t == s {
            assert(f.books[t].queue(side).len() == 0);
        }
    }
    assert forall|u: SymbolId, i: int, t: SymbolId, side: Side, j: int|
        #![trigger f.pending_stops[u][i], f.books[t].queue(side)[j]]
        0 <= i < f.pending_stops[u].len() && f.books.contains_key(t) && 0 <= j < f.books[t].queue(
            side,
        ).len() implies f.pending_stops[u][i].order_id != f.books[t].queue(side)[j].order_id by {
        assert(e.books[t].queue(side)[j] == f.books[t].queue(side)[j]);
        assert(e.pending_stops[u][i] == f.pending_stops[u][i]);
    }
}

/// Each waiting stop was waiting before.
pub proof fn lemma_waiting_from(stops: Seq<PendingStop>, mark: Price) -> (at: Seq<int>)
    ensures
        at.len() == model::waiting(stops, mark).len(),
        forall|i: int| 0 <= i < at.len() ==> 0 <= #[trigger] at[i] < stops.len(),
        forall|i: int|
            0 <= i < at.len() ==> model::waiting(stops, mark)[i] == stops[#[trigger] at[i]],
        forall|i: int, j: int| 0 <= i < j < at.len() ==> at[i] < at[j],
        forall|i: int|
            0 <= i < at.len() ==> !model::stop_trigger_met(
                stops[#[trigger] at[i]].place_order.side,
                mark,
                stops[at[i]].place_order.stop_price->0,
            ),
    decreases stops.len(),
{
    if stops.len() == 0 {
        Seq::empty()
    } else {
        let before = lemma_waiting_from(stops.drop_last(), mark);
        if model::stop_trigger_met(
            stops.last().place_order.side,
            mark,
            stops.last().place_order.stop_price->0,
        ) {
            before
        } else {
            let at = before.push(stops.len() - 1);
            assert forall|i: int| 0 <= i < at.len() implies model::waiting(stops, mark)[i]
                == stops[#[trigger] at[i]] by {
                if i < before.len() {
                    assert(at[i] == before[i]);
                }
            }
            assert forall|i: int| 0 <= i < at.len() implies !model::stop_trigger_met(
                stops[#[trigger] at[i]].place_order.side,
                mark,
                stops[at[i]].place_order.stop_price->0,
            ) by {
                if i < before.len() {
                    assert(at[i] == before[i]);
                }
            }
            at
        }
    }
}

/// Each fired stop was waiting before.
pub proof fn lemma_fired_from(stops: Seq<PendingStop>, mark: Price) -> (at: Seq<int>)
    ensures
        at.len() == model::fired(stops, mark).len(),
        forall|i: int| 0 <= i < at.len() ==> 0 <= #[trigger] at[i] < stops.len(),
        forall|i: int|
            0 <= i < at.len() ==> model::fired(stops, mark)[i] == stops[#[trigger] at[i]],
        forall|i: int, j: int| 0 <= i < j < at.len() ==> at[i] < at[j],
        forall|i: int|
            0 <= i < at.len() ==> model::stop_trigger_met(
                stops[#[trigger] at[i]].place_order.side,
                mark,
                stops[at[i]].place_order.stop_price->0,
            ),
    decreases stops.len(),
{
    if stops.len() == 0 {
        Seq::empty()
    } else {
        let before = lemma_fired_from(stops.drop_last(), mark);
        if model::stop_trigger_met(
            stops.last().place_order.side,
            mark,
            stops.last().place_order.stop_price->0,
        ) {
            let at = before.push(stops.len() - 1);
            assert forall|i: int| 0 <= i < at.len() implies model::fired(stops, mark)[i]
                == stops[#[trigger] at[i]] by {
                if i < before.len() {
                    assert(at[i] == before[i]);
                }
            }
            assert forall|i: int| 0 <= i < at.len() implies model::stop_trigger_met(
                stops[#[trigger] at[i]].place_order.side,
                mark,
                stops[at[i]].place_order.stop_price->0,
            ) by {
                if i < before.len() {
                    assert(at[i] == before[i]);
                }
            }
            at
        } else {
            before
        }
    }
}

/// Whether some stops can be placed one after the other: their ids are unused
/// and differ.
pub open spec fn ready(e: EngineModel, stops: Seq<PendingStop>, s: SymbolId) -> bool {
    &&& forall|i: int|
        0 <= i < stops.len() ==> unused(e, (#[trigger] stops[i]).order_id) && model::stop_ok(
            stops[i],
            s,
        )
    &&& forall|i: int, j: int|
        0 <= i < j < stops.len() ==> (#[trigger] stops[i]).order_id != (
        #[trigger] stops[j]).order_id
}

/// Taking fired stops out keeps the engine sound.
pub proof fn lemma_waiting_sound(e: EngineModel, s: SymbolId, mark: Price)
    requires
        e.sound(),
        e.pending_stops.contains_key(s),
    ensures
        e.with_stops(s, model::waiting(e.pending_stops[s], mark)).sound(),
        ready(
            e.with_stops(s, model::waiting(e.pending_stops[s], mark)),
            model::fired(e.pending_stops[s], mark),
            s,
        ),
{
    let stops = e.pending_stops[s];
    let w = model::waiting(stops, mark);
    let g = model::fired(stops, mark);
    let f = e.with_stops(s, w);
    let at = lemma_waiting_from(stops, mark);
    let from = lemma_fired_from(stops, mark);
    assert forall|t: SymbolId, i: int| #![trigger f.pending_stops[t][i]]
        0 <= i < f.pending_stops[t].len() implies f.pending_stops[t][i] == e.pending_stops[t][if t
        == s {
        at[i]
    } else {
        i
    }] && 0 <= (if t == s {
        at[i]
    } else {
        i
    }) < e.pending_stops[t].len() by {
        if t == s {
            assert(w[i] == stops[at[i]]);
        }
    }
    assert forall|u: SymbolId, i: int, t: SymbolId, j: int|
        #![trigger f.pending_stops[u][i], f.pending_stops[t][j]]
        0 <= i < f.pending_stops[u].len() && 0 <= j < f.pending_stops[t].len() && (u != t || i
            != j) implies f.pending_stops[u][i].order_id != f.pending_stops[t][j].order_id by {
        let ui = if u == s {
            at[i]
        } else {
            i
        };
        let tj = if t == s {
            at[j]
        } else {
            j
        };
        assert(u == s && t == s ==> (i < j ==> at[i] < at[j]) && (j < i ==> at[j] < at[i]));
        assert(e.pending_stops[u][ui].order_id != e.pending_stops[t][tj].order_id);
    }
    assert forall|i: int| 0 <= i < g.len() implies unused(f, (#[trigger] g[i]).order_id)
        && model::stop_ok(g[i], s) by {
        let id = g[i].order_id;
        assert(g[i] == e.pending_stops[s][from[i]]);
        assert forall|t: SymbolId, side: Side| f.books.contains_key(t) implies !book_laws::queued(
            #[trigger] f.books[t].queue(side),
            id,
        ) by {
            if book_laws::queued(f.books[t].queue(side), id) {
                let q = e.books[t].queue(side);
                let j = choose|j: int| 0 <= j < q.len() && (#[trigger] q[j]).order_id == id;
                assert(e.pending_stops[s][from[i]].order_id != e.books[t].queue(
                    side,
                )[j].order_id);
            }
        }
        assert forall|t: SymbolId, j: int| #![trigger f.pending_stops[t][j]]
            0 <= j < f.pending_stops[t].len() implies f.pending_stops[t][j].order_id != id by {
            let tj = if t == s {
                at[j]
            } else {
                j
            };
            assert(f.pending_stops[t][j] == e.pending_stops[t][tj]);
            if t == s {
                assert(at[j] != from[i]);
            }
            assert(e.pending_stops[t][tj].order_id != e.pending_stops[s][from[i]].order_id);
        }
    }
    assert forall|i: int, j: int| 0 <= i < j < g.len() implies (#[trigger] g[i]).order_id != (
    #[trigger] g[j]).order_id by {
        assert(from[i] < from[j]);
        assert(e.pending_stops[s][from[i]].order_id != e.pending_stops[s][from[j]].order_id);
    }
}

/// The same after the mark and the ledger have changed.
pub proof fn lemma_fired_sound(e: EngineModel, s: SymbolId, mark: Price)
    requires
        e.sound(),
        e.pending_stops.contains_key(s),
    ensures
        forall|f: EngineModel|
            f.books == e.books && f.symbols == e.symbols && f.next_order_id == e.next_order_id
                && f.pending_stops == e.pending_stops.insert(
                s,
                model::waiting(e.pending_stops[s], mark),
            ) ==> #[trigger] ready(f, model::fired(e.pending_stops[s], mark), s),
{
    lemma_waiting_sound(e, s, mark);
    let g = e.with_stops(s, model::waiting(e.pending_stops[s], mark));
    assert forall|f: EngineModel|
        f.books == e.books && f.symbols == e.symbols && f.next_order_id == e.next_order_id
            && f.pending_stops == e.pending_stops.insert(
            s,
            model::waiting(e.pending_stops[s], mark),
        ) implies #[trigger] ready(f, model::fired(e.pending_stops[s], mark), s) by {
        let stops = model::fired(e.pending_stops[s], mark);
        assert forall|i: int| 0 <= i < stops.len() implies unused(f, (#[trigger] stops[i]).order_id)
            && model::stop_ok(stops[i], s) by {
            assert(unused(g, stops[i].order_id));
        }
    }
}

/// Placing the first of some stops leaves the others ready.
pub proof fn lemma_ready_step(
    e: EngineModel,
    stops: Seq<PendingStop>,
    s: SymbolId,
    p: PlaceOrder,
    spec: SymbolSpec,
    now: Timestamp,
)
    requires
        e.sound(),
        ready(e, stops, s),
        stops.len() > 0,
        p.symbol_id == s,
        e.books.contains_key(s),
    ensures
        ready(
            model::apply_to_book(e, stops[0].order_id, p, spec, now).0,
            stops.drop_first(),
            s,
        ),
        model::apply_to_book(e, stops[0].order_id, p, spec, now).0.books.contains_key(s),
{
    let f = model::apply_to_book(e, stops[0].order_id, p, spec, now).0;
    lemma_apply_sound(e, stops[0].order_id, p, spec, now);
    let rest = stops.drop_first();
    assert forall|i: int| 0 <= i < rest.len() implies unused(f, (#[trigger] rest[i]).order_id)
        && model::stop_ok(rest[i], s) by {
        assert(rest[i] == stops[i + 1]);
        assert(stops[0].order_id != stops[i + 1].order_id);
    }
    assert forall|i: int, j: int| 0 <= i < j < rest.len() implies (#[trigger] rest[i]).order_id != (
    #[trigger] rest[j]).order_id by {
        assert(rest[i] == stops[i + 1] && rest[j] == stops[j + 1]);
    }
}

/// Stops are placed exactly only where the stops before them were.
pub proof fn lemma_fired_exact(
    e: EngineModel,
    stops: Seq<PendingStop>,
    spec: SymbolSpec,
    now: Timestamp,
    k: int,
)
    requires
        0 <= k <= stops.len(),
        model::place_fired(e, stops, spec, now).0.exact(),
    ensures
        model::place_fired(e, stops.subrange(0, k), spec, now).0.exact(),
        model::place_fired(e, stops, spec, now).0.failure is None ==> model::place_fired(
            e,
            stops.subrange(0, k),
            spec,
            now,
        ).0.failure is None,
    decreases stops.len(),
{
    if k == stops.len() {
        assert(stops.subrange(0, k) =~= stops);
    } else {
        let before = model::place_fired(e, stops.drop_last(), spec, now).0;
        let stop = stops.last();
        lemma_apply_exact(
            before,
            stop.order_id,
            PlaceOrder {
                order_type: crate::types::enums::OrderType::Limit,
                ..stop.place_order
            },
            spec,
            now,
        );
        assert(stops.drop_last().subrange(0, k) =~= stops.subrange(0, k));
        lemma_fired_exact(e, stops.drop_last(), spec, now, k);
    }
}

/// A trading command is applied exactly only where the engine was exact.
proof fn lemma_trading_exact(e: EngineModel, env: CommandEnvelope)
    requires
        model::dispatch_trading(e, env).0.exact(),
    ensures
        e.exact(),
        model::dispatch_trading(e, env).0.failure is None ==> e.failure is None,
{
    reveal(model::dispatch_trading);
    match env.command {
        crate::types::command::Command::PlaceOrder(p) => {
            lemma_place_exact(e, env.seq_no, p, env.received_at);
        },
        crate::types::command::Command::ModifyOrder(m) => {
            if e.books.contains_key(m.symbol_id) {
                let b = e.books[m.symbol_id];
                if b.has_order(m.order_id) && b.order(m.order_id).user_id == m.user_id
                    && model::replacement(b.order(m.order_id), m).size.0 > 0 {
                    lemma_modify_exact(e, env.seq_no, m, env.received_at);
                }
            }
        },
        crate::types::command::Command::SetMarkPrice(m) => {
            if e.symbols.contains_key(m.symbol_id) {
                let spec = e.symbols[m.symbol_id];
                let stops = e.pending_stops[m.symbol_id];
                let e2 = EngineModel {
                    mark_prices: e.mark_prices.insert(m.symbol_id, m.mark_price),
                    ledger: risk_model::liquidate(e.ledger, spec, m.mark_price),
                    pending_stops: e.pending_stops.insert(
                        m.symbol_id,
                        model::waiting(stops, m.mark_price),
                    ),
                    ..e
                };
                let going = model::fired(stops, m.mark_price);
                lemma_fired_exact(e2, going, spec, env.received_at, 0);
                assert(going.subrange(0, 0) =~= Seq::<PendingStop>::empty());
            }
        },
        _ => {},
    }
}

/// A command is applied exactly only where the engine was exact and there is a
/// sequence number left.
pub proof fn lemma_envelope_exact(e: EngineModel, env: CommandEnvelope)
    requires
        model::apply_envelope(e, env).0.exact(),
    ensures
        e.exact(),
        model::apply_envelope(e, env).0.failure is None ==> e.failure is None,
        env.seq_no.0 + 1 <= u64::MAX,
{
    let e1 = EngineModel {
        next_seq_no: if env.seq_no.0 + 1 > e.next_seq_no {
            env.seq_no.0 + 1
        } else {
            e.next_seq_no
        },
        ..e
    }.claim(env.seq_no.0 + 1 <= u64::MAX);
    if model::dispatch_trading(e1, env).0.exact() {
        lemma_trading_exact(e1, env);
    }
}

/// Journaled commands are applied exactly only where the ones before them were.
pub proof fn lemma_all_exact(e: EngineModel, envs: Seq<CommandEnvelope>, k: int)
    requires
        0 <= k <= envs.len(),
        model::apply_all(e, envs).0.exact(),
    ensures
        model::apply_all(e, envs.subrange(0, k)).0.exact(),
        model::apply_all(e, envs).0.failure is None ==> model::apply_all(
            e,
            envs.subrange(0, k),
        ).0.failure is None,
    decreases envs.len(),
{
    if k == envs.len() {
        assert(envs.subrange(0, k) =~= envs);
    } else {
        lemma_envelope_exact(model::apply_all(e, envs.drop_last()).0, envs.last());
        assert(envs.drop_last().subrange(0, k) =~= envs.subrange(0, k));
        lemma_all_exact(e, envs.drop_last(), k);
    }
}

/// Whether a list holds each mark of a map once.
pub open spec fn lists_marks(marks: Seq<Mark>, m: Map<SymbolId, Mark>) -> bool {
    &&& forall|j: int|
        0 <= j < marks.len() ==> m.contains_key((#[trigger] marks[j]).symbol_id) && marks[j]
            == m[marks[j].symbol_id]
    &&& forall|j: int, k: int|
        0 <= j < k < marks.len() ==> (#[trigger] marks[j]).symbol_id != (
        #[trigger] marks[k]).symbol_id
    &&& forall|s: SymbolId| #[trigger]
        m.contains_key(s) ==> exists|j: int|
            0 <= j < marks.len() && (#[trigger] marks[j]).symbol_id == s
}

/// Open profits of a list of marks, by symbol.
proof fn lemma_profits_walk(
    l: Ledger,
    c: CurrencyId,
    marks: Seq<Mark>,
    m: Map<SymbolId, Mark>,
    keys: Seq<SymbolId>,
)
    requires
        keys.len() == marks.len(),
        forall|j: int| 0 <= j < marks.len() ==> m[#[trigger] keys[j]] == marks[j],
    ensures
        risk_model::open_profits(l, c, marks) == sums::sum_walk(
            m,
            keys,
            model::open_profit_in(l, c),
        ),
    decreases marks.len(),
{
    if marks.len() > 0 {
        assert(m[keys[keys.len() - 1]] == marks[marks.len() - 1]);
        assert forall|j: int| 0 <= j < marks.drop_last().len() implies m[
            #[trigger] keys.drop_last()[j]
        ] == marks.drop_last()[j] by {
            assert(m[keys[j]] == marks[j]);
        }
        lemma_profits_walk(l, c, marks.drop_last(), m, keys.drop_last());
    }
}

/// A list of all marks gives the total over all marks.
pub proof fn lemma_marks_fit(e: EngineModel, c: CurrencyId, marks: Seq<Mark>)
    requires
        lists_marks(marks, model::marked(e)),
        model::total_fits(e, c),
    ensures
        risk_model::marks_fit(e.ledger, c, marks),
        risk_model::total_with_marks(e.ledger, c, marks) == model::total_with_marks(e, c),
{
    let l = e.ledger;
    let m = model::marked(e);
    let keys = Seq::new(marks.len(), |j: int| marks[j].symbol_id);
    let f = model::open_profit_in(l, c);
    let g = model::open_profit_size_in(l, c);
    assert forall|j: int| 0 <= j < marks.len() implies m[#[trigger] keys[j]] == marks[j] by {
        assert(marks[j] == m[marks[j].symbol_id]);
    }
    assert forall|j: int| 0 <= j < keys.len() implies m.contains_key(#[trigger] keys[j]) by {
        assert(m.contains_key(marks[j].symbol_id));
    }
    assert forall|s: SymbolId| #[trigger] m.contains_key(s) implies keys.contains(s) by {
        let j = choose|j: int| 0 <= j < marks.len() && (#[trigger] marks[j]).symbol_id == s;
        assert(keys[j] == s);
    }
    assert(keys.no_duplicates()) by {
        assert forall|i: int, j: int| 0 <= i < keys.len() && 0 <= j < keys.len() && i != j implies keys[i]
            != keys[j] by {
            assert(marks[i].symbol_id != marks[j].symbol_id);
        }
    }
    sums::lemma_sum_walk(m, keys, f);
    sums::lemma_sum_walk(m, keys, g);
    lemma_profits_walk(l, c, marks, m, keys);
    assert forall|a: AccountModel| #[trigger]
        risk_model::gross_in(c)(a) >= risk_model::worth_in(c)(a) && risk_model::gross_in(c)(a)
            >= -risk_model::worth_in(c)(a) by {
        sums::lemma_sum_magnitude(
            a.positions,
            risk_model::margin_in(c),
            risk_model::margin_size_in(c),
        );
    }
    sums::lemma_sum_magnitude(
        l.accounts,
        risk_model::worth_in(c),
        risk_model::gross_in(c),
    );
    assert forall|i: int| 0 <= i < marks.len() implies #[trigger] risk_model::mark_fits(
        l,
        c,
        marks,
        i,
    ) by {
        let part = marks.subrange(0, i + 1);
        let part_keys = keys.subrange(0, i + 1);
        assert forall|j: int| 0 <= j < part.len() implies m[#[trigger] part_keys[j]] == part[j] by {
            assert(m[keys[j]] == marks[j]);
        }
        lemma_profits_walk(l, c, part, m, part_keys);
        sums::lemma_walk_bound(m, keys, i + 1, f, g);
        assert(m.contains_key(keys[i]));
        assert(m[keys[i]] == marks[i]);
    }
    sums::lemma_walk_bound(m, keys, 0, f, g);
}

} // verus!
