//! Reservations and open orders match one to one, whatever the engine does.
use vstd::prelude::*;

use crate::engine::lemmas;
use crate::engine::model;
use crate::engine::model::{EngineModel, PendingStop};
use crate::matching::book;
use crate::matching::laws as book_laws;
use crate::matching::model as book_model;
use crate::matching::model::{BookModel, Taker};
use crate::matching::outcome::{PlaceParams, RestingOrder, StpCancellation};
use crate::risk::hold::Hold;
use crate::risk::laws as risk_laws;
use crate::risk::model as risk_model;
use crate::risk::model::Ledger;
use crate::risk::value;
use crate::types::command::{ModifyOrder, PlaceOrder, SetMarkPrice};
use crate::types::enums::{OrderType, Side};
use crate::types::event::Trade;
use crate::types::ids::{CurrencyId, OrderId, SeqNo, SymbolId, Timestamp, UserId};
use crate::types::numeric::{Bps, Price, Size};
use crate::types::symbol::SymbolSpec;

verus! {

/// Whether every reservation is filed under its order and stands for something.
pub open spec fn filed(m: Map<OrderId, Hold>) -> bool {
    forall|id: OrderId| #[trigger]
        m.contains_key(id) ==> m[id].order_id == id && m[id].remaining_size.0 > 0
}

/// Whether the reservations of a trade's two orders are there and can settle.
pub open spec fn trade_held(m: Map<OrderId, Hold>, trade: Trade, spec: SymbolSpec) -> bool {
    &&& trade.size.0 > 0
    &&& trade.taker_order_id != trade.maker_order_id
    &&& m.contains_key(trade.taker_order_id)
    &&& m.contains_key(trade.maker_order_id)
    &&& m[trade.taker_order_id].side == m[trade.maker_order_id].side.other()
    &&& spec.kind_params is Spot ==> {
        &&& risk_laws::spot_hold(m[trade.taker_order_id], spec)
        &&& risk_laws::spot_hold(m[trade.maker_order_id], spec)
    }
    &&& !(spec.kind_params is Spot) ==> {
        &&& value::derivative_hold(m[trade.taker_order_id], spec)
        &&& value::derivative_hold(m[trade.maker_order_id], spec)
    }
}

/// Whether the reservations of all trades are there and cover what each order trades.
pub open spec fn trades_held(m: Map<OrderId, Hold>, trades: Seq<Trade>, spec: SymbolSpec) -> bool {
    &&& filed(m)
    &&& forall|i: int| 0 <= i < trades.len() ==> trade_held(m, #[trigger] trades[i], spec)
    &&& forall|id: OrderId| #[trigger]
        m.contains_key(id) ==> book_laws::traded_by(trades, id) <= m[id].remaining_size.0
}

/// The same of the trades before the last.
pub proof fn lemma_held_before(m: Map<OrderId, Hold>, trades: Seq<Trade>, spec: SymbolSpec)
    requires
        trades_held(m, trades, spec),
        trades.len() > 0,
    ensures
        trades_held(m, trades.drop_last(), spec),
        trade_held(m, trades.last(), spec),
{
    let rest = trades.drop_last();
    assert(trade_held(m, trades[trades.len() - 1], spec));
    assert forall|i: int| 0 <= i < rest.len() implies trade_held(m, #[trigger] rest[i], spec) by {
        assert(rest[i] == trades[i]);
    }
    assert forall|id: OrderId| #[trigger] m.contains_key(id) implies book_laws::traded_by(rest, id)
        <= m[id].remaining_size.0 by {
        assert(book_laws::traded_by(trades, id) <= m[id].remaining_size.0);
    }
}

/// What a step keeps: the users, and where it is a steady one every total.
pub open spec fn ledger_kept(s: Ledger, t: Ledger, steady: bool) -> bool {
    &&& t.accounts.dom() == s.accounts.dom()
    &&& steady ==> risk_laws::finite(t) && forall|c: CurrencyId| #[trigger]
        risk_model::total_internal(t, c) == risk_model::total_internal(s, c)
}

/// Whether some trades in a symbol are sure to leave every total as it was: the symbol
/// is a spot symbol, or there are none.
pub open spec fn calm(spec: SymbolSpec, trades: Seq<Trade>) -> bool {
    spec.kind_params is Spot || trades.len() == 0
}

/// Settled trades draw the reservations of their orders down by what each
/// traded.
pub proof fn lemma_trades_settle(l: Ledger, trades: Seq<Trade>, spec: SymbolSpec, steady: bool)
    requires
        steady ==> calm(spec, trades) && risk_laws::finite(l),
        l.has(risk_model::house()),
        trades_held(l.holds, trades, spec),
        model::settle_trades(l, trades, spec).exact,
        model::settle_failure(l, trades, spec) is None,
    ensures
        forall|id: OrderId|
            risk_laws::filled(
                l.holds,
                model::settle_trades(l, trades, spec).holds,
                id,
                #[trigger] book_laws::traded_by(trades, id),
            ),
        ledger_kept(l, model::settle_trades(l, trades, spec), steady),
    decreases trades.len(),
{
    if trades.len() == 0 {
        assert forall|id: OrderId|
            risk_laws::filled(
                l.holds,
                l.holds,
                id,
                #[trigger] book_laws::traded_by(trades, id),
            ) by {
            assert(l.holds.contains_key(id) ==> l.holds[id].remaining_size.0 > 0);
        }
    } else {
        let rest = trades.drop_last();
        let trade = trades.last();
        let before = model::settle_trades(l, rest, spec);
        let (after, r) = risk_model::apply_trade(before, trade, spec);
        lemma_held_before(l.holds, trades, spec);
        crate::risk::engine::lemma_trade_exact(before, trade, spec);
        lemma_trades_settle(l, rest, spec, steady);
        let taker = trade.taker_order_id;
        let maker = trade.maker_order_id;
        assert(book_laws::traded_by(trades, taker) <= l.holds[taker].remaining_size.0);
        assert(book_laws::traded_by(trades, maker) <= l.holds[maker].remaining_size.0);
        assert(risk_laws::filled(
            l.holds,
            before.holds,
            taker,
            book_laws::traded_by(rest, taker),
        ));
        assert(risk_laws::filled(
            l.holds,
            before.holds,
            maker,
            book_laws::traded_by(rest, maker),
        ));
        assert(before.has(risk_model::house()));
        assert forall|id: OrderId|
            risk_laws::filled(
                l.holds,
                after.holds,
                id,
                #[trigger] book_laws::traded_by(trades, id),
            ) by {
            assert(risk_laws::filled(
                l.holds,
                before.holds,
                id,
                book_laws::traded_by(rest, id),
            ));
            assert(l.holds.contains_key(id) ==> book_laws::traded_by(trades, id)
                <= l.holds[id].remaining_size.0);
            risk_laws::law_trade_draws_down(before, trade, spec, id);
        }
        risk_laws::law_trade_draws_down(before, trade, spec, taker);
        if steady {
            assert forall|c: CurrencyId| #[trigger]
                risk_model::total_internal(after, c) == risk_model::total_internal(l, c) by {
                risk_laws::law_spot_trade_conserves(before, trade, spec, c);
                assert(risk_model::total_internal(before, c) == risk_model::total_internal(l, c));
            }
            risk_laws::law_spot_trade_conserves(before, trade, spec, spec.base_currency);
        }
    }
}

/// Whether `n` is `m` after prevention removed the order with an id, or took
/// `less` of it.
spec fn released(
    m: Map<OrderId, Hold>,
    n: Map<OrderId, Hold>,
    id: OrderId,
    out: bool,
    less: int,
) -> bool {
    if m.contains_key(id) && !out {
        n.contains_key(id) && risk_laws::kin(m[id], n[id]) && n[id].remaining_size.0
            == m[id].remaining_size.0 - less
    } else {
        !n.contains_key(id)
    }
}

/// What prevention takes from resting orders their reservations give back.
proof fn lemma_cancels_release(l: Ledger, cancels: Seq<StpCancellation>, steady: bool)
    requires
        steady ==> risk_laws::finite(l),
        forall|i: int| 0 <= i < cancels.len() ==> (#[trigger] cancels[i]).size_cancelled.0 > 0,
        forall|id: OrderId| #[trigger]
            l.holds.contains_key(id) ==> book_laws::trimmed(cancels, id)
                < l.holds[id].remaining_size.0,
    ensures
        forall|id: OrderId|
            released(
                l.holds,
                model::release_cancelled(l, cancels).holds,
                id,
                book_laws::struck(cancels, id),
                #[trigger] book_laws::trimmed(cancels, id),
            ),
        ledger_kept(l, model::release_cancelled(l, cancels), steady),
    decreases cancels.len(),
{
    if cancels.len() > 0 {
        let rest = cancels.drop_last();
        let c = cancels.last();
        let before = model::release_cancelled(l, rest);
        let after = model::release_cancelled(l, cancels);
        assert(cancels[cancels.len() - 1].size_cancelled.0 > 0);
        assert forall|i: int| 0 <= i < rest.len() implies (
        #[trigger] rest[i]).size_cancelled.0 > 0 by {
            assert(rest[i] == cancels[i]);
        }
        assert forall|id: OrderId| #[trigger] l.holds.contains_key(id) implies book_laws::trimmed(
            rest,
            id,
        ) < l.holds[id].remaining_size.0 by {
            assert(book_laws::trimmed(cancels, id) < l.holds[id].remaining_size.0);
        }
        lemma_cancels_release(l, rest, steady);
        assert forall|id: OrderId|
            released(
                l.holds,
                after.holds,
                id,
                book_laws::struck(cancels, id),
                #[trigger] book_laws::trimmed(cancels, id),
            ) by {
            assert(released(
                l.holds,
                before.holds,
                id,
                book_laws::struck(rest, id),
                book_laws::trimmed(rest, id),
            ));
            assert(l.holds.contains_key(id) ==> book_laws::trimmed(cancels, id)
                < l.holds[id].remaining_size.0);
        }
        assert forall|cur: CurrencyId| steady implies #[trigger] risk_model::total_internal(after, cur)
            == risk_model::total_internal(l, cur) by {
            risk_laws::law_release_conserves(before, c.order_id, c.size_cancelled, cur);
            assert(risk_model::total_internal(before, cur) == risk_model::total_internal(l, cur));
        }
        if steady {
            risk_laws::law_release_conserves(before, c.order_id, c.size_cancelled, CurrencyId(0));
        } else {
            risk_laws::lemma_release_users(before, c.order_id, c.size_cancelled);
        }
    }
}

/// Whether a reservation stands behind so much of an order.
pub open spec fn behind(
    m: Map<OrderId, Hold>,
    spec: SymbolSpec,
    id: OrderId,
    user: UserId,
    side: Side,
    size: int,
) -> bool {
    &&& m.contains_key(id)
    &&& m[id].order_id == id
    &&& m[id].user_id == user
    &&& m[id].symbol_id == spec.symbol_id
    &&& m[id].side == side
    &&& m[id].remaining_size.0 == size
    &&& size > 0
    &&& spec.kind_params is Spot ==> risk_laws::spot_hold(m[id], spec)
    &&& !(spec.kind_params is Spot) ==> m[id].kind is Derivative && m[id].currency
        == spec.quote_currency
}

/// Whether each order of a queue has its reservation.
pub open spec fn queue_behind(m: Map<OrderId, Hold>, spec: SymbolSpec, q: Seq<RestingOrder>, side: Side) -> bool {
    forall|i: int|
        0 <= i < q.len() ==> behind(
            m,
            spec,
            (#[trigger] q[i]).order_id,
            q[i].user_id,
            side,
            book_laws::open_size(q[i]),
        )
}

/// Whether `n` has for the order with an id what `m` had, as far as matching left
/// the order.
spec fn follows(
    m: Map<OrderId, Hold>,
    n: Map<OrderId, Hold>,
    q: Seq<RestingOrder>,
    q2: Seq<RestingOrder>,
    id: OrderId,
) -> bool {
    if !book_laws::queued(q, id) {
        n.contains_key(id) == m.contains_key(id) && (m.contains_key(id) ==> risk_laws::kin(
            m[id],
            n[id],
        ) && n[id].remaining_size == m[id].remaining_size)
    } else if book_laws::queued(q2, id) {
        n.contains_key(id) && risk_laws::kin(m[id], n[id]) && n[id].remaining_size.0
            == book_laws::open_size(book_laws::pick(q2, id))
    } else {
        !n.contains_key(id)
    }
}

/// Facts about how a placed order matches that the settlement needs.
proof fn lemma_matching(b: BookModel, p: PlaceParams, id: OrderId)
    requires
        book_laws::tidy(b.queue(p.side.other())),
        !book_laws::queued(b.queue(p.side.other()), p.order_id),
        p.size.0 > 0,
    ensures
        ({
            let m = book_model::matching_of(b, p);
            let q = b.queue(p.side.other());
            &&& book_laws::tidy(m.queue)
            &&& id != p.order_id ==> book_laws::fate(q, m, id)
            &&& book_laws::traded_by(m.trades, p.order_id) == book_model::traded(m.trades)
            &&& 0 <= m.remaining
            &&& 0 <= book_model::traded(m.trades)
            &&& book_model::traded(m.trades) + m.remaining <= p.size.0
            &&& book_laws::trimmed(m.cancels, p.order_id) == 0
            &&& !book_laws::struck(m.cancels, p.order_id)
            &&& forall|i: int|
                0 <= i < m.trades.len() ==> book_laws::trade_fits(
                    book_model::taker_of(b.symbol_id, p),
                    q,
                    #[trigger] m.trades[i],
                )
            &&& forall|i: int|
                0 <= i < m.cancels.len() ==> book_laws::cancel_fits(
                    book_model::taker_of(b.symbol_id, p),
                    q,
                    #[trigger] m.cancels[i],
                )
        }),
{
    let t = book_model::taker_of(b.symbol_id, p);
    let q = b.queue(p.side.other());
    let m = book_model::matching_of(b, p);
    if p.time_in_force is PostOnly {
        if book_laws::queued(q, id) {
            let i = choose|i: int| 0 <= i < q.len() && (#[trigger] q[i]).order_id == id;
            book_laws::lemma_pick(q, i);
        }
    } else {
        if id != p.order_id {
            book_laws::lemma_fate(t, q, p.size.0 as int, id);
        } else {
            let other = OrderId(
                if p.order_id.0 == 0 {
                    1
                } else {
                    0
                },
            );
            book_laws::lemma_fate(t, q, p.size.0 as int, other);
        }
        book_laws::lemma_matched_fits(t, q, p.size.0 as int);
        book_laws::lemma_taker_traded(m.trades, p.order_id);
        book::lemma_matched_bounds(t, q, p.size.0 as int);
        lemma_untouched(t, q, m.cancels, p.order_id);
    }
}

/// Prevention does not touch an order outside the queue.
proof fn lemma_untouched(
    t: Taker,
    q: Seq<RestingOrder>,
    cancels: Seq<StpCancellation>,
    id: OrderId,
)
    requires
        !book_laws::queued(q, id),
        forall|i: int|
            0 <= i < cancels.len() ==> book_laws::cancel_fits(t, q, #[trigger] cancels[i]),
    ensures
        book_laws::trimmed(cancels, id) == 0,
        !book_laws::struck(cancels, id),
    decreases cancels.len(),
{
    if cancels.len() > 0 {
        let rest = cancels.drop_last();
        assert forall|i: int| 0 <= i < rest.len() implies book_laws::cancel_fits(
            t,
            q,
            #[trigger] rest[i],
        ) by {
            assert(rest[i] == cancels[i]);
        }
        lemma_untouched(t, q, rest, id);
        assert(book_laws::cancel_fits(t, q, cancels[cancels.len() - 1]));
    }
}

/// Settling what came of a placed order leaves each reservation in step with its
/// order.
proof fn lemma_outcome_settles(
    l: Ledger,
    b: BookModel,
    order_id: OrderId,
    p: PlaceOrder,
    now: Timestamp,
    spec: SymbolSpec,
    steady: bool,
)
    requires
        steady ==> calm(
            spec,
            book_model::outcome_of(b, model::params_of(order_id, p, now)).trades,
        ) && risk_laws::finite(l),
        l.has(risk_model::house()),
        filed(l.holds),
        book_laws::tidy(b.queue(p.side.other())),
        !book_laws::queued(b.queue(p.side.other()), order_id),
        book_model::refusal(b, model::params_of(order_id, p, now)).is_none(),
        behind(l.holds, spec, order_id, p.user_id, p.side, p.size.0 as int),
        queue_behind(l.holds, spec, b.queue(p.side.other()), p.side.other()),
        model::settle_outcome(
            l,
            order_id,
            p,
            book_model::outcome_of(b, model::params_of(order_id, p, now)),
            spec,
        ).exact,
        model::settle_failure(
            l,
            book_model::outcome_of(b, model::params_of(order_id, p, now)).trades,
            spec,
        ) is None,
    ensures
        ({
            let params = model::params_of(order_id, p, now);
            let o = book_model::outcome_of(b, params);
            let m = book_model::matching_of(b, params);
            let l2 = model::settle_outcome(l, order_id, p, o, spec);
            &&& forall|id: OrderId|
                id != order_id ==> #[trigger] follows(
                    l.holds,
                    l2.holds,
                    b.queue(p.side.other()),
                    m.queue,
                    id,
                )
            &&& o.rested ==> l2.holds.contains_key(order_id) && risk_laws::kin(
                l.holds[order_id],
                l2.holds[order_id],
            ) && l2.holds[order_id].remaining_size.0 == m.remaining
            &&& !o.rested ==> !l2.holds.contains_key(order_id)
            &&& ledger_kept(l, l2, steady)
        }),
{
    let params = model::params_of(order_id, p, now);
    let o = book_model::outcome_of(b, params);
    let m = book_model::matching_of(b, params);
    let q = b.queue(p.side.other());
    let l2 = model::settle_outcome(l, order_id, p, o, spec);
    let traded = model::settle_trades(l, o.trades, spec);
    let freed = model::release_cancelled(traded, o.stp_cancellations);
    lemma_matching(b, params, order_id);
    lemma_outcome_held(l.holds, b, order_id, p, now, spec);
    lemmas::lemma_release_exact(traded, o.stp_cancellations, 0);
    assert(o.stp_cancellations.subrange(0, 0) =~= Seq::<StpCancellation>::empty());
    lemma_trades_settle(l, o.trades, spec, steady);
    assert forall|i: int| 0 <= i < o.stp_cancellations.len() implies (
    #[trigger] o.stp_cancellations[i]).size_cancelled.0 > 0 by {
        assert(book_laws::cancel_fits(
            book_model::taker_of(b.symbol_id, params),
            q,
            m.cancels[i],
        ));
    }
    assert forall|id: OrderId| #[trigger] traded.holds.contains_key(id) implies book_laws::trimmed(
        o.stp_cancellations,
        id,
    ) < traded.holds[id].remaining_size.0 by {
        assert(risk_laws::filled(
            l.holds,
            traded.holds,
            id,
            book_laws::traded_by(o.trades, id),
        ));
        assert(l.holds.contains_key(id));
        lemma_holds_cover(l.holds, b, order_id, p, now, spec, id);
    }
    lemma_cancels_release(traded, o.stp_cancellations, steady);
    assert(risk_laws::filled(
        l.holds,
        traded.holds,
        order_id,
        book_laws::traded_by(o.trades, order_id),
    ));
    assert(released(
        traded.holds,
        freed.holds,
        order_id,
        book_laws::struck(o.stp_cancellations, order_id),
        book_laws::trimmed(o.stp_cancellations, order_id),
    ));
    let neutral = Size(model::neutralized(p, o) as i64);
    assert forall|id: OrderId| id != order_id implies #[trigger] follows(
        l.holds,
        l2.holds,
        q,
        m.queue,
        id,
    ) by {
        assert(risk_laws::filled(
            l.holds,
            traded.holds,
            id,
            book_laws::traded_by(o.trades, id),
        ));
        assert(released(
            traded.holds,
            freed.holds,
            id,
            book_laws::struck(o.stp_cancellations, id),
            book_laws::trimmed(o.stp_cancellations, id),
        ));
        lemma_matching(b, params, id);
        lemma_queue_behind(l.holds, spec, q, p.side.other(), id);
        assert(l2.holds.contains_key(id) == freed.holds.contains_key(id));
        assert(freed.holds.contains_key(id) ==> l2.holds[id] == freed.holds[id]);
        assert(l.holds.contains_key(id) ==> l.holds[id].remaining_size.0 > 0);
        lemma_holds_cover(l.holds, b, order_id, p, now, spec, id);
    }
    risk_laws::lemma_release_users(freed, order_id, neutral);
    if steady {
        assert forall|c: CurrencyId| #[trigger] risk_model::total_internal(l2, c)
            == risk_model::total_internal(l, c) by {
            risk_laws::law_release_conserves(freed, order_id, neutral, c);
            assert(risk_model::total_internal(freed, c) == risk_model::total_internal(traded, c));
            assert(risk_model::total_internal(traded, c) == risk_model::total_internal(l, c));
        }
        risk_laws::law_release_conserves(freed, order_id, neutral, CurrencyId(0));
    }
}

/// The reservations of the trades that a placed order makes are there.
pub proof fn lemma_outcome_held(
    m: Map<OrderId, Hold>,
    b: BookModel,
    order_id: OrderId,
    p: PlaceOrder,
    now: Timestamp,
    spec: SymbolSpec,
)
    requires
        filed(m),
        book_laws::tidy(b.queue(p.side.other())),
        !book_laws::queued(b.queue(p.side.other()), order_id),
        book_model::refusal(b, model::params_of(order_id, p, now)).is_none(),
        behind(m, spec, order_id, p.user_id, p.side, p.size.0 as int),
        queue_behind(m, spec, b.queue(p.side.other()), p.side.other()),
    ensures
        trades_held(
            m,
            book_model::outcome_of(b, model::params_of(order_id, p, now)).trades,
            spec,
        ),
{
    let params = model::params_of(order_id, p, now);
    let trades = book_model::outcome_of(b, params).trades;
    let q = b.queue(p.side.other());
    lemma_matching(b, params, order_id);
    assert forall|id: OrderId| #[trigger] m.contains_key(id) implies book_laws::traded_by(trades, id)
        <= m[id].remaining_size.0 by {
        lemma_holds_cover(m, b, order_id, p, now, spec, id);
    }
    assert forall|i: int| 0 <= i < trades.len() implies trade_held(m, #[trigger] trades[i], spec) by {
        let trade = trades[i];
        assert(book_laws::trade_fits(
            book_model::taker_of(b.symbol_id, params),
            q,
            book_model::matching_of(b, params).trades[i],
        ));
        let k = choose|k: int|
            0 <= k < q.len() && (#[trigger] q[k]).order_id == trade.maker_order_id;
        assert(q[k].order_id == trade.maker_order_id);
    }
}

proof fn lemma_queue_behind(
    m: Map<OrderId, Hold>,
    spec: SymbolSpec,
    q: Seq<RestingOrder>,
    side: Side,
    id: OrderId,
)
    requires
        book_laws::tidy(q),
        queue_behind(m, spec, q, side),
    ensures
        book_laws::queued(q, id) ==> behind(
            m,
            spec,
            id,
            book_laws::pick(q, id).user_id,
            side,
            book_laws::open_size(book_laws::pick(q, id)),
        ),
{
    if book_laws::queued(q, id) {
        let i = choose|i: int| 0 <= i < q.len() && (#[trigger] q[i]).order_id == id;
        book_laws::lemma_pick(q, i);
        assert(behind(m, spec, q[i].order_id, q[i].user_id, side, book_laws::open_size(q[i])));
    }
}

/// A reservation covers what matching trades of its order and what prevention
/// takes of it.
proof fn lemma_holds_cover(
    m: Map<OrderId, Hold>,
    b: BookModel,
    order_id: OrderId,
    p: PlaceOrder,
    now: Timestamp,
    spec: SymbolSpec,
    id: OrderId,
)
    requires
        filed(m),
        book_laws::tidy(b.queue(p.side.other())),
        !book_laws::queued(b.queue(p.side.other()), order_id),
        behind(m, spec, order_id, p.user_id, p.side, p.size.0 as int),
        queue_behind(m, spec, b.queue(p.side.other()), p.side.other()),
        book_model::refusal(b, model::params_of(order_id, p, now)).is_none(),
    ensures
        ({
            let o = book_model::outcome_of(b, model::params_of(order_id, p, now));
            let gone = book_laws::traded_by(o.trades, id);
            let less = book_laws::trimmed(o.stp_cancellations, id);
            &&& 0 <= gone
            &&& 0 <= less
            &&& m.contains_key(id) ==> gone <= m[id].remaining_size.0
            &&& m.contains_key(id) && gone != m[id].remaining_size.0 ==> less < m[id].remaining_size.0
                - gone
            &&& m.contains_key(id) && gone == m[id].remaining_size.0 ==> less == 0
        }),
{
    let params = model::params_of(order_id, p, now);
    lemma_matching(b, params, id);
    lemma_queue_behind(m, spec, b.queue(p.side.other()), p.side.other(), id);
    if m.contains_key(id) {
        assert(m[id].remaining_size.0 > 0);
    }
}

/// Whether an order is open: it rests in a book, or it is a stop that waits.
pub open spec fn live(e: EngineModel, id: OrderId) -> bool {
    ||| exists|s: SymbolId, side: Side|
        e.books.contains_key(s) && #[trigger] book_laws::queued(e.books[s].queue(side), id)
    ||| exists|s: SymbolId, i: int|
        0 <= i < e.pending_stops[s].len() && (#[trigger] e.pending_stops[s][i]).order_id == id
}

/// Whether an order is one of some that are on their way to the book.
pub open spec fn on_its_way(extra: Seq<PendingStop>, id: OrderId) -> bool {
    exists|i: int| 0 <= i < extra.len() && (#[trigger] extra[i]).order_id == id
}

/// Each book is filed under its symbol and as its operations keep it.
pub open spec fn books_kept(e: EngineModel) -> bool {
    forall|s: SymbolId| #[trigger]
        e.books.contains_key(s) ==> {
            &&& e.symbols.contains_key(s)
            &&& e.symbols[s].symbol_id == s
            &&& e.books[s].symbol_id == s
            &&& book_laws::kept(e.books[s])
        }
}

/// Each resting order has a reservation for exactly what is open of it.
pub open spec fn books_behind(e: EngineModel) -> bool {
    forall|s: SymbolId, side: Side, i: int| #![trigger e.books[s].queue(side)[i]]
        e.books.contains_key(s) && 0 <= i < e.books[s].queue(side).len() ==> behind(
            e.ledger.holds,
            e.symbols[s],
            e.books[s].queue(side)[i].order_id,
            e.books[s].queue(side)[i].user_id,
            side,
            book_laws::open_size(e.books[s].queue(side)[i]),
        )
}

/// Whether a stop has its reservation.
pub open spec fn stop_behind(m: Map<OrderId, Hold>, spec: SymbolSpec, stop: PendingStop) -> bool {
    behind(
        m,
        spec,
        stop.order_id,
        stop.place_order.user_id,
        stop.place_order.side,
        stop.place_order.size.0 as int,
    )
}

/// Each waiting stop has a reservation for its whole size.
pub open spec fn stops_behind(e: EngineModel) -> bool {
    forall|s: SymbolId, i: int| #![trigger e.pending_stops[s][i]]
        0 <= i < e.pending_stops[s].len() ==> stop_behind(
            e.ledger.holds,
            e.symbols[s],
            e.pending_stops[s][i],
        )
}

/// Orders on their way to the book have their reservations, and no other order
/// shares their ids.
pub open spec fn extra_behind(e: EngineModel, extra: Seq<PendingStop>) -> bool {
    &&& forall|i: int|
        0 <= i < extra.len() ==> {
            &&& e.symbols.contains_key((#[trigger] extra[i]).place_order.symbol_id)
            &&& stop_behind(e.ledger.holds, e.symbols[extra[i].place_order.symbol_id], extra[i])
            &&& !live(e, extra[i].order_id)
        }
    &&& forall|i: int, j: int| #![trigger extra[i], extra[j]]
        0 <= i < j < extra.len() ==> extra[i].order_id != extra[j].order_id
}

/// Each reservation belongs to an open order, or one on its way, and to a user.
pub open spec fn no_stray(e: EngineModel, extra: Seq<PendingStop>) -> bool {
    forall|id: OrderId| #[trigger]
        e.ledger.holds.contains_key(id) ==> {
            &&& live(e, id) || on_its_way(extra, id)
            &&& e.ledger.has(e.ledger.holds[id].user_id)
        }
}

/// Reservations and open orders match one to one, some orders being on their
/// way to the book.
pub open spec fn backed_but(e: EngineModel, extra: Seq<PendingStop>) -> bool {
    &&& e.ledger.has(risk_model::house())
    &&& filed(e.ledger.holds)
    &&& books_kept(e)
    &&& books_behind(e)
    &&& stops_behind(e)
    &&& extra_behind(e, extra)
    &&& no_stray(e, extra)
}

/// Reservations and open orders match one to one: every open order has a
/// reservation for exactly its open size, and every reservation an open order.
pub open spec fn backed(e: EngineModel) -> bool {
    backed_but(e, Seq::empty())
}

/// An order that rests somewhere has a reservation that says where.
proof fn lemma_queued_behind(e: EngineModel, s: SymbolId, side: Side, id: OrderId)
    requires
        books_kept(e),
        books_behind(e),
        e.books.contains_key(s),
        book_laws::queued(e.books[s].queue(side), id),
    ensures
        live(e, id),
        e.ledger.holds.contains_key(id),
        e.ledger.holds[id].symbol_id == s,
        e.ledger.holds[id].side == side,
{
    let q = e.books[s].queue(side);
    let i = choose|i: int| 0 <= i < q.len() && (#[trigger] q[i]).order_id == id;
    assert(e.books[s].queue(side)[i].order_id == id);
}

/// The side that the order was matched against stays in step with its
/// reservations.
proof fn lemma_makers_behind(
    m: Map<OrderId, Hold>,
    n: Map<OrderId, Hold>,
    spec: SymbolSpec,
    b: BookModel,
    p: PlaceParams,
    i: int,
)
    requires
        book_laws::kept(b),
        !b.has_order(p.order_id),
        book_model::refusal(b, p).is_none(),
        queue_behind(m, spec, b.queue(p.side.other()), p.side.other()),
        forall|id: OrderId|
            id != p.order_id ==> #[trigger] follows(
                m,
                n,
                b.queue(p.side.other()),
                book_model::matching_of(b, p).queue,
                id,
            ),
        0 <= i < book_model::matching_of(b, p).queue.len(),
    ensures
        ({
            let o = book_model::matching_of(b, p).queue[i];
            behind(n, spec, o.order_id, o.user_id, p.side.other(), book_laws::open_size(o))
        }),
{
    let q = b.queue(p.side.other());
    let mm = book_model::matching_of(b, p);
    let o = mm.queue[i];
    book_laws::lemma_tidy(b, p.side.other());
    book_laws::lemma_not_queued(b, p.order_id);
    assert(book_laws::queued(mm.queue, o.order_id));
    book_laws::lemma_placed(b, p, o.order_id);
    assert(!book_laws::queued(q, p.order_id));
    assert(o.order_id != p.order_id);
    lemma_matching(b, p, o.order_id);
    book_laws::lemma_pick(mm.queue, i);
    lemma_queue_behind(m, spec, q, p.side.other(), o.order_id);
    assert(follows(m, n, q, mm.queue, o.order_id));
}

/// What a book and its reservations hold of an order that is on its way.
pub proof fn lemma_apply_held(
    e: EngineModel,
    extra: Seq<PendingStop>,
    order_id: OrderId,
    p: PlaceOrder,
    now: Timestamp,
)
    requires
        e.sound(),
        backed_but(e, extra),
        extra.len() > 0,
        extra[0].order_id == order_id,
        extra[0].place_order.user_id == p.user_id,
        extra[0].place_order.symbol_id == p.symbol_id,
        extra[0].place_order.side == p.side,
        extra[0].place_order.size == p.size,
    ensures
        ({
            let b = e.books[p.symbol_id];
            let spec = e.symbols[p.symbol_id];
            let q = b.queue(p.side.other());
            &&& e.books.contains_key(p.symbol_id)
            &&& e.symbols.contains_key(p.symbol_id)
            &&& !live(e, order_id)
            &&& !b.has_order(order_id)
            &&& !book_laws::queued(q, order_id)
            &&& book_laws::tidy(q)
            &&& queue_behind(e.ledger.holds, spec, q, p.side.other())
            &&& stop_behind(e.ledger.holds, spec, extra[0])
            &&& trades_held(
                e.ledger.holds,
                book_model::outcome_of(b, model::params_of(order_id, p, now)).trades,
                spec,
            )
        }),
{
    let s = p.symbol_id;
    let spec = e.symbols[s];
    let b = e.books[s];
    let m = e.ledger.holds;
    let q = b.queue(p.side.other());
    let params = model::params_of(order_id, p, now);
    assert(e.symbols.contains_key(extra[0].place_order.symbol_id));
    assert(e.symbols.dom().contains(s));
    assert(e.books.contains_key(s) && e.symbols.contains_key(s));
    assert(!live(e, order_id));
    assert(stop_behind(m, spec, extra[0]));
    assert(!b.has_order(order_id)) by {
        if b.has_order(order_id) {
            let (side, i) = choose|side: Side, i: int| #[trigger] b.rests_at(side, i, order_id);
            assert(b.queue(side)[i].order_id == order_id);
            assert(book_laws::queued(e.books[s].queue(side), order_id));
        }
    }
    book_laws::lemma_not_queued(b, order_id);
    book_laws::lemma_tidy(b, p.side.other());
    assert(queue_behind(m, spec, q, p.side.other())) by {
        assert forall|i: int| 0 <= i < q.len() implies behind(
            m,
            spec,
            (#[trigger] q[i]).order_id,
            q[i].user_id,
            p.side.other(),
            book_laws::open_size(q[i]),
        ) by {
            assert(e.books[s].queue(p.side.other())[i] == q[i]);
        }
    }
    if book_model::refusal(b, params).is_none() {
        lemma_outcome_held(m, b, order_id, p, now, spec);
    } else {
        let trades = book_model::outcome_of(b, params).trades;
        assert(trades.len() == 0);
        assert forall|id: OrderId| #[trigger] m.contains_key(id) implies book_laws::traded_by(
            trades,
            id,
        ) <= m[id].remaining_size.0 by {
            assert(m[id].remaining_size.0 > 0);
        }
    }
}

/// Placing an order that is on its way, and settling what came of it, keeps
/// reservations and open orders matched. Without a derivative trade it keeps every total.
proof fn lemma_apply_backed(
    e: EngineModel,
    extra: Seq<PendingStop>,
    order_id: OrderId,
    p: PlaceOrder,
    now: Timestamp,
    steady: bool,
)
    requires
        e.sound(),
        backed_but(e, extra),
        extra.len() > 0,
        extra[0].order_id == order_id,
        extra[0].place_order.user_id == p.user_id,
        extra[0].place_order.symbol_id == p.symbol_id,
        extra[0].place_order.side == p.side,
        extra[0].place_order.size == p.size,
        steady ==> calm(
            e.symbols[p.symbol_id],
            model::trades_of(
                model::apply_to_book(e, order_id, p, e.symbols[p.symbol_id], now).2,
            ),
        ) && risk_laws::finite(e.ledger),
        model::apply_to_book(e, order_id, p, e.symbols[p.symbol_id], now).0.settled(),
    ensures
        ({
            let f = model::apply_to_book(e, order_id, p, e.symbols[p.symbol_id], now).0;
            &&& backed_but(f, extra.drop_first())
            &&& ledger_kept(e.ledger, f.ledger, steady)
        }),
{
    let s = p.symbol_id;
    let spec = e.symbols[s];
    let b = e.books[s];
    let params = model::params_of(order_id, p, now);
    let f = model::apply_to_book(e, order_id, p, spec, now).0;
    let m = e.ledger.holds;
    let n = f.ledger.holds;
    let q = b.queue(p.side.other());
    lemma_apply_held(e, extra, order_id, p, now);
    let e1 = e.with_book(s, book_model::book_after_place(b, params)).claim(
        book_model::can_rest(b, params),
    );
    lemmas::lemma_apply_trades(e, order_id, p, spec, now);
    if book_model::refusal(b, params).is_none() {
        lemma_outcome_settles(e1.ledger, b, order_id, p, now, spec, steady);
        lemma_ledger_same(e.ledger, e1.ledger);
        lemma_settled_backed(e, f, extra, order_id, p, now);
    } else {
        assert(f.books =~= e.books);
        assert(n =~= m.remove(order_id));
        risk_laws::lemma_release_users(e1.ledger, order_id, p.size);
        if steady {
            lemma_ledger_same(e.ledger, e1.ledger);
            assert forall|c: CurrencyId| #[trigger] risk_model::total_internal(f.ledger, c)
                == risk_model::total_internal(e.ledger, c) by {
                risk_laws::law_release_conserves(e1.ledger, order_id, p.size, c);
            }
            risk_laws::law_release_conserves(e1.ledger, order_id, p.size, CurrencyId(0));
        }
        lemma_dropped_backed(e, f, extra);
    }
}

/// A claim about the machine changes nothing else.
proof fn lemma_ledger_same(l: Ledger, k: Ledger)
    requires
        k.accounts == l.accounts,
        k.holds == l.holds,
    ensures
        forall|c: CurrencyId| #[trigger]
            risk_model::total_internal(k, c) == risk_model::total_internal(l, c),
{
}

/// An order on its way that the book refuses leaves, and its reservation with
/// it.
proof fn lemma_dropped_backed(e: EngineModel, f: EngineModel, extra: Seq<PendingStop>)
    requires
        backed_but(e, extra),
        extra.len() > 0,
        f.books == e.books,
        f.symbols == e.symbols,
        f.pending_stops == e.pending_stops,
        f.ledger.holds == e.ledger.holds.remove(extra[0].order_id),
        f.ledger.accounts.dom() == e.ledger.accounts.dom(),
    ensures
        backed_but(f, extra.drop_first()),
{
    let id0 = extra[0].order_id;
    let rest = extra.drop_first();
    assert(!live(e, id0));
    assert forall|id: OrderId| live(e, id) == live(f, id) by {}
    assert(books_behind(f)) by {
        assert forall|s: SymbolId, side: Side, i: int| #![trigger f.books[s].queue(side)[i]]
            f.books.contains_key(s) && 0 <= i < f.books[s].queue(side).len() implies behind(
            f.ledger.holds,
            f.symbols[s],
            f.books[s].queue(side)[i].order_id,
            f.books[s].queue(side)[i].user_id,
            side,
            book_laws::open_size(f.books[s].queue(side)[i]),
        ) by {
            let o = e.books[s].queue(side)[i];
            assert(book_laws::queued(e.books[s].queue(side), o.order_id));
        }
    }
    assert(stops_behind(f)) by {
        assert forall|s: SymbolId, i: int| #![trigger f.pending_stops[s][i]]
            0 <= i < f.pending_stops[s].len() implies stop_behind(
            f.ledger.holds,
            f.symbols[s],
            f.pending_stops[s][i],
        ) by {
            assert(e.pending_stops[s][i].order_id != id0);
        }
    }
    assert forall|i: int| 0 <= i < rest.len() implies {
        &&& f.symbols.contains_key((#[trigger] rest[i]).place_order.symbol_id)
        &&& stop_behind(f.ledger.holds, f.symbols[rest[i].place_order.symbol_id], rest[i])
        &&& !live(f, rest[i].order_id)
    } by {
        assert(rest[i] == extra[i + 1]);
        assert(extra[0].order_id != extra[i + 1].order_id);
        assert(!live(e, extra[i + 1].order_id));
    }
    assert forall|i: int, j: int| #![trigger rest[i], rest[j]]
        0 <= i < j < rest.len() implies rest[i].order_id != rest[j].order_id by {
        assert(extra[i + 1].order_id != extra[j + 1].order_id);
    }
    assert forall|id: OrderId| #[trigger] f.ledger.holds.contains_key(id) implies {
        &&& live(f, id) || on_its_way(rest, id)
        &&& f.ledger.has(f.ledger.holds[id].user_id)
    } by {
        assert(e.ledger.holds.contains_key(id));
        if !live(e, id) {
            let i = choose|i: int| 0 <= i < extra.len() && (#[trigger] extra[i]).order_id == id;
            assert(rest[i - 1] == extra[i]);
        }
        assert(e.ledger.has(e.ledger.holds[id].user_id));
    }
}

/// The matching of reservations and open orders after a book took an order and
/// what came of it was settled.
proof fn lemma_settled_backed(
    e: EngineModel,
    f: EngineModel,
    extra: Seq<PendingStop>,
    order_id: OrderId,
    p: PlaceOrder,
    now: Timestamp,
)
    requires
        e.sound(),
        backed_but(e, extra),
        extra.len() > 0,
        extra[0].order_id == order_id,
        extra[0].place_order.user_id == p.user_id,
        extra[0].place_order.symbol_id == p.symbol_id,
        extra[0].place_order.side == p.side,
        extra[0].place_order.size == p.size,
        !e.books[p.symbol_id].has_order(order_id),
        book_model::refusal(e.books[p.symbol_id], model::params_of(order_id, p, now)).is_none(),
        f.books == e.books.insert(
            p.symbol_id,
            book_model::book_after_place(
                e.books[p.symbol_id],
                model::params_of(order_id, p, now),
            ),
        ),
        f.symbols == e.symbols,
        f.pending_stops == e.pending_stops,
        f.ledger.accounts.dom() == e.ledger.accounts.dom(),
        ({
            let b = e.books[p.symbol_id];
            let params = model::params_of(order_id, p, now);
            let o = book_model::outcome_of(b, params);
            let m = book_model::matching_of(b, params);
            &&& forall|id: OrderId|
                id != order_id ==> #[trigger] follows(
                    e.ledger.holds,
                    f.ledger.holds,
                    b.queue(p.side.other()),
                    m.queue,
                    id,
                )
            &&& o.rested ==> f.ledger.holds.contains_key(order_id) && risk_laws::kin(
                e.ledger.holds[order_id],
                f.ledger.holds[order_id],
            ) && f.ledger.holds[order_id].remaining_size.0 == m.remaining
            &&& !o.rested ==> !f.ledger.holds.contains_key(order_id)
        }),
    ensures
        backed_but(f, extra.drop_first()),
{
    let s = p.symbol_id;
    let spec = e.symbols[s];
    let b = e.books[s];
    let params = model::params_of(order_id, p, now);
    let mm = book_model::matching_of(b, params);
    let o = book_model::outcome_of(b, params);
    let m = e.ledger.holds;
    let n = f.ledger.holds;
    let rest = extra.drop_first();
    let q = b.queue(p.side.other());
    assert(e.books.contains_key(s) && e.symbols.contains_key(s));
    assert(!live(e, order_id));
    assert(stop_behind(m, spec, extra[0]));
    book_laws::lemma_not_queued(b, order_id);
    book_laws::lemma_tidy(b, p.side.other());
    book_laws::law_place_keeps_book(b, params);
    book_laws::lemma_placed(b, params, order_id);
    assert(books_kept(f)) by {
        assert forall|t: SymbolId| #[trigger] f.books.contains_key(t) implies {
            &&& f.symbols.contains_key(t)
            &&& f.symbols[t].symbol_id == t
            &&& f.books[t].symbol_id == t
            &&& book_laws::kept(f.books[t])
        } by {
            assert(e.books.contains_key(t));
        }
    }
    assert(queue_behind(m, spec, q, p.side.other())) by {
        assert forall|i: int| 0 <= i < q.len() implies behind(
            m,
            spec,
            (#[trigger] q[i]).order_id,
            q[i].user_id,
            p.side.other(),
            book_laws::open_size(q[i]),
        ) by {
            assert(e.books[s].queue(p.side.other())[i] == q[i]);
        }
    }
    assert forall|t: SymbolId, side: Side, id: OrderId|
        e.books.contains_key(t) && #[trigger] book_laws::queued(e.books[t].queue(side), id) && (t
            != s || side != p.side.other()) implies id != order_id && !book_laws::queued(q, id)
        && m.contains_key(id) && n.contains_key(id) && risk_laws::kin(m[id], n[id])
        && n[id].remaining_size == m[id].remaining_size by {
        lemma_queued_behind(e, t, side, id);
        if book_laws::queued(q, id) {
            lemma_queued_behind(e, s, p.side.other(), id);
        }
        assert(follows(m, n, q, mm.queue, id));
    }
    assert(books_behind(f)) by {
        assert forall|t: SymbolId, side: Side, i: int| #![trigger f.books[t].queue(side)[i]]
            f.books.contains_key(t) && 0 <= i < f.books[t].queue(side).len() implies behind(
            n,
            f.symbols[t],
            f.books[t].queue(side)[i].order_id,
            f.books[t].queue(side)[i].user_id,
            side,
            book_laws::open_size(f.books[t].queue(side)[i]),
        ) by {
            let x = f.books[t].queue(side)[i];
            if t == s && side == p.side.other() {
                lemma_makers_behind(m, n, spec, b, params, i);
            } else if t == s {
                lemma_own_behind(e, n, order_id, p, now, i);
            } else {
                assert(e.books[t].queue(side)[i] == x);
                assert(book_laws::queued(e.books[t].queue(side), x.order_id));
            }
        }
    }
    assert forall|id: OrderId| live(f, id) implies id == order_id || live(e, id) by {
        if exists|t: SymbolId, side: Side|
            f.books.contains_key(t) && #[trigger] book_laws::queued(f.books[t].queue(side), id) {
            let (t, side) = choose|t: SymbolId, side: Side|
                f.books.contains_key(t) && #[trigger] book_laws::queued(f.books[t].queue(side), id);
            book_laws::lemma_placed(b, params, id);
            assert(e.books.contains_key(t));
            if t == s {
                if side == p.side {
                    assert(id == order_id || book_laws::queued(e.books[t].queue(side), id));
                } else {
                    assert(side == p.side.other());
                    assert(book_laws::queued(e.books[t].queue(side), id));
                }
            } else {
                assert(book_laws::queued(e.books[t].queue(side), id));
            }
        }
    }
    assert(stops_behind(f)) by {
        assert forall|t: SymbolId, i: int| #![trigger f.pending_stops[t][i]]
            0 <= i < f.pending_stops[t].len() implies stop_behind(
            n,
            f.symbols[t],
            f.pending_stops[t][i],
        ) by {
            let id = e.pending_stops[t][i].order_id;
            assert(live(e, id));
            assert(!book_laws::queued(q, id)) by {
                if book_laws::queued(q, id) {
                    let k = choose|k: int| 0 <= k < q.len() && (#[trigger] q[k]).order_id == id;
                    assert(e.books[s].queue(p.side.other())[k].order_id == id);
                }
            }
            assert(follows(m, n, q, mm.queue, id));
        }
    }
    assert forall|i: int| 0 <= i < rest.len() implies {
        &&& f.symbols.contains_key((#[trigger] rest[i]).place_order.symbol_id)
        &&& stop_behind(n, f.symbols[rest[i].place_order.symbol_id], rest[i])
        &&& !live(f, rest[i].order_id)
    } by {
        assert(rest[i] == extra[i + 1]);
        let id = extra[i + 1].order_id;
        assert(extra[0].order_id != id);
        assert(!live(e, id));
        assert(!book_laws::queued(q, id)) by {
            if book_laws::queued(q, id) {
                assert(book_laws::queued(e.books[s].queue(p.side.other()), id));
            }
        }
        assert(follows(m, n, q, mm.queue, id));
    }
    assert forall|i: int, j: int| #![trigger rest[i], rest[j]]
        0 <= i < j < rest.len() implies rest[i].order_id != rest[j].order_id by {
        assert(extra[i + 1].order_id != extra[j + 1].order_id);
    }
    assert forall|id: OrderId| #[trigger] n.contains_key(id) implies {
        &&& live(f, id) || on_its_way(rest, id)
        &&& f.ledger.has(n[id].user_id)
        &&& n[id].order_id == id
        &&& n[id].remaining_size.0 > 0
    } by {
        lemma_stays_accounted(e, f, extra, order_id, p, now, id);
    }
}

/// What rests on the side of a placed order has its reservation.
proof fn lemma_own_behind(
    e: EngineModel,
    n: Map<OrderId, Hold>,
    order_id: OrderId,
    p: PlaceOrder,
    now: Timestamp,
    i: int,
)
    requires
        books_behind(e),
        e.books.contains_key(p.symbol_id),
        book_laws::kept(e.books[p.symbol_id]),
        behind(
            e.ledger.holds,
            e.symbols[p.symbol_id],
            order_id,
            p.user_id,
            p.side,
            p.size.0 as int,
        ),
        book_model::refusal(e.books[p.symbol_id], model::params_of(order_id, p, now)).is_none(),
        0 <= i < book_model::book_after_place(
            e.books[p.symbol_id],
            model::params_of(order_id, p, now),
        ).queue(p.side).len(),
        forall|id: OrderId|
            #[trigger] book_laws::queued(e.books[p.symbol_id].queue(p.side), id)
                ==> n.contains_key(id) && risk_laws::kin(e.ledger.holds[id], n[id])
                && n[id].remaining_size == e.ledger.holds[id].remaining_size,
        ({
            let b = e.books[p.symbol_id];
            let params = model::params_of(order_id, p, now);
            let m = book_model::matching_of(b, params);
            book_model::outcome_of(b, params).rested ==> n.contains_key(order_id)
                && risk_laws::kin(e.ledger.holds[order_id], n[order_id])
                && n[order_id].remaining_size.0 == m.remaining
        }),
    ensures
        ({
            let x = book_model::book_after_place(
                e.books[p.symbol_id],
                model::params_of(order_id, p, now),
            ).queue(p.side)[i];
            behind(
                n,
                e.symbols[p.symbol_id],
                x.order_id,
                x.user_id,
                p.side,
                book_laws::open_size(x),
            )
        }),
{
    let b = e.books[p.symbol_id];
    let params = model::params_of(order_id, p, now);
    let m = book_model::matching_of(b, params);
    let own = b.queue(p.side);
    let o = book_model::resting_of(params, m.remaining);
    let slot = book_model::slot_of(own, book_laws::rank(o));
    book_laws::lemma_slot_range(own, book_laws::rank(o));
    book::lemma_matched_bounds(
        book_model::taker_of(b.symbol_id, params),
        b.queue(p.side.other()),
        p.size.0 as int,
    );
    if book_model::outcome_of(b, params).rested && i == slot {
    } else {
        let k = if book_model::outcome_of(b, params).rested && i > slot {
            i - 1
        } else {
            i
        };
        let x = e.books[p.symbol_id].queue(p.side)[k];
        assert(book_laws::queued(e.books[p.symbol_id].queue(p.side), x.order_id));
    }
}

/// A reservation that a settlement leaves belongs to an order that is still
/// open or on its way.
proof fn lemma_stays_accounted(
    e: EngineModel,
    f: EngineModel,
    extra: Seq<PendingStop>,
    order_id: OrderId,
    p: PlaceOrder,
    now: Timestamp,
    id: OrderId,
)
    requires
        backed_but(e, extra),
        extra.len() > 0,
        extra[0].order_id == order_id,
        stop_behind(e.ledger.holds, e.symbols[p.symbol_id], extra[0]),
        e.books.contains_key(p.symbol_id),
        !e.books[p.symbol_id].has_order(order_id),
        book_model::refusal(e.books[p.symbol_id], model::params_of(order_id, p, now)).is_none(),
        f.books == e.books.insert(
            p.symbol_id,
            book_model::book_after_place(
                e.books[p.symbol_id],
                model::params_of(order_id, p, now),
            ),
        ),
        f.pending_stops == e.pending_stops,
        f.ledger.accounts.dom() == e.ledger.accounts.dom(),
        f.ledger.holds.contains_key(id),
        ({
            let b = e.books[p.symbol_id];
            let params = model::params_of(order_id, p, now);
            let o = book_model::outcome_of(b, params);
            let m = book_model::matching_of(b, params);
            &&& id != order_id ==> follows(
                e.ledger.holds,
                f.ledger.holds,
                b.queue(p.side.other()),
                m.queue,
                id,
            )
            &&& id == order_id ==> o.rested && risk_laws::kin(
                e.ledger.holds[order_id],
                f.ledger.holds[order_id],
            ) && f.ledger.holds[order_id].remaining_size.0 == m.remaining
        }),
    ensures
        live(f, id) || on_its_way(extra.drop_first(), id),
        f.ledger.has(f.ledger.holds[id].user_id),
        f.ledger.holds[id].order_id == id,
        f.ledger.holds[id].remaining_size.0 > 0,
{
    let s = p.symbol_id;
    let b = e.books[s];
    let params = model::params_of(order_id, p, now);
    let mm = book_model::matching_of(b, params);
    let q = b.queue(p.side.other());
    let m = e.ledger.holds;
    let rest = extra.drop_first();
    book_laws::lemma_placed(b, params, id);
    book_laws::lemma_tidy(b, p.side.other());
    assert(f.books.contains_key(s));
    if id == order_id {
        assert(m.contains_key(id));
        assert(book_laws::queued(f.books[s].queue(p.side), id));
    } else if book_laws::queued(q, id) {
        lemma_queued_behind(e, s, p.side.other(), id);
        assert(book_laws::queued(mm.queue, id));
        assert(book_laws::queued(f.books[s].queue(p.side.other()), id));
        book_laws::lemma_not_queued(b, order_id);
        lemma_matching(b, params, id);
    } else {
        assert(m.contains_key(id));
        if live(e, id) {
            if exists|t: SymbolId, side: Side|
                e.books.contains_key(t) && #[trigger] book_laws::queued(
                    e.books[t].queue(side),
                    id,
                ) {
                let (t, side) = choose|t: SymbolId, side: Side|
                    e.books.contains_key(t) && #[trigger] book_laws::queued(
                        e.books[t].queue(side),
                        id,
                    );
                assert(f.books.contains_key(t));
                if t == s {
                    assert(side == p.side);
                    assert(book_laws::queued(f.books[t].queue(side), id));
                } else {
                    assert(book_laws::queued(f.books[t].queue(side), id));
                }
            } else {
                let (t, i) = choose|t: SymbolId, i: int|
                    0 <= i < e.pending_stops[t].len() && (
                    #[trigger] e.pending_stops[t][i]).order_id == id;
                assert(f.pending_stops[t][i].order_id == id);
            }
        } else {
            let i = choose|i: int| 0 <= i < extra.len() && (#[trigger] extra[i]).order_id == id;
            assert(rest[i - 1] == extra[i]);
        }
    }
}

/// Nothing is open under an id that is not used.
pub proof fn lemma_unused_not_live(e: EngineModel, id: OrderId)
    requires
        lemmas::unused(e, id),
    ensures
        !live(e, id),
{
    if live(e, id) {
        if exists|s: SymbolId, side: Side|
            e.books.contains_key(s) && #[trigger] book_laws::queued(e.books[s].queue(side), id) {
            let (s, side) = choose|s: SymbolId, side: Side|
                e.books.contains_key(s) && #[trigger] book_laws::queued(
                    e.books[s].queue(side),
                    id,
                );
            assert(!book_laws::queued(e.books[s].queue(side), id));
        }
    }
}

/// The same symbols but for suspensions.
pub open spec fn specs_alike(a: Map<SymbolId, SymbolSpec>, b: Map<SymbolId, SymbolSpec>) -> bool {
    &&& a.dom() == b.dom()
    &&& forall|s: SymbolId| #[trigger]
        a.contains_key(s) ==> b[s] == SymbolSpec { is_suspended: b[s].is_suspended, ..a[s] }
}

/// A step that touches neither books nor reservations keeps them matched.
pub proof fn lemma_untouched_backed(e: EngineModel, f: EngineModel, extra: Seq<PendingStop>)
    requires
        e.sound(),
        backed_but(e, extra),
        f.books == e.books,
        f.pending_stops == e.pending_stops,
        specs_alike(e.symbols, f.symbols),
        f.ledger.holds == e.ledger.holds,
        e.ledger.accounts.dom().subset_of(f.ledger.accounts.dom()),
    ensures
        backed_but(f, extra),
{
    assert forall|id: OrderId| live(e, id) == live(f, id) by {}
    assert forall|s: SymbolId| #[trigger] f.books.contains_key(s) implies {
        &&& f.symbols.contains_key(s)
        &&& f.symbols[s].symbol_id == s
        &&& f.books[s].symbol_id == s
        &&& book_laws::kept(f.books[s])
    } by {
        assert(e.books.contains_key(s) && e.symbols.contains_key(s));
    }
    assert(books_behind(f)) by {
        assert forall|s: SymbolId, side: Side, i: int| #![trigger f.books[s].queue(side)[i]]
            f.books.contains_key(s) && 0 <= i < f.books[s].queue(side).len() implies behind(
            f.ledger.holds,
            f.symbols[s],
            f.books[s].queue(side)[i].order_id,
            f.books[s].queue(side)[i].user_id,
            side,
            book_laws::open_size(f.books[s].queue(side)[i]),
        ) by {
            assert(e.symbols.contains_key(s));
            assert(e.books[s].queue(side)[i] == f.books[s].queue(side)[i]);
        }
    }
    assert(stops_behind(f)) by {
        assert forall|s: SymbolId, i: int| #![trigger f.pending_stops[s][i]]
            0 <= i < f.pending_stops[s].len() implies stop_behind(
            f.ledger.holds,
            f.symbols[s],
            f.pending_stops[s][i],
        ) by {
            assert(0 <= i < e.pending_stops[s].len());
            assert(model::stop_ok(e.pending_stops[s][i], s));
            assert(e.symbols.contains_key(s));
        }
    }
    assert forall|i: int| 0 <= i < extra.len() implies {
        &&& f.symbols.contains_key((#[trigger] extra[i]).place_order.symbol_id)
        &&& stop_behind(f.ledger.holds, f.symbols[extra[i].place_order.symbol_id], extra[i])
        &&& !live(f, extra[i].order_id)
    } by {
        assert(e.symbols.contains_key(extra[i].place_order.symbol_id));
        assert(!live(e, extra[i].order_id));
    }
    assert forall|id: OrderId| #[trigger] f.ledger.holds.contains_key(id) implies {
        &&& live(f, id) || on_its_way(extra, id)
        &&& f.ledger.has(f.ledger.holds[id].user_id)
    } by {
        assert(e.ledger.holds.contains_key(id));
        assert(e.ledger.accounts.dom().contains(e.ledger.holds[id].user_id));
    }
}

/// What a passed check reserves for an order stands behind its whole size.
proof fn lemma_check_reserves(l: Ledger, p: PlaceOrder, spec: SymbolSpec, order_id: OrderId)
    requires
        spec.symbol_id == p.symbol_id,
    ensures
        ({
            let (k, r) = risk_model::pre_check_place(l, p, spec, order_id);
            &&& k.accounts.dom() == l.accounts.dom()
            &&& r is Err ==> k.holds == l.holds
            &&& r is Ok ==> {
                &&& behind(k.holds, spec, order_id, p.user_id, p.side, p.size.0 as int)
                &&& l.has(p.user_id)
                &&& k.holds == l.holds.insert(order_id, k.holds[order_id])
                &&& p.price.is_some()
            }
        }),
{
    let (k, r) = risk_model::pre_check_place(l, p, spec, order_id);
    assert(k.accounts.dom() =~= l.accounts.dom());
    if r is Ok {
        assert(k.holds =~= l.holds.insert(order_id, k.holds[order_id]));
    }
}

/// An order that passes its check is on its way to the book.
pub proof fn lemma_checked_backed(e: EngineModel, order_id: OrderId, p: PlaceOrder, steady: bool)
    requires
        e.sound(),
        backed(e),
        !live(e, order_id),
        e.symbols.contains_key(p.symbol_id),
        steady ==> risk_laws::finite(e.ledger),
    ensures
        ({
            let (l, r) = risk_model::pre_check_place(
                e.ledger,
                p,
                e.symbols[p.symbol_id],
                order_id,
            );
            &&& r is Ok ==> backed_but(
                e.with_ledger(l),
                seq![PendingStop { order_id, place_order: p }],
            )
            &&& r is Err ==> backed(e.with_ledger(l))
            &&& ledger_kept(e.ledger, l, steady)
        }),
{
    let spec = e.symbols[p.symbol_id];
    let (l, r) = risk_model::pre_check_place(e.ledger, p, spec, order_id);
    let f = e.with_ledger(l);
    let m = e.ledger.holds;
    let n = l.holds;
    assert(e.books.contains_key(p.symbol_id));
    lemma_check_reserves(e.ledger, p, spec, order_id);
    if steady {
        assert forall|c: CurrencyId| #[trigger] risk_model::total_internal(l, c)
            == risk_model::total_internal(e.ledger, c) by {
            risk_laws::law_pre_check_conserves(e.ledger, p, spec, order_id, c);
        }
        risk_laws::law_pre_check_conserves(e.ledger, p, spec, order_id, CurrencyId(0));
    }
    if r is Err {
        lemma_untouched_backed(e, f, Seq::empty());
    } else {
        let extra = seq![PendingStop { order_id, place_order: p }];
        assert(!m.contains_key(order_id)) by {
            if m.contains_key(order_id) {
                assert(live(e, order_id) || on_its_way(Seq::empty(), order_id));
            }
        }
        assert forall|id: OrderId| live(e, id) == live(f, id) by {}
        assert(books_behind(f)) by {
            assert forall|s: SymbolId, side: Side, i: int| #![trigger f.books[s].queue(side)[i]]
                f.books.contains_key(s) && 0 <= i < f.books[s].queue(side).len() implies behind(
                n,
                f.symbols[s],
                f.books[s].queue(side)[i].order_id,
                f.books[s].queue(side)[i].user_id,
                side,
                book_laws::open_size(f.books[s].queue(side)[i]),
            ) by {
                assert(e.books[s].queue(side)[i] == f.books[s].queue(side)[i]);
            }
        }
        assert(stops_behind(f)) by {
            assert forall|s: SymbolId, i: int| #![trigger f.pending_stops[s][i]]
                0 <= i < f.pending_stops[s].len() implies stop_behind(
                n,
                f.symbols[s],
                f.pending_stops[s][i],
            ) by {
                assert(e.pending_stops[s][i] == f.pending_stops[s][i]);
            }
        }
        assert(extra_behind(f, extra)) by {
            assert(!live(f, order_id));
        }
        assert forall|id: OrderId| #[trigger] n.contains_key(id) implies {
            &&& live(f, id) || on_its_way(extra, id)
            &&& l.has(n[id].user_id)
            &&& n[id].order_id == id
            &&& n[id].remaining_size.0 > 0
        } by {
            if id == order_id {
                assert(extra[0].order_id == id);
            } else {
                assert(m.contains_key(id));
                assert(!on_its_way(Seq::empty(), id));
                assert(e.ledger.has(m[id].user_id));
            }
        }
    }
}

/// A stop on its way that is to wait is filed with the others.
proof fn lemma_stop_backed(e: EngineModel, stop: PendingStop)
    requires
        backed_but(e, seq![stop]),
    ensures
        backed(
            e.with_stops(
                stop.place_order.symbol_id,
                e.pending_stops[stop.place_order.symbol_id].push(stop),
            ),
        ),
{
    let extra = seq![stop];
    let s = stop.place_order.symbol_id;
    let old_stops = e.pending_stops[s];
    let f = e.with_stops(s, old_stops.push(stop));
    assert(extra[0] == stop);
    assert(books_behind(f)) by {
        assert forall|t: SymbolId, side: Side, i: int| #![trigger f.books[t].queue(side)[i]]
            f.books.contains_key(t) && 0 <= i < f.books[t].queue(side).len() implies behind(
            f.ledger.holds,
            f.symbols[t],
            f.books[t].queue(side)[i].order_id,
            f.books[t].queue(side)[i].user_id,
            side,
            book_laws::open_size(f.books[t].queue(side)[i]),
        ) by {
            assert(e.books[t].queue(side)[i] == f.books[t].queue(side)[i]);
        }
    }
    assert(stops_behind(f)) by {
        assert forall|t: SymbolId, i: int| #![trigger f.pending_stops[t][i]]
            0 <= i < f.pending_stops[t].len() implies stop_behind(
            f.ledger.holds,
            f.symbols[t],
            f.pending_stops[t][i],
        ) by {
            if t == s && i == old_stops.len() {
                assert(f.pending_stops[t][i] == stop);
            } else {
                assert(e.pending_stops[t][i] == f.pending_stops[t][i]);
            }
        }
    }
    assert forall|id: OrderId| #[trigger] f.ledger.holds.contains_key(id) implies {
        &&& live(f, id) || on_its_way(Seq::empty(), id)
        &&& f.ledger.has(f.ledger.holds[id].user_id)
    } by {
        assert(e.ledger.holds.contains_key(id));
        if live(e, id) {
            if exists|t: SymbolId, side: Side|
                e.books.contains_key(t) && #[trigger] book_laws::queued(
                    e.books[t].queue(side),
                    id,
                ) {
                let (t, side) = choose|t: SymbolId, side: Side|
                    e.books.contains_key(t) && #[trigger] book_laws::queued(
                        e.books[t].queue(side),
                        id,
                    );
                assert(f.books.contains_key(t) && book_laws::queued(f.books[t].queue(side), id));
            } else {
                let (t, i) = choose|t: SymbolId, i: int|
                    0 <= i < e.pending_stops[t].len() && (
                    #[trigger] e.pending_stops[t][i]).order_id == id;
                assert(f.pending_stops[t][i].order_id == id);
            }
        } else {
            assert(f.pending_stops[s][old_stops.len() as int].order_id == id);
        }
    }
}

/// Placing a checked order keeps reservations and open orders matched.
pub proof fn lemma_place_checked_backed(
    e: EngineModel,
    seq_no: SeqNo,
    order_id: OrderId,
    p: PlaceOrder,
    now: Timestamp,
    steady: bool,
)
    requires
        e.sound(),
        backed(e),
        !live(e, order_id),
        e.symbols.contains_key(p.symbol_id),
        steady ==> calm(
            e.symbols[p.symbol_id],
            model::trades_of(
                model::place_checked(
                    e,
                    seq_no,
                    order_id,
                    p,
                    e.symbols[p.symbol_id],
                    now,
                ).1.events,
            ),
        ) && risk_laws::finite(e.ledger),
        model::place_checked(
            e,
            seq_no,
            order_id,
            p,
            e.symbols[p.symbol_id],
            now,
        ).0.settled(),
    ensures
        ({
            let f = model::place_checked(
                e,
                seq_no,
                order_id,
                p,
                e.symbols[p.symbol_id],
                now,
            ).0;
            backed(f) && ledger_kept(e.ledger, f.ledger, steady)
        }),
{
    let spec = e.symbols[p.symbol_id];
    let (l, r) = risk_model::pre_check_place(e.ledger, p, spec, order_id);
    let e1 = e.with_ledger(l);
    let stop = PendingStop { order_id, place_order: p };
    let extra = seq![stop];
    lemma_checked_backed(e, order_id, p, steady);
    assert(extra.drop_first() =~= Seq::<PendingStop>::empty());
    if r is Ok {
        let fires = e.mark_prices.contains_key(p.symbol_id) && model::stop_trigger_met(
            p.side,
            e.mark_prices[p.symbol_id],
            p.stop_price->0,
        );
        if model::is_stop(p.order_type) && p.stop_price.is_none() {
            let f = e1.with_ledger(risk_model::release_hold(l, order_id).0);
            risk_laws::lemma_release_users(l, order_id, p.size);
            assert(f.ledger.holds =~= l.holds.remove(order_id));
            lemma_dropped_backed(e1, f, extra);
            if steady {
                assert forall|c: CurrencyId| #[trigger] risk_model::total_internal(f.ledger, c)
                    == risk_model::total_internal(e.ledger, c) by {
                    risk_laws::law_release_conserves(l, order_id, p.size, c);
                    assert(risk_model::total_internal(l, c) == risk_model::total_internal(
                        e.ledger,
                        c,
                    ));
                }
                risk_laws::law_release_conserves(l, order_id, p.size, CurrencyId(0));
            }
        } else if model::is_stop(p.order_type) && !fires {
            lemma_stop_backed(e1, stop);
        } else {
            let p2 = if model::is_stop(p.order_type) {
                PlaceOrder { order_type: OrderType::Limit, ..p }
            } else {
                p
            };
            lemma_apply_backed(e1, extra, order_id, p2, now, steady);
            let f = model::apply_to_book(e1, order_id, p2, spec, now).0;
            if steady {
                assert forall|c: CurrencyId| #[trigger] risk_model::total_internal(f.ledger, c)
                    == risk_model::total_internal(e.ledger, c) by {
                    assert(risk_model::total_internal(l, c) == risk_model::total_internal(
                        e.ledger,
                        c,
                    ));
                }
            }
        }
    }
}

/// Taking an order out of its book and its reservation back keeps the rest
/// matched.
pub proof fn lemma_cancel_backed(e: EngineModel, s: SymbolId, id: OrderId, steady: bool)
    requires
        e.sound(),
        backed(e),
        e.books.contains_key(s),
        e.books[s].has_order(id),
        steady ==> risk_laws::finite(e.ledger),
    ensures
        ({
            let f = e.with_book(s, e.books[s].without(id)).with_ledger(
                risk_model::release_hold(e.ledger, id).0,
            );
            backed(f) && ledger_kept(e.ledger, f.ledger, steady) && !live(f, id)
        }),
{
    let b = e.books[s];
    let side0 = b.find(id).0;
    let l = risk_model::release_hold(e.ledger, id).0;
    let f = e.with_book(s, b.without(id)).with_ledger(l);
    let m = e.ledger.holds;
    let n = l.holds;
    book_laws::law_cancel_keeps_book(b, id);
    risk_laws::lemma_release_users(e.ledger, id, Size(0));
    lemma_queued_behind(e, s, side0, id);
    assert(n =~= m.remove(id));
    assert forall|t: SymbolId, side: Side, x: OrderId|
        f.books.contains_key(t) && #[trigger] book_laws::queued(
            f.books[t].queue(side),
            x,
        ) implies x != id && book_laws::queued(e.books[t].queue(side), x) && e.books.contains_key(
        t,
    ) by {
        if t == s {
            if side == side0 {
                assert(book_laws::queued(b.without(id).queue(side0), x));
            } else {
                assert(side == side0.other());
                assert(book_laws::queued(e.books[t].queue(side), x));
                lemma_queued_behind(e, t, side, x);
            }
        } else {
            lemma_queued_behind(e, t, side, x);
        }
    }
    assert forall|t: SymbolId, i: int| #![trigger e.pending_stops[t][i]]
        0 <= i < e.pending_stops[t].len() implies e.pending_stops[t][i].order_id != id by {
        let q = b.queue(side0);
        let k = choose|k: int| 0 <= k < q.len() && (#[trigger] q[k]).order_id == id;
        assert(e.books[s].queue(side0)[k].order_id == id);
    }
    assert(books_kept(f)) by {
        assert forall|t: SymbolId| #[trigger] f.books.contains_key(t) implies {
            &&& f.symbols.contains_key(t)
            &&& f.symbols[t].symbol_id == t
            &&& f.books[t].symbol_id == t
            &&& book_laws::kept(f.books[t])
        } by {
            assert(e.books.contains_key(t));
        }
    }
    assert(books_behind(f)) by {
        assert forall|t: SymbolId, side: Side, i: int| #![trigger f.books[t].queue(side)[i]]
            f.books.contains_key(t) && 0 <= i < f.books[t].queue(side).len() implies behind(
            n,
            f.symbols[t],
            f.books[t].queue(side)[i].order_id,
            f.books[t].queue(side)[i].user_id,
            side,
            book_laws::open_size(f.books[t].queue(side)[i]),
        ) by {
            let x = f.books[t].queue(side)[i];
            assert(e.books.contains_key(t));
            assert(book_laws::queued(f.books[t].queue(side), x.order_id));
            book_laws::lemma_tidy(f.books[t], side);
            book_laws::lemma_tidy(e.books[t], side);
            book_laws::lemma_pick(f.books[t].queue(side), i);
            let q = e.books[t].queue(side);
            let k = choose|k: int| 0 <= k < q.len() && (#[trigger] q[k]).order_id == x.order_id;
            book_laws::lemma_pick(q, k);
            assert(q[k] == x) by {
                if t == s && side == side0 {
                    assert(book_laws::queued(b.without(id).queue(side0), x.order_id));
                }
            }
            assert(e.books[t].queue(side)[k] == x);
        }
    }
    assert(stops_behind(f)) by {
        assert forall|t: SymbolId, i: int| #![trigger f.pending_stops[t][i]]
            0 <= i < f.pending_stops[t].len() implies stop_behind(
            n,
            f.symbols[t],
            f.pending_stops[t][i],
        ) by {
            assert(e.pending_stops[t][i].order_id != id);
        }
    }
    assert forall|x: OrderId| #[trigger] n.contains_key(x) implies {
        &&& live(f, x) || on_its_way(Seq::empty(), x)
        &&& l.has(n[x].user_id)
    } by {
        assert(m.contains_key(x));
        assert(!on_its_way(Seq::empty(), x));
        assert(live(e, x));
        assert(e.ledger.has(m[x].user_id));
        if exists|t: SymbolId, side: Side|
            e.books.contains_key(t) && #[trigger] book_laws::queued(e.books[t].queue(side), x) {
            let (t, side) = choose|t: SymbolId, side: Side|
                e.books.contains_key(t) && #[trigger] book_laws::queued(e.books[t].queue(side), x);
            assert(f.books.contains_key(t));
            if t == s && side == side0 {
                assert(book_laws::queued(b.without(id).queue(side0), x));
            }
            assert(book_laws::queued(f.books[t].queue(side), x));
        } else {
            let (t, i) = choose|t: SymbolId, i: int|
                0 <= i < e.pending_stops[t].len() && (
                #[trigger] e.pending_stops[t][i]).order_id == x;
            assert(f.pending_stops[t][i].order_id == x);
        }
    }
    if steady {
        assert forall|c: CurrencyId| #[trigger] risk_model::total_internal(l, c)
            == risk_model::total_internal(e.ledger, c) by {
            risk_laws::law_release_conserves(e.ledger, id, Size(0), c);
        }
        risk_laws::law_release_conserves(e.ledger, id, Size(0), CurrencyId(0));
    }
}

/// Stops that leave the waiting line are on their way.
pub proof fn lemma_fired_backed(e: EngineModel, s: SymbolId, mark: Price)
    requires
        e.sound(),
        backed(e),
        e.pending_stops.contains_key(s),
    ensures
        backed_but(
            e.with_stops(s, model::waiting(e.pending_stops[s], mark)),
            model::fired(e.pending_stops[s], mark),
        ),
{
    let stops = e.pending_stops[s];
    let w = model::waiting(stops, mark);
    let g = model::fired(stops, mark);
    let f = e.with_stops(s, w);
    let at = lemmas::lemma_waiting_from(stops, mark);
    let from = lemmas::lemma_fired_from(stops, mark);
    lemmas::lemma_waiting_sound(e, s, mark);
    assert(books_behind(f)) by {
        assert forall|t: SymbolId, side: Side, i: int| #![trigger f.books[t].queue(side)[i]]
            f.books.contains_key(t) && 0 <= i < f.books[t].queue(side).len() implies behind(
            f.ledger.holds,
            f.symbols[t],
            f.books[t].queue(side)[i].order_id,
            f.books[t].queue(side)[i].user_id,
            side,
            book_laws::open_size(f.books[t].queue(side)[i]),
        ) by {
            assert(e.books[t].queue(side)[i] == f.books[t].queue(side)[i]);
        }
    }
    assert(stops_behind(f)) by {
        assert forall|t: SymbolId, i: int| #![trigger f.pending_stops[t][i]]
            0 <= i < f.pending_stops[t].len() implies stop_behind(
            f.ledger.holds,
            f.symbols[t],
            f.pending_stops[t][i],
        ) by {
            if t == s {
                assert(w[i] == stops[at[i]]);
                assert(e.pending_stops[s][at[i]] == w[i]);
            } else {
                assert(e.pending_stops[t][i] == f.pending_stops[t][i]);
            }
        }
    }
    assert forall|i: int| 0 <= i < g.len() implies {
        &&& f.symbols.contains_key((#[trigger] g[i]).place_order.symbol_id)
        &&& stop_behind(f.ledger.holds, f.symbols[g[i].place_order.symbol_id], g[i])
        &&& !live(f, g[i].order_id)
    } by {
        assert(g[i] == stops[from[i]]);
        assert(e.pending_stops[s][from[i]] == g[i]);
        assert(lemmas::unused(f, g[i].order_id));
        lemma_unused_not_live(f, g[i].order_id);
    }
    assert forall|id: OrderId| #[trigger] f.ledger.holds.contains_key(id) implies {
        &&& live(f, id) || on_its_way(g, id)
        &&& f.ledger.has(f.ledger.holds[id].user_id)
    } by {
        assert(e.ledger.holds.contains_key(id));
        assert(!on_its_way(Seq::empty(), id));
        assert(live(e, id));
        if exists|t: SymbolId, side: Side|
            e.books.contains_key(t) && #[trigger] book_laws::queued(e.books[t].queue(side), id) {
            let (t, side) = choose|t: SymbolId, side: Side|
                e.books.contains_key(t) && #[trigger] book_laws::queued(e.books[t].queue(side), id);
            assert(f.books.contains_key(t) && book_laws::queued(f.books[t].queue(side), id));
        } else {
            let (t, i) = choose|t: SymbolId, i: int|
                0 <= i < e.pending_stops[t].len() && (
                #[trigger] e.pending_stops[t][i]).order_id == id;
            if t == s {
                lemma_fired_or_waiting(stops, mark, i);
                if !on_its_way(g, id) {
                    let j = choose|j: int| 0 <= j < w.len() && (#[trigger] w[j]) == stops[i];
                    assert(f.pending_stops[s][j].order_id == id);
                }
            } else {
                assert(f.pending_stops[t][i].order_id == id);
            }
        }
    }
}

/// Each stop fires or goes on waiting.
proof fn lemma_fired_or_waiting(
    stops: Seq<PendingStop>,
    mark: Price,
    i: int,
)
    requires
        0 <= i < stops.len(),
    ensures
        on_its_way(model::fired(stops, mark), stops[i].order_id) || exists|j: int|
            0 <= j < model::waiting(stops, mark).len() && (#[trigger] model::waiting(
                stops,
                mark,
            )[j]) == stops[i],
    decreases stops.len(),
{
    let before = stops.drop_last();
    let w = model::waiting(stops, mark);
    let g = model::fired(stops, mark);
    let w0 = model::waiting(before, mark);
    let g0 = model::fired(before, mark);
    if i < before.len() {
        lemma_fired_or_waiting(before, mark, i);
        assert(before[i] == stops[i]);
        if on_its_way(g0, stops[i].order_id) {
            let k = choose|k: int| 0 <= k < g0.len() && (#[trigger] g0[k]).order_id
                == stops[i].order_id;
            assert(g[k] == g0[k]);
        } else {
            let j = choose|j: int| 0 <= j < w0.len() && (#[trigger] w0[j]) == stops[i];
            assert(w[j] == w0[j]);
        }
    } else if model::stop_trigger_met(
        stops.last().place_order.side,
        mark,
        stops.last().place_order.stop_price->0,
    ) {
        assert(g[g.len() - 1].order_id == stops[i].order_id);
    } else {
        assert(w[w.len() - 1] == stops[i]);
    }
}

/// Placing the first of some stops keeps reservations and open orders matched.
proof fn lemma_first_fired_backed(
    e: EngineModel,
    left: Seq<PendingStop>,
    s: SymbolId,
    now: Timestamp,
    steady: bool,
)
    requires
        left.len() > 0,
        e.sound(),
        backed_but(e, left),
        lemmas::ready(e, left, s),
        e.books.contains_key(s),
        steady ==> calm(
            e.symbols[s],
            model::trades_of(
                model::apply_to_book(
                    e,
                    left[0].order_id,
                    PlaceOrder { order_type: OrderType::Limit, ..left[0].place_order },
                    e.symbols[s],
                    now,
                ).2,
            ),
        ) && risk_laws::finite(e.ledger),
        model::apply_to_book(
            e,
            left[0].order_id,
            PlaceOrder { order_type: OrderType::Limit, ..left[0].place_order },
            e.symbols[s],
            now,
        ).0.settled(),
    ensures
        ({
            let f = model::apply_to_book(
                e,
                left[0].order_id,
                PlaceOrder { order_type: OrderType::Limit, ..left[0].place_order },
                e.symbols[s],
                now,
            ).0;
            &&& f.sound()
            &&& backed_but(f, left.drop_first())
            &&& lemmas::ready(f, left.drop_first(), s)
            &&& f.books.contains_key(s)
            &&& f.symbols == e.symbols
            &&& ledger_kept(e.ledger, f.ledger, steady)
        }),
{
    let spec = e.symbols[s];
    let stop = left[0];
    let p = PlaceOrder { order_type: OrderType::Limit, ..stop.place_order };
    assert(lemmas::unused(e, left[0].order_id));
    lemma_apply_backed(e, left, stop.order_id, p, now, steady);
    lemmas::lemma_apply_sound(e, stop.order_id, p, spec, now);
    lemmas::lemma_ready_step(e, left, s, p, spec, now);
}

proof fn lemma_ledger_kept_twice(a: Ledger, b: Ledger, c: Ledger, steady: bool)
    requires
        ledger_kept(a, b, steady),
        ledger_kept(b, c, steady),
    ensures
        ledger_kept(a, c, steady),
{
    if steady {
        assert forall|x: CurrencyId| #[trigger] risk_model::total_internal(c, x)
            == risk_model::total_internal(a, x) by {
            assert(risk_model::total_internal(b, x) == risk_model::total_internal(a, x));
        }
    }
}

/// Placing stops one after the other keeps reservations and open orders
/// matched.
#[verifier::rlimit(30)]
pub proof fn lemma_place_fired_backed(
    e: EngineModel,
    stops: Seq<PendingStop>,
    k: int,
    s: SymbolId,
    now: Timestamp,
    steady: bool,
)
    requires
        0 <= k <= stops.len(),
        e.sound(),
        backed_but(e, stops),
        lemmas::ready(e, stops, s),
        e.books.contains_key(s),
        steady ==> calm(
            e.symbols[s],
            model::trades_of(model::place_fired(e, stops.subrange(0, k), e.symbols[s], now).1),
        ) && risk_laws::finite(e.ledger),
        model::place_fired(e, stops.subrange(0, k), e.symbols[s], now).0.settled(),
    ensures
        ({
            let f = model::place_fired(e, stops.subrange(0, k), e.symbols[s], now).0;
            &&& f.sound()
            &&& backed_but(f, stops.subrange(k, stops.len() as int))
            &&& lemmas::ready(f, stops.subrange(k, stops.len() as int), s)
            &&& f.books.contains_key(s)
            &&& f.symbols == e.symbols
            &&& ledger_kept(e.ledger, f.ledger, steady)
        }),
    decreases k,
{
    let n = stops.len() as int;
    if k == 0 {
        assert(stops.subrange(0, 0) =~= Seq::<PendingStop>::empty());
        assert(stops.subrange(0, n) =~= stops);
    } else {
        let head = stops.subrange(0, k);
        assert(head.drop_last() =~= stops.subrange(0, k - 1));
        assert(head.last() == stops[k - 1]);
        let spec = e.symbols[s];
        let before = model::place_fired(e, stops.subrange(0, k - 1), spec, now).0;
        let stop = stops[k - 1];
        let p = PlaceOrder { order_type: OrderType::Limit, ..stop.place_order };
        lemmas::lemma_apply_exact(before, stop.order_id, p, spec, now);
        lemmas::lemma_trades_joined(
            model::place_fired(e, stops.subrange(0, k - 1), spec, now).1,
            model::apply_to_book(before, stop.order_id, p, spec, now).2,
        );
        lemma_place_fired_backed(e, stops, k - 1, s, now, steady);
        let left = stops.subrange(k - 1, n);
        assert(left[0] == stop);
        assert(left.drop_first() =~= stops.subrange(k, n));
        lemma_first_fired_backed(before, left, s, now, steady);
        let f = model::apply_to_book(before, stop.order_id, p, spec, now).0;
        lemma_ledger_kept_twice(e.ledger, before.ledger, f.ledger, steady);
    }
}

/// Whether a sweep finds no position to close.
pub open spec fn closes_nothing(
    l: Ledger,
    spec: SymbolSpec,
    price: Price,
    below: Option<Bps>,
) -> bool {
    forall|u: UserId| #[trigger]
        l.has(u) && u != risk_model::house() ==> !risk_model::closes(
            l.accounts[u],
            spec,
            price,
            below,
        )
}

/// A new mark, with what it closes and what it fires, keeps reservations and open
/// orders matched.
pub proof fn lemma_mark_backed(
    e: EngineModel,
    seq_no: SeqNo,
    m: SetMarkPrice,
    now: Timestamp,
    steady: bool,
)
    requires
        e.sound(),
        backed(e),
        e.symbols.contains_key(m.symbol_id),
        e.pending_stops.contains_key(m.symbol_id),
        steady ==> {
            let spec = e.symbols[m.symbol_id];
            &&& calm(
                spec,
                model::trades_of(model::handle_set_mark_price(e, seq_no, m, now).1.events),
            )
            &&& spec.kind_params is Spot || closes_nothing(
                e.ledger,
                spec,
                m.mark_price,
                risk_model::maintenance_margin(spec),
            )
            &&& risk_laws::finite(e.ledger)
        },
        model::handle_set_mark_price(e, seq_no, m, now).0.settled(),
    ensures
        ({
            let f = model::handle_set_mark_price(e, seq_no, m, now).0;
            backed(f) && ledger_kept(e.ledger, f.ledger, steady)
        }),
{
    let s = m.symbol_id;
    let spec = e.symbols[s];
    let stops = e.pending_stops[s];
    let going = model::fired(stops, m.mark_price);
    let g = e.with_stops(s, model::waiting(stops, m.mark_price));
    let l = risk_model::liquidate(e.ledger, spec, m.mark_price);
    let e1 = EngineModel {
        mark_prices: e.mark_prices.insert(s, m.mark_price),
        ledger: l,
        pending_stops: e.pending_stops.insert(s, model::waiting(stops, m.mark_price)),
        ..e
    };
    assert(e.books.contains_key(s));
    lemma_fired_backed(e, s, m.mark_price);
    lemmas::lemma_waiting_sound(e, s, m.mark_price);
    assert(l.accounts.dom() =~= e.ledger.accounts.dom());
    lemma_untouched_backed(g, e1, going);
    lemmas::lemma_fired_sound(e, s, m.mark_price);
    assert(lemmas::ready(e1, going, s));
    let n = going.len() as int;
    assert(going.subrange(0, n) =~= going);
    assert(going.subrange(n, n) =~= Seq::<PendingStop>::empty());
    if steady {
        assert(l.accounts =~= e.ledger.accounts);
    }
    lemma_place_fired_backed(e1, going, n, s, now, steady);
    let f = model::place_fired(e1, going, spec, now).0;
    if steady {
        assert forall|c: CurrencyId| #[trigger] risk_model::total_internal(f.ledger, c)
            == risk_model::total_internal(e.ledger, c) by {
            assert(risk_model::total_internal(f.ledger, c) == risk_model::total_internal(l, c));
        }
    }
}

/// A replaced order keeps reservations and open orders matched.
pub proof fn lemma_modify_backed(
    e: EngineModel,
    seq_no: SeqNo,
    m: ModifyOrder,
    now: Timestamp,
    steady: bool,
)
    requires
        e.sound(),
        backed(e),
        e.books.contains_key(m.symbol_id),
        e.books[m.symbol_id].has_order(m.order_id),
        0 <= e.next_order_id,
        steady ==> calm(
            e.symbols[m.symbol_id],
            model::trades_of(model::handle_modify(e, seq_no, m, now).1.events),
        ) && risk_laws::finite(e.ledger),
        model::handle_modify(e, seq_no, m, now).0.settled(),
    ensures
        ({
            let f = model::handle_modify(e, seq_no, m, now).0;
            backed(f) && ledger_kept(e.ledger, f.ledger, steady)
        }),
{
    let b = e.books[m.symbol_id];
    let spec = e.symbols[m.symbol_id];
    let p = model::replacement(b.order(m.order_id), m);
    if b.order(m.order_id).user_id == m.user_id && p.size.0 > 0 {
        lemmas::lemma_modify_exact(e, seq_no, m, now);
        let order_id = OrderId(e.next_order_id as u64);
        let e1 = e.with_next_order_id();
        let l1 = risk_model::release_hold(e1.ledger, m.order_id).0;
        let e2 = e1.with_book(m.symbol_id, b.without(m.order_id)).with_ledger(l1);
        let (l2, r) = risk_model::pre_check_place(l1, p, spec, order_id);
        let e3 = e2.with_ledger(l2);
        lemmas::lemma_next_unused(e);
        lemma_untouched_backed(e, e1, Seq::empty());
        lemma_ledger_same(e.ledger, e1.ledger);
        lemma_cancel_backed(e1, m.symbol_id, m.order_id, steady);
        lemmas::lemma_cancel_sound(e1, m.symbol_id, m.order_id);
        assert(e2.sound()) by {
            let g = e1.with_book(m.symbol_id, b.without(m.order_id));
            assert(g.sound());
        }
        assert(lemmas::unused(e2, order_id)) by {
            let g = e1.with_book(m.symbol_id, b.without(m.order_id));
            assert(lemmas::unused(g, order_id));
        }
        lemma_unused_not_live(e2, order_id);
        lemma_checked_backed(e2, order_id, p, steady);
        if r is Ok {
            let extra = seq![PendingStop { order_id, place_order: p }];
            assert(extra.drop_first() =~= Seq::<PendingStop>::empty());
            lemmas::lemma_trades_joined(
                seq![
                    model::cancelled_event(
                        m.order_id,
                        m.user_id,
                        m.symbol_id,
                        b.order(m.order_id).size_remaining.0 as int,
                        now,
                    ),
                ],
                model::apply_to_book(e3, order_id, p, spec, now).2,
            );
            lemma_apply_backed(e3, extra, order_id, p, now, steady);
        }
        let f = model::handle_modify(e, seq_no, m, now).0;
        if steady {
            assert forall|c: CurrencyId| #[trigger] risk_model::total_internal(f.ledger, c)
                == risk_model::total_internal(e.ledger, c) by {
                assert(risk_model::total_internal(l1, c) == risk_model::total_internal(
                    e1.ledger,
                    c,
                ));
                assert(risk_model::total_internal(l2, c) == risk_model::total_internal(l1, c));
            }
        }
    }
}

/// A new symbol with its empty book keeps reservations and open orders matched.
pub proof fn lemma_register_backed(e: EngineModel, seq_no: SeqNo, spec: SymbolSpec)
    requires
        e.sound(),
        backed(e),
        !e.symbols.contains_key(spec.symbol_id),
    ensures
        backed(model::handle_register_symbol(e, seq_no, spec).0),
{
    let s = spec.symbol_id;
    let f = model::handle_register_symbol(e, seq_no, spec).0;
    assert(!e.books.contains_key(s));
    assert(books_kept(f)) by {
        assert forall|t: SymbolId| #[trigger] f.books.contains_key(t) implies {
            &&& f.symbols.contains_key(t)
            &&& f.symbols[t].symbol_id == t
            &&& f.books[t].symbol_id == t
            &&& book_laws::kept(f.books[t])
        } by {
            if t != s {
                assert(e.books.contains_key(t));
            } else {
                assert(f.books[t].asks.len() == 0 && f.books[t].bids.len() == 0);
            }
        }
    }
    assert(books_behind(f)) by {
        assert forall|t: SymbolId, side: Side, i: int| #![trigger f.books[t].queue(side)[i]]
            f.books.contains_key(t) && 0 <= i < f.books[t].queue(side).len() implies behind(
            f.ledger.holds,
            f.symbols[t],
            f.books[t].queue(side)[i].order_id,
            f.books[t].queue(side)[i].user_id,
            side,
            book_laws::open_size(f.books[t].queue(side)[i]),
        ) by {
            if t != s {
                assert(e.books[t].queue(side)[i] == f.books[t].queue(side)[i]);
            }
        }
    }
    assert(stops_behind(f)) by {
        assert forall|t: SymbolId, i: int| #![trigger f.pending_stops[t][i]]
            0 <= i < f.pending_stops[t].len() implies stop_behind(
            f.ledger.holds,
            f.symbols[t],
            f.pending_stops[t][i],
        ) by {
            assert(model::stop_ok(e.pending_stops[t][i], t));
            assert(e.symbols.contains_key(t));
        }
    }
    assert forall|id: OrderId| #[trigger] f.ledger.holds.contains_key(id) implies {
        &&& live(f, id) || on_its_way(Seq::empty(), id)
        &&& f.ledger.has(f.ledger.holds[id].user_id)
    } by {
        assert(e.ledger.holds.contains_key(id));
        assert(!on_its_way(Seq::empty(), id));
        assert(live(e, id));
        if exists|t: SymbolId, side: Side|
            e.books.contains_key(t) && #[trigger] book_laws::queued(e.books[t].queue(side), id) {
            let (t, side) = choose|t: SymbolId, side: Side|
                e.books.contains_key(t) && #[trigger] book_laws::queued(e.books[t].queue(side), id);
            assert(f.books.contains_key(t) && book_laws::queued(f.books[t].queue(side), id));
        } else {
            let (t, i) = choose|t: SymbolId, i: int|
                0 <= i < e.pending_stops[t].len() && (
                #[trigger] e.pending_stops[t][i]).order_id == id;
            assert(f.pending_stops[t][i].order_id == id);
        }
    }
}

} // verus!
