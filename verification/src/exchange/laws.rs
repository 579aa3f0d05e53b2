//! What holds of the order books of the exchange.
use vstd::prelude::*;

use crate::exchange::api;
use crate::exchange::api::{
    CommandResultCode, CoreSymbolSpecification, Currency, MatcherEventType, MatcherTradeEvent,
    OrderAction, OrderCommand, OrderType, Price, SelfTradePrevention, UserId,
};
use crate::exchange::model;
use crate::exchange::model::{BookModel, BookStep, DirectOrder, MatchModel, Taker};

verus! {

/// What one unit of size freezes in a currency.
pub open spec fn unit(
    action: OrderAction,
    reserve: Price,
    spec: CoreSymbolSpecification,
    currency: Currency,
) -> int {
    match action {
        OrderAction::Bid => if currency == spec.quote_currency {
            reserve * spec.quote_scale_k + spec.taker_fee
        } else {
            0
        },
        OrderAction::Ask => if currency == spec.base_currency {
            spec.base_scale_k as int
        } else {
            0
        },
    }
}

/// What an order in the book has frozen.
pub open spec fn held_by(o: DirectOrder, spec: CoreSymbolSpecification, currency: Currency) -> int {
    model::left(o) * unit(o.action, o.reserve_price, spec, currency)
}

/// What the orders of a side have frozen.
pub open spec fn held(
    q: Seq<DirectOrder>,
    spec: CoreSymbolSpecification,
    currency: Currency,
) -> int
    decreases q.len(),
{
    if q.len() == 0 {
        0
    } else {
        held(q.drop_last(), spec, currency) + held_by(q.last(), spec, currency)
    }
}

/// What the orders of a book have frozen.
pub open spec fn book_held(b: BookModel, currency: Currency) -> int {
    held(b.asks, b.spec, currency) + held(b.bids, b.spec, currency)
}

/// What an event sets free of what orders have frozen. A trade does so on both
/// sides.
pub open spec fn released(
    e: MatcherTradeEvent,
    action: OrderAction,
    spec: CoreSymbolSpecification,
    currency: Currency,
) -> int {
    match e.event_type {
        MatcherEventType::Trade => e.size * unit(
            OrderAction::Bid,
            e.bidder_hold_price,
            spec,
            currency,
        ) + e.size * unit(OrderAction::Ask, 0, spec, currency),
        MatcherEventType::RejectMaker => e.size * unit(
            action.other(),
            e.bidder_hold_price,
            spec,
            currency,
        ),
        _ => e.size * unit(action, e.bidder_hold_price, spec, currency),
    }
}

pub open spec fn all_released(
    events: Seq<MatcherTradeEvent>,
    action: OrderAction,
    spec: CoreSymbolSpecification,
    currency: Currency,
) -> int
    decreases events.len(),
{
    if events.len() == 0 {
        0
    } else {
        all_released(events.drop_last(), action, spec, currency) + released(
            events.last(),
            action,
            spec,
            currency,
        )
    }
}

/// The orders of a side want something, and their owners are known.
pub open spec fn sound_side(q: Seq<DirectOrder>, action: OrderAction, known: Set<UserId>) -> bool {
    forall|i: int|
        0 <= i < q.len() ==> model::order_ok(#[trigger] q[i], action) && known.contains(q[i].uid)
}

pub open spec fn sound_book(b: BookModel, known: Set<UserId>) -> bool {
    sound_side(b.asks, OrderAction::Ask, known) && sound_side(b.bids, OrderAction::Bid, known)
}

/// The resting sides of all trades are known.
pub open spec fn known_makers(events: Seq<MatcherTradeEvent>, known: Set<UserId>) -> bool {
    forall|i: int|
        0 <= i < events.len() && (#[trigger] events[i]).event_type == MatcherEventType::Trade
            ==> known.contains(events[i].matched_order_uid)
}

proof fn lemma_split(a: int, b: int, u: int)
    ensures
        (a + b) * u == a * u + b * u,
        (a - b) * u == a * u - b * u,
{
    assert((a + b) * u == a * u + b * u) by (nonlinear_arith);
    assert((a - b) * u == a * u - b * u) by (nonlinear_arith);
}

proof fn lemma_held_insert(
    q: Seq<DirectOrder>,
    k: int,
    o: DirectOrder,
    spec: CoreSymbolSpecification,
    currency: Currency,
)
    requires
        0 <= k <= q.len(),
    ensures
        held(q.insert(k, o), spec, currency) == held(q, spec, currency) + held_by(
            o,
            spec,
            currency,
        ),
    decreases q.len(),
{
    let t = q.insert(k, o);
    if k == q.len() {
        assert(t.drop_last() =~= q);
    } else {
        assert(t.drop_last() =~= q.drop_last().insert(k, o));
        assert(t.last() == q.last());
        lemma_held_insert(q.drop_last(), k, o, spec, currency);
    }
}

proof fn lemma_held_remove(
    q: Seq<DirectOrder>,
    k: int,
    spec: CoreSymbolSpecification,
    currency: Currency,
)
    requires
        0 <= k < q.len(),
    ensures
        held(q.remove(k), spec, currency) == held(q, spec, currency) - held_by(
            q[k],
            spec,
            currency,
        ),
{
    lemma_held_insert(q.remove(k), k, q[k], spec, currency);
    assert(q.remove(k).insert(k, q[k]) =~= q);
}

proof fn lemma_held_update(
    q: Seq<DirectOrder>,
    k: int,
    o: DirectOrder,
    spec: CoreSymbolSpecification,
    currency: Currency,
)
    requires
        0 <= k < q.len(),
    ensures
        held(q.update(k, o), spec, currency) == held(q, spec, currency) - held_by(
            q[k],
            spec,
            currency,
        ) + held_by(o, spec, currency),
{
    lemma_held_remove(q, k, spec, currency);
    lemma_held_insert(q.remove(k), k, o, spec, currency);
    assert(q.remove(k).insert(k, o) =~= q.update(k, o));
}

pub proof fn lemma_released_join(
    a: Seq<MatcherTradeEvent>,
    b: Seq<MatcherTradeEvent>,
    action: OrderAction,
    spec: CoreSymbolSpecification,
    currency: Currency,
)
    ensures
        all_released(a + b, action, spec, currency) == all_released(a, action, spec, currency)
            + all_released(b, action, spec, currency),
    decreases b.len(),
{
    if b.len() == 0 {
        assert(a + b =~= a);
    } else {
        assert((a + b).drop_last() =~= a + b.drop_last());
        lemma_released_join(a, b.drop_last(), action, spec, currency);
    }
}

proof fn lemma_released_one(
    e: MatcherTradeEvent,
    action: OrderAction,
    spec: CoreSymbolSpecification,
    currency: Currency,
)
    ensures
        all_released(seq![e], action, spec, currency) == released(e, action, spec, currency),
{
    assert(seq![e].drop_last() =~= Seq::<MatcherTradeEvent>::empty());
    assert(all_released(seq![e].drop_last(), action, spec, currency) == 0);
}

proof fn lemma_first(q: Seq<DirectOrder>, spec: CoreSymbolSpecification, currency: Currency)
    requires
        q.len() > 0,
    ensures
        held(q, spec, currency) == held_by(q[0], spec, currency) + held(
            q.drop_first(),
            spec,
            currency,
        ),
{
    lemma_held_remove(q, 0, spec, currency);
    assert(q.remove(0) =~= q.drop_first());
}

proof fn lemma_drop_sound(q: Seq<DirectOrder>, action: OrderAction, known: Set<UserId>)
    requires
        q.len() > 0,
        sound_side(q, action, known),
    ensures
        sound_side(q.drop_first(), action, known),
{
    assert forall|i: int| 0 <= i < q.drop_first().len() implies model::order_ok(
        #[trigger] q.drop_first()[i],
        action,
    ) && known.contains(q.drop_first()[i].uid) by {
        assert(q.drop_first()[i] == q[i + 1]);
    }
}

/// Matching keeps what is frozen, except for what its events set free.
pub proof fn lemma_match_holds(
    t: Taker,
    q: Seq<DirectOrder>,
    remaining: int,
    spec: CoreSymbolSpecification,
    currency: Currency,
    known: Set<UserId>,
)
    requires
        sound_side(q, t.action.other(), known),
        0 <= remaining <= i64::MAX,
    ensures
        ({
            let m = model::matched(t, q, remaining);
            let u = unit(t.action, t.reserve_price, spec, currency);
            &&& held(q, spec, currency) + remaining * u == held(m.queue, spec, currency)
                + m.remaining * u + all_released(m.events, t.action, spec, currency)
            &&& 0 <= m.remaining <= remaining
            &&& sound_side(m.queue, t.action.other(), known)
            &&& known_makers(m.events, known)
        }),
    decreases q.len(),
{
    let m = model::matched(t, q, remaining);
    let u = unit(t.action, t.reserve_price, spec, currency);
    if remaining <= 0 || q.len() == 0 || !model::crosses(t, q[0].price) {
    } else {
        let o = q[0];
        let rest = q.drop_first();
        assert(model::order_ok(o, t.action.other()));
        lemma_drop_sound(q, t.action.other(), known);
        lemma_first(q, spec, currency);
        if o.uid == t.uid && t.stp != SelfTradePrevention::Allow {
            let e = model::struck(o);
            match t.stp {
                SelfTradePrevention::CancelMaker => {
                    let n = model::matched(t, rest, remaining);
                    lemma_match_holds(t, rest, remaining, spec, currency, known);
                    lemma_released_one(e, t.action, spec, currency);
                    lemma_released_join(seq![e], n.events, t.action, spec, currency);
                    assert(m.queue =~= n.queue);
                    lemma_known_push(e, n.events, known);
                },
                SelfTradePrevention::CancelBoth => {
                    lemma_released_one(e, t.action, spec, currency);
                    lemma_released_join(seq![e], Seq::empty(), t.action, spec, currency);
                    assert(m.queue =~= rest);
                    lemma_known_push(e, Seq::empty(), known);
                },
                SelfTradePrevention::Skip => {
                    let n = model::matched(t, rest, remaining);
                    lemma_match_holds(t, rest, remaining, spec, currency, known);
                    assert(m.events =~= n.events);
                    lemma_first(m.queue, spec, currency);
                    assert(m.queue.drop_first() =~= n.queue);
                    assert forall|i: int| 0 <= i < m.queue.len() implies model::order_ok(
                        #[trigger] m.queue[i],
                        t.action.other(),
                    ) && known.contains(m.queue[i].uid) by {
                        if i > 0 {
                            assert(m.queue[i] == n.queue[i - 1]);
                        }
                    }
                },
                _ => {},
            }
        } else if remaining < model::left(o) {
            let e = model::trade_with(t, o, remaining);
            let o2 = model::traded(o, remaining);
            let q2 = q.update(0, o2);
            assert(m.queue =~= q2);
            lemma_held_update(q, 0, o2, spec, currency);
            lemma_released_one(e, t.action, spec, currency);
            lemma_released_join(seq![e], Seq::empty(), t.action, spec, currency);
            lemma_split(
                model::left(o),
                remaining,
                unit(o.action, o.reserve_price, spec, currency),
            );
            assert(0 * u == 0);
            lemma_known_push(e, Seq::empty(), known);
            assert forall|i: int| 0 <= i < m.queue.len() implies model::order_ok(
                #[trigger] m.queue[i],
                t.action.other(),
            ) && known.contains(m.queue[i].uid) by {
                assert(model::order_ok(q[i], t.action.other()));
            }
        } else {
            let e = model::trade_with(t, o, model::left(o));
            let n = model::matched(t, rest, remaining - model::left(o));
            lemma_match_holds(t, rest, remaining - model::left(o), spec, currency, known);
            lemma_released_one(e, t.action, spec, currency);
            lemma_released_join(seq![e], n.events, t.action, spec, currency);
            lemma_split(remaining, model::left(o), u);
            assert(m.queue =~= n.queue);
            lemma_known_push(e, n.events, known);
        }
    }
}

proof fn lemma_known_push(
    e: MatcherTradeEvent,
    events: Seq<MatcherTradeEvent>,
    known: Set<UserId>,
)
    requires
        known_makers(events, known),
        e.event_type == MatcherEventType::Trade ==> known.contains(e.matched_order_uid),
    ensures
        known_makers(seq![e] + events, known),
{
    let es = seq![e] + events;
    assert forall|i: int|
        0 <= i < es.len() && (#[trigger] es[i]).event_type
            == MatcherEventType::Trade implies known.contains(es[i].matched_order_uid) by {
        if i > 0 {
            assert(es[i] == events[i - 1]);
        }
    }
}

proof fn lemma_known_join(
    a: Seq<MatcherTradeEvent>,
    b: Seq<MatcherTradeEvent>,
    known: Set<UserId>,
)
    requires
        known_makers(a, known),
        known_makers(b, known),
    ensures
        known_makers(a + b, known),
{
    let es = a + b;
    assert forall|i: int|
        0 <= i < es.len() && (#[trigger] es[i]).event_type
            == MatcherEventType::Trade implies known.contains(es[i].matched_order_uid) by {
        if i < a.len() {
            assert(es[i] == a[i]);
        } else {
            assert(es[i] == b[i - a.len()]);
        }
    }
}

/// An order comes to rest.
proof fn lemma_rested(b: BookModel, o: DirectOrder, currency: Currency, known: Set<UserId>)
    requires
        sound_book(b, known),
        model::order_ok(o, o.action),
        known.contains(o.uid),
    ensures
        book_held(model::rested(b, o), currency) == book_held(b, currency) + held_by(
            o,
            b.spec,
            currency,
        ),
        sound_book(model::rested(b, o), known),
        model::rested(b, o).spec == b.spec,
{
    let q = b.side(o.action);
    let k = model::slot_of(q, model::rank_of(o.action, o.price));
    lemma_slot_range(q, model::rank_of(o.action, o.price));
    lemma_held_insert(q, k, o, b.spec, currency);
    let q2 = q.insert(k, o);
    assert forall|i: int| 0 <= i < q2.len() implies model::order_ok(#[trigger] q2[i], o.action)
        && known.contains(q2[i].uid) by {
        if i < k {
            assert(q2[i] == q[i]);
        } else if i > k {
            assert(q2[i] == q[i - 1]);
        }
    }
}

pub proof fn lemma_slot_range(q: Seq<DirectOrder>, rank: int)
    ensures
        0 <= model::slot_of(q, rank) <= q.len(),
    decreases q.len(),
{
    if q.len() > 0 {
        lemma_slot_range(q.drop_last(), rank);
    }
}

/// An order leaves the book.
proof fn lemma_without(b: BookModel, id: api::OrderId, currency: Currency, known: Set<UserId>)
    requires
        sound_book(b, known),
        b.has(id),
    ensures
        book_held(b.without(id), currency) == book_held(b, currency) - held_by(
            b.order(id),
            b.spec,
            currency,
        ),
        sound_book(b.without(id), known),
        b.without(id).spec == b.spec,
        b.order(id).order_id == id,
        b.order(id).action == b.side_of(id),
        model::order_ok(b.order(id), b.side_of(id)),
        known.contains(b.order(id).uid),
        0 <= model::place_of(b.side(b.side_of(id)), id) < b.side(b.side_of(id)).len(),
{
    let a = b.side_of(id);
    let q = b.side(a);
    let k = model::place_of(q, id);
    assert(model::listed(q, id));
    assert(0 <= k < q.len() && q[k].order_id == id);
    assert(model::order_ok(q[k], a));
    lemma_held_remove(q, k, b.spec, currency);
    let q2 = q.remove(k);
    assert forall|i: int| 0 <= i < q2.len() implies model::order_ok(#[trigger] q2[i], a)
        && known.contains(q2[i].uid) by {
        if i < k {
            assert(q2[i] == q[i]);
        } else {
            assert(q2[i] == q[i + 1]);
        }
    }
}

/// An order is matched.
proof fn lemma_matched_book(
    b: BookModel,
    t: Taker,
    remaining: int,
    currency: Currency,
    known: Set<UserId>,
)
    requires
        sound_book(b, known),
        0 <= remaining <= i64::MAX,
    ensures
        ({
            let m = model::matched(t, b.side(t.action.other()), remaining);
            let u = unit(t.action, t.reserve_price, b.spec, currency);
            let b2 = model::after_match(b, t.action, m);
            &&& book_held(b, currency) + remaining * u == book_held(b2, currency) + m.remaining * u
                + all_released(m.events, t.action, b.spec, currency)
            &&& 0 <= m.remaining <= remaining
            &&& sound_book(b2, known)
            &&& b2.spec == b.spec
            &&& known_makers(m.events, known)
        }),
{
    lemma_match_holds(t, b.side(t.action.other()), remaining, b.spec, currency, known);
}

/// What an order freezes in a currency.
pub open spec fn incoming(c: OrderCommand, spec: CoreSymbolSpecification, currency: Currency) -> int {
    c.size * unit(c.action, c.reserve_price, spec, currency)
}

/// What a book holds after a step, and what the events of the step set free, are
/// together what was there before.
pub open spec fn keeps(
    b: BookModel,
    step: BookStep,
    added: int,
    currency: Currency,
    known: Set<UserId>,
) -> bool {
    &&& book_held(b, currency) + added == book_held(step.book, currency) + all_released(
        step.events,
        step.action,
        b.spec,
        currency,
    )
    &&& sound_book(step.book, known)
    &&& step.book.spec == b.spec
    &&& known_makers(step.events, known)
}

proof fn lemma_at_once_keeps(
    b: BookModel,
    c: OrderCommand,
    limit: Price,
    currency: Currency,
    known: Set<UserId>,
)
    requires
        sound_book(b, known),
        c.size >= 0,
    ensures
        ({
            let t = Taker { limit, ..model::taker_of(b, c) };
            keeps(
                b,
                model::placed_at_once(b, c, t),
                incoming(c, b.spec, currency),
                currency,
                known,
            )
        }),
{
    let t = Taker { limit, ..model::taker_of(b, c) };
    let m = model::matched(t, b.side(t.action.other()), c.size as int);
    lemma_matched_book(b, t, c.size as int, currency, known);
    lemma_leftover(c, m, b.spec, currency, known);
}

/// What is left of an order leaves.
proof fn lemma_leftover(
    c: OrderCommand,
    m: MatchModel,
    spec: CoreSymbolSpecification,
    currency: Currency,
    known: Set<UserId>,
)
    requires
        0 <= m.remaining <= i64::MAX,
        known_makers(m.events, known),
    ensures
        all_released(m.events + model::leftover(c, m.remaining), c.action, spec, currency)
            == all_released(m.events, c.action, spec, currency) + m.remaining * unit(
            c.action,
            c.reserve_price,
            spec,
            currency,
        ),
        known_makers(m.events + model::leftover(c, m.remaining), known),
{
    let u = unit(c.action, c.reserve_price, spec, currency);
    let more = model::leftover(c, m.remaining);
    lemma_released_join(m.events, more, c.action, spec, currency);
    lemma_known_join(m.events, more, known);
    if m.remaining > 0 {
        lemma_released_one(
            api::reject_event(m.remaining, c.price, c.reserve_price),
            c.action,
            spec,
            currency,
        );
    } else {
        assert(0 * u == 0);
    }
}

/// A new order: what it froze is in the book, or was set free.
pub proof fn lemma_new_order_keeps(
    b: BookModel,
    c: OrderCommand,
    currency: Currency,
    known: Set<UserId>,
)
    requires
        sound_book(b, known),
        c.size >= 0,
        known.contains(c.uid),
    ensures
        ({
            let step = model::new_ordered(b, c);
            &&& step.code == CommandResultCode::Success ==> keeps(
                b,
                step,
                incoming(c, b.spec, currency),
                currency,
                known,
            )
            &&& step.code != CommandResultCode::Success ==> step.book == b && step.events.len() == 0
            &&& step.action == c.action
        }),
{
    let step = model::new_ordered(b, c);
    let u = unit(c.action, c.reserve_price, b.spec, currency);
    if !b.has(c.order_id) {
        match c.order_type {
            OrderType::Gtc => {
                let t = model::taker_of(b, c);
                let m = model::matched(t, b.side(t.action.other()), c.size as int);
                let b2 = model::after_match(b, c.action, m);
                lemma_matched_book(b, t, c.size as int, currency, known);
                if m.aborted {
                    lemma_leftover(c, m, b.spec, currency, known);
                } else {
                    assert(m.events + Seq::<MatcherTradeEvent>::empty() =~= m.events);
                    if m.remaining > 0 {
                        lemma_rested(b2, model::order_of(c, m.remaining), currency, known);
                    } else {
                        assert(0 * u == 0);
                    }
                }
            },
            OrderType::Ioc => {
                lemma_at_once_keeps(b, c, c.price, currency, known);
            },
            OrderType::FokBudget => {
                lemma_at_once_keeps(b, c, model::price_taker(b, c).limit, currency, known);
                lemma_released_one(
                    api::reject_event(c.size as int, c.price, c.reserve_price),
                    c.action,
                    b.spec,
                    currency,
                );
            },
            _ => {},
        }
    }
}

/// A cancelled order: what it had frozen was set free.
pub proof fn lemma_cancel_keeps(
    b: BookModel,
    c: OrderCommand,
    currency: Currency,
    known: Set<UserId>,
)
    requires
        sound_book(b, known),
    ensures
        keeps(b, model::cancelled(b, c), 0, currency, known),
        model::cancelled(b, c).events.len() > 0 ==> known.contains(c.uid),
{
    if b.has(c.order_id) {
        let o = b.order(c.order_id);
        lemma_without(b, c.order_id, currency, known);
        lemma_released_one(
            api::reject_event(model::left(o), o.price, o.reserve_price),
            o.action,
            b.spec,
            currency,
        );
    }
}

/// A moved order: what it had frozen is in the book, or was set free.
pub proof fn lemma_move_keeps(
    b: BookModel,
    c: OrderCommand,
    currency: Currency,
    known: Set<UserId>,
)
    requires
        sound_book(b, known),
    ensures
        keeps(b, model::moved(b, c), 0, currency, known),
        model::moved(b, c).events.len() > 0 ==> known.contains(c.uid),
{
    if b.has(c.order_id) {
        let o = b.order(c.order_id);
        lemma_without(b, c.order_id, currency, known);
        let b1 = b.without(c.order_id);
        let t = model::mover(b, o, c.price);
        let u = unit(o.action, o.reserve_price, b.spec, currency);
        let m = model::matched(t, b1.side(o.action.other()), model::left(o));
        let b2 = model::after_match(b1, o.action, m);
        lemma_matched_book(b1, t, model::left(o), currency, known);
        if m.remaining > 0 {
            if m.aborted {
                let e = api::reject_event(m.remaining, c.price, o.reserve_price);
                lemma_released_one(e, o.action, b.spec, currency);
                lemma_released_join(m.events, seq![e], o.action, b.spec, currency);
                lemma_known_join(m.events, seq![e], known);
            } else {
                let o2 = DirectOrder {
                    price: c.price,
                    filled: (o.size - m.remaining) as i64,
                    ..o
                };
                lemma_rested(b2, o2, currency, known);
                assert(m.events + Seq::<MatcherTradeEvent>::empty() =~= m.events);
            }
        } else {
            assert(0 * u == 0);
            assert(m.events + Seq::<MatcherTradeEvent>::empty() =~= m.events);
        }
    }
}

/// A reduced order: what it gave up was set free.
pub proof fn lemma_reduce_keeps(
    b: BookModel,
    c: OrderCommand,
    currency: Currency,
    known: Set<UserId>,
)
    requires
        sound_book(b, known),
    ensures
        keeps(b, model::reduced(b, c), 0, currency, known),
        model::reduced(b, c).events.len() > 0 ==> known.contains(c.uid),
{
    if b.has(c.order_id) {
        let o = b.order(c.order_id);
        let by = model::smaller(model::left(o), c.size as int);
        lemma_without(b, c.order_id, currency, known);
        if c.size > 0 && o.uid == c.uid {
            lemma_released_one(
                api::reject_event(by, o.price, o.reserve_price),
                o.action,
                b.spec,
                currency,
            );
            if by != model::left(o) {
                let q = b.side(o.action);
                let k = model::place_of(q, c.order_id);
                let o2 = DirectOrder { size: (o.size - by) as i64, ..o };
                lemma_held_update(q, k, o2, b.spec, currency);
                lemma_split(
                    model::left(o),
                    by,
                    unit(o.action, o.reserve_price, b.spec, currency),
                );
                let q2 = q.update(k, o2);
                assert forall|i: int| 0 <= i < q2.len() implies model::order_ok(
                    #[trigger] q2[i],
                    o.action,
                ) && known.contains(q2[i].uid) by {
                    assert(model::order_ok(q[i], o.action));
                }
            }
        }
    }
}

/// What trades come to.
pub open spec fn traded(events: Seq<MatcherTradeEvent>) -> int
    decreases events.len(),
{
    if events.len() == 0 {
        0
    } else {
        traded(events.drop_last()) + (if events.last().event_type == MatcherEventType::Trade {
            events.last().size as int
        } else {
            0
        })
    }
}

pub proof fn lemma_traded_front(e: MatcherTradeEvent, events: Seq<MatcherTradeEvent>)
    ensures
        traded(seq![e] + events) == traded(events) + (if e.event_type == MatcherEventType::Trade {
            e.size as int
        } else {
            0
        }),
    decreases events.len(),
{
    let es = seq![e] + events;
    if events.len() == 0 {
        assert(es.drop_last() =~= Seq::<MatcherTradeEvent>::empty());
        assert(traded(es.drop_last()) == 0);
    } else {
        assert(es.drop_last() =~= seq![e] + events.drop_last());
        assert(es.last() == events.last());
        lemma_traded_front(e, events.drop_last());
    }
}

/// What a trade of an incoming order is like: it has a size, its price is taken, and
/// its resting side is another user wherever self-trades are prevented.
pub open spec fn fair(t: Taker, e: MatcherTradeEvent) -> bool {
    e.event_type == MatcherEventType::Trade ==> {
        &&& e.size > 0
        &&& match t.action {
            OrderAction::Bid => e.price <= t.limit,
            OrderAction::Ask => e.price >= t.limit,
        }
        &&& t.stp != SelfTradePrevention::Allow ==> e.matched_order_uid != t.uid
    }
}

pub open spec fn all_fair(t: Taker, events: Seq<MatcherTradeEvent>) -> bool {
    forall|i: int| 0 <= i < events.len() ==> fair(t, #[trigger] events[i])
}

proof fn lemma_fair_front(t: Taker, e: MatcherTradeEvent, events: Seq<MatcherTradeEvent>)
    requires
        fair(t, e),
        all_fair(t, events),
    ensures
        all_fair(t, seq![e] + events),
{
    let es = seq![e] + events;
    assert forall|i: int| 0 <= i < es.len() implies fair(t, #[trigger] es[i]) by {
        if i > 0 {
            assert(es[i] == events[i - 1]);
        }
    }
}

/// Every order of a queue wants something.
pub open spec fn all_want(q: Seq<DirectOrder>) -> bool {
    forall|i: int| 0 <= i < q.len() ==> 0 <= (#[trigger] q[i]).filled < q[i].size
}

pub proof fn lemma_want_rest(q: Seq<DirectOrder>)
    requires
        all_want(q),
        q.len() > 0,
    ensures
        all_want(q.drop_first()),
{
    assert forall|i: int| 0 <= i < q.drop_first().len() implies 0 <= (
    #[trigger] q.drop_first()[i]).filled < q.drop_first()[i].size by {
        assert(q.drop_first()[i] == q[i + 1]);
    }
}

/// What an order gets and what it still wants are what it wanted. It gets no more
/// than that, only at prices that it takes, and never from its own user where
/// self-trades are prevented.
pub proof fn law_fills_are_fair(t: Taker, q: Seq<DirectOrder>, remaining: int)
    requires
        all_want(q),
        0 <= remaining <= i64::MAX,
    ensures
        ({
            let m = model::matched(t, q, remaining);
            &&& traded(m.events) + m.remaining == remaining
            &&& 0 <= m.remaining
            &&& all_fair(t, m.events)
            &&& all_want(m.queue)
        }),
    decreases q.len(),
{
    let m = model::matched(t, q, remaining);
    if remaining <= 0 || q.len() == 0 || !model::crosses(t, q[0].price) {
    } else {
        let o = q[0];
        let rest = q.drop_first();
        lemma_want_rest(q);
        if o.uid == t.uid && t.stp != SelfTradePrevention::Allow {
            let e = model::struck(o);
            match t.stp {
                SelfTradePrevention::CancelMaker => {
                    let n = model::matched(t, rest, remaining);
                    law_fills_are_fair(t, rest, remaining);
                    lemma_traded_front(e, n.events);
                    lemma_fair_front(t, e, n.events);
                    assert(m.queue =~= n.queue);
                },
                SelfTradePrevention::CancelBoth => {
                    lemma_traded_front(e, Seq::empty());
                    lemma_fair_front(t, e, Seq::empty());
                    assert(m.queue =~= rest);
                },
                SelfTradePrevention::Skip => {
                    let n = model::matched(t, rest, remaining);
                    law_fills_are_fair(t, rest, remaining);
                    assert(m.events =~= n.events);
                    assert forall|i: int| 0 <= i < m.queue.len() implies 0 <= (
                    #[trigger] m.queue[i]).filled < m.queue[i].size by {
                        if i > 0 {
                            assert(m.queue[i] == n.queue[i - 1]);
                        }
                    }
                },
                _ => {},
            }
        } else if remaining < model::left(o) {
            let e = model::trade_with(t, o, remaining);
            lemma_traded_front(e, Seq::empty());
            lemma_fair_front(t, e, Seq::empty());
            assert(m.queue =~= q.update(0, model::traded(o, remaining)));
        } else {
            let e = model::trade_with(t, o, model::left(o));
            let n = model::matched(t, rest, remaining - model::left(o));
            law_fills_are_fair(t, rest, remaining - model::left(o));
            lemma_traded_front(e, n.events);
            lemma_fair_front(t, e, n.events);
            assert(m.queue =~= n.queue);
        }
    }
}

pub proof fn lemma_side_wants(q: Seq<DirectOrder>, action: OrderAction)
    requires
        model::side_orderly(q, action),
    ensures
        all_want(q),
{
    assert forall|i: int| 0 <= i < q.len() implies 0 <= (#[trigger] q[i]).filled
        < q[i].size by {
        assert(model::order_ok(q[i], action));
    }
}

pub proof fn lemma_traded_back(events: Seq<MatcherTradeEvent>, e: MatcherTradeEvent)
    ensures
        traded(events + seq![e]) == traded(events) + (if e.event_type == MatcherEventType::Trade {
            e.size as int
        } else {
            0
        }),
{
    let es = events + seq![e];
    assert(es.drop_last() =~= events);
}

/// Moving an order never fills it beyond its size: what it gets on the move is at
/// most what it still wanted.
pub proof fn law_move_never_overfills(b: BookModel, c: OrderCommand)
    requires
        model::orderly(b),
        b.has(c.order_id),
    ensures
        0 <= traded(model::moved(b, c).events),
        b.order(c.order_id).filled + traded(model::moved(b, c).events) <= b.order(c.order_id).size,
{
    let o = b.order(c.order_id);
    let a = b.side_of(c.order_id);
    let q = b.side(a);
    let k = model::place_of(q, c.order_id);
    assert(model::listed(q, c.order_id));
    assert(0 <= k < q.len() && q[k].order_id == c.order_id);
    assert(model::order_ok(q[k], a));
    let b1 = b.without(c.order_id);
    let other = b1.side(o.action.other());
    lemma_side_wants(other, o.action.other());
    let m = model::matched(model::mover(b, o, c.price), other, model::left(o));
    law_fills_are_fair(model::mover(b, o, c.price), other, model::left(o));
    lemma_traded_nonneg(model::mover(b, o, c.price), m.events);
    if m.aborted && m.remaining > 0 {
        lemma_traded_back(m.events, api::reject_event(m.remaining, c.price, o.reserve_price));
    } else {
        assert(m.events + Seq::<MatcherTradeEvent>::empty() =~= m.events);
    }
}

pub proof fn lemma_traded_nonneg(t: Taker, events: Seq<MatcherTradeEvent>)
    requires
        all_fair(t, events),
    ensures
        traded(events) >= 0,
    decreases events.len(),
{
    if events.len() > 0 {
        assert(fair(t, events[events.len() - 1]));
        assert forall|i: int| 0 <= i < events.drop_last().len() implies fair(
            t,
            #[trigger] events.drop_last()[i],
        ) by {
            assert(events.drop_last()[i] == events[i]);
        }
        lemma_traded_nonneg(t, events.drop_last());
    }
}

/// A book that is turned down stays as it is, and reports nothing.
pub proof fn law_refusal_changes_nothing(b: BookModel, c: OrderCommand)
    ensures
        model::new_ordered(b, c).code != CommandResultCode::Success ==> model::new_ordered(
            b,
            c,
        ).book == b && model::new_ordered(b, c).events.len() == 0,
        model::cancelled(b, c).code != CommandResultCode::Success ==> model::cancelled(b, c).book
            == b && model::cancelled(b, c).events.len() == 0,
        model::moved(b, c).code != CommandResultCode::Success ==> model::moved(b, c).book == b
            && model::moved(b, c).events.len() == 0,
        model::reduced(b, c).code != CommandResultCode::Success ==> model::reduced(b, c).book == b
            && model::reduced(b, c).events.len() == 0,
{
}

/// A cancellation undoes an order that came to rest untouched: the book is what it
/// was, and all that the order wanted leaves at the price at which it was frozen.
pub proof fn law_cancel_undoes_place(b: BookModel, c: OrderCommand)
    requires
        !b.has(c.order_id),
        c.size > 0,
        c.order_type == OrderType::Gtc,
        model::matched(
            model::taker_of(b, c),
            b.side(c.action.other()),
            c.size as int,
        ) == model::settled(b.side(c.action.other()), c.size as int, false),
    ensures
        ({
            let placed = model::new_ordered(b, c);
            let gone = model::cancelled(placed.book, c);
            &&& placed.code == CommandResultCode::Success
            &&& placed.events.len() == 0
            &&& gone.code == CommandResultCode::Success
            &&& gone.book == b
            &&& gone.events == seq![api::reject_event(c.size as int, c.price, c.reserve_price)]
        }),
{
    let o = model::order_of(c, c.size as int);
    let q = b.side(c.action);
    let k = model::slot_of(q, model::rank_of(c.action, c.price));
    lemma_slot_range(q, model::rank_of(c.action, c.price));
    let q2 = q.insert(k, o);
    let b2 = model::new_ordered(b, c).book;
    assert(b2 == b.with(c.action, q2)) by {
        assert(b.with(c.action.other(), b.side(c.action.other())) == b);
    }
    assert(q2[k].order_id == c.order_id);
    assert forall|i: int| 0 <= i < q2.len() && (#[trigger] q2[i]).order_id
        == c.order_id implies i == k by {
        if i < k {
            assert(q[i] == q2[i]);
        } else if i > k {
            assert(q[i - 1] == q2[i]);
        }
    }
    assert(model::place_of(q2, c.order_id) == k);
    assert(q2.remove(k) =~= q);
    if c.action == OrderAction::Bid {
        assert(!model::listed(b2.asks, c.order_id));
    }
    assert(b2.without(c.order_id) =~= b);
}

/// Whether the sides of a book keep apart.
pub open spec fn uncrossed(b: BookModel) -> bool {
    forall|i: int, j: int|
        0 <= i < b.asks.len() && 0 <= j < b.bids.len() ==> (#[trigger] b.asks[i]).price > (
        #[trigger] b.bids[j]).price
}

/// All prices of a queue lie between two numbers.
spec fn between(q: Seq<DirectOrder>, low: int, high: int) -> bool {
    forall|i: int| 0 <= i < q.len() ==> low < (#[trigger] q[i]).price < high
}

proof fn lemma_between_rest(q: Seq<DirectOrder>, low: int, high: int)
    requires
        q.len() > 0,
        between(q, low, high),
    ensures
        between(q.drop_first(), low, high),
{
    assert forall|i: int| 0 <= i < q.drop_first().len() implies low < (
    #[trigger] q.drop_first()[i]).price < high by {
        assert(q.drop_first()[i] == q[i + 1]);
    }
}

/// Matching brings up no new prices.
proof fn lemma_match_between(t: Taker, q: Seq<DirectOrder>, remaining: int, low: int, high: int)
    requires
        between(q, low, high),
    ensures
        between(model::matched(t, q, remaining).queue, low, high),
    decreases q.len(),
{
    let m = model::matched(t, q, remaining);
    if remaining <= 0 || q.len() == 0 || !model::crosses(t, q[0].price) {
    } else {
        let o = q[0];
        let rest = q.drop_first();
        lemma_between_rest(q, low, high);
        if o.uid == t.uid && t.stp != SelfTradePrevention::Allow {
            lemma_match_between(t, rest, remaining, low, high);
            let n = model::matched(t, rest, remaining);
            match t.stp {
                SelfTradePrevention::CancelMaker => {
                    assert(m.queue =~= n.queue);
                },
                SelfTradePrevention::CancelBoth => {
                    assert(m.queue =~= rest);
                },
                SelfTradePrevention::Skip => {
                    assert forall|i: int| 0 <= i < m.queue.len() implies low < (
                    #[trigger] m.queue[i]).price < high by {
                        if i > 0 {
                            assert(m.queue[i] == n.queue[i - 1]);
                        }
                    }
                },
                _ => {},
            }
        } else if remaining < model::left(o) {
            assert(m.queue =~= q.update(0, model::traded(o, remaining)));
        } else {
            lemma_match_between(t, rest, remaining - model::left(o), low, high);
            assert(m.queue =~= model::matched(t, rest, remaining - model::left(o)).queue);
        }
    }
}

/// No price of a queue is taken.
spec fn none_crosses(t: Taker, q: Seq<DirectOrder>) -> bool {
    forall|i: int| 0 <= i < q.len() ==> !model::crosses(t, (#[trigger] q[i]).price)
}

/// An order takes no price at which an order of the same user rests.
pub open spec fn meets_no_own(t: Taker, q: Seq<DirectOrder>) -> bool {
    forall|i: int|
        0 <= i < q.len() && (#[trigger] q[i]).uid == t.uid ==> !model::crosses(t, q[i].price)
}

/// Where something is still wanted after matching, no price that is left is taken.
proof fn lemma_match_exhausts(t: Taker, q: Seq<DirectOrder>, remaining: int)
    requires
        model::side_orderly(q, t.action.other()),
        t.stp == SelfTradePrevention::Skip ==> meets_no_own(t, q),
    ensures
        ({
            let m = model::matched(t, q, remaining);
            m.remaining > 0 && !m.aborted ==> none_crosses(t, m.queue)
        }),
    decreases q.len(),
{
    let m = model::matched(t, q, remaining);
    if remaining <= 0 || q.len() == 0 || !model::crosses(t, q[0].price) {
        assert forall|i: int| 0 <= i < q.len() && remaining > 0 implies !model::crosses(
            t,
            (#[trigger] q[i]).price,
        ) by {
            assert(model::rank_of(t.action.other(), q[0].price) <= model::rank_of(
                t.action.other(),
                q[i].price,
            ));
        }
    } else {
        let o = q[0];
        let rest = q.drop_first();
        lemma_orderly_rest(q, t.action.other());
        assert forall|i: int|
            meets_no_own(t, q) && 0 <= i < rest.len() && (#[trigger] rest[i]).uid
                == t.uid implies !model::crosses(t, rest[i].price) by {
            assert(rest[i] == q[i + 1]);
        }
        if o.uid == t.uid && t.stp == SelfTradePrevention::CancelMaker {
            lemma_match_exhausts(t, rest, remaining);
            assert(m.queue =~= model::matched(t, rest, remaining).queue);
        } else if o.uid == t.uid && t.stp != SelfTradePrevention::Allow {
            assert(m.aborted);
        } else if remaining < model::left(o) {
        } else {
            lemma_match_exhausts(t, rest, remaining - model::left(o));
            assert(m.queue =~= model::matched(t, rest, remaining - model::left(o)).queue);
        }
    }
}

proof fn lemma_orderly_rest(q: Seq<DirectOrder>, action: OrderAction)
    requires
        q.len() > 0,
        model::side_orderly(q, action),
    ensures
        model::side_orderly(q.drop_first(), action),
{
    lemma_orderly_remove(q, 0, action);
    assert(q.remove(0) =~= q.drop_first());
}

proof fn lemma_orderly_remove(q: Seq<DirectOrder>, k: int, action: OrderAction)
    requires
        0 <= k < q.len(),
        model::side_orderly(q, action),
    ensures
        model::side_orderly(q.remove(k), action),
{
    let r = q.remove(k);
    assert forall|i: int| 0 <= i < r.len() implies model::order_ok(#[trigger] r[i], action) by {
        assert(r[i] == q[if i < k { i } else { i + 1 }]);
    }
    assert forall|i: int, j: int| 0 <= i <= j < r.len() implies model::rank_of(
        action,
        (#[trigger] r[i]).price,
    ) <= model::rank_of(action, (#[trigger] r[j]).price) by {
        assert(r[i] == q[if i < k { i } else { i + 1 }]);
        assert(r[j] == q[if j < k { j } else { j + 1 }]);
    }
    assert forall|i: int, j: int|
        0 <= i < r.len() && 0 <= j < r.len() && i != j implies (#[trigger] r[i]).order_id != (
    #[trigger] r[j]).order_id by {
        assert(r[i] == q[if i < k { i } else { i + 1 }]);
        assert(r[j] == q[if j < k { j } else { j + 1 }]);
    }
}

/// An order comes to rest whose price no order of the other side takes.
proof fn lemma_rest_uncrossed(b: BookModel, o: DirectOrder)
    requires
        uncrossed(b),
        forall|i: int|
            0 <= i < b.side(o.action.other()).len() ==> ({
                let p = (#[trigger] b.side(o.action.other())[i]).price;
                match o.action {
                    OrderAction::Bid => p > o.price,
                    OrderAction::Ask => p < o.price,
                }
            }),
    ensures
        uncrossed(model::rested(b, o)),
{
    let b2 = model::rested(b, o);
    let q = b.side(o.action);
    let k = model::slot_of(q, model::rank_of(o.action, o.price));
    lemma_slot_range(q, model::rank_of(o.action, o.price));
    assert forall|i: int, j: int|
        0 <= i < b2.asks.len() && 0 <= j < b2.bids.len() implies (#[trigger] b2.asks[i]).price > (
    #[trigger] b2.bids[j]).price by {
        match o.action {
            OrderAction::Ask => {
                assert(b.bids[j] == b.side(o.action.other())[j]);
                if i < k {
                    assert(b2.asks[i] == b.asks[i]);
                } else if i > k {
                    assert(b2.asks[i] == b.asks[i - 1]);
                }
            },
            OrderAction::Bid => {
                assert(b.asks[i] == b.side(o.action.other())[i]);
                if j < k {
                    assert(b2.bids[j] == b.bids[j]);
                } else if j > k {
                    assert(b2.bids[j] == b.bids[j - 1]);
                }
            },
        }
    }
}

/// Matching an order only takes from the other side.
proof fn lemma_taken_uncrossed(b: BookModel, t: Taker, remaining: int)
    requires
        uncrossed(b),
    ensures
        uncrossed(
            model::after_match(
                b,
                t.action,
                model::matched(t, b.side(t.action.other()), remaining),
            ),
        ),
{
    let q = b.side(t.action.other());
    let m = model::matched(t, q, remaining);
    let b2 = model::after_match(b, t.action, m);
    assert forall|i: int, j: int|
        0 <= i < b2.asks.len() && 0 <= j < b2.bids.len() implies (#[trigger] b2.asks[i]).price > (
    #[trigger] b2.bids[j]).price by {
        match t.action {
            OrderAction::Bid => {
                let x = b.bids[j].price as int;
                assert(between(q, x, i64::MAX + 1));
                lemma_match_between(t, q, remaining, x, i64::MAX + 1);
                assert(b2.asks[i] == m.queue[i]);
            },
            OrderAction::Ask => {
                let x = b.asks[i].price as int;
                assert(between(q, i64::MIN - 1, x));
                lemma_match_between(t, q, remaining, i64::MIN - 1, x);
                assert(b2.bids[j] == m.queue[j]);
            },
        }
    }
}

/// An order is matched, and what is left of it may come to rest.
proof fn lemma_match_uncrossed(b: BookModel, t: Taker, remaining: int, o: DirectOrder)
    requires
        model::side_orderly(b.side(t.action.other()), t.action.other()),
        uncrossed(b),
        t.stp == SelfTradePrevention::Skip ==> meets_no_own(t, b.side(t.action.other())),
        o.action == t.action,
        o.price == t.limit,
    ensures
        ({
            let m = model::matched(t, b.side(t.action.other()), remaining);
            let b2 = model::after_match(b, t.action, m);
            &&& uncrossed(b2)
            &&& m.remaining > 0 && !m.aborted ==> uncrossed(model::rested(b2, o))
        }),
{
    let q = b.side(t.action.other());
    let m = model::matched(t, q, remaining);
    let b2 = model::after_match(b, t.action, m);
    lemma_match_exhausts(t, q, remaining);
    lemma_taken_uncrossed(b, t, remaining);
    if m.remaining > 0 && !m.aborted {
        assert(b2.side(o.action.other()) == m.queue);
        lemma_rest_uncrossed(b2, o);
    }
}

/// No command makes the sides of a book overlap. Where an order passes over resting
/// orders of the same user, and takes the price of one, it may come to rest across it.
pub proof fn law_stays_uncrossed(b: BookModel, c: OrderCommand)
    requires
        model::orderly(b),
        uncrossed(b),
    ensures
        (b.spec.stp == SelfTradePrevention::Skip ==> meets_no_own(
            model::taker_of(b, c),
            b.side(c.action.other()),
        )) ==> uncrossed(model::new_ordered(b, c).book),
        uncrossed(model::cancelled(b, c).book),
        (b.spec.stp == SelfTradePrevention::Skip && b.has(c.order_id) ==> meets_no_own(
            model::mover(b, b.order(c.order_id), c.price),
            b.side(b.order(c.order_id).action.other()),
        )) ==> uncrossed(model::moved(b, c).book),
        uncrossed(model::reduced(b, c).book),
{
    let t = model::taker_of(b, c);
    let m = model::matched(t, b.side(c.action.other()), c.size as int);
    if b.spec.stp == SelfTradePrevention::Skip ==> meets_no_own(t, b.side(c.action.other())) {
        lemma_match_uncrossed(b, t, c.size as int, model::order_of(c, m.remaining));
    }
    lemma_taken_uncrossed(b, model::price_taker(b, c), c.size as int);
    if b.has(c.order_id) {
        let o = b.order(c.order_id);
        let a = b.side_of(c.order_id);
        let q = b.side(a);
        let k = model::place_of(q, c.order_id);
        assert(model::listed(q, c.order_id));
        assert(model::order_ok(q[k], a));
        let b1 = b.without(c.order_id);
        assert(uncrossed(b1)) by {
            lemma_without_uncrossed(b, a, k);
        }
        let tm = model::mover(b, o, c.price);
        let mm = model::matched(tm, b1.side(o.action.other()), model::left(o));
        let o2 = DirectOrder { price: c.price, filled: (o.size - mm.remaining) as i64, ..o };
        assert(b1.side(a.other()) == b.side(a.other()));
        if b.spec.stp == SelfTradePrevention::Skip ==> meets_no_own(tm, b.side(a.other())) {
            lemma_match_uncrossed(b1, tm, model::left(o), o2);
        }
        let by = model::smaller(model::left(o), c.size as int);
        let o3 = DirectOrder { size: (o.size - by) as i64, ..o };
        assert(uncrossed(b.with(a, q.update(k, o3)))) by {
            let b3 = b.with(a, q.update(k, o3));
            assert forall|i: int, j: int|
                0 <= i < b3.asks.len() && 0 <= j < b3.bids.len() implies (
            #[trigger] b3.asks[i]).price > (#[trigger] b3.bids[j]).price by {
                assert(b.asks[i].price > b.bids[j].price);
            }
        }
    }
}

proof fn lemma_without_uncrossed(b: BookModel, action: OrderAction, k: int)
    requires
        uncrossed(b),
        0 <= k < b.side(action).len(),
    ensures
        uncrossed(b.with(action, b.side(action).remove(k))),
{
    let b2 = b.with(action, b.side(action).remove(k));
    assert forall|i: int, j: int|
        0 <= i < b2.asks.len() && 0 <= j < b2.bids.len() implies (#[trigger] b2.asks[i]).price > (
    #[trigger] b2.bids[j]).price by {
        match action {
            OrderAction::Ask => {
                assert(b2.asks[i] == b.asks[if i < k { i } else { i + 1 }]);
            },
            OrderAction::Bid => {
                assert(b2.bids[j] == b.bids[if j < k { j } else { j + 1 }]);
            },
        }
    }
}

proof fn lemma_meets_rest(t: Taker, q: Seq<DirectOrder>)
    requires
        q.len() > 0,
        meets_no_own(t, q),
    ensures
        meets_no_own(t, q.drop_first()),
{
    let rest = q.drop_first();
    assert forall|i: int| 0 <= i < rest.len() && (#[trigger] rest[i]).uid
        == t.uid implies !model::crosses(t, rest[i].price) by {
        assert(rest[i] == q[i + 1]);
    }
}

/// Where all prices of a side are taken, its orders fill what they want.
proof fn lemma_taken_fill(t: Taker, q: Seq<DirectOrder>, remaining: int)
    requires
        all_want(q),
        forall|i: int| 0 <= i < q.len() ==> model::crosses(t, (#[trigger] q[i]).price),
        t.stp == SelfTradePrevention::Allow || meets_no_own(t, q),
        remaining > 0,
        model::cost(q, remaining).is_some(),
    ensures
        model::matched(t, q, remaining).remaining == 0,
        !model::matched(t, q, remaining).aborted,
    decreases q.len(),
{
    let rest = q.drop_first();
    let l = model::left(q[0]);
    lemma_want_rest(q);
    if meets_no_own(t, q) {
        lemma_meets_rest(t, q);
    }
    if remaining == l {
        assert(model::matched(t, rest, 0) == model::settled(rest, 0, false));
    } else if remaining > l {
        assert forall|i: int| 0 <= i < rest.len() implies model::crosses(
            t,
            (#[trigger] rest[i]).price,
        ) by {
            assert(rest[i] == q[i + 1]);
        }
        lemma_taken_fill(t, rest, remaining - l);
    }
}

/// An order to be filled within a budget is filled in full, or leaves in full and the
/// book stays as it is. Only where the other side holds an order of the same user, and
/// self-trades are prevented, it may be filled in part.
pub proof fn law_fill_or_kill(b: BookModel, c: OrderCommand)
    requires
        model::orderly(b),
        !b.has(c.order_id),
        c.order_type == OrderType::FokBudget,
        c.size > 0,
        b.spec.stp == SelfTradePrevention::Allow || forall|i: int|
            0 <= i < b.side(c.action.other()).len() ==> (#[trigger] b.side(
                c.action.other(),
            )[i]).uid != c.uid,
    ensures
        ({
            let step = model::new_ordered(b, c);
            let filled = model::cost(b.side(c.action.other()), c.size as int) matches Some(n)
                && model::within_budget(c.action, n, c.price as int);
            &&& filled ==> traded(step.events) == c.size
            &&& !filled ==> step.book == b && step.events == seq![
                api::reject_event(c.size as int, c.price, c.reserve_price),
            ]
        }),
{
    let t = model::price_taker(b, c);
    let q = b.side(c.action.other());
    let m = model::matched(t, q, c.size as int);
    lemma_side_wants(q, c.action.other());
    if let Some(n) = model::cost(q, c.size as int) {
        if model::within_budget(c.action, n, c.price as int) {
            lemma_taken_fill(t, q, c.size as int);
            law_fills_are_fair(t, q, c.size as int);
            assert(m.events + Seq::<MatcherTradeEvent>::empty() =~= m.events);
        }
    }
}

} // verus!
