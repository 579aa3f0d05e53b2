//! What the commands of a book are for: placing, moving, reducing and cancelling orders.
use vstd::prelude::*;

use crate::exchange::api;
use crate::exchange::api::{
    CommandResultCode, MatcherEventType, MatcherTradeEvent, OrderAction, OrderCommand, OrderId,
    OrderType, Price, SelfTradePrevention, SymbolType,
};
use crate::exchange::laws;
use crate::exchange::model;
use crate::exchange::model::{BookModel, DirectOrder, Taker};

verus! {

proof fn lemma_no_newcomer(t: Taker, q: Seq<DirectOrder>, remaining: int, id: OrderId)
    requires
        !model::listed(q, id),
    ensures
        !model::listed(model::matched(t, q, remaining).queue, id),
    decreases q.len(),
{
    let m = model::matched(t, q, remaining);
    if q.len() > 0 {
        let rest = q.drop_first();
        assert(q[0].order_id != id);
        assert(!model::listed(rest, id)) by {
            if model::listed(rest, id) {
                let i = choose|i: int| 0 <= i < rest.len() && (#[trigger] rest[i]).order_id == id;
                assert(q[i + 1].order_id == id);
            }
        }
        lemma_no_newcomer(t, rest, remaining, id);
        lemma_no_newcomer(t, rest, remaining - model::left(q[0]), id);
        if model::listed(m.queue, id) {
            let i = choose|i: int| 0 <= i < m.queue.len() && (#[trigger] m.queue[i]).order_id == id;
            let n = model::matched(t, rest, remaining).queue;
            let k = model::matched(t, rest, remaining - model::left(q[0])).queue;
            if m.queue =~= q {
                assert(q[i].order_id == id);
            } else if m.queue =~= q.update(0, model::traded(q[0], remaining)) {
                assert(q[i].order_id == id);
            } else if m.queue =~= rest {
                assert(rest[i].order_id == id);
            } else if m.queue =~= n {
                assert(n[i].order_id == id);
            } else if m.queue =~= k {
                assert(k[i].order_id == id);
            } else {
                assert(m.queue =~= seq![q[0]] + n);
                assert(n[i - 1].order_id == id);
            }
        }
    }
}

/// The place of an order in a book in order is the only one with its id.
proof fn lemma_found(b: BookModel, id: OrderId)
    requires
        model::orderly(b),
        b.has(id),
    ensures
        ({
            let a = b.side_of(id);
            let q = b.side(a);
            let k = model::place_of(q, id);
            &&& 0 <= k < q.len()
            &&& q[k] == b.order(id)
            &&& q[k].order_id == id
            &&& q[k].action == a
            &&& 0 <= q[k].filled < q[k].size
            &&& !model::listed(b.side(a.other()), id)
            &&& !model::listed(q.remove(k), id)
            &&& b.without(id) == b.with(a, q.remove(k))
            &&& !b.without(id).has(id)
        }),
{
    let a = b.side_of(id);
    let q = b.side(a);
    let k = model::place_of(q, id);
    assert(model::listed(q, id));
    assert(0 <= k < q.len() && q[k].order_id == id);
    assert(model::order_ok(q[k], a));
    if model::listed(b.side(a.other()), id) {
        let r = b.side(a.other());
        let j = choose|j: int| 0 <= j < r.len() && (#[trigger] r[j]).order_id == id;
        match a {
            OrderAction::Ask => {
                assert(b.asks[k].order_id != b.bids[j].order_id);
            },
            OrderAction::Bid => {
                assert(b.asks[j].order_id != b.bids[k].order_id);
            },
        }
    }
    if model::listed(q.remove(k), id) {
        let r = q.remove(k);
        let j = choose|j: int| 0 <= j < r.len() && (#[trigger] r[j]).order_id == id;
        if j < k {
            assert(q[j].order_id == id);
        } else {
            assert(q[j + 1].order_id == id);
        }
    }
    let w = b.without(id);
    match a {
        OrderAction::Ask => {
            assert(w.asks == q.remove(k) && w.bids == b.bids);
        },
        OrderAction::Bid => {
            assert(w.bids == q.remove(k) && w.asks == b.asks);
        },
    }
}

/// Without prevention nothing ends matching early.
proof fn lemma_not_aborted(t: Taker, q: Seq<DirectOrder>, remaining: int)
    requires
        t.stp == SelfTradePrevention::Allow,
    ensures
        !model::matched(t, q, remaining).aborted,
    decreases q.len(),
{
    if q.len() > 0 {
        lemma_not_aborted(t, q.drop_first(), remaining - model::left(q[0]));
    }
}

/// An order that comes to rest in a book without its id is the one that the book then has
/// under the id.
proof fn lemma_rests(b: BookModel, o: DirectOrder)
    requires
        !b.has(o.order_id),
    ensures
        model::rested(b, o).has(o.order_id),
        model::rested(b, o).order(o.order_id) == o,
        model::rested(b, o).side_of(o.order_id) == o.action,
        model::rested(b, o).side(o.action.other()) == b.side(o.action.other()),
{
    let q = b.side(o.action);
    let k = model::slot_of(q, model::rank_of(o.action, o.price));
    laws::lemma_slot_range(q, model::rank_of(o.action, o.price));
    let q2 = q.insert(k, o);
    let c = model::rested(b, o);
    assert(!model::listed(b.asks, o.order_id) && !model::listed(b.bids, o.order_id));
    assert(c.side(o.action) == q2);
    assert(q2[k] == o);
    assert(model::listed(q2, o.order_id));
    assert forall|i: int| 0 <= i < q2.len() && (#[trigger] q2[i]).order_id
        == o.order_id implies i == k by {
        if i < k {
            assert(q[i] == q2[i]);
        } else if i > k {
            assert(q[i - 1] == q2[i]);
        }
    }
    assert(c.side(o.action.other()) == b.side(o.action.other()));
    assert(!model::listed(c.side(o.action.other()), o.order_id));
}

/// An order of the book can be moved by its user to any price above zero, an ask without
/// further ado, and a bid of a currency pair up to the price that it was reserved at. What
/// is left of it then rests at the new price, or nothing of it is in the book: it was
/// filled whole, or self-trade prevention sent the rest away. Whoever it belongs to, its side
/// and what it was reserved at stay.
pub proof fn law_moved_orders_rest_at_their_new_price(b: BookModel, c: OrderCommand)
    requires
        model::orderly(b),
        b.has(c.order_id),
        b.order(c.order_id).uid == c.uid,
        c.price > 0,
    ensures
        ({
            let o = b.order(c.order_id);
            let step = model::moved(b, c);
            let reaches = o.action == OrderAction::Bid && b.spec.symbol_type
                == SymbolType::CurrencyExchangePair && c.price > o.reserve_price;
            let got = laws::traded(step.events);
            &&& o.action == OrderAction::Ask ==> step.code == CommandResultCode::Success
            &&& c.price <= o.reserve_price ==> step.code == CommandResultCode::Success
            &&& step.code == (if reaches {
                CommandResultCode::RiskInvalidReserveBidPrice
            } else {
                CommandResultCode::Success
            })
            &&& step.code != CommandResultCode::Success ==> step.book == b
            &&& step.code == CommandResultCode::Success ==> {
                &&& step.action == o.action
                &&& forall|i: int|
                    0 <= i < step.events.len() && (#[trigger] step.events[i]).event_type
                        == MatcherEventType::Trade ==> {
                        &&& acceptable(o.action, c.price, step.events[i].price)
                        &&& b.spec.stp != SelfTradePrevention::Allow
                            ==> step.events[i].matched_order_uid != c.uid
                    }
                &&& step.book.has(c.order_id) ==> {
                    let n = step.book.order(c.order_id);
                    &&& n.price == c.price
                    &&& n.uid == o.uid
                    &&& n.action == o.action
                    &&& n.size == o.size
                    &&& n.reserve_price == o.reserve_price
                    &&& n.timestamp == o.timestamp
                    &&& n.filled == o.filled + got
                }
                &&& !step.book.has(c.order_id) ==> o.filled + got == o.size || (
                step.events.len() > 0 && step.events.last().event_type == MatcherEventType::Reject
                    && step.events.last().size == o.size - o.filled - got && b.spec.stp
                    != SelfTradePrevention::Allow)
            }
        }),
{
    let o = b.order(c.order_id);
    lemma_found(b, c.order_id);
    let b1 = b.without(c.order_id);
    let t = model::mover(b, o, c.price);
    let q = b1.side(o.action.other());
    let m = model::matched(t, q, model::left(o));
    assert(q == b.side(o.action.other()));
    laws::lemma_side_wants(q, o.action.other());
    laws::law_fills_are_fair(t, q, model::left(o));
    laws::lemma_traded_nonneg(t, m.events);
    lemma_no_newcomer(t, q, model::left(o), c.order_id);
    let b2 = model::after_match(b1, o.action, m);
    assert(!b2.has(c.order_id)) by {
        assert(b2.side(o.action) == b1.side(o.action));
        assert(b2.side(o.action.other()) == m.queue);
        assert(!model::listed(b1.side(o.action), c.order_id));
    }
    let o2 = DirectOrder { price: c.price, filled: (o.size - m.remaining) as i64, ..o };
    lemma_rests(b2, o2);
    if b.spec.stp == SelfTradePrevention::Allow {
        lemma_not_aborted(t, q, model::left(o));
    }
    let step = model::moved(b, c);
    assert forall|i: int| 0 <= i < step.events.len() && step.code == CommandResultCode::Success && (
    #[trigger] step.events[i]).event_type == MatcherEventType::Trade implies {
        &&& acceptable(o.action, c.price, step.events[i].price)
        &&& b.spec.stp != SelfTradePrevention::Allow ==> step.events[i].matched_order_uid != c.uid
    } by {
        assert(i < m.events.len());
        assert(laws::fair(t, m.events[i]));
    }
    if m.aborted && m.remaining > 0 {
        laws::lemma_traded_back(
            m.events,
            api::reject_event(m.remaining, c.price, o.reserve_price),
        );
    } else {
        assert(m.events + Seq::<MatcherTradeEvent>::empty() =~= m.events);
    }
}

/// Nobody but its user moves, reduces or cancels an order, and no order that is not there: the
/// book stays, and the answer is that the order is not known.
pub proof fn law_orders_are_their_users(b: BookModel, c: OrderCommand)
    requires
        !b.has(c.order_id) || b.order(c.order_id).uid != c.uid,
        c.price > 0,
        c.size > 0,
    ensures
        model::moved(b, c).code == CommandResultCode::MatchingUnknownOrderId,
        model::moved(b, c).book == b,
        model::reduced(b, c).code == CommandResultCode::MatchingUnknownOrderId,
        model::reduced(b, c).book == b,
        model::cancelled(b, c).code == CommandResultCode::MatchingUnknownOrderId,
        model::cancelled(b, c).book == b,
{
}

/// A cancelled order leaves, and all others stay where they are. The event gives back what
/// was still wanted of it.
pub proof fn law_cancelled_orders_leave(b: BookModel, c: OrderCommand)
    requires
        model::orderly(b),
        b.has(c.order_id),
        b.order(c.order_id).uid == c.uid,
    ensures
        ({
            let o = b.order(c.order_id);
            let step = model::cancelled(b, c);
            &&& step.code == CommandResultCode::Success
            &&& !step.book.has(c.order_id)
            &&& step.book.side(o.action.other()) == b.side(o.action.other())
            &&& exists|k: int|
                0 <= k < b.side(o.action).len() && #[trigger] b.side(o.action)[k] == o
                    && step.book.side(o.action) == b.side(o.action).remove(k)
            &&& step.action == o.action
            &&& step.events.len() == 1
            &&& step.events[0].event_type == MatcherEventType::Reject
            &&& step.events[0].size == o.size - o.filled
            &&& step.events[0].price == o.price
            &&& step.events[0].bidder_hold_price == o.reserve_price
        }),
{
    lemma_found(b, c.order_id);
    let o = b.order(c.order_id);
    let k = model::place_of(b.side(o.action), c.order_id);
    assert(b.side(o.action)[k] == o);
}

/// Reducing an order takes a size from what it still wants, and the order leaves where
/// nothing is left. It keeps its place, its price and what was filled of it. The event
/// gives back what was taken.
pub proof fn law_reduced_orders_want_less(b: BookModel, c: OrderCommand)
    requires
        model::orderly(b),
        b.has(c.order_id),
        b.order(c.order_id).uid == c.uid,
        c.size > 0,
    ensures
        ({
            let o = b.order(c.order_id);
            let q = b.side(o.action);
            let step = model::reduced(b, c);
            let wanted = o.size - o.filled;
            &&& step.code == CommandResultCode::Success
            &&& step.action == o.action
            &&& step.events.len() == 1
            &&& step.events[0].event_type == MatcherEventType::Reject
            &&& step.events[0].price == o.price
            &&& step.events[0].bidder_hold_price == o.reserve_price
            &&& step.book.side(o.action.other()) == b.side(o.action.other())
            &&& c.size >= wanted ==> !step.book.has(c.order_id) && step.events[0].size == wanted
            &&& c.size < wanted ==> step.events[0].size == c.size && exists|k: int|
                0 <= k < q.len() && #[trigger] q[k] == o && step.book.side(o.action) == q.update(
                    k,
                    DirectOrder { size: (o.size - c.size) as i64, ..o },
                )
        }),
{
    lemma_found(b, c.order_id);
    let o = b.order(c.order_id);
    let k = model::place_of(b.side(o.action), c.order_id);
    assert(b.side(o.action)[k] == o);
}

/// Reducing by nothing, and moving to no price, is refused.
pub proof fn law_senseless_changes_are_refused(b: BookModel, c: OrderCommand)
    requires
        b.has(c.order_id),
    ensures
        c.size <= 0 ==> model::reduced(b, c).code == CommandResultCode::MatchingInvalidOrderSize
            && model::reduced(b, c).book == b,
        c.price <= 0 ==> model::moved(b, c).code == CommandResultCode::RiskInvalidOrderParams
            && model::moved(b, c).book == b,
{
}

/// Whether a price is one that an order takes: a bid pays at most its limit, an ask gets at
/// least its limit.
pub open spec fn acceptable(action: OrderAction, limit: Price, price: Price) -> bool {
    match action {
        OrderAction::Bid => price <= limit,
        OrderAction::Ask => price >= limit,
    }
}

/// Whether an order meets no order of its own user that prevention keeps it from.
pub open spec fn meets_others(t: Taker, q: Seq<DirectOrder>) -> bool {
    t.stp == SelfTradePrevention::Allow || forall|i: int|
        0 <= i < q.len() ==> (#[trigger] q[i]).uid != t.uid
}

/// The price that the money of the buyer of a trade was reserved at, whichever side came in.
pub open spec fn reserved_by(t: Taker, o: DirectOrder) -> Price {
    match t.action {
        OrderAction::Bid => t.reserve_price,
        OrderAction::Ask => o.reserve_price,
    }
}

/// An incoming order trades with the orders of the other side one after the other from the
/// front, each at the price of the resting order and each whole but for the last, as long as
/// it wants something and the price is one that it takes. So the best price and, within a
/// price, the oldest order come first.
pub proof fn law_front_trades_first(t: Taker, q: Seq<DirectOrder>, remaining: int)
    requires
        laws::all_want(q),
        0 <= remaining <= i64::MAX,
        meets_others(t, q),
    ensures
        ({
            let m = model::matched(t, q, remaining);
            let n = m.events.len() as int;
            &&& n <= q.len()
            &&& !m.aborted
            &&& forall|i: int|
                0 <= i < n ==> {
                    let e = #[trigger] m.events[i];
                    &&& e.event_type == MatcherEventType::Trade
                    &&& e.matched_order_id == q[i].order_id
                    &&& e.matched_order_uid == q[i].uid
                    &&& e.price == q[i].price
                    &&& acceptable(t.action, t.limit, e.price)
                    &&& e.bidder_hold_price == reserved_by(t, q[i])
                    &&& e.size <= q[i].size - q[i].filled
                    &&& i + 1 < n ==> e.size == q[i].size - q[i].filled
                }
            &&& m.remaining > 0 && n < q.len() ==> !acceptable(t.action, t.limit, q[n].price)
            &&& m.remaining > 0 ==> m.queue == q.skip(n)
            &&& m.remaining == remaining - laws::traded(m.events)
        }),
    decreases q.len(),
{
    laws::law_fills_are_fair(t, q, remaining);
    let m = model::matched(t, q, remaining);
    if remaining <= 0 || q.len() == 0 || !model::crosses(t, q[0].price) {
        assert(q.skip(0) =~= q);
    } else {
        let o = q[0];
        let rest = q.drop_first();
        laws::lemma_want_rest(q);
        assert forall|i: int| 0 <= i < rest.len() && t.stp
            != SelfTradePrevention::Allow implies (#[trigger] rest[i]).uid != t.uid by {
            assert(rest[i] == q[i + 1]);
        }
        if remaining < model::left(o) {
            let e = model::trade_with(t, o, remaining);
            assert(m.events =~= seq![e]);
        } else {
            let e = model::trade_with(t, o, model::left(o));
            let n = model::matched(t, rest, remaining - model::left(o));
            law_front_trades_first(t, rest, remaining - model::left(o));
            assert(m.events =~= seq![e] + n.events);
            assert forall|i: int| 0 <= i < m.events.len() implies {
                let e = #[trigger] m.events[i];
                &&& e.event_type == MatcherEventType::Trade
                &&& e.matched_order_id == q[i].order_id
                &&& e.matched_order_uid == q[i].uid
                &&& e.price == q[i].price
                &&& acceptable(t.action, t.limit, e.price)
                &&& e.bidder_hold_price == reserved_by(t, q[i])
                &&& e.size <= q[i].size - q[i].filled
                &&& i + 1 < m.events.len() ==> e.size == q[i].size - q[i].filled
            } by {
                if i > 0 {
                    assert(m.events[i] == n.events[i - 1]);
                    assert(q[i] == rest[i - 1]);
                }
            }
            assert(m.queue =~= n.queue);
            assert(rest.skip(n.events.len() as int) =~= q.skip(m.events.len() as int));
            if n.events.len() < rest.len() {
                assert(rest[n.events.len() as int] == q[m.events.len() as int]);
            }
        }
    }
}

/// The terms on which a new order is matched.
pub open spec fn terms(b: BookModel, c: OrderCommand) -> Taker {
    Taker {
        uid: c.uid,
        action: c.action,
        limit: c.price,
        reserve_price: c.reserve_price,
        stp: b.spec.stp,
    }
}

/// A good-till-cancelled order that meets no order of its own user is matched at its limit.
/// What it does not get rests at its price under its id, behind everything at that price and at
/// better ones and ahead of all others; nothing of it leaves.
pub proof fn law_good_till_cancelled_rests(b: BookModel, c: OrderCommand)
    requires
        model::orderly(b),
        !b.has(c.order_id),
        c.order_type == OrderType::Gtc,
        c.size > 0,
        meets_others(terms(b, c), b.side(c.action.other())),
    ensures
        ({
            let step = model::new_ordered(b, c);
            let m = model::matched(terms(b, c), b.side(c.action.other()), c.size as int);
            let got = laws::traded(step.events);
            &&& step.code == CommandResultCode::Success
            &&& step.events == m.events
            &&& step.book.side(c.action.other()) == m.queue
            &&& step.book.has(c.order_id) == (got < c.size)
            &&& got < c.size ==> {
                let o = step.book.order(c.order_id);
                &&& o.price == c.price
                &&& o.uid == c.uid
                &&& o.action == c.action
                &&& o.size == c.size
                &&& o.filled == got
                &&& o.reserve_price == c.reserve_price
                &&& o.timestamp == c.timestamp
                &&& exists|k: int|
                    {
                        &&& 0 <= k <= b.side(c.action).len()
                        &&& step.book.side(c.action) == #[trigger] b.side(c.action).insert(k, o)
                        &&& forall|i: int|
                            0 <= i < k ==> acceptable(
                                c.action.other(),
                                c.price,
                                (#[trigger] b.side(c.action)[i]).price,
                            )
                        &&& forall|i: int|
                            k <= i < b.side(c.action).len() ==> !acceptable(
                                c.action.other(),
                                c.price,
                                (#[trigger] b.side(c.action)[i]).price,
                            )
                    }
            }
            &&& got == c.size ==> step.book.side(c.action) == b.side(c.action)
        }),
{
    let t = terms(b, c);
    let q = b.side(c.action.other());
    let m = model::matched(t, q, c.size as int);
    assert(t == model::taker_of(b, c));
    laws::lemma_side_wants(q, c.action.other());
    law_front_trades_first(t, q, c.size as int);
    laws::law_fills_are_fair(t, q, c.size as int);
    laws::lemma_traded_nonneg(t, m.events);
    assert(m.events + Seq::<MatcherTradeEvent>::empty() =~= m.events);
    assert(!model::listed(b.asks, c.order_id) && !model::listed(b.bids, c.order_id));
    lemma_no_newcomer(t, q, c.size as int, c.order_id);
    let b2 = model::after_match(b, c.action, m);
    assert(b2.side(c.action) == b.side(c.action));
    assert(b2.side(c.action.other()) == m.queue);
    assert(!b2.has(c.order_id));
    if m.remaining > 0 {
        let o = model::order_of(c, m.remaining);
        lemma_rests(b2, o);
        let own = b.side(c.action);
        let k = model::slot_of(own, model::rank_of(c.action, c.price));
        lemma_slot(own, c.action, c.price);
        assert(model::rested(b2, o).side(c.action) == own.insert(k, o));
    }
}

/// Where an order comes to stand: behind all that are at least as good.
proof fn lemma_slot(q: Seq<DirectOrder>, action: OrderAction, price: Price)
    requires
        model::side_orderly(q, action),
    ensures
        ({
            let k = model::slot_of(q, model::rank_of(action, price));
            &&& 0 <= k <= q.len()
            &&& forall|i: int|
                0 <= i < k ==> acceptable(action.other(), price, (#[trigger] q[i]).price)
            &&& forall|i: int|
                k <= i < q.len() ==> !acceptable(action.other(), price, (#[trigger] q[i]).price)
        }),
    decreases q.len(),
{
    if q.len() > 0 {
        let rest = q.drop_last();
        let n = q.len() - 1;
        assert(model::order_ok(q[n], action));
        assert forall|i: int| 0 <= i < rest.len() implies model::order_ok(
            #[trigger] rest[i],
            action,
        ) by {
            assert(rest[i] == q[i]);
        }
        assert(model::side_orderly(rest, action));
        lemma_slot(rest, action, price);
        if model::rank_of(action, q[n].price) <= model::rank_of(action, price) {
            assert forall|i: int| 0 <= i < q.len() implies acceptable(
                action.other(),
                price,
                (#[trigger] q[i]).price,
            ) by {
                assert(model::rank_of(action, q[i].price) <= model::rank_of(action, q[n].price));
            }
        } else {
            let k = model::slot_of(rest, model::rank_of(action, price));
            assert forall|i: int| 0 <= i < k implies acceptable(
                action.other(),
                price,
                (#[trigger] q[i]).price,
            ) by {
                assert(rest[i] == q[i]);
            }
            assert forall|i: int| k <= i < q.len() implies !acceptable(
                action.other(),
                price,
                (#[trigger] q[i]).price,
            ) by {
                if i < n {
                    assert(rest[i] == q[i]);
                }
            }
        }
    }
}

/// An immediate-or-cancel order takes what it can get at its limit and does not rest. What it
/// does not get leaves: the last event says so.
pub proof fn law_immediate_orders_do_not_rest(b: BookModel, c: OrderCommand)
    requires
        model::orderly(b),
        !b.has(c.order_id),
        c.order_type == OrderType::Ioc,
        c.size > 0,
    ensures
        ({
            let step = model::new_ordered(b, c);
            let m = model::matched(terms(b, c), b.side(c.action.other()), c.size as int);
            let left = c.size - laws::traded(step.events);
            &&& step.code == CommandResultCode::Success
            &&& !step.book.has(c.order_id)
            &&& step.book.side(c.action) == b.side(c.action)
            &&& step.book.side(c.action.other()) == m.queue
            &&& left > 0 ==> {
                &&& step.events == m.events.push(step.events.last())
                &&& step.events.last().event_type == MatcherEventType::Reject
                &&& step.events.last().size == left
                &&& step.events.last().bidder_hold_price == c.reserve_price
            }
            &&& left <= 0 ==> left == 0 && step.events == m.events
        }),
{
    let t = terms(b, c);
    let q = b.side(c.action.other());
    let m = model::matched(t, q, c.size as int);
    assert(t == model::taker_of(b, c));
    laws::lemma_side_wants(q, c.action.other());
    laws::law_fills_are_fair(t, q, c.size as int);
    laws::lemma_traded_nonneg(t, m.events);
    assert(!model::listed(b.asks, c.order_id) && !model::listed(b.bids, c.order_id));
    lemma_no_newcomer(t, q, c.size as int, c.order_id);
    let b2 = model::after_match(b, c.action, m);
    assert(b2.side(c.action) == b.side(c.action));
    assert(b2.side(c.action.other()) == m.queue);
    if m.remaining > 0 {
        let e = api::reject_event(m.remaining, c.price, c.reserve_price);
        laws::lemma_traded_back(m.events, e);
        assert(m.events + seq![e] =~= m.events.push(e));
    } else {
        assert(m.events + Seq::<MatcherTradeEvent>::empty() =~= m.events);
    }
}

/// An id that the book has is not taken twice, and an order of a kind that the book does not
/// know is refused.
pub proof fn law_new_orders_are_new(b: BookModel, c: OrderCommand)
    ensures
        b.has(c.order_id) ==> model::new_ordered(b, c).code
            == CommandResultCode::MatchingDuplicateOrderId && model::new_ordered(b, c).book == b,
        !b.has(c.order_id) && c.order_type != OrderType::Gtc && c.order_type != OrderType::Ioc
            && c.order_type != OrderType::FokBudget ==> model::new_ordered(b, c).code
            == CommandResultCode::MatchingUnsupportedCommand && model::new_ordered(b, c).book
            == b,
{
}

/// What the trades among some events come to: their sizes times their prices.
pub open spec fn bill(events: Seq<MatcherTradeEvent>) -> int
    decreases events.len(),
{
    if events.len() == 0 {
        0
    } else {
        (if events[0].event_type == MatcherEventType::Trade {
            events[0].size * events[0].price
        } else {
            0
        }) + bill(events.drop_first())
    }
}

/// The terms of an order that takes every price.
pub open spec fn at_any_price(b: BookModel, c: OrderCommand) -> Taker {
    Taker {
        limit: match c.action {
            OrderAction::Bid => i64::MAX,
            OrderAction::Ask => i64::MIN,
        },
        ..terms(b, c)
    }
}

proof fn lemma_bill(t: Taker, q: Seq<DirectOrder>, size: int)
    requires
        laws::all_want(q),
        meets_others(t, q),
        forall|p: Price| #[trigger] acceptable(t.action, t.limit, p),
        0 < size <= i64::MAX,
    ensures
        ({
            let m = model::matched(t, q, size);
            match model::cost(q, size) {
                Some(n) => m.remaining == 0 && n == bill(m.events),
                None => m.remaining > 0,
            }
        }),
    decreases q.len(),
{
    let m = model::matched(t, q, size);
    if q.len() > 0 {
        let o = q[0];
        let rest = q.drop_first();
        assert(acceptable(t.action, t.limit, o.price));
        laws::lemma_want_rest(q);
        assert forall|i: int| 0 <= i < rest.len() && t.stp
            != SelfTradePrevention::Allow implies (#[trigger] rest[i]).uid != t.uid by {
            assert(rest[i] == q[i + 1]);
        }
        if size < model::left(o) {
            let e = model::trade_with(t, o, size);
            assert(m.events =~= seq![e]);
            assert(m.events.drop_first() =~= Seq::<MatcherTradeEvent>::empty());
            assert(bill(m.events.drop_first()) == 0);
        } else {
            let e = model::trade_with(t, o, model::left(o));
            let n = model::matched(t, rest, size - model::left(o));
            assert(m.events =~= seq![e] + n.events);
            assert(m.events.drop_first() =~= n.events);
            if size > model::left(o) {
                lemma_bill(t, rest, size - model::left(o));
            } else {
                assert(n == model::settled(rest, 0, false));
                assert(bill(n.events) == 0);
            }
        }
    }
}

/// An order with a budget is filled whole where the orders of the other side, from the front and
/// whatever their prices, make up its size and come together to no more than the budget for a
/// bid, and to no less for an ask. Otherwise all of it leaves and the book stays as it is.
pub proof fn law_budgets_are_kept(b: BookModel, c: OrderCommand)
    requires
        model::orderly(b),
        !b.has(c.order_id),
        c.order_type == OrderType::FokBudget,
        c.size > 0,
        meets_others(terms(b, c), b.side(c.action.other())),
    ensures
        ({
            let step = model::new_ordered(b, c);
            let m = model::matched(
                at_any_price(b, c),
                b.side(c.action.other()),
                c.size as int,
            );
            let cost = bill(m.events);
            let keeps = m.remaining == 0 && cost != i64::MAX && (match c.action {
                OrderAction::Bid => cost <= c.price,
                OrderAction::Ask => cost >= c.price,
            });
            &&& step.code == CommandResultCode::Success
            &&& !step.book.has(c.order_id)
            &&& step.book.side(c.action) == b.side(c.action)
            &&& keeps ==> {
                &&& step.events == m.events
                &&& laws::traded(step.events) == c.size
                &&& bill(step.events) == cost
                &&& step.book.side(c.action.other()) == m.queue
            }
            &&& !keeps ==> {
                &&& step.book == b
                &&& step.events.len() == 1
                &&& step.events[0].event_type == MatcherEventType::Reject
                &&& step.events[0].size == c.size
                &&& step.events[0].bidder_hold_price == c.reserve_price
            }
        }),
{
    let t = at_any_price(b, c);
    let q = b.side(c.action.other());
    let m = model::matched(t, q, c.size as int);
    assert(t == model::price_taker(b, c));
    laws::lemma_side_wants(q, c.action.other());
    lemma_bill(t, q, c.size as int);
    law_front_trades_first(t, q, c.size as int);
    assert(m.events + Seq::<MatcherTradeEvent>::empty() =~= m.events);
    assert(!model::listed(b.asks, c.order_id) && !model::listed(b.bids, c.order_id));
    lemma_no_newcomer(t, q, c.size as int, c.order_id);
    let b2 = model::after_match(b, c.action, m);
    assert(b2.side(c.action) == b.side(c.action));
    assert(b2.side(c.action.other()) == m.queue);
}

/// What prevention does when an order meets one of its own user at a price that it takes: the
/// incoming order ends, or the resting one leaves, or both, or the resting one is passed over.
pub proof fn law_prevention_keeps_its_word(t: Taker, q: Seq<DirectOrder>, remaining: int)
    requires
        laws::all_want(q),
        q.len() > 0,
        q[0].uid == t.uid,
        acceptable(t.action, t.limit, q[0].price),
        0 < remaining <= i64::MAX,
    ensures
        ({
            let m = model::matched(t, q, remaining);
            let rest = q.drop_first();
            let n = model::matched(t, rest, remaining);
            &&& t.stp == SelfTradePrevention::CancelTaker ==> {
                &&& m.events.len() == 0
                &&& m.queue == q
                &&& m.remaining == remaining
                &&& m.aborted
            }
            &&& t.stp == SelfTradePrevention::CancelBoth ==> {
                &&& m.events.len() == 1
                &&& strikes(m.events[0], q[0])
                &&& m.queue == rest
                &&& m.remaining == remaining
                &&& m.aborted
            }
            &&& t.stp == SelfTradePrevention::CancelMaker ==> {
                &&& m.events.len() == n.events.len() + 1
                &&& strikes(m.events[0], q[0])
                &&& m.events.drop_first() == n.events
                &&& m.queue == n.queue
                &&& m.remaining == n.remaining
                &&& m.aborted == n.aborted
            }
            &&& t.stp == SelfTradePrevention::Skip ==> {
                &&& m.events == n.events
                &&& m.queue.len() == n.queue.len() + 1
                &&& m.queue[0] == q[0]
                &&& m.queue.drop_first() == n.queue
                &&& m.remaining == n.remaining
                &&& m.aborted == n.aborted
            }
        }),
{
    let m = model::matched(t, q, remaining);
    let n = model::matched(t, q.drop_first(), remaining);
    if t.stp == SelfTradePrevention::CancelMaker {
        assert(m.events.drop_first() =~= n.events);
        assert(m.queue =~= n.queue);
    } else if t.stp == SelfTradePrevention::CancelBoth {
        assert(m.queue =~= q.drop_first());
    } else if t.stp == SelfTradePrevention::Skip {
        assert(m.events =~= n.events);
        assert(m.queue.drop_first() =~= n.queue);
    }
}

/// Whether an event says that prevention took a resting order out with all that it still wanted.
pub open spec fn strikes(e: MatcherTradeEvent, o: DirectOrder) -> bool {
    &&& e.event_type == MatcherEventType::RejectMaker
    &&& e.size == o.size - o.filled
    &&& e.price == o.price
    &&& e.bidder_hold_price == o.reserve_price
    &&& e.matched_order_id == o.order_id
    &&& e.matched_order_uid == o.uid
}

/// The asks of a book in order stand from the lowest price up, its bids from the highest down.
pub proof fn law_best_prices_stand_first(b: BookModel, i: int, j: int)
    requires
        model::orderly(b),
        0 <= i <= j,
    ensures
        j < b.asks.len() ==> b.asks[i].price <= b.asks[j].price,
        j < b.bids.len() ==> b.bids[i].price >= b.bids[j].price,
{
}

} // verus!
