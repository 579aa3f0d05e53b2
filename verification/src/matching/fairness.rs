//! What a book is for: the best price and the oldest order trade first, an order takes all
//! that it can get, and what is left of it stands where it belongs.
use vstd::prelude::*;

use crate::matching::book;
use crate::matching::laws;
use crate::matching::model;
use crate::matching::model::{BookModel, Taker};
use crate::matching::outcome::{PlaceParams, RestingOrder, StpCancellation};
use crate::types::enums::{OrderType, SelfTradePrevention, Side, TimeInForce};
use crate::types::event::Trade;
use crate::types::ids::UserId;
use crate::types::numeric::Price;
use crate::types::reject::RejectReason;

verus! {

/// Whether an order of a side with a limit takes a price: a bid pays at most its limit, an
/// ask gets at least its limit.
pub open spec fn takes(side: Side, limit: Price, price: Price) -> bool {
    match side {
        Side::Bid => price.0 <= limit.0,
        Side::Ask => price.0 >= limit.0,
    }
}

/// Whether a price is served no later than another one on a side: the lower ask, the higher
/// bid.
pub open spec fn no_later(side: Side, first: Price, second: Price) -> bool {
    match side {
        Side::Ask => first.0 <= second.0,
        Side::Bid => first.0 >= second.0,
    }
}

/// The asks of a book stand from the lowest price up, its bids from the highest price down. So
/// no order has a better price than the first one of its side.
pub proof fn law_best_prices_stand_first(b: BookModel, side: Side, i: int, j: int)
    requires
        laws::kept(b),
        0 <= i <= j < b.queue(side).len(),
    ensures
        no_later(side, b.queue(side)[i].price, b.queue(side)[j].price),
        b.queue(side)[i].side == side,
{
    assert(b.queue(side)[i].side == side);
}

/// Whether no order of a queue hides anything.
pub open spec fn open_queue(q: Seq<RestingOrder>) -> bool {
    forall|i: int| 0 <= i < q.len() ==> (#[trigger] q[i]).hidden_remaining.0 == 0
}

/// Whether no order of a queue is one that prevention keeps an order from.
pub open spec fn meets_others(t: Taker, q: Seq<RestingOrder>) -> bool {
    t.stp == SelfTradePrevention::Allow || forall|i: int|
        0 <= i < q.len() ==> (#[trigger] q[i]).user_id != t.user_id
}

/// An incoming order trades with the other side from the front, one order after the other, each
/// whole but for the last and each at its own price, as long as it wants something and the
/// price is one that it takes. Orders that hide something are another matter.
pub proof fn law_front_trades_first(t: Taker, q: Seq<RestingOrder>, remaining: int)
    requires
        laws::tidy(q),
        open_queue(q),
        meets_others(t, q),
        0 <= remaining <= i64::MAX,
    ensures
        ({
            let m = model::matched(t, q, remaining);
            let n = m.trades.len() as int;
            &&& n <= q.len()
            &&& m.cancels.len() == 0
            &&& forall|i: int|
                0 <= i < n ==> {
                    let e = #[trigger] m.trades[i];
                    &&& e.maker_order_id == q[i].order_id
                    &&& e.maker_user_id == q[i].user_id
                    &&& e.taker_order_id == t.order_id
                    &&& e.taker_user_id == t.user_id
                    &&& e.taker_side == t.side
                    &&& e.price == q[i].price
                    &&& takes(t.side, t.limit, e.price)
                    &&& 0 < e.size.0 <= q[i].size_remaining.0
                    &&& i + 1 < n ==> e.size == q[i].size_remaining
                }
            &&& 0 <= m.remaining
            &&& m.remaining + model::traded(m.trades) == remaining
            &&& m.remaining > 0 ==> m.queue == q.skip(n)
            &&& m.remaining > 0 && n < q.len() ==> !takes(t.side, t.limit, q[n].price)
        }),
    decreases q.len(),
{
    let m = model::matched(t, q, remaining);
    if q.len() > 0 {
        assert(model::order_ok(q[0]));
    }
    if remaining <= 0 || q.len() == 0 || !model::crosses(t.side, t.limit, q[0].price) {
        assert(q.skip(0) =~= q);
    } else {
        let o = q[0];
        let rest = q.drop_first();
        let size = o.size_remaining.0 as int;
        assert forall|i: int| 0 <= i < rest.len() implies (
        #[trigger] rest[i]).hidden_remaining.0 == 0 && model::order_ok(rest[i]) && (t.stp
            != SelfTradePrevention::Allow ==> rest[i].user_id != t.user_id) by {
            assert(rest[i] == q[i + 1]);
        }
        assert forall|i: int, j: int| #![trigger rest[i], rest[j]]
            0 <= i < j < rest.len() implies rest[i].order_id != rest[j].order_id by {
            assert(rest[i] == q[i + 1] && rest[j] == q[j + 1]);
        }
        if remaining < size {
            let e = model::trade_between(t, o, remaining);
            assert(m.trades =~= seq![e]);
            assert(m.trades.drop_last() =~= Seq::<Trade>::empty());
            assert(model::traded(m.trades.drop_last()) == 0);
        } else {
            let e = model::trade_between(t, o, size);
            let n = model::matched(t, rest, remaining - size);
            law_front_trades_first(t, rest, remaining - size);
            assert(m.trades =~= seq![e] + n.trades);
            assert(m.cancels =~= n.cancels);
            book::lemma_traded_join(seq![e], n.trades);
            assert(seq![e].drop_last() =~= Seq::<Trade>::empty());
            assert(model::traded(seq![e].drop_last()) == 0);
            assert forall|i: int| 0 <= i < m.trades.len() implies {
                let e = #[trigger] m.trades[i];
                &&& e.maker_order_id == q[i].order_id
                &&& e.maker_user_id == q[i].user_id
                &&& e.taker_order_id == t.order_id
                &&& e.taker_user_id == t.user_id
                &&& e.taker_side == t.side
                &&& e.price == q[i].price
                &&& takes(t.side, t.limit, e.price)
                &&& 0 < e.size.0 <= q[i].size_remaining.0
                &&& i + 1 < m.trades.len() ==> e.size == q[i].size_remaining
            } by {
                if i > 0 {
                    assert(m.trades[i] == n.trades[i - 1]);
                    assert(q[i] == rest[i - 1]);
                }
            }
            assert(rest.skip(n.trades.len() as int) =~= q.skip(m.trades.len() as int));
            if n.trades.len() < rest.len() {
                assert(rest[n.trades.len() as int] == q[m.trades.len() as int]);
            }
        }
    }
}

/// Where an accepted order still wants something, no order is left on the other side whose price it
/// takes, unless prevention ended its matching.
pub proof fn law_orders_take_all_they_can(b: BookModel, p: PlaceParams, i: int)
    requires
        laws::kept(b),
        model::outcome_of(b, p).reject is None,
        model::outcome_of(b, p).remaining > 0,
        !(p.stp is CancelTaker) && !(p.stp is CancelBoth),
        0 <= i < model::book_after_place(b, p).queue(p.side.other()).len(),
    ensures
        !takes(p.side, p.price, model::book_after_place(b, p).queue(p.side.other())[i].price),
{
    let q = b.queue(p.side.other());
    let t = model::taker_of(b.symbol_id, p);
    let m = model::matching_of(b, p);
    laws::lemma_tidy(b, p.side.other());
    laws::lemma_sorted(b, p.side.other());
    laws::lemma_matched_stops(t, q, p.size.0 as int);
    assert(model::book_after_place(b, p).queue(p.side.other()) == m.queue);
    assert(laws::rank(m.queue[0]) <= laws::rank(m.queue[i]));
    assert(m.queue[0].side == p.side.other() && m.queue[i].side == p.side.other());
}

/// Whether what remains of an order stands at a place of its side.
pub open spec fn stands_at(
    own: Seq<RestingOrder>,
    after: Seq<RestingOrder>,
    k: int,
    p: PlaceParams,
    remaining: int,
) -> bool {
    let r = after[k];
    &&& 0 <= k <= own.len()
    &&& own.insert(k, r) == after
    &&& forall|i: int| 0 <= i < k ==> no_later(p.side, (#[trigger] own[i]).price, p.price)
    &&& forall|i: int|
        k <= i < own.len() ==> !no_later(p.side, (#[trigger] own[i]).price, p.price)
    &&& r.order_id == p.order_id
    &&& r.user_id == p.user_id
    &&& r.side == p.side
    &&& r.price == p.price
    &&& r.client_order_id == p.client_order_id
    &&& r.timestamp == p.timestamp
    &&& r.size_remaining.0 + r.hidden_remaining.0 == remaining
    &&& r.size_remaining.0 > 0
    &&& r.hidden_remaining.0 >= 0
    &&& p.order_type != OrderType::Iceberg ==> r.hidden_remaining.0 == 0
    &&& p.order_type == OrderType::Iceberg ==> (p.visible_size matches Some(v) && (if v.0
        < remaining {
        r.size_remaining == v
    } else {
        r.hidden_remaining.0 == 0
    }) && r.visible_slice == v)
}

/// What is left of an accepted order rests, unless it is an immediate one: under its id, at its
/// price, behind every order of its side that is served no later and ahead of all others. An
/// iceberg shows its slice at the most and hides the rest, every other order shows all.
pub proof fn law_leftovers_rest_in_their_place(b: BookModel, p: PlaceParams)
    requires
        laws::kept(b),
        model::outcome_of(b, p).reject is None,
    ensures
        ({
            let o = model::outcome_of(b, p);
            let own = b.queue(p.side);
            let after = model::book_after_place(b, p).queue(p.side);
            &&& o.rested == (o.remaining > 0 && p.time_in_force != TimeInForce::Ioc
                && p.time_in_force != TimeInForce::Fok)
            &&& !o.rested ==> after == own
            &&& o.rested ==> exists|k: int| #[trigger] stands_at(own, after, k, p, o.remaining)
        }),
{
    let o = model::outcome_of(b, p);
    let own = b.queue(p.side);
    let after = model::book_after_place(b, p).queue(p.side);
    let m = model::matching_of(b, p);
    book::lemma_matched_bounds(
        model::taker_of(b.symbol_id, p),
        b.queue(p.side.other()),
        p.size.0 as int,
    );
    if o.rested {
        let r = model::resting_of(p, m.remaining);
        let k = model::slot_of(own, laws::rank(r));
        laws::lemma_sorted(b, p.side);
        laws::lemma_slot(own, laws::rank(r));
        assert(own.insert(k, r) == after);
        assert(after[k] == r);
        assert forall|i: int| 0 <= i < own.len() implies no_later(
            p.side,
            (#[trigger] own[i]).price,
            p.price,
        ) == (i < k) by {
            assert(own[i].side == p.side);
        }
        assert(stands_at(own, after, k, p, o.remaining));
    }
}

/// Whether the front of a queue trades what it shows and comes back at a place as an order.
pub open spec fn comes_back(
    t: Taker,
    q: Seq<RestingOrder>,
    remaining: int,
    k: int,
    o: RestingOrder,
) -> bool {
    let rest = q.drop_first();
    let m = model::matched(t, q, remaining);
    let n = model::matched(t, rest.insert(k, o), remaining - q[0].size_remaining.0);
    &&& 0 <= k <= rest.len()
    &&& forall|i: int|
        0 <= i < k ==> no_later(t.side.other(), (#[trigger] rest[i]).price, q[0].price)
    &&& forall|i: int|
        k <= i < rest.len() ==> !no_later(
            t.side.other(),
            (#[trigger] rest[i]).price,
            q[0].price,
        )
    &&& o.order_id == q[0].order_id
    &&& o.user_id == q[0].user_id
    &&& o.price == q[0].price
    &&& o.side == q[0].side
    &&& o.visible_slice == q[0].visible_slice
    &&& o.size_remaining.0 + o.hidden_remaining.0 == q[0].hidden_remaining.0
    &&& (o.size_remaining == q[0].visible_slice && o.hidden_remaining.0 >= 0) || (
    o.hidden_remaining.0 == 0 && o.size_remaining.0 <= q[0].visible_slice.0)
    &&& m.trades.len() == n.trades.len() + 1
    &&& m.trades[0].size == q[0].size_remaining
    &&& m.trades[0].price == q[0].price
    &&& m.trades[0].maker_order_id == q[0].order_id
    &&& m.trades.drop_first() == n.trades
    &&& m.queue == n.queue
    &&& m.remaining == n.remaining
}

/// An iceberg whose shown part is taken whole comes back behind all orders that are served no
/// later, with its next slice out of what it hides. It keeps its price, its id and its user.
pub proof fn law_icebergs_come_back_behind(t: Taker, q: Seq<RestingOrder>, remaining: int)
    requires
        laws::tidy(q),
        laws::sorted(q),
        laws::on_side(q, t.side.other()),
        q.len() > 0,
        q[0].hidden_remaining.0 > 0,
        meets_others(t, q),
        takes(t.side, t.limit, q[0].price),
        q[0].size_remaining.0 <= remaining <= i64::MAX,
    ensures
        exists|k: int, o: RestingOrder| #[trigger] comes_back(t, q, remaining, k, o),
{
    assert(model::order_ok(q[0]));
    let rest = q.drop_first();
    let o = model::refreshed(q[0]);
    let k = model::slot_of(rest, laws::rank(o));
    assert forall|i: int, j: int| #![trigger rest[i], rest[j]]
        0 <= i <= j < rest.len() implies laws::rank(rest[i]) <= laws::rank(rest[j]) by {
        assert(rest[i] == q[i + 1] && rest[j] == q[j + 1]);
    }
    laws::lemma_slot(rest, laws::rank(o));
    assert forall|i: int| 0 <= i < rest.len() implies no_later(
        t.side.other(),
        (#[trigger] rest[i]).price,
        q[0].price,
    ) == (i < k) by {
        assert(rest[i] == q[i + 1]);
        assert(q[0].side == t.side.other());
    }
    let m = model::matched(t, q, remaining);
    let n = model::matched(t, rest.insert(k, o), remaining - q[0].size_remaining.0);
    assert(model::enqueue(rest, o) == rest.insert(k, o));
    assert(m.trades.drop_first() =~= n.trades);
    assert(comes_back(t, q, remaining, k, o));
}

/// What prevention does when an order meets one of its own user at a price that it takes. The
/// incoming order stops in front of it, or the resting one leaves, or both, or each loses what
/// the smaller one wants.
pub proof fn law_prevention_keeps_its_word(t: Taker, q: Seq<RestingOrder>, remaining: int)
    requires
        laws::tidy(q),
        q.len() > 0,
        q[0].user_id == t.user_id,
        takes(t.side, t.limit, q[0].price),
        0 < remaining <= i64::MAX,
    ensures
        ({
            let m = model::matched(t, q, remaining);
            let rest = q.drop_first();
            let shown = q[0].size_remaining.0 as int;
            &&& t.stp == SelfTradePrevention::CancelTaker ==> {
                &&& m.trades.len() == 0
                &&& m.cancels.len() == 0
                &&& m.queue == q
                &&& m.remaining == remaining
            }
            &&& t.stp == SelfTradePrevention::CancelBoth ==> {
                &&& m.trades.len() == 0
                &&& m.cancels.len() == 1
                &&& leaves_whole(m.cancels[0], q[0])
                &&& m.queue == rest
                &&& m.remaining == remaining
            }
            &&& t.stp == SelfTradePrevention::CancelMaker ==> {
                let n = model::matched(t, rest, remaining);
                &&& m.trades == n.trades
                &&& m.cancels.len() == n.cancels.len() + 1
                &&& leaves_whole(m.cancels[0], q[0])
                &&& m.queue == n.queue
                &&& m.remaining == n.remaining
            }
            &&& t.stp == SelfTradePrevention::DecrementAndCancel && shown > remaining ==> {
                &&& m.trades.len() == 0
                &&& m.remaining == 0
                &&& m.cancels.len() == 1
                &&& !m.cancels[0].full_cancel
                &&& m.cancels[0].order_id == q[0].order_id
                &&& m.cancels[0].size_cancelled.0 == remaining
                &&& m.queue == q.update(0, m.queue[0])
                &&& laws::same_order(q[0], m.queue[0])
                &&& m.queue[0].size_remaining.0 == shown - remaining
                &&& m.queue[0].hidden_remaining == q[0].hidden_remaining
            }
            &&& t.stp == SelfTradePrevention::DecrementAndCancel && shown <= remaining ==> {
                let n = model::matched(t, rest, remaining - shown);
                &&& m.trades == n.trades
                &&& m.cancels.len() == n.cancels.len() + 1
                &&& leaves_whole(m.cancels[0], q[0])
                &&& m.queue == n.queue
                &&& m.remaining == n.remaining
            }
        }),
{
    assert(model::order_ok(q[0]));
    let m = model::matched(t, q, remaining);
    let rest = q.drop_first();
    let shown = q[0].size_remaining.0 as int;
    assert(Seq::<Trade>::empty() + model::matched(t, rest, remaining).trades =~= model::matched(
        t,
        rest,
        remaining,
    ).trades);
    assert(Seq::<Trade>::empty() + model::matched(t, rest, remaining - shown).trades
        =~= model::matched(t, rest, remaining - shown).trades);
    if t.stp == SelfTradePrevention::DecrementAndCancel && shown > remaining {
        assert(m.queue =~= q.update(0, m.queue[0]));
    }
}

/// Whether prevention took a resting order away as it stood.
pub open spec fn leaves_whole(c: StpCancellation, o: RestingOrder) -> bool {
    &&& c.full_cancel
    &&& c.order_id == o.order_id
    &&& c.user_id == o.user_id
    &&& c.price == o.price
    &&& c.side == o.side
    &&& c.size_cancelled == o.size_remaining
}

/// What an order is shown at prices that it takes, leaving a user out.
pub open spec fn offered(
    q: Seq<RestingOrder>,
    side: Side,
    limit: Price,
    skip: Option<UserId>,
) -> int
    decreases q.len(),
{
    if q.len() == 0 {
        0
    } else {
        (if takes(side, limit, q[0].price) && skip != Some(q[0].user_id) {
            q[0].size_remaining.0 as int
        } else {
            0
        }) + offered(q.drop_first(), side, limit, skip)
    }
}

proof fn lemma_offered_last(q: Seq<RestingOrder>, side: Side, limit: Price, skip: Option<UserId>)
    requires
        q.len() > 0,
    ensures
        offered(q, side, limit, skip) == offered(q.drop_last(), side, limit, skip) + (if takes(
            side,
            limit,
            q.last().price,
        ) && skip != Some(q.last().user_id) {
            q.last().size_remaining.0 as int
        } else {
            0
        }),
    decreases q.len(),
{
    if q.len() == 1 {
        assert(offered(q.drop_first(), side, limit, skip) == 0);
        assert(offered(q.drop_last(), side, limit, skip) == 0);
    } else {
        lemma_offered_last(q.drop_first(), side, limit, skip);
        assert(q.drop_first().drop_last() =~= q.drop_last().drop_first());
        assert(q.drop_first().last() == q.last());
        assert(q.drop_last()[0] == q[0]);
    }
}

proof fn lemma_offered(q: Seq<RestingOrder>, side: Side, limit: Price, skip: Option<UserId>)
    ensures
        offered(q, side, limit, skip) == model::shown(q, side, limit, skip),
    decreases q.len(),
{
    if q.len() > 0 {
        lemma_offered_last(q, side, limit, skip);
        lemma_offered(q.drop_last(), side, limit, skip);
    }
}

/// A book refuses an order for these reasons and for no others: its kind is none that a book
/// takes, an iceberg has no sensible slice or is not one that can rest, its size is nothing, a
/// fill-or-kill order is not offered its size, or a post-only order would trade at once.
pub proof fn law_books_refuse_for_a_reason(b: BookModel, p: PlaceParams)
    requires
        laws::kept(b),
    ensures
        ({
            let q = b.queue(p.side.other());
            let skip = if p.stp == SelfTradePrevention::Allow {
                None
            } else {
                Some(p.user_id)
            };
            let slice: int = match p.visible_size {
                Some(v) => v.0 as int,
                None => 0,
            };
            let bad_kind = p.order_type != OrderType::Limit && p.order_type != OrderType::Iceberg;
            let bad_slice = p.order_type == OrderType::Iceberg && (slice <= 0 || slice > p.size.0
                || p.time_in_force == TimeInForce::Ioc || p.time_in_force == TimeInForce::Fok
                || p.time_in_force == TimeInForce::PostOnly);
            let no_size = p.size.0 <= 0;
            let killed = p.time_in_force == TimeInForce::Fok && offered(q, p.side, p.price, skip)
                < p.size.0;
            let would_trade = p.time_in_force == TimeInForce::PostOnly && exists|i: int|
                0 <= i < q.len() && takes(p.side, p.price, (#[trigger] q[i]).price);
            &&& (model::outcome_of(b, p).reject is Some) == (bad_kind || bad_slice || no_size
                || killed || would_trade)
            &&& model::outcome_of(b, p).reject == Some(RejectReason::FokUnfillable) ==> killed
            &&& model::outcome_of(b, p).reject == Some(RejectReason::PostOnlyWouldCross)
                ==> would_trade
            &&& model::outcome_of(b, p).reject == Some(RejectReason::SizeBelowMinimum) ==> no_size
            &&& model::outcome_of(b, p).reject == Some(RejectReason::UnsupportedCommand)
                ==> bad_kind || bad_slice
        }),
{
    let q = b.queue(p.side.other());
    let skip = if p.stp == SelfTradePrevention::Allow {
        None
    } else {
        Some(p.user_id)
    };
    lemma_offered(q, p.side, p.price, skip);
    if q.len() > 0 {
        assert forall|i: int| 0 <= i < q.len() && takes(
            p.side,
            p.price,
            (#[trigger] q[i]).price,
        ) implies takes(p.side, p.price, q[0].price) by {
            law_best_prices_stand_first(b, p.side.other(), 0, i);
        }
        assert(takes(p.side, p.price, q[0].price) ==> (exists|i: int|
            0 <= i < q.len() && takes(p.side, p.price, (#[trigger] q[i]).price)));
    }
}

/// The report of a cancellation names the order and whose it was, where it stood, and how much it
/// still showed.
pub proof fn law_cancellations_tell_what_was_shown(o: RestingOrder)
    ensures
        model::cancel_outcome_of(o).order_id == o.order_id,
        model::cancel_outcome_of(o).user_id == o.user_id,
        model::cancel_outcome_of(o).side == o.side,
        model::cancel_outcome_of(o).price == o.price,
        model::cancel_outcome_of(o).remaining_size == o.size_remaining,
{
}

} // verus!
