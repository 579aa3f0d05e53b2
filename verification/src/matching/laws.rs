//! What holds of the book as a whole.
use vstd::prelude::*;

use crate::matching::book;
use crate::matching::model;
use crate::matching::model::{BookModel, MatchModel, Taker};
use crate::matching::outcome::{PlaceParams, RestingOrder, StpCancellation};
use crate::types::enums::{SelfTradePrevention, Side};
use crate::types::event::Trade;
use crate::types::ids::{OrderId, UserId};
use crate::types::numeric::Price;

verus! {

/// Whether an order stands in a queue.
pub open spec fn queued(q: Seq<RestingOrder>, id: OrderId) -> bool {
    exists|i: int| 0 <= i < q.len() && (#[trigger] q[i]).order_id == id
}

/// The order with an id in a queue.
pub open spec fn pick(q: Seq<RestingOrder>, id: OrderId) -> RestingOrder {
    q[choose|i: int| 0 <= i < q.len() && (#[trigger] q[i]).order_id == id]
}

/// No id stands twice in a queue, and every order in it makes sense.
pub open spec fn tidy(q: Seq<RestingOrder>) -> bool {
    &&& forall|i: int, j: int| #![trigger q[i], q[j]]
        0 <= i < j < q.len() ==> q[i].order_id != q[j].order_id
    &&& forall|i: int| 0 <= i < q.len() ==> model::order_ok(#[trigger] q[i])
}

/// Everything that an order still wants, shown or hidden.
pub open spec fn open_size(o: RestingOrder) -> int {
    o.size_remaining.0 + o.hidden_remaining.0
}

/// Whether two states are states of one order.
pub open spec fn same_order(o: RestingOrder, p: RestingOrder) -> bool {
    p == RestingOrder {
        size_remaining: p.size_remaining,
        hidden_remaining: p.hidden_remaining,
        ..o
    }
}

/// Size of the trades that an order takes part in.
pub open spec fn traded_by(trades: Seq<Trade>, id: OrderId) -> int
    decreases trades.len(),
{
    if trades.len() == 0 {
        0
    } else {
        traded_by(trades.drop_last(), id) + part(trades.last(), id)
    }
}

/// What a trade fills of an order.
pub open spec fn part(trade: Trade, id: OrderId) -> int {
    if trade.taker_order_id == id || trade.maker_order_id == id {
        trade.size.0 as int
    } else {
        0
    }
}

/// What prevention took from an order without removing it.
pub open spec fn trimmed(cancels: Seq<StpCancellation>, id: OrderId) -> int
    decreases cancels.len(),
{
    if cancels.len() == 0 {
        0
    } else {
        trimmed(cancels.drop_last(), id) + trim(cancels.last(), id)
    }
}

pub open spec fn trim(c: StpCancellation, id: OrderId) -> int {
    if c.order_id == id && !c.full_cancel {
        c.size_cancelled.0 as int
    } else {
        0
    }
}

/// Whether prevention removed an order.
pub open spec fn struck(cancels: Seq<StpCancellation>, id: OrderId) -> bool
    decreases cancels.len(),
{
    cancels.len() > 0 && (struck(cancels.drop_last(), id) || (cancels.last().order_id == id
        && cancels.last().full_cancel))
}

pub proof fn lemma_slot_range(q: Seq<RestingOrder>, rank: int)
    ensures
        0 <= model::slot_of(q, rank) <= q.len(),
    decreases q.len(),
{
    if q.len() > 0 {
        lemma_slot_range(q.drop_last(), rank);
    }
}

/// An order that joins a queue is the only new one in it.
pub proof fn lemma_queued_insert(q: Seq<RestingOrder>, k: int, o: RestingOrder, id: OrderId)
    requires
        0 <= k <= q.len(),
        queued(q.insert(k, o), id),
    ensures
        id == o.order_id || queued(q, id),
{
    let t = q.insert(k, o);
    let i = choose|i: int| 0 <= i < t.len() && (#[trigger] t[i]).order_id == id;
    if i < k {
        assert(q[i] == t[i]);
    } else if i > k {
        assert(q[i - 1] == t[i]);
    }
}

/// Matching brings no orders into a queue.
pub proof fn lemma_no_newcomer(t: Taker, q: Seq<RestingOrder>, remaining: int, id: OrderId)
    requires
        queued(model::matched(t, q, remaining).queue, id),
    ensures
        queued(q, id),
    decreases remaining, q.len(),
{
    if remaining <= 0 || q.len() == 0 || !model::crosses(t.side, t.limit, q[0].price)
        || q[0].size_remaining.0 <= 0 {
    } else {
        let maker = q[0];
        let rest = q.drop_first();
        let size = maker.size_remaining.0 as int;
        assert(queued(rest, id) ==> queued(q, id)) by {
            if queued(rest, id) {
                let i = choose|i: int| 0 <= i < rest.len() && (#[trigger] rest[i]).order_id == id;
                assert(q[i + 1] == rest[i]);
            }
        }
        assert(maker.order_id == id ==> queued(q, id)) by {
            assert(q[0] == maker);
        }
        if maker.user_id == t.user_id && t.stp != SelfTradePrevention::Allow {
            if t.stp is CancelMaker {
                lemma_no_newcomer(t, rest, remaining, id);
            } else if t.stp is DecrementAndCancel {
                if size <= remaining {
                    lemma_no_newcomer(t, rest, remaining - size, id);
                } else {
                    lemma_queued_update(q, model::showing(maker, size - remaining), id);
                }
            }
        } else if remaining < size {
            lemma_queued_update(q, model::showing(maker, size - remaining), id);
        } else if maker.hidden_remaining.0 > 0 {
            let o = model::refreshed(maker);
            let rank = model::rank_of(o.side, o.price);
            lemma_no_newcomer(t, model::enqueue(rest, o), remaining - size, id);
            lemma_slot_range(rest, rank);
            lemma_queued_insert(rest, model::slot_of(rest, rank), o, id);
        } else {
            lemma_no_newcomer(t, rest, remaining - size, id);
        }
    }
}

proof fn lemma_queued_update(q: Seq<RestingOrder>, o: RestingOrder, id: OrderId)
    requires
        q.len() > 0,
        o.order_id == q[0].order_id,
        queued(q.update(0, o), id),
    ensures
        queued(q, id),
{
    let t = q.update(0, o);
    let i = choose|i: int| 0 <= i < t.len() && (#[trigger] t[i]).order_id == id;
    assert(q[i].order_id == id);
}

proof fn lemma_traded_by_join(a: Seq<Trade>, b: Seq<Trade>, id: OrderId)
    ensures
        traded_by(a + b, id) == traded_by(a, id) + traded_by(b, id),
    decreases b.len(),
{
    if b.len() == 0 {
        assert(a + b =~= a);
    } else {
        assert((a + b).drop_last() =~= a + b.drop_last());
        lemma_traded_by_join(a, b.drop_last(), id);
    }
}

proof fn lemma_one_trade(t: Trade, b: Seq<Trade>, id: OrderId)
    ensures
        traded_by(seq![t] + b, id) == part(t, id) + traded_by(b, id),
{
    lemma_traded_by_join(seq![t], b, id);
    assert(seq![t].drop_last() =~= Seq::<Trade>::empty());
    assert(traded_by(seq![t].drop_last(), id) == 0);
}

proof fn lemma_cancels_join(a: Seq<StpCancellation>, b: Seq<StpCancellation>, id: OrderId)
    ensures
        trimmed(a + b, id) == trimmed(a, id) + trimmed(b, id),
        struck(a + b, id) == (struck(a, id) || struck(b, id)),
    decreases b.len(),
{
    if b.len() == 0 {
        assert(a + b =~= a);
    } else {
        assert((a + b).drop_last() =~= a + b.drop_last());
        lemma_cancels_join(a, b.drop_last(), id);
    }
}

proof fn lemma_one_cancel(c: StpCancellation, b: Seq<StpCancellation>, id: OrderId)
    ensures
        trimmed(seq![c] + b, id) == trim(c, id) + trimmed(b, id),
        struck(seq![c] + b, id) == ((c.order_id == id && c.full_cancel) || struck(b, id)),
{
    lemma_cancels_join(seq![c], b, id);
    assert(seq![c].drop_last() =~= Seq::<StpCancellation>::empty());
    assert(trimmed(seq![c].drop_last(), id) == 0);
    assert(!struck(seq![c].drop_last(), id));
}

/// The order at a place of a tidy queue.
pub proof fn lemma_pick(q: Seq<RestingOrder>, i: int)
    requires
        tidy(q),
        0 <= i < q.len(),
    ensures
        queued(q, q[i].order_id),
        pick(q, q[i].order_id) == q[i],
        model::order_ok(q[i]),
{
    let id = q[i].order_id;
    let k = choose|k: int| 0 <= k < q.len() && (#[trigger] q[k]).order_id == id;
    assert(q[i].order_id == id);
    if k < i {
        assert(q[k].order_id != q[i].order_id);
    } else if i < k {
        assert(q[i].order_id != q[k].order_id);
    }
}

/// The front of a queue is the one order that leaves with it.
proof fn lemma_front(q: Seq<RestingOrder>, id: OrderId)
    requires
        tidy(q),
        q.len() > 0,
    ensures
        tidy(q.drop_first()),
        id == q[0].order_id ==> queued(q, id) && !queued(q.drop_first(), id) && pick(q, id) == q[0],
        id != q[0].order_id ==> queued(q.drop_first(), id) == queued(q, id) && (queued(q, id)
            ==> pick(q.drop_first(), id) == pick(q, id)),
{
    let rest = q.drop_first();
    assert forall|i: int, j: int| #![trigger rest[i], rest[j]]
        0 <= i < j < rest.len() implies rest[i].order_id != rest[j].order_id by {
        assert(q[i + 1].order_id != q[j + 1].order_id);
    }
    if id == q[0].order_id {
        lemma_pick(q, 0);
        if queued(rest, id) {
            let i = choose|i: int| 0 <= i < rest.len() && (#[trigger] rest[i]).order_id == id;
            assert(q[i + 1].order_id != q[0].order_id);
        }
    } else {
        if queued(rest, id) {
            let i = choose|i: int| 0 <= i < rest.len() && (#[trigger] rest[i]).order_id == id;
            assert(q[i + 1].order_id == id);
            lemma_pick(q, i + 1);
            lemma_pick(rest, i);
        }
        if queued(q, id) {
            let i = choose|i: int| 0 <= i < q.len() && (#[trigger] q[i]).order_id == id;
            assert(rest[i - 1] == q[i]);
        }
    }
}

/// An order that joins a queue leaves the others as they are.
pub proof fn lemma_join(q: Seq<RestingOrder>, k: int, o: RestingOrder, id: OrderId)
    requires
        tidy(q),
        0 <= k <= q.len(),
        !queued(q, o.order_id),
        model::order_ok(o),
    ensures
        tidy(q.insert(k, o)),
        id == o.order_id ==> queued(q.insert(k, o), id) && pick(q.insert(k, o), id) == o,
        id != o.order_id ==> queued(q.insert(k, o), id) == queued(q, id) && (queued(q, id) ==> pick(
            q.insert(k, o),
            id,
        ) == pick(q, id)),
{
    let t = q.insert(k, o);
    assert forall|i: int| 0 <= i < t.len() implies #[trigger] t[i] == (if i < k {
        q[i]
    } else if i == k {
        o
    } else {
        q[i - 1]
    }) by {}
    assert forall|i: int, j: int| #![trigger t[i], t[j]]
        0 <= i < j < t.len() implies t[i].order_id != t[j].order_id by {
        if i == k {
            assert(q[j - 1].order_id != o.order_id);
        } else if j == k {
            assert(q[i].order_id != o.order_id);
        } else {
            let i0 = if i < k {
                i
            } else {
                i - 1
            };
            let j0 = if j < k {
                j
            } else {
                j - 1
            };
            assert(q[i0].order_id != q[j0].order_id);
        }
    }
    if id == o.order_id {
        lemma_pick(t, k);
    } else {
        if queued(q, id) {
            let i = choose|i: int| 0 <= i < q.len() && (#[trigger] q[i]).order_id == id;
            lemma_pick(q, i);
            if i < k {
                lemma_pick(t, i);
            } else {
                lemma_pick(t, i + 1);
            }
        }
        if queued(t, id) {
            let i = choose|i: int| 0 <= i < t.len() && (#[trigger] t[i]).order_id == id;
            if i < k {
                assert(q[i] == t[i]);
            } else {
                assert(q[i - 1] == t[i]);
            }
        }
    }
}

/// A front order that changes leaves the others as they are.
proof fn lemma_change_front(q: Seq<RestingOrder>, o: RestingOrder, id: OrderId)
    requires
        tidy(q),
        q.len() > 0,
        o.order_id == q[0].order_id,
        model::order_ok(o),
    ensures
        tidy(q.update(0, o)),
        queued(q.update(0, o), id) == queued(q, id),
        id == o.order_id ==> queued(q, id) && pick(q.update(0, o), id) == o,
        id != o.order_id && queued(q, id) ==> pick(q.update(0, o), id) == pick(q, id),
{
    let t = q.update(0, o);
    assert forall|i: int, j: int| #![trigger t[i], t[j]]
        0 <= i < j < t.len() implies t[i].order_id != t[j].order_id by {
        assert(q[i].order_id != q[j].order_id);
    }
    if id == o.order_id {
        assert(q[0].order_id == id);
        lemma_pick(t, 0);
    }
    if queued(q, id) {
        let i = choose|i: int| 0 <= i < q.len() && (#[trigger] q[i]).order_id == id;
        assert(t[i].order_id == id);
        lemma_pick(q, i);
        lemma_pick(t, i);
    }
    if queued(t, id) {
        let i = choose|i: int| 0 <= i < t.len() && (#[trigger] t[i]).order_id == id;
        assert(q[i].order_id == id);
    }
}

/// What matching does to the order with an id: it still stands and wants less
/// by what it traded and by what prevention took, or prevention removed it with
/// something left, or it traded in full. An order that did not stand in the
/// queue is not touched.
pub open spec fn fate(q: Seq<RestingOrder>, m: MatchModel, id: OrderId) -> bool {
    let gone = traded_by(m.trades, id);
    let less = trimmed(m.cancels, id);
    let out = struck(m.cancels, id);
    if !queued(q, id) {
        !queued(m.queue, id) && gone == 0 && less == 0 && !out
    } else if queued(m.queue, id) {
        &&& !out
        &&& 0 <= gone
        &&& 0 <= less
        &&& same_order(pick(q, id), pick(m.queue, id))
        &&& open_size(pick(m.queue, id)) == open_size(pick(q, id)) - gone - less
        &&& model::order_ok(pick(m.queue, id))
    } else if out {
        less == 0 && 0 <= gone < open_size(pick(q, id))
    } else {
        less == 0 && gone == open_size(pick(q, id))
    }
}

/// Every order meets one of these fates, and the queue stays tidy.
pub proof fn lemma_fate(t: Taker, q: Seq<RestingOrder>, remaining: int, id: OrderId)
    requires
        tidy(q),
        remaining <= i64::MAX,
        id != t.order_id,
    ensures
        tidy(model::matched(t, q, remaining).queue),
        fate(q, model::matched(t, q, remaining), id),
    decreases remaining, q.len(),
{
    let m = model::matched(t, q, remaining);
    if remaining <= 0 || q.len() == 0 || !model::crosses(t.side, t.limit, q[0].price)
        || q[0].size_remaining.0 <= 0 {
        if queued(q, id) {
            let i = choose|i: int| 0 <= i < q.len() && (#[trigger] q[i]).order_id == id;
            lemma_pick(q, i);
        }
    } else {
        let maker = q[0];
        let rest = q.drop_first();
        let size = maker.size_remaining.0 as int;
        lemma_front(q, id);
        if queued(q, id) {
            let i = choose|i: int| 0 <= i < q.len() && (#[trigger] q[i]).order_id == id;
            lemma_pick(q, i);
        }
        if maker.user_id == t.user_id && t.stp != SelfTradePrevention::Allow {
            let gone = model::cancellation_of(maker, size, true);
            if t.stp is CancelMaker {
                let n = model::matched(t, rest, remaining);
                lemma_fate(t, rest, remaining, id);
                assert(m.trades =~= n.trades);
                lemma_one_cancel(gone, n.cancels, id);
            } else if t.stp is CancelBoth {
                assert(m.trades =~= Seq::<Trade>::empty());
                lemma_one_cancel(gone, Seq::empty(), id);
            } else if t.stp is DecrementAndCancel {
                if size <= remaining {
                    let n = model::matched(t, rest, remaining - size);
                    lemma_fate(t, rest, remaining - size, id);
                    assert(m.trades =~= n.trades);
                    lemma_one_cancel(gone, n.cancels, id);
                } else {
                    assert(m.trades =~= Seq::<Trade>::empty());
                    lemma_one_cancel(
                        model::cancellation_of(maker, remaining, false),
                        Seq::empty(),
                        id,
                    );
                    lemma_change_front(q, model::showing(maker, size - remaining), id);
                }
            }
        } else if remaining < size {
            assert(m.cancels =~= Seq::<StpCancellation>::empty());
            lemma_one_trade(model::trade_between(t, maker, remaining), Seq::empty(), id);
            lemma_change_front(q, model::showing(maker, size - remaining), id);
        } else {
            let o = model::refreshed(maker);
            let rank = model::rank_of(o.side, o.price);
            let next = if maker.hidden_remaining.0 > 0 {
                model::enqueue(rest, o)
            } else {
                rest
            };
            if maker.hidden_remaining.0 > 0 {
                lemma_slot_range(rest, rank);
                lemma_front(q, o.order_id);
                lemma_join(rest, model::slot_of(rest, rank), o, id);
            }
            let n = model::matched(t, next, remaining - size);
            lemma_fate(t, next, remaining - size, id);
            lemma_one_trade(model::trade_between(t, maker, size), n.trades, id);
            assert(m.cancels =~= n.cancels);
        }
    }
}

/// What a trade of a matching is: the taker trades with an order of the queue, at
/// that order's price, which its limit allows, and not with its own user where it wants to
/// be kept from that.
pub open spec fn trade_fits(t: Taker, q: Seq<RestingOrder>, trade: Trade) -> bool {
    &&& queued(q, trade.maker_order_id)
    &&& trade.symbol_id == t.symbol_id
    &&& trade.taker_order_id == t.order_id
    &&& trade.taker_user_id == t.user_id
    &&& trade.taker_side == t.side
    &&& trade.timestamp == t.timestamp
    &&& trade.maker_user_id == pick(q, trade.maker_order_id).user_id
    &&& trade.price == pick(q, trade.maker_order_id).price
    &&& match t.side {
        Side::Bid => trade.price.0 <= t.limit.0,
        Side::Ask => trade.price.0 >= t.limit.0,
    }
    &&& t.stp != SelfTradePrevention::Allow ==> trade.maker_user_id != t.user_id
    &&& trade.size.0 > 0
}

/// What prevention reports: an order of the taker's user in the queue.
pub open spec fn cancel_fits(t: Taker, q: Seq<RestingOrder>, c: StpCancellation) -> bool {
    &&& queued(q, c.order_id)
    &&& c.user_id == t.user_id
    &&& c.size_cancelled.0 > 0
}

proof fn lemma_fits_rest(t: Taker, q: Seq<RestingOrder>, next: Seq<RestingOrder>, n: MatchModel)
    requires
        tidy(q),
        q.len() > 0,
        forall|id: OrderId| #[trigger] queued(next, id) ==> queued(q, id) && same_order(
            pick(q, id),
            pick(next, id),
        ),
        forall|i: int| 0 <= i < n.trades.len() ==> trade_fits(t, next, #[trigger] n.trades[i]),
        forall|i: int| 0 <= i < n.cancels.len() ==> cancel_fits(t, next, #[trigger] n.cancels[i]),
    ensures
        forall|i: int| 0 <= i < n.trades.len() ==> trade_fits(t, q, #[trigger] n.trades[i]),
        forall|i: int| 0 <= i < n.cancels.len() ==> cancel_fits(t, q, #[trigger] n.cancels[i]),
{
    assert forall|i: int| 0 <= i < n.trades.len() implies trade_fits(
        t,
        q,
        #[trigger] n.trades[i],
    ) by {
        assert(queued(next, n.trades[i].maker_order_id));
    }
    assert forall|i: int| 0 <= i < n.cancels.len() implies cancel_fits(
        t,
        q,
        #[trigger] n.cancels[i],
    ) by {
        assert(queued(next, n.cancels[i].order_id));
    }
}

/// Each trade of a matching is between the taker and an order of the queue, and
/// prevention touches only orders of the taker's user.
pub proof fn lemma_matched_fits(t: Taker, q: Seq<RestingOrder>, remaining: int)
    requires
        tidy(q),
        remaining <= i64::MAX,
    ensures
        forall|i: int|
            0 <= i < model::matched(t, q, remaining).trades.len() ==> trade_fits(
                t,
                q,
                #[trigger] model::matched(t, q, remaining).trades[i],
            ),
        forall|i: int|
            0 <= i < model::matched(t, q, remaining).cancels.len() ==> cancel_fits(
                t,
                q,
                #[trigger] model::matched(t, q, remaining).cancels[i],
            ),
    decreases remaining, q.len(),
{
    let m = model::matched(t, q, remaining);
    if remaining <= 0 || q.len() == 0 || !model::crosses(t.side, t.limit, q[0].price)
        || q[0].size_remaining.0 <= 0 {
    } else {
        let maker = q[0];
        let rest = q.drop_first();
        let size = maker.size_remaining.0 as int;
        lemma_pick(q, 0);
        lemma_front(q, maker.order_id);
        assert forall|id: OrderId| #[trigger] queued(rest, id) implies queued(q, id) && same_order(
            pick(q, id),
            pick(rest, id),
        ) by {
            lemma_front(q, id);
        }
        if maker.user_id == t.user_id && t.stp != SelfTradePrevention::Allow {
            let gone = model::cancellation_of(maker, size, true);
            if t.stp is CancelMaker || (t.stp is DecrementAndCancel && size <= remaining) {
                let left = if t.stp is CancelMaker {
                    remaining
                } else {
                    remaining - size
                };
                let n = model::matched(t, rest, left);
                lemma_matched_fits(t, rest, left);
                lemma_fits_rest(t, q, rest, n);
                assert(m.trades =~= n.trades);
                assert(m.cancels =~= seq![gone] + n.cancels);
                assert forall|i: int| 0 <= i < m.cancels.len() implies cancel_fits(
                    t,
                    q,
                    #[trigger] m.cancels[i],
                ) by {
                    if i > 0 {
                        assert(m.cancels[i] == n.cancels[i - 1]);
                    }
                }
            } else {
                assert(m.trades =~= Seq::<Trade>::empty());
            }
        } else if remaining < size {
            assert(m.trades =~= seq![model::trade_between(t, maker, remaining)]);
        } else {
            let o = model::refreshed(maker);
            let rank = model::rank_of(o.side, o.price);
            let next = if maker.hidden_remaining.0 > 0 {
                model::enqueue(rest, o)
            } else {
                rest
            };
            if maker.hidden_remaining.0 > 0 {
                lemma_slot_range(rest, rank);
                lemma_join(rest, model::slot_of(rest, rank), o, o.order_id);
                assert forall|id: OrderId| #[trigger] queued(next, id) implies queued(q, id)
                    && same_order(pick(q, id), pick(next, id)) by {
                    lemma_join(rest, model::slot_of(rest, rank), o, id);
                    lemma_front(q, id);
                }
            }
            let n = model::matched(t, next, remaining - size);
            lemma_matched_fits(t, next, remaining - size);
            lemma_fits_rest(t, q, next, n);
            assert(m.trades =~= seq![model::trade_between(t, maker, size)] + n.trades);
            assert(m.cancels =~= n.cancels);
            assert forall|i: int| 0 <= i < m.trades.len() implies trade_fits(
                t,
                q,
                #[trigger] m.trades[i],
            ) by {
                if i > 0 {
                    assert(m.trades[i] == n.trades[i - 1]);
                }
            }
        }
    }
}

/// The taker takes part in every trade.
pub proof fn lemma_taker_traded(trades: Seq<Trade>, id: OrderId)
    requires
        forall|i: int| 0 <= i < trades.len() ==> (#[trigger] trades[i]).taker_order_id == id,
    ensures
        traded_by(trades, id) == model::traded(trades),
    decreases trades.len(),
{
    if trades.len() > 0 {
        let before = trades.drop_last();
        assert forall|i: int| 0 <= i < before.len() implies (
        #[trigger] before[i]).taker_order_id == id by {
            assert(before[i] == trades[i]);
        }
        lemma_taker_traded(before, id);
        assert(trades.last() == trades[trades.len() - 1]);
    }
}

/// A book as its operations keep it.
pub open spec fn kept(b: BookModel) -> bool {
    b.in_priority() && b.orders_ok() && b.ids_distinct()
}

/// The queues of a kept book are tidy.
pub proof fn lemma_tidy(b: BookModel, side: Side)
    requires
        b.orders_ok(),
        b.ids_distinct(),
    ensures
        tidy(b.queue(side)),
{
    let q = b.queue(side);
    assert forall|i: int, j: int| #![trigger q[i], q[j]]
        0 <= i < j < q.len() implies q[i].order_id != q[j].order_id by {
        if q[i].order_id == q[j].order_id {
            assert(b.rests_at(side, i, q[i].order_id));
            assert(b.rests_at(side, j, q[i].order_id));
        }
    }
}

/// Every trade of a placed order is with an order that rested on the other side,
/// at that order's price, which is no worse than the limit.
pub proof fn law_trades_within_limit(b: BookModel, p: PlaceParams, i: int)
    requires
        kept(b),
        0 <= i < model::outcome_of(b, p).trades.len(),
    ensures
        trade_fits(
            model::taker_of(b.symbol_id, p),
            b.queue(p.side.other()),
            model::outcome_of(b, p).trades[i],
        ),
{
    lemma_tidy(b, p.side.other());
    lemma_matched_fits(
        model::taker_of(b.symbol_id, p),
        b.queue(p.side.other()),
        p.size.0 as int,
    );
}

/// Matching without the decrementing mode loses nothing: what was wanted is
/// traded or remains.
proof fn lemma_all_accounted(t: Taker, q: Seq<RestingOrder>, remaining: int)
    requires
        remaining <= i64::MAX,
        !(t.stp is DecrementAndCancel),
    ensures
        model::traded(model::matched(t, q, remaining).trades) + model::matched(
            t,
            q,
            remaining,
        ).remaining == remaining,
    decreases remaining, q.len(),
{
    let m = model::matched(t, q, remaining);
    if remaining <= 0 || q.len() == 0 || !model::crosses(t.side, t.limit, q[0].price)
        || q[0].size_remaining.0 <= 0 {
    } else {
        let maker = q[0];
        let rest = q.drop_first();
        let size = maker.size_remaining.0 as int;
        if maker.user_id == t.user_id && t.stp != SelfTradePrevention::Allow {
            if t.stp is CancelMaker {
                lemma_all_accounted(t, rest, remaining);
                assert(m.trades =~= model::matched(t, rest, remaining).trades);
            } else {
                assert(m.trades =~= Seq::<Trade>::empty());
            }
        } else {
            let next = if maker.hidden_remaining.0 > 0 {
                model::enqueue(rest, model::refreshed(maker))
            } else {
                rest
            };
            let fill = if remaining < size {
                remaining
            } else {
                size
            };
            let trade = model::trade_between(t, maker, fill);
            let more = if remaining < size {
                Seq::empty()
            } else {
                model::matched(t, next, remaining - size).trades
            };
            if remaining >= size {
                lemma_all_accounted(t, next, remaining - size);
            }
            assert(m.trades =~= seq![trade] + more);
            book::lemma_traded_join(seq![trade], more);
            assert(seq![trade].drop_last() =~= Seq::<Trade>::empty());
            assert(model::traded(seq![trade].drop_last()) == 0);
        }
    }
}

/// An accepted order's size is what it traded and what remains of it. Only the
/// mode that decrements both sides of a self-trade takes more away.
pub proof fn law_size_accounted(b: BookModel, p: PlaceParams)
    requires
        model::refusal(b, p).is_none(),
    ensures
        ({
            let o = model::outcome_of(b, p);
            &&& 0 <= o.filled
            &&& 0 <= o.remaining
            &&& o.filled + o.remaining <= p.size.0
            &&& !(p.stp is DecrementAndCancel) ==> o.filled + o.remaining == p.size.0
        }),
{
    let t = model::taker_of(b.symbol_id, p);
    let q = b.queue(p.side.other());
    book::lemma_matched_bounds(t, q, p.size.0 as int);
    if !(p.stp is DecrementAndCancel) {
        lemma_all_accounted(t, q, p.size.0 as int);
    }
}

/// A post-only order never trades, and an immediate one never rests.
pub proof fn law_time_in_force(b: BookModel, p: PlaceParams)
    ensures
        p.time_in_force is PostOnly ==> model::outcome_of(b, p).trades.len() == 0
            && model::book_after_place(b, p).queue(p.side.other()) == b.queue(p.side.other()),
        p.time_in_force is Ioc || p.time_in_force is Fok ==> !model::outcome_of(b, p).rested
            && model::book_after_place(b, p).queue(p.side) == b.queue(p.side),
{
}

/// A refused order leaves the book as it was.
pub proof fn law_refusal_changes_nothing(b: BookModel, p: PlaceParams)
    requires
        model::outcome_of(b, p).reject.is_some(),
    ensures
        model::book_after_place(b, p) == b,
        model::outcome_of(b, p).trades.len() == 0,
        model::outcome_of(b, p).stp_cancellations.len() == 0,
{
}

/// The rank of an order in its queue.
pub open spec fn rank(o: RestingOrder) -> int {
    model::rank_of(o.side, o.price)
}

/// A queue that serves the better price first.
pub open spec fn sorted(q: Seq<RestingOrder>) -> bool {
    forall|i: int, j: int| #![trigger q[i], q[j]]
        0 <= i <= j < q.len() ==> rank(q[i]) <= rank(q[j])
}

/// An order joins a sorted queue behind all orders that are at least as good and
/// before all others: price first, then time.
pub proof fn law_price_then_time(q: Seq<RestingOrder>, o: RestingOrder)
    requires
        sorted(q),
    ensures
        ({
            let k = model::slot_of(q, rank(o));
            &&& 0 <= k <= q.len()
            &&& model::enqueue(q, o) == q.insert(k, o)
            &&& sorted(model::enqueue(q, o))
            &&& forall|i: int| 0 <= i < k ==> rank(#[trigger] q[i]) <= rank(o)
            &&& forall|i: int| k <= i < q.len() ==> rank(o) < rank(#[trigger] q[i])
        }),
{
    lemma_slot(q, rank(o));
    let k = model::slot_of(q, rank(o));
    let t = q.insert(k, o);
    assert forall|i: int, j: int| #![trigger t[i], t[j]]
        0 <= i <= j < t.len() implies rank(t[i]) <= rank(t[j]) by {
        let i0 = if i <= k {
            i
        } else {
            i - 1
        };
        let j0 = if j <= k {
            j
        } else {
            j - 1
        };
        if i != k && j != k {
            assert(rank(q[i0]) <= rank(q[j0]));
        }
    }
}

pub proof fn lemma_slot(q: Seq<RestingOrder>, r: int)
    requires
        sorted(q),
    ensures
        0 <= model::slot_of(q, r) <= q.len(),
        forall|i: int| 0 <= i < model::slot_of(q, r) ==> rank(#[trigger] q[i]) <= r,
        forall|i: int| model::slot_of(q, r) <= i < q.len() ==> r < rank(#[trigger] q[i]),
    decreases q.len(),
{
    if q.len() > 0 {
        if rank(q.last()) <= r {
            assert forall|i: int| 0 <= i < q.len() implies rank(#[trigger] q[i]) <= r by {
                assert(rank(q[i]) <= rank(q[q.len() - 1]));
            }
        } else {
            let before = q.drop_last();
            assert forall|i: int, j: int| #![trigger before[i], before[j]]
                0 <= i <= j < before.len() implies rank(before[i]) <= rank(before[j]) by {
                assert(rank(q[i]) <= rank(q[j]));
            }
            lemma_slot(before, r);
            assert forall|i: int| 0 <= i < model::slot_of(q, r) implies rank(
                #[trigger] q[i],
            ) <= r by {
                assert(before[i] == q[i]);
            }
            assert forall|i: int| model::slot_of(q, r) <= i < q.len() implies r < rank(
                #[trigger] q[i],
            ) by {
                if i < before.len() {
                    assert(before[i] == q[i]);
                }
            }
        }
    }
}

/// Whether a queue holds the orders of one side.
pub open spec fn on_side(q: Seq<RestingOrder>, side: Side) -> bool {
    forall|i: int| 0 <= i < q.len() ==> (#[trigger] q[i]).side == side
}

/// A queue of a kept book is sorted.
pub proof fn lemma_sorted(b: BookModel, side: Side)
    requires
        kept(b),
    ensures
        sorted(b.queue(side)),
        on_side(b.queue(side), side),
{
    let q = b.queue(side);
    assert forall|i: int, j: int| #![trigger q[i], q[j]]
        0 <= i <= j < q.len() implies rank(q[i]) <= rank(q[j]) by {
        assert(b.queue(side)[i].side == side);
        assert(b.queue(side)[j].side == side);
    }
}

/// What is left of a sorted queue without its front.
proof fn lemma_rest_sorted(q: Seq<RestingOrder>, side: Side)
    requires
        sorted(q),
        on_side(q, side),
        q.len() > 0,
    ensures
        sorted(q.drop_first()),
        on_side(q.drop_first(), side),
{
    let rest = q.drop_first();
    assert forall|i: int, j: int| #![trigger rest[i], rest[j]]
        0 <= i <= j < rest.len() implies rank(rest[i]) <= rank(rest[j]) by {
        assert(rank(q[i + 1]) <= rank(q[j + 1]));
    }
}

proof fn lemma_enqueue_side(q: Seq<RestingOrder>, o: RestingOrder, side: Side)
    requires
        on_side(q, side),
        o.side == side,
    ensures
        on_side(model::enqueue(q, o), side),
{
    lemma_slot_range(q, rank(o));
}

/// Matching keeps a queue sorted. With something still wanted it stops only
/// where no price crosses any more, unless prevention stops the taker.
pub proof fn lemma_matched_stops(t: Taker, q: Seq<RestingOrder>, remaining: int)
    requires
        tidy(q),
        sorted(q),
        on_side(q, t.side.other()),
        remaining <= i64::MAX,
    ensures
        ({
            let m = model::matched(t, q, remaining);
            &&& sorted(m.queue)
            &&& on_side(m.queue, t.side.other())
            &&& m.remaining > 0 && !(t.stp is CancelTaker) && !(t.stp is CancelBoth)
                ==> m.queue.len() == 0 || !model::crosses(t.side, t.limit, m.queue[0].price)
        }),
    decreases remaining, q.len(),
{
    let m = model::matched(t, q, remaining);
    if remaining <= 0 || q.len() == 0 || !model::crosses(t.side, t.limit, q[0].price)
        || q[0].size_remaining.0 <= 0 {
        if q.len() > 0 {
            assert(model::order_ok(q[0]));
        }
    } else {
        let maker = q[0];
        let rest = q.drop_first();
        let size = maker.size_remaining.0 as int;
        lemma_rest_sorted(q, t.side.other());
        lemma_front(q, maker.order_id);
        if maker.user_id == t.user_id && t.stp != SelfTradePrevention::Allow {
            if t.stp is CancelMaker {
                lemma_matched_stops(t, rest, remaining);
            } else if t.stp is DecrementAndCancel {
                if size <= remaining {
                    lemma_matched_stops(t, rest, remaining - size);
                } else {
                    lemma_front_shrinks(q, size - remaining);
                }
            }
        } else if remaining < size {
            lemma_front_shrinks(q, size - remaining);
        } else if maker.hidden_remaining.0 > 0 {
            let o = model::refreshed(maker);
            law_price_then_time(rest, o);
            lemma_enqueue_side(rest, o, t.side.other());
            lemma_join(rest, model::slot_of(rest, rank(o)), o, o.order_id);
            lemma_matched_stops(t, model::enqueue(rest, o), remaining - size);
        } else {
            lemma_matched_stops(t, rest, remaining - size);
        }
    }
}

proof fn lemma_front_shrinks(q: Seq<RestingOrder>, size: int)
    requires
        sorted(q),
        q.len() > 0,
    ensures
        sorted(q.update(0, model::showing(q[0], size))),
{
    let t = q.update(0, model::showing(q[0], size));
    assert forall|i: int, j: int| #![trigger t[i], t[j]]
        0 <= i <= j < t.len() implies rank(t[i]) <= rank(t[j]) by {
        assert(rank(q[i]) <= rank(q[j]));
    }
}

/// No resting bid reaches a resting ask.
pub open spec fn uncrossed(b: BookModel) -> bool {
    forall|i: int, j: int| #![trigger b.bids[i], b.asks[j]]
        0 <= i < b.bids.len() && 0 <= j < b.asks.len() ==> b.bids[i].price.0 < b.asks[j].price.0
}

/// Whether a price of a side lies apart from one of the other side.
spec fn apart(side: Side, own: int, other: int) -> bool {
    match side {
        Side::Bid => own < other,
        Side::Ask => other < own,
    }
}

/// An order that rests stays apart from what matching leaves of the other side.
proof fn lemma_rests_apart(b: BookModel, p: PlaceParams, j: int)
    requires
        kept(b),
        model::refusal(b, p).is_none(),
        model::matching_of(b, p).remaining > 0,
        0 <= j < model::matching_of(b, p).queue.len(),
        p.time_in_force is PostOnly || !(p.stp is CancelTaker || p.stp is CancelBoth),
    ensures
        apart(p.side, p.price.0 as int, model::matching_of(b, p).queue[j].price.0 as int),
{
    let q = b.queue(p.side.other());
    let m = model::matching_of(b, p);
    lemma_tidy(b, p.side.other());
    lemma_sorted(b, p.side.other());
    if !(p.time_in_force is PostOnly) {
        lemma_matched_stops(model::taker_of(b.symbol_id, p), q, p.size.0 as int);
    }
    assert(rank(m.queue[0]) <= rank(m.queue[j]));
    assert(m.queue[j].side == p.side.other());
    assert(m.queue[0].side == p.side.other());
}

/// What rested before stays apart from what matching leaves of the other side.
proof fn lemma_others_apart(b: BookModel, p: PlaceParams, i: int, j: int)
    requires
        kept(b),
        uncrossed(b),
        model::refusal(b, p).is_none(),
        0 <= i < b.queue(p.side).len(),
        0 <= j < model::matching_of(b, p).queue.len(),
    ensures
        apart(
            p.side,
            b.queue(p.side)[i].price.0 as int,
            model::matching_of(b, p).queue[j].price.0 as int,
        ),
{
    let q = b.queue(p.side.other());
    let m = model::matching_of(b, p);
    lemma_tidy(b, p.side.other());
    let k = if p.time_in_force is PostOnly {
        j
    } else {
        lemma_price_known(model::taker_of(b.symbol_id, p), q, p.size.0 as int, j);
        choose|k: int| 0 <= k < q.len() && (#[trigger] q[k]).price == m.queue[j].price
    };
    assert(q[k].price == m.queue[j].price);
    match p.side {
        Side::Bid => {
            assert(b.bids[i].price.0 < b.asks[k].price.0);
        },
        Side::Ask => {
            assert(b.bids[k].price.0 < b.asks[i].price.0);
        },
    }
}

/// An order takes no price at which an order of the same user rests.
pub open spec fn meets_no_own(t: Taker, q: Seq<RestingOrder>) -> bool {
    forall|i: int|
        0 <= i < q.len() && (#[trigger] q[i]).user_id == t.user_id ==> !model::crosses(
            t.side,
            t.limit,
            q[i].price,
        )
}

/// An order as it is where self-trades are allowed.
spec fn allowing(p: PlaceParams) -> PlaceParams {
    PlaceParams { stp: SelfTradePrevention::Allow, ..p }
}

/// Self-trade prevention does nothing to an order that meets none of its own user.
proof fn lemma_prevention_idle(t: Taker, q: Seq<RestingOrder>, remaining: int)
    requires
        meets_no_own(t, q),
    ensures
        model::matched(t, q, remaining) == model::matched(
            Taker { stp: SelfTradePrevention::Allow, ..t },
            q,
            remaining,
        ),
    decreases remaining, q.len(),
{
    if remaining <= 0 || q.len() == 0 || !model::crosses(t.side, t.limit, q[0].price)
        || q[0].size_remaining.0 <= 0 {
    } else {
        let maker = q[0];
        let rest = q.drop_first();
        let size = maker.size_remaining.0 as int;
        assert forall|i: int| 0 <= i < rest.len() && (#[trigger] rest[i]).user_id
            == t.user_id implies !model::crosses(t.side, t.limit, rest[i].price) by {
            assert(rest[i] == q[i + 1]);
        }
        if size <= remaining {
            if maker.hidden_remaining.0 > 0 {
                let o = model::refreshed(maker);
                let next = model::enqueue(rest, o);
                let k = model::slot_of(rest, rank(o));
                lemma_slot_range(rest, rank(o));
                assert forall|i: int| 0 <= i < next.len() && (#[trigger] next[i]).user_id
                    == t.user_id implies !model::crosses(t.side, t.limit, next[i].price) by {
                    if i < k {
                        assert(next[i] == rest[i]);
                    } else if i > k {
                        assert(next[i] == rest[i - 1]);
                    }
                }
                lemma_prevention_idle(t, next, remaining - size);
            } else {
                lemma_prevention_idle(t, rest, remaining - size);
            }
        }
    }
}

proof fn lemma_shown_to_all(t: Taker, q: Seq<RestingOrder>)
    requires
        meets_no_own(t, q),
    ensures
        model::shown(q, t.side, t.limit, Some(t.user_id)) == model::shown(
            q,
            t.side,
            t.limit,
            None,
        ),
    decreases q.len(),
{
    if q.len() > 0 {
        let rest = q.drop_last();
        assert forall|i: int| 0 <= i < rest.len() && (#[trigger] rest[i]).user_id
            == t.user_id implies !model::crosses(t.side, t.limit, rest[i].price) by {
            assert(rest[i] == q[i]);
        }
        lemma_shown_to_all(t, rest);
        assert(q[q.len() - 1] == q.last());
    }
}

proof fn lemma_placed_idle(b: BookModel, p: PlaceParams)
    requires
        meets_no_own(model::taker_of(b.symbol_id, p), b.queue(p.side.other())),
    ensures
        model::outcome_of(b, p).reject.is_none() == model::outcome_of(b, allowing(p)).reject.is_none(),
        model::outcome_of(b, p).filled == model::outcome_of(b, allowing(p)).filled,
        model::outcome_of(b, p).remaining == model::outcome_of(b, allowing(p)).remaining,
        model::book_after_place(b, p) == model::book_after_place(b, allowing(p)),
{
    let t = model::taker_of(b.symbol_id, p);
    let q = b.queue(p.side.other());
    lemma_prevention_idle(t, q, p.size.0 as int);
    lemma_shown_to_all(t, q);
    assert(model::taker_of(b.symbol_id, allowing(p)) == Taker {
        stp: SelfTradePrevention::Allow,
        ..t
    });
}

/// Whether an order may come to rest behind the place where self-trade prevention
/// stops it.
pub open spec fn may_stop_short(p: PlaceParams) -> bool {
    &&& p.stp is CancelTaker || p.stp is CancelBoth
    &&& model::may_rest(p.time_in_force)
    &&& !(p.time_in_force is PostOnly)
}

/// A placed order never leaves the book crossed. An order that is stopped in front of
/// a resting one of its own user may come to rest across it.
pub proof fn law_stays_uncrossed(b: BookModel, p: PlaceParams)
    requires
        kept(b),
        uncrossed(b),
        may_stop_short(p) ==> meets_no_own(
            model::taker_of(b.symbol_id, p),
            b.queue(p.side.other()),
        ),
    ensures
        uncrossed(model::book_after_place(b, p)),
{
    if may_stop_short(p) {
        lemma_placed_idle(b, p);
        lemma_stays_uncrossed(b, allowing(p));
    } else {
        lemma_stays_uncrossed(b, p);
    }
}

proof fn lemma_stays_uncrossed(b: BookModel, p: PlaceParams)
    requires
        kept(b),
        uncrossed(b),
        !may_stop_short(p),
    ensures
        uncrossed(model::book_after_place(b, p)),
{
    if model::refusal(b, p).is_none() {
        let c = model::book_after_place(b, p);
        assert forall|i: int, j: int| #![trigger c.bids[i], c.asks[j]]
            0 <= i < c.bids.len() && 0 <= j < c.asks.len() implies c.bids[i].price.0
            < c.asks[j].price.0 by {
            match p.side {
                Side::Bid => {
                    lemma_pair_apart(b, p, i, j);
                },
                Side::Ask => {
                    lemma_pair_apart(b, p, j, i);
                },
            }
        }
    }
}

proof fn lemma_pair_apart(b: BookModel, p: PlaceParams, i: int, j: int)
    requires
        kept(b),
        uncrossed(b),
        !may_stop_short(p),
        model::refusal(b, p).is_none(),
        0 <= i < model::book_after_place(b, p).queue(p.side).len(),
        0 <= j < model::book_after_place(b, p).queue(p.side.other()).len(),
    ensures
        apart(
            p.side,
            model::book_after_place(b, p).queue(p.side)[i].price.0 as int,
            model::book_after_place(b, p).queue(p.side.other())[j].price.0 as int,
        ),
{
    let m = model::matching_of(b, p);
    let c = model::book_after_place(b, p);
    let own = b.queue(p.side);
    assert(c.queue(p.side.other()) == m.queue);
    if m.remaining > 0 && model::may_rest(p.time_in_force) {
        let o = model::resting_of(p, m.remaining);
        let slot = model::slot_of(own, rank(o));
        lemma_slot_range(own, rank(o));
        assert(c.queue(p.side) == own.insert(slot, o));
        if i == slot {
            lemma_rests_apart(b, p, j);
        } else if i < slot {
            lemma_others_apart(b, p, i, j);
        } else {
            lemma_others_apart(b, p, i - 1, j);
        }
    } else {
        assert(c.queue(p.side) == own);
        lemma_others_apart(b, p, i, j);
    }
}

/// Matching brings no new prices.
proof fn lemma_price_known(t: Taker, q: Seq<RestingOrder>, remaining: int, j: int)
    requires
        tidy(q),
        remaining <= i64::MAX,
        0 <= j < model::matched(t, q, remaining).queue.len(),
    ensures
        exists|k: int|
            0 <= k < q.len() && (#[trigger] q[k]).price == model::matched(
                t,
                q,
                remaining,
            ).queue[j].price,
    decreases remaining, q.len(),
{
    let m = model::matched(t, q, remaining);
    if remaining <= 0 || q.len() == 0 || !model::crosses(t.side, t.limit, q[0].price)
        || q[0].size_remaining.0 <= 0 {
        assert(q[j].price == m.queue[j].price);
    } else {
        let maker = q[0];
        let rest = q.drop_first();
        let size = maker.size_remaining.0 as int;
        lemma_front(q, maker.order_id);
        assert forall|k: int| 0 <= k < rest.len() implies #[trigger] rest[k] == q[k + 1] by {}
        if maker.user_id == t.user_id && t.stp != SelfTradePrevention::Allow {
            if t.stp is CancelMaker || (t.stp is DecrementAndCancel && size <= remaining) {
                let left = if t.stp is CancelMaker {
                    remaining
                } else {
                    remaining - size
                };
                lemma_price_known(t, rest, left, j);
                let k = choose|k: int|
                    0 <= k < rest.len() && (#[trigger] rest[k]).price == m.queue[j].price;
                assert(q[k + 1].price == m.queue[j].price);
            } else if t.stp is CancelBoth {
                assert(q[j + 1].price == m.queue[j].price);
            } else {
                assert(q[j].price == m.queue[j].price);
            }
        } else if remaining < size {
            assert(q[j].price == m.queue[j].price);
        } else {
            let o = model::refreshed(maker);
            let next = if maker.hidden_remaining.0 > 0 {
                model::enqueue(rest, o)
            } else {
                rest
            };
            lemma_slot_range(rest, rank(o));
            let slot = model::slot_of(rest, rank(o));
            if maker.hidden_remaining.0 > 0 {
                lemma_join(rest, slot, o, o.order_id);
            }
            lemma_price_known(t, next, remaining - size, j);
            let k = choose|k: int|
                0 <= k < next.len() && (#[trigger] next[k]).price == m.queue[j].price;
            if maker.hidden_remaining.0 > 0 {
                if k < slot {
                    assert(q[k + 1].price == m.queue[j].price);
                } else if k == slot {
                    assert(q[0].price == m.queue[j].price);
                } else {
                    assert(q[k].price == m.queue[j].price);
                }
            } else {
                assert(q[k + 1].price == m.queue[j].price);
            }
        }
    }
}

/// What an order of a queue shows.
spec fn shows(o: RestingOrder, side: Side, limit: Price, skip: Option<
    UserId,
>) -> int {
    if model::crosses(side, limit, o.price) && skip != Some(o.user_id) {
        o.size_remaining.0 as int
    } else {
        0
    }
}

/// What a queue shows does not depend on where an order stands in it.
proof fn lemma_shown_insert(
    q: Seq<RestingOrder>,
    k: int,
    o: RestingOrder,
    side: Side,
    limit: Price,
    skip: Option<UserId>,
)
    requires
        0 <= k <= q.len(),
    ensures
        model::shown(q.insert(k, o), side, limit, skip) == model::shown(q, side, limit, skip)
            + shows(o, side, limit, skip),
    decreases q.len(),
{
    let t = q.insert(k, o);
    if k == q.len() {
        assert(t.drop_last() =~= q);
    } else {
        assert(t.drop_last() =~= q.drop_last().insert(k, o));
        assert(t.last() == q.last());
        lemma_shown_insert(q.drop_last(), k, o, side, limit, skip);
    }
}

/// A sorted queue whose front does not cross shows nothing.
proof fn lemma_shows_nothing(
    q: Seq<RestingOrder>,
    n: int,
    side: Side,
    limit: Price,
    skip: Option<UserId>,
)
    requires
        0 <= n <= q.len(),
        sorted(q),
        on_side(q, side.other()),
        n > 0 ==> !model::crosses(side, limit, q[0].price),
    ensures
        model::shown(q.subrange(0, n), side, limit, skip) == 0,
    decreases n,
{
    if n > 0 {
        assert(q.subrange(0, n).drop_last() =~= q.subrange(0, n - 1));
        assert(rank(q[0]) <= rank(q[n - 1]));
        lemma_shows_nothing(q, n - 1, side, limit, skip);
    }
}

/// Where enough is shown, matching fills the taker.
proof fn lemma_fills(t: Taker, q: Seq<RestingOrder>, remaining: int)
    requires
        tidy(q),
        sorted(q),
        on_side(q, t.side.other()),
        0 <= remaining <= i64::MAX,
        t.stp is Allow || t.stp is CancelMaker,
        model::shown(
            q,
            t.side,
            t.limit,
            if t.stp is Allow {
                None
            } else {
                Some(t.user_id)
            },
        ) >= remaining,
    ensures
        model::matched(t, q, remaining).remaining == 0,
    decreases remaining, q.len(),
{
    let skip = if t.stp is Allow {
        None
    } else {
        Some(t.user_id)
    };
    if remaining > 0 {
        if q.len() == 0 || !model::crosses(t.side, t.limit, q[0].price) {
            lemma_shows_nothing(q, q.len() as int, t.side, t.limit, skip);
            assert(q.subrange(0, q.len() as int) =~= q);
        } else {
            let maker = q[0];
            let rest = q.drop_first();
            let size = maker.size_remaining.0 as int;
            assert(model::order_ok(q[0]));
            lemma_rest_sorted(q, t.side.other());
            lemma_front(q, maker.order_id);
            assert(rest.insert(0, maker) =~= q);
            lemma_shown_insert(rest, 0, maker, t.side, t.limit, skip);
            if maker.user_id == t.user_id && t.stp != SelfTradePrevention::Allow {
                lemma_fills(t, rest, remaining);
            } else if size <= remaining {
                if maker.hidden_remaining.0 > 0 {
                    let o = model::refreshed(maker);
                    law_price_then_time(rest, o);
                    lemma_enqueue_side(rest, o, t.side.other());
                    lemma_join(rest, model::slot_of(rest, rank(o)), o, o.order_id);
                    lemma_shown_insert(
                        rest,
                        model::slot_of(rest, rank(o)),
                        o,
                        t.side,
                        t.limit,
                        skip,
                    );
                    lemma_fills(t, model::enqueue(rest, o), remaining - size);
                } else {
                    lemma_fills(t, rest, remaining - size);
                }
            }
        }
    }
}

/// A fill-or-kill order fills in full or changes nothing. One that is stopped or made
/// smaller at a resting order of its own user may fill in part.
pub proof fn law_fill_or_kill(b: BookModel, p: PlaceParams)
    requires
        kept(b),
        p.time_in_force is Fok,
        p.stp is Allow || p.stp is CancelMaker || meets_no_own(
            model::taker_of(b.symbol_id, p),
            b.queue(p.side.other()),
        ),
    ensures
        ({
            let o = model::outcome_of(b, p);
            ||| o.reject.is_none() && o.filled == p.size.0 && o.remaining == 0
            ||| o.reject.is_some() && o.filled == 0 && model::book_after_place(b, p) == b
        }),
{
    if p.stp is Allow || p.stp is CancelMaker {
        lemma_fill_or_kill(b, p);
    } else {
        lemma_placed_idle(b, p);
        lemma_fill_or_kill(b, allowing(p));
    }
}

proof fn lemma_fill_or_kill(b: BookModel, p: PlaceParams)
    requires
        kept(b),
        p.time_in_force is Fok,
        p.stp is Allow || p.stp is CancelMaker,
    ensures
        ({
            let o = model::outcome_of(b, p);
            ||| o.reject.is_none() && o.filled == p.size.0 && o.remaining == 0
            ||| o.reject.is_some() && o.filled == 0 && model::book_after_place(b, p) == b
        }),
{
    if model::refusal(b, p).is_none() {
        lemma_tidy(b, p.side.other());
        lemma_sorted(b, p.side.other());
        lemma_fills(
            model::taker_of(b.symbol_id, p),
            b.queue(p.side.other()),
            p.size.0 as int,
        );
        law_size_accounted(b, p);
    }
}

/// Cancelling an order that was placed and did not trade brings back the book.
pub proof fn law_cancel_undoes_place(b: BookModel, p: PlaceParams)
    requires
        !b.has_order(p.order_id),
        model::outcome_of(b, p).rested,
        model::outcome_of(b, p).trades.len() == 0,
        model::outcome_of(b, p).stp_cancellations.len() == 0,
    ensures
        model::book_after_place(b, p).has_order(p.order_id),
        model::book_after_place(b, p).without(p.order_id) == b,
{
    let m = model::matching_of(b, p);
    let q = b.queue(p.side.other());
    let own = b.queue(p.side);
    let o = model::resting_of(p, m.remaining);
    let k = model::slot_of(own, rank(o));
    let c = model::book_after_place(b, p);
    lemma_slot_range(own, rank(o));
    assert(m.queue == q);
    assert(c.queue(p.side) == own.insert(k, o));
    assert(c.queue(p.side.other()) == q);
    assert(c.rests_at((p.side, k).0, (p.side, k).1, p.order_id));
    let (side, i) = c.find(p.order_id);
    assert(c.rests_at(side, i, p.order_id));
    if side == p.side.other() {
        assert(b.rests_at(side, i, p.order_id));
    } else if i < k {
        assert(b.rests_at(side, i, p.order_id));
    } else if i > k {
        assert(b.rests_at(side, i - 1, p.order_id));
    }
    assert(own.insert(k, o).remove(k) =~= own);
}

/// A tidy queue of one side as a book has it.
proof fn lemma_kept(b: BookModel)
    requires
        tidy(b.asks),
        tidy(b.bids),
        sorted(b.asks),
        sorted(b.bids),
        on_side(b.asks, Side::Ask),
        on_side(b.bids, Side::Bid),
        forall|id: OrderId| !(#[trigger] queued(b.asks, id) && queued(b.bids, id)),
    ensures
        kept(b),
{
    assert forall|side: Side, i: int, j: int| #![trigger b.queue(side)[i], b.queue(side)[j]]
        0 <= i <= j < b.queue(side).len() implies model::rank_of(side, b.queue(side)[i].price)
        <= model::rank_of(side, b.queue(side)[j].price) by {
        match side {
            Side::Ask => {
                assert(rank(b.asks[i]) <= rank(b.asks[j]));
            },
            Side::Bid => {
                assert(rank(b.bids[i]) <= rank(b.bids[j]));
            },
        }
    }
    assert forall|side: Side, i: int| #![trigger b.queue(side)[i]]
        0 <= i < b.queue(side).len() implies b.queue(side)[i].side == side && model::order_ok(
        b.queue(side)[i],
    ) by {
        match side {
            Side::Ask => {
                assert(model::order_ok(b.asks[i]));
            },
            Side::Bid => {
                assert(model::order_ok(b.bids[i]));
            },
        }
    }
    assert forall|s1: Side, i1: int, s2: Side, i2: int, id: OrderId|
        b.rests_at(s1, i1, id) && b.rests_at(s2, i2, id) implies s1 == s2 && i1 == i2 by {
        if s1 == s2 {
            let q = b.queue(s1);
            if i1 < i2 {
                assert(q[i1].order_id != q[i2].order_id);
            } else if i2 < i1 {
                assert(q[i2].order_id != q[i1].order_id);
            }
        } else {
            assert(b.queue(s1)[i1].order_id == id && b.queue(s2)[i2].order_id == id);
            assert(queued(b.asks, id) && queued(b.bids, id));
        }
    }
}

/// What a kept book is made of.
proof fn lemma_kept_queues(b: BookModel)
    requires
        kept(b),
    ensures
        forall|side: Side| #![trigger b.queue(side)]
            tidy(b.queue(side)) && sorted(b.queue(side)) && on_side(b.queue(side), side),
        forall|side: Side, id: OrderId|
            !(#[trigger] queued(b.queue(side), id) && queued(b.queue(side.other()), id)),
{
    assert forall|side: Side| #![trigger b.queue(side)]
        tidy(b.queue(side)) && sorted(b.queue(side)) && on_side(b.queue(side), side) by {
        lemma_tidy(b, side);
        lemma_sorted(b, side);
    }
    assert forall|side: Side, id: OrderId|
        !(#[trigger] queued(b.queue(side), id) && queued(b.queue(side.other()), id)) by {
        if queued(b.queue(side), id) && queued(b.queue(side.other()), id) {
            let q = b.queue(side);
            let r = b.queue(side.other());
            let i = choose|i: int| 0 <= i < q.len() && (#[trigger] q[i]).order_id == id;
            let j = choose|j: int| 0 <= j < r.len() && (#[trigger] r[j]).order_id == id;
            assert(b.rests_at(side, i, id) && b.rests_at(side.other(), j, id));
        }
    }
}

/// Placing an order keeps a book in priority, its orders sensible and their ids
/// distinct. One that comes to rest must not share its id with another.
pub proof fn law_place_keeps_book(b: BookModel, p: PlaceParams)
    requires
        kept(b),
        model::outcome_of(b, p).rested ==> !b.has_order(p.order_id),
    ensures
        kept(model::book_after_place(b, p)),
{
    if model::refusal(b, p).is_none() {
        let m = model::matching_of(b, p);
        let q = b.queue(p.side.other());
        let own = b.queue(p.side);
        let c = model::book_after_place(b, p);
        lemma_kept_queues(b);
        if !b.has_order(p.order_id) {
            lemma_not_queued(b, p.order_id);
        }
        if !(p.time_in_force is PostOnly) {
            lemma_matched_stops(model::taker_of(b.symbol_id, p), q, p.size.0 as int);
            let other = OrderId(
                if p.order_id.0 == 0 {
                    1
                } else {
                    0
                },
            );
            lemma_fate(model::taker_of(b.symbol_id, p), q, p.size.0 as int, other);
        }
        if m.remaining > 0 && model::may_rest(p.time_in_force) {
            let o = model::resting_of(p, m.remaining);
            book::lemma_matched_bounds(
                model::taker_of(b.symbol_id, p),
                q,
                p.size.0 as int,
            );
            law_price_then_time(own, o);
            lemma_enqueue_side(own, o, p.side);
            lemma_join(own, model::slot_of(own, rank(o)), o, o.order_id);
        }
        assert(c.queue(p.side.other()) == m.queue);
        assert forall|id: OrderId| !(#[trigger] queued(c.queue(p.side), id) && queued(m.queue, id)) by {
            if queued(c.queue(p.side), id) && queued(m.queue, id) {
                lemma_placed(b, p, id);
                assert(!(queued(b.queue(p.side), id) && queued(b.queue(p.side.other()), id)));
            }
        }
        match p.side {
            Side::Ask => {
                assert(c.queue(p.side) == c.asks && m.queue == c.bids);
            },
            Side::Bid => {
                assert(c.queue(p.side) == c.bids && m.queue == c.asks);
            },
        }
        lemma_kept(c);
    }
}

/// An order that a book does not have stands in none of its queues.
pub proof fn lemma_not_queued(b: BookModel, id: OrderId)
    requires
        !b.has_order(id),
    ensures
        forall|side: Side| !queued(#[trigger] b.queue(side), id),
{
    assert forall|side: Side| !queued(#[trigger] b.queue(side), id) by {
        if queued(b.queue(side), id) {
            let q = b.queue(side);
            let i = choose|i: int| 0 <= i < q.len() && (#[trigger] q[i]).order_id == id;
            assert(b.rests_at(side, i, id));
        }
    }
}

/// Who stands in the queues after an order was placed: on its own side the
/// orders that stood there, and the order if it rests; on the other side only
/// orders that stood there.
pub proof fn lemma_placed(b: BookModel, p: PlaceParams, id: OrderId)
    requires
        kept(b),
        model::outcome_of(b, p).rested ==> !b.has_order(p.order_id),
        model::refusal(b, p).is_none(),
    ensures
        queued(model::book_after_place(b, p).queue(p.side), id) == (queued(b.queue(p.side), id) || (
        model::outcome_of(b, p).rested && id == p.order_id)),
        queued(model::matching_of(b, p).queue, id) ==> queued(b.queue(p.side.other()), id),
        model::book_after_place(b, p).queue(p.side.other()) == model::matching_of(b, p).queue,
{
    let m = model::matching_of(b, p);
    let q = b.queue(p.side.other());
    let own = b.queue(p.side);
    lemma_kept_queues(b);
    if !b.has_order(p.order_id) {
        lemma_not_queued(b, p.order_id);
    }
    if !(p.time_in_force is PostOnly) {
        if id != p.order_id {
            lemma_fate(model::taker_of(b.symbol_id, p), q, p.size.0 as int, id);
        } else if queued(m.queue, id) && !queued(q, id) {
            lemma_no_newcomer(model::taker_of(b.symbol_id, p), q, p.size.0 as int, id);
        }
    }
    if m.remaining > 0 && model::may_rest(p.time_in_force) {
        let o = model::resting_of(p, m.remaining);
        book::lemma_matched_bounds(model::taker_of(b.symbol_id, p), q, p.size.0 as int);
        lemma_slot_range(own, rank(o));
        lemma_join(own, model::slot_of(own, rank(o)), o, id);
    }
}

/// An order that leaves a queue leaves the others as they are.
proof fn lemma_leave(q: Seq<RestingOrder>, k: int, side: Side, id: OrderId)
    requires
        tidy(q),
        sorted(q),
        on_side(q, side),
        0 <= k < q.len(),
    ensures
        tidy(q.remove(k)),
        sorted(q.remove(k)),
        on_side(q.remove(k), side),
        queued(q.remove(k), id) == (queued(q, id) && id != q[k].order_id),
        queued(q.remove(k), id) ==> pick(q.remove(k), id) == pick(q, id),
{
    let t = q.remove(k);
    assert forall|i: int| 0 <= i < t.len() implies #[trigger] t[i] == (if i < k {
        q[i]
    } else {
        q[i + 1]
    }) by {}
    assert forall|i: int, j: int| #![trigger t[i], t[j]]
        0 <= i < j < t.len() implies t[i].order_id != t[j].order_id && rank(t[i]) <= rank(t[j]) by {
        let i0 = if i < k {
            i
        } else {
            i + 1
        };
        let j0 = if j < k {
            j
        } else {
            j + 1
        };
        assert(q[i0].order_id != q[j0].order_id && rank(q[i0]) <= rank(q[j0]));
    }
    if queued(t, id) {
        let i = choose|i: int| 0 <= i < t.len() && (#[trigger] t[i]).order_id == id;
        lemma_pick(t, i);
        if i < k {
            lemma_pick(q, i);
            assert(q[i].order_id != q[k].order_id);
        } else {
            lemma_pick(q, i + 1);
            assert(q[k].order_id != q[i + 1].order_id);
        }
    }
    if queued(q, id) && id != q[k].order_id {
        let i = choose|i: int| 0 <= i < q.len() && (#[trigger] q[i]).order_id == id;
        if i < k {
            assert(t[i].order_id == id);
        } else {
            assert(t[i - 1].order_id == id);
        }
    }
}

/// Cancelling an order takes it from its side and leaves every other order where
/// it was.
pub proof fn law_cancel_keeps_book(b: BookModel, id: OrderId)
    requires
        kept(b),
        b.has_order(id),
    ensures
        kept(b.without(id)),
        b.order(id).order_id == id,
        ({
            let side = b.find(id).0;
            &&& queued(b.queue(side), id)
            &&& b.order(id) == pick(b.queue(side), id)
            &&& b.order(id).side == side
            &&& b.without(id).symbol_id == b.symbol_id
            &&& b.without(id).queue(side.other()) == b.queue(side.other())
            &&& forall|x: OrderId| #[trigger]
                queued(b.without(id).queue(side), x) == (queued(b.queue(side), x) && x != id)
            &&& forall|x: OrderId| #[trigger]
                queued(b.without(id).queue(side), x) ==> pick(b.without(id).queue(side), x) == pick(
                    b.queue(side),
                    x,
                )
        }),
{
    let (s0, i0) = choose|side: Side, i: int| #[trigger] b.rests_at(side, i, id);
    assert(b.rests_at((s0, i0).0, (s0, i0).1, id));
    let (side, k) = b.find(id);
    assert(b.rests_at(side, k, id));
    lemma_kept_queues(b);
    let q = b.queue(side);
    let c = b.without(id);
    lemma_pick(q, k);
    assert(c.queue(side) == q.remove(k));
    assert(c.queue(side.other()) == b.queue(side.other()));
    assert forall|x: OrderId|
        #[trigger] queued(c.queue(side), x) == (queued(q, x) && x != id) && (queued(
            c.queue(side),
            x,
        ) ==> pick(c.queue(side), x) == pick(q, x)) by {
        lemma_leave(q, k, side, x);
    }
    lemma_leave(q, k, side, id);
    assert forall|x: OrderId| !(#[trigger] queued(c.asks, x) && queued(c.bids, x)) by {
        match side {
            Side::Ask => {
                assert(queued(c.queue(side), x) ==> queued(q, x));
            },
            Side::Bid => {
                assert(queued(c.queue(side), x) ==> queued(q, x));
            },
        }
        assert(!(queued(b.queue(side), x) && queued(b.queue(side.other()), x)));
    }
    lemma_kept(c);
}

} // verus!
