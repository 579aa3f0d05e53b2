//! The order book of one symbol.
use vstd::prelude::*;

use crate::matching::model;
use crate::matching::model::{BookModel, OutcomeModel, Taker};
use crate::matching::outcome::{
    CancelOutcome, PlaceParams, PlacementOutcome, RestingOrder, StpCancellation, StpList, TradeList,
};
use crate::matching::saved;
use crate::matching::saved::BookSnapshot;
use crate::store::keyed::KeyedMap;
use crate::store::ladder;
use crate::store::ladder::{Item, PriceLadder};
use crate::types::enums::{OrderType, SelfTradePrevention, Side, TimeInForce};
use crate::types::event::Trade;
use crate::types::ids::{OrderId, SymbolId, UserId};
use crate::types::numeric::{Price, Size};
use crate::types::reject::RejectReason;

verus! {

/// Where an order rests.
#[derive(Debug, Clone, Copy)]
pub struct Slot {
    pub side: Side,
    pub handle: usize,
}

/// The order book of one symbol: one ladder per side, and an index from order
/// ids to the ladders.
pub struct SpotOrderBook {
    symbol_id: SymbolId,
    asks: PriceLadder<RestingOrder>,
    bids: PriceLadder<RestingOrder>,
    by_order_id: KeyedMap<Slot>,
}

/// The orders of a ladder.
pub open spec fn orders(l: Seq<Item<RestingOrder>>) -> Seq<RestingOrder> {
    Seq::new(l.len(), |i: int| l[i].value)
}

/// An entry stands where its order belongs, with the quantity that it shows.
spec fn entry_ok(item: Item<RestingOrder>, side: Side) -> bool {
    &&& item.value.side == side
    &&& item.rank == model::rank_of(side, item.value.price)
    &&& item.qty == item.value.size_remaining.0
    &&& model::order_ok(item.value)
}

/// All entries of a ladder are in order, and the sums that the machine forms
/// over them fit.
spec fn side_ok(l: Seq<Item<RestingOrder>>, side: Side) -> bool {
    &&& forall|i: int| 0 <= i < l.len() ==> entry_ok(#[trigger] l[i], side)
    &&& forall|rank: int| #[trigger] model::showable_at(orders(l), rank) <= i64::MAX
}

/// The index knows the entries of one side.
spec fn tracks(index: Map<u64, Slot>, side: Side, l: Seq<Item<RestingOrder>>) -> bool {
    &&& forall|id: u64| #[trigger]
        index.contains_key(id) && index[id].side == side ==> exists|i: int|
            0 <= i < l.len() && (#[trigger] l[i]).handle == index[id].handle
                && l[i].value.order_id.0 == id
    &&& forall|i: int|
        0 <= i < l.len() ==> index.contains_key((#[trigger] l[i]).value.order_id.0)
            && index[l[i].value.order_id.0] == (Slot { side, handle: l[i].handle })
}

/// Two indexes say the same of the other side.
spec fn same_elsewhere(a: Map<u64, Slot>, b: Map<u64, Slot>, side: Side) -> bool {
    &&& forall|id: u64| #[trigger]
        a.contains_key(id) && a[id].side != side ==> b.contains_key(id) && b[id] == a[id]
    &&& forall|id: u64| #[trigger]
        b.contains_key(id) && b[id].side != side ==> a.contains_key(id) && a[id] == b[id]
}

proof fn lemma_slot_agrees(l: Seq<Item<RestingOrder>>, side: Side, rank: int)
    requires
        forall|i: int| 0 <= i < l.len() ==> entry_ok(#[trigger] l[i], side),
    ensures
        ladder::slot_for(l, rank) == model::slot_of(orders(l), rank),
        0 <= ladder::slot_for(l, rank) <= l.len(),
    decreases l.len(),
{
    if l.len() > 0 {
        assert(orders(l).drop_last() =~= orders(l.drop_last()));
        assert(entry_ok(l[l.len() - 1], side));
        assert forall|i: int| 0 <= i < l.drop_last().len() implies entry_ok(
            #[trigger] l.drop_last()[i],
            side,
        ) by {
            assert(l.drop_last()[i] == l[i]);
        }
        lemma_slot_agrees(l.drop_last(), side, rank);
    }
}

pub proof fn lemma_showable_insert(q: Seq<RestingOrder>, k: int, o: RestingOrder, rank: int)
    requires
        0 <= k <= q.len(),
    ensures
        model::showable_at(q.insert(k, o), rank) == model::showable_at(q, rank) + (if model::rank_of(
            o.side,
            o.price,
        ) == rank {
            model::showable(o)
        } else {
            0
        }),
    decreases q.len(),
{
    let t = q.insert(k, o);
    if k == q.len() {
        assert(t.drop_last() =~= q);
    } else {
        assert(t.drop_last() =~= q.drop_last().insert(k, o));
        assert(t.last() == q.last());
        lemma_showable_insert(q.drop_last(), k, o, rank);
    }
}

pub proof fn lemma_showable_remove(q: Seq<RestingOrder>, k: int, rank: int)
    requires
        0 <= k < q.len(),
    ensures
        model::showable_at(q.remove(k), rank) == model::showable_at(q, rank) - (if model::rank_of(
            q[k].side,
            q[k].price,
        ) == rank {
            model::showable(q[k])
        } else {
            0
        }),
{
    lemma_showable_insert(q.remove(k), k, q[k], rank);
    assert(q.remove(k).insert(k, q[k]) =~= q);
}

/// What a rank shows is no more than what it shows at most.
proof fn lemma_volume_showable(l: Seq<Item<RestingOrder>>, side: Side, rank: int)
    requires
        forall|i: int| 0 <= i < l.len() ==> entry_ok(#[trigger] l[i], side),
    ensures
        ladder::rank_volume(l, rank) <= model::showable_at(orders(l), rank),
        0 <= ladder::rank_volume(l, rank),
    decreases l.len(),
{
    if l.len() > 0 {
        assert(orders(l).drop_last() =~= orders(l.drop_last()));
        assert(entry_ok(l[l.len() - 1], side));
        assert forall|i: int| 0 <= i < l.drop_last().len() implies entry_ok(
            #[trigger] l.drop_last()[i],
            side,
        ) by {
            assert(l.drop_last()[i] == l[i]);
        }
        lemma_volume_showable(l.drop_last(), side, rank);
    }
}

/// Rank of a price on a side.
fn rank(side: Side, price: Price) -> (r: i64)
    ensures
        r == model::rank_of(side, price),
{
    match side {
        Side::Ask => price.0,
        Side::Bid => -1 - price.0,
    }
}

/// The most that an order shows at a time.
fn showable(o: &RestingOrder) -> (r: i64)
    ensures
        r == model::showable(*o),
{
    let next: i64 = if o.visible_slice.0 <= o.hidden_remaining.0 {
        o.visible_slice.0
    } else {
        o.hidden_remaining.0
    };
    if o.hidden_remaining.0 > 0 && next > o.size_remaining.0 {
        next
    } else {
        o.size_remaining.0
    }
}

/// Takes an order out of its ladder and out of the index.
fn take(
    side: Side,
    ladder: &mut PriceLadder<RestingOrder>,
    index: &mut KeyedMap<Slot>,
    handle: usize,
) -> (r: RestingOrder)
    requires
        old(ladder).wf(),
        old(index).wf(),
        side_ok(old(ladder)@, side),
        tracks(old(index)@, side, old(ladder)@),
        old(ladder).has(handle),
    ensures
        final(ladder).wf(),
        final(index).wf(),
        side_ok(final(ladder)@, side),
        tracks(final(index)@, side, final(ladder)@),
        same_elsewhere(old(index)@, final(index)@, side),
        final(index)@ == old(index)@.remove(r.order_id.0),
        r == old(ladder)@[old(ladder).place(handle)].value,
        orders(final(ladder)@) == orders(old(ladder)@).remove(old(ladder).place(handle)),
        final(ladder)@.len() == old(ladder)@.len() - 1,
{
    let ghost l = ladder@;
    let ghost k = ladder.place(handle);
    proof {
        ladder.lemma_view();
    }
    let item = ladder.remove(handle);
    let removed = index.remove(item.value.order_id.0);
    proof {
        let l2 = ladder@;
        assert(orders(l2) =~= orders(l).remove(k));
        assert forall|i: int| 0 <= i < l2.len() implies entry_ok(#[trigger] l2[i], side) by {
            assert(entry_ok(l[if i < k { i } else { i + 1 }], side));
        }
        assert forall|rank: int| #[trigger] model::showable_at(orders(l2), rank) <= i64::MAX by {
            assert(entry_ok(l[k], side));
            lemma_showable_remove(orders(l), k, rank);
            assert(model::showable_at(orders(l), rank) <= i64::MAX);
        }
        lemma_tracks_remove(old(index)@, side, l, k);
    }
    item.value
}

proof fn lemma_tracks_remove(index: Map<u64, Slot>, side: Side, l: Seq<Item<RestingOrder>>, k: int)
    requires
        tracks(index, side, l),
        0 <= k < l.len(),
        forall|i: int, j: int|
            0 <= i < l.len() && 0 <= j < l.len() && i != j ==> (#[trigger] l[i]).handle != (
            #[trigger] l[j]).handle,
    ensures
        tracks(index.remove(l[k].value.order_id.0), side, l.remove(k)),
        same_elsewhere(index, index.remove(l[k].value.order_id.0), side),
{
    let id0 = l[k].value.order_id.0;
    let index2 = index.remove(id0);
    let l2 = l.remove(k);
    assert forall|id: u64| #[trigger]
        index2.contains_key(id) && index2[id].side == side implies exists|i: int|
        0 <= i < l2.len() && (#[trigger] l2[i]).handle == index2[id].handle
            && l2[i].value.order_id.0 == id by {
        assert(index.contains_key(id));
        let i = choose|i: int|
            0 <= i < l.len() && (#[trigger] l[i]).handle == index[id].handle
                && l[i].value.order_id.0 == id;
        if i < k {
            assert(l2[i] == l[i]);
        } else {
            assert(l2[i - 1] == l[i]);
        }
    }
    assert forall|i: int| 0 <= i < l2.len() implies index2.contains_key(
        (#[trigger] l2[i]).value.order_id.0,
    ) && index2[l2[i].value.order_id.0] == (Slot { side, handle: l2[i].handle }) by {
        let m = if i < k {
            i
        } else {
            i + 1
        };
        assert(l2[i] == l[m]);
        assert(index[l[m].value.order_id.0].handle == l[m].handle);
        assert(index[l[k].value.order_id.0].handle == l[k].handle);
    }
}

proof fn lemma_tracks_insert(
    index: Map<u64, Slot>,
    side: Side,
    l: Seq<Item<RestingOrder>>,
    k: int,
    item: Item<RestingOrder>,
)
    requires
        tracks(index, side, l),
        0 <= k <= l.len(),
        !index.contains_key(item.value.order_id.0),
    ensures
        tracks(
            index.insert(item.value.order_id.0, Slot { side, handle: item.handle }),
            side,
            l.insert(k, item),
        ),
        same_elsewhere(
            index,
            index.insert(item.value.order_id.0, Slot { side, handle: item.handle }),
            side,
        ),
{
    let id0 = item.value.order_id.0;
    let index2 = index.insert(id0, Slot { side, handle: item.handle });
    let l2 = l.insert(k, item);
    assert forall|id: u64| #[trigger]
        index2.contains_key(id) && index2[id].side == side implies exists|i: int|
        0 <= i < l2.len() && (#[trigger] l2[i]).handle == index2[id].handle
            && l2[i].value.order_id.0 == id by {
        if id == id0 {
            assert(l2[k] == item);
        } else {
            assert(index.contains_key(id));
            let i = choose|i: int|
                0 <= i < l.len() && (#[trigger] l[i]).handle == index[id].handle
                    && l[i].value.order_id.0 == id;
            if i < k {
                assert(l2[i] == l[i]);
            } else {
                assert(l2[i + 1] == l[i]);
            }
        }
    }
    assert forall|i: int| 0 <= i < l2.len() implies index2.contains_key(
        (#[trigger] l2[i]).value.order_id.0,
    ) && index2[l2[i].value.order_id.0] == (Slot { side, handle: l2[i].handle }) by {
        if i < k {
            assert(l2[i] == l[i]);
        } else if i > k {
            assert(l2[i] == l[i - 1]);
        }
    }
}

/// Puts an order to rest behind all orders of its price.
fn rest(
    side: Side,
    ladder: &mut PriceLadder<RestingOrder>,
    index: &mut KeyedMap<Slot>,
    order: RestingOrder,
)
    requires
        old(ladder).wf(),
        old(index).wf(),
        side_ok(old(ladder)@, side),
        tracks(old(index)@, side, old(ladder)@),
        order.side == side,
        model::order_ok(order),
        !old(index)@.contains_key(order.order_id.0),
        model::showable_at(orders(old(ladder)@), model::rank_of(side, order.price))
            + model::showable(order) <= i64::MAX,
    ensures
        final(ladder).wf(),
        final(index).wf(),
        side_ok(final(ladder)@, side),
        tracks(final(index)@, side, final(ladder)@),
        same_elsewhere(old(index)@, final(index)@, side),
        final(index)@.dom() == old(index)@.dom().insert(order.order_id.0),
        orders(final(ladder)@) == model::enqueue(orders(old(ladder)@), order),
{
    let r: i64 = rank(side, order.price);
    let ghost l = ladder@;
    proof {
        lemma_volume_showable(l, side, r as int);
        lemma_slot_agrees(l, side, r as int);
    }
    let handle: usize = ladder.push(r, order.size_remaining.0, order);
    index.insert(order.order_id.0, Slot { side, handle });
    proof {
        let k = ladder::slot_for(l, r as int);
        let item = Item { handle, rank: r, qty: order.size_remaining.0, value: order };
        let l2 = ladder@;
        assert(l2 == l.insert(k, item));
        assert(orders(l2) =~= orders(l).insert(k, order));
        assert forall|i: int| 0 <= i < l2.len() implies entry_ok(#[trigger] l2[i], side) by {
            if i < k {
                assert(entry_ok(l[i], side));
            } else if i > k {
                assert(entry_ok(l[i - 1], side));
            }
        }
        assert forall|rank: int| #[trigger] model::showable_at(orders(l2), rank) <= i64::MAX by {
            lemma_showable_insert(orders(l), k, order, rank);
            assert(model::showable_at(orders(l), rank) <= i64::MAX);
        }
        lemma_tracks_insert(old(index)@, side, l, k, item);
        assert(index@.dom() =~= old(index)@.dom().insert(order.order_id.0));
    }
}

/// Changes what the order at the front shows.
fn shrink_front(
    side: Side,
    ladder: &mut PriceLadder<RestingOrder>,
    index: &KeyedMap<Slot>,
    handle: usize,
    order: RestingOrder,
)
    requires
        old(ladder).wf(),
        side_ok(old(ladder)@, side),
        tracks(index@, side, old(ladder)@),
        old(ladder)@.len() > 0,
        old(ladder)@[0].handle == handle,
        order == model::showing(old(ladder)@[0].value, order.size_remaining.0 as int),
        0 < order.size_remaining.0 <= old(ladder)@[0].value.size_remaining.0,
    ensures
        final(ladder).wf(),
        side_ok(final(ladder)@, side),
        tracks(index@, side, final(ladder)@),
        orders(final(ladder)@) == orders(old(ladder)@).update(0, order),
{
    let ghost l = ladder@;
    proof {
        ladder.lemma_place(0);
        assert(entry_ok(l[0], side));
        lemma_volume_showable(l, side, l[0].rank as int);
        assert(model::showable_at(orders(l), l[0].rank as int) <= i64::MAX);
    }
    ladder.update(handle, order.size_remaining.0, order);
    proof {
        let l2 = ladder@;
        assert(orders(l2) =~= orders(l).update(0, order));
        assert forall|i: int| 0 <= i < l2.len() implies entry_ok(#[trigger] l2[i], side) by {
            assert(entry_ok(l[i], side));
        }
        assert forall|rank: int| #[trigger] model::showable_at(orders(l2), rank) <= i64::MAX by {
            lemma_showable_remove(orders(l), 0, rank);
            lemma_showable_insert(orders(l).remove(0), 0, order, rank);
            assert(orders(l).remove(0).insert(0, order) =~= orders(l2));
            assert(model::showable_at(orders(l), rank) <= i64::MAX);
        }
        assert forall|id: u64| #[trigger]
            index@.contains_key(id) && index@[id].side == side implies exists|i: int|
            0 <= i < l2.len() && (#[trigger] l2[i]).handle == index@[id].handle
                && l2[i].value.order_id.0 == id by {
            let i = choose|i: int|
                0 <= i < l.len() && (#[trigger] l[i]).handle == index@[id].handle
                    && l[i].value.order_id.0 == id;
            assert(l2[i].handle == l[i].handle);
        }
        assert forall|i: int| 0 <= i < l2.len() implies index@.contains_key(
            (#[trigger] l2[i]).value.order_id.0,
        ) && index@[l2[i].value.order_id.0] == (Slot { side, handle: l2[i].handle }) by {
            assert(index@.contains_key(l[i].value.order_id.0));
        }
    }
}

/// `m` after one more trade.
proof fn lemma_after_trade(
    trades: Seq<Trade>,
    cancels: Seq<StpCancellation>,
    trade: Trade,
    m: model::MatchModel,
)
    ensures
        model::after(trades, cancels, model::after(seq![trade], Seq::empty(), m)) == model::after(
            trades.push(trade),
            cancels,
            m,
        ),
{
    assert(trades + (seq![trade] + m.trades) =~= trades.push(trade) + m.trades);
    assert(cancels + (Seq::<StpCancellation>::empty() + m.cancels) =~= cancels + m.cancels);
}

/// `m` after one more cancellation.
proof fn lemma_after_cancel(
    trades: Seq<Trade>,
    cancels: Seq<StpCancellation>,
    cancel: StpCancellation,
    m: model::MatchModel,
)
    ensures
        model::after(trades, cancels, model::after(Seq::empty(), seq![cancel], m)) == model::after(
            trades,
            cancels.push(cancel),
            m,
        ),
{
    assert(trades + (Seq::<Trade>::empty() + m.trades) =~= trades + m.trades);
    assert(cancels + (seq![cancel] + m.cancels) =~= cancels.push(cancel) + m.cancels);
}

/// Nothing follows.
proof fn lemma_after_settled(
    trades: Seq<Trade>,
    cancels: Seq<StpCancellation>,
    q: Seq<RestingOrder>,
    remaining: int,
)
    ensures
        model::after(trades, cancels, model::settled(q, remaining)) == (model::MatchModel {
            queue: q,
            remaining,
            trades,
            cancels,
        }),
{
    assert(trades + Seq::<Trade>::empty() =~= trades);
    assert(cancels + Seq::<StpCancellation>::empty() =~= cancels);
}

/// Matches an order against the resting orders of the other side, whose ladder
/// this is. Returns what the order still wants. Trades and cancellations are
/// added to the two lists.
#[verifier::rlimit(40)]
fn match_side(
    side: Side,
    ladder: &mut PriceLadder<RestingOrder>,
    index: &mut KeyedMap<Slot>,
    taker: &Taker,
    size: Size,
    out_trades: &mut TradeList,
    out_cancels: &mut StpList,
) -> (r: Size)
    requires
        old(ladder).wf(),
        old(index).wf(),
        side_ok(old(ladder)@, side),
        tracks(old(index)@, side, old(ladder)@),
        side == taker.side.other(),
        size.0 >= 0,
    ensures
        final(ladder).wf(),
        final(index).wf(),
        side_ok(final(ladder)@, side),
        tracks(final(index)@, side, final(ladder)@),
        same_elsewhere(old(index)@, final(index)@, side),
        final(index)@.dom().subset_of(old(index)@.dom()),
        ({
            let m = model::matched(*taker, orders(old(ladder)@), size.0 as int);
            &&& orders(final(ladder)@) == m.queue
            &&& r.0 == m.remaining
            &&& final(out_trades)@ == old(out_trades)@ + m.trades
            &&& final(out_cancels)@ == old(out_cancels)@ + m.cancels
        }),
{
    let ghost m0 = model::matched(*taker, orders(old(ladder)@), size.0 as int);
    let ghost mut ts: Seq<Trade> = Seq::empty();
    let ghost mut cs: Seq<StpCancellation> = Seq::empty();
    let mut remaining: i64 = size.0;
    proof {
        assert(ts + m0.trades =~= m0.trades);
        assert(cs + m0.cancels =~= m0.cancels);
        assert(old(out_trades)@ + ts =~= old(out_trades)@);
        assert(old(out_cancels)@ + cs =~= old(out_cancels)@);
    }
    while remaining > 0
        invariant_except_break
            m0 == model::after(
                ts,
                cs,
                model::matched(*taker, orders(ladder@), remaining as int),
            ),
        invariant
            ladder.wf(),
            index.wf(),
            side_ok(ladder@, side),
            tracks(index@, side, ladder@),
            same_elsewhere(old(index)@, index@, side),
            index@.dom().subset_of(old(index)@.dom()),
            side == taker.side.other(),
            remaining >= 0,
            out_trades@ == old(out_trades)@ + ts,
            out_cancels@ == old(out_cancels)@ + cs,
        ensures
            m0 == (model::MatchModel {
                queue: orders(ladder@),
                remaining: remaining as int,
                trades: ts,
                cancels: cs,
            }),
        decreases remaining, ladder@.len(),
    {
        let ghost q = orders(ladder@);
        let front: usize = match ladder.front() {
            Some(h) => h,
            None => {
                proof {
                    lemma_after_settled(ts, cs, q, remaining as int);
                }
                break;
            },
        };
        proof {
            ladder.lemma_place(0);
            assert(entry_ok(ladder@[0], side));
            assert(q[0] == ladder@[0].value);
        }
        let maker: RestingOrder = ladder.get(front).value;
        let crosses: bool = match taker.side {
            Side::Bid => maker.price.0 <= taker.limit.0,
            Side::Ask => maker.price.0 >= taker.limit.0,
        };
        if !crosses {
            proof {
                lemma_after_settled(ts, cs, q, remaining as int);
            }
            break;
        }
        let shown: i64 = maker.size_remaining.0;
        if maker.user_id == taker.user_id && taker.stp != SelfTradePrevention::Allow {
            match taker.stp {
                SelfTradePrevention::DecrementAndCancel => {
                    if shown > remaining {
                        let report = StpCancellation {
                            order_id: maker.order_id,
                            user_id: maker.user_id,
                            side: maker.side,
                            price: maker.price,
                            size_cancelled: Size(remaining),
                            full_cancel: false,
                        };
                        let mut smaller = maker;
                        smaller.size_remaining = Size(shown - remaining);
                        shrink_front(side, ladder, index, front, smaller);
                        out_cancels.push(report);
                        proof {
                            lemma_after_cancel(
                                ts,
                                cs,
                                report,
                                model::settled(orders(ladder@), 0),
                            );
                            assert((old(out_cancels)@ + cs).push(report) =~= old(out_cancels)@
                                + cs.push(report));
                            cs = cs.push(report);
                            lemma_after_settled(ts, cs, orders(ladder@), 0);
                        }
                        remaining = 0;
                        break;
                    }
                },
                SelfTradePrevention::CancelMaker => {},
                SelfTradePrevention::CancelBoth => {},
                _ => {
                    proof {
                        lemma_after_settled(ts, cs, q, remaining as int);
                    }
                    break;
                },
            }
            let report = StpCancellation {
                order_id: maker.order_id,
                user_id: maker.user_id,
                side: maker.side,
                price: maker.price,
                size_cancelled: Size(shown),
                full_cancel: true,
            };
            let gone = take(side, ladder, index, front);
            out_cancels.push(report);
            let ghost before = cs;
            proof {
                assert(orders(ladder@) =~= q.drop_first());
                assert((old(out_cancels)@ + cs).push(report) =~= old(out_cancels)@ + cs.push(
                    report,
                ));
                cs = cs.push(report);
            }
            match taker.stp {
                SelfTradePrevention::CancelBoth => {
                    proof {
                        lemma_after_cancel(
                            ts,
                            before,
                            report,
                            model::settled(orders(ladder@), remaining as int),
                        );
                        lemma_after_settled(ts, cs, orders(ladder@), remaining as int);
                    }
                    break;
                },
                SelfTradePrevention::DecrementAndCancel => {
                    proof {
                        lemma_after_cancel(
                            ts,
                            before,
                            report,
                            model::matched(*taker, orders(ladder@), remaining - shown),
                        );
                    }
                    remaining = remaining - shown;
                },
                _ => {
                    proof {
                        lemma_after_cancel(
                            ts,
                            before,
                            report,
                            model::matched(*taker, orders(ladder@), remaining as int),
                        );
                    }
                },
            }
            continue;
        }
        let fill: i64 = if remaining < shown {
            remaining
        } else {
            shown
        };
        let trade = Trade {
            symbol_id: taker.symbol_id,
            price: maker.price,
            size: Size(fill),
            taker_order_id: taker.order_id,
            taker_user_id: taker.user_id,
            maker_order_id: maker.order_id,
            maker_user_id: maker.user_id,
            taker_side: taker.side,
            timestamp: taker.timestamp,
        };
        out_trades.push(trade);
        let ghost before = ts;
        proof {
            assert((old(out_trades)@ + ts).push(trade) =~= old(out_trades)@ + ts.push(trade));
            ts = ts.push(trade);
        }
        if fill < shown {
            let mut smaller = maker;
            smaller.size_remaining = Size(shown - fill);
            shrink_front(side, ladder, index, front, smaller);
            proof {
                lemma_after_trade(before, cs, trade, model::settled(orders(ladder@), 0));
                lemma_after_settled(ts, cs, orders(ladder@), 0);
            }
            remaining = 0;
            break;
        }
        let gone = take(side, ladder, index, front);
        proof {
            assert(orders(ladder@) =~= q.drop_first());
            lemma_showable_remove(q, 0, model::rank_of(side, maker.price));
            assert(model::showable_at(q, model::rank_of(side, maker.price)) <= i64::MAX);
        }
        if maker.hidden_remaining.0 > 0 {
            let slice: i64 = if maker.visible_slice.0 <= maker.hidden_remaining.0 {
                maker.visible_slice.0
            } else {
                maker.hidden_remaining.0
            };
            let mut next = maker;
            next.size_remaining = Size(slice);
            next.hidden_remaining = Size(maker.hidden_remaining.0 - slice);
            rest(side, ladder, index, next);
        }
        proof {
            lemma_after_trade(
                before,
                cs,
                trade,
                model::matched(*taker, orders(ladder@), remaining - fill),
            );
        }
        remaining = remaining - fill;
    }
    Size(remaining)
}

/// Trades in front of others add to their total.
pub proof fn lemma_traded_join(a: Seq<Trade>, b: Seq<Trade>)
    ensures
        model::traded(a + b) == model::traded(a) + model::traded(b),
    decreases b.len(),
{
    if b.len() == 0 {
        assert(a + b =~= a);
    } else {
        assert((a + b).drop_last() =~= a + b.drop_last());
        lemma_traded_join(a, b.drop_last());
    }
}

/// Matching never trades more than is wanted, and each trade has a size.
pub proof fn lemma_matched_bounds(t: Taker, q: Seq<RestingOrder>, remaining: int)
    requires
        0 <= remaining <= i64::MAX,
    ensures
        ({
            let m = model::matched(t, q, remaining);
            &&& 0 <= m.remaining
            &&& 0 <= model::traded(m.trades)
            &&& model::traded(m.trades) + m.remaining <= remaining
            &&& forall|i: int| 0 <= i < m.trades.len() ==> 0 < (#[trigger] m.trades[i]).size.0
            &&& remaining > 0 ==> (m.trades.len() > 0 ==> model::traded(m.trades) > 0)
        }),
    decreases remaining, q.len(),
{
    let m = model::matched(t, q, remaining);
    if remaining <= 0 || q.len() == 0 || !model::crosses(t.side, t.limit, q[0].price)
        || q[0].size_remaining.0 <= 0 {
    } else {
        let maker = q[0];
        let rest = q.drop_first();
        let size = maker.size_remaining.0 as int;
        if maker.user_id == t.user_id && t.stp != SelfTradePrevention::Allow {
            if t.stp is CancelMaker {
                lemma_matched_bounds(t, rest, remaining);
                let n = model::matched(t, rest, remaining);
                assert(m.trades =~= n.trades);
            } else if t.stp is DecrementAndCancel && size <= remaining {
                lemma_matched_bounds(t, rest, remaining - size);
                let n = model::matched(t, rest, remaining - size);
                assert(m.trades =~= n.trades);
                if remaining - size == 0 {
                    assert(n.trades.len() == 0);
                }
            } else {
                assert(m.trades =~= Seq::<Trade>::empty());
            }
        } else if remaining < size {
            let trade = model::trade_between(t, maker, remaining);
            assert(m.trades =~= seq![trade]);
            assert(m.trades.drop_last() =~= Seq::<Trade>::empty());
            assert(model::traded(m.trades.drop_last()) == 0);
        } else {
            let next = if maker.hidden_remaining.0 > 0 {
                model::enqueue(rest, model::refreshed(maker))
            } else {
                rest
            };
            let trade = model::trade_between(t, maker, size);
            let n = model::matched(t, next, remaining - size);
            lemma_matched_bounds(t, next, remaining - size);
            assert(m.trades =~= seq![trade] + n.trades);
            lemma_traded_join(seq![trade], n.trades);
            assert(seq![trade].drop_last() =~= Seq::<Trade>::empty());
            assert(model::traded(seq![trade].drop_last()) == 0);
            assert(model::traded(seq![trade]) == size);
            assert forall|i: int| 0 <= i < m.trades.len() implies 0 < (
            #[trigger] m.trades[i]).size.0 by {
                if i > 0 {
                    assert(m.trades[i] == n.trades[i - 1]);
                }
            }
        }
    }
}

proof fn lemma_traded_mono(trades: Seq<Trade>, k: int)
    requires
        0 <= k <= trades.len(),
        forall|i: int| 0 <= i < trades.len() ==> 0 < (#[trigger] trades[i]).size.0,
    ensures
        0 <= model::traded(trades.subrange(0, k)) <= model::traded(trades),
    decreases trades.len(),
{
    if k == trades.len() {
        assert(trades.subrange(0, k) =~= trades);
        if k > 0 {
            lemma_traded_mono(trades.drop_last(), k - 1);
        }
    } else {
        assert(trades.drop_last().subrange(0, k) =~= trades.subrange(0, k));
        lemma_traded_mono(trades.drop_last(), k);
    }
}

/// What the rest of a queue shows is never negative.
proof fn lemma_shown_prefix(
    q: Seq<RestingOrder>,
    side: Side,
    limit: Price,
    skip: Option<UserId>,
    k: int,
)
    requires
        0 <= k <= q.len(),
        forall|i: int| 0 <= i < q.len() ==> 0 < (#[trigger] q[i]).size_remaining.0,
    ensures
        model::shown(q.subrange(0, k), side, limit, skip) <= model::shown(q, side, limit, skip),
        (forall|i: int| k <= i < q.len() ==> !model::crosses(side, limit, (#[trigger] q[i]).price))
            ==> model::shown(q.subrange(0, k), side, limit, skip) == model::shown(
            q,
            side,
            limit,
            skip,
        ),
    decreases q.len(),
{
    if k == q.len() {
        assert(q.subrange(0, k) =~= q);
    } else {
        assert(q.drop_last().subrange(0, k) =~= q.subrange(0, k));
        lemma_shown_prefix(q.drop_last(), side, limit, skip, k);
        assert(q.last() == q[q.len() - 1]);
    }
}

/// What a ladder shows up to a limit.
proof fn lemma_shown_volume(l: Seq<Item<RestingOrder>>, side: Side, limit: Price)
    requires
        forall|i: int| 0 <= i < l.len() ==> entry_ok(#[trigger] l[i], side),
    ensures
        model::shown(orders(l), side.other(), limit, None) == ladder::volume_up_to(
            l,
            model::rank_of(side, limit),
        ),
    decreases l.len(),
{
    if l.len() > 0 {
        assert(orders(l).drop_last() =~= orders(l.drop_last()));
        assert(entry_ok(l[l.len() - 1], side));
        assert forall|i: int| 0 <= i < l.drop_last().len() implies entry_ok(
            #[trigger] l.drop_last()[i],
            side,
        ) by {
            assert(l.drop_last()[i] == l[i]);
        }
        lemma_shown_volume(l.drop_last(), side, limit);
    }
}

/// Whether the other users' orders up to a limit show enough.
fn shows_enough_of_others(
    side: Side,
    ladder: &PriceLadder<RestingOrder>,
    limit: Price,
    size: Size,
    user_id: UserId,
) -> (r: bool)
    requires
        ladder.wf(),
        side_ok(ladder@, side),
        size.0 > 0,
    ensures
        r == (model::shown(orders(ladder@), side.other(), limit, Some(user_id)) >= size.0),
{
    let ghost q = orders(ladder@);
    let mut needed: i64 = size.0;
    let mut cursor: Option<usize> = ladder.front();
    let ghost mut k: int = 0;
    let worst: i64 = rank(side, limit);
    proof {
        ladder.lemma_view();
        assert(q.subrange(0, 0) =~= Seq::<RestingOrder>::empty());
        assert(q.subrange(0, q.len() as int) =~= q);
        assert forall|i: int| 0 <= i < q.len() implies 0 < (#[trigger] q[i]).size_remaining.0 by {
            assert(entry_ok(ladder@[i], side));
        }
    }
    while cursor.is_some()
        invariant
            ladder.wf(),
            side_ok(ladder@, side),
            q == orders(ladder@),
            0 <= k <= q.len(),
            cursor == (if k < q.len() {
                Some(ladder@[k].handle)
            } else {
                None
            }),
            worst == model::rank_of(side, limit),
            q.subrange(0, q.len() as int) == q,
            needed > 0,
            needed == size.0 - model::shown(
                q.subrange(0, k),
                side.other(),
                limit,
                Some(user_id),
            ),
            forall|i: int| 0 <= i < q.len() ==> 0 < (#[trigger] q[i]).size_remaining.0,
        ensures
            needed > 0,
            needed == size.0 - model::shown(q, side.other(), limit, Some(user_id)),
        decreases q.len() - k,
    {
        proof {
            ladder.lemma_place(k);
            assert(entry_ok(ladder@[k], side));
            assert(q.subrange(0, k + 1).drop_last() =~= q.subrange(0, k));
            lemma_shown_prefix(q, side.other(), limit, Some(user_id), k);
            lemma_shown_prefix(q, side.other(), limit, Some(user_id), k + 1);
        }
        let handle: usize = cursor.unwrap();
        let item = ladder.get(handle);
        if item.rank > worst {
            proof {
                ladder.lemma_view();
                assert forall|i: int| k <= i < q.len() implies !model::crosses(
                    side.other(),
                    limit,
                    (#[trigger] q[i]).price,
                ) by {
                    assert(entry_ok(ladder@[i], side));
                    assert(ladder@[k].rank <= ladder@[i].rank);
                }
            }
            break;
        }
        if item.value.user_id != user_id {
            if item.qty >= needed {
                return true;
            }
            needed = needed - item.qty;
        }
        cursor = ladder.behind(handle);
        proof {
            k = k + 1;
        }
    }
    false
}

/// The orders of a ladder as a list.
fn ladder_orders(ladder: &PriceLadder<RestingOrder>) -> (r: Vec<RestingOrder>)
    requires
        ladder.wf(),
    ensures
        r@ == orders(ladder@),
{
    let mut out: Vec<RestingOrder> = Vec::new();
    let mut cursor: Option<usize> = ladder.front();
    loop
        invariant
            ladder.wf(),
            out@.len() <= ladder@.len(),
            cursor == (if out@.len() < ladder@.len() {
                Some(ladder@[out@.len() as int].handle)
            } else {
                None
            }),
            out@ == orders(ladder@).take(out@.len() as int),
        decreases ladder@.len() - out@.len(),
    {
        let handle: usize = match cursor {
            Some(h) => h,
            None => {
                assert(out@ =~= orders(ladder@));
                return out;
            },
        };
        let ghost k = out@.len() as int;
        proof {
            ladder.lemma_place(k);
        }
        out.push(ladder.get(handle).value);
        assert(out@ =~= orders(ladder@).take(k + 1));
        cursor = ladder.behind(handle);
    }
}

/// Nothing is shown at a rank that no order has.
proof fn lemma_nothing_showable(q: Seq<RestingOrder>, rank: int)
    requires
        forall|i: int|
            0 <= i < q.len() ==> model::rank_of((#[trigger] q[i]).side, q[i].price) != rank,
    ensures
        model::showable_at(q, rank) == 0,
    decreases q.len(),
{
    if q.len() > 0 {
        let rest = q.drop_last();
        assert(model::rank_of(q[q.len() - 1].side, q[q.len() - 1].price) != rank);
        assert forall|i: int| 0 <= i < rest.len() implies model::rank_of(
            (#[trigger] rest[i]).side,
            rest[i].price,
        ) != rank by {
            assert(rest[i] == q[i]);
        }
        lemma_nothing_showable(rest, rank);
    }
}

/// The first orders show no more at a rank than all.
proof fn lemma_showable_grows(q: Seq<RestingOrder>, k: int, rank: int)
    requires
        0 <= k <= q.len(),
        forall|i: int| 0 <= i < q.len() ==> model::order_ok(#[trigger] q[i]),
    ensures
        model::showable_at(q.take(k), rank) <= model::showable_at(q, rank),
        model::showable_at(q.take(k), rank) >= 0,
    decreases q.len(),
{
    if q.len() > 0 {
        let rest = q.drop_last();
        assert(model::order_ok(q[q.len() - 1]));
        assert forall|i: int| 0 <= i < rest.len() implies model::order_ok(#[trigger] rest[i]) by {
            assert(rest[i] == q[i]);
        }
        if k == q.len() {
            assert(q.take(k) =~= q);
            lemma_showable_grows(rest, rest.len() as int, rank);
            assert(rest.take(rest.len() as int) =~= rest);
        } else {
            lemma_showable_grows(rest, k, rank);
            assert(rest.take(k) =~= q.take(k));
        }
    }
}

/// Whether saved orders can be a side of a book.
spec fn side_restorable(q: Seq<RestingOrder>, side: Side) -> bool {
    &&& forall|i: int| 0 <= i < q.len() ==> (#[trigger] q[i]).side == side && model::order_ok(q[i])
    &&& forall|i: int, j: int|
        0 <= i <= j < q.len() ==> model::rank_of(side, (#[trigger] q[i]).price) <= model::rank_of(
            side,
            (#[trigger] q[j]).price,
        )
    &&& forall|i: int, j: int|
        0 <= i < q.len() && 0 <= j < q.len() && i != j ==> (#[trigger] q[i]).order_id != (
        #[trigger] q[j]).order_id
    &&& forall|rank: int| #[trigger] model::showable_at(q, rank) <= i64::MAX
}

/// The orders of a ladder can be a side of a book.
proof fn lemma_side_restorable(
    index: Map<u64, Slot>,
    side: Side,
    ladder: PriceLadder<RestingOrder>,
)
    requires
        ladder.wf(),
        side_ok(ladder@, side),
        tracks(index, side, ladder@),
    ensures
        side_restorable(orders(ladder@), side),
{
    let l = ladder@;
    let q = orders(l);
    ladder.lemma_view();
    assert forall|i: int| 0 <= i < q.len() implies (#[trigger] q[i]).side == side
        && model::order_ok(q[i]) by {
        assert(entry_ok(l[i], side));
    }
    assert forall|i: int, j: int| 0 <= i <= j < q.len() implies model::rank_of(
        side,
        (#[trigger] q[i]).price,
    ) <= model::rank_of(side, (#[trigger] q[j]).price) by {
        assert(entry_ok(l[i], side) && entry_ok(l[j], side));
        assert(l[i].rank <= l[j].rank);
    }
    assert forall|i: int, j: int|
        0 <= i < q.len() && 0 <= j < q.len() && i != j implies (#[trigger] q[i]).order_id != (
    #[trigger] q[j]).order_id by {
        assert(index[l[i].value.order_id.0].handle == l[i].handle);
        assert(index[l[j].value.order_id.0].handle == l[j].handle);
        assert(l[i].handle != l[j].handle);
    }
}

/// The sides of a book that is in order can be restored.
proof fn lemma_sides_restorable(b: BookModel)
    requires
        saved::book_ok(b),
    ensures
        side_restorable(b.asks, Side::Ask),
        side_restorable(b.bids, Side::Bid),
{
    assert forall|side: Side| #[trigger] side_restorable(b.queue(side), side) by {
        let q = b.queue(side);
        assert forall|i: int| 0 <= i < q.len() implies (#[trigger] q[i]).side == side
            && model::order_ok(q[i]) by {
            assert(b.queue(side)[i].side == side);
        }
        assert forall|i: int, j: int| 0 <= i <= j < q.len() implies model::rank_of(
            side,
            (#[trigger] q[i]).price,
        ) <= model::rank_of(side, (#[trigger] q[j]).price) by {
            assert(model::rank_of(side, b.queue(side)[i].price) <= model::rank_of(
                side,
                b.queue(side)[j].price,
            ));
        }
        assert forall|i: int, j: int|
            0 <= i < q.len() && 0 <= j < q.len() && i != j implies (#[trigger] q[i]).order_id != (
        #[trigger] q[j]).order_id by {
            assert(b.rests_at(side, i, q[i].order_id));
            if q[i].order_id == q[j].order_id {
                assert(b.rests_at(side, j, q[i].order_id));
            }
        }
        assert forall|rank: int| #[trigger] model::showable_at(q, rank) <= i64::MAX by {
            assert(model::showable_at(b.queue(side), rank) <= i64::MAX);
        }
    }
    assert(side_restorable(b.queue(Side::Ask), Side::Ask));
    assert(side_restorable(b.queue(Side::Bid), Side::Bid));
}

/// Puts saved orders back into an empty ladder, and tells whether they can stand
/// there beside the orders that the index knows.
#[verifier::rlimit(30)]
fn restore_side(
    side: Side,
    saved: &Vec<RestingOrder>,
    ladder: &mut PriceLadder<RestingOrder>,
    index: &mut KeyedMap<Slot>,
) -> (r: bool)
    requires
        old(ladder).wf(),
        old(ladder)@.len() == 0,
        old(index).wf(),
        tracks(old(index)@, side, old(ladder)@),
    ensures
        r == (side_restorable(saved@, side) && forall|i: int|
            0 <= i < saved@.len() ==> !old(index)@.contains_key((#[trigger] saved@[i]).order_id.0)),
        r ==> {
            &&& final(ladder).wf()
            &&& final(index).wf()
            &&& side_ok(final(ladder)@, side)
            &&& tracks(final(index)@, side, final(ladder)@)
            &&& same_elsewhere(old(index)@, final(index)@, side)
            &&& orders(final(ladder)@) == saved@
        },
{
    let ghost q = saved@;
    let ghost index0 = index@;
    // What the orders so far show at most at the rank of the last one.
    let mut open: i64 = 0;
    let mut i: usize = 0;
    proof {
        assert(orders(ladder@) =~= q.take(0));
        assert forall|rank: int| #[trigger] model::showable_at(orders(ladder@), rank) <= i64::MAX by {
            lemma_nothing_showable(orders(ladder@), rank);
        }
    }
    while i < saved.len()
        invariant
            q == saved@,
            i <= q.len(),
            ladder.wf(),
            index.wf(),
            side_ok(ladder@, side),
            tracks(index@, side, ladder@),
            tracks(index0, side, Seq::empty()),
            same_elsewhere(index0, index@, side),
            orders(ladder@) == q.take(i as int),
            i > 0 ==> open == model::showable_at(
                q.take(i as int),
                model::rank_of(side, q[i - 1].price),
            ),
            forall|j: int| 0 <= j < i ==> !index0.contains_key((#[trigger] q[j]).order_id.0),
            index0 == old(index)@,
        decreases q.len() - i,
    {
        let order = saved[i];
        let ghost before = q.take(i as int);
        let ghost now = q.take(i + 1);
        let ghost fine = side_restorable(q, side);
        proof {
            assert(now.drop_last() =~= before);
            assert(now.last() == order);
            if fine {
                assert(q[i as int].side == side && model::order_ok(q[i as int]));
            }
        }
        let on_side: bool = match (order.side, side) {
            (Side::Ask, Side::Ask) => true,
            (Side::Bid, Side::Bid) => true,
            _ => false,
        };
        if !on_side || order.size_remaining.0 <= 0 || order.hidden_remaining.0 < 0 || (
        order.hidden_remaining.0 > 0 && order.visible_slice.0 <= 0) {
            return false;
        }
        let mut at_rank: i64 = 0;
        let here: i64 = rank(side, order.price);
        if i > 0 {
            let ahead: i64 = rank(side, saved[i - 1].price);
            if here < ahead {
                assert(model::rank_of(side, q[i - 1].price) > model::rank_of(
                    side,
                    q[i as int].price,
                ));
                return false;
            }
            if here == ahead {
                at_rank = open;
            }
        }
        proof {
            lemma_side_restorable(index@, side, *ladder);
            assert(before =~= orders(ladder@));
            if i > 0 {
                assert(before[i - 1] == q[i - 1]);
            }
            if i == 0 || model::rank_of(side, q[i - 1].price) < here {
                assert forall|j: int| 0 <= j < before.len() implies model::rank_of(
                    (#[trigger] before[j]).side,
                    before[j].price,
                ) != here by {
                    assert(model::rank_of(side, before[j].price) <= model::rank_of(
                        side,
                        before[i - 1].price,
                    ));
                }
                lemma_nothing_showable(before, here as int);
            }
            assert(at_rank == model::showable_at(before, here as int));
            if fine {
                assert forall|j: int| 0 <= j < q.len() implies model::order_ok(
                    #[trigger] q[j],
                ) by {
                    assert(q[j].side == side);
                }
                lemma_showable_grows(q, i + 1, here as int);
                assert(model::showable_at(q, here as int) <= i64::MAX);
            }
            assert forall|j: int| 0 <= j < before.len() implies model::order_ok(
                #[trigger] before[j],
            ) by {
                assert(before[j].side == side);
            }
            lemma_showable_grows(before, before.len() as int, here as int);
            assert(before.take(before.len() as int) =~= before);
        }
        if index.contains_key(order.order_id.0) {
            proof {
                let id = order.order_id.0;
                if index@[id].side == side {
                    let l = ladder@;
                    let j = choose|j: int|
                        0 <= j < l.len() && (#[trigger] l[j]).handle == index@[id].handle
                            && l[j].value.order_id.0 == id;
                    assert(orders(l)[j].order_id.0 == id);
                    assert(q[j].order_id == q[i as int].order_id);
                } else {
                    assert(index0.contains_key(id));
                    assert(index0.contains_key(q[i as int].order_id.0));
                }
            }
            return false;
        }
        if order.size_remaining.0.checked_add(order.hidden_remaining.0).is_none() {
            return false;
        }
        open = match at_rank.checked_add(showable(&order)) {
            Some(v) => v,
            None => {
                assert(model::showable_at(now, here as int) > i64::MAX);
                return false;
            },
        };
        proof {
            assert(!index0.contains_key(order.order_id.0)) by {
                if index0.contains_key(order.order_id.0) {
                    assert(index0[order.order_id.0].side != side);
                }
            }
            assert(model::slot_of(before, here as int) == i);
            assert(before.insert(i as int, order) =~= now);
        }
        let ghost index1 = index@;
        rest(side, ladder, index, order);
        proof {
            assert(same_elsewhere(index0, index@, side)) by {
                assert forall|id: u64| #[trigger]
                    index0.contains_key(id) && index0[id].side != side implies index@.contains_key(
                    id,
                ) && index@[id] == index0[id] by {
                    assert(index1.contains_key(id));
                }
                assert forall|id: u64| #[trigger]
                    index@.contains_key(id) && index@[id].side != side implies index0.contains_key(
                    id,
                ) && index0[id] == index@[id] by {
                    assert(index1.contains_key(id));
                }
            }
        }
        i = i + 1;
    }
    proof {
        assert(q.take(i as int) =~= q);
        lemma_side_restorable(index@, side, *ladder);
    }
    true
}

impl View for SpotOrderBook {
    type V = BookModel;

    closed spec fn view(&self) -> BookModel {
        BookModel {
            symbol_id: self.symbol_id,
            asks: orders(self.asks@),
            bids: orders(self.bids@),
        }
    }
}

impl SpotOrderBook {
    /// Ladders and index agree.
    pub closed spec fn wf(&self) -> bool {
        &&& self.asks.wf()
        &&& self.bids.wf()
        &&& self.by_order_id.wf()
        &&& side_ok(self.asks@, Side::Ask)
        &&& side_ok(self.bids@, Side::Bid)
        &&& tracks(self.by_order_id@, Side::Ask, self.asks@)
        &&& tracks(self.by_order_id@, Side::Bid, self.bids@)
    }

    /// The index knows exactly the resting orders.
    proof fn lemma_index(&self, order_id: OrderId)
        requires
            self.wf(),
        ensures
            self.by_order_id@.contains_key(order_id.0) == self@.has_order(order_id),
    {
        let id = order_id.0;
        if self.by_order_id@.contains_key(id) {
            let slot = self.by_order_id@[id];
            match slot.side {
                Side::Ask => {
                    let i = choose|i: int|
                        0 <= i < self.asks@.len() && (#[trigger] self.asks@[i]).handle
                            == slot.handle && self.asks@[i].value.order_id.0 == id;
                    assert(self@.rests_at(Side::Ask, i, order_id));
                },
                Side::Bid => {
                    let i = choose|i: int|
                        0 <= i < self.bids@.len() && (#[trigger] self.bids@[i]).handle
                            == slot.handle && self.bids@[i].value.order_id.0 == id;
                    assert(self@.rests_at(Side::Bid, i, order_id));
                },
            }
        }
        if self@.has_order(order_id) {
            let (side, i) = choose|side: Side, i: int| #[trigger]
                self@.rests_at(side, i, order_id);
            match side {
                Side::Ask => {
                    assert(self.asks@[i].value.order_id == order_id);
                },
                Side::Bid => {
                    assert(self.bids@[i].value.order_id == order_id);
                },
            }
        }
    }

    /// A well-formed book serves the better price first, shows only orders that
    /// make sense, and knows each order id at most once.
    pub proof fn law_priority_and_identity(&self)
        requires
            self.wf(),
        ensures
            self@.in_priority(),
            self@.orders_ok(),
            self@.ids_distinct(),
            self@.levels_fit(),
    {
        self.asks.lemma_view();
        self.bids.lemma_view();
        assert forall|side: Side, i: int| #![trigger self@.queue(side)[i]]
            0 <= i < self@.queue(side).len() implies self@.queue(side)[i].side == side
            && model::order_ok(self@.queue(side)[i]) by {
            match side {
                Side::Ask => {
                    assert(entry_ok(self.asks@[i], side));
                },
                Side::Bid => {
                    assert(entry_ok(self.bids@[i], side));
                },
            }
        }
        assert forall|side: Side, i: int, j: int| #![trigger self@.queue(side)[i], self@.queue(side)[j]]
            0 <= i <= j < self@.queue(side).len() implies model::rank_of(
            side,
            self@.queue(side)[i].price,
        ) <= model::rank_of(side, self@.queue(side)[j].price) by {
            match side {
                Side::Ask => {
                    assert(entry_ok(self.asks@[i], side) && entry_ok(self.asks@[j], side));
                    assert(self.asks@[i].rank <= self.asks@[j].rank);
                },
                Side::Bid => {
                    assert(entry_ok(self.bids@[i], side) && entry_ok(self.bids@[j], side));
                    assert(self.bids@[i].rank <= self.bids@[j].rank);
                },
            }
        }
        assert forall|s1: Side, i1: int, s2: Side, i2: int, id: OrderId|
            self@.rests_at(s1, i1, id) && self@.rests_at(s2, i2, id) implies s1 == s2 && i1
            == i2 by {
            assert(s1 is Ask ==> self.asks@[i1].value.order_id == id);
            assert(s1 is Bid ==> self.bids@[i1].value.order_id == id);
            assert(s2 is Ask ==> self.asks@[i2].value.order_id == id);
            assert(s2 is Bid ==> self.bids@[i2].value.order_id == id);
        }
        assert forall|side: Side, rank: int| #[trigger]
            model::showable_at(self@.queue(side), rank) <= i64::MAX by {
            match side {
                Side::Ask => {
                    assert(model::showable_at(orders(self.asks@), rank) <= i64::MAX);
                },
                Side::Bid => {
                    assert(model::showable_at(orders(self.bids@), rank) <= i64::MAX);
                },
            }
        }
    }

    /// An empty book.
    pub fn new(symbol_id: SymbolId) -> (r: SpotOrderBook)
        ensures
            r.wf(),
            r@ == (BookModel { symbol_id, asks: Seq::empty(), bids: Seq::empty() }),
    {
        let r = SpotOrderBook {
            symbol_id,
            asks: PriceLadder::new(),
            bids: PriceLadder::new(),
            by_order_id: KeyedMap::new(),
        };
        assert(orders(r.asks@) =~= Seq::<RestingOrder>::empty());
        assert(orders(r.bids@) =~= Seq::<RestingOrder>::empty());
        r
    }

    /// The book as lists of orders.
    pub fn snapshot(&self) -> (r: BookSnapshot)
        requires
            self.wf(),
        ensures
            saved::book_of(r) == self@,
            saved::book_ok(saved::book_of(r)),
    {
        proof {
            self.law_priority_and_identity();
        }
        BookSnapshot {
            symbol_id: self.symbol_id,
            asks: ladder_orders(&self.asks),
            bids: ladder_orders(&self.bids),
        }
    }

    /// The book that was saved, or `None` where the lists cannot be those of a book.
    pub fn from_snapshot(s: &BookSnapshot) -> (r: Option<SpotOrderBook>)
        ensures
            r.is_some() == saved::book_ok(saved::book_of(*s)),
            r matches Some(b) ==> b.wf() && b@ == saved::book_of(*s),
    {
        let ghost b = saved::book_of(*s);
        let mut asks: PriceLadder<RestingOrder> = PriceLadder::new();
        let mut bids: PriceLadder<RestingOrder> = PriceLadder::new();
        let mut index: KeyedMap<Slot> = KeyedMap::new();
        proof {
            if saved::book_ok(b) {
                lemma_sides_restorable(b);
            }
        }
        if !restore_side(Side::Ask, &s.asks, &mut asks, &mut index) {
            return None;
        }
        let ghost known = index@;
        proof {
            assert forall|id: u64| #[trigger] known.contains_key(id) implies known[id].side
                == Side::Ask && exists|i: int|
                0 <= i < s.asks@.len() && (#[trigger] s.asks@[i]).order_id.0 == id by {
                assert(!Map::<u64, Slot>::empty().contains_key(id));
                let i = choose|i: int|
                    0 <= i < asks@.len() && (#[trigger] asks@[i]).handle == known[id].handle
                        && asks@[i].value.order_id.0 == id;
                assert(orders(asks@)[i].order_id.0 == id);
            }
        }
        let ok: bool = restore_side(Side::Bid, &s.bids, &mut bids, &mut index);
        proof {
            if saved::book_ok(b) {
                assert forall|j: int| 0 <= j < s.bids@.len() implies !known.contains_key(
                    (#[trigger] s.bids@[j]).order_id.0,
                ) by {
                    let id = s.bids@[j].order_id;
                    if known.contains_key(id.0) {
                        let i = choose|i: int|
                            0 <= i < s.asks@.len() && (#[trigger] s.asks@[i]).order_id.0 == id.0;
                        assert(b.rests_at(Side::Ask, i, id));
                        assert(b.rests_at(Side::Bid, j, id));
                    }
                }
            }
        }
        if !ok {
            return None;
        }
        proof {
            assert(tracks(index@, Side::Ask, asks@)) by {
                assert forall|id: u64| #[trigger]
                    index@.contains_key(id) && index@[id].side == Side::Ask implies exists|i: int|
                    0 <= i < asks@.len() && (#[trigger] asks@[i]).handle == index@[id].handle
                        && asks@[i].value.order_id.0 == id by {
                    assert(known.contains_key(id));
                }
                assert forall|i: int| 0 <= i < asks@.len() implies index@.contains_key(
                    (#[trigger] asks@[i]).value.order_id.0,
                ) && index@[asks@[i].value.order_id.0] == (Slot {
                    side: Side::Ask,
                    handle: asks@[i].handle,
                }) by {
                    assert(known.contains_key(asks@[i].value.order_id.0));
                }
            }
        }
        let r = SpotOrderBook { symbol_id: s.symbol_id, asks, bids, by_order_id: index };
        proof {
            r.law_priority_and_identity();
            assert(r@.asks == b.asks && r@.bids == b.bids);
        }
        Some(r)
    }

    pub fn symbol_id(&self) -> (r: SymbolId)
        ensures
            r == self@.symbol_id,
    {
        self.symbol_id
    }

    /// The lowest price at which something is offered.
    pub fn best_ask(&self) -> (r: Option<Price>)
        requires
            self.wf(),
        ensures
            r == (if self@.asks.len() > 0 {
                Some(self@.asks[0].price)
            } else {
                None
            }),
    {
        match self.asks.front() {
            Some(h) => {
                proof {
                    self.asks.lemma_place(0);
                }
                Some(self.asks.get(h).value.price)
            },
            None => None,
        }
    }

    /// The highest price at which something is wanted.
    pub fn best_bid(&self) -> (r: Option<Price>)
        requires
            self.wf(),
        ensures
            r == (if self@.bids.len() > 0 {
                Some(self@.bids[0].price)
            } else {
                None
            }),
    {
        match self.bids.front() {
            Some(h) => {
                proof {
                    self.bids.lemma_place(0);
                }
                Some(self.bids.get(h).value.price)
            },
            None => None,
        }
    }

    /// How many orders rest in the book.
    pub fn total_resting_orders(&self) -> (r: usize)
        requires
            self.wf(),
            self@.asks.len() + self@.bids.len() <= usize::MAX,
        ensures
            r == self@.asks.len() + self@.bids.len(),
    {
        self.asks.len() + self.bids.len()
    }

    /// The resting order with an id.
    pub fn get_order(&self, order_id: OrderId) -> (r: Option<RestingOrder>)
        requires
            self.wf(),
        ensures
            r == (if self@.has_order(order_id) {
                Some(self@.order(order_id))
            } else {
                None
            }),
            r matches Some(o) ==> o.order_id == order_id && model::order_ok(o),
    {
        proof {
            self.lemma_index(order_id);
            self.law_priority_and_identity();
        }
        match self.by_order_id.get(order_id.0) {
            Some(slot) => {
                proof {
                    self.lemma_slot(order_id);
                }
                match slot.side {
                    Side::Ask => Some(self.asks.get(slot.handle).value),
                    Side::Bid => Some(self.bids.get(slot.handle).value),
                }
            },
            None => None,
        }
    }

    /// The index leads to the place where an order rests.
    proof fn lemma_slot(&self, order_id: OrderId)
        requires
            self.wf(),
            self.by_order_id@.contains_key(order_id.0),
        ensures
            self@.has_order(order_id),
            ({
                let slot = self.by_order_id@[order_id.0];
                let (side, i) = self@.find(order_id);
                &&& self@.rests_at(side, i, order_id)
                &&& slot.side == side
                &&& side is Ask ==> self.asks.has(slot.handle) && self.asks.place(slot.handle) == i
                &&& side is Bid ==> self.bids.has(slot.handle) && self.bids.place(slot.handle) == i
            }),
    {
        self.lemma_index(order_id);
        self.law_priority_and_identity();
        let slot = self.by_order_id@[order_id.0];
        let (s0, i0) = choose|side: Side, i: int| #[trigger] self@.rests_at(side, i, order_id);
        assert(self@.rests_at((s0, i0).0, (s0, i0).1, order_id));
        let (side, i) = self@.find(order_id);
        assert(self@.rests_at(side, i, order_id));
        match side {
            Side::Ask => {
                assert(self.asks@[i].value.order_id == order_id);
                self.asks.lemma_place(i);
            },
            Side::Bid => {
                assert(self.bids@[i].value.order_id == order_id);
                self.bids.lemma_place(i);
            },
        }
    }

    /// Takes an order out of the book.
    pub fn cancel(&mut self, order_id: OrderId) -> (r: Option<CancelOutcome>)
        requires
            old(self).wf(),
        ensures
            final(self).wf(),
            r == (if old(self)@.has_order(order_id) {
                Some(model::cancel_outcome_of(old(self)@.order(order_id)))
            } else {
                None
            }),
            final(self)@ == (if old(self)@.has_order(order_id) {
                old(self)@.without(order_id)
            } else {
                old(self)@
            }),
    {
        proof {
            self.lemma_index(order_id);
        }
        let slot: Slot = match self.by_order_id.get(order_id.0) {
            Some(s) => *s,
            None => {
                return None;
            },
        };
        proof {
            self.lemma_slot(order_id);
        }
        let order = match slot.side {
            Side::Ask => take(Side::Ask, &mut self.asks, &mut self.by_order_id, slot.handle),
            Side::Bid => take(Side::Bid, &mut self.bids, &mut self.by_order_id, slot.handle),
        };
        Some(
            CancelOutcome {
                order_id: order.order_id,
                user_id: order.user_id,
                side: order.side,
                price: order.price,
                remaining_size: order.size_remaining,
            },
        )
    }

    /// Whether an order would trade at once.
    fn would_cross(&self, side: Side, price: Price) -> (r: bool)
        requires
            self.wf(),
        ensures
            r == (self@.queue(side.other()).len() > 0 && model::crosses(
                side,
                price,
                self@.queue(side.other())[0].price,
            )),
    {
        match side {
            Side::Bid => match self.best_ask() {
                Some(p) => p.0 <= price.0,
                None => false,
            },
            Side::Ask => match self.best_bid() {
                Some(p) => p.0 >= price.0,
                None => false,
            },
        }
    }

    /// Whether the book shows enough to fill an order.
    fn is_fully_fillable(&self, side: Side, limit_price: Price, size: Size) -> (r: bool)
        requires
            self.wf(),
            size.0 > 0,
        ensures
            r == (model::shown(self@.queue(side.other()), side, limit_price, None) >= size.0),
    {
        match side {
            Side::Bid => {
                proof {
                    lemma_shown_volume(self.asks@, Side::Ask, limit_price);
                }
                self.asks.reaches(rank(Side::Ask, limit_price), size.0)
            },
            Side::Ask => {
                proof {
                    lemma_shown_volume(self.bids@, Side::Bid, limit_price);
                }
                self.bids.reaches(rank(Side::Bid, limit_price), size.0)
            },
        }
    }

    /// Whether the book shows enough to fill an order, without the orders that
    /// self-trade prevention would keep it from.
    fn is_fully_fillable_with_stp(
        &self,
        side: Side,
        limit_price: Price,
        size: Size,
        taker_uid: UserId,
        stp: SelfTradePrevention,
    ) -> (r: bool)
        requires
            self.wf(),
            size.0 > 0,
        ensures
            r == (model::shown(
                self@.queue(side.other()),
                side,
                limit_price,
                if stp == SelfTradePrevention::Allow {
                    None
                } else {
                    Some(taker_uid)
                },
            ) >= size.0),
    {
        if stp == SelfTradePrevention::Allow {
            return self.is_fully_fillable(side, limit_price, size);
        }
        match side {
            Side::Bid => shows_enough_of_others(
                Side::Ask,
                &self.asks,
                limit_price,
                size,
                taker_uid,
            ),
            Side::Ask => shows_enough_of_others(
                Side::Bid,
                &self.bids,
                limit_price,
                size,
                taker_uid,
            ),
        }
    }

    /// Matches an order against the other side.
    fn match_against_book(
        &mut self,
        taker: &Taker,
        size: Size,
        out_trades: &mut TradeList,
        out_cancels: &mut StpList,
    ) -> (r: Size)
        requires
            old(self).wf(),
            size.0 >= 0,
        ensures
            final(self).wf(),
            final(self).by_order_id@.dom().subset_of(old(self).by_order_id@.dom()),
            ({
                let q = old(self)@.queue(taker.side.other());
                let m = model::matched(*taker, q, size.0 as int);
                &&& final(self)@ == old(self)@.with_queue(taker.side.other(), m.queue)
                &&& r.0 == m.remaining
                &&& final(out_trades)@ == old(out_trades)@ + m.trades
                &&& final(out_cancels)@ == old(out_cancels)@ + m.cancels
            }),
    {
        match taker.side {
            Side::Bid => match_side(
                Side::Ask,
                &mut self.asks,
                &mut self.by_order_id,
                taker,
                size,
                out_trades,
                out_cancels,
            ),
            Side::Ask => match_side(
                Side::Bid,
                &mut self.bids,
                &mut self.by_order_id,
                taker,
                size,
                out_trades,
                out_cancels,
            ),
        }
    }

    /// Puts what is left of an order to rest.
    fn rest_order(&mut self, params: &PlaceParams, remaining: Size)
        requires
            old(self).wf(),
            remaining.0 > 0,
            !old(self).by_order_id@.contains_key(params.order_id.0),
            params.order_type == OrderType::Iceberg ==> params.visible_size.is_some()
                && params.visible_size.unwrap().0 > 0,
            model::showable_at(
                old(self)@.queue(params.side),
                model::rank_of(params.side, params.price),
            ) + model::resting_of(*params, remaining.0 as int).size_remaining.0 <= i64::MAX,
        ensures
            final(self).wf(),
            final(self)@ == old(self)@.with_queue(
                params.side,
                model::enqueue(
                    old(self)@.queue(params.side),
                    model::resting_of(*params, remaining.0 as int),
                ),
            ),
    {
        let slice: i64 = match params.order_type {
            OrderType::Iceberg => match params.visible_size {
                Some(v) => v.0,
                None => remaining.0,
            },
            _ => 0,
        };
        let visible: i64 = if 0 < slice && slice < remaining.0 {
            slice
        } else {
            remaining.0
        };
        let order = RestingOrder {
            order_id: params.order_id,
            user_id: params.user_id,
            client_order_id: params.client_order_id,
            price: params.price,
            size_remaining: Size(visible),
            side: params.side,
            timestamp: params.timestamp,
            visible_slice: Size(slice),
            hidden_remaining: Size(remaining.0 - visible),
        };
        match params.side {
            Side::Ask => rest(Side::Ask, &mut self.asks, &mut self.by_order_id, order),
            Side::Bid => rest(Side::Bid, &mut self.bids, &mut self.by_order_id, order),
        }
    }

    /// An outcome that leaves the book as it was.
    fn refuse(params: &PlaceParams, reason: RejectReason) -> (r: PlacementOutcome)
        ensures
            r@ == model::refused(*params, reason),
    {
        PlacementOutcome {
            trades: TradeList::new(),
            filled: Size(0),
            remaining: params.size,
            rested: false,
            reject: Some(reason),
            stp_cancellations: StpList::new(),
        }
    }

    /// Why the book refuses an order, if it does.
    fn check(&self, params: &PlaceParams) -> (r: Option<RejectReason>)
        requires
            self.wf(),
        ensures
            r == model::refusal(self@, *params),
    {
        match params.order_type {
            OrderType::Limit => {},
            OrderType::Iceberg => {
                let visible: i64 = match params.visible_size {
                    Some(v) => v.0,
                    None => 0,
                };
                if visible <= 0 || visible > params.size.0 {
                    return Some(RejectReason::UnsupportedCommand);
                }
                match params.time_in_force {
                    TimeInForce::Gtc => {},
                    TimeInForce::Day => {},
                    TimeInForce::Gtd(_) => {},
                    _ => {
                        return Some(RejectReason::UnsupportedCommand);
                    },
                }
            },
            _ => {
                return Some(RejectReason::UnsupportedCommand);
            },
        }
        if !params.size.is_positive() {
            return Some(RejectReason::SizeBelowMinimum);
        }
        match params.time_in_force {
            TimeInForce::Fok => {
                if !self.is_fully_fillable_with_stp(
                    params.side,
                    params.price,
                    params.size,
                    params.user_id,
                    params.stp,
                ) {
                    return Some(RejectReason::FokUnfillable);
                }
            },
            TimeInForce::PostOnly => {
                if self.would_cross(params.side, params.price) {
                    return Some(RejectReason::PostOnlyWouldCross);
                }
            },
            _ => {},
        }
        None
    }

    /// Total size of some trades.
    fn total_traded(trades: &TradeList) -> (r: i64)
        requires
            forall|i: int| 0 <= i < trades@.len() ==> 0 < (#[trigger] trades@[i]).size.0,
            model::traded(trades@) <= i64::MAX,
        ensures
            r == model::traded(trades@),
    {
        let list = trades.as_slice();
        let mut sum: i64 = 0;
        let mut i: usize = 0;
        let ghost all = trades@;
        assert(all.subrange(0, 0) =~= Seq::<Trade>::empty());
        while i < list.len()
            invariant
                i <= list@.len(),
                list@ == all,
                sum == model::traded(all.subrange(0, i as int)),
                forall|j: int| 0 <= j < all.len() ==> 0 < (#[trigger] all[j]).size.0,
                model::traded(all) <= i64::MAX,
            decreases list@.len() - i,
        {
            proof {
                lemma_traded_mono(all, i + 1);
                assert(all.subrange(0, i + 1).drop_last() =~= all.subrange(0, i as int));
            }
            sum = sum + list[i].size.0;
            i = i + 1;
        }
        assert(all.subrange(0, i as int) =~= all);
        sum
    }

    /// Places an order: refuses it, or matches it and lets the rest of it rest
    /// where its time in force allows that. No two orders at rest share an id, so
    /// one that comes to rest needs an id of its own.
    pub fn place(&mut self, params: PlaceParams) -> (r: PlacementOutcome)
        requires
            old(self).wf(),
            model::outcome_of(old(self)@, params).rested ==> !old(self)@.has_order(
                params.order_id,
            ),
            model::can_rest(old(self)@, params),
        ensures
            final(self).wf(),
            r@ == model::outcome_of(old(self)@, params),
            final(self)@ == model::book_after_place(old(self)@, params),
    {
        match self.check(&params) {
            Some(reason) => {
                return Self::refuse(&params, reason);
            },
            None => {},
        }
        proof {
            self.lemma_index(params.order_id);
            lemma_matched_bounds(
                model::taker_of(self@.symbol_id, params),
                self@.queue(params.side.other()),
                params.size.0 as int,
            );
        }
        let mut trades = TradeList::new();
        let mut stp_cancellations = StpList::new();
        let ghost b0 = self@;
        let ghost m = model::matching_of(b0, params);
        let post_only: bool = match params.time_in_force {
            TimeInForce::PostOnly => true,
            _ => false,
        };
        let remaining: Size = if post_only {
            params.size
        } else {
            let taker = Taker {
                symbol_id: self.symbol_id,
                side: params.side,
                limit: params.price,
                user_id: params.user_id,
                order_id: params.order_id,
                stp: params.stp,
                timestamp: params.timestamp,
            };
            self.match_against_book(&taker, params.size, &mut trades, &mut stp_cancellations)
        };
        proof {
            assert(Seq::<Trade>::empty() + m.trades =~= m.trades);
            assert(Seq::<StpCancellation>::empty() + m.cancels =~= m.cancels);
            assert(trades@ == m.trades);
            assert(stp_cancellations@ == m.cancels);
            assert(remaining.0 == m.remaining);
            if post_only {
                assert(b0.with_queue(params.side.other(), m.queue) == b0);
            }
        }
        let filled: i64 = Self::total_traded(&trades);
        let may_rest: bool = match params.time_in_force {
            TimeInForce::Ioc => false,
            TimeInForce::Fok => false,
            _ => true,
        };
        let rested: bool = remaining.is_positive() && may_rest;
        if rested {
            self.rest_order(&params, remaining);
        }
        PlacementOutcome {
            trades,
            filled: Size(filled),
            remaining,
            rested,
            reject: None,
            stp_cancellations,
        }
    }
}

impl View for PlacementOutcome {
    type V = OutcomeModel;

    open spec fn view(&self) -> OutcomeModel {
        OutcomeModel {
            trades: self.trades@,
            filled: self.filled.0 as int,
            remaining: self.remaining.0 as int,
            rested: self.rested,
            reject: self.reject,
            stp_cancellations: self.stp_cancellations@,
        }
    }
}

} // verus!
