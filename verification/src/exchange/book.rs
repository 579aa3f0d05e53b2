//! The order book of one symbol of the exchange.
use vstd::prelude::*;

use crate::exchange::api::{
    CommandResultCode, CoreSymbolSpecification, L2MarketData, MatcherTradeEvent, OrderAction,
    OrderCommand, OrderId, OrderType, Price, SelfTradePrevention, Size, SymbolType,
};
use crate::exchange::model;
use crate::exchange::model::{BookModel, DirectOrder, MatchModel, Taker};
use crate::exchange::state;
use crate::exchange::state::OrderBookState;
use crate::store::keyed::KeyedMap;
use crate::store::ladder;
use crate::store::ladder::{Item, PriceLadder};

verus! {

/// Where an order rests.
#[derive(Debug, Clone, Copy)]
pub struct Spot {
    pub action: OrderAction,
    pub handle: usize,
}

/// What an attempt to match came to.
struct MatchResult {
    filled: Size,
    /// Self-trade prevention cancels the incoming order: it must not rest.
    taker_aborted: bool,
}

/// One chain of orders per side, linked in the order of priority, and an index from
/// order ids to the chains.
pub struct DirectOrderBook {
    symbol_spec: CoreSymbolSpecification,
    asks: PriceLadder<DirectOrder>,
    bids: PriceLadder<DirectOrder>,
    order_id_index: KeyedMap<Spot>,
}

/// The orders of a chain.
pub open spec fn orders(l: Seq<Item<DirectOrder>>) -> Seq<DirectOrder> {
    Seq::new(l.len(), |i: int| l[i].value)
}

/// An entry stands where its order belongs, with the quantity that it wants.
spec fn entry_ok(item: Item<DirectOrder>, action: OrderAction) -> bool {
    &&& item.rank == model::rank_of(action, item.value.price)
    &&& item.qty == model::left(item.value)
    &&& model::order_ok(item.value, action)
}

spec fn side_ok(l: Seq<Item<DirectOrder>>, action: OrderAction) -> bool {
    forall|i: int| 0 <= i < l.len() ==> entry_ok(#[trigger] l[i], action)
}

/// The index knows the entries of one side.
spec fn tracks(index: Map<u64, Spot>, action: OrderAction, l: Seq<Item<DirectOrder>>) -> bool {
    &&& forall|id: u64| #[trigger]
        index.contains_key(id) && index[id].action == action ==> exists|i: int|
            0 <= i < l.len() && (#[trigger] l[i]).handle == index[id].handle
                && l[i].value.order_id == id
    &&& forall|i: int|
        0 <= i < l.len() ==> index.contains_key((#[trigger] l[i]).value.order_id)
            && index[l[i].value.order_id] == (Spot { action, handle: l[i].handle })
}

/// Two indexes say the same of the other side.
spec fn same_elsewhere(a: Map<u64, Spot>, b: Map<u64, Spot>, action: OrderAction) -> bool {
    &&& forall|id: u64| #[trigger]
        a.contains_key(id) && a[id].action != action ==> b.contains_key(id) && b[id] == a[id]
    &&& forall|id: u64| #[trigger]
        b.contains_key(id) && b[id].action != action ==> a.contains_key(id) && a[id] == b[id]
}

proof fn lemma_slot_agrees(l: Seq<Item<DirectOrder>>, action: OrderAction, rank: int)
    requires
        side_ok(l, action),
    ensures
        ladder::slot_for(l, rank) == model::slot_of(orders(l), rank),
        0 <= ladder::slot_for(l, rank) <= l.len(),
    decreases l.len(),
{
    if l.len() > 0 {
        assert(orders(l).drop_last() =~= orders(l.drop_last()));
        assert(entry_ok(l[l.len() - 1], action));
        assert forall|i: int| 0 <= i < l.drop_last().len() implies entry_ok(
            #[trigger] l.drop_last()[i],
            action,
        ) by {
            assert(l.drop_last()[i] == l[i]);
        }
        lemma_slot_agrees(l.drop_last(), action, rank);
    }
}

/// The tallies of a chain are those of its orders.
proof fn lemma_tallies_agree(l: Seq<Item<DirectOrder>>, action: OrderAction, price: Price)
    requires
        side_ok(l, action),
    ensures
        ladder::rank_volume(l, model::rank_of(action, price)) == model::volume_at(orders(l), price),
        ladder::rank_count(l, model::rank_of(action, price)) == model::count_at(orders(l), price),
        model::volume_at(orders(l), price) >= 0,
    decreases l.len(),
{
    if l.len() > 0 {
        assert(orders(l).drop_last() =~= orders(l.drop_last()));
        assert(entry_ok(l[l.len() - 1], action));
        assert forall|i: int| 0 <= i < l.drop_last().len() implies entry_ok(
            #[trigger] l.drop_last()[i],
            action,
        ) by {
            assert(l.drop_last()[i] == l[i]);
        }
        lemma_tallies_agree(l.drop_last(), action, price);
    }
}

/// The ranks of a chain are those of the prices of its orders.
proof fn lemma_prices_agree(l: Seq<Item<DirectOrder>>, action: OrderAction)
    requires
        side_ok(l, action),
    ensures
        ladder::ranks(l).len() == model::prices(orders(l)).len(),
        forall|i: int|
            0 <= i < ladder::ranks(l).len() ==> (#[trigger] ladder::ranks(l)[i]) == model::rank_of(
                action,
                model::prices(orders(l))[i],
            ),
    decreases l.len(),
{
    if l.len() > 0 {
        assert(orders(l).drop_last() =~= orders(l.drop_last()));
        assert(entry_ok(l[l.len() - 1], action));
        assert forall|i: int| 0 <= i < l.drop_last().len() implies entry_ok(
            #[trigger] l.drop_last()[i],
            action,
        ) by {
            assert(l.drop_last()[i] == l[i]);
        }
        lemma_prices_agree(l.drop_last(), action);
        let before = ladder::ranks(l.drop_last());
        if before.len() > 0 {
            assert(before[before.len() - 1] == model::rank_of(
                action,
                model::prices(orders(l.drop_last()))[before.len() - 1],
            ));
        }
    }
}

/// Rank of a price on a side.
fn rank(action: OrderAction, price: Price) -> (r: i64)
    ensures
        r == model::rank_of(action, price),
{
    match action {
        OrderAction::Ask => price,
        OrderAction::Bid => -1 - price,
    }
}

proof fn lemma_tracks_remove(
    index: Map<u64, Spot>,
    action: OrderAction,
    l: Seq<Item<DirectOrder>>,
    k: int,
)
    requires
        tracks(index, action, l),
        0 <= k < l.len(),
        forall|i: int, j: int|
            0 <= i < l.len() && 0 <= j < l.len() && i != j ==> (#[trigger] l[i]).handle != (
            #[trigger] l[j]).handle,
    ensures
        tracks(index.remove(l[k].value.order_id), action, l.remove(k)),
        same_elsewhere(index, index.remove(l[k].value.order_id), action),
{
    let id0 = l[k].value.order_id;
    let index2 = index.remove(id0);
    let l2 = l.remove(k);
    assert forall|id: u64| #[trigger]
        index2.contains_key(id) && index2[id].action == action implies exists|i: int|
        0 <= i < l2.len() && (#[trigger] l2[i]).handle == index2[id].handle
            && l2[i].value.order_id == id by {
        assert(index.contains_key(id));
        let i = choose|i: int|
            0 <= i < l.len() && (#[trigger] l[i]).handle == index[id].handle
                && l[i].value.order_id == id;
        if i < k {
            assert(l2[i] == l[i]);
        } else {
            assert(l2[i - 1] == l[i]);
        }
    }
    assert forall|i: int| 0 <= i < l2.len() implies index2.contains_key(
        (#[trigger] l2[i]).value.order_id,
    ) && index2[l2[i].value.order_id] == (Spot { action, handle: l2[i].handle }) by {
        let m = if i < k {
            i
        } else {
            i + 1
        };
        assert(l2[i] == l[m]);
        assert(index[l[m].value.order_id].handle == l[m].handle);
        assert(index[l[k].value.order_id].handle == l[k].handle);
    }
}

proof fn lemma_tracks_insert(
    index: Map<u64, Spot>,
    action: OrderAction,
    l: Seq<Item<DirectOrder>>,
    k: int,
    item: Item<DirectOrder>,
)
    requires
        tracks(index, action, l),
        0 <= k <= l.len(),
        !index.contains_key(item.value.order_id),
    ensures
        tracks(
            index.insert(item.value.order_id, Spot { action, handle: item.handle }),
            action,
            l.insert(k, item),
        ),
        same_elsewhere(
            index,
            index.insert(item.value.order_id, Spot { action, handle: item.handle }),
            action,
        ),
{
    let id0 = item.value.order_id;
    let index2 = index.insert(id0, Spot { action, handle: item.handle });
    let l2 = l.insert(k, item);
    assert forall|id: u64| #[trigger]
        index2.contains_key(id) && index2[id].action == action implies exists|i: int|
        0 <= i < l2.len() && (#[trigger] l2[i]).handle == index2[id].handle
            && l2[i].value.order_id == id by {
        if id == id0 {
            assert(l2[k] == item);
        } else {
            assert(index.contains_key(id));
            let i = choose|i: int|
                0 <= i < l.len() && (#[trigger] l[i]).handle == index[id].handle
                    && l[i].value.order_id == id;
            if i < k {
                assert(l2[i] == l[i]);
            } else {
                assert(l2[i + 1] == l[i]);
            }
        }
    }
    assert forall|i: int| 0 <= i < l2.len() implies index2.contains_key(
        (#[trigger] l2[i]).value.order_id,
    ) && index2[l2[i].value.order_id] == (Spot { action, handle: l2[i].handle }) by {
        if i < k {
            assert(l2[i] == l[i]);
        } else if i > k {
            assert(l2[i] == l[i - 1]);
        }
    }
}

proof fn lemma_tracks_update(
    index: Map<u64, Spot>,
    action: OrderAction,
    l: Seq<Item<DirectOrder>>,
    k: int,
    item: Item<DirectOrder>,
)
    requires
        tracks(index, action, l),
        0 <= k < l.len(),
        item.handle == l[k].handle,
        item.value.order_id == l[k].value.order_id,
    ensures
        tracks(index, action, l.update(k, item)),
{
    let l2 = l.update(k, item);
    assert forall|id: u64| #[trigger]
        index.contains_key(id) && index[id].action == action implies exists|i: int|
        0 <= i < l2.len() && (#[trigger] l2[i]).handle == index[id].handle
            && l2[i].value.order_id == id by {
        let i = choose|i: int|
            0 <= i < l.len() && (#[trigger] l[i]).handle == index[id].handle
                && l[i].value.order_id == id;
        assert(l2[i].handle == l[i].handle);
    }
    assert forall|i: int| 0 <= i < l2.len() implies index.contains_key(
        (#[trigger] l2[i]).value.order_id,
    ) && index[l2[i].value.order_id] == (Spot { action, handle: l2[i].handle }) by {
        assert(index.contains_key(l[i].value.order_id));
    }
}

/// An index that says the same of the other side still knows it.
proof fn lemma_tracks_other(
    a: Map<u64, Spot>,
    b: Map<u64, Spot>,
    action: OrderAction,
    l: Seq<Item<DirectOrder>>,
)
    requires
        tracks(a, action.other(), l),
        same_elsewhere(a, b, action),
    ensures
        tracks(b, action.other(), l),
{
    assert forall|id: u64| #[trigger]
        b.contains_key(id) && b[id].action == action.other() implies exists|i: int|
        0 <= i < l.len() && (#[trigger] l[i]).handle == b[id].handle && l[i].value.order_id
            == id by {
        assert(a.contains_key(id));
    }
    assert forall|i: int| 0 <= i < l.len() implies b.contains_key((#[trigger] l[i]).value.order_id)
        && b[l[i].value.order_id] == (Spot { action: action.other(), handle: l[i].handle }) by {
        assert(a.contains_key(l[i].value.order_id));
    }
}

/// Takes an order out of its chain and out of the index.
fn take(
    action: OrderAction,
    chain: &mut PriceLadder<DirectOrder>,
    index: &mut KeyedMap<Spot>,
    handle: usize,
) -> (r: DirectOrder)
    requires
        old(chain).wf(),
        old(index).wf(),
        side_ok(old(chain)@, action),
        tracks(old(index)@, action, old(chain)@),
        old(chain).has(handle),
    ensures
        final(chain).wf(),
        final(index).wf(),
        side_ok(final(chain)@, action),
        tracks(final(index)@, action, final(chain)@),
        same_elsewhere(old(index)@, final(index)@, action),
        final(index)@ == old(index)@.remove(r.order_id),
        r == old(chain)@[old(chain).place(handle)].value,
        final(chain)@ == old(chain)@.remove(old(chain).place(handle)),
        orders(final(chain)@) == orders(old(chain)@).remove(old(chain).place(handle)),
{
    let ghost l = chain@;
    let ghost k = chain.place(handle);
    proof {
        chain.lemma_view();
    }
    let item = chain.remove(handle);
    let removed = index.remove(item.value.order_id);
    proof {
        let l2 = chain@;
        assert(orders(l2) =~= orders(l).remove(k));
        assert forall|i: int| 0 <= i < l2.len() implies entry_ok(#[trigger] l2[i], action) by {
            assert(entry_ok(l[if i < k { i } else { i + 1 }], action));
        }
        lemma_tracks_remove(old(index)@, action, l, k);
    }
    item.value
}

/// Puts an order to rest behind all orders of its price.
fn rest(
    action: OrderAction,
    chain: &mut PriceLadder<DirectOrder>,
    index: &mut KeyedMap<Spot>,
    order: DirectOrder,
)
    requires
        old(chain).wf(),
        old(index).wf(),
        side_ok(old(chain)@, action),
        tracks(old(index)@, action, old(chain)@),
        model::order_ok(order, action),
        !old(index)@.contains_key(order.order_id),
        model::volume_at(orders(old(chain)@), order.price) + model::left(order) <= i64::MAX,
    ensures
        final(chain).wf(),
        final(index).wf(),
        side_ok(final(chain)@, action),
        tracks(final(index)@, action, final(chain)@),
        same_elsewhere(old(index)@, final(index)@, action),
        orders(final(chain)@) == model::enqueued(orders(old(chain)@), order),
{
    let r: i64 = rank(action, order.price);
    let ghost l = chain@;
    proof {
        lemma_tallies_agree(l, action, order.price);
        lemma_slot_agrees(l, action, r as int);
    }
    let wanted: i64 = order.size - order.filled;
    let handle: usize = chain.push(r, wanted, order);
    index.insert(order.order_id, Spot { action, handle });
    proof {
        let k = ladder::slot_for(l, r as int);
        let item = Item { handle, rank: r, qty: wanted, value: order };
        let l2 = chain@;
        assert(l2 == l.insert(k, item));
        assert(orders(l2) =~= orders(l).insert(k, order));
        assert forall|i: int| 0 <= i < l2.len() implies entry_ok(#[trigger] l2[i], action) by {
            if i < k {
                assert(entry_ok(l[i], action));
            } else if i > k {
                assert(entry_ok(l[i - 1], action));
            }
        }
        lemma_tracks_insert(old(index)@, action, l, k, item);
    }
}

/// Changes an order in place: it wants less than before.
fn shrink(
    action: OrderAction,
    chain: &mut PriceLadder<DirectOrder>,
    index: &KeyedMap<Spot>,
    handle: usize,
    order: DirectOrder,
)
    requires
        old(chain).wf(),
        side_ok(old(chain)@, action),
        tracks(index@, action, old(chain)@),
        old(chain).has(handle),
        model::order_ok(order, action),
        order.order_id == old(chain)@[old(chain).place(handle)].value.order_id,
        order.price == old(chain)@[old(chain).place(handle)].value.price,
        model::left(order) <= model::left(old(chain)@[old(chain).place(handle)].value),
    ensures
        final(chain).wf(),
        side_ok(final(chain)@, action),
        tracks(index@, action, final(chain)@),
        orders(final(chain)@) == orders(old(chain)@).update(old(chain).place(handle), order),
{
    let ghost l = chain@;
    let ghost k = chain.place(handle);
    proof {
        assert(entry_ok(l[k], action));
    }
    let wanted: i64 = order.size - order.filled;
    chain.update(handle, wanted, order);
    proof {
        let l2 = chain@;
        assert(orders(l2) =~= orders(l).update(k, order));
        assert forall|i: int| 0 <= i < l2.len() implies entry_ok(#[trigger] l2[i], action) by {
            assert(entry_ok(l[i], action));
        }
        lemma_tracks_update(index@, action, l, k, l2[k]);
    }
}

/// Orders and events in front of what follows.
proof fn lemma_after_event(
    kept: Seq<DirectOrder>,
    events: Seq<MatcherTradeEvent>,
    e: MatcherTradeEvent,
    m: MatchModel,
)
    ensures
        model::after(kept, events, model::after(Seq::empty(), seq![e], m)) == model::after(
            kept,
            events.push(e),
            m,
        ),
{
    assert(kept + (Seq::<DirectOrder>::empty() + m.queue) =~= kept + m.queue);
    assert(events + (seq![e] + m.events) =~= events.push(e) + m.events);
}

proof fn lemma_after_kept(
    kept: Seq<DirectOrder>,
    events: Seq<MatcherTradeEvent>,
    o: DirectOrder,
    m: MatchModel,
)
    ensures
        model::after(kept, events, model::after(seq![o], Seq::empty(), m)) == model::after(
            kept.push(o),
            events,
            m,
        ),
{
    assert(kept + (seq![o] + m.queue) =~= kept.push(o) + m.queue);
    assert(events + (Seq::<MatcherTradeEvent>::empty() + m.events) =~= events + m.events);
}

proof fn lemma_after_settled(
    kept: Seq<DirectOrder>,
    events: Seq<MatcherTradeEvent>,
    q: Seq<DirectOrder>,
    remaining: int,
    aborted: bool,
)
    ensures
        model::after(kept, events, model::settled(q, remaining, aborted)) == (MatchModel {
            queue: kept + q,
            remaining,
            aborted,
            events,
        }),
{
    assert(events + Seq::<MatcherTradeEvent>::empty() =~= events);
}

/// Matches an order against the resting orders of the other side, whose chain this
/// is. The events are added to the list.
fn match_chain(
    action: OrderAction,
    chain: &mut PriceLadder<DirectOrder>,
    index: &mut KeyedMap<Spot>,
    taker: &Taker,
    size: Size,
    events: &mut Vec<MatcherTradeEvent>,
) -> (r: MatchResult)
    requires
        old(chain).wf(),
        old(index).wf(),
        side_ok(old(chain)@, action),
        tracks(old(index)@, action, old(chain)@),
        action == taker.action.other(),
        size >= 0,
    ensures
        final(chain).wf(),
        final(index).wf(),
        side_ok(final(chain)@, action),
        tracks(final(index)@, action, final(chain)@),
        same_elsewhere(old(index)@, final(index)@, action),
        final(index)@.dom().subset_of(old(index)@.dom()),
        ({
            let m = model::matched(*taker, orders(old(chain)@), size as int);
            &&& orders(final(chain)@) == m.queue
            &&& r.filled == size - m.remaining
            &&& 0 <= m.remaining <= size
            &&& r.taker_aborted == m.aborted
            &&& final(events)@ == old(events)@ + m.events
        }),
{
    let ghost m0 = model::matched(*taker, orders(chain@), size as int);
    let ghost mut k: int = 0;
    let ghost mut told: Seq<MatcherTradeEvent> = Seq::empty();
    let mut filled: i64 = 0;
    let mut taker_aborted: bool = false;
    let mut cursor: Option<usize> = chain.front();
    proof {
        assert(orders(chain@).take(0) + m0.queue =~= m0.queue);
        assert(told + m0.events =~= m0.events);
        assert(old(events)@ + told =~= old(events)@);
        assert(orders(chain@).skip(0) =~= orders(chain@));
    }
    while filled < size
        invariant_except_break
            m0 == model::after(
                orders(chain@).take(k),
                told,
                model::matched(*taker, orders(chain@).skip(k), size - filled),
            ),
            !taker_aborted,
            cursor == (if k < chain@.len() {
                Some(chain@[k].handle)
            } else {
                None
            }),
            0 <= k <= chain@.len(),
        invariant
            chain.wf(),
            index.wf(),
            side_ok(chain@, action),
            tracks(index@, action, chain@),
            same_elsewhere(old(index)@, index@, action),
            index@.dom().subset_of(old(index)@.dom()),
            action == taker.action.other(),
            0 <= filled <= size,
            events@ == old(events)@ + told,
        ensures
            m0 == (MatchModel {
                queue: orders(chain@),
                remaining: size - filled,
                aborted: taker_aborted,
                events: told,
            }),
        decreases chain@.len() - k,
    {
        let ghost q = orders(chain@);
        let ghost front = q.take(k);
        let remaining: i64 = size - filled;
        let handle: usize = match cursor {
            Some(h) => h,
            None => {
                proof {
                    lemma_after_settled(front, told, q.skip(k), remaining as int, false);
                    assert(front + q.skip(k) =~= q);
                }
                break;
            },
        };
        proof {
            chain.lemma_place(k);
            assert(entry_ok(chain@[k], action));
            assert(q.skip(k)[0] == chain@[k].value);
            assert(q.skip(k).drop_first() =~= q.skip(k + 1));
            assert(front + q.skip(k) =~= q);
        }
        let maker: DirectOrder = chain.get(handle).value;
        let next: Option<usize> = chain.behind(handle);
        let crosses: bool = match taker.action {
            OrderAction::Bid => maker.price <= taker.limit,
            OrderAction::Ask => maker.price >= taker.limit,
        };
        if !crosses {
            proof {
                lemma_after_settled(front, told, q.skip(k), remaining as int, false);
            }
            break;
        }
        let wanted: i64 = maker.size - maker.filled;
        if maker.uid == taker.uid && taker.stp != SelfTradePrevention::Allow {
            let (cancel_maker, abort_taker): (bool, bool) = match taker.stp {
                SelfTradePrevention::CancelMaker => (true, false),
                SelfTradePrevention::CancelBoth => (true, true),
                SelfTradePrevention::Skip => (false, false),
                _ => (false, true),
            };
            if cancel_maker {
                let event = MatcherTradeEvent::new_reject_maker(
                    wanted,
                    maker.price,
                    maker.reserve_price,
                    maker.order_id,
                    maker.uid,
                );
                let gone = take(action, chain, index, handle);
                events.push(event);
                proof {
                    assert(orders(chain@).take(k) =~= front);
                    assert(orders(chain@).skip(k) =~= q.skip(k + 1));
                    assert((old(events)@ + told).push(event) =~= old(events)@ + told.push(event));
                    if abort_taker {
                        lemma_after_event(
                            front,
                            told,
                            event,
                            model::settled(q.skip(k + 1), remaining as int, true),
                        );
                    } else {
                        lemma_after_event(
                            front,
                            told,
                            event,
                            model::matched(*taker, q.skip(k + 1), remaining as int),
                        );
                    }
                    told = told.push(event);
                }
            } else if !abort_taker {
                proof {
                    lemma_after_kept(
                        front,
                        told,
                        maker,
                        model::matched(*taker, q.skip(k + 1), remaining as int),
                    );
                    assert(front.push(maker) =~= q.take(k + 1));
                    k = k + 1;
                }
            }
            if abort_taker {
                taker_aborted = true;
                proof {
                    lemma_after_settled(
                        front,
                        told,
                        orders(chain@).skip(k),
                        remaining as int,
                        true,
                    );
                    assert(orders(chain@).take(k) + orders(chain@).skip(k) =~= orders(chain@));
                }
                break;
            }
            cursor = next;
            continue;
        }
        let trade_size: i64 = if remaining < wanted {
            remaining
        } else {
            wanted
        };
        let hold: i64 = match taker.action {
            OrderAction::Bid => taker.reserve_price,
            OrderAction::Ask => maker.reserve_price,
        };
        let event = MatcherTradeEvent::new_trade(
            trade_size,
            maker.price,
            maker.order_id,
            maker.uid,
            hold,
        );
        events.push(event);
        filled = filled + trade_size;
        let ghost before = told;
        proof {
            assert((old(events)@ + told).push(event) =~= old(events)@ + told.push(event));
            told = told.push(event);
        }
        if trade_size < wanted {
            let mut rest_of = maker;
            rest_of.filled = maker.filled + trade_size;
            shrink(action, chain, index, handle, rest_of);
            proof {
                let tail = q.skip(k).update(0, rest_of);
                lemma_after_event(front, before, event, model::settled(tail, 0, false));
                lemma_after_settled(front, told, tail, 0, false);
                assert(front + tail =~= orders(chain@));
            }
            break;
        }
        let gone = take(action, chain, index, handle);
        proof {
            assert(orders(chain@).take(k) =~= front);
            assert(orders(chain@).skip(k) =~= q.skip(k + 1));
            lemma_after_event(
                front,
                before,
                event,
                model::matched(*taker, q.skip(k + 1), remaining - wanted),
            );
        }
        cursor = next;
    }
    MatchResult { filled, taker_aborted }
}

/// A side lists an order once.
proof fn lemma_listed_once(
    index: Map<u64, Spot>,
    action: OrderAction,
    chain: PriceLadder<DirectOrder>,
    i: int,
)
    requires
        chain.wf(),
        tracks(index, action, chain@),
        0 <= i < chain@.len(),
    ensures
        model::listed(orders(chain@), chain@[i].value.order_id),
        model::place_of(orders(chain@), chain@[i].value.order_id) == i,
{
    let q = orders(chain@);
    let id = chain@[i].value.order_id;
    assert(q[i].order_id == id);
    let j = model::place_of(q, id);
    assert(0 <= j < q.len() && q[j].order_id == id);
    assert(index[chain@[j].value.order_id].handle == chain@[j].handle);
    assert(index[chain@[i].value.order_id].handle == chain@[i].handle);
    chain.lemma_view();
}

proof fn lemma_side_orderly(
    index: Map<u64, Spot>,
    action: OrderAction,
    chain: PriceLadder<DirectOrder>,
)
    requires
        chain.wf(),
        side_ok(chain@, action),
        tracks(index, action, chain@),
    ensures
        model::side_orderly(orders(chain@), action),
{
    let l = chain@;
    let q = orders(l);
    chain.lemma_view();
    assert forall|i: int| 0 <= i < q.len() implies model::order_ok(#[trigger] q[i], action) by {
        assert(entry_ok(l[i], action));
    }
    assert forall|i: int, j: int| 0 <= i <= j < q.len() implies model::rank_of(
        action,
        (#[trigger] q[i]).price,
    ) <= model::rank_of(action, (#[trigger] q[j]).price) by {
        assert(entry_ok(l[i], action) && entry_ok(l[j], action));
        assert(l[i].rank <= l[j].rank);
    }
    assert forall|i: int, j: int|
        0 <= i < q.len() && 0 <= j < q.len() && i != j implies (#[trigger] q[i]).order_id != (
    #[trigger] q[j]).order_id by {
        lemma_listed_once(index, action, chain, i);
        lemma_listed_once(index, action, chain, j);
        assert(l[i].handle != l[j].handle);
    }
}

impl View for DirectOrderBook {
    type V = BookModel;

    closed spec fn view(&self) -> BookModel {
        BookModel {
            spec: self.symbol_spec,
            asks: orders(self.asks@),
            bids: orders(self.bids@),
        }
    }
}

impl DirectOrderBook {
    /// Chains, tallies and index agree.
    pub closed spec fn wf(&self) -> bool {
        &&& self.asks.wf()
        &&& self.bids.wf()
        &&& self.order_id_index.wf()
        &&& side_ok(self.asks@, OrderAction::Ask)
        &&& side_ok(self.bids@, OrderAction::Bid)
        &&& tracks(self.order_id_index@, OrderAction::Ask, self.asks@)
        &&& tracks(self.order_id_index@, OrderAction::Bid, self.bids@)
    }

    spec fn chain(&self, action: OrderAction) -> PriceLadder<DirectOrder> {
        match action {
            OrderAction::Ask => self.asks,
            OrderAction::Bid => self.bids,
        }
    }

    /// The index finds the orders of the book, and nothing else.
    proof fn lemma_lookup(&self, id: OrderId)
        requires
            self.wf(),
        ensures
            self.order_id_index@.contains_key(id) == self@.has(id),
            self@.has(id) ==> ({
                let spot = self.order_id_index@[id];
                let chain = self.chain(spot.action);
                &&& spot.action == self@.side_of(id)
                &&& chain.has(spot.handle)
                &&& chain.place(spot.handle) == model::place_of(self@.side(spot.action), id)
                &&& self@.order(id) == chain@[chain.place(spot.handle)].value
                &&& self@.order(id).order_id == id
                &&& model::order_ok(self@.order(id), spot.action)
            }),
    {
        let index = self.order_id_index@;
        if index.contains_key(id) {
            let spot = index[id];
            let chain = self.chain(spot.action);
            let l = chain@;
            let i = choose|i: int|
                0 <= i < l.len() && (#[trigger] l[i]).handle == spot.handle
                    && l[i].value.order_id == id;
            chain.lemma_place(i);
            lemma_listed_once(index, spot.action, chain, i);
            assert(entry_ok(l[i], spot.action));
            if spot.action == OrderAction::Bid && model::listed(self@.asks, id) {
                let j = model::place_of(self@.asks, id);
                assert(self@.asks[j].order_id == id);
                assert(index[self.asks@[j].value.order_id].action == OrderAction::Ask);
            }
        } else {
            if model::listed(self@.asks, id) {
                let j = model::place_of(self@.asks, id);
                assert(self@.asks[j].order_id == id);
                assert(index.contains_key(self.asks@[j].value.order_id));
            }
            if model::listed(self@.bids, id) {
                let j = model::place_of(self@.bids, id);
                assert(self@.bids[j].order_id == id);
                assert(index.contains_key(self.bids@[j].value.order_id));
            }
        }
    }

    /// Every book is in order: each side goes from the best price on, each order
    /// wants something, and no id occurs twice.
    pub proof fn law_orderly(&self)
        requires
            self.wf(),
        ensures
            model::orderly(self@),
    {
        lemma_side_orderly(self.order_id_index@, OrderAction::Ask, self.asks);
        lemma_side_orderly(self.order_id_index@, OrderAction::Bid, self.bids);
        assert forall|i: int, j: int|
            0 <= i < self@.asks.len() && 0 <= j < self@.bids.len() implies (
        #[trigger] self@.asks[i]).order_id != (#[trigger] self@.bids[j]).order_id by {
            let index = self.order_id_index@;
            assert(index[self.asks@[i].value.order_id].action == OrderAction::Ask);
            assert(index[self.bids@[j].value.order_id].action == OrderAction::Bid);
        }
    }

    pub fn new(spec: CoreSymbolSpecification) -> (r: DirectOrderBook)
        ensures
            r.wf(),
            r@ == (BookModel { spec, asks: Seq::empty(), bids: Seq::empty() }),
    {
        let r = DirectOrderBook {
            symbol_spec: spec,
            asks: PriceLadder::new(),
            bids: PriceLadder::new(),
            order_id_index: KeyedMap::new(),
        };
        assert(orders(r.asks@) =~= Seq::empty());
        assert(orders(r.bids@) =~= Seq::empty());
        r
    }

    /// Matches an order against the other side.
    fn try_match(
        &mut self,
        taker: &Taker,
        size: Size,
        events: &mut Vec<MatcherTradeEvent>,
    ) -> (r: MatchResult)
        requires
            old(self).wf(),
            size >= 0,
        ensures
            final(self).wf(),
            final(self).order_id_index@.dom().subset_of(old(self).order_id_index@.dom()),
            ({
                let m = model::matched(*taker, old(self)@.side(taker.action.other()), size as int);
                &&& final(self)@ == model::after_match(old(self)@, taker.action, m)
                &&& r.filled == size - m.remaining
                &&& 0 <= m.remaining <= size
                &&& r.taker_aborted == m.aborted
                &&& final(events)@ == old(events)@ + m.events
            }),
    {
        let r = match taker.action {
            OrderAction::Bid => match_chain(
                OrderAction::Ask,
                &mut self.asks,
                &mut self.order_id_index,
                taker,
                size,
                events,
            ),
            OrderAction::Ask => match_chain(
                OrderAction::Bid,
                &mut self.bids,
                &mut self.order_id_index,
                taker,
                size,
                events,
            ),
        };
        proof {
            let a = taker.action.other();
            lemma_tracks_other(
                old(self).order_id_index@,
                self.order_id_index@,
                a,
                self.chain(a.other())@,
            );
        }
        r
    }

    /// The book as lists of orders.
    pub fn serialize_state(&self) -> (r: OrderBookState)
        requires
            self.wf(),
        ensures
            state::book_of(r) == self@,
            state::book_ok(r),
    {
        let asks = chain_orders(&self.asks);
        let bids = chain_orders(&self.bids);
        proof {
            self.law_orderly();
            lemma_side_volumes(OrderAction::Ask, self.asks);
            lemma_side_volumes(OrderAction::Bid, self.bids);
        }
        OrderBookState { symbol_spec: self.symbol_spec, asks, bids }
    }

    /// The book that was saved, or `None` where the lists cannot be those of a book.
    pub fn from_state(s: &OrderBookState) -> (r: Option<DirectOrderBook>)
        ensures
            r.is_some() == state::book_ok(*s),
            r matches Some(b) ==> b.wf() && b@ == state::book_of(*s),
    {
        let mut asks: PriceLadder<DirectOrder> = PriceLadder::new();
        let mut bids: PriceLadder<DirectOrder> = PriceLadder::new();
        let mut index: KeyedMap<Spot> = KeyedMap::new();
        if !restore_side(OrderAction::Ask, &s.asks, &mut asks, &mut index) {
            return None;
        }
        let ghost known = index@;
        proof {
            assert forall|id: u64| #[trigger] known.contains_key(id) implies known[id].action
                == OrderAction::Ask && model::listed(s.asks@, id) by {
                assert(!Map::<u64, Spot>::empty().contains_key(id));
                let i = choose|i: int|
                    0 <= i < asks@.len() && (#[trigger] asks@[i]).handle == known[id].handle
                        && asks@[i].value.order_id == id;
                assert(orders(asks@)[i].order_id == id);
            }
            assert forall|i: int| 0 <= i < s.asks@.len() implies known.contains_key(
                (#[trigger] s.asks@[i]).order_id,
            ) by {
                assert(orders(asks@)[i] == asks@[i].value);
            }
        }
        let ok: bool = restore_side(OrderAction::Bid, &s.bids, &mut bids, &mut index);
        proof {
            if state::book_ok(*s) {
                assert forall|j: int| 0 <= j < s.bids@.len() implies !known.contains_key(
                    (#[trigger] s.bids@[j]).order_id,
                ) by {
                    if known.contains_key(s.bids@[j].order_id) {
                        let i = choose|i: int|
                            0 <= i < s.asks@.len() && (#[trigger] s.asks@[i]).order_id
                                == s.bids@[j].order_id;
                        assert(s.asks@[i].order_id != s.bids@[j].order_id);
                    }
                }
            }
        }
        if !ok {
            return None;
        }
        proof {
            lemma_tracks_other(known, index@, OrderAction::Bid, asks@);
            assert forall|i: int, j: int|
                0 <= i < s.asks@.len() && 0 <= j < s.bids@.len() implies (
            #[trigger] s.asks@[i]).order_id != (#[trigger] s.bids@[j]).order_id by {
                assert(known.contains_key(s.asks@[i].order_id));
                assert(!known.contains_key(s.bids@[j].order_id));
            }
        }
        Some(DirectOrderBook { symbol_spec: s.symbol_spec, asks, bids, order_id_index: index })
    }

    /// Puts an order to rest.
    fn insert_order(&mut self, order: DirectOrder)
        requires
            old(self).wf(),
            model::order_ok(order, order.action),
            !old(self).order_id_index@.contains_key(order.order_id),
            model::has_room(old(self)@, order),
        ensures
            final(self).wf(),
            final(self)@ == model::rested(old(self)@, order),
    {
        match order.action {
            OrderAction::Ask => rest(
                OrderAction::Ask,
                &mut self.asks,
                &mut self.order_id_index,
                order,
            ),
            OrderAction::Bid => rest(
                OrderAction::Bid,
                &mut self.bids,
                &mut self.order_id_index,
                order,
            ),
        }
        proof {
            lemma_tracks_other(
                old(self).order_id_index@,
                self.order_id_index@,
                order.action,
                self.chain(order.action.other())@,
            );
        }
    }

    /// Takes the order with an id out.
    fn remove_order(&mut self, id: OrderId, spot: Spot) -> (r: DirectOrder)
        requires
            old(self).wf(),
            old(self)@.has(id),
            spot == old(self).order_id_index@[id],
        ensures
            final(self).wf(),
            final(self)@ == old(self)@.without(id),
            r == old(self)@.order(id),
            final(self).order_id_index@ == old(self).order_id_index@.remove(id),
    {
        proof {
            self.lemma_lookup(id);
        }
        let r = match spot.action {
            OrderAction::Ask => take(
                OrderAction::Ask,
                &mut self.asks,
                &mut self.order_id_index,
                spot.handle,
            ),
            OrderAction::Bid => take(
                OrderAction::Bid,
                &mut self.bids,
                &mut self.order_id_index,
                spot.handle,
            ),
        };
        proof {
            lemma_tracks_other(
                old(self).order_id_index@,
                self.order_id_index@,
                spot.action,
                self.chain(spot.action.other())@,
            );
        }
        r
    }

    /// The order at a place of the index.
    fn order_at(&self, id: OrderId, spot: Spot) -> (r: DirectOrder)
        requires
            self.wf(),
            self@.has(id),
            spot == self.order_id_index@[id],
        ensures
            r == self@.order(id),
            r.order_id == id,
            r.action == spot.action,
            model::order_ok(r, r.action),
    {
        proof {
            self.lemma_lookup(id);
        }
        match spot.action {
            OrderAction::Ask => self.asks.get(spot.handle).value,
            OrderAction::Bid => self.bids.get(spot.handle).value,
        }
    }

    /// Where an order of the book is.
    fn spot_of(&self, id: OrderId) -> (r: Option<Spot>)
        requires
            self.wf(),
        ensures
            r.is_some() == self@.has(id),
            r matches Some(spot) ==> spot == self.order_id_index@[id],
    {
        proof {
            self.lemma_lookup(id);
        }
        match self.order_id_index.get(id) {
            Some(spot) => Some(*spot),
            None => None,
        }
    }

    fn place_gtc(&mut self, cmd: &mut OrderCommand)
        requires
            old(self).wf(),
            old(cmd).size >= 0,
            !old(self)@.has(old(cmd).order_id),
            model::placed_gtc(old(self)@, *old(cmd)).fits,
        ensures
            final(self).wf(),
            final(self)@ == model::placed_gtc(old(self)@, *old(cmd)).book,
            model::told(*old(cmd), *final(cmd), model::placed_gtc(old(self)@, *old(cmd))),
    {
        proof {
            self.lemma_lookup(cmd.order_id);
        }
        let taker = Taker {
            uid: cmd.uid,
            action: cmd.action,
            limit: cmd.price,
            reserve_price: cmd.reserve_price,
            stp: self.symbol_spec.stp,
        };
        let r = self.try_match(&taker, cmd.size, &mut cmd.matcher_events);
        if r.taker_aborted {
            if r.filled < cmd.size {
                cmd.matcher_events.push(
                    MatcherTradeEvent::new_reject(
                        cmd.size - r.filled,
                        cmd.price,
                        cmd.reserve_price,
                    ),
                );
            }
            assert(cmd.matcher_events@ =~= old(cmd).matcher_events@ + model::placed_gtc(
                old(self)@,
                *old(cmd),
            ).events);
            return;
        }
        if r.filled < cmd.size {
            self.insert_order(
                DirectOrder {
                    order_id: cmd.order_id,
                    uid: cmd.uid,
                    price: cmd.price,
                    size: cmd.size,
                    filled: r.filled,
                    action: cmd.action,
                    reserve_price: cmd.reserve_price,
                    timestamp: cmd.timestamp,
                },
            );
        }
        assert(cmd.matcher_events@ =~= old(cmd).matcher_events@ + model::placed_gtc(
            old(self)@,
            *old(cmd),
        ).events);
    }

    fn place_ioc(&mut self, cmd: &mut OrderCommand)
        requires
            old(self).wf(),
            old(cmd).size >= 0,
        ensures
            final(self).wf(),
            final(self)@ == model::placed_ioc(old(self)@, *old(cmd)).book,
            model::told(*old(cmd), *final(cmd), model::placed_ioc(old(self)@, *old(cmd))),
    {
        let limit: Price = cmd.price;
        self.place_at_once(cmd, limit);
    }

    /// Matches an order up to a limit. What is not filled leaves.
    fn place_at_once(&mut self, cmd: &mut OrderCommand, limit: Price)
        requires
            old(self).wf(),
            old(cmd).size >= 0,
        ensures
            final(self).wf(),
            ({
                let t = Taker { limit, ..model::taker_of(old(self)@, *old(cmd)) };
                let step = model::placed_at_once(old(self)@, *old(cmd), t);
                &&& final(self)@ == step.book
                &&& model::told(*old(cmd), *final(cmd), step)
            }),
    {
        let taker = Taker {
            uid: cmd.uid,
            action: cmd.action,
            limit,
            reserve_price: cmd.reserve_price,
            stp: self.symbol_spec.stp,
        };
        let r = self.try_match(&taker, cmd.size, &mut cmd.matcher_events);
        let rejected: i64 = cmd.size - r.filled;
        if rejected > 0 {
            cmd.matcher_events.push(
                MatcherTradeEvent::new_reject(rejected, cmd.price, cmd.reserve_price),
            );
        }
        assert(cmd.matcher_events@ =~= old(cmd).matcher_events@ + model::placed_at_once(
            old(self)@,
            *old(cmd),
            taker,
        ).events);
    }

    /// What it costs to fill a size from the other side, or `None` where that side
    /// is too thin.
    fn check_budget_to_fill(&self, size: Size, action: OrderAction) -> (r: Option<i64>)
        requires
            self.wf(),
            size >= 0,
            model::cost(self@.side(action.other()), size as int) matches Some(n) ==> i64::MIN <= n
                <= i64::MAX,
        ensures
            r.is_some() == model::cost(self@.side(action.other()), size as int).is_some(),
            r matches Some(n) ==> n == model::cost(
                self@.side(action.other()),
                size as int,
            ).unwrap(),
    {
        match action {
            OrderAction::Bid => chain_cost(&self.asks, size),
            OrderAction::Ask => chain_cost(&self.bids, size),
        }
    }

    fn is_budget_satisfied(&self, action: OrderAction, calculated: i64, limit: i64) -> (r: bool)
        ensures
            r == model::within_budget(action, calculated as int, limit as int),
    {
        calculated != i64::MAX && (calculated == limit || (action == OrderAction::Bid) != (
        calculated > limit))
    }

    fn place_fok_budget(&mut self, cmd: &mut OrderCommand)
        requires
            old(self).wf(),
            old(cmd).size >= 0,
            model::placed_fok_budget(old(self)@, *old(cmd)).fits,
        ensures
            final(self).wf(),
            final(self)@ == model::placed_fok_budget(old(self)@, *old(cmd)).book,
            model::told(*old(cmd), *final(cmd), model::placed_fok_budget(old(self)@, *old(cmd))),
    {
        let budget = self.check_budget_to_fill(cmd.size, cmd.action);
        let affordable: bool = match budget {
            Some(calculated) => self.is_budget_satisfied(cmd.action, calculated, cmd.price),
            None => false,
        };
        if affordable {
            let limit: Price = match cmd.action {
                OrderAction::Bid => i64::MAX,
                OrderAction::Ask => i64::MIN,
            };
            self.place_at_once(cmd, limit);
        } else {
            cmd.matcher_events.push(
                MatcherTradeEvent::new_reject(cmd.size, cmd.price, cmd.reserve_price),
            );
            assert(cmd.matcher_events@ =~= old(cmd).matcher_events@ + model::placed_fok_budget(
                old(self)@,
                *old(cmd),
            ).events);
        }
    }

    /// A new order. Its size is not negative, and the sums that the machine forms
    /// fit.
    pub fn new_order(&mut self, cmd: &mut OrderCommand) -> (r: CommandResultCode)
        requires
            old(self).wf(),
            old(cmd).size >= 0,
            model::new_ordered(old(self)@, *old(cmd)).fits,
        ensures
            final(self).wf(),
            final(self)@ == model::new_ordered(old(self)@, *old(cmd)).book,
            r == model::new_ordered(old(self)@, *old(cmd)).code,
            model::told(*old(cmd), *final(cmd), model::new_ordered(old(self)@, *old(cmd))),
    {
        proof {
            assert(cmd.matcher_events@ + Seq::<MatcherTradeEvent>::empty() =~= cmd.matcher_events@);
        }
        if self.spot_of(cmd.order_id).is_some() {
            return CommandResultCode::MatchingDuplicateOrderId;
        }
        match cmd.order_type {
            OrderType::Gtc => {
                self.place_gtc(cmd);
                CommandResultCode::Success
            },
            OrderType::Ioc => {
                self.place_ioc(cmd);
                CommandResultCode::Success
            },
            OrderType::FokBudget => {
                self.place_fok_budget(cmd);
                CommandResultCode::Success
            },
            _ => CommandResultCode::MatchingUnsupportedCommand,
        }
    }

    /// The owner takes an order out of the book.
    pub fn cancel_order(&mut self, cmd: &mut OrderCommand) -> (r: CommandResultCode)
        requires
            old(self).wf(),
        ensures
            final(self).wf(),
            final(self)@ == model::cancelled(old(self)@, *old(cmd)).book,
            r == model::cancelled(old(self)@, *old(cmd)).code,
            model::told(*old(cmd), *final(cmd), model::cancelled(old(self)@, *old(cmd))),
    {
        proof {
            assert(cmd.matcher_events@ + Seq::<MatcherTradeEvent>::empty() =~= cmd.matcher_events@);
        }
        let spot = match self.spot_of(cmd.order_id) {
            Some(spot) => spot,
            None => {
                return CommandResultCode::MatchingUnknownOrderId;
            },
        };
        let order = self.order_at(cmd.order_id, spot);
        if order.uid != cmd.uid {
            return CommandResultCode::MatchingUnknownOrderId;
        }
        let gone = self.remove_order(cmd.order_id, spot);
        cmd.action = order.action;
        cmd.matcher_events.push(
            MatcherTradeEvent::new_reject(
                order.size - order.filled,
                order.price,
                order.reserve_price,
            ),
        );
        assert(cmd.matcher_events@ =~= old(cmd).matcher_events@ + model::cancelled(
            old(self)@,
            *old(cmd),
        ).events);
        CommandResultCode::Success
    }

    /// Moves an order to a new price. Only what it still wants is matched again.
    pub fn move_order(&mut self, cmd: &mut OrderCommand) -> (r: CommandResultCode)
        requires
            old(self).wf(),
            model::moved(old(self)@, *old(cmd)).fits,
        ensures
            final(self).wf(),
            final(self)@ == model::moved(old(self)@, *old(cmd)).book,
            r == model::moved(old(self)@, *old(cmd)).code,
            model::told(*old(cmd), *final(cmd), model::moved(old(self)@, *old(cmd))),
    {
        proof {
            assert(cmd.matcher_events@ + Seq::<MatcherTradeEvent>::empty() =~= cmd.matcher_events@);
        }
        let spot = match self.spot_of(cmd.order_id) {
            Some(spot) => spot,
            None => {
                return CommandResultCode::MatchingUnknownOrderId;
            },
        };
        if cmd.price <= 0 {
            return CommandResultCode::RiskInvalidOrderParams;
        }
        let order = self.order_at(cmd.order_id, spot);
        if order.uid != cmd.uid {
            return CommandResultCode::MatchingUnknownOrderId;
        }
        if self.symbol_spec.symbol_type == SymbolType::CurrencyExchangePair && order.action
            == OrderAction::Bid && cmd.price > order.reserve_price {
            return CommandResultCode::RiskInvalidReserveBidPrice;
        }
        let gone = self.remove_order(cmd.order_id, spot);
        cmd.action = order.action;
        let taker = Taker {
            uid: order.uid,
            action: order.action,
            limit: cmd.price,
            reserve_price: order.reserve_price,
            stp: self.symbol_spec.stp,
        };
        let wanted: i64 = order.size - order.filled;
        let r = self.try_match(&taker, wanted, &mut cmd.matcher_events);
        let total_filled: i64 = order.filled + r.filled;
        if total_filled < order.size {
            if r.taker_aborted {
                cmd.matcher_events.push(
                    MatcherTradeEvent::new_reject(
                        order.size - total_filled,
                        cmd.price,
                        order.reserve_price,
                    ),
                );
            } else {
                let mut next = order;
                next.price = cmd.price;
                next.filled = total_filled;
                self.insert_order(next);
            }
        }
        assert(cmd.matcher_events@ =~= old(cmd).matcher_events@ + model::moved(
            old(self)@,
            *old(cmd),
        ).events);
        CommandResultCode::Success
    }

    /// Makes an order smaller. It keeps its place, or leaves where nothing is left.
    pub fn reduce_order(&mut self, cmd: &mut OrderCommand) -> (r: CommandResultCode)
        requires
            old(self).wf(),
        ensures
            final(self).wf(),
            final(self)@ == model::reduced(old(self)@, *old(cmd)).book,
            r == model::reduced(old(self)@, *old(cmd)).code,
            model::told(*old(cmd), *final(cmd), model::reduced(old(self)@, *old(cmd))),
    {
        proof {
            assert(cmd.matcher_events@ + Seq::<MatcherTradeEvent>::empty() =~= cmd.matcher_events@);
        }
        let spot = match self.spot_of(cmd.order_id) {
            Some(spot) => spot,
            None => {
                return CommandResultCode::MatchingUnknownOrderId;
            },
        };
        if cmd.size <= 0 {
            return CommandResultCode::MatchingInvalidOrderSize;
        }
        let order = self.order_at(cmd.order_id, spot);
        if order.uid != cmd.uid {
            return CommandResultCode::MatchingUnknownOrderId;
        }
        let remaining: i64 = order.size - order.filled;
        let reduce_by: i64 = if remaining < cmd.size {
            remaining
        } else {
            cmd.size
        };
        if reduce_by == remaining {
            let gone = self.remove_order(cmd.order_id, spot);
        } else {
            let mut next = order;
            next.size = order.size - reduce_by;
            proof {
                self.lemma_lookup(cmd.order_id);
            }
            match spot.action {
                OrderAction::Ask => shrink(
                    OrderAction::Ask,
                    &mut self.asks,
                    &self.order_id_index,
                    spot.handle,
                    next,
                ),
                OrderAction::Bid => shrink(
                    OrderAction::Bid,
                    &mut self.bids,
                    &self.order_id_index,
                    spot.handle,
                    next,
                ),
            }
        }
        cmd.action = order.action;
        cmd.matcher_events.push(
            MatcherTradeEvent::new_reject(reduce_by, order.price, order.reserve_price),
        );
        assert(cmd.matcher_events@ =~= old(cmd).matcher_events@ + model::reduced(
            old(self)@,
            *old(cmd),
        ).events);
        CommandResultCode::Success
    }

    pub fn get_symbol_spec(&self) -> (r: &CoreSymbolSpecification)
        ensures
            *r == self@.spec,
    {
        &self.symbol_spec
    }

    /// The best levels of both sides, as many as the depth says.
    pub fn get_l2_data(&self, depth: usize) -> (r: L2MarketData)
        requires
            self.wf(),
        ensures
            shows(self@.asks, depth, r.ask_prices@, r.ask_volumes@, r.ask_order_counts@),
            shows(self@.bids, depth, r.bid_prices@, r.bid_volumes@, r.bid_order_counts@),
    {
        let mut data = L2MarketData::new(depth);
        chain_levels(
            OrderAction::Ask,
            &self.asks,
            depth,
            &mut data.ask_prices,
            &mut data.ask_volumes,
            &mut data.ask_order_counts,
        );
        chain_levels(
            OrderAction::Bid,
            &self.bids,
            depth,
            &mut data.bid_prices,
            &mut data.bid_volumes,
            &mut data.bid_order_counts,
        );
        data
    }

    /// Price and side of an order of the book.
    pub fn get_order_by_id(&self, order_id: OrderId) -> (r: Option<(Price, OrderAction)>)
        requires
            self.wf(),
        ensures
            r == (if self@.has(order_id) {
                Some((self@.order(order_id).price, self@.order(order_id).action))
            } else {
                None
            }),
    {
        match self.spot_of(order_id) {
            Some(spot) => {
                let order = self.order_at(order_id, spot);
                Some((order.price, order.action))
            },
            None => None,
        }
    }

    /// What the asks want together. The sum fits.
    pub fn get_total_ask_volume(&self) -> (r: Size)
        requires
            self.wf(),
            model::total(self@.asks) <= i64::MAX,
        ensures
            r == model::total(self@.asks),
    {
        chain_total(OrderAction::Ask, &self.asks)
    }

    /// What the bids want together. The sum fits.
    pub fn get_total_bid_volume(&self) -> (r: Size)
        requires
            self.wf(),
            model::total(self@.bids) <= i64::MAX,
        ensures
            r == model::total(self@.bids),
    {
        chain_total(OrderAction::Bid, &self.bids)
    }

    pub fn get_ask_buckets_count(&self) -> (r: usize)
        requires
            self.wf(),
        ensures
            r == model::prices(self@.asks).len(),
    {
        proof {
            lemma_prices_agree(self.asks@, OrderAction::Ask);
        }
        self.asks.level_count()
    }

    pub fn get_bid_buckets_count(&self) -> (r: usize)
        requires
            self.wf(),
        ensures
            r == model::prices(self@.bids).len(),
    {
        proof {
            lemma_prices_agree(self.bids@, OrderAction::Bid);
        }
        self.bids.level_count()
    }
}

/// Depth of one side: the best prices, each with what its orders want together and
/// with their number.
pub open spec fn shows(
    q: Seq<DirectOrder>,
    depth: usize,
    prices: Seq<Price>,
    volumes: Seq<Size>,
    counts: Seq<usize>,
) -> bool {
    &&& prices.len() == model::smaller(depth as int, model::prices(q).len() as int)
    &&& volumes.len() == prices.len()
    &&& counts.len() == prices.len()
    &&& forall|i: int|
        0 <= i < prices.len() ==> {
            &&& (#[trigger] prices[i]) == model::prices(q)[i]
            &&& volumes[i] == model::volume_at(q, prices[i])
            &&& counts[i] == model::count_at(q, prices[i])
        }
}

/// Lists the best levels of a chain.
fn chain_levels(
    action: OrderAction,
    chain: &PriceLadder<DirectOrder>,
    depth: usize,
    prices: &mut Vec<Price>,
    volumes: &mut Vec<Size>,
    counts: &mut Vec<usize>,
)
    requires
        chain.wf(),
        side_ok(chain@, action),
        old(prices)@.len() == 0,
        old(volumes)@.len() == 0,
        old(counts)@.len() == 0,
    ensures
        shows(orders(chain@), depth, final(prices)@, final(volumes)@, final(counts)@),
{
    let ghost q = orders(chain@);
    proof {
        lemma_prices_agree(chain@, action);
    }
    let levels: usize = chain.level_count();
    let n: usize = if depth < levels {
        depth
    } else {
        levels
    };
    let mut i: usize = 0;
    while i < n
        invariant
            chain.wf(),
            side_ok(chain@, action),
            q == orders(chain@),
            i <= n,
            n <= model::prices(q).len(),
            ladder::ranks(chain@).len() == model::prices(q).len(),
            forall|j: int|
                0 <= j < ladder::ranks(chain@).len() ==> (#[trigger] ladder::ranks(chain@)[j])
                    == model::rank_of(action, model::prices(q)[j]),
            prices@.len() == i,
            volumes@.len() == i,
            counts@.len() == i,
            forall|j: int|
                0 <= j < i ==> {
                    &&& (#[trigger] prices@[j]) == model::prices(q)[j]
                    &&& volumes@[j] == model::volume_at(q, prices@[j])
                    &&& counts@[j] == model::count_at(q, prices@[j])
                },
        decreases n - i,
    {
        let level = chain.level_at(i);
        let price: i64 = match action {
            OrderAction::Ask => level.0,
            OrderAction::Bid => -1 - level.0,
        };
        proof {
            assert(ladder::ranks(chain@)[i as int] == model::rank_of(
                action,
                model::prices(q)[i as int],
            ));
            lemma_tallies_agree(chain@, action, price);
        }
        prices.push(price);
        volumes.push(level.1);
        counts.push(level.2);
        i = i + 1;
    }
}

/// The orders of a chain as a list.
fn chain_orders(chain: &PriceLadder<DirectOrder>) -> (r: Vec<DirectOrder>)
    requires
        chain.wf(),
    ensures
        r@ == orders(chain@),
{
    let mut out: Vec<DirectOrder> = Vec::new();
    let mut cursor: Option<usize> = chain.front();
    loop
        invariant
            chain.wf(),
            out@.len() <= chain@.len(),
            cursor == (if out@.len() < chain@.len() {
                Some(chain@[out@.len() as int].handle)
            } else {
                None
            }),
            out@ == orders(chain@).take(out@.len() as int),
        decreases chain@.len() - out@.len(),
    {
        let handle: usize = match cursor {
            Some(h) => h,
            None => {
                assert(out@ =~= orders(chain@));
                return out;
            },
        };
        let ghost k = out@.len() as int;
        proof {
            chain.lemma_place(k);
        }
        out.push(chain.get(handle).value);
        assert(out@ =~= orders(chain@).take(k + 1));
        cursor = chain.behind(handle);
    }
}

/// What is wanted at a price is a machine word.
proof fn lemma_side_volumes(action: OrderAction, chain: PriceLadder<DirectOrder>)
    requires
        chain.wf(),
        side_ok(chain@, action),
    ensures
        state::volumes_fit(orders(chain@)),
{
    assert forall|p: Price| #[trigger] model::volume_at(orders(chain@), p) <= i64::MAX by {
        lemma_tallies_agree(chain@, action, p);
        chain.lemma_volume_fits(model::rank_of(action, p));
    }
}

/// Nothing is wanted at a price that no order has.
proof fn lemma_no_volume(q: Seq<DirectOrder>, price: Price)
    requires
        forall|i: int| 0 <= i < q.len() ==> (#[trigger] q[i]).price != price,
    ensures
        model::volume_at(q, price) == 0,
    decreases q.len(),
{
    if q.len() > 0 {
        assert(q[q.len() - 1].price != price);
        assert forall|i: int| 0 <= i < q.drop_last().len() implies (#[trigger] q.drop_last()[i]).price
            != price by {
            assert(q.drop_last()[i] == q[i]);
        }
        lemma_no_volume(q.drop_last(), price);
    }
}

/// The first orders want no more at a price than all.
proof fn lemma_volume_grows(q: Seq<DirectOrder>, action: OrderAction, k: int, price: Price)
    requires
        0 <= k <= q.len(),
        forall|i: int| 0 <= i < q.len() ==> model::order_ok(#[trigger] q[i], action),
    ensures
        model::volume_at(q.take(k), price) <= model::volume_at(q, price),
    decreases q.len(),
{
    if k == q.len() {
        assert(q.take(k) =~= q);
    } else {
        let rest = q.drop_last();
        assert(model::order_ok(q[q.len() - 1], action));
        assert forall|i: int| 0 <= i < rest.len() implies model::order_ok(
            #[trigger] rest[i],
            action,
        ) by {
            assert(rest[i] == q[i]);
        }
        lemma_volume_grows(rest, action, k, price);
        assert(rest.take(k) =~= q.take(k));
    }
}

/// Whether saved orders can be a side of a book whose index knows the other side.
spec fn restorable(
    q: Seq<DirectOrder>,
    action: OrderAction,
    index: Map<u64, Spot>,
) -> bool {
    &&& model::side_orderly(q, action)
    &&& state::volumes_fit(q)
    &&& forall|i: int| 0 <= i < q.len() ==> !index.contains_key((#[trigger] q[i]).order_id)
}

/// Puts saved orders back into an empty chain, and tells whether they can stand there.
fn restore_side(
    action: OrderAction,
    saved: &Vec<DirectOrder>,
    chain: &mut PriceLadder<DirectOrder>,
    index: &mut KeyedMap<Spot>,
) -> (r: bool)
    requires
        old(chain).wf(),
        old(chain)@.len() == 0,
        old(index).wf(),
        tracks(old(index)@, action, old(chain)@),
    ensures
        r == restorable(saved@, action, old(index)@),
        r ==> {
            &&& final(chain).wf()
            &&& final(index).wf()
            &&& side_ok(final(chain)@, action)
            &&& tracks(final(index)@, action, final(chain)@)
            &&& same_elsewhere(old(index)@, final(index)@, action)
            &&& orders(final(chain)@) == saved@
        },
{
    let ghost q = saved@;
    let ghost index0 = index@;
    // What the orders so far want at the price of the last one.
    let mut volume: i64 = 0;
    let mut i: usize = 0;
    proof {
        assert(orders(chain@) =~= q.take(0));
    }
    while i < saved.len()
        invariant
            q == saved@,
            i <= q.len(),
            chain.wf(),
            index.wf(),
            side_ok(chain@, action),
            tracks(index@, action, chain@),
            tracks(index0, action, Seq::empty()),
            same_elsewhere(index0, index@, action),
            orders(chain@) == q.take(i as int),
            i > 0 ==> volume == model::volume_at(q.take(i as int), q[i - 1].price),
            forall|j: int| 0 <= j < i ==> model::order_ok(#[trigger] q[j], action),
            forall|j: int| 0 <= j < i ==> !index0.contains_key((#[trigger] q[j]).order_id),
            index0 == old(index)@,
        decreases q.len() - i,
    {
        let order = saved[i];
        let ghost before = q.take(i as int);
        let ghost now = q.take(i + 1);
        let ghost orderly = model::side_orderly(q, action);
        proof {
            assert(now.drop_last() =~= before);
            if orderly {
                assert(model::order_ok(q[i as int], action));
            }
        }
        if order.action != action || order.filled < 0 || order.filled >= order.size {
            return false;
        }
        let wanted: i64 = order.size - order.filled;
        let mut at_price: i64 = 0;
        if i > 0 {
            let ahead: i64 = rank(action, saved[i - 1].price);
            let here: i64 = rank(action, order.price);
            if here < ahead {
                assert(model::rank_of(action, q[i - 1].price) > model::rank_of(
                    action,
                    q[i as int].price,
                ));
                return false;
            }
            if here == ahead {
                at_price = volume;
            }
        }
        proof {
            lemma_side_orderly(index@, action, *chain);
            assert(before =~= orders(chain@));
            assert(before.len() == i);
            if i > 0 {
                assert(before[i - 1] == q[i - 1]);
            }
            if i == 0 || model::rank_of(action, q[i - 1].price) < model::rank_of(
                action,
                order.price,
            ) {
                assert forall|j: int| 0 <= j < before.len() implies (#[trigger] before[j]).price
                    != order.price by {
                    assert(model::rank_of(action, before[j].price) <= model::rank_of(
                        action,
                        before[i - 1].price,
                    ));
                }
                lemma_no_volume(before, order.price);
            }
            assert(at_price == model::volume_at(before, order.price));
            assert(now.last() == order);
            if orderly {
                lemma_volume_grows(q, action, i + 1, order.price);
            }
            lemma_side_volumes(action, *chain);
            assert(model::volume_at(before, order.price) >= 0) by {
                lemma_tallies_agree(chain@, action, order.price);
            }
        }
        if index.contains_key(order.order_id) {
            proof {
                let id = order.order_id;
                if index@[id].action == action {
                    let l = chain@;
                    let j = choose|j: int|
                        0 <= j < l.len() && (#[trigger] l[j]).handle == index@[id].handle
                            && l[j].value.order_id == id;
                    assert(orders(l)[j].order_id == id);
                    assert(q[j].order_id == q[i as int].order_id);
                } else {
                    assert(index0.contains_key(id));
                    assert(index0.contains_key(q[i as int].order_id));
                }
            }
            return false;
        }
        volume = match at_price.checked_add(wanted) {
            Some(v) => v,
            None => {
                assert(model::volume_at(now, order.price) > i64::MAX);
                return false;
            },
        };
        proof {
            assert(!index0.contains_key(order.order_id)) by {
                if index0.contains_key(order.order_id) {
                    assert(index0[order.order_id].action != action);
                }
            }
            assert(model::slot_of(before, model::rank_of(action, order.price)) == i);
            assert(before.insert(i as int, order) =~= now);
        }
        let ghost index1 = index@;
        rest(action, chain, index, order);
        proof {
            assert(same_elsewhere(index0, index@, action)) by {
                assert forall|id: u64| #[trigger]
                    index0.contains_key(id) && index0[id].action != action implies index@.contains_key(
                    id,
                ) && index@[id] == index0[id] by {
                    assert(index1.contains_key(id));
                }
                assert forall|id: u64| #[trigger]
                    index@.contains_key(id) && index@[id].action != action implies index0.contains_key(
                    id,
                ) && index0[id] == index@[id] by {
                    assert(index1.contains_key(id));
                }
            }
        }
        i = i + 1;
    }
    proof {
        assert(q.take(i as int) =~= q);
        lemma_side_orderly(index@, action, *chain);
        lemma_side_volumes(action, *chain);
    }
    true
}

/// What the orders of a chain want together.
fn chain_total(action: OrderAction, chain: &PriceLadder<DirectOrder>) -> (r: Size)
    requires
        chain.wf(),
        side_ok(chain@, action),
        model::total(orders(chain@)) <= i64::MAX,
    ensures
        r == model::total(orders(chain@)),
{
    let ghost q = orders(chain@);
    let ghost mut k: int = 0;
    let mut sum: i64 = 0;
    let mut cursor: Option<usize> = chain.front();
    proof {
        assert(q.skip(0) =~= q);
    }
    loop
        invariant
            chain.wf(),
            side_ok(chain@, action),
            q == orders(chain@),
            0 <= k <= chain@.len(),
            cursor == (if k < chain@.len() {
                Some(chain@[k].handle)
            } else {
                None
            }),
            sum + model::total(q.skip(k)) == model::total(q),
            model::total(q) <= i64::MAX,
            sum >= 0,
        decreases chain@.len() - k,
    {
        let handle: usize = match cursor {
            Some(h) => h,
            None => {
                return sum;
            },
        };
        proof {
            chain.lemma_place(k);
            assert(entry_ok(chain@[k], action));
            assert(q.skip(k).first() == q[k]);
            assert(q.skip(k).drop_first() =~= q.skip(k + 1));
            assert forall|i: int| 0 <= i < q.len() implies model::left(#[trigger] q[i]) > 0 by {
                assert(entry_ok(chain@[i], action));
            }
            lemma_total_positive(q.skip(k + 1));
        }
        sum = sum + chain.get(handle).qty;
        cursor = chain.behind(handle);
        proof {
            k = k + 1;
        }
    }
}

proof fn lemma_total_positive(q: Seq<DirectOrder>)
    requires
        forall|i: int| 0 <= i < q.len() ==> model::left(#[trigger] q[i]) > 0,
    ensures
        model::total(q) >= 0,
    decreases q.len(),
{
    if q.len() > 0 {
        assert(model::left(q[0]) > 0);
        assert forall|i: int| 0 <= i < q.drop_first().len() implies model::left(
            #[trigger] q.drop_first()[i],
        ) > 0 by {
            assert(q.drop_first()[i] == q[i + 1]);
        }
        lemma_total_positive(q.drop_first());
    }
}

/// What it costs to take a size from a chain.
fn chain_cost(chain: &PriceLadder<DirectOrder>, size: Size) -> (r: Option<i64>)
    requires
        chain.wf(),
        side_ok(chain@, OrderAction::Ask) || side_ok(chain@, OrderAction::Bid),
        size >= 0,
        model::cost(orders(chain@), size as int) matches Some(n) ==> i64::MIN <= n <= i64::MAX,
    ensures
        r.is_some() == model::cost(orders(chain@), size as int).is_some(),
        r matches Some(n) ==> n == model::cost(orders(chain@), size as int).unwrap(),
{
    let ghost q = orders(chain@);
    let ghost c = model::cost(q, size as int);
    let ghost mut k: int = 0;
    let mut budget: i128 = 0;
    let mut wanted: i64 = size;
    let mut cursor: Option<usize> = chain.front();
    proof {
        assert(q.skip(0) =~= q);
    }
    loop
        invariant
            chain.wf(),
            side_ok(chain@, OrderAction::Ask) || side_ok(chain@, OrderAction::Bid),
            q == orders(chain@),
            0 <= k <= chain@.len(),
            cursor == (if k < chain@.len() {
                Some(chain@[k].handle)
            } else {
                None
            }),
            0 <= wanted <= size,
            c == model::cost(q, size as int),
            c matches Some(n) ==> i64::MIN <= n <= i64::MAX,
            c == (match model::cost(q.skip(k), wanted as int) {
                Some(n) => Some(budget + n),
                None => None,
            }),
            -0x8000_0000_0000_0000 * (size - wanted) <= budget,
            budget <= 0x8000_0000_0000_0000 * (size - wanted),
        decreases chain@.len() - k,
    {
        let handle: usize = match cursor {
            Some(h) => h,
            None => {
                return None;
            },
        };
        proof {
            chain.lemma_place(k);
            assert(entry_ok(chain@[k], OrderAction::Ask) || entry_ok(chain@[k], OrderAction::Bid));
            assert(q.skip(k)[0] == q[k]);
            assert(q.skip(k).drop_first() =~= q.skip(k + 1));
        }
        let order = chain.get(handle).value;
        let available: i64 = order.size - order.filled;
        let taken: i64 = if wanted > available {
            available
        } else {
            wanted
        };
        let price: i64 = order.price;
        assert(-0x8000_0000_0000_0000 * taken <= taken * price <= 0x8000_0000_0000_0000 * taken)
            by (nonlinear_arith)
            requires
                taken >= 0,
                -0x8000_0000_0000_0000 <= price <= 0x8000_0000_0000_0000,
        ;
        let part: i128 = taken as i128 * price as i128;
        if wanted > available {
            wanted = wanted - available;
            budget = budget + part;
            cursor = chain.behind(handle);
            proof {
                k = k + 1;
            }
        } else {
            return Some((budget + part) as i64);
        }
    }
}

} // verus!
