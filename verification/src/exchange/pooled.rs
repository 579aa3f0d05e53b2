//! What the pooled book is for: an order gets what it wants from the best levels on, at prices that
//! it takes, and what is left rests or leaves.
use vstd::prelude::*;

use crate::exchange::api::{
    CommandResultCode, MatcherEventType, MatcherTradeEvent, OrderAction, OrderCommand, OrderId,
    OrderType, Price, Size,
};
use crate::exchange::laws;
use crate::exchange::model;
use crate::exchange::moves;
use crate::exchange::optimized;
use crate::exchange::optimized::{
    OptimizedModel, PoolModel, PriceBucket, Slot, Sweep, Terms,
};

verus! {

/// Whether events are trades at one price, of sizes that are not negative.
spec fn trades_at(events: Seq<MatcherTradeEvent>, price: Price) -> bool {
    forall|i: int|
        0 <= i < events.len() ==> {
            &&& (#[trigger] events[i]).event_type == MatcherEventType::Trade
            &&& events[i].price == price
            &&& events[i].size >= 0
        }
}

/// What is wanted of a level and what it gives.
spec fn level_fair(need: int, left: int, events: Seq<MatcherTradeEvent>, price: Price) -> bool {
    &&& trades_at(events, price)
    &&& laws::traded(events) + left == need
    &&& need >= 0 ==> 0 <= left
    &&& left <= need
}

proof fn lemma_one_more(e: MatcherTradeEvent, rest: Seq<MatcherTradeEvent>, price: Price)
    requires
        e.event_type == MatcherEventType::Trade,
        e.price == price,
        e.size >= 0,
        trades_at(rest, price),
    ensures
        trades_at(seq![e] + rest, price),
        laws::traded(seq![e] + rest) == e.size + laws::traded(rest),
{
    laws::lemma_traded_front(e, rest);
    let all = seq![e] + rest;
    assert forall|i: int| 0 <= i < all.len() implies {
        &&& (#[trigger] all[i]).event_type == MatcherEventType::Trade
        &&& all[i].price == price
        &&& all[i].size >= 0
    } by {
        if i > 0 {
            assert(all[i] == rest[i - 1]);
        }
    }
}

spec fn in_pool(q: Seq<usize>, slots: nat) -> bool {
    forall|i: int| 0 <= i < q.len() ==> (#[trigger] q[i]) < slots
}

proof fn lemma_in_pool(q: Seq<usize>, slots: nat)
    requires
        in_pool(q, slots),
        q.len() > 0,
    ensures
        in_pool(q.drop_first(), slots),
        q[0] < slots,
{
    assert forall|i: int| 0 <= i < q.drop_first().len() implies (#[trigger] q.drop_first()[i])
        < slots by {
        assert(q.drop_first()[i] == q[i + 1]);
    }
}

/// What the orders in some slots have got together.
pub open spec fn held(slots: Seq<Slot>) -> int
    decreases slots.len(),
{
    if slots.len() == 0 {
        0
    } else {
        held(slots.drop_last()) + slots.last().filled
    }
}

proof fn lemma_held(slots: Seq<Slot>, i: int, s: Slot)
    requires
        0 <= i < slots.len(),
    ensures
        held(slots.update(i, s)) == held(slots) + s.filled - slots[i].filled,
    decreases slots.len(),
{
    let t = slots.update(i, s);
    if i == slots.len() - 1 {
        assert(t.drop_last() =~= slots.drop_last());
    } else {
        assert(t.drop_last() =~= slots.drop_last().update(i, s));
        lemma_held(slots.drop_last(), i, s);
    }
}

/// Whether a sweep gives slots back only, and what it trades goes to the orders in them.
spec fn keeps(p: PoolModel, w: Sweep) -> bool {
    &&& w.pool.free.len() >= p.free.len()
    &&& held(w.pool.slots) == held(p.slots) + laws::traded(w.events)
}

proof fn lemma_filled(p: PoolModel, i: usize, n: int, id: OrderId)
    requires
        optimized::pool_ok(p),
        i < p.slots.len(),
        0 <= n <= p.slots[i as int].size - p.slots[i as int].filled,
    ensures
        optimized::pool_ok(p.fill(i, n)),
        p.fill(i, n).slots.len() == p.slots.len(),
        optimized::pool_ok(p.fill(i, n).forget(id).release(i)),
        p.fill(i, n).forget(id).release(i).slots.len() == p.slots.len(),
        held(p.fill(i, n).slots) == held(p.slots) + n,
        held(p.fill(i, n).forget(id).release(i).slots) == held(p.slots) + n,
{
    lemma_held(p.slots, i as int, p.fill(i, n).slots[i as int]);
    lemma_held(
        p.fill(i, n).slots,
        i as int,
        p.fill(i, n).forget(id).release(i).slots[i as int],
    );
    let a = p.fill(i, n).slots;
    assert(0 <= p.slots[i as int].filled <= p.slots[i as int].size);
    assert forall|k: int| 0 <= k < a.len() implies {
        &&& 0 <= (#[trigger] a[k]).filled <= a[k].size
        &&& a[k].next matches Some(x) ==> x < a.len()
    } by {
        assert(0 <= p.slots[k].filled <= p.slots[k].size);
    }
    let b = p.fill(i, n).forget(id).release(i);
    assert forall|k: int| 0 <= k < b.slots.len() implies {
        &&& 0 <= (#[trigger] b.slots[k]).filled <= b.slots[k].size
        &&& b.slots[k].next matches Some(x) ==> x < b.slots.len()
    } by {
        assert(0 <= a[k].filled <= a[k].size);
    }
    assert forall|k: int| 0 <= k < b.free.len() implies (#[trigger] b.free[k]) < b.slots.len() by {
        if k < p.free.len() {
            assert(b.free[k] == p.free[k]);
        }
    }
    assert forall|k: OrderId| #[trigger] b.index.contains_key(k) implies b.index[k]
        < b.slots.len() by {
        assert(p.index.contains_key(k));
    }
}

proof fn lemma_singly(p: PoolModel, q: Seq<usize>, need: int, price: Price, t: Terms)
    requires
        optimized::pool_ok(p),
        in_pool(q, p.slots.len()),
        need <= i64::MAX,
    ensures
        ({
            let f = optimized::filled_singly(p, q, need, price, t);
            &&& level_fair(need, f.need, f.events, price)
            &&& optimized::pool_ok(f.pool)
            &&& f.pool.free.len() >= p.free.len()
            &&& held(f.pool.slots) == held(p.slots) + laws::traded(f.events)
            &&& f.pool.slots.len() == p.slots.len()
        }),
    decreases q.len(),
{
    let f = optimized::filled_singly(p, q, need, price, t);
    if q.len() > 0 && need > 0 {
        lemma_in_pool(q, p.slots.len());
        let s = p.slots[q[0] as int];
        assert(0 <= s.filled <= s.size);
        let n = model::smaller(need, optimized::left(s));
        let p1 = p.fill(q[0], n);
        let p2 = if n == optimized::left(s) {
            p1.forget(s.order_id).release(q[0])
        } else {
            p1
        };
        lemma_filled(p, q[0], n, s.order_id);
        lemma_singly(p2, q.drop_first(), need - n, price, t);
        let rest = optimized::filled_singly(p2, q.drop_first(), need - n, price, t);
        lemma_one_more(optimized::trade_at(t, price, s, n), rest.events, price);
    }
}

proof fn lemma_together(p: PoolModel, q: Seq<usize>, need: int, price: Price, t: Terms)
    requires
        optimized::pool_ok(p),
        in_pool(q, p.slots.len()),
        need <= i64::MAX,
    ensures
        ({
            let f = optimized::filled_together(p, q, need, price, t);
            &&& level_fair(need, f.need, f.events, price)
            &&& optimized::pool_ok(f.pool)
            &&& f.pool.free.len() >= p.free.len()
            &&& held(f.pool.slots) == held(p.slots) + laws::traded(f.events)
            &&& f.pool.slots.len() == p.slots.len()
        }),
    decreases q.len(),
{
    if q.len() > 0 {
        lemma_in_pool(q, p.slots.len());
        let s = p.slots[q[0] as int];
        assert(0 <= s.filled <= s.size);
        let n = model::smaller(need, optimized::left(s));
        if n > 0 {
            lemma_filled(p, q[0], n, s.order_id);
            lemma_together(p.fill(q[0], n), q.drop_first(), need - n, price, t);
            let rest = optimized::filled_together(
                p.fill(q[0], n),
                q.drop_first(),
                need - n,
                price,
                t,
            );
            lemma_one_more(optimized::trade_at(t, price, s, n), rest.events, price);
        } else {
            lemma_together(p, q.drop_first(), need, price, t);
        }
    }
}

proof fn lemma_walk(slots: Seq<Slot>, at: usize, steps: nat)
    requires
        optimized::slots_ok(slots),
        at < slots.len(),
    ensures
        in_pool(optimized::walk(slots, at, steps), slots.len()),
    decreases steps,
{
    if steps > 0 && slots[at as int].active {
        match slots[at as int].next {
            None => {},
            Some(n) => {
                lemma_walk(slots, n, (steps - 1) as nat);
                let w = optimized::walk(slots, n, (steps - 1) as nat);
                let q = seq![at] + w;
                assert forall|i: int| 0 <= i < q.len() implies (#[trigger] q[i]) < slots.len() by {
                    if i > 0 {
                        assert(q[i] == w[i - 1]);
                    }
                }
            },
        }
    }
}

proof fn lemma_passed(
    p: PoolModel,
    b: PriceBucket,
    volume: int,
    num_orders: int,
    at: usize,
    need: int,
    t: Terms,
)
    requires
        optimized::pool_ok(p),
        need <= i64::MAX,
    ensures
        ({
            let f = optimized::passed(p, b, volume, num_orders, at, need, t);
            &&& level_fair(need, f.need, f.events, b.price)
            &&& optimized::pool_ok(f.pool)
            &&& f.pool.free.len() >= p.free.len()
            &&& held(f.pool.slots) == held(p.slots) + laws::traded(f.events)
            &&& f.pool.slots.len() == p.slots.len()
        }),
    decreases optimized::active_slots(p.slots),
{
    let s = p.slots[at as int];
    if need <= 0 || !(at < p.slots.len()) || !s.active {
    } else {
        assert(0 <= s.filled <= s.size);
        let n = model::smaller(need, optimized::left(s));
        let e = optimized::trade_at(t, b.price, s, n);
        let p1 = p.fill(at, n);
        lemma_filled(p, at, n, s.order_id);
        let f = optimized::passed(p, b, volume, num_orders, at, need, t);
        lemma_one_more(e, Seq::empty(), b.price);
        assert(seq![e] + Seq::<MatcherTradeEvent>::empty() =~= seq![e]);
        assert(laws::traded(Seq::<MatcherTradeEvent>::empty()) == 0);
        if n == optimized::left(s) {
            let p2 = p1.forget(s.order_id).release(at);
            optimized::lemma_active_same(p.slots, at as int, p1.slots[at as int]);
            optimized::lemma_active_released(p1.slots, at as int, p2.slots[at as int]);
            if let Some(x) = s.next {
                lemma_passed(p2, b, volume - n, num_orders - 1, x, need - n, t);
                let rest = optimized::passed(p2, b, volume - n, num_orders - 1, x, need - n, t);
                lemma_one_more(e, rest.events, b.price);
            }
        }
    }
}

/// Whether events are trades at prices that an order takes, better prices first.
pub open spec fn fair(events: Seq<MatcherTradeEvent>, action: OrderAction, limit: Price) -> bool {
    &&& forall|i: int|
        0 <= i < events.len() ==> {
            &&& (#[trigger] events[i]).event_type == MatcherEventType::Trade
            &&& events[i].size >= 0
            &&& moves::acceptable(action, limit, events[i].price)
        }
    &&& forall|i: int, j: int|
        0 <= i <= j < events.len() ==> moves::acceptable(
            action,
            (#[trigger] events[j]).price,
            (#[trigger] events[i]).price,
        )
}

/// Whether a sweep is fair, and its trades and what is still wanted make up what was wanted.
spec fn fair_sweep(w: Sweep, need: int, t: Terms) -> bool {
    &&& laws::traded(w.events) + w.need == need
    &&& need >= 0 ==> 0 <= w.need
    &&& fair(w.events, t.action, t.limit)
}

/// Whether all trades of a sweep are at one of the prices of a side.
spec fn from_side(events: Seq<MatcherTradeEvent>, side: Seq<PriceBucket>) -> bool {
    forall|i: int|
        0 <= i < events.len() ==> exists|k: int|
            0 <= k < side.len() && (#[trigger] side[k]).price == (#[trigger] events[i]).price
}

/// Whether the levels of a side stand from the best price on.
spec fn in_order(side: Seq<PriceBucket>, action: OrderAction) -> bool {
    forall|i: int, j: int|
        0 <= i < j < side.len() ==> moves::acceptable(
            action.other(),
            (#[trigger] side[j]).price,
            (#[trigger] side[i]).price,
        )
}

proof fn lemma_joined(
    events: Seq<MatcherTradeEvent>,
    rest: Sweep,
    need: int,
    left: int,
    side: Seq<PriceBucket>,
    t: Terms,
    w: Sweep,
)
    requires
        side.len() > 0,
        in_order(side, t.action.other()),
        moves::acceptable(t.action, t.limit, side[0].price),
        level_fair(need, left, events, side[0].price),
        fair_sweep(rest, left, t),
        from_side(rest.events, side.drop_first()),
        w.events == events + rest.events,
        w.need == rest.need,
    ensures
        fair_sweep(w, need, t),
        from_side(w.events, side),
{
    lemma_traded_join(events, rest.events);
    assert forall|i: int| 0 <= i < w.events.len() implies {
        &&& (#[trigger] w.events[i]).event_type == MatcherEventType::Trade
        &&& w.events[i].size >= 0
        &&& moves::acceptable(t.action, t.limit, w.events[i].price)
        &&& exists|k: int| 0 <= k < side.len() && (#[trigger] side[k]).price == w.events[i].price
    } by {
        if i < events.len() {
            assert(w.events[i] == events[i]);
            assert(side[0].price == events[i].price);
        } else {
            let r = rest.events[i - events.len()];
            assert(w.events[i] == r);
            let k = choose|k: int|
                0 <= k < side.drop_first().len() && (#[trigger] side.drop_first()[k]).price
                    == r.price;
            assert(side[k + 1].price == r.price);
        }
    }
    assert forall|i: int, j: int| 0 <= i <= j < w.events.len() implies moves::acceptable(
        t.action,
        (#[trigger] w.events[j]).price,
        (#[trigger] w.events[i]).price,
    ) by {
        if j < events.len() {
            assert(w.events[i] == events[i] && w.events[j] == events[j]);
        } else {
            let r = rest.events[j - events.len()];
            assert(w.events[j] == r);
            if i < events.len() {
                assert(w.events[i] == events[i]);
                let k = choose|k: int|
                    0 <= k < side.drop_first().len() && (#[trigger] side.drop_first()[k]).price
                        == r.price;
                assert(side[k + 1].price == r.price);
                assert(moves::acceptable(t.action, side[k + 1].price, side[0].price));
            } else {
                assert(w.events[i] == rest.events[i - events.len()]);
            }
        }
    }
}

proof fn lemma_traded_join(a: Seq<MatcherTradeEvent>, b: Seq<MatcherTradeEvent>)
    ensures
        laws::traded(a + b) == laws::traded(a) + laws::traded(b),
    decreases a.len(),
{
    if a.len() == 0 {
        assert(a + b =~= b);
    } else {
        let rest = a.drop_first();
        assert(a =~= seq![a[0]] + rest);
        assert(a + b =~= seq![a[0]] + (rest + b));
        laws::lemma_traded_front(a[0], rest);
        laws::lemma_traded_front(a[0], rest + b);
        lemma_traded_join(rest, b);
    }
}

proof fn lemma_in_order_rest(side: Seq<PriceBucket>, action: OrderAction)
    requires
        in_order(side, action),
        side.len() > 0,
    ensures
        in_order(side.drop_first(), action),
{
    let rest = side.drop_first();
    assert forall|i: int, j: int| 0 <= i < j < rest.len() implies moves::acceptable(
        action.other(),
        (#[trigger] rest[j]).price,
        (#[trigger] rest[i]).price,
    ) by {
        assert(rest[i] == side[i + 1] && rest[j] == side[j + 1]);
    }
}

spec fn heads_in(side: Seq<PriceBucket>, slots: nat) -> bool {
    forall|i: int| 0 <= i < side.len() ==> (#[trigger] side[i]).head < slots
}

proof fn lemma_swept(p: PoolModel, side: Seq<PriceBucket>, need: int, t: Terms)
    requires
        optimized::pool_ok(p),
        heads_in(side, p.slots.len()),
        in_order(side, t.action.other()),
        need <= i64::MAX,
    ensures
        fair_sweep(optimized::swept(p, side, need, t), need, t),
        from_side(optimized::swept(p, side, need, t).events, side),
        optimized::pool_ok(optimized::swept(p, side, need, t).pool),
        keeps(p, optimized::swept(p, side, need, t)),
    decreases side.len(),
{
    let w = optimized::swept(p, side, need, t);
    assert(laws::traded(Seq::<MatcherTradeEvent>::empty()) == 0);
    if side.len() == 0 || need <= 0 || !optimized::crosses(t, side[0].price) {
    } else {
        let b = side[0];
        let rest_side = side.drop_first();
        lemma_in_order_rest(side, t.action.other());
        assert forall|i: int| 0 <= i < rest_side.len() implies (#[trigger] rest_side[i]).head
            < p.slots.len() by {
            assert(rest_side[i] == side[i + 1]);
        }
        let q = optimized::chain(p.slots, b.head);
        lemma_walk(p.slots, b.head, p.slots.len());
        if q.len() == 0 {
            lemma_swept(p, rest_side, need, t);
            let rest = optimized::swept(p, rest_side, need, t);
            lemma_joined(Seq::empty(), rest, need, need, side, t, w);
        } else {
            let f = optimized::level_filled(p, b, need, t);
            lemma_singly(p, q, need, b.price, t);
            lemma_together(p, q, need, b.price, t);
            lemma_swept(f.pool, rest_side, f.need, t);
            let rest = optimized::swept(f.pool, rest_side, f.need, t);
            lemma_joined(f.events, rest, need, f.need, side, t, w);
        }
    }
}

proof fn lemma_swept_singly(p: PoolModel, side: Seq<PriceBucket>, need: int, t: Terms)
    requires
        optimized::pool_ok(p),
        heads_in(side, p.slots.len()),
        in_order(side, t.action.other()),
        need <= i64::MAX,
    ensures
        fair_sweep(optimized::swept_singly(p, side, need, t), need, t),
        from_side(optimized::swept_singly(p, side, need, t).events, side),
        optimized::pool_ok(optimized::swept_singly(p, side, need, t).pool),
        keeps(p, optimized::swept_singly(p, side, need, t)),
    decreases side.len(),
{
    let w = optimized::swept_singly(p, side, need, t);
    assert(laws::traded(Seq::<MatcherTradeEvent>::empty()) == 0);
    if side.len() == 0 || need <= 0 || !optimized::crosses(t, side[0].price) {
    } else {
        let b = side[0];
        let rest_side = side.drop_first();
        lemma_in_order_rest(side, t.action.other());
        assert forall|i: int| 0 <= i < rest_side.len() implies (#[trigger] rest_side[i]).head
            < p.slots.len() by {
            assert(rest_side[i] == side[i + 1]);
        }
        let f = optimized::passed(
            p,
            b,
            b.volume as int,
            b.num_orders as int,
            b.head,
            need,
            t,
        );
        lemma_passed(p, b, b.volume as int, b.num_orders as int, b.head, need, t);
        lemma_swept_singly(f.pool, rest_side, f.need, t);
        let rest = optimized::swept_singly(f.pool, rest_side, f.need, t);
        lemma_joined(f.events, rest, need, f.need, side, t, w);
    }
}

/// Whether pool and levels of a book fit together.
pub open spec fn sound(m: OptimizedModel) -> bool {
    &&& optimized::pool_ok(m.pool)
    &&& optimized::side_ok(m.asks, OrderAction::Ask, m.pool.slots.len())
    &&& optimized::side_ok(m.bids, OrderAction::Bid, m.pool.slots.len())
}

proof fn lemma_sweep(m: OptimizedModel, c: OrderCommand)
    requires
        sound(m),
        c.size >= 0,
    ensures
        fair_sweep(
            optimized::sweep_of(m, c),
            c.size as int,
            optimized::terms_of(c),
        ),
        optimized::pool_ok(optimized::sweep_of(m, c).pool),
        keeps(m.pool, optimized::sweep_of(m, c)),
{
    let side = m.side(c.action.other());
    let t = optimized::terms_of(c);
    assert forall|i: int, j: int| 0 <= i < j < side.len() implies moves::acceptable(
        t.action,
        (#[trigger] side[j]).price,
        (#[trigger] side[i]).price,
    ) by {
        assert(model::rank_of(c.action.other(), side[i].price) < model::rank_of(
            c.action.other(),
            side[j].price,
        ));
    }
    lemma_swept(m.pool, side, c.size as int, t);
    lemma_swept_singly(m.pool, side, c.size as int, t);
}

/// Whether an order stands in the pool as a command asked for it, so much of it filled.
pub open spec fn stands(m: OptimizedModel, c: OrderCommand, filled: int) -> bool {
    &&& m.pool.index.contains_key(c.order_id)
    &&& m.pool.index[c.order_id] < m.pool.slots.len()
    &&& {
        let s = m.pool.slots[m.pool.index[c.order_id] as int];
        &&& s.active
        &&& s.order_id == c.order_id
        &&& s.uid == c.uid
        &&& s.action == c.action
        &&& s.price == c.price
        &&& s.reserve_price == c.reserve_price
        &&& s.timestamp == c.timestamp
        &&& s.size == c.size
        &&& s.filled == filled
    }
}

/// Whether a level of a price begins with the slot of an order.
pub open spec fn leads(side: Seq<PriceBucket>, k: int, price: Price, slot: usize) -> bool {
    0 <= k < side.len() && side[k].price == price && side[k].head == slot
}

/// An order that may rest trades at prices that it takes, the best first. What is left of it
/// stands at the front of its price, as it was asked for, where the pool has room.
pub proof fn law_pooled_orders_trade_and_rest(m: OptimizedModel, c: OrderCommand)
    requires
        sound(m),
        c.size >= 0,
        !m.pool.index.contains_key(c.order_id),
        c.order_type == OrderType::Gtc,
    ensures
        ({
            let step = optimized::new_ordered(m, c);
            let filled = laws::traded(step.events);
            &&& step.code == CommandResultCode::Success
            &&& step.action == c.action
            &&& fair(step.events, c.action, c.price)
            &&& 0 <= filled <= c.size
            &&& filled < c.size && m.pool.free.len() > 0 ==> {
                &&& stands(step.book, c, filled)
                &&& exists|k: int| #[trigger]
                    leads(
                        step.book.side(c.action),
                        k,
                        c.price,
                        step.book.pool.index[c.order_id],
                    )
            }
            &&& filled == c.size ==> step.book.side(c.action) == m.side(c.action)
        }),
{
    lemma_sweep(m, c);
    let w = optimized::sweep_of(m, c);
    let m2 = optimized::after_sweep(m, c);
    let step = optimized::new_ordered(m, c);
    lemma_nonneg(w.events, c.action, c.price);
    assert(m2.side(c.action) == m.side(c.action));
    if w.need > 0 && m.pool.free.len() > 0 {
        let k = optimized::level_slot(m2.side(c.action), c.action, c.price);
        optimized::lemma_level_slot(m2.side(c.action), c.action, c.price);
        assert(leads(step.book.side(c.action), k, c.price, step.book.pool.index[c.order_id]));
    }
}

/// An immediate order trades at prices that it takes, the best first. What is left of it is
/// reported and leaves: the order does not rest.
pub proof fn law_pooled_immediate_orders_leave(m: OptimizedModel, c: OrderCommand)
    requires
        sound(m),
        c.size >= 0,
        !m.pool.index.contains_key(c.order_id),
        c.order_type == OrderType::Ioc,
    ensures
        ({
            let step = optimized::new_ordered(m, c);
            let filled = laws::traded(step.events);
            &&& step.code == CommandResultCode::Success
            &&& step.book.side(c.action) == m.side(c.action)
            &&& 0 <= filled <= c.size
            &&& held(step.book.pool.slots) == held(m.pool.slots) + filled
            &&& filled == c.size ==> fair(step.events, c.action, c.price)
            &&& filled < c.size ==> {
                &&& step.events.len() > 0
                &&& fair(step.events.drop_last(), c.action, c.price)
                &&& step.events.last().event_type == MatcherEventType::Reject
                &&& step.events.last().size == c.size - filled
                &&& step.events.last().price == c.price
                &&& step.events.last().bidder_hold_price == c.reserve_price
            }
        }),
{
    lemma_sweep(m, c);
    let w = optimized::sweep_of(m, c);
    let step = optimized::new_ordered(m, c);
    lemma_nonneg(w.events, c.action, c.price);
    if w.need > 0 {
        assert(step.events.drop_last() =~= w.events);
    } else {
        assert(step.events =~= w.events);
    }
}

proof fn lemma_nonneg(events: Seq<MatcherTradeEvent>, action: OrderAction, limit: Price)
    requires
        fair(events, action, limit),
    ensures
        0 <= laws::traded(events),
    decreases events.len(),
{
    if events.len() > 0 {
        let rest = events.drop_last();
        assert(forall|i: int| 0 <= i < rest.len() ==> rest[i] == #[trigger] events[i]);
        assert(fair(rest, action, limit)) by {
            assert forall|i: int| 0 <= i < rest.len() implies {
                &&& (#[trigger] rest[i]).event_type == MatcherEventType::Trade
                &&& rest[i].size >= 0
                &&& moves::acceptable(action, limit, rest[i].price)
            } by {
                assert(rest[i] == events[i]);
            }
            assert forall|i: int, j: int| 0 <= i <= j < rest.len() implies moves::acceptable(
                action,
                (#[trigger] rest[j]).price,
                (#[trigger] rest[i]).price,
            ) by {
                assert(rest[i] == events[i] && rest[j] == events[j]);
            }
        }
        lemma_nonneg(rest, action, limit);
    }
}

/// The first order of the best level trades first, at that level's price, as far as both want.
pub proof fn law_pooled_front_trades_first(m: OptimizedModel, c: OrderCommand)
    requires
        sound(m),
        c.size > 0,
        !m.pool.index.contains_key(c.order_id),
        c.order_type == OrderType::Gtc || c.order_type == OrderType::Ioc,
        m.side(c.action.other()).len() > 0,
        moves::acceptable(c.action, c.price, m.side(c.action.other())[0].price),
        m.pool.slots[m.side(c.action.other())[0].head as int].active,
        m.pool.slots[m.side(c.action.other())[0].head as int].filled < m.pool.slots[m.side(
            c.action.other(),
        )[0].head as int].size,
    ensures
        ({
            let b = m.side(c.action.other())[0];
            let s = m.pool.slots[b.head as int];
            let events = optimized::new_ordered(m, c).events;
            &&& events.len() > 0
            &&& events[0].event_type == MatcherEventType::Trade
            &&& events[0].price == b.price
            &&& events[0].matched_order_id == s.order_id
            &&& events[0].matched_order_uid == s.uid
            &&& events[0].size <= c.size
            &&& events[0].size <= s.size - s.filled
            &&& events[0].size == c.size || events[0].size == s.size - s.filled
            &&& events[0].bidder_hold_price == match c.action {
                OrderAction::Bid => c.reserve_price,
                OrderAction::Ask => s.reserve_price,
            }
        }),
{
    let side = m.side(c.action.other());
    let b = side[0];
    let s = m.pool.slots[b.head as int];
    let t = optimized::terms_of(c);
    let need = c.size as int;
    let q = optimized::chain(m.pool.slots, b.head);
    let w = optimized::sweep_of(m, c);
    let n = model::smaller(need, s.size - s.filled);
    assert(q.len() > 0 && q[0] == b.head);
    assert(0 <= s.filled);
    assert(w.events.len() > 0 && w.events[0] == optimized::trade_at(t, b.price, s, n)) by {
        if m.batched {
            let f = optimized::level_filled(m.pool, b, need, t);
            assert(f.events.len() > 0 && f.events[0] == optimized::trade_at(t, b.price, s, n));
        } else {
            let f = optimized::passed(
                m.pool,
                b,
                b.volume as int,
                b.num_orders as int,
                b.head,
                need,
                t,
            );
            assert(f.events.len() > 0 && f.events[0] == optimized::trade_at(t, b.price, s, n));
        }
    }
    assert(optimized::new_ordered(m, c).events[0] == w.events[0]);
}

/// Whether slots want something, and the same in two pools.
spec fn alike(a: PoolModel, b: PoolModel, q: Seq<usize>) -> bool {
    forall|i: int|
        0 <= i < q.len() ==> {
            let s = a.slots[(#[trigger] q[i]) as int];
            let r = b.slots[q[i] as int];
            &&& q[i] < a.slots.len()
            &&& q[i] < b.slots.len()
            &&& s.size - s.filled == r.size - r.filled
            &&& s.size > s.filled
            &&& s.order_id == r.order_id
            &&& s.uid == r.uid
            &&& s.reserve_price == r.reserve_price
        }
}

proof fn lemma_alike(a: PoolModel, b: PoolModel, q: Seq<usize>, need: int, price: Price, t: Terms)
    requires
        alike(a, b, q),
        q.no_duplicates(),
        need >= 0,
    ensures
        optimized::filled_singly(a, q, need, price, t).events == optimized::filled_together(
            b,
            q,
            need,
            price,
            t,
        ).events,
        optimized::filled_singly(a, q, need, price, t).need == optimized::filled_together(
            b,
            q,
            need,
            price,
            t,
        ).need,
    decreases q.len(),
{
    if q.len() > 0 {
        let i = q[0];
        let rest = q.drop_first();
        let s = a.slots[i as int];
        let r = b.slots[i as int];
        let n = model::smaller(need, s.size - s.filled);
        let a1 = if need <= 0 {
            a
        } else if n == s.size - s.filled {
            a.fill(i, n).forget(s.order_id).release(i)
        } else {
            a.fill(i, n)
        };
        let b1 = if n > 0 {
            b.fill(i, n)
        } else {
            b
        };
        assert forall|k: int| 0 <= k < rest.len() implies {
            let x = a1.slots[(#[trigger] rest[k]) as int];
            let y = b1.slots[rest[k] as int];
            &&& rest[k] < a1.slots.len()
            &&& rest[k] < b1.slots.len()
            &&& x.size - x.filled == y.size - y.filled
            &&& x.size > x.filled
            &&& x.order_id == y.order_id
            &&& x.uid == y.uid
            &&& x.reserve_price == y.reserve_price
        } by {
            assert(rest[k] == q[k + 1]);
            assert(q[k + 1] != q[0]);
        }
        assert(rest.no_duplicates()) by {
            assert forall|x: int, y: int|
                0 <= x < rest.len() && 0 <= y < rest.len() && x != y implies rest[x] != rest[y] by {
                assert(rest[x] == q[x + 1] && rest[y] == q[y + 1]);
            }
        }
        lemma_alike(a1, b1, rest, need - n, price, t);
        if need == 0 {
            assert(optimized::filled_singly(a1, rest, 0, price, t).events =~= Seq::empty());
        }
    }
}

/// Orders that want something trade the same whether they are matched one by one or as a batch.
pub proof fn law_batches_trade_the_same(
    p: PoolModel,
    q: Seq<usize>,
    need: int,
    price: Price,
    t: Terms,
)
    requires
        q.no_duplicates(),
        need >= 0,
        forall|i: int|
            0 <= i < q.len() ==> (#[trigger] q[i]) < p.slots.len() && p.slots[q[i] as int].filled
                < p.slots[q[i] as int].size,
    ensures
        optimized::filled_singly(p, q, need, price, t).events == optimized::filled_together(
            p,
            q,
            need,
            price,
            t,
        ).events,
        optimized::filled_singly(p, q, need, price, t).need == optimized::filled_together(
            p,
            q,
            need,
            price,
            t,
        ).need,
{
    lemma_alike(p, p, q, need, price, t);
}

/// An order that is cancelled is known no more and its slot is free for the next one, with what
/// it still wanted reported. Other orders stay. One that is not known is refused.
pub proof fn law_pooled_orders_are_cancelled(m: OptimizedModel, c: OrderCommand, id: OrderId)
    requires
        sound(m),
    ensures
        ({
            let step = optimized::cancelled(m, c);
            let i = m.pool.index[c.order_id];
            let s = m.pool.slots[i as int];
            &&& m.pool.index.contains_key(c.order_id) ==> {
                &&& step.code == CommandResultCode::Success
                &&& step.action == s.action
                &&& step.events.len() == 1
                &&& step.events[0].event_type == MatcherEventType::Reject
                &&& step.events[0].size + s.filled == s.size
                &&& step.events[0].price == s.price
                &&& step.events[0].bidder_hold_price == s.reserve_price
                &&& !step.book.pool.index.contains_key(c.order_id)
                &&& !step.book.pool.slots[i as int].active
                &&& step.book.pool.free.len() == m.pool.free.len() + 1
                &&& step.book.pool.free.last() == i
            }
            &&& id != c.order_id && m.pool.index.contains_key(id) && m.pool.index[id] != i ==> {
                &&& step.book.pool.index.contains_key(id)
                &&& step.book.pool.index[id] == m.pool.index[id]
                &&& step.book.pool.slots[m.pool.index[id] as int]
                    == m.pool.slots[m.pool.index[id] as int]
            }
            &&& !m.pool.index.contains_key(c.order_id) ==> {
                &&& step.code == CommandResultCode::MatchingUnknownOrderId
                &&& step.events.len() == 0
                &&& step.book == m
            }
        }),
{
    if m.pool.index.contains_key(c.order_id) {
        let s = m.pool.slots[m.pool.index[c.order_id] as int];
        assert(0 <= s.filled <= s.size);
    }
}

/// An order whose number is taken is refused, and so is one that is neither immediate nor may
/// rest. The book stays as it is.
pub proof fn law_pooled_orders_are_refused(m: OptimizedModel, c: OrderCommand)
    requires
        m.pool.index.contains_key(c.order_id) || (c.order_type != OrderType::Gtc && c.order_type
            != OrderType::Ioc),
    ensures
        optimized::new_ordered(m, c).book == m,
        optimized::new_ordered(m, c).events.len() == 0,
        optimized::new_ordered(m, c).code == (if m.pool.index.contains_key(c.order_id) {
            CommandResultCode::MatchingDuplicateOrderId
        } else {
            CommandResultCode::MatchingUnsupportedCommand
        }),
{
}

/// The volume of a side is that of its levels, however they are taken together.
pub proof fn law_volumes_add_up(a: Seq<PriceBucket>, b: PriceBucket, c: Seq<PriceBucket>)
    ensures
        optimized::total_volume(Seq::empty()) == 0,
        optimized::total_volume(a + seq![b] + c) == optimized::total_volume(a) + b.volume
            + optimized::total_volume(c),
    decreases c.len(),
{
    let all = a + seq![b] + c;
    if c.len() == 0 {
        assert(all.drop_last() =~= a);
    } else {
        assert(all.drop_last() =~= a + seq![b] + c.drop_last());
        law_volumes_add_up(a, b, c.drop_last());
    }
}

/// What is shown of a side are its best levels: as many as were asked for, or all.
pub proof fn law_pooled_depth_is_of_the_best(
    m: OptimizedModel,
    action: OrderAction,
    depth: usize,
    prices: Seq<Price>,
    volumes: Seq<Size>,
    counts: Seq<usize>,
    i: int,
    j: int,
)
    requires
        sound(m),
        optimized::lists(m.side(action), depth, prices, volumes, counts),
        0 <= i < prices.len(),
        i < j < m.side(action).len(),
    ensures
        prices.len() <= depth,
        prices.len() < depth ==> prices.len() == m.side(action).len(),
        volumes.len() == prices.len() && counts.len() == prices.len(),
        prices[i] == m.side(action)[i].price,
        volumes[i] == m.side(action)[i].volume,
        counts[i] == m.side(action)[i].num_orders,
        match action {
            OrderAction::Ask => prices[i] < m.side(action)[j].price,
            OrderAction::Bid => prices[i] > m.side(action)[j].price,
        },
{
}

} // verus!
