//! An order book on a pool of slots, with a batched way of matching.
//!
//! It is an experiment and no replacement for [`DirectOrderBook`]: within a price the
//! order that came last trades first, a level whose first order is gone is not reached
//! any more, and a cancellation leaves the tallies of its level as they are. What it
//! does is stated here slot by slot.
//!
//! [`DirectOrderBook`]: crate::exchange::book::DirectOrderBook
use vstd::prelude::*;

use crate::exchange::api;
use crate::exchange::api::{
    CommandResultCode, CoreSymbolSpecification, L2MarketData, MatcherTradeEvent, OrderAction,
    OrderCommand, OrderId, OrderType, Price, Size, UserId,
};
use crate::exchange::model;
use crate::store::keyed::KeyedMap;

verus! {

/// How many orders the pool has room for.
pub const POOL_CAPACITY: usize = 100_000;

/// From how many orders on a level is matched as a batch.
pub const BATCH: usize = 4;

/// A slot of the pool. A slot that is not active keeps what it held.
#[derive(Debug, Clone, Copy)]
pub struct Slot {
    pub order_id: OrderId,
    pub price: Price,
    pub size: Size,
    pub filled: Size,
    pub next: Option<usize>,
    pub active: bool,
    pub uid: UserId,
    pub action: OrderAction,
    pub reserve_price: Price,
    pub timestamp: i64,
}

/// A level: its tallies, and the slot of the order that came last.
#[derive(Debug, Clone, Copy)]
pub struct PriceBucket {
    pub price: Price,
    pub volume: Size,
    pub num_orders: usize,
    pub head: usize,
}

/// The pool: its slots, those that are free, and where the orders are.
#[verifier::ext_equal]
pub struct PoolModel {
    pub slots: Seq<Slot>,
    pub free: Seq<usize>,
    pub index: Map<OrderId, usize>,
}

/// What a slot still wants.
pub open spec fn left(s: Slot) -> int {
    s.size - s.filled
}

impl PoolModel {
    /// A slot trades.
    pub open spec fn fill(self, i: usize, n: int) -> PoolModel {
        let s = self.slots[i as int];
        PoolModel {
            slots: self.slots.update(i as int, Slot { filled: (s.filled + n) as i64, ..s }),
            ..self
        }
    }

    /// A slot is given back.
    pub open spec fn release(self, i: usize) -> PoolModel {
        let s = self.slots[i as int];
        PoolModel {
            slots: self.slots.update(i as int, Slot { active: false, ..s }),
            free: self.free.push(i),
            ..self
        }
    }

    /// An order is forgotten.
    pub open spec fn forget(self, id: OrderId) -> PoolModel {
        PoolModel { index: self.index.remove(id), ..self }
    }
}

/// Slots refer to slots, and none is filled beyond its size.
pub open spec fn slots_ok(slots: Seq<Slot>) -> bool {
    &&& slots.len() <= usize::MAX
    &&& forall|i: int|
        0 <= i < slots.len() ==> {
            &&& 0 <= (#[trigger] slots[i]).filled <= slots[i].size
            &&& slots[i].next matches Some(n) ==> n < slots.len()
        }
}

/// The free slots and the orders are in the pool.
pub open spec fn pool_ok(p: PoolModel) -> bool {
    &&& slots_ok(p.slots)
    &&& forall|i: int| 0 <= i < p.free.len() ==> (#[trigger] p.free[i]) < p.slots.len()
    &&& forall|id: OrderId| #[trigger]
        p.index.contains_key(id) ==> p.index[id] < p.slots.len()
}

/// The levels of a side are in the pool, best price first.
pub open spec fn side_ok(side: Seq<PriceBucket>, action: OrderAction, slots: nat) -> bool {
    &&& forall|i: int| 0 <= i < side.len() ==> (#[trigger] side[i]).head < slots
    &&& forall|i: int, j: int|
        0 <= i < j < side.len() ==> model::rank_of(action, (#[trigger] side[i]).price)
            < model::rank_of(action, (#[trigger] side[j]).price)
}

/// The active slots from one on, as they are linked, within a number of steps.
pub open spec fn walk(slots: Seq<Slot>, at: usize, steps: nat) -> Seq<usize>
    decreases steps,
{
    if steps == 0 || !slots[at as int].active {
        Seq::empty()
    } else {
        match slots[at as int].next {
            None => seq![at],
            Some(n) => seq![at] + walk(slots, n, (steps - 1) as nat),
        }
    }
}

/// Whether the walk from a slot comes to an end within a number of steps.
pub open spec fn ends(slots: Seq<Slot>, at: usize, steps: nat) -> bool
    decreases steps,
{
    if !slots[at as int].active {
        true
    } else if steps == 0 {
        false
    } else {
        match slots[at as int].next {
            None => true,
            Some(n) => ends(slots, n, (steps - 1) as nat),
        }
    }
}

/// The active slots of a level.
pub open spec fn chain(slots: Seq<Slot>, head: usize) -> Seq<usize> {
    walk(slots, head, slots.len())
}

pub open spec fn chain_ends(slots: Seq<Slot>, head: usize) -> bool {
    ends(slots, head, slots.len())
}

/// What the incoming order asks of a trade.
#[derive(Debug, Clone, Copy)]
pub struct Terms {
    pub action: OrderAction,
    pub limit: Price,
    pub reserve_price: Price,
}

pub open spec fn terms_of(c: OrderCommand) -> Terms {
    Terms { action: c.action, limit: c.price, reserve_price: c.reserve_price }
}

pub open spec fn crosses(t: Terms, price: Price) -> bool {
    match t.action {
        OrderAction::Bid => price <= t.limit,
        OrderAction::Ask => price >= t.limit,
    }
}

/// A trade with a slot at the price of its level.
pub open spec fn trade_at(t: Terms, price: Price, s: Slot, n: int) -> MatcherTradeEvent {
    api::trade_event(
        n,
        price,
        s.order_id,
        s.uid,
        if t.action == OrderAction::Bid {
            t.reserve_price
        } else {
            s.reserve_price
        },
    )
}

/// What comes of some slots: the pool, what is still wanted, and the events.
#[verifier::ext_equal]
pub struct Filling {
    pub pool: PoolModel,
    pub need: int,
    pub events: Seq<MatcherTradeEvent>,
}

/// Fills from slots one by one. A slot that is full is given back.
pub open spec fn filled_singly(
    p: PoolModel,
    q: Seq<usize>,
    need: int,
    price: Price,
    t: Terms,
) -> Filling
    decreases q.len(),
{
    if q.len() == 0 || need <= 0 {
        Filling { pool: p, need, events: Seq::empty() }
    } else {
        let s = p.slots[q[0] as int];
        let n = model::smaller(need, left(s));
        let p1 = p.fill(q[0], n);
        let p2 = if n == left(s) {
            p1.forget(s.order_id).release(q[0])
        } else {
            p1
        };
        let rest = filled_singly(p2, q.drop_first(), need - n, price, t);
        Filling { events: seq![trade_at(t, price, s, n)] + rest.events, ..rest }
    }
}

/// Fills from slots as a batch. Slots that are full stay.
pub open spec fn filled_together(
    p: PoolModel,
    q: Seq<usize>,
    need: int,
    price: Price,
    t: Terms,
) -> Filling
    decreases q.len(),
{
    if q.len() == 0 {
        Filling { pool: p, need, events: Seq::empty() }
    } else {
        let s = p.slots[q[0] as int];
        let n = model::smaller(need, left(s));
        if n > 0 {
            let rest = filled_together(p.fill(q[0], n), q.drop_first(), need - n, price, t);
            Filling { events: seq![trade_at(t, price, s, n)] + rest.events, ..rest }
        } else {
            filled_together(p, q.drop_first(), need, price, t)
        }
    }
}

/// What the active ones of some slots want together.
pub open spec fn open_volume(slots: Seq<Slot>, q: Seq<usize>) -> int
    decreases q.len(),
{
    if q.len() == 0 {
        0
    } else {
        open_volume(slots, q.drop_last()) + (if slots[q.last() as int].active {
            left(slots[q.last() as int])
        } else {
            0
        })
    }
}

/// How many of some slots are active.
pub open spec fn open_count(slots: Seq<Slot>, q: Seq<usize>) -> nat
    decreases q.len(),
{
    if q.len() == 0 {
        0
    } else {
        open_count(slots, q.drop_last()) + (if slots[q.last() as int].active {
            1nat
        } else {
            0nat
        })
    }
}

/// What comes of the levels of a side: the pool, the levels that stay, what is still
/// wanted, the events, and whether the walks end and the sums fit.
#[verifier::ext_equal]
pub struct Sweep {
    pub pool: PoolModel,
    pub side: Seq<PriceBucket>,
    pub need: int,
    pub events: Seq<MatcherTradeEvent>,
    pub fits: bool,
}

pub open spec fn swept_none(p: PoolModel, side: Seq<PriceBucket>, need: int) -> Sweep {
    Sweep { pool: p, side, need, events: Seq::empty(), fits: true }
}

/// What follows a level that was passed, with what became of the level.
pub open spec fn preceded(
    kept: Seq<PriceBucket>,
    events: Seq<MatcherTradeEvent>,
    fits: bool,
    rest: Sweep,
) -> Sweep {
    Sweep {
        side: kept + rest.side,
        events: events + rest.events,
        fits: fits && rest.fits,
        ..rest
    }
}

/// One level, matched as a batch or one by one.
pub open spec fn level_filled(
    p: PoolModel,
    b: PriceBucket,
    need: int,
    t: Terms,
) -> Filling {
    let q = chain(p.slots, b.head);
    if q.len() >= BATCH {
        filled_together(p, q, need, b.price, t)
    } else {
        filled_singly(p, q, need, b.price, t)
    }
}

/// A level with its tallies taken anew.
pub open spec fn recounted(b: PriceBucket, slots: Seq<Slot>, q: Seq<usize>) -> PriceBucket {
    PriceBucket {
        volume: open_volume(slots, q) as i64,
        num_orders: open_count(slots, q) as usize,
        ..b
    }
}

/// Matches against the levels of a side, best first. A level of which nothing is left
/// leaves; one whose first slot is not active is passed over.
pub open spec fn swept(p: PoolModel, side: Seq<PriceBucket>, need: int, t: Terms) -> Sweep
    decreases side.len(),
{
    if side.len() == 0 || need <= 0 || !crosses(t, side[0].price) {
        swept_none(p, side, need)
    } else {
        let b = side[0];
        let q = chain(p.slots, b.head);
        if q.len() == 0 {
            preceded(
                seq![b],
                Seq::empty(),
                chain_ends(p.slots, b.head),
                swept(p, side.drop_first(), need, t),
            )
        } else {
            let f = level_filled(p, b, need, t);
            let volume = open_volume(f.pool.slots, q);
            preceded(
                if volume == 0 {
                    Seq::empty()
                } else {
                    seq![recounted(b, f.pool.slots, q)]
                },
                f.events,
                chain_ends(p.slots, b.head) && volume <= i64::MAX,
                swept(f.pool, side.drop_first(), f.need, t),
            )
        }
    }
}

/// How many slots are active.
pub open spec fn active_slots(slots: Seq<Slot>) -> nat
    decreases slots.len(),
{
    if slots.len() == 0 {
        0
    } else {
        active_slots(slots.drop_last()) + (if slots.last().active {
            1nat
        } else {
            0nat
        })
    }
}

pub proof fn lemma_active_released(slots: Seq<Slot>, i: int, s: Slot)
    requires
        0 <= i < slots.len(),
        slots[i].active,
        !s.active,
    ensures
        active_slots(slots.update(i, s)) + 1 == active_slots(slots),
    decreases slots.len(),
{
    let t = slots.update(i, s);
    if i == slots.len() - 1 {
        assert(t.drop_last() =~= slots.drop_last());
    } else {
        assert(t.drop_last() =~= slots.drop_last().update(i, s));
        assert(slots.drop_last()[i] == slots[i]);
        lemma_active_released(slots.drop_last(), i, s);
    }
}

pub proof fn lemma_active_same(slots: Seq<Slot>, i: int, s: Slot)
    requires
        0 <= i < slots.len(),
        slots[i].active == s.active,
    ensures
        active_slots(slots.update(i, s)) == active_slots(slots),
    decreases slots.len(),
{
    let t = slots.update(i, s);
    if i == slots.len() - 1 {
        assert(t.drop_last() =~= slots.drop_last());
    } else {
        assert(t.drop_last() =~= slots.drop_last().update(i, s));
        assert(slots.drop_last()[i] == slots[i]);
        lemma_active_same(slots.drop_last(), i, s);
    }
}

/// What comes of one level where its slots are given back on the way.
#[verifier::ext_equal]
pub struct Pass {
    pub pool: PoolModel,
    pub volume: int,
    pub num_orders: int,
    pub need: int,
    pub events: Seq<MatcherTradeEvent>,
    pub fits: bool,
}

/// Fills from the slots of a level as they are linked, from one slot on. The tallies of
/// the level go down with the trades.
pub open spec fn passed(
    p: PoolModel,
    b: PriceBucket,
    volume: int,
    num_orders: int,
    at: usize,
    need: int,
    t: Terms,
) -> Pass
    decreases active_slots(p.slots),
{
    let s = p.slots[at as int];
    if need <= 0 || !(at < p.slots.len()) || !s.active {
        Pass { pool: p, volume, num_orders, need, events: Seq::empty(), fits: true }
    } else {
        let n = model::smaller(need, left(s));
        let e = seq![trade_at(t, b.price, s, n)];
        let p1 = p.fill(at, n);
        let fits = i64::MIN <= volume - n <= i64::MAX;
        if n == left(s) {
            let p2 = p1.forget(s.order_id).release(at);
            proof {
                lemma_active_same(p.slots, at as int, p1.slots[at as int]);
                lemma_active_released(p1.slots, at as int, p2.slots[at as int]);
            }
            let fits2 = fits && num_orders >= 1;
            match s.next {
                None => Pass {
                    pool: p2,
                    volume: volume - n,
                    num_orders: num_orders - 1,
                    need: need - n,
                    events: e,
                    fits: fits2,
                },
                Some(x) => {
                    let rest = passed(p2, b, volume - n, num_orders - 1, x, need - n, t);
                    Pass { events: e + rest.events, fits: fits2 && rest.fits, ..rest }
                },
            }
        } else {
            Pass { pool: p1, volume: volume - n, num_orders, need: need - n, events: e, fits }
        }
    }
}

/// Matches against the levels of a side, best first, slot by slot.
pub open spec fn swept_singly(p: PoolModel, side: Seq<PriceBucket>, need: int, t: Terms) -> Sweep
    decreases side.len(),
{
    if side.len() == 0 || need <= 0 || !crosses(t, side[0].price) {
        swept_none(p, side, need)
    } else {
        let b = side[0];
        let pass = passed(p, b, b.volume as int, b.num_orders as int, b.head, need, t);
        preceded(
            if pass.volume == 0 {
                Seq::empty()
            } else {
                seq![
                    PriceBucket {
                        volume: pass.volume as i64,
                        num_orders: pass.num_orders as usize,
                        ..b
                    },
                ]
            },
            pass.events,
            pass.fits,
            swept_singly(pass.pool, side.drop_first(), pass.need, t),
        )
    }
}

/// Walks that end agree, however many steps they may take.
proof fn lemma_walk_steps(slots: Seq<Slot>, at: usize, a: nat, b: nat)
    requires
        ends(slots, at, a),
        ends(slots, at, b),
    ensures
        walk(slots, at, a) == walk(slots, at, b),
    decreases a,
{
    if slots[at as int].active {
        match slots[at as int].next {
            None => {},
            Some(n) => lemma_walk_steps(slots, n, (a - 1) as nat, (b - 1) as nat),
        }
    }
}

/// From each of its slots on, a walk goes on as it does.
proof fn lemma_walk_on(slots: Seq<Slot>, at: usize, steps: nat, i: int)
    requires
        ends(slots, at, steps),
        0 <= i < walk(slots, at, steps).len(),
    ensures
        i < steps,
        ends(slots, walk(slots, at, steps)[i], (steps - i) as nat),
        walk(slots, walk(slots, at, steps)[i], (steps - i) as nat) == walk(
            slots,
            at,
            steps,
        ).skip(i),
    decreases steps,
{
    let w = walk(slots, at, steps);
    if i == 0 {
        assert(w[0] == at);
        assert(w.skip(0) =~= w);
    } else {
        let n = slots[at as int].next.unwrap();
        let rest = walk(slots, n, (steps - 1) as nat);
        lemma_walk_on(slots, n, (steps - 1) as nat, i - 1);
        assert(w[i] == rest[i - 1]);
        assert(w.skip(i) =~= rest.skip(i - 1));
    }
}

/// A walk that ends meets active slots of the pool, each once.
proof fn lemma_walk_distinct(slots: Seq<Slot>, at: usize, steps: nat)
    requires
        slots_ok(slots),
        at < slots.len(),
        ends(slots, at, steps),
    ensures
        walk(slots, at, steps).no_duplicates(),
        forall|i: int|
            0 <= i < walk(slots, at, steps).len() ==> (#[trigger] walk(slots, at, steps)[i])
                < slots.len() && slots[walk(slots, at, steps)[i] as int].active,
    decreases steps,
{
    let w = walk(slots, at, steps);
    assert forall|i: int, j: int| 0 <= i < w.len() && 0 <= j < w.len() && i < j implies w[i]
        != w[j] by {
        lemma_walk_on(slots, at, steps, i);
        lemma_walk_on(slots, at, steps, j);
        if w[i] == w[j] {
            lemma_walk_steps(slots, w[i], (steps - i) as nat, (steps - j) as nat);
            assert(w.skip(i).len() == w.skip(j).len());
        }
    }
    if steps > 0 && slots[at as int].active {
        match slots[at as int].next {
            None => {},
            Some(n) => {
                assert(slots[at as int].next matches Some(x) ==> x < slots.len());
                lemma_walk_distinct(slots, n, (steps - 1) as nat);
                let rest = walk(slots, n, (steps - 1) as nat);
                assert forall|i: int| 0 <= i < w.len() implies (#[trigger] w[i]) < slots.len()
                    && slots[w[i] as int].active by {
                    if i > 0 {
                        assert(w[i] == rest[i - 1]);
                    }
                }
            },
        }
    }
}

/// The pool of slots, and the index of its orders.
struct OrderPool {
    slots: Vec<Slot>,
    free_list: Vec<usize>,
    order_index: KeyedMap<usize>,
}

impl View for OrderPool {
    type V = PoolModel;

    closed spec fn view(&self) -> PoolModel {
        PoolModel { slots: self.slots@, free: self.free_list@, index: self.order_index@ }
    }
}

impl OrderPool {
    closed spec fn wf(&self) -> bool {
        self.order_index.wf() && pool_ok(self@)
    }

    /// A pool of free slots. The first of them is taken first.
    fn new(capacity: usize) -> (r: OrderPool)
        ensures
            r.wf(),
            r@ == empty_pool(capacity as nat),
    {
        let mut slots: Vec<Slot> = Vec::new();
        let mut free_list: Vec<usize> = Vec::new();
        let mut i: usize = 0;
        while i < capacity
            invariant
                i <= capacity,
                slots@ == empty_pool(capacity as nat).slots.take(i as int),
                free_list@ == empty_pool(capacity as nat).free.take(i as int),
            decreases capacity - i,
        {
            slots.push(
                Slot {
                    order_id: 0,
                    price: 0,
                    size: 0,
                    filled: 0,
                    next: None,
                    active: false,
                    uid: 0,
                    action: OrderAction::Bid,
                    reserve_price: 0,
                    timestamp: 0,
                },
            );
            free_list.push(capacity - 1 - i);
            i = i + 1;
            proof {
                assert(slots@ =~= empty_pool(capacity as nat).slots.take(i as int));
                assert(free_list@ =~= empty_pool(capacity as nat).free.take(i as int));
            }
        }
        let r = OrderPool { slots, free_list, order_index: KeyedMap::new() };
        assert(r@ =~= empty_pool(capacity as nat));
        r
    }

    /// Gives a slot back.
    fn dealloc(&mut self, i: usize)
        requires
            old(self).wf(),
            i < old(self)@.slots.len(),
        ensures
            final(self).wf(),
            final(self)@ == old(self)@.release(i),
    {
        let ghost p = self@;
        let mut s = self.slots[i];
        s.active = false;
        self.slots.set(i, s);
        self.free_list.push(i);
        proof {
            let q = p.release(i);
            assert(self@ == q);
            assert forall|k: int| 0 <= k < q.slots.len() implies {
                &&& 0 <= (#[trigger] q.slots[k]).filled <= q.slots[k].size
                &&& q.slots[k].next matches Some(n) ==> n < q.slots.len()
            } by {
                assert(p.slots[k].filled <= p.slots[k].size);
            }
            assert forall|k: int| 0 <= k < q.free.len() implies (#[trigger] q.free[k])
                < q.slots.len() by {
                if k < p.free.len() {
                    assert(p.free[k] < p.slots.len());
                }
            }
        }
    }

    /// Forgets an order.
    fn forget(&mut self, id: OrderId)
        requires
            old(self).wf(),
        ensures
            final(self).wf(),
            final(self)@ == old(self)@.forget(id),
            final(self).slots == old(self).slots,
    {
        let ghost p = self@;
        let gone = self.order_index.remove(id);
        proof {
            let q = p.forget(id);
            assert forall|k: OrderId| #[trigger] q.index.contains_key(k) implies q.index[k]
                < q.slots.len() by {
                assert(p.index.contains_key(k));
            }
        }
    }

    /// A slot trades.
    fn fill(&mut self, i: usize, n: i64)
        requires
            old(self).wf(),
            i < old(self)@.slots.len(),
            0 <= n <= left(old(self)@.slots[i as int]),
        ensures
            final(self).wf(),
            final(self)@ == old(self)@.fill(i, n as int),
    {
        let ghost p = self@;
        proof {
            assert(p.slots[i as int].filled <= p.slots[i as int].size);
        }
        let mut s = self.slots[i];
        s.filled = s.filled + n;
        self.slots.set(i, s);
        proof {
            let q = p.fill(i, n as int);
            assert(self@ == q);
            assert forall|k: int| 0 <= k < q.slots.len() implies {
                &&& 0 <= (#[trigger] q.slots[k]).filled <= q.slots[k].size
                &&& q.slots[k].next matches Some(n) ==> n < q.slots.len()
            } by {
                assert(p.slots[k].filled <= p.slots[k].size);
            }
            assert forall|k: int| 0 <= k < q.free.len() implies (#[trigger] q.free[k])
                < q.slots.len() by {
                assert(p.free[k] < p.slots.len());
            }
        }
    }

    /// The active slots of a level, as they are linked.
    fn collect(&self, head: usize) -> (r: Vec<usize>)
        requires
            self.wf(),
            head < self@.slots.len(),
            chain_ends(self@.slots, head),
        ensures
            r@ == chain(self@.slots, head),
    {
        let ghost slots = self@.slots;
        let mut out: Vec<usize> = Vec::new();
        let mut at: usize = head;
        let ghost mut steps: nat = slots.len();
        proof {
            assert(out@ + walk(slots, at, steps) =~= walk(slots, at, steps));
        }
        while self.slots[at].active
            invariant_except_break
                chain(slots, head) == out@ + walk(slots, at, steps),
                ends(slots, at, steps),
            invariant
                self.wf(),
                slots == self@.slots,
                slots == self.slots@,
                at < slots.len(),
            ensures
                chain(slots, head) == out@,
            decreases steps,
        {
            out.push(at);
            match self.slots[at].next {
                Some(n) => {
                    proof {
                        assert(slots[at as int].next matches Some(x) ==> x < slots.len());
                        let rest = walk(slots, n, (steps - 1) as nat);
                        let before = out@.drop_last();
                        assert(before + (seq![at] + rest) =~= out@ + rest);
                        steps = (steps - 1) as nat;
                    }
                    at = n;
                },
                None => {
                    assert(out@ =~= out@.drop_last() + seq![at]);
                    break;
                },
            }
        }
        assert(out@ + Seq::<usize>::empty() =~= out@);
        out
    }

    /// What the active ones of some slots want together, and how many they are.
    fn recount(&self, q: &Vec<usize>) -> (r: (i64, usize))
        requires
            self.wf(),
            forall|i: int| 0 <= i < q@.len() ==> (#[trigger] q@[i]) < self@.slots.len(),
            open_volume(self@.slots, q@) <= i64::MAX,
        ensures
            r.0 == open_volume(self@.slots, q@),
            r.1 == open_count(self@.slots, q@),
    {
        let ghost slots = self@.slots;
        let mut volume: i64 = 0;
        let mut count: usize = 0;
        let mut i: usize = 0;
        proof {
            assert(q@.take(q@.len() as int) =~= q@);
        }
        while i < q.len()
            invariant
                self.wf(),
                slots == self@.slots,
                slots == self.slots@,
                i <= q@.len(),
                count <= i,
                forall|k: int| 0 <= k < q@.len() ==> (#[trigger] q@[k]) < slots.len(),
                volume == open_volume(slots, q@.take(i as int)),
                count == open_count(slots, q@.take(i as int)),
                open_volume(slots, q@.take(q@.len() as int)) <= i64::MAX,
                volume >= 0,
            decreases q@.len() - i,
        {
            proof {
                assert(q@.take(i + 1).drop_last() =~= q@.take(i as int));
                lemma_volume_grows(slots, q@, i + 1);
                assert(slots[q@[i as int] as int].filled <= slots[q@[i as int] as int].size);
            }
            let s = self.slots[q[i]];
            if s.active {
                volume = volume + (s.size - s.filled);
                count = count + 1;
            }
            i = i + 1;
        }
        (volume, count)
    }
}

/// A pool of free slots.
pub open spec fn empty_pool(capacity: nat) -> PoolModel {
    PoolModel {
        slots: Seq::new(
            capacity,
            |i: int|
                Slot {
                    order_id: 0,
                    price: 0,
                    size: 0,
                    filled: 0,
                    next: None,
                    active: false,
                    uid: 0,
                    action: OrderAction::Bid,
                    reserve_price: 0,
                    timestamp: 0,
                },
        ),
        free: Seq::new(capacity, |i: int| (capacity - 1 - i) as usize),
        index: Map::empty(),
    }
}

/// What slots want together does not go down as more are counted.
proof fn lemma_volume_grows(slots: Seq<Slot>, q: Seq<usize>, i: int)
    requires
        slots_ok(slots),
        forall|k: int| 0 <= k < q.len() ==> (#[trigger] q[k]) < slots.len(),
        0 <= i <= q.len(),
    ensures
        0 <= open_volume(slots, q.take(i)) <= open_volume(slots, q.take(q.len() as int)),
    decreases q.len() - i, i,
{
    if i < q.len() {
        lemma_volume_grows(slots, q, i + 1);
        assert(q.take(i + 1).drop_last() =~= q.take(i));
        assert(slots[q[i] as int].filled <= slots[q[i] as int].size);
        lemma_volume_nonneg(slots, q.take(i));
    } else {
        lemma_volume_nonneg(slots, q.take(i));
    }
}

proof fn lemma_volume_nonneg(slots: Seq<Slot>, q: Seq<usize>)
    requires
        slots_ok(slots),
        forall|k: int| 0 <= k < q.len() ==> (#[trigger] q[k]) < slots.len(),
    ensures
        open_volume(slots, q) >= 0,
    decreases q.len(),
{
    if q.len() > 0 {
        assert(q[q.len() - 1] < slots.len());
        assert(slots[q.last() as int].filled <= slots[q.last() as int].size);
        assert forall|k: int| 0 <= k < q.drop_last().len() implies (#[trigger] q.drop_last()[k])
            < slots.len() by {
            assert(q.drop_last()[k] == q[k]);
        }
        lemma_volume_nonneg(slots, q.drop_last());
    }
}

/// How much is taken from each of some orders, in their order, where so much is needed.
pub open spec fn takes(wanted: Seq<int>, need: int) -> Seq<int>
    decreases wanted.len(),
{
    if wanted.len() == 0 {
        Seq::empty()
    } else {
        let n = model::smaller(need, wanted[0]);
        seq![n] + takes(wanted.drop_first(), need - n)
    }
}

pub open spec fn wanted_of(sizes: Seq<i64>, filled: Seq<i64>) -> Seq<int> {
    Seq::new(sizes.len(), |i: int| sizes[i] - filled[i])
}

pub open spec fn numbers(v: Seq<i64>) -> Seq<int> {
    v.map_values(|n: i64| n as int)
}

/// Sum of some numbers.
pub open spec fn sum_of(v: Seq<int>) -> int
    decreases v.len(),
{
    if v.len() == 0 {
        0
    } else {
        sum_of(v.drop_last()) + v.last()
    }
}

/// How much is taken from each order of a batch, and from all of them.
fn simd_batch_match_prepare(sizes: &Vec<i64>, filled: &Vec<i64>, need_size: i64) -> (r: (
    Vec<i64>,
    i64,
))
    requires
        sizes@.len() == filled@.len(),
        need_size >= 0,
        forall|i: int| 0 <= i < sizes@.len() ==> 0 <= (#[trigger] filled@[i]) <= sizes@[i],
    ensures
        numbers(r.0@) == takes(wanted_of(sizes@, filled@), need_size as int),
        r.1 == sum_of(numbers(r.0@)),
        0 <= r.1 <= need_size,
{
    let ghost w = wanted_of(sizes@, filled@);
    let mut out: Vec<i64> = Vec::new();
    let mut total: i64 = 0;
    let mut i: usize = 0;
    proof {
        assert(w.skip(0) =~= w);
        assert(numbers(out@) + takes(w, need_size as int) =~= takes(w, need_size as int));
    }
    while i < sizes.len()
        invariant
            sizes@.len() == filled@.len(),
            w == wanted_of(sizes@, filled@),
            forall|k: int| 0 <= k < sizes@.len() ==> 0 <= (#[trigger] filled@[k]) <= sizes@[k],
            i <= sizes@.len(),
            0 <= total <= need_size,
            total == sum_of(numbers(out@)),
            takes(w, need_size as int) == numbers(out@) + takes(
                w.skip(i as int),
                need_size - total,
            ),
        decreases sizes@.len() - i,
    {
        assert(0 <= filled@[i as int] <= sizes@[i as int]);
        let left_of: i64 = sizes[i] - filled[i];
        let rest: i64 = need_size - total;
        let n: i64 = if rest < left_of {
            rest
        } else {
            left_of
        };
        let ghost before = numbers(out@);
        out.push(n);
        proof {
            assert(numbers(out@) =~= before.push(n as int));
            assert(numbers(out@).drop_last() =~= before);
            assert(w.skip(i as int)[0] == left_of);
            assert(w.skip(i as int).drop_first() =~= w.skip(i + 1));
            let more = takes(w.skip(i + 1), rest - n);
            assert(before + (seq![n as int] + more) =~= before.push(n as int) + more);
        }
        total = total + n;
        i = i + 1;
    }
    proof {
        assert(takes(w.skip(i as int), need_size - total) =~= Seq::<int>::empty());
        assert(numbers(out@) + Seq::<int>::empty() =~= numbers(out@));
    }
    (out, total)
}

/// Some slots of the pool, each once.
spec fn picks(q: Seq<usize>, slots: nat) -> bool {
    &&& q.no_duplicates()
    &&& forall|i: int| 0 <= i < q.len() ==> (#[trigger] q[i]) < slots
}

/// Fills from the slots of a level as a batch.
fn simd_match_orders_internal(
    pool: &mut OrderPool,
    q: &Vec<usize>,
    need_size: Size,
    price: Price,
    t: &Terms,
    events: &mut Vec<MatcherTradeEvent>,
) -> (r: Size)
    requires
        old(pool).wf(),
        picks(q@, old(pool)@.slots.len()),
        need_size >= 0,
    ensures
        final(pool).wf(),
        ({
            let f = filled_together(old(pool)@, q@, need_size as int, price, *t);
            &&& final(pool)@ == f.pool
            &&& r == need_size - f.need
            &&& 0 <= r <= need_size
            &&& final(events)@ == old(events)@ + f.events
        }),
        final(pool)@.slots.len() == old(pool)@.slots.len(),
{
    let ghost p0 = pool@;
    let ghost f0 = filled_together(p0, q@, need_size as int, price, *t);
    let ghost len = p0.slots.len();
    let mut sizes: Vec<i64> = Vec::new();
    let mut filled: Vec<i64> = Vec::new();
    let mut k: usize = 0;
    while k < q.len()
        invariant
            pool.wf(),
            pool@ == p0,
            pool.slots@ == p0.slots,
            picks(q@, p0.slots.len()),
            k <= q@.len(),
            sizes@.len() == k,
            filled@.len() == k,
            forall|i: int|
                0 <= i < k ==> {
                    &&& (#[trigger] sizes@[i]) == p0.slots[q@[i] as int].size
                    &&& filled@[i] == p0.slots[q@[i] as int].filled
                },
        decreases q@.len() - k,
    {
        let s = pool.slots[q[k]];
        sizes.push(s.size);
        filled.push(s.filled);
        k = k + 1;
    }
    proof {
        assert forall|i: int| 0 <= i < sizes@.len() implies 0 <= (#[trigger] filled@[i])
            <= sizes@[i] by {
            assert(sizes@[i] == p0.slots[q@[i] as int].size);
            assert(p0.slots[q@[i] as int].filled <= p0.slots[q@[i] as int].size);
        }
    }
    let (matched_sizes, total) = simd_batch_match_prepare(&sizes, &filled, need_size);
    let ghost w = wanted_of(sizes@, filled@);
    let mut actual: i64 = 0;
    let mut i: usize = 0;
    let ghost mut told: Seq<MatcherTradeEvent> = Seq::empty();
    proof {
        lemma_takes_len(w, need_size as int);
        assert(numbers(matched_sizes@).len() == q@.len());
        assert(q@.skip(0) =~= q@);
        assert(w.skip(0) =~= w);
        assert(numbers(matched_sizes@).skip(0) =~= numbers(matched_sizes@));
        assert(told + f0.events =~= f0.events);
        assert(old(events)@ + told =~= old(events)@);
    }
    while i < q.len()
        invariant
            pool.wf(),
            pool@.slots.len() == len,
            picks(q@, len),
            matched_sizes@.len() == q@.len(),
            w.len() == q@.len(),
            i <= q@.len(),
            0 <= actual <= need_size,
            numbers(matched_sizes@).skip(i as int) == takes(
                w.skip(i as int),
                need_size - actual,
            ),
            forall|j: int|
                i <= j < q@.len() ==> (#[trigger] w[j]) == left(pool@.slots[q@[j] as int]),
            ({
                let f = filled_together(
                    pool@,
                    q@.skip(i as int),
                    need_size - actual,
                    price,
                    *t,
                );
                &&& f0.pool == f.pool
                &&& f0.need == f.need
                &&& f0.events == told + f.events
            }),
            events@ == old(events)@ + told,
        decreases q@.len() - i,
    {
        let idx: usize = q[i];
        let match_size: i64 = matched_sizes[i];
        let ghost before = pool@;
        let ghost rest = need_size - actual;
        let ghost s = before.slots[idx as int];
        proof {
            let ms = numbers(matched_sizes@);
            assert(ms.skip(i as int)[0] == match_size);
            assert(ms.skip(i as int).drop_first() =~= ms.skip(i + 1));
            assert(w.skip(i as int)[0] == w[i as int]);
            assert(w.skip(i as int).drop_first() =~= w.skip(i + 1));
            let n = model::smaller(rest, w[i as int]);
            let more = takes(w.skip(i + 1), rest - n);
            assert((seq![n] + more)[0] == n);
            assert((seq![n] + more).drop_first() =~= more);
            assert(match_size == n);
            assert(q@.skip(i as int)[0] == idx);
            assert(q@.skip(i as int).drop_first() =~= q@.skip(i + 1));
            assert(s.filled <= s.size);
        }
        if match_size > 0 {
            pool.fill(idx, match_size);
            actual = actual + match_size;
            let reserve: i64 = match t.action {
                OrderAction::Bid => t.reserve_price,
                OrderAction::Ask => pool.slots[idx].reserve_price,
            };
            let event = MatcherTradeEvent::new_trade(
                match_size,
                price,
                pool.slots[idx].order_id,
                pool.slots[idx].uid,
                reserve,
            );
            events.push(event);
            proof {
                let after = filled_together(
                    pool@,
                    q@.skip(i + 1),
                    rest - match_size,
                    price,
                    *t,
                ).events;
                assert(event == trade_at(*t, price, s, match_size as int));
                assert(told + (seq![event] + after) =~= told.push(event) + after);
                assert((old(events)@ + told).push(event) =~= old(events)@ + told.push(event));
                told = told.push(event);
                assert forall|j: int| i + 1 <= j < q@.len() implies (#[trigger] w[j]) == left(
                    pool@.slots[q@[j] as int],
                ) by {
                    assert(q@[j] != q@[i as int]);
                    assert(w[j] == left(before.slots[q@[j] as int]));
                }
            }
        }
        i = i + 1;
    }
    proof {
        assert(q@.skip(i as int).len() == 0);
        assert(told + Seq::<MatcherTradeEvent>::empty() =~= told);
    }
    actual
}

proof fn lemma_takes_len(w: Seq<int>, need: int)
    ensures
        takes(w, need).len() == w.len(),
    decreases w.len(),
{
    if w.len() > 0 {
        lemma_takes_len(w.drop_first(), need - model::smaller(need, w[0]));
    }
}

/// Fills from the slots of a level one by one.
fn match_few(
    pool: &mut OrderPool,
    q: &Vec<usize>,
    need_size: Size,
    price: Price,
    t: &Terms,
    events: &mut Vec<MatcherTradeEvent>,
) -> (r: Size)
    requires
        old(pool).wf(),
        picks(q@, old(pool)@.slots.len()),
        need_size >= 0,
    ensures
        final(pool).wf(),
        ({
            let f = filled_singly(old(pool)@, q@, need_size as int, price, *t);
            &&& final(pool)@ == f.pool
            &&& r == need_size - f.need
            &&& 0 <= r <= need_size
            &&& final(events)@ == old(events)@ + f.events
        }),
        final(pool)@.slots.len() == old(pool)@.slots.len(),
{
    let ghost p0 = pool@;
    let ghost f0 = filled_singly(p0, q@, need_size as int, price, *t);
    let ghost len = p0.slots.len();
    let mut actual: i64 = 0;
    let mut i: usize = 0;
    let ghost mut told: Seq<MatcherTradeEvent> = Seq::empty();
    proof {
        assert(q@.skip(0) =~= q@);
        assert(told + f0.events =~= f0.events);
        assert(old(events)@ + told =~= old(events)@);
    }
    while i < q.len() && actual < need_size
        invariant
            pool.wf(),
            pool@.slots.len() == len,
            picks(q@, len),
            i <= q@.len(),
            0 <= actual <= need_size,
            ({
                let f = filled_singly(pool@, q@.skip(i as int), need_size - actual, price, *t);
                &&& f0.pool == f.pool
                &&& f0.need == f.need
                &&& f0.events == told + f.events
            }),
            events@ == old(events)@ + told,
        decreases q@.len() - i,
    {
        let idx: usize = q[i];
        let ghost s = pool@.slots[idx as int];
        let ghost rest = need_size - actual;
        proof {
            assert(q@.skip(i as int)[0] == idx);
            assert(q@.skip(i as int).drop_first() =~= q@.skip(i + 1));
            assert(s.filled <= s.size);
        }
        let slot = pool.slots[idx];
        let order_remaining: i64 = slot.size - slot.filled;
        let trade_size: i64 = if need_size - actual < order_remaining {
            need_size - actual
        } else {
            order_remaining
        };
        pool.fill(idx, trade_size);
        actual = actual + trade_size;
        let reserve: i64 = match t.action {
            OrderAction::Bid => t.reserve_price,
            OrderAction::Ask => slot.reserve_price,
        };
        let event = MatcherTradeEvent::new_trade(
            trade_size,
            price,
            slot.order_id,
            slot.uid,
            reserve,
        );
        events.push(event);
        if trade_size == order_remaining {
            pool.forget(slot.order_id);
            pool.dealloc(idx);
        }
        proof {
            assert(event == trade_at(*t, price, s, trade_size as int));
            let after = filled_singly(
                pool@,
                q@.skip(i + 1),
                rest - trade_size,
                price,
                *t,
            ).events;
            assert(told + (seq![event] + after) =~= told.push(event) + after);
            assert((old(events)@ + told).push(event) =~= old(events)@ + told.push(event));
            told = told.push(event);
        }
        i = i + 1;
    }
    proof {
        assert(told + Seq::<MatcherTradeEvent>::empty() =~= told);
    }
    actual
}

proof fn lemma_preceded_more(
    kept: Seq<PriceBucket>,
    events: Seq<MatcherTradeEvent>,
    more: Seq<PriceBucket>,
    told: Seq<MatcherTradeEvent>,
    fits: bool,
    rest: Sweep,
)
    ensures
        preceded(kept, events, true, preceded(more, told, fits, rest)) == preceded(
            kept + more,
            events + told,
            fits,
            rest,
        ),
{
    assert(kept + (more + rest.side) =~= (kept + more) + rest.side);
    assert(events + (told + rest.events) =~= (events + told) + rest.events);
}

proof fn lemma_preceded_end(
    kept: Seq<PriceBucket>,
    events: Seq<MatcherTradeEvent>,
    p: PoolModel,
    side: Seq<PriceBucket>,
    need: int,
)
    ensures
        preceded(kept, events, true, swept_none(p, side, need)) == (Sweep {
            pool: p,
            side: kept + side,
            need,
            events,
            fits: true,
        }),
{
    assert(events + Seq::<MatcherTradeEvent>::empty() =~= events);
}

proof fn lemma_preceded_start(sweep: Sweep)
    ensures
        preceded(Seq::empty(), Seq::empty(), true, sweep) == sweep,
{
    assert(Seq::<PriceBucket>::empty() + sweep.side =~= sweep.side);
    assert(Seq::<MatcherTradeEvent>::empty() + sweep.events =~= sweep.events);
}

proof fn lemma_side_changed(
    side: Seq<PriceBucket>,
    i: int,
    b: PriceBucket,
    action: OrderAction,
    slots: nat,
)
    requires
        side_ok(side, action, slots),
        0 <= i < side.len(),
        b.price == side[i].price,
        b.head == side[i].head,
    ensures
        side_ok(side.update(i, b), action, slots),
{
    let t = side.update(i, b);
    assert forall|k: int| 0 <= k < t.len() implies (#[trigger] t[k]).head < slots by {
        assert(side[k].head < slots);
    }
    assert forall|k: int, j: int| 0 <= k < j < t.len() implies model::rank_of(
        action,
        (#[trigger] t[k]).price,
    ) < model::rank_of(action, (#[trigger] t[j]).price) by {
        assert(t[k].price == side[k].price && t[j].price == side[j].price);
    }
}

proof fn lemma_side_dropped(side: Seq<PriceBucket>, i: int, action: OrderAction, slots: nat)
    requires
        side_ok(side, action, slots),
        0 <= i < side.len(),
    ensures
        side_ok(side.remove(i), action, slots),
{
    let t = side.remove(i);
    assert forall|k: int| 0 <= k < t.len() implies (#[trigger] t[k]).head < slots by {
        assert(t[k] == side[if k < i { k } else { k + 1 }]);
    }
    assert forall|k: int, j: int| 0 <= k < j < t.len() implies model::rank_of(
        action,
        (#[trigger] t[k]).price,
    ) < model::rank_of(action, (#[trigger] t[j]).price) by {
        assert(t[k] == side[if k < i { k } else { k + 1 }]);
        assert(t[j] == side[if j < i { j } else { j + 1 }]);
    }
}

fn price_crosses(t: &Terms, price: Price) -> (r: bool)
    ensures
        r == crosses(*t, price),
{
    match t.action {
        OrderAction::Bid => price <= t.limit,
        OrderAction::Ask => price >= t.limit,
    }
}

/// Matches against the levels of a side, whose orders are taken as batches.
fn sweep_levels(
    pool: &mut OrderPool,
    side: &mut Vec<PriceBucket>,
    need_size: Size,
    t: &Terms,
    events: &mut Vec<MatcherTradeEvent>,
) -> (r: Size)
    requires
        old(pool).wf(),
        side_ok(old(side)@, t.action.other(), old(pool)@.slots.len()),
        need_size >= 0,
        swept(old(pool)@, old(side)@, need_size as int, *t).fits,
    ensures
        final(pool).wf(),
        final(pool)@.slots.len() == old(pool)@.slots.len(),
        side_ok(final(side)@, t.action.other(), final(pool)@.slots.len()),
        ({
            let w = swept(old(pool)@, old(side)@, need_size as int, *t);
            &&& final(pool)@ == w.pool
            &&& final(side)@ == w.side
            &&& r == need_size - w.need
            &&& 0 <= r <= need_size
            &&& final(events)@ == old(events)@ + w.events
        }),
{
    let ghost w0 = swept(pool@, side@, need_size as int, *t);
    let ghost len = pool@.slots.len();
    let ghost action = t.action.other();
    let mut filled: i64 = 0;
    let mut i: usize = 0;
    let ghost mut told: Seq<MatcherTradeEvent> = Seq::empty();
    proof {
        lemma_preceded_start(w0);
        assert(side@.take(0) =~= Seq::<PriceBucket>::empty());
        assert(side@.skip(0) =~= side@);
        assert(old(events)@ + told =~= old(events)@);
    }
    while i < side.len() && filled < need_size
        invariant_except_break
            w0 == preceded(
                side@.take(i as int),
                told,
                true,
                swept(pool@, side@.skip(i as int), need_size - filled, *t),
            ),
        invariant
            pool.wf(),
            pool@.slots.len() == len,
            side_ok(side@, action, len),
            action == t.action.other(),
            i <= side@.len(),
            0 <= filled <= need_size,
            w0.fits,
            events@ == old(events)@ + told,
        ensures
            w0 == (Sweep {
                pool: pool@,
                side: side@,
                need: need_size - filled,
                events: told,
                fits: true,
            }),
        decreases side@.len() - i,
    {
        let ghost front = side@.take(i as int);
        let ghost back = side@.skip(i as int);
        let ghost p = pool@;
        let ghost need = need_size - filled;
        let b = side[i];
        proof {
            assert(back[0] == b);
            assert(back.drop_first() =~= side@.skip(i + 1));
            assert(front + back =~= side@);
            assert(side@[i as int].head < len);
        }
        if !price_crosses(t, b.price) {
            proof {
                lemma_preceded_end(front, told, p, back, need);
            }
            break;
        }
        let ghost rest_if_none = swept(p, side@.skip(i + 1), need, *t);
        let ghost q0 = chain(p.slots, b.head);
        proof {
            assert(chain_ends(p.slots, b.head));
            lemma_walk_distinct(p.slots, b.head, p.slots.len());
        }
        let q = pool.collect(b.head);
        if q.len() == 0 {
            proof {
                lemma_preceded_more(front, told, seq![b], Seq::empty(), true, rest_if_none);
                assert(side@.take(i + 1) =~= front + seq![b]);
                assert(told + Seq::<MatcherTradeEvent>::empty() =~= told);
            }
            i = i + 1;
            continue;
        }
        let ghost f = level_filled(p, b, need, *t);
        let ghost told0 = told;
        let matched: i64 = if q.len() >= BATCH {
            simd_match_orders_internal(pool, &q, need_size - filled, b.price, t, events)
        } else {
            match_few(pool, &q, need_size - filled, b.price, t, events)
        };
        filled = filled + matched;
        let ghost volume = open_volume(pool@.slots, q0);
        let ghost rest = swept(pool@, side@.skip(i + 1), need_size - filled, *t);
        proof {
            assert(pool@ == f.pool);
            assert(volume <= i64::MAX);
            told = told0 + f.events;
            assert((old(events)@ + told0) + f.events =~= old(events)@ + told);
        }
        let (new_volume, new_count) = pool.recount(&q);
        if new_volume == 0 {
            proof {
                lemma_preceded_more(front, told0, Seq::empty(), f.events, true, rest);
                assert(front + Seq::<PriceBucket>::empty() =~= front);
                assert(side@.remove(i as int).take(i as int) =~= front);
                assert(side@.remove(i as int).skip(i as int) =~= side@.skip(i + 1));
                lemma_side_dropped(side@, i as int, action, len);
            }
            let gone = side.remove(i);
        } else {
            let mut next = b;
            next.volume = new_volume;
            next.num_orders = new_count;
            proof {
                assert(next == recounted(b, pool@.slots, q0));
                lemma_preceded_more(front, told0, seq![next], f.events, true, rest);
                lemma_side_changed(side@, i as int, next, action, len);
                let s2 = side@.update(i as int, next);
                assert(s2.take(i + 1) =~= front + seq![next]);
                assert(s2.skip(i + 1) =~= side@.skip(i + 1));
            }
            side.set(i, next);
            i = i + 1;
        }
    }
    filled
}

/// Fills from the slots of a level on the way.
fn pass_level(
    pool: &mut OrderPool,
    b: PriceBucket,
    need_size: Size,
    t: &Terms,
    events: &mut Vec<MatcherTradeEvent>,
) -> (r: (Size, PriceBucket))
    requires
        old(pool).wf(),
        b.head < old(pool)@.slots.len(),
        need_size >= 0,
        passed(
            old(pool)@,
            b,
            b.volume as int,
            b.num_orders as int,
            b.head,
            need_size as int,
            *t,
        ).fits,
    ensures
        final(pool).wf(),
        final(pool)@.slots.len() == old(pool)@.slots.len(),
        ({
            let w = passed(
                old(pool)@,
                b,
                b.volume as int,
                b.num_orders as int,
                b.head,
                need_size as int,
                *t,
            );
            &&& final(pool)@ == w.pool
            &&& r.0 == need_size - w.need
            &&& 0 <= r.0 <= need_size
            &&& r.1 == (PriceBucket {
                volume: w.volume as i64,
                num_orders: w.num_orders as usize,
                ..b
            })
            &&& r.1.volume == w.volume
            &&& final(events)@ == old(events)@ + w.events
        }),
{
    let ghost w0 = passed(
        pool@,
        b,
        b.volume as int,
        b.num_orders as int,
        b.head,
        need_size as int,
        *t,
    );
    let ghost len = pool@.slots.len();
    let mut bucket = b;
    let mut filled: i64 = 0;
    let mut at: usize = b.head;
    let ghost mut told: Seq<MatcherTradeEvent> = Seq::empty();
    proof {
        assert(told + w0.events =~= w0.events);
        assert(old(events)@ + told =~= old(events)@);
    }
    while filled < need_size && pool.slots[at].active
        invariant_except_break
            ({
                let w = passed(
                    pool@,
                    b,
                    bucket.volume as int,
                    bucket.num_orders as int,
                    at,
                    need_size - filled,
                    *t,
                );
                &&& w0.pool == w.pool
                &&& w0.volume == w.volume
                &&& w0.num_orders == w.num_orders
                &&& w0.need == w.need
                &&& w0.events == told + w.events
                &&& w.fits
            }),
        invariant
            pool.wf(),
            pool@.slots.len() == len,
            pool@.slots == pool.slots@,
            at < len,
            0 <= filled <= need_size,
            bucket == (PriceBucket {
                volume: bucket.volume,
                num_orders: bucket.num_orders,
                ..b
            }),
            events@ == old(events)@ + told,
        ensures
            w0.pool == pool@,
            w0.volume == bucket.volume,
            w0.num_orders == bucket.num_orders,
            w0.need == need_size - filled,
            w0.events == told,
        decreases active_slots(pool@.slots),
    {
        let slot = pool.slots[at];
        let ghost p = pool@;
        let ghost need = need_size - filled;
        proof {
            assert(p.slots[at as int].filled <= p.slots[at as int].size);
            assert(p.slots[at as int].next matches Some(n) ==> n < len);
        }
        let order_remaining: i64 = slot.size - slot.filled;
        let trade_size: i64 = if need_size - filled < order_remaining {
            need_size - filled
        } else {
            order_remaining
        };
        pool.fill(at, trade_size);
        bucket.volume = bucket.volume - trade_size;
        filled = filled + trade_size;
        let reserve: i64 = match t.action {
            OrderAction::Bid => t.reserve_price,
            OrderAction::Ask => slot.reserve_price,
        };
        let event = MatcherTradeEvent::new_trade(
            trade_size,
            b.price,
            slot.order_id,
            slot.uid,
            reserve,
        );
        events.push(event);
        let ghost told0 = told;
        proof {
            assert(event == trade_at(*t, b.price, slot, trade_size as int));
            assert((old(events)@ + told).push(event) =~= old(events)@ + told.push(event));
            told = told.push(event);
            assert(told0 + seq![event] =~= told);
            lemma_active_same(p.slots, at as int, pool@.slots[at as int]);
        }
        if trade_size == order_remaining {
            let ghost p1 = pool@;
            pool.forget(slot.order_id);
            pool.dealloc(at);
            bucket.num_orders = bucket.num_orders - 1;
            proof {
                lemma_active_released(p1.slots, at as int, pool@.slots[at as int]);
            }
            match slot.next {
                Some(n) => {
                    proof {
                        let rest = passed(
                            pool@,
                            b,
                            bucket.volume as int,
                            bucket.num_orders as int,
                            n,
                            need_size - filled,
                            *t,
                        );
                        assert(told0 + (seq![event] + rest.events) =~= told + rest.events);
                    }
                    at = n;
                },
                None => {
                    break;
                },
            }
        } else {
            break;
        }
    }
    proof {
        assert(told + Seq::<MatcherTradeEvent>::empty() =~= told);
    }
    (filled, bucket)
}

/// Matches against the levels of a side, slot by slot.
fn pass_levels(
    pool: &mut OrderPool,
    side: &mut Vec<PriceBucket>,
    need_size: Size,
    t: &Terms,
    events: &mut Vec<MatcherTradeEvent>,
) -> (r: Size)
    requires
        old(pool).wf(),
        side_ok(old(side)@, t.action.other(), old(pool)@.slots.len()),
        need_size >= 0,
        swept_singly(old(pool)@, old(side)@, need_size as int, *t).fits,
    ensures
        final(pool).wf(),
        final(pool)@.slots.len() == old(pool)@.slots.len(),
        side_ok(final(side)@, t.action.other(), final(pool)@.slots.len()),
        ({
            let w = swept_singly(old(pool)@, old(side)@, need_size as int, *t);
            &&& final(pool)@ == w.pool
            &&& final(side)@ == w.side
            &&& r == need_size - w.need
            &&& 0 <= r <= need_size
            &&& final(events)@ == old(events)@ + w.events
        }),
{
    let ghost w0 = swept_singly(pool@, side@, need_size as int, *t);
    let ghost len = pool@.slots.len();
    let ghost action = t.action.other();
    let mut filled: i64 = 0;
    let mut i: usize = 0;
    let ghost mut told: Seq<MatcherTradeEvent> = Seq::empty();
    proof {
        lemma_preceded_start(w0);
        assert(side@.take(0) =~= Seq::<PriceBucket>::empty());
        assert(side@.skip(0) =~= side@);
        assert(old(events)@ + told =~= old(events)@);
    }
    while i < side.len() && filled < need_size
        invariant_except_break
            w0 == preceded(
                side@.take(i as int),
                told,
                true,
                swept_singly(pool@, side@.skip(i as int), need_size - filled, *t),
            ),
        invariant
            pool.wf(),
            pool@.slots.len() == len,
            side_ok(side@, action, len),
            action == t.action.other(),
            i <= side@.len(),
            0 <= filled <= need_size,
            w0.fits,
            events@ == old(events)@ + told,
        ensures
            w0 == (Sweep {
                pool: pool@,
                side: side@,
                need: need_size - filled,
                events: told,
                fits: true,
            }),
        decreases side@.len() - i,
    {
        let ghost front = side@.take(i as int);
        let ghost back = side@.skip(i as int);
        let ghost p = pool@;
        let ghost need = need_size - filled;
        let b = side[i];
        proof {
            assert(back[0] == b);
            assert(back.drop_first() =~= side@.skip(i + 1));
            assert(front + back =~= side@);
            assert(side@[i as int].head < len);
        }
        if !price_crosses(t, b.price) {
            proof {
                lemma_preceded_end(front, told, p, back, need);
            }
            break;
        }
        let ghost pass = passed(p, b, b.volume as int, b.num_orders as int, b.head, need, *t);
        let ghost told0 = told;
        let (matched, next) = pass_level(pool, b, need_size - filled, t, events);
        filled = filled + matched;
        let ghost rest = swept_singly(pool@, side@.skip(i + 1), need_size - filled, *t);
        proof {
            told = told0 + pass.events;
            assert((old(events)@ + told0) + pass.events =~= old(events)@ + told);
        }
        if next.volume == 0 {
            proof {
                lemma_preceded_more(front, told0, Seq::empty(), pass.events, true, rest);
                assert(front + Seq::<PriceBucket>::empty() =~= front);
                assert(side@.remove(i as int).take(i as int) =~= front);
                assert(side@.remove(i as int).skip(i as int) =~= side@.skip(i + 1));
                lemma_side_dropped(side@, i as int, action, len);
            }
            let gone = side.remove(i);
        } else {
            proof {
                lemma_preceded_more(front, told0, seq![next], pass.events, true, rest);
                lemma_side_changed(side@, i as int, next, action, len);
                let s2 = side@.update(i as int, next);
                assert(s2.take(i + 1) =~= front + seq![next]);
                assert(s2.skip(i + 1) =~= side@.skip(i + 1));
            }
            side.set(i, next);
            i = i + 1;
        }
    }
    filled
}

/// A book on a pool of slots.
#[verifier::ext_equal]
pub struct OptimizedModel {
    pub spec: CoreSymbolSpecification,
    pub pool: PoolModel,
    pub asks: Seq<PriceBucket>,
    pub bids: Seq<PriceBucket>,
    pub batched: bool,
}

impl OptimizedModel {
    pub open spec fn side(self, action: OrderAction) -> Seq<PriceBucket> {
        match action {
            OrderAction::Ask => self.asks,
            OrderAction::Bid => self.bids,
        }
    }

    pub open spec fn with(self, action: OrderAction, side: Seq<PriceBucket>) -> OptimizedModel {
        match action {
            OrderAction::Ask => OptimizedModel { asks: side, ..self },
            OrderAction::Bid => OptimizedModel { bids: side, ..self },
        }
    }
}

/// What a command does to the book.
#[verifier::ext_equal]
pub struct OptimizedStep {
    pub book: OptimizedModel,
    pub code: CommandResultCode,
    pub action: OrderAction,
    pub events: Seq<MatcherTradeEvent>,
    /// The walks end, and the sums fit.
    pub fits: bool,
}

pub open spec fn refused(
    m: OptimizedModel,
    c: OrderCommand,
    code: CommandResultCode,
) -> OptimizedStep {
    OptimizedStep { book: m, code, action: c.action, events: Seq::empty(), fits: true }
}

/// The other side, once an order was matched.
pub open spec fn sweep_of(m: OptimizedModel, c: OrderCommand) -> Sweep {
    let side = m.side(c.action.other());
    if m.batched {
        swept(m.pool, side, c.size as int, terms_of(c))
    } else {
        swept_singly(m.pool, side, c.size as int, terms_of(c))
    }
}

pub open spec fn after_sweep(m: OptimizedModel, c: OrderCommand) -> OptimizedModel {
    let w = sweep_of(m, c);
    OptimizedModel { pool: w.pool, ..m }.with(c.action.other(), w.side)
}

/// Where the level of a price is or would be.
pub open spec fn level_slot(side: Seq<PriceBucket>, action: OrderAction, price: Price) -> int
    decreases side.len(),
{
    if side.len() == 0 || model::rank_of(action, side[0].price) >= model::rank_of(action, price) {
        0
    } else {
        1 + level_slot(side.drop_first(), action, price)
    }
}

/// Whether there is a level at a place.
pub open spec fn level_there(side: Seq<PriceBucket>, k: int, price: Price) -> bool {
    k < side.len() && side[k].price == price
}

/// Lets what is left of an order rest: in the slot that was freed last, in front of the
/// orders of its price. Where no slot is free it is lost. A slot of a new level keeps
/// the link that it had.
pub open spec fn rested(m: OptimizedModel, c: OrderCommand, remaining: int) -> OptimizedModel {
    if m.pool.free.len() == 0 {
        m
    } else {
        let idx = m.pool.free.last();
        let side = m.side(c.action);
        let k = level_slot(side, c.action, c.price);
        let there = level_there(side, k, c.price);
        let slot = Slot {
            order_id: c.order_id,
            price: c.price,
            size: c.size,
            filled: (c.size - remaining) as i64,
            next: if there {
                Some(side[k].head)
            } else {
                m.pool.slots[idx as int].next
            },
            active: true,
            uid: c.uid,
            action: c.action,
            reserve_price: c.reserve_price,
            timestamp: c.timestamp,
        };
        let pool = PoolModel {
            slots: m.pool.slots.update(idx as int, slot),
            free: m.pool.free.drop_last(),
            index: m.pool.index.insert(c.order_id, idx),
        };
        let side2 = if there {
            side.update(
                k,
                PriceBucket {
                    volume: (side[k].volume + remaining) as i64,
                    num_orders: (side[k].num_orders + 1) as usize,
                    head: idx,
                    ..side[k]
                },
            )
        } else {
            side.insert(
                k,
                PriceBucket {
                    price: c.price,
                    volume: remaining as i64,
                    num_orders: 1,
                    head: idx,
                },
            )
        };
        OptimizedModel { pool, ..m }.with(c.action, side2)
    }
}

/// Whether the tallies of a level have room for an order.
pub open spec fn has_room(m: OptimizedModel, c: OrderCommand, remaining: int) -> bool {
    let side = m.side(c.action);
    let k = level_slot(side, c.action, c.price);
    m.pool.free.len() > 0 && level_there(side, k, c.price) ==> {
        &&& i64::MIN <= side[k].volume + remaining <= i64::MAX
        &&& side[k].num_orders < usize::MAX
    }
}

pub open spec fn new_ordered(m: OptimizedModel, c: OrderCommand) -> OptimizedStep {
    let w = sweep_of(m, c);
    let m2 = after_sweep(m, c);
    if m.pool.index.contains_key(c.order_id) {
        refused(m, c, CommandResultCode::MatchingDuplicateOrderId)
    } else {
        match c.order_type {
            OrderType::Gtc => OptimizedStep {
                book: if w.need > 0 {
                    rested(m2, c, w.need)
                } else {
                    m2
                },
                code: CommandResultCode::Success,
                action: c.action,
                events: w.events,
                fits: w.fits && (w.need > 0 ==> has_room(m2, c, w.need)),
            },
            OrderType::Ioc => OptimizedStep {
                book: m2,
                code: CommandResultCode::Success,
                action: c.action,
                events: w.events + model::leftover(c, w.need),
                fits: w.fits,
            },
            _ => refused(m, c, CommandResultCode::MatchingUnsupportedCommand),
        }
    }
}

/// An order is forgotten and its slot given back. The levels stay as they are.
pub open spec fn cancelled(m: OptimizedModel, c: OrderCommand) -> OptimizedStep {
    if m.pool.index.contains_key(c.order_id) {
        let i = m.pool.index[c.order_id];
        let s = m.pool.slots[i as int];
        OptimizedStep {
            book: OptimizedModel {
                pool: m.pool.forget(c.order_id).release(i),
                ..m
            },
            code: CommandResultCode::Success,
            action: s.action,
            events: seq![api::reject_event(left(s), s.price, s.reserve_price)],
            fits: true,
        }
    } else {
        refused(m, c, CommandResultCode::MatchingUnknownOrderId)
    }
}

/// A command that the book answered.
pub open spec fn told(old: OrderCommand, new: OrderCommand, step: OptimizedStep) -> bool {
    &&& api::same_request(old, new)
    &&& new.reserve_price == old.reserve_price
    &&& new.result_code == old.result_code
    &&& new.action == step.action
    &&& new.matcher_events@ == old.matcher_events@ + step.events
}

pub struct DirectOrderBookOptimized {
    symbol_spec: CoreSymbolSpecification,
    order_pool: OrderPool,
    ask_buckets: Vec<PriceBucket>,
    bid_buckets: Vec<PriceBucket>,
    use_simd: bool,
}

impl View for DirectOrderBookOptimized {
    type V = OptimizedModel;

    closed spec fn view(&self) -> OptimizedModel {
        OptimizedModel {
            spec: self.symbol_spec,
            pool: self.order_pool@,
            asks: self.ask_buckets@,
            bids: self.bid_buckets@,
            batched: self.use_simd,
        }
    }
}

pub proof fn lemma_level_slot(side: Seq<PriceBucket>, action: OrderAction, price: Price)
    ensures
        0 <= level_slot(side, action, price) <= side.len(),
        forall|i: int|
            0 <= i < level_slot(side, action, price) ==> model::rank_of(
                action,
                (#[trigger] side[i]).price,
            ) < model::rank_of(action, price),
        level_slot(side, action, price) < side.len() ==> model::rank_of(
            action,
            side[level_slot(side, action, price)].price,
        ) >= model::rank_of(action, price),
    decreases side.len(),
{
    if side.len() > 0 && model::rank_of(action, side[0].price) < model::rank_of(action, price) {
        let rest = side.drop_first();
        lemma_level_slot(rest, action, price);
        assert forall|i: int| 0 <= i < level_slot(side, action, price) implies model::rank_of(
            action,
            (#[trigger] side[i]).price,
        ) < model::rank_of(action, price) by {
            if i > 0 {
                assert(rest[i - 1] == side[i]);
            }
        }
    }
}

/// Finds the place of a level.
fn find_level(side: &Vec<PriceBucket>, action: OrderAction, price: Price) -> (r: usize)
    ensures
        r == level_slot(side@, action, price),
        r <= side@.len(),
{
    let mut i: usize = 0;
    proof {
        assert(side@.skip(0) =~= side@);
    }
    while i < side.len() && better(action, side[i].price, price)
        invariant
            i <= side@.len(),
            level_slot(side@, action, price) == i + level_slot(
                side@.skip(i as int),
                action,
                price,
            ),
        decreases side@.len() - i,
    {
        proof {
            assert(side@.skip(i as int)[0] == side@[i as int]);
            assert(side@.skip(i as int).drop_first() =~= side@.skip(i + 1));
        }
        i = i + 1;
    }
    proof {
        if i < side@.len() {
            assert(side@.skip(i as int)[0] == side@[i as int]);
        }
    }
    i
}

fn better(action: OrderAction, a: Price, b: Price) -> (r: bool)
    ensures
        r == (model::rank_of(action, a) < model::rank_of(action, b)),
{
    match action {
        OrderAction::Ask => a < b,
        OrderAction::Bid => a > b,
    }
}

/// Adds an order to the levels of its side. Returns the slot that was in front.
fn insert_to_bucket(
    side: &mut Vec<PriceBucket>,
    action: OrderAction,
    price: Price,
    idx: usize,
    size: Size,
    Ghost(slots): Ghost<nat>,
) -> (r: Option<usize>)
    requires
        side_ok(old(side)@, action, slots),
        idx < slots,
        ({
            let k = level_slot(old(side)@, action, price);
            level_there(old(side)@, k, price) ==> {
                &&& i64::MIN <= old(side)@[k].volume + size <= i64::MAX
                &&& old(side)@[k].num_orders < usize::MAX
            }
        }),
    ensures
        side_ok(final(side)@, action, slots),
        ({
            let k = level_slot(old(side)@, action, price);
            if level_there(old(side)@, k, price) {
                &&& r == Some(old(side)@[k].head)
                &&& old(side)@[k].head < slots
                &&& final(side)@ == old(side)@.update(
                    k,
                    PriceBucket {
                        volume: (old(side)@[k].volume + size) as i64,
                        num_orders: (old(side)@[k].num_orders + 1) as usize,
                        head: idx,
                        ..old(side)@[k]
                    },
                )
            } else {
                &&& r.is_none()
                &&& final(side)@ == old(side)@.insert(
                    k,
                    PriceBucket { price, volume: size, num_orders: 1, head: idx },
                )
            }
        }),
{
    let ghost s0 = side@;
    let k: usize = find_level(side, action, price);
    proof {
        lemma_level_slot(s0, action, price);
    }
    if k < side.len() && side[k].price == price {
        let mut b = side[k];
        let front: usize = b.head;
        assert(s0[k as int].head < slots);
        b.volume = b.volume + size;
        b.num_orders = b.num_orders + 1;
        b.head = idx;
        side.set(k, b);
        proof {
            let t = side@;
            assert forall|i: int| 0 <= i < t.len() implies (#[trigger] t[i]).head < slots by {
                assert(s0[i].head < slots);
            }
            assert forall|i: int, j: int| 0 <= i < j < t.len() implies model::rank_of(
                action,
                (#[trigger] t[i]).price,
            ) < model::rank_of(action, (#[trigger] t[j]).price) by {
                assert(t[i].price == s0[i].price && t[j].price == s0[j].price);
            }
        }
        Some(front)
    } else {
        let b = PriceBucket { price, volume: size, num_orders: 1, head: idx };
        side.insert(k, b);
        proof {
            let t = side@;
            assert forall|i: int| 0 <= i < t.len() implies (#[trigger] t[i]).head < slots by {
                if i < k {
                    assert(t[i] == s0[i]);
                } else if i > k {
                    assert(t[i] == s0[i - 1]);
                }
            }
            assert forall|i: int, j: int| 0 <= i < j < t.len() implies model::rank_of(
                action,
                (#[trigger] t[i]).price,
            ) < model::rank_of(action, (#[trigger] t[j]).price) by {
                if j < k {
                    assert(t[i] == s0[i] && t[j] == s0[j]);
                } else if j == k {
                    assert(t[i] == s0[i]);
                } else if i < k {
                    assert(t[i] == s0[i] && t[j] == s0[j - 1]);
                } else if i == k {
                    assert(t[j] == s0[j - 1]);
                    if j - 1 > k {
                        assert(model::rank_of(action, s0[k as int].price) < model::rank_of(
                            action,
                            s0[j - 1].price,
                        ));
                    }
                } else {
                    assert(t[i] == s0[i - 1] && t[j] == s0[j - 1]);
                }
            }
        }
        None
    }
}

impl DirectOrderBookOptimized {
    pub closed spec fn wf(&self) -> bool {
        &&& self.order_pool.wf()
        &&& side_ok(self.ask_buckets@, OrderAction::Ask, self.order_pool@.slots.len())
        &&& side_ok(self.bid_buckets@, OrderAction::Bid, self.order_pool@.slots.len())
    }

    pub fn new(spec: CoreSymbolSpecification) -> (r: DirectOrderBookOptimized)
        ensures
            r.wf(),
            r@ == (OptimizedModel {
                spec,
                pool: empty_pool(POOL_CAPACITY as nat),
                asks: Seq::empty(),
                bids: Seq::empty(),
                batched: true,
            }),
    {
        DirectOrderBookOptimized {
            symbol_spec: spec,
            order_pool: OrderPool::new(POOL_CAPACITY),
            ask_buckets: Vec::new(),
            bid_buckets: Vec::new(),
            use_simd: true,
        }
    }

    /// Whether levels with enough orders are matched as batches.
    pub fn set_simd_enabled(&mut self, enabled: bool)
        requires
            old(self).wf(),
        ensures
            final(self).wf(),
            final(self)@ == (OptimizedModel { batched: enabled, ..old(self)@ }),
    {
        self.use_simd = enabled;
    }

    /// Matches slot by slot.
    fn try_match(&mut self, cmd: &mut OrderCommand) -> (r: Size)
        requires
            old(self).wf(),
            old(cmd).size >= 0,
            !old(self)@.batched,
            sweep_of(old(self)@, *old(cmd)).fits,
        ensures
            final(self).wf(),
            final(self)@ == after_sweep(old(self)@, *old(cmd)),
            r == old(cmd).size - sweep_of(old(self)@, *old(cmd)).need,
            0 <= r <= old(cmd).size,
            *final(cmd) == (OrderCommand { matcher_events: final(cmd).matcher_events, ..*old(cmd) }),
            final(cmd).matcher_events@ == old(cmd).matcher_events@ + sweep_of(
                old(self)@,
                *old(cmd),
            ).events,
    {
        let t = Terms { action: cmd.action, limit: cmd.price, reserve_price: cmd.reserve_price };
        match cmd.action {
            OrderAction::Bid => pass_levels(
                &mut self.order_pool,
                &mut self.ask_buckets,
                cmd.size,
                &t,
                &mut cmd.matcher_events,
            ),
            OrderAction::Ask => pass_levels(
                &mut self.order_pool,
                &mut self.bid_buckets,
                cmd.size,
                &t,
                &mut cmd.matcher_events,
            ),
        }
    }

    /// Matches level by level, those with enough orders as batches.
    fn try_match_simd_batch(&mut self, cmd: &mut OrderCommand) -> (r: Size)
        requires
            old(self).wf(),
            old(cmd).size >= 0,
            old(self)@.batched,
            sweep_of(old(self)@, *old(cmd)).fits,
        ensures
            final(self).wf(),
            final(self)@ == after_sweep(old(self)@, *old(cmd)),
            r == old(cmd).size - sweep_of(old(self)@, *old(cmd)).need,
            0 <= r <= old(cmd).size,
            *final(cmd) == (OrderCommand { matcher_events: final(cmd).matcher_events, ..*old(cmd) }),
            final(cmd).matcher_events@ == old(cmd).matcher_events@ + sweep_of(
                old(self)@,
                *old(cmd),
            ).events,
    {
        let t = Terms { action: cmd.action, limit: cmd.price, reserve_price: cmd.reserve_price };
        match cmd.action {
            OrderAction::Bid => sweep_levels(
                &mut self.order_pool,
                &mut self.ask_buckets,
                cmd.size,
                &t,
                &mut cmd.matcher_events,
            ),
            OrderAction::Ask => sweep_levels(
                &mut self.order_pool,
                &mut self.bid_buckets,
                cmd.size,
                &t,
                &mut cmd.matcher_events,
            ),
        }
    }

    /// Matches in the way that is set.
    fn match_order(&mut self, cmd: &mut OrderCommand) -> (r: Size)
        requires
            old(self).wf(),
            old(cmd).size >= 0,
            sweep_of(old(self)@, *old(cmd)).fits,
        ensures
            final(self).wf(),
            final(self)@ == after_sweep(old(self)@, *old(cmd)),
            r == old(cmd).size - sweep_of(old(self)@, *old(cmd)).need,
            0 <= r <= old(cmd).size,
            *final(cmd) == (OrderCommand { matcher_events: final(cmd).matcher_events, ..*old(cmd) }),
            final(cmd).matcher_events@ == old(cmd).matcher_events@ + sweep_of(
                old(self)@,
                *old(cmd),
            ).events,
    {
        if self.use_simd {
            self.try_match_simd_batch(cmd)
        } else {
            self.try_match(cmd)
        }
    }

    /// Lets what is left of an order rest.
    fn rest(&mut self, cmd: &OrderCommand, filled: Size)
        requires
            old(self).wf(),
            0 <= filled < cmd.size,
            has_room(old(self)@, *cmd, cmd.size - filled),
        ensures
            final(self).wf(),
            final(self)@ == rested(old(self)@, *cmd, cmd.size - filled),
    {
        let ghost m = self@;
        let ghost p = m.pool;
        let n: usize = self.order_pool.free_list.len();
        if n == 0 {
            return;
        }
        let idx: usize = self.order_pool.free_list[n - 1];
        assert(p.free[n - 1] < p.slots.len());
        let popped = self.order_pool.free_list.pop();
        let front: Option<usize> = match cmd.action {
            OrderAction::Ask => insert_to_bucket(
                &mut self.ask_buckets,
                OrderAction::Ask,
                cmd.price,
                idx,
                cmd.size - filled,
                Ghost(p.slots.len()),
            ),
            OrderAction::Bid => insert_to_bucket(
                &mut self.bid_buckets,
                OrderAction::Bid,
                cmd.price,
                idx,
                cmd.size - filled,
                Ghost(p.slots.len()),
            ),
        };
        let next: Option<usize> = match front {
            Some(h) => Some(h),
            None => self.order_pool.slots[idx].next,
        };
        assert(p.slots[idx as int].next matches Some(x) ==> x < p.slots.len());
        self.order_pool.slots.set(
            idx,
            Slot {
                order_id: cmd.order_id,
                price: cmd.price,
                size: cmd.size,
                filled,
                next,
                active: true,
                uid: cmd.uid,
                action: cmd.action,
                reserve_price: cmd.reserve_price,
                timestamp: cmd.timestamp,
            },
        );
        self.order_pool.order_index.insert(cmd.order_id, idx);
        proof {
            let q = self.order_pool@;
            assert forall|k: int| 0 <= k < q.slots.len() implies {
                &&& 0 <= (#[trigger] q.slots[k]).filled <= q.slots[k].size
                &&& q.slots[k].next matches Some(x) ==> x < q.slots.len()
            } by {
                assert(p.slots[k].filled <= p.slots[k].size);
            }
            assert forall|k: int| 0 <= k < q.free.len() implies (#[trigger] q.free[k])
                < q.slots.len() by {
                assert(p.free[k] < p.slots.len());
            }
            assert forall|id: OrderId| #[trigger] q.index.contains_key(id) implies q.index[id]
                < q.slots.len() by {
                if id != cmd.order_id {
                    assert(p.index.contains_key(id));
                }
            }
            assert(self@.pool =~= rested(m, *cmd, cmd.size - filled).pool);
        }
    }

    /// A new order.
    pub fn new_order(&mut self, cmd: &mut OrderCommand) -> (r: CommandResultCode)
        requires
            old(self).wf(),
            old(cmd).size >= 0,
            new_ordered(old(self)@, *old(cmd)).fits,
        ensures
            final(self).wf(),
            final(self)@ == new_ordered(old(self)@, *old(cmd)).book,
            r == new_ordered(old(self)@, *old(cmd)).code,
            told(*old(cmd), *final(cmd), new_ordered(old(self)@, *old(cmd))),
    {
        proof {
            assert(cmd.matcher_events@ + Seq::<MatcherTradeEvent>::empty() =~= cmd.matcher_events@);
        }
        if self.order_pool.order_index.contains_key(cmd.order_id) {
            return CommandResultCode::MatchingDuplicateOrderId;
        }
        match cmd.order_type {
            OrderType::Gtc => {
                let filled: i64 = self.match_order(cmd);
                if filled < cmd.size {
                    self.rest(cmd, filled);
                }
                CommandResultCode::Success
            },
            OrderType::Ioc => {
                let filled: i64 = self.match_order(cmd);
                if filled < cmd.size {
                    cmd.matcher_events.push(
                        MatcherTradeEvent::new_reject(
                            cmd.size - filled,
                            cmd.price,
                            cmd.reserve_price,
                        ),
                    );
                }
                assert(cmd.matcher_events@ =~= old(cmd).matcher_events@ + new_ordered(
                    old(self)@,
                    *old(cmd),
                ).events);
                CommandResultCode::Success
            },
            _ => CommandResultCode::MatchingUnsupportedCommand,
        }
    }

    /// Forgets an order, whoever asks for it.
    pub fn cancel_order(&mut self, cmd: &mut OrderCommand) -> (r: CommandResultCode)
        requires
            old(self).wf(),
        ensures
            final(self).wf(),
            final(self)@ == cancelled(old(self)@, *old(cmd)).book,
            r == cancelled(old(self)@, *old(cmd)).code,
            told(*old(cmd), *final(cmd), cancelled(old(self)@, *old(cmd))),
    {
        proof {
            assert(cmd.matcher_events@ + Seq::<MatcherTradeEvent>::empty() =~= cmd.matcher_events@);
        }
        let ghost p = self.order_pool@;
        let idx: usize = match self.order_pool.order_index.get(cmd.order_id) {
            Some(i) => *i,
            None => {
                return CommandResultCode::MatchingUnknownOrderId;
            },
        };
        proof {
            assert(p.index.contains_key(cmd.order_id));
            assert(p.slots[idx as int].filled <= p.slots[idx as int].size);
        }
        let s = self.order_pool.slots[idx];
        cmd.matcher_events.push(
            MatcherTradeEvent::new_reject(s.size - s.filled, s.price, s.reserve_price),
        );
        cmd.action = s.action;
        self.order_pool.forget(cmd.order_id);
        self.order_pool.dealloc(idx);
        proof {
            assert(cmd.matcher_events@ =~= old(cmd).matcher_events@ + cancelled(
                old(self)@,
                *old(cmd),
            ).events);
        }
        CommandResultCode::Success
    }

    /// Moving is not supported.
    pub fn move_order(&mut self, cmd: &mut OrderCommand) -> (r: CommandResultCode)
        ensures
            *final(self) == *old(self),
            *final(cmd) == *old(cmd),
            r == CommandResultCode::MatchingUnsupportedCommand,
    {
        CommandResultCode::MatchingUnsupportedCommand
    }

    /// Reducing is not supported.
    pub fn reduce_order(&mut self, cmd: &mut OrderCommand) -> (r: CommandResultCode)
        ensures
            *final(self) == *old(self),
            *final(cmd) == *old(cmd),
            r == CommandResultCode::MatchingUnsupportedCommand,
    {
        CommandResultCode::MatchingUnsupportedCommand
    }

    pub fn get_symbol_spec(&self) -> (r: &CoreSymbolSpecification)
        ensures
            *r == self@.spec,
    {
        &self.symbol_spec
    }

    /// The best levels of both sides, as many as the depth says.
    pub fn get_l2_data(&self, depth: usize) -> (r: L2MarketData)
        ensures
            lists(self@.asks, depth, r.ask_prices@, r.ask_volumes@, r.ask_order_counts@),
            lists(self@.bids, depth, r.bid_prices@, r.bid_volumes@, r.bid_order_counts@),
    {
        let mut data = L2MarketData::new(depth);
        list_levels(
            &self.ask_buckets,
            depth,
            &mut data.ask_prices,
            &mut data.ask_volumes,
            &mut data.ask_order_counts,
        );
        list_levels(
            &self.bid_buckets,
            depth,
            &mut data.bid_prices,
            &mut data.bid_volumes,
            &mut data.bid_order_counts,
        );
        data
    }

    /// Price and side of an order.
    pub fn get_order_by_id(&self, order_id: OrderId) -> (r: Option<(Price, OrderAction)>)
        requires
            self.wf(),
        ensures
            r == (if self@.pool.index.contains_key(order_id) {
                let s = self@.pool.slots[self@.pool.index[order_id] as int];
                Some((s.price, s.action))
            } else {
                None
            }),
    {
        match self.order_pool.order_index.get(order_id) {
            Some(i) => {
                assert(self@.pool.index.contains_key(order_id));
                let s = self.order_pool.slots[*i];
                Some((s.price, s.action))
            },
            None => None,
        }
    }

    /// The tallies of the asks together. The sums fit.
    pub fn get_total_ask_volume(&self) -> (r: Size)
        requires
            sums_fit(self@.asks),
        ensures
            r == total_volume(self@.asks),
    {
        sum_levels(&self.ask_buckets)
    }

    /// The tallies of the bids together. The sums fit.
    pub fn get_total_bid_volume(&self) -> (r: Size)
        requires
            sums_fit(self@.bids),
        ensures
            r == total_volume(self@.bids),
    {
        sum_levels(&self.bid_buckets)
    }

    pub fn get_ask_buckets_count(&self) -> (r: usize)
        ensures
            r == self@.asks.len(),
    {
        self.ask_buckets.len()
    }

    pub fn get_bid_buckets_count(&self) -> (r: usize)
        ensures
            r == self@.bids.len(),
    {
        self.bid_buckets.len()
    }
}

/// The tallies of some levels together.
pub open spec fn total_volume(side: Seq<PriceBucket>) -> int
    decreases side.len(),
{
    if side.len() == 0 {
        0
    } else {
        total_volume(side.drop_last()) + side.last().volume
    }
}

/// Whether the machine can form the sum of some tallies.
pub open spec fn sums_fit(side: Seq<PriceBucket>) -> bool {
    forall|k: int|
        0 <= k <= side.len() ==> i64::MIN <= total_volume(#[trigger] side.take(k)) <= i64::MAX
}

fn sum_levels(side: &Vec<PriceBucket>) -> (r: Size)
    requires
        sums_fit(side@),
    ensures
        r == total_volume(side@),
{
    let mut sum: i64 = 0;
    let mut i: usize = 0;
    proof {
        assert(side@.take(side@.len() as int) =~= side@);
        assert(side@.take(0) =~= Seq::<PriceBucket>::empty());
    }
    while i < side.len()
        invariant
            i <= side@.len(),
            sums_fit(side@),
            sum == total_volume(side@.take(i as int)),
        decreases side@.len() - i,
    {
        proof {
            assert(side@.take(i + 1).drop_last() =~= side@.take(i as int));
            assert(total_volume(side@.take(i + 1)) <= i64::MAX);
        }
        sum = sum + side[i].volume;
        i = i + 1;
    }
    sum
}

/// The best of some levels, with their tallies.
pub open spec fn lists(
    side: Seq<PriceBucket>,
    depth: usize,
    prices: Seq<Price>,
    volumes: Seq<Size>,
    counts: Seq<usize>,
) -> bool {
    &&& prices.len() == model::smaller(depth as int, side.len() as int)
    &&& volumes.len() == prices.len()
    &&& counts.len() == prices.len()
    &&& forall|i: int|
        0 <= i < prices.len() ==> {
            &&& (#[trigger] prices[i]) == side[i].price
            &&& volumes[i] == side[i].volume
            &&& counts[i] == side[i].num_orders
        }
}

fn list_levels(
    side: &Vec<PriceBucket>,
    depth: usize,
    prices: &mut Vec<Price>,
    volumes: &mut Vec<Size>,
    counts: &mut Vec<usize>,
)
    requires
        old(prices)@.len() == 0,
        old(volumes)@.len() == 0,
        old(counts)@.len() == 0,
    ensures
        lists(side@, depth, final(prices)@, final(volumes)@, final(counts)@),
{
    let mut i: usize = 0;
    while i < side.len() && i < depth
        invariant
            i <= side@.len(),
            i <= depth,
            prices@.len() == i,
            volumes@.len() == i,
            counts@.len() == i,
            forall|k: int|
                0 <= k < i ==> {
                    &&& (#[trigger] prices@[k]) == side@[k].price
                    &&& volumes@[k] == side@[k].volume
                    &&& counts@[k] == side@[k].num_orders
                },
        decreases side@.len() - i,
    {
        prices.push(side[i].price);
        volumes.push(side[i].volume);
        counts.push(side[i].num_orders);
        i = i + 1;
    }
}

} // verus!
