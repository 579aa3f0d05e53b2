//! What an order book of the exchange does, as functions on the orders of its
//! two sides, each in the order of priority.
use vstd::prelude::*;

use crate::exchange::api;
use crate::exchange::api::{
    CommandResultCode, CoreSymbolSpecification, MatcherTradeEvent, OrderAction, OrderCommand,
    OrderId, OrderType, Price, SelfTradePrevention, Size, SymbolType, UserId,
};

verus! {

/// An order in the book.
#[derive(Debug, Clone, Copy, PartialEq, Eq, Structural)]
pub struct DirectOrder {
    pub order_id: OrderId,
    pub uid: UserId,
    pub price: Price,
    pub size: Size,
    pub filled: Size,
    pub action: OrderAction,
    pub reserve_price: Price,
    pub timestamp: i64,
}

/// What an order still wants.
pub open spec fn left(o: DirectOrder) -> int {
    o.size - o.filled
}

/// An order that stands in a book wants something.
pub open spec fn order_ok(o: DirectOrder, action: OrderAction) -> bool {
    o.action == action && 0 <= o.filled < o.size
}

/// A book: its specification, and the orders of each side, best first.
#[verifier::ext_equal]
pub struct BookModel {
    pub spec: CoreSymbolSpecification,
    pub asks: Seq<DirectOrder>,
    pub bids: Seq<DirectOrder>,
}

impl BookModel {
    pub open spec fn side(self, action: OrderAction) -> Seq<DirectOrder> {
        match action {
            OrderAction::Ask => self.asks,
            OrderAction::Bid => self.bids,
        }
    }

    pub open spec fn with(self, action: OrderAction, q: Seq<DirectOrder>) -> BookModel {
        match action {
            OrderAction::Ask => BookModel { asks: q, ..self },
            OrderAction::Bid => BookModel { bids: q, ..self },
        }
    }

    /// Whether an order is in the book.
    pub open spec fn has(self, id: OrderId) -> bool {
        listed(self.asks, id) || listed(self.bids, id)
    }

    /// On which side an order of the book is.
    pub open spec fn side_of(self, id: OrderId) -> OrderAction {
        if listed(self.asks, id) {
            OrderAction::Ask
        } else {
            OrderAction::Bid
        }
    }

    /// The order with an id.
    pub open spec fn order(self, id: OrderId) -> DirectOrder {
        let q = self.side(self.side_of(id));
        q[place_of(q, id)]
    }

    /// The book without an order.
    pub open spec fn without(self, id: OrderId) -> BookModel {
        let a = self.side_of(id);
        let q = self.side(a);
        self.with(a, q.remove(place_of(q, id)))
    }
}

/// Whether an order is among those of a side.
pub open spec fn listed(q: Seq<DirectOrder>, id: OrderId) -> bool {
    exists|i: int| 0 <= i < q.len() && (#[trigger] q[i]).order_id == id
}

/// Where an order of a side stands.
pub open spec fn place_of(q: Seq<DirectOrder>, id: OrderId) -> int {
    choose|i: int| 0 <= i < q.len() && (#[trigger] q[i]).order_id == id
}

/// The orders of a side are in order: best price first, each of the side and with
/// something to want.
pub open spec fn side_orderly(q: Seq<DirectOrder>, action: OrderAction) -> bool {
    &&& forall|i: int| 0 <= i < q.len() ==> order_ok(#[trigger] q[i], action)
    &&& forall|i: int, j: int|
        0 <= i <= j < q.len() ==> rank_of(action, (#[trigger] q[i]).price) <= rank_of(
            action,
            (#[trigger] q[j]).price,
        )
    &&& forall|i: int, j: int|
        0 <= i < q.len() && 0 <= j < q.len() && i != j ==> (#[trigger] q[i]).order_id != (
        #[trigger] q[j]).order_id
}

/// A book in order: both sides are, and no order is on both.
pub open spec fn orderly(b: BookModel) -> bool {
    &&& side_orderly(b.asks, OrderAction::Ask)
    &&& side_orderly(b.bids, OrderAction::Bid)
    &&& forall|i: int, j: int|
        0 <= i < b.asks.len() && 0 <= j < b.bids.len() ==> (#[trigger] b.asks[i]).order_id != (
        #[trigger] b.bids[j]).order_id
}

/// Ranks put the better price first: the lowest ask, the highest bid.
pub open spec fn rank_of(action: OrderAction, price: Price) -> int {
    match action {
        OrderAction::Ask => price as int,
        OrderAction::Bid => -1 - price,
    }
}

/// Where a new order at a rank goes: behind all orders of that rank and of better
/// ones.
pub open spec fn slot_of(q: Seq<DirectOrder>, rank: int) -> int
    decreases q.len(),
{
    if q.len() == 0 {
        0
    } else if rank_of(q.last().action, q.last().price) <= rank {
        q.len() as int
    } else {
        slot_of(q.drop_last(), rank)
    }
}

/// The orders of a side after a new one came to rest.
pub open spec fn enqueued(q: Seq<DirectOrder>, o: DirectOrder) -> Seq<DirectOrder> {
    q.insert(slot_of(q, rank_of(o.action, o.price)), o)
}

/// What the orders at a price want together.
pub open spec fn volume_at(q: Seq<DirectOrder>, price: Price) -> int
    decreases q.len(),
{
    if q.len() == 0 {
        0
    } else {
        volume_at(q.drop_last(), price) + (if q.last().price == price {
            left(q.last())
        } else {
            0
        })
    }
}

/// How many orders there are at a price.
pub open spec fn count_at(q: Seq<DirectOrder>, price: Price) -> nat
    decreases q.len(),
{
    if q.len() == 0 {
        0
    } else {
        count_at(q.drop_last(), price) + (if q.last().price == price {
            1nat
        } else {
            0nat
        })
    }
}

/// The prices of a side, each once, best first.
pub open spec fn prices(q: Seq<DirectOrder>) -> Seq<Price>
    decreases q.len(),
{
    if q.len() == 0 {
        Seq::empty()
    } else {
        let before = prices(q.drop_last());
        if before.len() > 0 && before.last() == q.last().price {
            before
        } else {
            before.push(q.last().price)
        }
    }
}

/// What the orders of a side want together.
pub open spec fn total(q: Seq<DirectOrder>) -> int
    decreases q.len(),
{
    if q.len() == 0 {
        0
    } else {
        left(q.first()) + total(q.drop_first())
    }
}

/// What it costs to take a size from the best orders of a side, or `None` if they
/// want less.
pub open spec fn cost(q: Seq<DirectOrder>, size: int) -> Option<int>
    decreases q.len(),
{
    if q.len() == 0 {
        None
    } else if size <= left(q[0]) {
        Some(size * q[0].price)
    } else {
        match cost(q.drop_first(), size - left(q[0])) {
            Some(rest) => Some(left(q[0]) * q[0].price + rest),
            None => None,
        }
    }
}

/// Whether a cost keeps to a budget: a bid pays at most that, an ask gets at least
/// that.
pub open spec fn within_budget(action: OrderAction, cost: int, limit: int) -> bool {
    cost != i64::MAX && match action {
        OrderAction::Bid => cost <= limit,
        OrderAction::Ask => cost >= limit,
    }
}

/// What matching asks of the incoming order.
#[derive(Debug, Clone, Copy)]
pub struct Taker {
    pub uid: UserId,
    pub action: OrderAction,
    pub limit: Price,
    pub reserve_price: Price,
    pub stp: SelfTradePrevention,
}

/// Whether an order takes a price.
pub open spec fn crosses(t: Taker, price: Price) -> bool {
    match t.action {
        OrderAction::Bid => price <= t.limit,
        OrderAction::Ask => price >= t.limit,
    }
}

/// What comes of matching: the resting orders of the other side, what the order
/// still wants, whether it must not rest, and the events.
#[verifier::ext_equal]
pub struct MatchModel {
    pub queue: Seq<DirectOrder>,
    pub remaining: int,
    pub aborted: bool,
    pub events: Seq<MatcherTradeEvent>,
}

/// Matching is over.
pub open spec fn settled(q: Seq<DirectOrder>, remaining: int, aborted: bool) -> MatchModel {
    MatchModel { queue: q, remaining, aborted, events: Seq::empty() }
}

/// What comes of matching where some orders were passed over and some events were
/// reported before.
pub open spec fn after(
    kept: Seq<DirectOrder>,
    events: Seq<MatcherTradeEvent>,
    m: MatchModel,
) -> MatchModel {
    MatchModel { queue: kept + m.queue, events: events + m.events, ..m }
}

pub open spec fn smaller(a: int, b: int) -> int {
    if a < b {
        a
    } else {
        b
    }
}

/// A trade with a resting order.
pub open spec fn trade_with(t: Taker, o: DirectOrder, size: int) -> MatcherTradeEvent {
    api::trade_event(
        size,
        o.price,
        o.order_id,
        o.uid,
        if t.action == OrderAction::Bid {
            t.reserve_price
        } else {
            o.reserve_price
        },
    )
}

/// A resting order leaves before a trade of the user with themselves.
pub open spec fn struck(o: DirectOrder) -> MatcherTradeEvent {
    api::reject_maker_event(left(o), o.price, o.reserve_price, o.order_id, o.uid)
}

/// A resting order after a trade.
pub open spec fn traded(o: DirectOrder, size: int) -> DirectOrder {
    DirectOrder { filled: (o.filled + size) as i64, ..o }
}

/// Matches an order against the resting orders of the other side: in the order of
/// priority, as long as the price is taken and something is wanted.
pub open spec fn matched(t: Taker, q: Seq<DirectOrder>, remaining: int) -> MatchModel
    decreases q.len(),
{
    if remaining <= 0 || q.len() == 0 || !crosses(t, q[0].price) {
        settled(q, remaining, false)
    } else if q[0].uid == t.uid && t.stp != SelfTradePrevention::Allow {
        match t.stp {
            SelfTradePrevention::CancelMaker => after(
                Seq::empty(),
                seq![struck(q[0])],
                matched(t, q.drop_first(), remaining),
            ),
            SelfTradePrevention::CancelBoth => after(
                Seq::empty(),
                seq![struck(q[0])],
                settled(q.drop_first(), remaining, true),
            ),
            SelfTradePrevention::Skip => after(
                seq![q[0]],
                Seq::empty(),
                matched(t, q.drop_first(), remaining),
            ),
            _ => settled(q, remaining, true),
        }
    } else if remaining < left(q[0]) {
        after(
            Seq::empty(),
            seq![trade_with(t, q[0], remaining)],
            settled(q.update(0, traded(q[0], remaining)), 0, false),
        )
    } else {
        after(
            Seq::empty(),
            seq![trade_with(t, q[0], left(q[0]))],
            matched(t, q.drop_first(), remaining - left(q[0])),
        )
    }
}

/// What a command does to a book.
#[verifier::ext_equal]
pub struct BookStep {
    pub book: BookModel,
    pub code: CommandResultCode,
    /// The side that the command then speaks of.
    pub action: OrderAction,
    /// What is added to the events of the command.
    pub events: Seq<MatcherTradeEvent>,
    /// The numbers that come up fit the machine.
    pub fits: bool,
}

/// A command that is turned down.
pub open spec fn refused(b: BookModel, c: OrderCommand, code: CommandResultCode) -> BookStep {
    BookStep { book: b, code, action: c.action, events: Seq::empty(), fits: true }
}

/// The incoming order of a command.
pub open spec fn taker_of(b: BookModel, c: OrderCommand) -> Taker {
    Taker {
        uid: c.uid,
        action: c.action,
        limit: c.price,
        reserve_price: c.reserve_price,
        stp: b.spec.stp,
    }
}

/// The book once an order was matched.
pub open spec fn after_match(b: BookModel, action: OrderAction, m: MatchModel) -> BookModel {
    b.with(action.other(), m.queue)
}

/// Lets an order rest, where the sum of its level fits.
pub open spec fn rested(b: BookModel, o: DirectOrder) -> BookModel {
    b.with(o.action, enqueued(b.side(o.action), o))
}

pub open spec fn has_room(b: BookModel, o: DirectOrder) -> bool {
    volume_at(b.side(o.action), o.price) + left(o) <= i64::MAX
}

/// What is left of an order leaves.
pub open spec fn leftover(c: OrderCommand, remaining: int) -> Seq<MatcherTradeEvent> {
    if remaining > 0 {
        seq![api::reject_event(remaining, c.price, c.reserve_price)]
    } else {
        Seq::empty()
    }
}

/// The order that a command leaves in the book.
pub open spec fn order_of(c: OrderCommand, remaining: int) -> DirectOrder {
    DirectOrder {
        order_id: c.order_id,
        uid: c.uid,
        price: c.price,
        size: c.size,
        filled: (c.size - remaining) as i64,
        action: c.action,
        reserve_price: c.reserve_price,
        timestamp: c.timestamp,
    }
}

/// Good till cancelled: what is not filled rests, unless self-trade prevention
/// cancels it.
pub open spec fn placed_gtc(b: BookModel, c: OrderCommand) -> BookStep {
    let m = matched(taker_of(b, c), b.side(c.action.other()), c.size as int);
    let b2 = after_match(b, c.action, m);
    let rests = !m.aborted && m.remaining > 0;
    BookStep {
        book: if rests {
            rested(b2, order_of(c, m.remaining))
        } else {
            b2
        },
        code: CommandResultCode::Success,
        action: c.action,
        events: m.events + (if m.aborted {
            leftover(c, m.remaining)
        } else {
            Seq::empty()
        }),
        fits: rests ==> has_room(b2, order_of(c, m.remaining)),
    }
}

/// An order is matched as an incoming one, and what is not filled leaves.
pub open spec fn placed_at_once(b: BookModel, c: OrderCommand, t: Taker) -> BookStep {
    let m = matched(t, b.side(c.action.other()), c.size as int);
    BookStep {
        book: after_match(b, c.action, m),
        code: CommandResultCode::Success,
        action: c.action,
        events: m.events + leftover(c, m.remaining),
        fits: true,
    }
}

/// Immediate or cancel: what is not filled leaves.
pub open spec fn placed_ioc(b: BookModel, c: OrderCommand) -> BookStep {
    placed_at_once(b, c, taker_of(b, c))
}

/// The incoming order of a command that takes every price.
pub open spec fn price_taker(b: BookModel, c: OrderCommand) -> Taker {
    Taker {
        limit: match c.action {
            OrderAction::Bid => i64::MAX,
            OrderAction::Ask => i64::MIN,
        },
        ..taker_of(b, c)
    }
}

/// Fill or kill within a budget: matched only where the other side can fill it at a
/// cost that keeps to the budget, which is the price of the command. It is the whole that
/// has to keep to the budget, not each trade: the order then takes every price. What
/// self-trade prevention keeps from being filled leaves.
pub open spec fn placed_fok_budget(b: BookModel, c: OrderCommand) -> BookStep {
    match cost(b.side(c.action.other()), c.size as int) {
        Some(n) => {
            let step = if within_budget(c.action, n, c.price as int) {
                placed_at_once(b, c, price_taker(b, c))
            } else {
                BookStep {
                    events: seq![api::reject_event(c.size as int, c.price, c.reserve_price)],
                    ..refused(b, c, CommandResultCode::Success)
                }
            };
            BookStep { fits: i64::MIN <= n <= i64::MAX, ..step }
        },
        None => BookStep {
            events: seq![api::reject_event(c.size as int, c.price, c.reserve_price)],
            ..refused(b, c, CommandResultCode::Success)
        },
    }
}

/// A new order.
pub open spec fn new_ordered(b: BookModel, c: OrderCommand) -> BookStep {
    if b.has(c.order_id) {
        refused(b, c, CommandResultCode::MatchingDuplicateOrderId)
    } else {
        match c.order_type {
            OrderType::Gtc => placed_gtc(b, c),
            OrderType::Ioc => placed_ioc(b, c),
            OrderType::FokBudget => placed_fok_budget(b, c),
            _ => refused(b, c, CommandResultCode::MatchingUnsupportedCommand),
        }
    }
}

/// An order is taken out of the book by its owner.
pub open spec fn cancelled(b: BookModel, c: OrderCommand) -> BookStep {
    if !b.has(c.order_id) || b.order(c.order_id).uid != c.uid {
        refused(b, c, CommandResultCode::MatchingUnknownOrderId)
    } else {
        let o = b.order(c.order_id);
        BookStep {
            book: b.without(c.order_id),
            code: CommandResultCode::Success,
            action: o.action,
            events: seq![api::reject_event(left(o), o.price, o.reserve_price)],
            fits: true,
        }
    }
}

/// An order of the book, at a new price, as an incoming one.
pub open spec fn mover(b: BookModel, o: DirectOrder, price: Price) -> Taker {
    Taker {
        uid: o.uid,
        action: o.action,
        limit: price,
        reserve_price: o.reserve_price,
        stp: b.spec.stp,
    }
}

/// An order of the book gets a new price: it is matched as an incoming one with what
/// it still wants, and loses its place.
pub open spec fn moved(b: BookModel, c: OrderCommand) -> BookStep {
    if !b.has(c.order_id) {
        refused(b, c, CommandResultCode::MatchingUnknownOrderId)
    } else if c.price <= 0 {
        refused(b, c, CommandResultCode::RiskInvalidOrderParams)
    } else if b.order(c.order_id).uid != c.uid {
        refused(b, c, CommandResultCode::MatchingUnknownOrderId)
    } else if b.spec.symbol_type == SymbolType::CurrencyExchangePair && b.order(c.order_id).action
        == OrderAction::Bid && c.price > b.order(c.order_id).reserve_price {
        refused(b, c, CommandResultCode::RiskInvalidReserveBidPrice)
    } else {
        let o = b.order(c.order_id);
        let b1 = b.without(c.order_id);
        let m = matched(mover(b, o, c.price), b1.side(o.action.other()), left(o));
        let b2 = after_match(b1, o.action, m);
        let o2 = DirectOrder { price: c.price, filled: (o.size - m.remaining) as i64, ..o };
        let rests = !m.aborted && m.remaining > 0;
        BookStep {
            book: if rests {
                rested(b2, o2)
            } else {
                b2
            },
            code: CommandResultCode::Success,
            action: o.action,
            events: m.events + (if m.aborted && m.remaining > 0 {
                seq![api::reject_event(m.remaining, c.price, o.reserve_price)]
            } else {
                Seq::empty()
            }),
            fits: rests ==> has_room(b2, o2),
        }
    }
}

/// An order of the book gets smaller, or leaves.
pub open spec fn reduced(b: BookModel, c: OrderCommand) -> BookStep {
    if !b.has(c.order_id) {
        refused(b, c, CommandResultCode::MatchingUnknownOrderId)
    } else if c.size <= 0 {
        refused(b, c, CommandResultCode::MatchingInvalidOrderSize)
    } else if b.order(c.order_id).uid != c.uid {
        refused(b, c, CommandResultCode::MatchingUnknownOrderId)
    } else {
        let o = b.order(c.order_id);
        let by = smaller(left(o), c.size as int);
        let q = b.side(o.action);
        BookStep {
            book: if by == left(o) {
                b.without(c.order_id)
            } else {
                b.with(
                    o.action,
                    q.update(
                        place_of(q, c.order_id),
                        DirectOrder { size: (o.size - by) as i64, ..o },
                    ),
                )
            },
            code: CommandResultCode::Success,
            action: o.action,
            events: seq![api::reject_event(by, o.price, o.reserve_price)],
            fits: true,
        }
    }
}

/// A command that a book answered.
pub open spec fn told(old: OrderCommand, new: OrderCommand, step: BookStep) -> bool {
    &&& api::same_request(old, new)
    &&& new.reserve_price == old.reserve_price
    &&& new.result_code == old.result_code
    &&& new.action == step.action
    &&& new.matcher_events@ == old.matcher_events@ + step.events
}

} // verus!
