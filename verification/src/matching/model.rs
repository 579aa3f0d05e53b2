//! The order book as mathematics: each side is the sequence of its resting
//! orders in the order in which they trade.
use vstd::prelude::*;

use crate::matching::outcome::{CancelOutcome, PlaceParams, RestingOrder, StpCancellation};
use crate::types::enums::{OrderType, SelfTradePrevention, Side, TimeInForce};
use crate::types::event::Trade;
use crate::types::ids::{OrderId, SymbolId, Timestamp, UserId};
use crate::types::numeric::{Price, Size};
use crate::types::reject::RejectReason;

verus! {

/// Priority of a price on a side: the smaller, the sooner it trades. Asks are
/// served from the lowest price up, bids from the highest price down.
pub open spec fn rank_of(side: Side, price: Price) -> int {
    match side {
        Side::Ask => price.0 as int,
        Side::Bid => -1 - price.0,
    }
}

/// Whether an order of `side` with the limit `limit` trades at `price`.
pub open spec fn crosses(side: Side, limit: Price, price: Price) -> bool {
    match side {
        Side::Bid => price.0 <= limit.0,
        Side::Ask => price.0 >= limit.0,
    }
}

/// Whether a resting order makes sense: it shows something, hides only what a slice can
/// bring out, and is of a size that a machine word holds.
pub open spec fn order_ok(o: RestingOrder) -> bool {
    &&& o.size_remaining.0 > 0
    &&& o.hidden_remaining.0 >= 0
    &&& o.hidden_remaining.0 > 0 ==> o.visible_slice.0 > 0
    &&& o.size_remaining.0 + o.hidden_remaining.0 <= i64::MAX
}

/// Number of orders that trade no later than a rank.
pub open spec fn slot_of(q: Seq<RestingOrder>, rank: int) -> int
    decreases q.len(),
{
    if q.len() == 0 {
        0
    } else if rank_of(q.last().side, q.last().price) <= rank {
        q.len() as int
    } else {
        slot_of(q.drop_last(), rank)
    }
}

/// The queue after an order has joined it behind all orders of its price.
pub open spec fn enqueue(q: Seq<RestingOrder>, o: RestingOrder) -> Seq<RestingOrder> {
    q.insert(slot_of(q, rank_of(o.side, o.price)), o)
}

/// The most that an order shows at a time: what it shows now, or the next slice of what it
/// hides.
pub open spec fn showable(o: RestingOrder) -> int {
    let next = if o.visible_slice.0 <= o.hidden_remaining.0 {
        o.visible_slice.0
    } else {
        o.hidden_remaining.0
    };
    if o.hidden_remaining.0 > 0 && next > o.size_remaining.0 {
        next as int
    } else {
        o.size_remaining.0 as int
    }
}

/// The most that the orders at a rank show at a time.
pub open spec fn showable_at(q: Seq<RestingOrder>, rank: int) -> int
    decreases q.len(),
{
    if q.len() == 0 {
        0
    } else {
        showable_at(q.drop_last(), rank) + (if rank_of(q.last().side, q.last().price) == rank {
            showable(q.last())
        } else {
            0
        })
    }
}

/// Quantity that the book shows to an order of `side` at its limit, without the
/// orders of the user `skip`.
pub open spec fn shown(
    q: Seq<RestingOrder>,
    side: Side,
    limit: Price,
    skip: Option<UserId>,
) -> int
    decreases q.len(),
{
    if q.len() == 0 {
        0
    } else {
        shown(q.drop_last(), side, limit, skip) + (if crosses(side, limit, q.last().price) && skip
            != Some(q.last().user_id) {
            q.last().size_remaining.0 as int
        } else {
            0
        })
    }
}

/// The incoming order as matching sees it.
pub struct Taker {
    pub symbol_id: SymbolId,
    pub side: Side,
    pub limit: Price,
    pub user_id: UserId,
    pub order_id: OrderId,
    pub stp: SelfTradePrevention,
    pub timestamp: Timestamp,
}

/// What matching leaves behind.
pub struct MatchModel {
    pub queue: Seq<RestingOrder>,
    pub remaining: int,
    pub trades: Seq<Trade>,
    pub cancels: Seq<StpCancellation>,
}

/// The trade between a taker and a maker.
pub open spec fn trade_between(t: Taker, maker: RestingOrder, size: int) -> Trade {
    Trade {
        symbol_id: t.symbol_id,
        price: maker.price,
        size: Size(size as i64),
        taker_order_id: t.order_id,
        taker_user_id: t.user_id,
        maker_order_id: maker.order_id,
        maker_user_id: maker.user_id,
        taker_side: t.side,
        timestamp: t.timestamp,
    }
}

/// The report of a maker that self-trade prevention hit.
pub open spec fn cancellation_of(maker: RestingOrder, size: int, full: bool) -> StpCancellation {
    StpCancellation {
        order_id: maker.order_id,
        user_id: maker.user_id,
        side: maker.side,
        price: maker.price,
        size_cancelled: Size(size as i64),
        full_cancel: full,
    }
}

/// The order with another shown quantity.
pub open spec fn showing(o: RestingOrder, size: int) -> RestingOrder {
    RestingOrder { size_remaining: Size(size as i64), ..o }
}

/// The iceberg with its next slice brought out.
pub open spec fn refreshed(o: RestingOrder) -> RestingOrder {
    let slice = if o.visible_slice.0 <= o.hidden_remaining.0 {
        o.visible_slice.0
    } else {
        o.hidden_remaining.0
    };
    RestingOrder {
        size_remaining: Size(slice),
        hidden_remaining: Size((o.hidden_remaining.0 - slice) as i64),
        ..o
    }
}

/// Matching that has nothing more to do.
pub open spec fn settled(queue: Seq<RestingOrder>, remaining: int) -> MatchModel {
    MatchModel { queue, remaining, trades: Seq::empty(), cancels: Seq::empty() }
}

/// `m`, after `trades` and `cancels` have happened.
pub open spec fn after(
    trades: Seq<Trade>,
    cancels: Seq<StpCancellation>,
    m: MatchModel,
) -> MatchModel {
    MatchModel { trades: trades + m.trades, cancels: cancels + m.cancels, ..m }
}

/// Matches an order that still wants `remaining` against a queue. It trades with
/// the front of the queue for as long as the prices cross. A maker that has
/// nothing left leaves; an iceberg comes back at the end of its price with its
/// next slice. A maker of the same user is treated as the order's prevention
/// mode says.
pub open spec fn matched(t: Taker, q: Seq<RestingOrder>, remaining: int) -> MatchModel
    decreases remaining, q.len(),
{
    if remaining <= 0 || q.len() == 0 || !crosses(t.side, t.limit, q[0].price)
        || q[0].size_remaining.0 <= 0 {
        settled(q, remaining)
    } else {
        let maker = q[0];
        let rest = q.drop_first();
        let size = maker.size_remaining.0 as int;
        if maker.user_id == t.user_id && t.stp != SelfTradePrevention::Allow {
            let gone = seq![cancellation_of(maker, size, true)];
            match t.stp {
                SelfTradePrevention::CancelMaker => after(
                    Seq::empty(),
                    gone,
                    matched(t, rest, remaining),
                ),
                SelfTradePrevention::CancelBoth => after(
                    Seq::empty(),
                    gone,
                    settled(rest, remaining),
                ),
                SelfTradePrevention::DecrementAndCancel => if size <= remaining {
                    after(Seq::empty(), gone, matched(t, rest, remaining - size))
                } else {
                    after(
                        Seq::empty(),
                        seq![cancellation_of(maker, remaining, false)],
                        settled(q.update(0, showing(maker, size - remaining)), 0),
                    )
                },
                _ => settled(q, remaining),
            }
        } else if remaining < size {
            after(
                seq![trade_between(t, maker, remaining)],
                Seq::empty(),
                settled(q.update(0, showing(maker, size - remaining)), 0),
            )
        } else {
            let next = if maker.hidden_remaining.0 > 0 {
                enqueue(rest, refreshed(maker))
            } else {
                rest
            };
            after(
                seq![trade_between(t, maker, size)],
                Seq::empty(),
                matched(t, next, remaining - size),
            )
        }
    }
}

/// Total size of some trades.
pub open spec fn traded(trades: Seq<Trade>) -> int
    decreases trades.len(),
{
    if trades.len() == 0 {
        0
    } else {
        traded(trades.drop_last()) + trades.last().size.0
    }
}

/// A book: the queues of its two sides.
pub struct BookModel {
    pub symbol_id: SymbolId,
    pub asks: Seq<RestingOrder>,
    pub bids: Seq<RestingOrder>,
}

impl BookModel {
    pub open spec fn queue(self, side: Side) -> Seq<RestingOrder> {
        match side {
            Side::Ask => self.asks,
            Side::Bid => self.bids,
        }
    }

    pub open spec fn with_queue(self, side: Side, q: Seq<RestingOrder>) -> BookModel {
        match side {
            Side::Ask => BookModel { asks: q, ..self },
            Side::Bid => BookModel { bids: q, ..self },
        }
    }

    /// Whether an order rests at a place of a side.
    pub open spec fn rests_at(self, side: Side, i: int, order_id: OrderId) -> bool {
        0 <= i < self.queue(side).len() && self.queue(side)[i].order_id == order_id
    }

    /// Whether an order rests in the book.
    pub open spec fn has_order(self, order_id: OrderId) -> bool {
        exists|side: Side, i: int| #[trigger] self.rests_at(side, i, order_id)
    }
}

impl BookModel {
    /// Where an order rests.
    pub open spec fn find(self, order_id: OrderId) -> (Side, int) {
        choose|p: (Side, int)| #[trigger] self.rests_at(p.0, p.1, order_id)
    }

    /// The resting order with an id.
    pub open spec fn order(self, order_id: OrderId) -> RestingOrder {
        self.queue(self.find(order_id).0)[self.find(order_id).1]
    }

    /// The book without an order.
    pub open spec fn without(self, order_id: OrderId) -> BookModel {
        let (side, i) = self.find(order_id);
        self.with_queue(side, self.queue(side).remove(i))
    }

    /// No two resting orders share an id.
    pub open spec fn ids_distinct(self) -> bool {
        forall|s1: Side, i1: int, s2: Side, i2: int, id: OrderId|
            self.rests_at(s1, i1, id) && self.rests_at(s2, i2, id) ==> s1 == s2 && i1 == i2
    }

    /// Each side stands in order of priority.
    pub open spec fn in_priority(self) -> bool {
        forall|side: Side, i: int, j: int| #![trigger self.queue(side)[i], self.queue(side)[j]]
            0 <= i <= j < self.queue(side).len() ==> rank_of(side, self.queue(side)[i].price)
                <= rank_of(side, self.queue(side)[j].price)
    }

    /// Each resting order stands on its own side and makes sense.
    pub open spec fn orders_ok(self) -> bool {
        forall|side: Side, i: int| #![trigger self.queue(side)[i]]
            0 <= i < self.queue(side).len() ==> self.queue(side)[i].side == side && order_ok(
                self.queue(side)[i],
            )
    }

    /// What is shown at one price fits a machine word.
    pub open spec fn levels_fit(self) -> bool {
        forall|side: Side, rank: int| #[trigger] showable_at(self.queue(side), rank) <= i64::MAX
    }
}

/// What became of a placed order.
pub struct OutcomeModel {
    pub trades: Seq<Trade>,
    pub filled: int,
    pub remaining: int,
    pub rested: bool,
    pub reject: Option<RejectReason>,
    pub stp_cancellations: Seq<StpCancellation>,
}

/// A refused order leaves everything as it was.
pub open spec fn refused(p: PlaceParams, reason: RejectReason) -> OutcomeModel {
    OutcomeModel {
        trades: Seq::empty(),
        filled: 0,
        remaining: p.size.0 as int,
        rested: false,
        reject: Some(reason),
        stp_cancellations: Seq::empty(),
    }
}

/// Whether an order with this time in force may rest.
pub open spec fn may_rest(tif: TimeInForce) -> bool {
    !(tif is Ioc) && !(tif is Fok)
}

/// Why a book refuses an order, if it does.
pub open spec fn refusal(book: BookModel, p: PlaceParams) -> Option<RejectReason> {
    let visible = match p.visible_size {
        Some(v) => v.0 as int,
        None => 0,
    };
    let maker_side = p.side.other();
    let skip = if p.stp == SelfTradePrevention::Allow {
        None
    } else {
        Some(p.user_id)
    };
    if p.order_type != OrderType::Limit && p.order_type != OrderType::Iceberg {
        Some(RejectReason::UnsupportedCommand)
    } else if p.order_type == OrderType::Iceberg && !(0 < visible <= p.size.0) {
        Some(RejectReason::UnsupportedCommand)
    } else if p.order_type == OrderType::Iceberg && !(p.time_in_force is Gtc || p.time_in_force is Day
        || p.time_in_force is Gtd) {
        Some(RejectReason::UnsupportedCommand)
    } else if p.size.0 <= 0 {
        Some(RejectReason::SizeBelowMinimum)
    } else if p.time_in_force is Fok && shown(book.queue(maker_side), p.side, p.price, skip)
        < p.size.0 {
        Some(RejectReason::FokUnfillable)
    } else if p.time_in_force is PostOnly && book.queue(maker_side).len() > 0 && crosses(
        p.side,
        p.price,
        book.queue(maker_side)[0].price,
    ) {
        Some(RejectReason::PostOnlyWouldCross)
    } else {
        None
    }
}

/// The taker that a placed order is.
pub open spec fn taker_of(symbol_id: SymbolId, p: PlaceParams) -> Taker {
    Taker {
        symbol_id,
        side: p.side,
        limit: p.price,
        user_id: p.user_id,
        order_id: p.order_id,
        stp: p.stp,
        timestamp: p.timestamp,
    }
}

/// The order that rests when `remaining` is left over.
pub open spec fn resting_of(p: PlaceParams, remaining: int) -> RestingOrder {
    let slice = if p.order_type == OrderType::Iceberg {
        match p.visible_size {
            Some(v) => v.0 as int,
            None => remaining,
        }
    } else {
        0
    };
    let visible = if 0 < slice < remaining {
        slice
    } else {
        remaining
    };
    RestingOrder {
        order_id: p.order_id,
        user_id: p.user_id,
        client_order_id: p.client_order_id,
        price: p.price,
        size_remaining: Size(visible as i64),
        side: p.side,
        timestamp: p.timestamp,
        visible_slice: Size(slice as i64),
        hidden_remaining: Size((remaining - visible) as i64),
    }
}

/// How an accepted order matches. A post-only order does not.
pub open spec fn matching_of(book: BookModel, p: PlaceParams) -> MatchModel {
    let q = book.queue(p.side.other());
    if p.time_in_force is PostOnly {
        settled(q, p.size.0 as int)
    } else {
        matched(taker_of(book.symbol_id, p), q, p.size.0 as int)
    }
}

/// The outcome of placing an order.
pub open spec fn outcome_of(book: BookModel, p: PlaceParams) -> OutcomeModel {
    match refusal(book, p) {
        Some(reason) => refused(p, reason),
        None => {
            let m = matching_of(book, p);
            OutcomeModel {
                trades: m.trades,
                filled: traded(m.trades),
                remaining: m.remaining,
                rested: m.remaining > 0 && may_rest(p.time_in_force),
                reject: None,
                stp_cancellations: m.cancels,
            }
        },
    }
}

/// The book after placing an order.
pub open spec fn book_after_place(book: BookModel, p: PlaceParams) -> BookModel {
    match refusal(book, p) {
        Some(reason) => book,
        None => {
            let m = matching_of(book, p);
            let b = book.with_queue(p.side.other(), m.queue);
            if m.remaining > 0 && may_rest(p.time_in_force) {
                b.with_queue(p.side, enqueue(b.queue(p.side), resting_of(p, m.remaining)))
            } else {
                b
            }
        },
    }
}

/// Whether the machine can let the rest of an order rest: what is shown at its price fits
/// a machine word.
pub open spec fn can_rest(book: BookModel, p: PlaceParams) -> bool {
    let o = outcome_of(book, p);
    o.rested ==> showable_at(book.queue(p.side), rank_of(p.side, p.price)) + resting_of(
        p,
        o.remaining,
    ).size_remaining.0 <= i64::MAX
}

/// What a cancellation reports.
pub open spec fn cancel_outcome_of(o: RestingOrder) -> CancelOutcome {
    CancelOutcome {
        order_id: o.order_id,
        user_id: o.user_id,
        side: o.side,
        price: o.price,
        remaining_size: o.size_remaining,
    }
}

} // verus!
