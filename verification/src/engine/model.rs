//! The engine as mathematics: what each command does to the books and to the
//! ledger, and what it answers.
use vstd::prelude::*;

use crate::math;
use crate::matching::model as book_model;
use crate::matching::model::{BookModel, OutcomeModel};
use crate::matching::outcome::{PlaceParams, RestingOrder, StpCancellation};
use crate::risk::model as risk_model;
use crate::risk::model::{Ledger, Mark};
use crate::store::sums;
use crate::types::command::{
    ApplyFunding, CancelOrder, Command, CommandEnvelope, ModifyOrder, PlaceOrder, SetMarkPrice,
    SettleFuture,
};
use crate::types::enums::{OrderType, SelfTradePrevention, Side, TimeInForce};
use crate::types::event::{
    Event, OrderAccepted, OrderCancelled, OrderFilled, OrderPartiallyFilled, OrderRejected, Trade,
};
use crate::types::ids::{CurrencyId, OrderId, SeqNo, SymbolId, Timestamp, UserId};
use crate::types::numeric::{Price, Size};
use crate::types::receipt;
use crate::types::receipt::{CommandStatus, ReceiptModel};
use crate::types::reject::RejectReason;
use crate::types::symbol::SymbolSpec;

verus! {

/// A stop order that waits for its trigger. Its reservation is already in
/// place.
#[derive(Debug, Clone, Copy)]
pub struct PendingStop {
    pub order_id: OrderId,
    /// What is placed when the stop fires. A stop-market order has its bound as
    /// the price already.
    pub place_order: PlaceOrder,
}

/// Everything that an engine knows.
#[verifier::ext_equal]
pub struct EngineModel {
    pub ledger: Ledger,
    pub books: Map<SymbolId, BookModel>,
    pub symbols: Map<SymbolId, SymbolSpec>,
    pub mark_prices: Map<SymbolId, Price>,
    pub pending_stops: Map<SymbolId, Seq<PendingStop>>,
    pub next_seq_no: int,
    pub next_order_id: int,
    pub last_applied_seq: SeqNo,
    /// Why a trade could not be settled: the first such reason, if there was
    /// one. The books then hold what the ledger does not.
    pub failure: Option<RejectReason>,
}

/// An engine after a command, and its answer.
pub type Answer = (EngineModel, ReceiptModel);

impl EngineModel {
    pub open spec fn with_ledger(self, l: Ledger) -> EngineModel {
        EngineModel { ledger: l, ..self }
    }

    pub open spec fn with_book(self, s: SymbolId, b: BookModel) -> EngineModel {
        EngineModel { books: self.books.insert(s, b), ..self }
    }

    /// Whether every amount that the machine formed fits.
    pub open spec fn exact(self) -> bool {
        self.ledger.exact
    }

    /// Whether, besides, every trade was settled.
    pub open spec fn settled(self) -> bool {
        self.exact() && self.failure is None
    }

    /// The engine with the outcome of a settlement noted. The first failure stays.
    pub open spec fn with_failure(self, failure: Option<RejectReason>) -> EngineModel {
        EngineModel {
            failure: if self.failure is Some {
                self.failure
            } else {
                failure
            },
            ..self
        }
    }

    pub open spec fn claim(self, ok: bool) -> EngineModel {
        self.with_ledger(self.ledger.claim(ok))
    }

    /// The engine with the next order id used up.
    pub open spec fn with_next_order_id(self) -> EngineModel {
        EngineModel { next_order_id: self.next_order_id + 1, ..self }.claim(
            self.next_order_id + 1 <= u64::MAX,
        )
    }

    pub open spec fn with_stops(self, s: SymbolId, stops: Seq<PendingStop>) -> EngineModel {
        EngineModel { pending_stops: self.pending_stops.insert(s, stops), ..self }
    }

    /// Each symbol has a book, ids of open orders have been given out, and the
    /// waiting stops can be placed.
    pub open spec fn sound(self) -> bool {
        &&& self.books.dom() == self.symbols.dom()
        &&& forall|s: SymbolId, side: Side, i: int| #![trigger self.books[s].queue(side)[i]]
            self.books.contains_key(s) && 0 <= i < self.books[s].queue(side).len()
                ==> self.books[s].queue(side)[i].order_id.0 < self.next_order_id
        &&& forall|s: SymbolId, i: int| #![trigger self.pending_stops[s][i]]
            0 <= i < self.pending_stops[s].len() ==> {
                &&& self.symbols.contains_key(s)
                &&& stop_ok(self.pending_stops[s][i], s)
                &&& self.pending_stops[s][i].order_id.0 < self.next_order_id
            }
        &&& forall|s: SymbolId, i: int, t: SymbolId, side: Side, j: int|
            #![trigger self.pending_stops[s][i], self.books[t].queue(side)[j]]
            0 <= i < self.pending_stops[s].len() && self.books.contains_key(t) && 0 <= j
                < self.books[t].queue(side).len() ==> self.pending_stops[s][i].order_id
                != self.books[t].queue(side)[j].order_id
        &&& forall|s: SymbolId, i: int, t: SymbolId, j: int|
            #![trigger self.pending_stops[s][i], self.pending_stops[t][j]]
            0 <= i < self.pending_stops[s].len() && 0 <= j < self.pending_stops[t].len() && (s != t
                || i != j) ==> self.pending_stops[s][i].order_id
                != self.pending_stops[t][j].order_id
    }
}

/// Whether a stop can be placed when it fires.
pub open spec fn stop_ok(stop: PendingStop, s: SymbolId) -> bool {
    &&& stop.place_order.symbol_id == s
    &&& stop.place_order.price.is_some()
    &&& stop.place_order.stop_price.is_some()
}

/// An engine that nobody uses yet.
pub open spec fn new_engine() -> EngineModel {
    EngineModel {
        ledger: risk_model::new_ledger(),
        books: Map::empty(),
        symbols: Map::empty(),
        mark_prices: Map::empty(),
        pending_stops: Map::new(|s: SymbolId| true, |s: SymbolId| Seq::empty()),
        next_seq_no: 1,
        next_order_id: 1,
        last_applied_seq: SeqNo(0),
        failure: None,
    }
}

/// Whether a mark has reached the trigger of a stop: a buy stop fires at or
/// above it, a sell stop at or below it.
pub open spec fn stop_trigger_met(side: Side, mark: Price, stop: Price) -> bool {
    match side {
        Side::Bid => mark.0 >= stop.0,
        Side::Ask => mark.0 <= stop.0,
    }
}

/// The order as the book sees it.
pub open spec fn params_of(order_id: OrderId, p: PlaceOrder, now: Timestamp) -> PlaceParams {
    PlaceParams {
        order_id,
        user_id: p.user_id,
        client_order_id: p.client_order_id,
        side: p.side,
        order_type: p.order_type,
        time_in_force: p.time_in_force,
        price: p.price->0,
        size: p.size,
        timestamp: now,
        stp: p.self_trade_prevention,
        visible_size: p.visible_size,
    }
}

pub open spec fn accepted_event(order_id: OrderId, p: PlaceOrder, now: Timestamp) -> Event {
    Event::OrderAccepted(
        OrderAccepted {
            order_id,
            client_order_id: p.client_order_id,
            user_id: p.user_id,
            symbol_id: p.symbol_id,
            timestamp: now,
        },
    )
}

pub open spec fn rejected_event(p: PlaceOrder, reason: RejectReason, now: Timestamp) -> Event {
    Event::OrderRejected(
        OrderRejected {
            client_order_id: p.client_order_id,
            user_id: p.user_id,
            symbol_id: p.symbol_id,
            reason,
            timestamp: now,
        },
    )
}

pub open spec fn cancelled_event(
    order_id: OrderId,
    user_id: UserId,
    symbol_id: SymbolId,
    remaining: int,
    now: Timestamp,
) -> Event {
    Event::OrderCancelled(
        OrderCancelled {
            order_id,
            user_id,
            symbol_id,
            remaining_size: Size(remaining as i64),
            timestamp: now,
        },
    )
}

/// One event per trade.
pub open spec fn trade_events(trades: Seq<Trade>) -> Seq<Event> {
    Seq::new(trades.len(), |i: int| Event::Trade(trades[i]))
}

/// The trades that some events report.
pub open spec fn trades_of(events: Seq<Event>) -> Seq<Trade>
    decreases events.len(),
{
    if events.len() == 0 {
        Seq::empty()
    } else {
        let before = trades_of(events.drop_last());
        match events.last() {
            Event::Trade(t) => before.push(t),
            _ => before,
        }
    }
}

/// One event per resting order that self-trade prevention took away whole.
pub open spec fn stp_events(
    cancels: Seq<StpCancellation>,
    symbol_id: SymbolId,
    now: Timestamp,
) -> Seq<Event>
    decreases cancels.len(),
{
    if cancels.len() == 0 {
        Seq::empty()
    } else {
        let before = stp_events(cancels.drop_last(), symbol_id, now);
        let c = cancels.last();
        if c.full_cancel {
            before.push(
                cancelled_event(
                    c.order_id,
                    c.user_id,
                    symbol_id,
                    c.size_cancelled.0 as int,
                    now,
                ),
            )
        } else {
            before
        }
    }
}

/// How an order that reached the book ended up, and the event that says so.
pub open spec fn verdict(
    order_id: OrderId,
    p: PlaceOrder,
    o: OutcomeModel,
    now: Timestamp,
) -> (CommandStatus, Seq<Event>) {
    if o.filled == p.size.0 {
        (
            CommandStatus::Filled,
            seq![
                Event::OrderFilled(
                    OrderFilled {
                        order_id,
                        user_id: p.user_id,
                        symbol_id: p.symbol_id,
                        filled_size: Size(o.filled as i64),
                        timestamp: now,
                    },
                ),
            ],
        )
    } else if o.filled > 0 {
        (
            CommandStatus::PartiallyFilled,
            seq![
                Event::OrderPartiallyFilled(
                    OrderPartiallyFilled {
                        order_id,
                        user_id: p.user_id,
                        symbol_id: p.symbol_id,
                        filled_size: Size(o.filled as i64),
                        remaining_size: Size(o.remaining as i64),
                        timestamp: now,
                    },
                ),
            ],
        )
    } else if !o.rested {
        (
            CommandStatus::Cancelled,
            seq![cancelled_event(order_id, p.user_id, p.symbol_id, o.remaining, now)],
        )
    } else {
        (CommandStatus::Accepted, Seq::empty())
    }
}

/// Settles trades one after the other, up to the first one that cannot be
/// settled: the ledger, and why it stopped.
pub open spec fn settlement(l: Ledger, trades: Seq<Trade>, spec: SymbolSpec) -> (
    Ledger,
    Option<RejectReason>,
)
    decreases trades.len(),
{
    if trades.len() == 0 {
        (l, None)
    } else {
        let (before, failure) = settlement(l, trades.drop_last(), spec);
        if failure is Some {
            (before, failure)
        } else {
            let (after, r) = risk_model::apply_trade(before, trades.last(), spec);
            match r {
                Ok(_) => (after, None),
                Err(reason) => (after, Some(reason)),
            }
        }
    }
}

/// The ledger after some trades.
pub open spec fn settle_trades(l: Ledger, trades: Seq<Trade>, spec: SymbolSpec) -> Ledger {
    settlement(l, trades, spec).0
}

/// Why some trades could not all be settled.
pub open spec fn settle_failure(
    l: Ledger,
    trades: Seq<Trade>,
    spec: SymbolSpec,
) -> Option<RejectReason> {
    settlement(l, trades, spec).1
}

/// The ledger after self-trade prevention has touched some resting orders.
pub open spec fn release_cancelled(l: Ledger, cancels: Seq<StpCancellation>) -> Ledger
    decreases cancels.len(),
{
    if cancels.len() == 0 {
        l
    } else {
        let before = release_cancelled(l, cancels.drop_last());
        let c = cancels.last();
        if c.full_cancel {
            risk_model::release_hold(before, c.order_id).0
        } else {
            risk_model::partial_release_hold(before, c.order_id, c.size_cancelled).0
        }
    }
}

/// Size of an order that self-trade prevention neutralised.
pub open spec fn neutralized(p: PlaceOrder, o: OutcomeModel) -> int {
    p.size.0 - o.filled - o.remaining
}

/// The ledger after a book has taken an order: trades settle, touched orders get
/// their reservations back, and so does the part of the order that neither
/// traded nor rests. Where a trade cannot be settled, nothing follows it.
pub open spec fn settle_outcome(
    l: Ledger,
    order_id: OrderId,
    p: PlaceOrder,
    o: OutcomeModel,
    spec: SymbolSpec,
) -> Ledger {
    let traded = settle_trades(l, o.trades, spec);
    let released = release_cancelled(traded, o.stp_cancellations);
    if settle_failure(l, o.trades, spec) is Some {
        traded
    } else if o.rested {
        risk_model::partial_release_hold(
            released,
            order_id,
            Size(neutralized(p, o) as i64),
        ).0
    } else {
        risk_model::release_hold(released, order_id).0
    }
}

/// Places an order that has its reservation, and settles what came of it.
pub open spec fn apply_to_book(
    e: EngineModel,
    order_id: OrderId,
    p: PlaceOrder,
    spec: SymbolSpec,
    now: Timestamp,
) -> (EngineModel, CommandStatus, Seq<Event>) {
    let params = params_of(order_id, p, now);
    let b = e.books[p.symbol_id];
    let o = book_model::outcome_of(b, params);
    let e1 = e.with_book(p.symbol_id, book_model::book_after_place(b, params)).claim(
        book_model::can_rest(b, params),
    );
    match o.reject {
        Some(reason) => (
            e1.with_ledger(risk_model::release_hold(e1.ledger, order_id).0),
            CommandStatus::Rejected(reason),
            seq![rejected_event(p, reason, now)],
        ),
        None => {
            let (status, last) = verdict(order_id, p, o, now);
            (
                e1.with_ledger(settle_outcome(e1.ledger, order_id, p, o, spec)).with_failure(
                    settle_failure(e1.ledger, o.trades, spec),
                ),
                status,
                seq![accepted_event(order_id, p, now)] + trade_events(o.trades) + stp_events(
                    o.stp_cancellations,
                    p.symbol_id,
                    now,
                ) + last,
            )
        },
    }
}

/// A refused order.
pub open spec fn reject_place(
    seq_no: SeqNo,
    p: PlaceOrder,
    now: Timestamp,
    reason: RejectReason,
) -> ReceiptModel {
    ReceiptModel {
        seq_no,
        status: CommandStatus::Rejected(reason),
        events: seq![rejected_event(p, reason, now)],
    }
}

/// A market order as a limit order at its bound: a bid at its reserve, or else
/// at its price, an ask at zero. It takes what it can get at once. A bid
/// without any bound has none.
pub open spec fn lowered(p: PlaceOrder) -> Option<PlaceOrder> {
    if p.order_type == OrderType::Market || p.order_type == OrderType::StopMarket {
        let order_type = if p.order_type == OrderType::Market {
            OrderType::Limit
        } else {
            p.order_type
        };
        match p.side {
            Side::Bid => {
                let bound = if p.reserve_price.is_some() {
                    p.reserve_price
                } else {
                    p.price
                };
                if bound.is_some() {
                    Some(
                        PlaceOrder {
                            price: bound,
                            reserve_price: bound,
                            order_type,
                            time_in_force: TimeInForce::Ioc,
                            ..p
                        },
                    )
                } else {
                    None
                }
            },
            Side::Ask => Some(
                PlaceOrder {
                    price: Some(Price(0)),
                    order_type,
                    time_in_force: TimeInForce::Ioc,
                    ..p
                },
            ),
        }
    } else {
        Some(p)
    }
}

pub open spec fn is_stop(t: OrderType) -> bool {
    t == OrderType::StopLimit || t == OrderType::StopMarket
}

/// Places an order.
pub open spec fn handle_place(e: EngineModel, seq_no: SeqNo, p: PlaceOrder, now: Timestamp) -> Answer {
    let order_id = OrderId(e.next_order_id as u64);
    let e1 = e.with_next_order_id();
    if !e.symbols.contains_key(p.symbol_id) {
        (e1, reject_place(seq_no, p, now, RejectReason::UnknownSymbol))
    } else {
        match lowered(p) {
            None => (e1, reject_place(seq_no, p, now, RejectReason::MissingPrice)),
            Some(p2) => place_checked(e1, seq_no, order_id, p2, e.symbols[p.symbol_id], now),
        }
    }
}

/// Reserves for an order and hands it to the book, or lets it wait where it is a
/// stop whose trigger was not reached.
pub open spec fn place_checked(
    e: EngineModel,
    seq_no: SeqNo,
    order_id: OrderId,
    p: PlaceOrder,
    spec: SymbolSpec,
    now: Timestamp,
) -> Answer {
    let (l, r) = risk_model::pre_check_place(e.ledger, p, spec, order_id);
    let e1 = e.with_ledger(l);
    match r {
        Err(reason) => (e1, reject_place(seq_no, p, now, reason)),
        Ok(_) => if is_stop(p.order_type) {
            match p.stop_price {
                None => (
                    e1.with_ledger(risk_model::release_hold(l, order_id).0),
                    reject_place(seq_no, p, now, RejectReason::MissingPrice),
                ),
                Some(stop) => if e.mark_prices.contains_key(p.symbol_id) && stop_trigger_met(
                    p.side,
                    e.mark_prices[p.symbol_id],
                    stop,
                ) {
                    place_now(
                        e1,
                        seq_no,
                        order_id,
                        PlaceOrder { order_type: OrderType::Limit, ..p },
                        spec,
                        now,
                    )
                } else {
                    (
                        e1.with_stops(
                            p.symbol_id,
                            e.pending_stops[p.symbol_id].push(
                                PendingStop { order_id, place_order: p },
                            ),
                        ),
                        ReceiptModel {
                            seq_no,
                            status: CommandStatus::Accepted,
                            events: seq![accepted_event(order_id, p, now)],
                        },
                    )
                },
            }
        } else {
            place_now(e1, seq_no, order_id, p, spec, now)
        },
    }
}

/// Hands an order to the book.
pub open spec fn place_now(
    e: EngineModel,
    seq_no: SeqNo,
    order_id: OrderId,
    p: PlaceOrder,
    spec: SymbolSpec,
    now: Timestamp,
) -> Answer {
    let (e1, status, events) = apply_to_book(e, order_id, p, spec, now);
    (e1, ReceiptModel { seq_no, status, events })
}

/// Cancels an order of its owner.
pub open spec fn handle_cancel(e: EngineModel, seq_no: SeqNo, c: CancelOrder, now: Timestamp) -> Answer {
    if !e.books.contains_key(c.symbol_id) {
        (e, receipt::plain_receipt(seq_no, CommandStatus::Rejected(RejectReason::UnknownSymbol)))
    } else {
        let b = e.books[c.symbol_id];
        if !b.has_order(c.order_id) || b.order(c.order_id).user_id != c.user_id {
            (e, receipt::plain_receipt(seq_no, CommandStatus::Rejected(RejectReason::UnknownOrder)))
        } else {
            (
                e.with_book(c.symbol_id, b.without(c.order_id)).with_ledger(
                    risk_model::release_hold(e.ledger, c.order_id).0,
                ),
                ReceiptModel {
                    seq_no,
                    status: CommandStatus::Cancelled,
                    events: seq![
                        cancelled_event(
                            c.order_id,
                            c.user_id,
                            c.symbol_id,
                            b.order(c.order_id).size_remaining.0 as int,
                            now,
                        ),
                    ],
                },
            )
        }
    }
}

/// The order that replaces a resting one. What the command does not change
/// stays as it is; an iceberg stays one.
pub open spec fn replacement(o: RestingOrder, m: ModifyOrder) -> PlaceOrder {
    let iceberg = o.visible_slice.0 > 0;
    PlaceOrder {
        user_id: m.user_id,
        symbol_id: m.symbol_id,
        client_order_id: o.client_order_id,
        side: o.side,
        order_type: if iceberg {
            OrderType::Iceberg
        } else {
            OrderType::Limit
        },
        time_in_force: TimeInForce::Gtc,
        price: Some(
            match m.new_price {
                Some(p) => p,
                None => o.price,
            },
        ),
        size: match m.new_size {
            Some(s) => s,
            None => Size((o.size_remaining.0 + o.hidden_remaining.0) as i64),
        },
        reserve_price: None,
        stop_price: None,
        visible_size: if iceberg {
            Some(o.visible_slice)
        } else {
            None
        },
        self_trade_prevention: SelfTradePrevention::Allow,
    }
}

/// Cancels an order of its owner and places another one instead, under a new
/// id. Where the new one is refused, the old one is gone all the same.
pub open spec fn handle_modify(e: EngineModel, seq_no: SeqNo, m: ModifyOrder, now: Timestamp) -> Answer {
    if !e.books.contains_key(m.symbol_id) {
        (e, receipt::plain_receipt(seq_no, CommandStatus::Rejected(RejectReason::UnknownSymbol)))
    } else {
        let b = e.books[m.symbol_id];
        let old = b.order(m.order_id);
        let p = replacement(old, m);
        if !b.has_order(m.order_id) || old.user_id != m.user_id {
            (e, receipt::plain_receipt(seq_no, CommandStatus::Rejected(RejectReason::UnknownOrder)))
        } else if p.size.0 <= 0 {
            (
                e,
                receipt::plain_receipt(
                    seq_no,
                    CommandStatus::Rejected(RejectReason::SizeBelowMinimum),
                ),
            )
        } else {
            let order_id = OrderId(e.next_order_id as u64);
            let spec = e.symbols[m.symbol_id];
            let gone = cancelled_event(
                m.order_id,
                m.user_id,
                m.symbol_id,
                old.size_remaining.0 as int,
                now,
            );
            let e1 = e.with_next_order_id();
            let l1 = risk_model::release_hold(e1.ledger, m.order_id).0;
            let e2 = e1.with_book(m.symbol_id, b.without(m.order_id)).with_ledger(l1);
            let (l2, r) = risk_model::pre_check_place(l1, p, spec, order_id);
            let e3 = e2.with_ledger(l2);
            match r {
                Err(reason) => (
                    e3,
                    ReceiptModel {
                        seq_no,
                        status: CommandStatus::Rejected(reason),
                        events: seq![gone, rejected_event(p, reason, now)],
                    },
                ),
                Ok(_) => {
                    let (e4, status, events) = apply_to_book(e3, order_id, p, spec, now);
                    (e4, ReceiptModel { seq_no, status, events: seq![gone] + events })
                },
            }
        }
    }
}

pub open spec fn handle_register_symbol(e: EngineModel, seq_no: SeqNo, spec: SymbolSpec) -> Answer {
    if e.symbols.contains_key(spec.symbol_id) {
        (
            e,
            receipt::plain_receipt(
                seq_no,
                CommandStatus::Rejected(RejectReason::UnsupportedCommand),
            ),
        )
    } else {
        (
            EngineModel {
                books: e.books.insert(
                    spec.symbol_id,
                    BookModel {
                        symbol_id: spec.symbol_id,
                        asks: Seq::empty(),
                        bids: Seq::empty(),
                    },
                ),
                symbols: e.symbols.insert(spec.symbol_id, spec),
                ..e
            },
            receipt::plain_receipt(seq_no, CommandStatus::Accepted),
        )
    }
}

/// The stops that a mark fires, in the order in which they were placed.
pub open spec fn fired(stops: Seq<PendingStop>, mark: Price) -> Seq<PendingStop>
    decreases stops.len(),
{
    if stops.len() == 0 {
        Seq::empty()
    } else {
        let before = fired(stops.drop_last(), mark);
        if stop_trigger_met(
            stops.last().place_order.side,
            mark,
            stops.last().place_order.stop_price->0,
        ) {
            before.push(stops.last())
        } else {
            before
        }
    }
}

/// The stops that go on waiting.
pub open spec fn waiting(stops: Seq<PendingStop>, mark: Price) -> Seq<PendingStop>
    decreases stops.len(),
{
    if stops.len() == 0 {
        Seq::empty()
    } else {
        let before = waiting(stops.drop_last(), mark);
        if stop_trigger_met(
            stops.last().place_order.side,
            mark,
            stops.last().place_order.stop_price->0,
        ) {
            before
        } else {
            before.push(stops.last())
        }
    }
}

/// Places the fired stops one after the other.
pub open spec fn place_fired(
    e: EngineModel,
    stops: Seq<PendingStop>,
    spec: SymbolSpec,
    now: Timestamp,
) -> (EngineModel, Seq<Event>)
    decreases stops.len(),
{
    if stops.len() == 0 {
        (e, Seq::empty())
    } else {
        let (before, events) = place_fired(e, stops.drop_last(), spec, now);
        let stop = stops.last();
        let (after, status, more) = apply_to_book(
            before,
            stop.order_id,
            PlaceOrder { order_type: OrderType::Limit, ..stop.place_order },
            spec,
            now,
        );
        (after, events + more)
    }
}

/// Sets a mark, closes what it puts below the maintenance margin, and fires the
/// stops that it reaches.
pub open spec fn handle_set_mark_price(
    e: EngineModel,
    seq_no: SeqNo,
    m: SetMarkPrice,
    now: Timestamp,
) -> Answer {
    if !e.symbols.contains_key(m.symbol_id) {
        (e, receipt::plain_receipt(seq_no, CommandStatus::Rejected(RejectReason::UnknownSymbol)))
    } else {
        let spec = e.symbols[m.symbol_id];
        let stops = e.pending_stops[m.symbol_id];
        let e1 = EngineModel {
            mark_prices: e.mark_prices.insert(m.symbol_id, m.mark_price),
            ledger: risk_model::liquidate(e.ledger, spec, m.mark_price),
            pending_stops: e.pending_stops.insert(
                m.symbol_id,
                waiting(stops, m.mark_price),
            ),
            ..e
        };
        let (e2, events) = place_fired(e1, fired(stops, m.mark_price), spec, now);
        (e2, ReceiptModel { seq_no, status: CommandStatus::Accepted, events })
    }
}

pub open spec fn handle_apply_funding(e: EngineModel, seq_no: SeqNo, f: ApplyFunding) -> Answer {
    if !e.symbols.contains_key(f.symbol_id) {
        (e, receipt::plain_receipt(seq_no, CommandStatus::Rejected(RejectReason::UnknownSymbol)))
    } else if !(e.symbols[f.symbol_id].kind_params is PerpetualSwap) {
        (
            e,
            receipt::plain_receipt(
                seq_no,
                CommandStatus::Rejected(RejectReason::UnsupportedCommand),
            ),
        )
    } else if !e.mark_prices.contains_key(f.symbol_id) {
        (
            e,
            receipt::plain_receipt(
                seq_no,
                CommandStatus::Rejected(RejectReason::InvalidOrderBookState),
            ),
        )
    } else {
        (
            e.with_ledger(
                risk_model::apply_funding(
                    e.ledger,
                    e.symbols[f.symbol_id],
                    e.mark_prices[f.symbol_id],
                    f.rate_bps as int,
                ),
            ),
            receipt::plain_receipt(seq_no, CommandStatus::Accepted),
        )
    }
}

pub open spec fn handle_settle_future(e: EngineModel, seq_no: SeqNo, s: SettleFuture) -> Answer {
    if !e.symbols.contains_key(s.symbol_id) {
        (e, receipt::plain_receipt(seq_no, CommandStatus::Rejected(RejectReason::UnknownSymbol)))
    } else if !(e.symbols[s.symbol_id].kind_params is Future) {
        (
            e,
            receipt::plain_receipt(
                seq_no,
                CommandStatus::Rejected(RejectReason::UnsupportedCommand),
            ),
        )
    } else {
        let spec = e.symbols[s.symbol_id];
        (
            EngineModel {
                ledger: risk_model::sweep(e.ledger, spec, s.settlement_price, None),
                symbols: e.symbols.insert(
                    s.symbol_id,
                    SymbolSpec { is_suspended: true, ..spec },
                ),
                mark_prices: e.mark_prices.insert(s.symbol_id, s.settlement_price),
                ..e
            },
            receipt::plain_receipt(seq_no, CommandStatus::Accepted),
        )
    }
}

/// A command that only concerns the ledger.
pub open spec fn on_ledger(e: EngineModel, seq_no: SeqNo, step: risk_model::Step) -> Answer {
    (
        e.with_ledger(step.0),
        receipt::plain_receipt(
            seq_no,
            match step.1 {
                Ok(_) => CommandStatus::Accepted,
                Err(r) => CommandStatus::Rejected(r),
            },
        ),
    )
}

/// What a command does to the orders and positions of a symbol.
#[verifier::opaque]
pub open spec fn dispatch_trading(e: EngineModel, env: CommandEnvelope) -> Answer {
    let seq_no = env.seq_no;
    let now = env.received_at;
    match env.command {
        Command::PlaceOrder(p) => handle_place(e, seq_no, p, now),
        Command::CancelOrder(c) => handle_cancel(e, seq_no, c, now),
        Command::SetMarkPrice(m) => handle_set_mark_price(e, seq_no, m, now),
        Command::ApplyFunding(f) => handle_apply_funding(e, seq_no, f),
        Command::SettleFuture(s) => handle_settle_future(e, seq_no, s),
        Command::ModifyOrder(m) => handle_modify(e, seq_no, m, now),
        _ => (e, receipt::plain_receipt(seq_no, CommandStatus::Accepted)),
    }
}

/// What a command does.
pub open spec fn dispatch(e: EngineModel, env: CommandEnvelope) -> Answer {
    let seq_no = env.seq_no;
    match env.command {
        Command::Nop => (e, receipt::plain_receipt(seq_no, CommandStatus::Accepted)),
        Command::AddUser(a) => on_ledger(e, seq_no, risk_model::add_user(e.ledger, a.user_id)),
        Command::AdjustBalance(a) => on_ledger(
            e,
            seq_no,
            risk_model::adjust_balance(e.ledger, a),
        ),
        Command::SuspendUser(u) => on_ledger(
            e,
            seq_no,
            risk_model::set_suspended(e.ledger, u, true),
        ),
        Command::ResumeUser(u) => on_ledger(
            e,
            seq_no,
            risk_model::set_suspended(e.ledger, u, false),
        ),
        Command::RegisterSymbol(spec) => handle_register_symbol(e, seq_no, spec),
        _ => dispatch_trading(e, env),
    }
}

/// Applies a journaled command. The next sequence number stays ahead of it.
pub open spec fn apply_envelope(e: EngineModel, env: CommandEnvelope) -> Answer {
    let e1 = EngineModel {
        next_seq_no: if env.seq_no.0 + 1 > e.next_seq_no {
            env.seq_no.0 + 1
        } else {
            e.next_seq_no
        },
        ..e
    }.claim(env.seq_no.0 + 1 <= u64::MAX);
    let (e2, r) = dispatch(e1, env);
    (EngineModel { last_applied_seq: env.seq_no, ..e2 }, r)
}

/// The envelope of the next command.
pub open spec fn next_envelope(e: EngineModel, cmd: Command, now: Timestamp) -> CommandEnvelope {
    CommandEnvelope { seq_no: SeqNo(e.next_seq_no as u64), received_at: now, command: cmd }
}

/// Takes a command in and applies it.
pub open spec fn submit(e: EngineModel, cmd: Command, now: Timestamp) -> Answer {
    apply_envelope(e, next_envelope(e, cmd, now))
}

/// Applies journaled commands one after the other.
pub open spec fn replay(e: EngineModel, envs: Seq<CommandEnvelope>) -> EngineModel
    decreases envs.len(),
{
    if envs.len() == 0 {
        e
    } else {
        apply_envelope(replay(e, envs.drop_last()), envs.last()).0
    }
}

/// The envelopes of some commands that are taken in together.
pub open spec fn batch_envelopes(e: EngineModel, cmds: Seq<(Command, Timestamp)>) -> Seq<
    CommandEnvelope,
> {
    Seq::new(
        cmds.len(),
        |i: int|
            CommandEnvelope {
                seq_no: SeqNo((e.next_seq_no + i) as u64),
                received_at: cmds[i].1,
                command: cmds[i].0,
            },
    )
}

/// The engine with some sequence numbers given out.
pub open spec fn with_seq_taken(e: EngineModel, n: int) -> EngineModel {
    EngineModel { next_seq_no: e.next_seq_no + n, ..e }.claim(e.next_seq_no + n <= u64::MAX)
}

/// Applies journaled commands one after the other, with their receipts.
pub open spec fn apply_all(e: EngineModel, envs: Seq<CommandEnvelope>) -> (
    EngineModel,
    Seq<ReceiptModel>,
)
    decreases envs.len(),
{
    if envs.len() == 0 {
        (e, Seq::empty())
    } else {
        let (before, receipts) = apply_all(e, envs.drop_last());
        let (after, r) = apply_envelope(before, envs.last());
        (after, receipts.push(r))
    }
}

/// Takes some commands in together: all sequence numbers first, then one
/// command after the other.
pub open spec fn submit_batch(e: EngineModel, cmds: Seq<(Command, Timestamp)>) -> (
    EngineModel,
    Seq<ReceiptModel>,
) {
    apply_all(with_seq_taken(e, cmds.len() as int), batch_envelopes(e, cmds))
}

/// Submits commands one by one.
pub open spec fn submit_each(e: EngineModel, cmds: Seq<(Command, Timestamp)>) -> (
    EngineModel,
    Seq<ReceiptModel>,
)
    decreases cmds.len(),
{
    if cmds.len() == 0 {
        (e, Seq::empty())
    } else {
        let (before, receipts) = submit_each(e, cmds.drop_last());
        let (after, r) = submit(before, cmds.last().0, cmds.last().1);
        (after, receipts.push(r))
    }
}

/// The marks of the symbols that have one.
pub open spec fn marked(e: EngineModel) -> Map<SymbolId, Mark> {
    Map::new(
        |s: SymbolId| e.mark_prices.contains_key(s) && e.symbols.contains_key(s),
        |s: SymbolId|
            Mark {
                symbol_id: s,
                price: e.mark_prices[s],
                scale: e.symbols[s].base_minor_per_major,
            },
    )
}

/// Open profit of all positions in a marked symbol.
pub open spec fn open_profit_in(l: Ledger, c: CurrencyId) -> spec_fn(Mark) -> int {
    |m: Mark| risk_model::open_profit(l, c, m)
}

/// Magnitude of the same.
pub open spec fn open_profit_size_in(l: Ledger, c: CurrencyId) -> spec_fn(Mark) -> int {
    |m: Mark| math::magnitude(risk_model::open_profit(l, c, m))
}

/// Everything that all accounts own in a currency, with the open profits of all
/// positions at their marks.
pub open spec fn total_with_marks(e: EngineModel, c: CurrencyId) -> int {
    risk_model::total_internal(e.ledger, c) + sums::sum_map(
        marked(e),
        open_profit_in(e.ledger, c),
    )
}

/// Whether the sums that the machine forms for that total fit.
pub open spec fn total_fits(e: EngineModel, c: CurrencyId) -> bool {
    &&& risk_model::gross_internal(e.ledger, c) + sums::sum_map(
        marked(e),
        open_profit_size_in(e.ledger, c),
    ) <= i128::MAX
    &&& forall|s: SymbolId| #[trigger]
        marked(e).contains_key(s) ==> sums::sum_map(
            e.ledger.accounts,
            risk_model::raw_profit_size_in(c, marked(e)[s]),
        ) <= i128::MAX
}

} // verus!
