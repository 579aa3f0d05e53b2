//! The engine itself.
mod restore;

use vstd::prelude::*;

use crate::engine::lemmas;
use crate::engine::model;
use crate::engine::model::{EngineModel, PendingStop};
use crate::matching::book::SpotOrderBook;
use crate::matching::model as book_model;
use crate::matching::model::BookModel;
use crate::matching::outcome::{PlaceParams, PlacementOutcome, RestingOrder, StpCancellation};
use crate::risk::engine::RiskEngine;
use crate::risk::model as risk_model;
use crate::risk::model::Mark;
use crate::store::keyed::KeyedMap;
use crate::store::listing;
use crate::types::command::{
    AdjustBalance, ApplyFunding, CancelOrder, Command, CommandEnvelope, ModifyOrder, PlaceOrder,
    SetMarkPrice, SettleFuture,
};
use crate::types::enums::{OrderType, SelfTradePrevention, Side, TimeInForce};
use crate::types::event::{
    Event, OrderAccepted, OrderCancelled, OrderFilled, OrderPartiallyFilled, OrderRejected, Trade,
};
use crate::types::ids::{CurrencyId, OrderId, SeqNo, SymbolId, Timestamp, UserId};
use crate::types::numeric::{Price, Size};
use crate::types::receipt;
use crate::types::receipt::{CommandReceipt, CommandStatus, EventList, ReceiptModel};
use crate::types::reject::RejectReason;
use crate::types::symbol::{SymbolKindParams, SymbolSpec};

verus! {

/// The tables of an engine.
struct Tables {
    risk: RiskEngine,
    books: KeyedMap<SpotOrderBook>,
    symbols: KeyedMap<SymbolSpec>,
    mark_prices: KeyedMap<Price>,
    pending_stops: KeyedMap<Vec<PendingStop>>,
    next_seq_no: u64,
    next_order_id: u64,
    last_applied_seq: SeqNo,
    failure: Option<RejectReason>,
}

/// A single-threaded engine: commands in, receipts out.
pub struct MatchingEngine {
    state: Tables,
}

spec fn books_of(m: Map<u64, SpotOrderBook>) -> Map<SymbolId, BookModel> {
    Map::new(|s: SymbolId| m.contains_key(s.0 as u64), |s: SymbolId| m[s.0 as u64]@)
}

spec fn by_symbol<V>(m: Map<u64, V>) -> Map<SymbolId, V> {
    Map::new(|s: SymbolId| m.contains_key(s.0 as u64), |s: SymbolId| m[s.0 as u64])
}

spec fn stops_of(m: Map<u64, Vec<PendingStop>>) -> Map<SymbolId, Seq<PendingStop>> {
    Map::new(
        |s: SymbolId| true,
        |s: SymbolId|
            if m.contains_key(s.0 as u64) {
                m[s.0 as u64]@
            } else {
                Seq::empty()
            },
    )
}

impl View for MatchingEngine {
    type V = EngineModel;

    closed spec fn view(&self) -> EngineModel {
        EngineModel {
            ledger: self.state.risk@,
            books: books_of(self.state.books@),
            symbols: by_symbol(self.state.symbols@),
            mark_prices: by_symbol(self.state.mark_prices@),
            pending_stops: stops_of(self.state.pending_stops@),
            next_seq_no: self.state.next_seq_no as int,
            next_order_id: self.state.next_order_id as int,
            last_applied_seq: self.state.last_applied_seq,
            failure: self.state.failure,
        }
    }
}

/// Receipts as mathematical values.
pub open spec fn receipts_of(r: Seq<CommandReceipt>) -> Seq<ReceiptModel> {
    Seq::new(r.len(), |i: int| r[i]@)
}

/// Whether a mark has reached the trigger of a stop.
pub fn stop_trigger_met(side: Side, mark: Price, stop: Price) -> (r: bool)
    ensures
        r == model::stop_trigger_met(side, mark, stop),
{
    match side {
        Side::Bid => mark.0 >= stop.0,
        Side::Ask => mark.0 <= stop.0,
    }
}
impl MatchingEngine {
    /// The tables are in order.
    closed spec fn tables_ok(&self) -> bool {
        &&& self.state.risk.wf()
        &&& self.state.books.wf()
        &&& self.state.symbols.wf()
        &&& self.state.mark_prices.wf()
        &&& self.state.pending_stops.wf()
        &&& forall|k: u64| #[trigger]
            self.state.books@.contains_key(k) ==> self.state.books@[k].wf()
        &&& listing::small_keys(self.state.books@)
        &&& listing::small_keys(self.state.symbols@)
        &&& listing::small_keys(self.state.mark_prices@)
        &&& listing::small_keys(self.state.pending_stops@)
    }

    /// The tables are in order and fit together.
    pub closed spec fn wf(&self) -> bool {
        &&& self.tables_ok()
        &&& self@.sound()
    }

    /// What a well-formed engine shows.
    pub proof fn lemma_wf(&self)
        requires
            self.wf(),
        ensures
            self@.sound(),
            self@.exact(),
            0 <= self@.next_seq_no <= u64::MAX,
            0 <= self@.next_order_id <= u64::MAX,
    {
        self.state.risk.lemma_ledger();
    }

    pub fn new() -> (r: MatchingEngine)
        ensures
            r.wf(),
            r@ == model::new_engine(),
    {
        let r = MatchingEngine {
            state: Tables {
                risk: RiskEngine::new(),
                books: KeyedMap::new(),
                symbols: KeyedMap::new(),
                mark_prices: KeyedMap::new(),
                pending_stops: KeyedMap::new(),
                next_seq_no: 1,
                next_order_id: 1,
                last_applied_seq: SeqNo(0),
                failure: None,
            },
        };
        assert(r@ =~= model::new_engine());
        assert(r@.books.dom() =~= r@.symbols.dom());
        r
    }

    pub fn mark_price(&self, symbol_id: SymbolId) -> (r: Option<Price>)
        requires
            self.wf(),
        ensures
            r == (if self@.mark_prices.contains_key(symbol_id) {
                Some(self@.mark_prices[symbol_id])
            } else {
                None
            }),
    {
        match self.state.mark_prices.get(symbol_id.0 as u64) {
            Some(p) => Some(*p),
            None => None,
        }
    }

    pub fn risk(&self) -> (r: &RiskEngine)
        requires
            self.wf(),
        ensures
            r.wf(),
            r@ == self@.ledger,
    {
        &self.state.risk
    }

    pub fn book(&self, symbol_id: SymbolId) -> (r: Option<&SpotOrderBook>)
        requires
            self.wf(),
        ensures
            r.is_some() == self@.books.contains_key(symbol_id),
            r matches Some(b) ==> b.wf() && b@ == self@.books[symbol_id],
    {
        self.state.books.get(symbol_id.0 as u64)
    }

    pub fn symbol(&self, symbol_id: SymbolId) -> (r: Option<&SymbolSpec>)
        requires
            self.wf(),
        ensures
            r == (if self@.symbols.contains_key(symbol_id) {
                Some(&self@.symbols[symbol_id])
            } else {
                None
            }),
    {
        self.state.symbols.get(symbol_id.0 as u64)
    }

    pub fn last_applied_seq(&self) -> (r: SeqNo)
        ensures
            r == self@.last_applied_seq,
    {
        self.state.last_applied_seq
    }

    /// Why a trade could not be settled. An engine with a failure is not to be
    /// used any further: its books hold a trade that its accounts do not.
    pub fn failure(&self) -> (r: Option<RejectReason>)
        ensures
            r == self@.failure,
    {
        self.state.failure
    }

    /// Puts a changed book back.
    fn place_in_book(&mut self, symbol_id: SymbolId, params: PlaceParams) -> (r: PlacementOutcome)
        requires
            old(self).tables_ok(),
            old(self)@.books.contains_key(symbol_id),
            !old(self)@.books[symbol_id].has_order(params.order_id),
            book_model::can_rest(old(self)@.books[symbol_id], params),
        ensures
            final(self).tables_ok(),
            r@ == book_model::outcome_of(old(self)@.books[symbol_id], params),
            final(self)@ == old(self)@.with_book(
                symbol_id,
                book_model::book_after_place(old(self)@.books[symbol_id], params),
            ),
    {
        let ghost b = old(self)@.books[symbol_id];
        let r = match self.state.books.get_mut(symbol_id.0 as u64) {
            Some(book) => book.place(params),
            None => {
                assert(false);
                SpotOrderBook::new(symbol_id).place(params)
            },
        };
        assert(self@.books =~= old(self)@.books.insert(
            symbol_id,
            book_model::book_after_place(b, params),
        ));
        r
    }

    /// Takes an order out of its book.
    fn cancel_in_book(&mut self, symbol_id: SymbolId, order_id: OrderId)
        requires
            old(self).tables_ok(),
            old(self)@.books.contains_key(symbol_id),
            old(self)@.books[symbol_id].has_order(order_id),
        ensures
            final(self).tables_ok(),
            final(self)@ == old(self)@.with_book(
                symbol_id,
                old(self)@.books[symbol_id].without(order_id),
            ),
    {
        match self.state.books.get_mut(symbol_id.0 as u64) {
            Some(book) => {
                let gone = book.cancel(order_id);
            },
            None => {},
        }
        assert(self@.books =~= old(self)@.books.insert(
            symbol_id,
            old(self)@.books[symbol_id].without(order_id),
        ));
    }

    /// Gives a reservation back.
    fn release(&mut self, order_id: OrderId)
        requires
            old(self).tables_ok(),
            risk_model::release_hold(old(self)@.ledger, order_id).0.exact,
        ensures
            final(self).tables_ok(),
            final(self)@ == old(self)@.with_ledger(
                risk_model::release_hold(old(self)@.ledger, order_id).0,
            ),
    {
        let r = self.state.risk.release_hold(order_id);
    }

    /// Settles trades up to the first one that cannot be settled. Says whether there was
    /// none.
    fn settle_trades(&mut self, trades: &[Trade], spec: &SymbolSpec) -> (r: bool)
        requires
            old(self).tables_ok(),
            model::settle_trades(old(self)@.ledger, trades@, *spec).exact,
        ensures
            final(self).tables_ok(),
            final(self)@ == old(self)@.with_ledger(
                model::settle_trades(old(self)@.ledger, trades@, *spec),
            ).with_failure(model::settle_failure(old(self)@.ledger, trades@, *spec)),
            r == (model::settle_failure(old(self)@.ledger, trades@, *spec) is None),
    {
        let ghost e = self@;
        let ghost l = e.ledger;
        assert(trades@.subrange(0, 0) =~= Seq::<Trade>::empty());
        let mut i: usize = 0;
        while i < trades.len()
            invariant
                self.tables_ok(),
                e == old(self)@,
                l == e.ledger,
                i <= trades@.len(),
                model::settle_trades(l, trades@, *spec).exact,
                model::settlement(l, trades@.subrange(0, i as int), *spec) == (
                    self@.ledger,
                    None::<RejectReason>,
                ),
                self@ == e.with_ledger(self@.ledger),
            decreases trades@.len() - i,
        {
            proof {
                lemmas::lemma_settle_exact(l, trades@, *spec, i + 1);
                lemmas::lemma_settle_failure(l, trades@, *spec, i + 1);
                assert(trades@.subrange(0, i + 1).drop_last() =~= trades@.subrange(0, i as int));
                assert(trades@.subrange(0, i + 1).last() == trades@[i as int]);
            }
            match self.state.risk.apply_trade(&trades[i], spec) {
                Ok(_) => {},
                Err(reason) => {
                    if self.state.failure.is_none() {
                        self.state.failure = Some(reason);
                    }
                    return false;
                },
            }
            i = i + 1;
        }
        assert(trades@.subrange(0, i as int) =~= trades@);
        true
    }

    /// Settles what a book reports about an order.
    fn settle_outcome(
        &mut self,
        order_id: OrderId,
        p: &PlaceOrder,
        outcome: &PlacementOutcome,
        spec: &SymbolSpec,
    )
        requires
            old(self).tables_ok(),
            outcome@.filled + outcome@.remaining <= p.size.0,
            outcome@.filled >= 0,
            outcome@.remaining >= 0,
            model::settle_outcome(
                old(self)@.ledger,
                order_id,
                *p,
                outcome@,
                *spec,
            ).exact,
        ensures
            final(self).tables_ok(),
            final(self)@ == old(self)@.with_ledger(
                model::settle_outcome(old(self)@.ledger, order_id, *p, outcome@, *spec),
            ).with_failure(model::settle_failure(old(self)@.ledger, outcome@.trades, *spec)),
    {
        let ghost l = self@.ledger;
        let cancels = outcome.stp_cancellations.as_slice();
        let ghost gone = outcome@.stp_cancellations;
        let ghost traded = model::settle_trades(l, outcome@.trades, *spec);
        let ghost released = model::release_cancelled(traded, gone);
        proof {
            if model::settle_failure(l, outcome@.trades, *spec) is None {
                lemmas::lemma_release_exact(traded, gone, 0);
            }
            assert(gone.subrange(0, 0) =~= Seq::<StpCancellation>::empty());
        }
        if !self.settle_trades(outcome.trades.as_slice(), spec) {
            return;
        }
        let ghost e = self@;
        let mut j: usize = 0;
        while j < cancels.len()
            invariant
                self.tables_ok(),
                j <= cancels@.len(),
                cancels@ == gone,
                released == model::release_cancelled(traded, gone),
                released.exact,
                self@ == e.with_ledger(
                    model::release_cancelled(traded, gone.subrange(0, j as int)),
                ),
            decreases cancels@.len() - j,
        {
            proof {
                lemmas::lemma_release_exact(traded, gone, j + 1);
                assert(gone.subrange(0, j + 1).drop_last() =~= gone.subrange(0, j as int));
            }
            let c: StpCancellation = cancels[j];
            if c.full_cancel {
                let r = self.state.risk.release_hold(c.order_id);
            } else {
                let r = self.state.risk.partial_release_hold(c.order_id, c.size_cancelled);
            }
            j = j + 1;
        }
        assert(gone.subrange(0, j as int) =~= gone);
        if outcome.rested {
            let neutralized: i64 = p.size.0 - outcome.filled.0 - outcome.remaining.0;
            let r = self.state.risk.partial_release_hold(order_id, Size(neutralized));
        } else {
            self.release(order_id);
        }
    }

    /// The events of an order that reached the book.
    fn outcome_events(
        order_id: OrderId,
        p: &PlaceOrder,
        outcome: &PlacementOutcome,
        now: Timestamp,
    ) -> (r: (CommandStatus, EventList))
        ensures
            ({
                let (status, last) = model::verdict(order_id, *p, outcome@, now);
                &&& r.0 == status
                &&& r.1@ == seq![model::accepted_event(order_id, *p, now)] + model::trade_events(
                    outcome@.trades,
                ) + model::stp_events(outcome@.stp_cancellations, p.symbol_id, now) + last
            }),
    {
        let mut events = EventList::new();
        let trades = outcome.trades.as_slice();
        let cancels = outcome.stp_cancellations.as_slice();
        let ghost all = outcome@.trades;
        let ghost gone = outcome@.stp_cancellations;
        let ghost first = seq![model::accepted_event(order_id, *p, now)];
        events.push(
            Event::OrderAccepted(
                OrderAccepted {
                    order_id,
                    client_order_id: p.client_order_id,
                    user_id: p.user_id,
                    symbol_id: p.symbol_id,
                    timestamp: now,
                },
            ),
        );
        assert(events@ =~= first + model::trade_events(all.subrange(0, 0)));
        let mut i: usize = 0;
        while i < trades.len()
            invariant
                i <= trades@.len(),
                trades@ == all,
                events@ == first + model::trade_events(all.subrange(0, i as int)),
            decreases trades@.len() - i,
        {
            events.push(Event::Trade(trades[i]));
            assert(events@ =~= first + model::trade_events(all.subrange(0, i + 1)));
            i = i + 1;
        }
        assert(all.subrange(0, i as int) =~= all);
        let ghost so_far = first + model::trade_events(all);
        assert(gone.subrange(0, 0) =~= Seq::<StpCancellation>::empty());
        assert(events@ =~= so_far + model::stp_events(gone.subrange(0, 0), p.symbol_id, now));
        let mut j: usize = 0;
        while j < cancels.len()
            invariant
                j <= cancels@.len(),
                cancels@ == gone,
                events@ == so_far + model::stp_events(
                    gone.subrange(0, j as int),
                    p.symbol_id,
                    now,
                ),
            decreases cancels@.len() - j,
        {
            assert(gone.subrange(0, j + 1).drop_last() =~= gone.subrange(0, j as int));
            let c: StpCancellation = cancels[j];
            if c.full_cancel {
                events.push(
                    Event::OrderCancelled(
                        OrderCancelled {
                            order_id: c.order_id,
                            user_id: c.user_id,
                            symbol_id: p.symbol_id,
                            remaining_size: c.size_cancelled,
                            timestamp: now,
                        },
                    ),
                );
            }
            assert(events@ =~= so_far + model::stp_events(
                gone.subrange(0, j + 1),
                p.symbol_id,
                now,
            ));
            j = j + 1;
        }
        assert(gone.subrange(0, j as int) =~= gone);
        let ghost before = events@;
        let status = if outcome.filled == p.size {
            events.push(
                Event::OrderFilled(
                    OrderFilled {
                        order_id,
                        user_id: p.user_id,
                        symbol_id: p.symbol_id,
                        filled_size: outcome.filled,
                        timestamp: now,
                    },
                ),
            );
            CommandStatus::Filled
        } else if outcome.filled.is_positive() {
            events.push(
                Event::OrderPartiallyFilled(
                    OrderPartiallyFilled {
                        order_id,
                        user_id: p.user_id,
                        symbol_id: p.symbol_id,
                        filled_size: outcome.filled,
                        remaining_size: outcome.remaining,
                        timestamp: now,
                    },
                ),
            );
            CommandStatus::PartiallyFilled
        } else if !outcome.rested {
            events.push(
                Event::OrderCancelled(
                    OrderCancelled {
                        order_id,
                        user_id: p.user_id,
                        symbol_id: p.symbol_id,
                        remaining_size: outcome.remaining,
                        timestamp: now,
                    },
                ),
            );
            CommandStatus::Cancelled
        } else {
            CommandStatus::Accepted
        };
        proof {
            let (want, last) = model::verdict(order_id, *p, outcome@, now);
            assert(events@ =~= before + last);
        }
        (status, events)
    }

    /// Places an order that has its reservation, and settles what came of it.
    /// Fresh orders and fired stops come through here alike.
    fn apply_to_book(
        &mut self,
        order_id: OrderId,
        p: &PlaceOrder,
        spec: &SymbolSpec,
        now: Timestamp,
    ) -> (r: (CommandStatus, EventList))
        requires
            old(self).wf(),
            old(self)@.books.contains_key(p.symbol_id),
            p.price.is_some(),
            lemmas::unused(old(self)@, order_id),
            model::apply_to_book(old(self)@, order_id, *p, *spec, now).0.exact(),
        ensures
            final(self).wf(),
            (final(self)@, r.0, r.1@) == model::apply_to_book(
                old(self)@,
                order_id,
                *p,
                *spec,
                now,
            ),
    {
        let ghost e = self@;
        let params = PlaceParams {
            order_id,
            user_id: p.user_id,
            client_order_id: p.client_order_id,
            side: p.side,
            order_type: p.order_type,
            time_in_force: p.time_in_force,
            price: p.price.unwrap(),
            size: p.size,
            timestamp: now,
            stp: p.self_trade_prevention,
            visible_size: p.visible_size,
        };
        proof {
            lemmas::lemma_apply_sound(e, order_id, *p, *spec, now);
            lemmas::lemma_apply_exact(e, order_id, *p, *spec, now);
            lemmas::lemma_unused_book(e, p.symbol_id, order_id);
            lemmas::lemma_outcome_bounds(e.books[p.symbol_id], params);
        }
        let outcome = self.place_in_book(p.symbol_id, params);
        proof {
            let e1 = e.with_book(
                p.symbol_id,
                book_model::book_after_place(e.books[p.symbol_id], params),
            );
            assert(e1.claim(true) =~= e1);
        }
        match outcome.reject {
            Some(reason) => {
                self.release(order_id);
                let mut events = EventList::new();
                events.push(
                    Event::OrderRejected(
                        OrderRejected {
                            client_order_id: p.client_order_id,
                            user_id: p.user_id,
                            symbol_id: p.symbol_id,
                            reason,
                            timestamp: now,
                        },
                    ),
                );
                assert(events@ =~= seq![model::rejected_event(*p, reason, now)]);
                (CommandStatus::Rejected(reason), events)
            },
            None => {
                self.settle_outcome(order_id, p, &outcome, spec);
                Self::outcome_events(order_id, p, &outcome, now)
            },
        }
    }

    /// A refused order.
    fn reject_place(seq_no: SeqNo, p: &PlaceOrder, now: Timestamp, reason: RejectReason) -> (r:
        CommandReceipt)
        ensures
            r@ == model::reject_place(seq_no, *p, now, reason),
    {
        let mut events = EventList::new();
        events.push(
            Event::OrderRejected(
                OrderRejected {
                    client_order_id: p.client_order_id,
                    user_id: p.user_id,
                    symbol_id: p.symbol_id,
                    reason,
                    timestamp: now,
                },
            ),
        );
        assert(events@ =~= seq![model::rejected_event(*p, reason, now)]);
        CommandReceipt { seq_no, status: CommandStatus::Rejected(reason), events }
    }

    /// A market order as a limit order at its bound.
    fn lower(p: &PlaceOrder) -> (r: Option<PlaceOrder>)
        ensures
            r == model::lowered(*p),
    {
        let mut q = *p;
        match p.order_type {
            OrderType::Market => {
                q.order_type = OrderType::Limit;
            },
            OrderType::StopMarket => {},
            _ => {
                return Some(q);
            },
        }
        q.time_in_force = TimeInForce::Ioc;
        match p.side {
            Side::Bid => {
                let bound = match p.reserve_price {
                    Some(x) => x,
                    None => match p.price {
                        Some(x) => x,
                        None => {
                            return None;
                        },
                    },
                };
                q.price = Some(bound);
                q.reserve_price = Some(bound);
            },
            Side::Ask => {
                q.price = Some(Price(0));
            },
        }
        Some(q)
    }

    /// The receipt of an order that went to the book.
    fn place_now(
        &mut self,
        seq_no: SeqNo,
        order_id: OrderId,
        p: &PlaceOrder,
        spec: &SymbolSpec,
        now: Timestamp,
    ) -> (r: CommandReceipt)
        requires
            old(self).wf(),
            old(self)@.books.contains_key(p.symbol_id),
            p.price.is_some(),
            lemmas::unused(old(self)@, order_id),
            model::place_now(old(self)@, seq_no, order_id, *p, *spec, now).0.exact(),
        ensures
            final(self).wf(),
            (final(self)@, r@) == model::place_now(
                old(self)@,
                seq_no,
                order_id,
                *p,
                *spec,
                now,
            ),
    {
        let (status, events) = self.apply_to_book(order_id, p, spec, now);
        CommandReceipt { seq_no, status, events }
    }

    /// Lets a stop wait.
    fn add_stop(&mut self, symbol_id: SymbolId, stop: PendingStop)
        requires
            old(self).tables_ok(),
        ensures
            final(self).tables_ok(),
            final(self)@ == old(self)@.with_stops(
                symbol_id,
                old(self)@.pending_stops[symbol_id].push(stop),
            ),
    {
        let key: u64 = symbol_id.0 as u64;
        match self.state.pending_stops.get_mut(key) {
            Some(stops) => {
                stops.push(stop);
                assert(self@.pending_stops =~= old(self)@.pending_stops.insert(
                    symbol_id,
                    old(self)@.pending_stops[symbol_id].push(stop),
                ));
                return ;
            },
            None => {},
        }
        let mut stops: Vec<PendingStop> = Vec::new();
        stops.push(stop);
        self.state.pending_stops.insert(key, stops);
        assert(self@.pending_stops =~= old(self)@.pending_stops.insert(
            symbol_id,
            old(self)@.pending_stops[symbol_id].push(stop),
        ));
    }

    /// Reserves for an order and hands it to the book, or lets it wait.
    fn place_checked(
        &mut self,
        seq_no: SeqNo,
        order_id: OrderId,
        p: &PlaceOrder,
        spec: &SymbolSpec,
        now: Timestamp,
    ) -> (r: CommandReceipt)
        requires
            old(self).wf(),
            old(self)@.books.contains_key(p.symbol_id),
            lemmas::unused(old(self)@, order_id),
            model::place_checked(old(self)@, seq_no, order_id, *p, *spec, now).0.exact(),
        ensures
            final(self).wf(),
            (final(self)@, r@) == model::place_checked(
                old(self)@,
                seq_no,
                order_id,
                *p,
                *spec,
                now,
            ),
    {
        let ghost e = self@;
        proof {
            lemmas::lemma_checked_exact(e, seq_no, order_id, *p, *spec, now);
        }
        match self.state.risk.pre_check_place(p, spec, order_id) {
            Err(reason) => {
                return Self::reject_place(seq_no, p, now, reason);
            },
            Ok(_) => {},
        }
        assert(lemmas::unused(self@, order_id));
        let waits: bool = match p.order_type {
            OrderType::StopLimit => true,
            OrderType::StopMarket => true,
            _ => false,
        };
        if !waits {
            return self.place_now(seq_no, order_id, p, spec, now);
        }
        let stop: Price = match p.stop_price {
            Some(x) => x,
            None => {
                self.release(order_id);
                return Self::reject_place(seq_no, p, now, RejectReason::MissingPrice);
            },
        };
        let triggered: bool = match self.mark_price(p.symbol_id) {
            Some(mark) => stop_trigger_met(p.side, mark, stop),
            None => false,
        };
        if triggered {
            let mut q = *p;
            q.order_type = OrderType::Limit;
            return self.place_now(seq_no, order_id, &q, spec, now);
        }
        let ghost before = self@;
        self.add_stop(p.symbol_id, PendingStop { order_id, place_order: *p });
        proof {
            lemmas::lemma_stop_sound(
                before,
                p.symbol_id,
                PendingStop { order_id, place_order: *p },
            );
        }
        let mut events = EventList::new();
        events.push(
            Event::OrderAccepted(
                OrderAccepted {
                    order_id,
                    client_order_id: p.client_order_id,
                    user_id: p.user_id,
                    symbol_id: p.symbol_id,
                    timestamp: now,
                },
            ),
        );
        assert(events@ =~= seq![model::accepted_event(order_id, *p, now)]);
        CommandReceipt { seq_no, status: CommandStatus::Accepted, events }
    }

    /// Gives out the next order id.
    fn take_order_id(&mut self) -> (r: OrderId)
        requires
            old(self).wf(),
            old(self)@.next_order_id < u64::MAX,
        ensures
            final(self).wf(),
            final(self)@ == old(self)@.with_next_order_id(),
            r == OrderId(old(self)@.next_order_id as u64),
            lemmas::unused(final(self)@, r),
    {
        proof {
            lemmas::lemma_next_unused(self@);
        }
        let id = OrderId(self.state.next_order_id);
        self.state.next_order_id = self.state.next_order_id + 1;
        id
    }

    fn handle_place(&mut self, seq_no: SeqNo, p: &PlaceOrder, now: Timestamp) -> (r: CommandReceipt)
        requires
            old(self).wf(),
            model::handle_place(old(self)@, seq_no, *p, now).0.exact(),
        ensures
            final(self).wf(),
            (final(self)@, r@) == model::handle_place(old(self)@, seq_no, *p, now),
    {
        proof {
            self.lemma_wf();
            lemmas::lemma_place_exact(self@, seq_no, *p, now);
        }
        let order_id = self.take_order_id();
        let spec: SymbolSpec = match self.symbol(p.symbol_id) {
            Some(s) => *s,
            None => {
                return Self::reject_place(seq_no, p, now, RejectReason::UnknownSymbol);
            },
        };
        match Self::lower(p) {
            None => Self::reject_place(seq_no, p, now, RejectReason::MissingPrice),
            Some(q) => {
                assert(self@.books.dom().contains(p.symbol_id));
                self.place_checked(seq_no, order_id, &q, &spec, now)
            },
        }
    }

    /// The event of an order that left.
    fn cancelled(
        order_id: OrderId,
        user_id: UserId,
        symbol_id: SymbolId,
        remaining_size: Size,
        now: Timestamp,
    ) -> (r: EventList)
        ensures
            r@ == seq![
                model::cancelled_event(
                    order_id,
                    user_id,
                    symbol_id,
                    remaining_size.0 as int,
                    now,
                ),
            ],
    {
        let mut events = EventList::new();
        events.push(
            Event::OrderCancelled(
                OrderCancelled { order_id, user_id, symbol_id, remaining_size, timestamp: now },
            ),
        );
        assert(events@ =~= seq![
            model::cancelled_event(order_id, user_id, symbol_id, remaining_size.0 as int, now),
        ]);
        events
    }

    fn handle_cancel(&mut self, seq_no: SeqNo, c: &CancelOrder, now: Timestamp) -> (r:
        CommandReceipt)
        requires
            old(self).wf(),
            model::handle_cancel(old(self)@, seq_no, *c, now).0.exact(),
        ensures
            final(self).wf(),
            (final(self)@, r@) == model::handle_cancel(old(self)@, seq_no, *c, now),
    {
        let existing: RestingOrder = match self.book(c.symbol_id) {
            None => {
                return CommandReceipt::rejected(seq_no, RejectReason::UnknownSymbol);
            },
            Some(b) => match b.get_order(c.order_id) {
                None => {
                    return CommandReceipt::rejected(seq_no, RejectReason::UnknownOrder);
                },
                Some(o) => o,
            },
        };
        if existing.user_id != c.user_id {
            return CommandReceipt::rejected(seq_no, RejectReason::UnknownOrder);
        }
        proof {
            self.lemma_book_distinct(c.symbol_id);
            lemmas::lemma_cancel_sound(self@, c.symbol_id, c.order_id);
        }
        self.cancel_in_book(c.symbol_id, c.order_id);
        self.release(c.order_id);
        CommandReceipt {
            seq_no,
            status: CommandStatus::Cancelled,
            events: Self::cancelled(
                c.order_id,
                c.user_id,
                c.symbol_id,
                existing.size_remaining,
                now,
            ),
        }
    }

    /// A book knows each of its orders once.
    proof fn lemma_book_distinct(&self, symbol_id: SymbolId)
        requires
            self.wf(),
            self@.books.contains_key(symbol_id),
        ensures
            self@.books[symbol_id].ids_distinct(),
            self@.books[symbol_id].orders_ok(),
    {
        self.state.books@[symbol_id.0 as u64].law_priority_and_identity();
    }

    /// Cancels an order and places another one instead. The new order has lost
    /// the old one's place in the queue.
    fn handle_modify(&mut self, seq_no: SeqNo, m: &ModifyOrder, now: Timestamp) -> (r:
        CommandReceipt)
        requires
            old(self).wf(),
            model::handle_modify(old(self)@, seq_no, *m, now).0.exact(),
        ensures
            final(self).wf(),
            (final(self)@, r@) == model::handle_modify(old(self)@, seq_no, *m, now),
    {
        let ghost e = self@;
        let existing: RestingOrder = match self.book(m.symbol_id) {
            None => {
                return CommandReceipt::rejected(seq_no, RejectReason::UnknownSymbol);
            },
            Some(b) => match b.get_order(m.order_id) {
                None => {
                    return CommandReceipt::rejected(seq_no, RejectReason::UnknownOrder);
                },
                Some(o) => o,
            },
        };
        if existing.user_id != m.user_id {
            return CommandReceipt::rejected(seq_no, RejectReason::UnknownOrder);
        }
        proof {
            self.lemma_book_distinct(m.symbol_id);
            lemmas::lemma_open_fits(e.books[m.symbol_id], m.order_id);
        }
        let price: Price = match m.new_price {
            Some(x) => x,
            None => existing.price,
        };
        let size: Size = match m.new_size {
            Some(x) => x,
            None => Size(existing.size_remaining.0 + existing.hidden_remaining.0),
        };
        if !size.is_positive() {
            return CommandReceipt::rejected(seq_no, RejectReason::SizeBelowMinimum);
        }
        let iceberg: bool = existing.visible_slice.0 > 0;
        let p = PlaceOrder {
            user_id: m.user_id,
            symbol_id: m.symbol_id,
            client_order_id: existing.client_order_id,
            side: existing.side,
            order_type: if iceberg {
                OrderType::Iceberg
            } else {
                OrderType::Limit
            },
            time_in_force: TimeInForce::Gtc,
            price: Some(price),
            size,
            reserve_price: None,
            stop_price: None,
            visible_size: if iceberg {
                Some(existing.visible_slice)
            } else {
                None
            },
            self_trade_prevention: SelfTradePrevention::Allow,
        };
        proof {
            assert(p == model::replacement(existing, *m));
            self.lemma_wf();
            lemmas::lemma_modify_exact(e, seq_no, *m, now);
        }
        let new_id = self.take_order_id();
        let spec: SymbolSpec = match self.symbol(m.symbol_id) {
            Some(s) => *s,
            None => {
                assert(self@.symbols.dom().contains(m.symbol_id));
                return CommandReceipt::rejected(seq_no, RejectReason::UnknownSymbol);
            },
        };
        proof {
            lemmas::lemma_cancel_sound(self@, m.symbol_id, m.order_id);
        }
        self.cancel_in_book(m.symbol_id, m.order_id);
        self.release(m.order_id);
        let mut events = Self::cancelled(
            m.order_id,
            m.user_id,
            m.symbol_id,
            existing.size_remaining,
            now,
        );
        match self.state.risk.pre_check_place(&p, &spec, new_id) {
            Err(reason) => {
                let ghost gone = events@;
                events.push(
                    Event::OrderRejected(
                        OrderRejected {
                            client_order_id: p.client_order_id,
                            user_id: p.user_id,
                            symbol_id: p.symbol_id,
                            reason,
                            timestamp: now,
                        },
                    ),
                );
                assert(events@ =~= seq![gone[0], model::rejected_event(p, reason, now)]);
                return CommandReceipt { seq_no, status: CommandStatus::Rejected(reason), events };
            },
            Ok(_) => {},
        }
        assert(lemmas::unused(self@, new_id));
        let (status, more) = self.apply_to_book(new_id, &p, &spec, now);
        events.append(&more);
        CommandReceipt { seq_no, status, events }
    }

    fn handle_register_symbol(&mut self, seq_no: SeqNo, spec: &SymbolSpec) -> (r: CommandReceipt)
        requires
            old(self).wf(),
        ensures
            final(self).wf(),
            (final(self)@, r@) == model::handle_register_symbol(old(self)@, seq_no, *spec),
    {
        let key: u64 = spec.symbol_id.0 as u64;
        if self.state.symbols.contains_key(key) {
            return CommandReceipt::rejected(seq_no, RejectReason::UnsupportedCommand);
        }
        self.state.books.insert(key, SpotOrderBook::new(spec.symbol_id));
        self.state.symbols.insert(key, *spec);
        proof {
            let want = model::handle_register_symbol(old(self)@, seq_no, *spec).0;
            assert(self@.books =~= want.books);
            assert(self@.symbols =~= want.symbols);
            lemmas::lemma_register_sound(old(self)@, seq_no, *spec);
        }
        CommandReceipt::accepted(seq_no)
    }

    /// Takes the stops out that a mark fires.
    fn drain_triggered_stops(&mut self, symbol_id: SymbolId, mark: Price) -> (r: Vec<PendingStop>)
        requires
            old(self).wf(),
        ensures
            final(self).wf(),
            r@ == model::fired(old(self)@.pending_stops[symbol_id], mark),
            final(self)@ == old(self)@.with_stops(
                symbol_id,
                model::waiting(old(self)@.pending_stops[symbol_id], mark),
            ),
    {
        let key: u64 = symbol_id.0 as u64;
        let ghost e = self@;
        let ghost all = self@.pending_stops[symbol_id];
        let mut fired: Vec<PendingStop> = Vec::new();
        let mut waiting: Vec<PendingStop> = Vec::new();
        let stops: Vec<PendingStop> = match self.state.pending_stops.remove(key) {
            Some(stops) => stops,
            None => Vec::new(),
        };
        assert(stops@ =~= all);
        let mut i: usize = 0;
        assert(all.subrange(0, 0) =~= Seq::<PendingStop>::empty());
        while i < stops.len()
            invariant
                e.sound(),
                all == e.pending_stops[symbol_id],
                stops@ == all,
                i <= all.len(),
                fired@ == model::fired(all.subrange(0, i as int), mark),
                waiting@ == model::waiting(all.subrange(0, i as int), mark),
            decreases all.len() - i,
        {
            assert(all.subrange(0, i + 1).drop_last() =~= all.subrange(0, i as int));
            let stop: PendingStop = stops[i];
            assert(stop == e.pending_stops[symbol_id][i as int]);
            match stop.place_order.stop_price {
                Some(at) => {
                    if stop_trigger_met(stop.place_order.side, mark, at) {
                        fired.push(stop);
                    } else {
                        waiting.push(stop);
                    }
                },
                None => {},
            }
            i = i + 1;
        }
        assert(all.subrange(0, i as int) =~= all);
        self.state.pending_stops.insert(key, waiting);
        proof {
            assert(self@.pending_stops =~= e.with_stops(
                symbol_id,
                model::waiting(all, mark),
            ).pending_stops);
            lemmas::lemma_waiting_sound(e, symbol_id, mark);
        }
        fired
    }

    #[verifier::rlimit(30)]
    fn handle_set_mark_price(&mut self, seq_no: SeqNo, m: &SetMarkPrice, now: Timestamp) -> (r:
        CommandReceipt)
        requires
            old(self).wf(),
            model::handle_set_mark_price(old(self)@, seq_no, *m, now).0.exact(),
        ensures
            final(self).wf(),
            (final(self)@, r@) == model::handle_set_mark_price(old(self)@, seq_no, *m, now),
    {
        let ghost e = self@;
        let spec: SymbolSpec = match self.symbol(m.symbol_id) {
            Some(s) => *s,
            None => {
                return CommandReceipt::rejected(seq_no, RejectReason::UnknownSymbol);
            },
        };
        let ghost stops = e.pending_stops[m.symbol_id];
        let ghost going = model::fired(stops, m.mark_price);
        let ghost e1 = EngineModel {
            mark_prices: e.mark_prices.insert(m.symbol_id, m.mark_price),
            ledger: risk_model::liquidate(e.ledger, spec, m.mark_price),
            pending_stops: e.pending_stops.insert(
                m.symbol_id,
                model::waiting(stops, m.mark_price),
            ),
            ..e
        };
        proof {
            lemmas::lemma_fired_exact(e1, going, spec, now, 0);
            assert(going.subrange(0, 0) =~= Seq::<PendingStop>::empty());
            lemmas::lemma_fired_sound(e, m.symbol_id, m.mark_price);
        }
        self.state.mark_prices.insert(m.symbol_id.0 as u64, m.mark_price);
        assert(self@.mark_prices =~= e1.mark_prices);
        let reports = self.state.risk.scan_liquidations(&spec, m.mark_price);
        let fired = self.drain_triggered_stops(m.symbol_id, m.mark_price);
        assert(self@ =~= e1);
        proof {
            assert(lemmas::ready(self@, going, m.symbol_id));
            assert(going.subrange(0, going.len() as int) =~= going);
        }
        let mut events = EventList::new();
        let mut i: usize = 0;
        while i < fired.len()
            invariant
                self.wf(),
                i <= fired@.len(),
                fired@ == going,
                self@.books.contains_key(m.symbol_id),
                lemmas::ready(self@, going.subrange(i as int, going.len() as int), m.symbol_id),
                model::place_fired(e1, going, spec, now).0.exact(),
                (self@, events@) == model::place_fired(
                    e1,
                    going.subrange(0, i as int),
                    spec,
                    now,
                ),
            decreases fired@.len() - i,
        {
            let ghost before = self@;
            proof {
                let later = going.subrange(i as int, going.len() as int);
                assert(later[0] == going[i as int]);
                assert(going.subrange(0, i + 1).drop_last() =~= going.subrange(0, i as int));
                lemmas::lemma_fired_exact(e1, going, spec, now, i + 1);
            }
            let stop: PendingStop = fired[i];
            let mut p = stop.place_order;
            p.order_type = OrderType::Limit;
            proof {
                lemmas::lemma_ready_step(
                    before,
                    going.subrange(i as int, going.len() as int),
                    m.symbol_id,
                    p,
                    spec,
                    now,
                );
                assert(going.subrange(i as int, going.len() as int).drop_first()
                    =~= going.subrange(i + 1, going.len() as int));
            }
            let (status, more) = self.apply_to_book(stop.order_id, &p, &spec, now);
            events.append(&more);
            i = i + 1;
        }
        assert(going.subrange(0, i as int) =~= going);
        CommandReceipt { seq_no, status: CommandStatus::Accepted, events }
    }

    fn handle_apply_funding(&mut self, seq_no: SeqNo, f: &ApplyFunding) -> (r: CommandReceipt)
        requires
            old(self).wf(),
            model::handle_apply_funding(old(self)@, seq_no, *f).0.exact(),
        ensures
            final(self).wf(),
            (final(self)@, r@) == model::handle_apply_funding(old(self)@, seq_no, *f),
    {
        let spec: SymbolSpec = match self.symbol(f.symbol_id) {
            Some(s) => *s,
            None => {
                return CommandReceipt::rejected(seq_no, RejectReason::UnknownSymbol);
            },
        };
        match spec.kind_params {
            SymbolKindParams::PerpetualSwap(_) => {},
            _ => {
                return CommandReceipt::rejected(seq_no, RejectReason::UnsupportedCommand);
            },
        }
        let mark: Price = match self.mark_price(f.symbol_id) {
            Some(p) => p,
            None => {
                return CommandReceipt::rejected(seq_no, RejectReason::InvalidOrderBookState);
            },
        };
        let reports = self.state.risk.apply_funding(&spec, mark, f.rate_bps);
        CommandReceipt::accepted(seq_no)
    }

    fn handle_settle_future(&mut self, seq_no: SeqNo, s: &SettleFuture) -> (r: CommandReceipt)
        requires
            old(self).wf(),
            model::handle_settle_future(old(self)@, seq_no, *s).0.exact(),
        ensures
            final(self).wf(),
            (final(self)@, r@) == model::handle_settle_future(old(self)@, seq_no, *s),
    {
        let spec: SymbolSpec = match self.symbol(s.symbol_id) {
            Some(x) => *x,
            None => {
                return CommandReceipt::rejected(seq_no, RejectReason::UnknownSymbol);
            },
        };
        match spec.kind_params {
            SymbolKindParams::Future(_) => {},
            _ => {
                return CommandReceipt::rejected(seq_no, RejectReason::UnsupportedCommand);
            },
        }
        let reports = self.state.risk.settle_all_positions(&spec, s.settlement_price);
        let mut suspended = spec;
        suspended.is_suspended = true;
        self.state.symbols.insert(s.symbol_id.0 as u64, suspended);
        self.state.mark_prices.insert(s.symbol_id.0 as u64, s.settlement_price);
        proof {
            let want = model::handle_settle_future(old(self)@, seq_no, *s).0;
            assert(self@.symbols =~= want.symbols);
            assert(self@.mark_prices =~= want.mark_prices);
            assert(want.symbols.dom() =~= old(self)@.symbols.dom());
        }
        CommandReceipt::accepted(seq_no)
    }

    /// The receipt of a command that only concerned the ledger.
    fn ledger_receipt(seq_no: SeqNo, r: Result<(), RejectReason>) -> (receipt: CommandReceipt)
        ensures
            receipt@ == receipt::plain_receipt(
                seq_no,
                match r {
                    Ok(_) => CommandStatus::Accepted,
                    Err(e) => CommandStatus::Rejected(e),
                },
            ),
    {
        match r {
            Ok(_) => CommandReceipt::accepted(seq_no),
            Err(e) => CommandReceipt::rejected(seq_no, e),
        }
    }

    /// Applies a journaled command, live or while a journal is replayed.
    pub fn apply_envelope(&mut self, env: &CommandEnvelope) -> (r: CommandReceipt)
        requires
            old(self).wf(),
            model::apply_envelope(old(self)@, *env).0.exact(),
        ensures
            final(self).wf(),
            (final(self)@, r@) == model::apply_envelope(old(self)@, *env),
    {
        proof {
            self.lemma_wf();
            lemmas::lemma_envelope_exact(self@, *env);
        }
        let seq_no = env.seq_no;
        if seq_no.0 + 1 > self.state.next_seq_no {
            self.state.next_seq_no = seq_no.0 + 1;
        }
        let r = self.dispatch(env);
        self.state.last_applied_seq = seq_no;
        r
    }

    /// Hands a command to the part of the engine that it concerns.
    fn dispatch(&mut self, env: &CommandEnvelope) -> (r: CommandReceipt)
        requires
            old(self).wf(),
            model::dispatch(old(self)@, *env).0.exact(),
        ensures
            final(self).wf(),
            (final(self)@, r@) == model::dispatch(old(self)@, *env),
    {
        proof {
            reveal(model::dispatch_trading);
        }
        let seq_no = env.seq_no;
        let now = env.received_at;
        match &env.command {
            Command::Nop => CommandReceipt::accepted(seq_no),
            Command::AddUser(a) => Self::ledger_receipt(
                seq_no,
                self.state.risk.add_user(a.user_id),
            ),
            Command::AdjustBalance(a) => Self::ledger_receipt(
                seq_no,
                self.state.risk.adjust_balance(a),
            ),
            Command::SuspendUser(u) => Self::ledger_receipt(seq_no, self.state.risk.suspend(*u)),
            Command::ResumeUser(u) => Self::ledger_receipt(seq_no, self.state.risk.resume(*u)),
            Command::PlaceOrder(p) => self.handle_place(seq_no, p, now),
            Command::CancelOrder(c) => self.handle_cancel(seq_no, c, now),
            Command::RegisterSymbol(spec) => self.handle_register_symbol(seq_no, spec),
            Command::SetMarkPrice(m) => self.handle_set_mark_price(seq_no, m, now),
            Command::ApplyFunding(f) => self.handle_apply_funding(seq_no, f),
            Command::SettleFuture(s) => self.handle_settle_future(seq_no, s),
            Command::ModifyOrder(m) => self.handle_modify(seq_no, m, now),
        }
    }

    /// The envelope under which the next command goes into the journal.
    pub fn next_envelope(&self, cmd: Command, now: Timestamp) -> (r: CommandEnvelope)
        ensures
            r == model::next_envelope(self@, cmd, now),
    {
        CommandEnvelope {
            seq_no: SeqNo(self.state.next_seq_no),
            received_at: now,
            command: cmd,
        }
    }

    /// Takes a command in and applies it. Where a trade of it cannot be settled,
    /// `failure` says why, and the engine is not to be used any further. In a state that
    /// commands led to, that is an arithmetic overflow or, in a derivative, a margin
    /// shortfall: a fill costs more margin or fee than the order reserved, and the free
    /// balance of its user does not cover the difference, as when an ask fills above its
    /// limit.
    pub fn submit(&mut self, cmd: Command, now: Timestamp) -> (r: CommandReceipt)
        requires
            old(self).wf(),
            model::submit(old(self)@, cmd, now).0.exact(),
        ensures
            final(self).wf(),
            (final(self)@, r@) == model::submit(old(self)@, cmd, now),
    {
        let env = self.next_envelope(cmd, now);
        self.apply_envelope(&env)
    }

    /// Makes a symbol tradable.
    pub fn register_symbol(&mut self, spec: SymbolSpec) -> (r: Result<(), RejectReason>)
        requires
            old(self).wf(),
            old(self)@.next_seq_no < u64::MAX,
        ensures
            final(self).wf(),
            final(self)@ == model::submit(
                old(self)@,
                Command::RegisterSymbol(spec),
                Timestamp(0),
            ).0,
            r == (if old(self)@.symbols.contains_key(spec.symbol_id) {
                Err(RejectReason::UnsupportedCommand)
            } else {
                Ok(())
            }),
    {
        proof {
            self.lemma_wf();
        }
        let receipt = self.submit(Command::RegisterSymbol(spec), Timestamp(0));
        match receipt.status {
            CommandStatus::Rejected(reason) => Err(reason),
            _ => Ok(()),
        }
    }

    /// Gives out sequence numbers for some commands that are journaled together.
    pub fn take_envelopes(&mut self, cmds: &[(Command, Timestamp)]) -> (r: Vec<CommandEnvelope>)
        requires
            old(self).wf(),
            old(self)@.next_seq_no + cmds@.len() <= u64::MAX,
        ensures
            final(self).wf(),
            final(self)@ == model::with_seq_taken(old(self)@, cmds@.len() as int),
            r@ == model::batch_envelopes(old(self)@, cmds@),
    {
        let ghost e = self@;
        proof {
            self.lemma_wf();
        }
        let mut envs: Vec<CommandEnvelope> = Vec::new();
        let mut i: usize = 0;
        while i < cmds.len()
            invariant
                self.wf(),
                i <= cmds@.len(),
                e.exact(),
                e.next_seq_no + cmds@.len() <= u64::MAX,
                self@ == model::with_seq_taken(e, i as int),
                envs@ == model::batch_envelopes(e, cmds@).subrange(0, i as int),
            decreases cmds@.len() - i,
        {
            let env = self.next_envelope(cmds[i].0, cmds[i].1);
            envs.push(env);
            self.state.next_seq_no = self.state.next_seq_no + 1;
            assert(envs@ =~= model::batch_envelopes(e, cmds@).subrange(0, i + 1));
            i = i + 1;
        }
        assert(envs@ =~= model::batch_envelopes(e, cmds@));
        envs
    }

    /// Applies journaled commands one after the other.
    pub fn apply_all(&mut self, envs: &[CommandEnvelope]) -> (r: Vec<CommandReceipt>)
        requires
            old(self).wf(),
            model::apply_all(old(self)@, envs@).0.exact(),
        ensures
            final(self).wf(),
            final(self)@ == model::apply_all(old(self)@, envs@).0,
            receipts_of(r@) == model::apply_all(old(self)@, envs@).1,
    {
        let ghost e = self@;
        let mut receipts: Vec<CommandReceipt> = Vec::new();
        let mut i: usize = 0;
        assert(envs@.subrange(0, 0) =~= Seq::<CommandEnvelope>::empty());
        assert(receipts_of(receipts@) =~= Seq::empty());
        while i < envs.len()
            invariant
                self.wf(),
                i <= envs@.len(),
                model::apply_all(e, envs@).0.exact(),
                self@ == model::apply_all(e, envs@.subrange(0, i as int)).0,
                receipts_of(receipts@) == model::apply_all(e, envs@.subrange(0, i as int)).1,
            decreases envs@.len() - i,
        {
            proof {
                lemmas::lemma_all_exact(e, envs@, i + 1);
                assert(envs@.subrange(0, i + 1).drop_last() =~= envs@.subrange(0, i as int));
            }
            let ghost before = receipts@;
            let receipt = self.apply_envelope(&envs[i]);
            receipts.push(receipt);
            assert(receipts_of(receipts@) =~= receipts_of(before).push(receipt@));
            i = i + 1;
        }
        assert(envs@.subrange(0, i as int) =~= envs@);
        receipts
    }

    /// Takes some commands in together. A journal can write their envelopes in
    /// one go before the first of them is applied.
    pub fn submit_batch(&mut self, cmds: Vec<(Command, Timestamp)>) -> (r: Vec<CommandReceipt>)
        requires
            old(self).wf(),
            model::submit_batch(old(self)@, cmds@).0.exact(),
        ensures
            final(self).wf(),
            final(self)@ == model::submit_batch(old(self)@, cmds@).0,
            receipts_of(r@) == model::submit_batch(old(self)@, cmds@).1,
    {
        proof {
            let envs = model::batch_envelopes(self@, cmds@);
            lemmas::lemma_all_exact(
                model::with_seq_taken(self@, cmds@.len() as int),
                envs,
                0,
            );
            assert(envs.subrange(0, 0) =~= Seq::<CommandEnvelope>::empty());
        }
        let envs = self.take_envelopes(cmds.as_slice());
        self.apply_all(envs.as_slice())
    }

    /// The marks of the symbols that have one.
    fn marks(&self) -> (r: Vec<Mark>)
        requires
            self.wf(),
        ensures
            lemmas::lists_marks(r@, model::marked(self@)),
    {
        let mut marks: Vec<Mark> = Vec::new();
        let n: usize = self.state.mark_prices.len();
        let mut i: usize = 0;
        let ghost keys = self.state.mark_prices.key_order();
        proof {
            self.state.mark_prices.lemma_key_order();
        }
        while i < n
            invariant
                self.wf(),
                keys == self.state.mark_prices.key_order(),
                n == keys.len(),
                keys.no_duplicates(),
                forall|k: u64| #[trigger]
                    self.state.mark_prices@.contains_key(k) <==> keys.contains(k),
                i <= n,
                forall|j: int|
                    0 <= j < marks@.len() ==> {
                        let s = (#[trigger] marks@[j]).symbol_id;
                        &&& model::marked(self@).contains_key(s)
                        &&& marks@[j] == model::marked(self@)[s]
                        &&& exists|k: int| 0 <= k < i && keys[k] == s.0 as u64
                    },
                forall|j: int, k: int|
                    0 <= j < k < marks@.len() ==> (#[trigger] marks@[j]).symbol_id != (
                    #[trigger] marks@[k]).symbol_id,
                forall|k: int|
                    0 <= k < i && model::marked(self@).contains_key(SymbolId(keys[k] as u32))
                        ==> exists|j: int|
                        0 <= j < marks@.len() && (#[trigger] marks@[j]).symbol_id == SymbolId(
                            #[trigger] keys[k] as u32,
                        ),
            decreases n - i,
        {
            let key: u64 = self.state.mark_prices.key_at(i);
            let price: Price = *self.state.mark_prices.value_at(i);
            let symbol_id = SymbolId(key as u32);
            let ghost before = marks@;
            assert(key <= u32::MAX);
            match self.symbol(symbol_id) {
                Some(spec) => {
                    marks.push(Mark { symbol_id, price, scale: spec.base_minor_per_major });
                    proof {
                        assert forall|k: int|
                            0 <= k < i + 1 && model::marked(self@).contains_key(
                                SymbolId(keys[k] as u32),
                            ) implies exists|j: int|
                            0 <= j < marks@.len() && (#[trigger] marks@[j]).symbol_id == SymbolId(
                                #[trigger] keys[k] as u32,
                            ) by {
                            if k == i {
                                assert(marks@[before.len() as int].symbol_id == symbol_id);
                            } else {
                                let j = choose|j: int|
                                    0 <= j < before.len() && (#[trigger] before[j]).symbol_id
                                        == SymbolId(keys[k] as u32);
                                assert(marks@[j] == before[j]);
                            }
                        }
                    }
                },
                None => {},
            }
            i = i + 1;
        }
        proof {
            assert forall|s: SymbolId| model::marked(self@).contains_key(s) implies exists|j: int|
                0 <= j < marks@.len() && (#[trigger] marks@[j]).symbol_id == s by {
                assert(self.state.mark_prices@.contains_key(s.0 as u64));
                let k = choose|k: int| 0 <= k < keys.len() && keys[k] == s.0 as u64;
                assert(SymbolId(keys[k] as u32) == s);
            }
        }
        marks
    }

    /// Everything that the accounts own in a currency, with the open profits of
    /// all positions at their marks.
    pub fn total_internal_with_marks(&self, currency: CurrencyId) -> (r: i128)
        requires
            self.wf(),
            model::total_fits(self@, currency),
        ensures
            r == model::total_with_marks(self@, currency),
    {
        let marks = self.marks();
        proof {
            lemmas::lemma_marks_fit(self@, currency, marks@);
        }
        self.state.risk.total_internal_with_marks(currency, marks.as_slice())
    }
}

impl Default for MatchingEngine {
    fn default() -> (r: MatchingEngine)
        ensures
            r.wf(),
            r@ == model::new_engine(),
    {
        MatchingEngine::new()
    }
}

} // verus!
