//! What the commands of the engine are for.
use vstd::prelude::*;

use crate::engine::backing;
use crate::engine::laws;
use crate::engine::lemmas;
use crate::engine::model;
use crate::engine::model::EngineModel;
use crate::matching::book;
use crate::matching::laws as book_laws;
use crate::matching::model as book_model;
use crate::matching::outcome::{PlaceParams, StpCancellation};
use crate::risk::charges;
use crate::risk::margins;
use crate::risk::model as risk_model;
use crate::types::command::{
    ApplyFunding, CancelOrder, Command, CommandEnvelope, ModifyOrder, PlaceOrder, SettleFuture,
};
use crate::types::enums::{OrderType, SelfTradePrevention, Side, TimeInForce};
use crate::types::event::{Event, OrderCancelled};
use crate::types::ids::{CurrencyId, OrderId, SeqNo, SymbolId, Timestamp, UserId};
use crate::types::numeric::Price;
use crate::types::receipt::CommandStatus;
use crate::types::reject::RejectReason;
use crate::types::symbol::SymbolSpec;

verus! {

/// A cancelled order is out of its book, its reservation is gone, and what was reserved is free
/// again. That happens exactly where the order rests in the book of the symbol and
/// belongs to the user; otherwise nothing changes.
pub proof fn law_cancelled_orders_give_back(e: EngineModel, env: CommandEnvelope, c: CancelOrder)
    requires
        env.command == Command::CancelOrder(c),
        laws::reachable(e),
    ensures
        ({
            let (f, r) = model::apply_envelope(e, env);
            let b = e.books[c.symbol_id];
            let mine = e.books.contains_key(c.symbol_id) && b.has_order(c.order_id) && b.order(
                c.order_id,
            ).user_id == c.user_id;
            let h = e.ledger.holds[c.order_id];
            &&& mine ==> {
                &&& r.status == CommandStatus::Cancelled
                &&& !f.books[c.symbol_id].has_order(c.order_id)
                &&& f.books == e.books.insert(c.symbol_id, f.books[c.symbol_id])
                &&& f.ledger.holds == e.ledger.holds.remove(c.order_id)
                &&& f.ledger.accounts[c.user_id].free[h.currency]
                    == e.ledger.accounts[c.user_id].free[h.currency] + h.remaining_amount.0
                &&& f.ledger.accounts[c.user_id].held[h.currency]
                    == e.ledger.accounts[c.user_id].held[h.currency] - h.remaining_amount.0
                &&& f.pending_stops == e.pending_stops
                &&& r.events.len() == 1
                &&& r.events[0] matches Event::OrderCancelled(x) && x.order_id == c.order_id
                    && x.user_id == c.user_id && x.remaining_size == b.order(
                    c.order_id,
                ).size_remaining
            }
            &&& !mine ==> {
                &&& r.status is Rejected
                &&& f.books == e.books
                &&& f.ledger.accounts == e.ledger.accounts
                &&& f.ledger.holds == e.ledger.holds
                &&& f.pending_stops == e.pending_stops
                &&& r.events.len() == 0
            }
        }),
{
    reveal(model::dispatch_trading);
    let s = c.symbol_id;
    let b = e.books[s];
    if e.books.contains_key(s) && b.has_order(c.order_id) && b.order(c.order_id).user_id
        == c.user_id {
        book_laws::law_cancel_keeps_book(b, c.order_id);
        let side = b.find(c.order_id).0;
        let i = b.find(c.order_id).1;
        let (s0, i0) = choose|side: Side, i: int| #[trigger] b.rests_at(side, i, c.order_id);
        assert(b.rests_at((s0, i0).0, (s0, i0).1, c.order_id));
        assert(b.rests_at(side, i, c.order_id));
        assert(e.books[s].queue(side)[i].order_id == c.order_id);
        let h = e.ledger.holds[c.order_id];
        assert(e.ledger.holds.contains_key(c.order_id));
        assert(e.ledger.has(h.user_id));
        let w = b.without(c.order_id);
        if w.has_order(c.order_id) {
            let (t, j) = choose|t: Side, j: int| #[trigger] w.rests_at(t, j, c.order_id);
            assert(w.queue(t)[j].order_id == c.order_id);
            assert(book_laws::queued(w.queue(t), c.order_id));
            if t == side {
                assert(!book_laws::queued(b.without(c.order_id).queue(side), c.order_id));
            } else {
                assert(t == side.other());
                assert(b.rests_at(t, j, c.order_id));
            }
        }
        charges::law_released_money_is_free(laws::noted(e, env).ledger, c.order_id);
    }
}

/// Replacing an order is cancelling it and placing a good-till-cancelled one in its stead: on the
/// same side, at the new price or the old one, with the new size or what was still open, and
/// an iceberg stays one. Engine, status and events are those of the two commands.
pub proof fn law_modifying_is_cancelling_and_placing(
    e: EngineModel,
    seq_no: SeqNo,
    m: ModifyOrder,
    now: Timestamp,
    p: PlaceOrder,
)
    requires
        e.sound(),
        e.books.contains_key(m.symbol_id),
        e.books[m.symbol_id].has_order(m.order_id),
        e.books[m.symbol_id].order(m.order_id).user_id == m.user_id,
        ({
            let o = e.books[m.symbol_id].order(m.order_id);
            let slice = o.visible_slice;
            &&& p.user_id == m.user_id
            &&& p.symbol_id == m.symbol_id
            &&& p.client_order_id == o.client_order_id
            &&& p.side == o.side
            &&& p.order_type == (if slice.0 > 0 {
                OrderType::Iceberg
            } else {
                OrderType::Limit
            })
            &&& p.visible_size == (if slice.0 > 0 {
                Some(slice)
            } else {
                None
            })
            &&& p.time_in_force == TimeInForce::Gtc
            &&& p.price == Some(
                match m.new_price {
                    Some(x) => x,
                    None => o.price,
                },
            )
            &&& p.size.0 == (match m.new_size {
                Some(x) => x.0 as int,
                None => o.size_remaining.0 + o.hidden_remaining.0,
            })
            &&& p.size.0 > 0
            &&& p.reserve_price is None
            &&& p.stop_price is None
            &&& p.self_trade_prevention == SelfTradePrevention::Allow
        }),
    ensures
        ({
            let c = CancelOrder {
                user_id: m.user_id,
                symbol_id: m.symbol_id,
                order_id: m.order_id,
            };
            let (e1, r1) = model::handle_cancel(e, seq_no, c, now);
            let (e2, r2) = model::handle_place(e1, seq_no, p, now);
            let (f, r) = model::handle_modify(e, seq_no, m, now);
            &&& f == e2
            &&& r.status == r2.status
            &&& r.events == r1.events + r2.events
        }),
{
    let c = CancelOrder {
        user_id: m.user_id,
        symbol_id: m.symbol_id,
        order_id: m.order_id,
    };
    let o = e.books[m.symbol_id].order(m.order_id);
    assert(p == model::replacement(o, m));
    let (e1, r1) = model::handle_cancel(e, seq_no, c, now);
    let (e2, r2) = model::handle_place(e1, seq_no, p, now);
    let (f, r) = model::handle_modify(e, seq_no, m, now);
    assert(e.symbols.dom().contains(m.symbol_id));
    assert(e1.symbols.contains_key(m.symbol_id));
    let b = e.books[m.symbol_id];
    let id = e.with_next_order_id();
    let l1 = risk_model::release_hold(id.ledger, m.order_id).0;
    let g = id.with_book(m.symbol_id, b.without(m.order_id)).with_ledger(l1);
    lemma_release_claims(e.ledger, m.order_id, e.next_order_id + 1 <= u64::MAX);
    assert(e1.with_next_order_id() =~= g);
    assert(r.events =~= r1.events + r2.events);
}

proof fn lemma_release_claims(l: risk_model::Ledger, id: OrderId, ok: bool)
    ensures
        risk_model::release_hold(l.claim(ok), id).0 == risk_model::release_hold(l, id).0.claim(ok),
{
    assert(risk_model::release_hold(l.claim(ok), id).0 =~= risk_model::release_hold(l, id).0.claim(
        ok,
    ));
}

/// A replacement that wants nothing, or that concerns no order of its user, is refused and
/// changes nothing.
pub proof fn law_empty_modifications_are_refused(
    e: EngineModel,
    seq_no: SeqNo,
    m: ModifyOrder,
    now: Timestamp,
)
    ensures
        ({
            let (f, r) = model::handle_modify(e, seq_no, m, now);
            let b = e.books[m.symbol_id];
            let mine = e.books.contains_key(m.symbol_id) && b.has_order(m.order_id) && b.order(
                m.order_id,
            ).user_id == m.user_id;
            &&& !mine ==> f == e && r.status is Rejected && r.events.len() == 0
            &&& mine && (m.new_size matches Some(x) && x.0 <= 0) ==> f == e && r.status
                == CommandStatus::Rejected(RejectReason::SizeBelowMinimum)
        }),
{
}

/// A market order is a limit order that takes what it can get at once: a bid up to its reserve,
/// or else up to its price, an ask at any price above nothing. A bid without any bound is
/// refused.
pub proof fn law_market_orders_are_immediate(
    e: EngineModel,
    seq_no: SeqNo,
    p: PlaceOrder,
    now: Timestamp,
    bound: Option<Price>,
)
    requires
        p.order_type == OrderType::Market,
        e.symbols.contains_key(p.symbol_id),
        p.side == Side::Ask ==> bound == Some(Price(0)),
        p.side == Side::Bid ==> bound == (if p.reserve_price is Some {
            p.reserve_price
        } else {
            p.price
        }),
    ensures
        bound is None ==> model::handle_place(e, seq_no, p, now).1.status
            == CommandStatus::Rejected(RejectReason::MissingPrice),
        bound is Some ==> model::handle_place(e, seq_no, p, now) == model::handle_place(
            e,
            seq_no,
            PlaceOrder {
                order_type: OrderType::Limit,
                time_in_force: TimeInForce::Ioc,
                price: bound,
                reserve_price: if p.side == Side::Bid {
                    bound
                } else {
                    p.reserve_price
                },
                ..p
            },
            now,
        ),
{
}

/// What became of an order that a book took stands in the receipt: filled where its trades make up
/// its size, partially filled where they make up less, accepted where it rests without a
/// trade, and cancelled where nothing came of it. The events begin with its acceptance, and
/// report every trade of it. An order that the book refused is rejected, and nothing else.
pub proof fn law_receipts_tell_what_happened(
    e: EngineModel,
    order_id: OrderId,
    p: PlaceOrder,
    spec: SymbolSpec,
    now: Timestamp,
)
    ensures
        ({
            let (f, status, events) = model::apply_to_book(e, order_id, p, spec, now);
            let o = book_model::outcome_of(
                e.books[p.symbol_id],
                model::params_of(order_id, p, now),
            );
            let traded = book_model::traded(o.trades);
            &&& o.reject is None ==> {
                &&& traded == p.size.0 ==> status == CommandStatus::Filled
                &&& 0 < traded && traded != p.size.0 ==> status == CommandStatus::PartiallyFilled
                &&& traded <= 0 && traded != p.size.0 && o.rested ==> status
                    == CommandStatus::Accepted
                &&& traded <= 0 && traded != p.size.0 && !o.rested ==> status
                    == CommandStatus::Cancelled
                &&& events[0] matches Event::OrderAccepted(x) && x.order_id == order_id
                    && x.user_id == p.user_id
                &&& model::trades_of(events) == o.trades
                &&& forall|i: int|
                    0 <= i < o.trades.len() ==> #[trigger] events[i + 1] == Event::Trade(
                        o.trades[i],
                    )
            }
            &&& o.reject matches Some(reason) ==> {
                &&& status == CommandStatus::Rejected(reason)
                &&& events.len() == 1
                &&& events[0] matches Event::OrderRejected(x) && x.reason == reason && x.user_id
                    == p.user_id
                &&& f.books[p.symbol_id] == e.books[p.symbol_id]
            }
        }),
{
    lemmas::lemma_apply_trades(e, order_id, p, spec, now);
}

/// Funding is settled in perpetual swaps that have a mark, and a settlement of futures only in
/// futures. Elsewhere the command is refused and changes nothing.
pub proof fn law_settlements_keep_to_their_kind(e: EngineModel, env: CommandEnvelope)
    ensures
        ({
            let (f, r) = model::apply_envelope(e, env);
            let same = f.books == e.books && f.ledger.accounts == e.ledger.accounts
                && f.ledger.holds == e.ledger.holds && f.symbols == e.symbols && f.mark_prices
                == e.mark_prices && f.pending_stops == e.pending_stops;
            &&& env.command matches Command::ApplyFunding(x) ==> {
                let fits = e.symbols.contains_key(x.symbol_id)
                    && e.symbols[x.symbol_id].kind_params is PerpetualSwap
                    && e.mark_prices.contains_key(x.symbol_id);
                &&& r.status == CommandStatus::Accepted <==> fits
                &&& !fits ==> same && r.status is Rejected
                &&& f.books == e.books && f.ledger.holds == e.ledger.holds
            }
            &&& env.command matches Command::SettleFuture(x) ==> {
                let fits = e.symbols.contains_key(x.symbol_id)
                    && e.symbols[x.symbol_id].kind_params is Future;
                &&& r.status == CommandStatus::Accepted <==> fits
                &&& !fits ==> same && r.status is Rejected
                &&& fits ==> f.symbols[x.symbol_id].is_suspended && f.mark_prices[x.symbol_id]
                    == x.settlement_price && f.books == e.books && f.ledger.holds
                    == e.ledger.holds
            }
        }),
{
    reveal(model::dispatch_trading);
}

/// A settlement of funding moves from each position what its size, the mark and the rate come to:
/// longs pay where the rate is positive, shorts receive.
pub proof fn law_funding_follows_the_mark(
    e: EngineModel,
    env: CommandEnvelope,
    x: ApplyFunding,
    u: UserId,
)
    requires
        env.command == Command::ApplyFunding(x),
        model::apply_envelope(e, env).1.status == CommandStatus::Accepted,
        e.symbols[x.symbol_id].symbol_id == x.symbol_id,
        e.symbols[x.symbol_id].base_minor_per_major > 0,
        e.ledger.has(u),
        u != UserId(0),
        e.ledger.accounts[u].positions.contains_key(x.symbol_id),
    ensures
        ({
            let spec = e.symbols[x.symbol_id];
            let a = e.ledger.accounts[u];
            let b = model::apply_envelope(e, env).0.ledger.accounts[u];
            let p = a.positions[x.symbol_id];
            &&& a.free[spec.quote_currency] - b.free[spec.quote_currency] == margins::whole(
                margins::whole(
                    p.size.0 * e.mark_prices[x.symbol_id].0 * x.rate_bps,
                    spec.base_minor_per_major as int,
                ),
                10_000,
            )
            &&& b.positions == a.positions
        }),
{
    reveal(model::dispatch_trading);
    margins::law_funding_is_paid_by_size(
        laws::noted(e, env).ledger,
        e.symbols[x.symbol_id],
        e.mark_prices[x.symbol_id],
        x.rate_bps as int,
        u,
    );
}

/// After the settlement of a future no position in it is open, and each user has what the
/// position was worth at the settlement price. Nobody can trade it any more.
pub proof fn law_settled_futures_are_over(
    e: EngineModel,
    env: CommandEnvelope,
    x: SettleFuture,
    u: UserId,
)
    requires
        env.command == Command::SettleFuture(x),
        model::apply_envelope(e, env).1.status == CommandStatus::Accepted,
        e.symbols[x.symbol_id].symbol_id == x.symbol_id,
        e.symbols[x.symbol_id].base_minor_per_major > 0,
        e.ledger.has(u),
        u != UserId(0),
        e.ledger.accounts[u].positions.contains_key(x.symbol_id),
        e.ledger.accounts[u].positions[x.symbol_id].size.0 != i64::MIN,
    ensures
        ({
            let spec = e.symbols[x.symbol_id];
            let f = model::apply_envelope(e, env).0;
            let a = e.ledger.accounts[u];
            let b = f.ledger.accounts[u];
            let p = a.positions[x.symbol_id];
            &&& b.positions[x.symbol_id].size.0 == 0
            &&& p.size.0 != 0 ==> b.positions[x.symbol_id].margin_locked.0 == 0
                && b.free[spec.quote_currency] == a.free[spec.quote_currency] + margins::equity(
                p,
                x.settlement_price,
                spec,
            )
            &&& f.symbols[x.symbol_id].is_suspended
        }),
        forall|seq_no: SeqNo, p: PlaceOrder, now: Timestamp|
            p.symbol_id == x.symbol_id ==> (#[trigger] model::handle_place(
                model::apply_envelope(e, env).0,
                seq_no,
                p,
                now,
            )).1.status is Rejected,
{
    reveal(model::dispatch_trading);
    margins::law_settlement_closes_all(
        laws::noted(e, env).ledger,
        e.symbols[x.symbol_id],
        x.settlement_price,
        u,
    );
}

/// A new symbol has an empty book and is traded on the terms that it came with. A symbol is
/// registered once.
pub proof fn law_new_symbols_are_empty(e: EngineModel, env: CommandEnvelope, spec: SymbolSpec)
    requires
        env.command == Command::RegisterSymbol(spec),
    ensures
        ({
            let (f, r) = model::apply_envelope(e, env);
            let s = spec.symbol_id;
            &&& e.symbols.contains_key(s) ==> r.status is Rejected && f.symbols == e.symbols
                && f.books == e.books
            &&& !e.symbols.contains_key(s) ==> {
                &&& r.status == CommandStatus::Accepted
                &&& f.symbols == e.symbols.insert(s, spec)
                &&& f.books[s].asks.len() == 0
                &&& f.books[s].bids.len() == 0
                &&& f.books[s].symbol_id == s
                &&& f.books == e.books.insert(s, f.books[s])
            }
            &&& f.ledger.accounts == e.ledger.accounts
            &&& f.ledger.holds == e.ledger.holds
        }),
{
}

/// Whether two ledgers give every user the same balances, positions and standing.
pub open spec fn same_accounts(k: risk_model::Ledger, l: risk_model::Ledger) -> bool {
    &&& l.accounts.dom() == k.accounts.dom()
    &&& forall|u: UserId, c: CurrencyId| #[trigger]
        l.accounts[u].free[c] == k.accounts[u].free[c]
    &&& forall|u: UserId, c: CurrencyId| #[trigger]
        l.accounts[u].held[c] == k.accounts[u].held[c]
    &&& forall|u: UserId| (#[trigger] l.accounts[u]).positions == k.accounts[u].positions
    &&& forall|u: UserId| (#[trigger] l.accounts[u]).is_suspended == k.accounts[u].is_suspended
}

/// An order that is refused leaves the books, the balances, the reservations and the waiting
/// stops as they were.
pub proof fn law_refused_orders_change_nothing(
    e: EngineModel,
    env: CommandEnvelope,
    p: PlaceOrder,
)
    requires
        env.command == Command::PlaceOrder(p),
        laws::reachable(e),
        model::apply_envelope(e, env).1.status is Rejected,
        model::apply_envelope(e, env).0.exact(),
    ensures
        ({
            let f = model::apply_envelope(e, env).0;
            &&& f.books == e.books
            &&& same_accounts(e.ledger, f.ledger)
            &&& f.ledger.holds == e.ledger.holds
            &&& f.pending_stops == e.pending_stops
        }),
{
    reveal(model::dispatch_trading);
    let e1 = laws::noted(e, env);
    lemma_refused(e1, env.seq_no, p, env.received_at);
}

proof fn lemma_refused(e: EngineModel, seq_no: SeqNo, p: PlaceOrder, now: Timestamp)
    requires
        e.sound(),
        0 <= e.next_order_id,
        backing::backed(e),
        model::handle_place(e, seq_no, p, now).1.status is Rejected,
        model::handle_place(e, seq_no, p, now).0.exact(),
    ensures
        ({
            let f = model::handle_place(e, seq_no, p, now).0;
            &&& f.books == e.books
            &&& same_accounts(e.ledger, f.ledger)
            &&& f.ledger.holds == e.ledger.holds
            &&& f.pending_stops == e.pending_stops
        }),
{
    let id = OrderId(e.next_order_id as u64);
    let e1 = e.with_next_order_id();
    lemmas::lemma_place_exact(e, seq_no, p, now);
    lemmas::lemma_next_unused(e);
    backing::lemma_untouched_backed(e, e1, Seq::empty());
    backing::lemma_unused_not_live(e1, id);
    if e.ledger.holds.contains_key(id) {
        assert(backing::no_stray(e1, Seq::empty()));
        assert(backing::live(e1, id));
    }
    if e.symbols.contains_key(p.symbol_id) {
        if let Some(p2) = model::lowered(p) {
            let spec = e.symbols[p.symbol_id];
            lemma_reserve_undone(e1.ledger, p2, spec, id);
            let f = model::handle_place(e, seq_no, p, now).0;
            assert(f.books =~= e.books);
        }
    }
}

/// Giving a fresh reservation back undoes it.
proof fn lemma_reserve_undone(
    l: risk_model::Ledger,
    p: PlaceOrder,
    spec: SymbolSpec,
    id: OrderId,
)
    requires
        !l.holds.contains_key(id),
    ensures
        ({
            let (k, r) = risk_model::pre_check_place(l, p, spec, id);
            let back = risk_model::release_hold(k, id).0;
            let claimed = risk_model::release_hold(k.claim(true), id).0;
            &&& r is Ok ==> same_accounts(l, back) && back.holds == l.holds && same_accounts(
                l,
                claimed,
            ) && claimed.holds == l.holds
            &&& r is Err ==> k.accounts == l.accounts && k.holds == l.holds
        }),
{
    let (k, r) = risk_model::pre_check_place(l, p, spec, id);
    if r is Ok {
        let back = risk_model::release_hold(k, id).0;
        assert(back.accounts.dom() =~= l.accounts.dom());
        assert(back.holds =~= l.holds);
    }
}

/// A user who is suspended places no order until the user is resumed. Nothing else of the user,
/// and nobody else, is touched.
pub proof fn law_suspended_users_place_nothing(
    e: EngineModel,
    u: UserId,
    no: SeqNo,
    now: Timestamp,
    p: PlaceOrder,
    spec: SymbolSpec,
    id: OrderId,
)
    requires
        e.ledger.has(u),
        p.user_id == u,
    ensures
        ({
            let stop = CommandEnvelope {
                seq_no: no,
                received_at: now,
                command: Command::SuspendUser(u),
            };
            let go = CommandEnvelope {
                seq_no: no,
                received_at: now,
                command: Command::ResumeUser(u),
            };
            let (s, r) = model::dispatch(e, stop);
            let (t, q) = model::dispatch(s, go);
            &&& r.status == CommandStatus::Accepted
            &&& q.status == CommandStatus::Accepted
            &&& s.ledger.accounts[u].is_suspended
            &&& !t.ledger.accounts[u].is_suspended
            &&& risk_model::pre_check_place(s.ledger, p, spec, id).1 is Err
            &&& s.ledger.accounts[u].free == e.ledger.accounts[u].free
            &&& s.ledger.accounts[u].held == e.ledger.accounts[u].held
            &&& s.ledger.accounts[u].positions == e.ledger.accounts[u].positions
            &&& s.ledger.holds == e.ledger.holds
            &&& s.books == e.books
            &&& forall|v: UserId|
                v != u ==> #[trigger] s.ledger.accounts[v] == e.ledger.accounts[v]
            &&& !e.ledger.accounts[u].is_suspended ==> t.ledger.accounts[u]
                == e.ledger.accounts[u]
        }),
{
}

/// An order goes to the book of its symbol as its user asked for it: the side, the size, the price,
/// what it shows, how long it stays and what it does about trades with itself. The other books
/// stay as they are. The last event tells how much was filled and how much was not.
pub proof fn law_orders_reach_their_book(
    e: EngineModel,
    order_id: OrderId,
    p: PlaceOrder,
    spec: SymbolSpec,
    now: Timestamp,
    price: Price,
)
    requires
        p.price == Some(price),
        p.size.0 > 0,
    ensures
        ({
            let asked = PlaceParams {
                order_id,
                user_id: p.user_id,
                client_order_id: p.client_order_id,
                side: p.side,
                order_type: p.order_type,
                time_in_force: p.time_in_force,
                price,
                size: p.size,
                timestamp: now,
                stp: p.self_trade_prevention,
                visible_size: p.visible_size,
            };
            let b = e.books[p.symbol_id];
            let o = book_model::outcome_of(b, asked);
            let (f, status, events) = model::apply_to_book(e, order_id, p, spec, now);
            &&& f.books == e.books.insert(p.symbol_id, book_model::book_after_place(b, asked))
            &&& o.reject is None ==> {
                &&& model::trades_of(events) == o.trades
                &&& status == CommandStatus::Filled ==> (events.last() matches Event::OrderFilled(x)
                    && x.order_id == order_id && x.user_id == p.user_id && x.filled_size == p.size)
                &&& status == CommandStatus::PartiallyFilled ==> (
                events.last() matches Event::OrderPartiallyFilled(x) && x.order_id == order_id
                    && x.user_id == p.user_id && x.filled_size.0 == book_model::traded(o.trades)
                    && x.remaining_size.0 == o.remaining)
                &&& status == CommandStatus::Cancelled ==> (
                events.last() matches Event::OrderCancelled(x) && x.order_id == order_id
                    && x.user_id == p.user_id && x.remaining_size.0 == o.remaining)
            }
        }),
{
    let asked = model::params_of(order_id, p, now);
    let b = e.books[p.symbol_id];
    lemmas::lemma_apply_trades(e, order_id, p, spec, now);
    book::lemma_matched_bounds(
        book_model::taker_of(b.symbol_id, asked),
        b.queue(p.side.other()),
        p.size.0 as int,
    );
}

/// Every order that prevention took away whole is reported with what it still showed, and no other
/// one is.
pub proof fn law_prevented_orders_are_reported(
    cancels: Seq<StpCancellation>,
    symbol_id: SymbolId,
    now: Timestamp,
)
    ensures
        ({
            let events = model::stp_events(cancels, symbol_id, now);
            &&& forall|i: int|
                0 <= i < cancels.len() && (#[trigger] cancels[i]).full_cancel ==> events.contains(
                    reported(cancels[i], symbol_id, now),
                )
            &&& forall|j: int|
                0 <= j < events.len() ==> exists|i: int|
                    0 <= i < cancels.len() && (#[trigger] cancels[i]).full_cancel && (
                    #[trigger] events[j]) == reported(cancels[i], symbol_id, now)
        }),
    decreases cancels.len(),
{
    let events = model::stp_events(cancels, symbol_id, now);
    if cancels.len() > 0 {
        let first = cancels.drop_last();
        let before = model::stp_events(first, symbol_id, now);
        law_prevented_orders_are_reported(first, symbol_id, now);
        assert forall|i: int|
            0 <= i < cancels.len() && (#[trigger] cancels[i]).full_cancel implies events.contains(
            reported(cancels[i], symbol_id, now),
        ) by {
            if i < first.len() {
                assert(first[i] == cancels[i]);
                assert(before.contains(reported(first[i], symbol_id, now)));
                let k = choose|k: int|
                    0 <= k < before.len() && before[k] == reported(first[i], symbol_id, now);
                assert(events[k] == before[k]);
            } else {
                assert(events[events.len() - 1] == reported(cancels[i], symbol_id, now));
            }
        }
        assert forall|j: int| 0 <= j < events.len() implies exists|i: int|
            0 <= i < cancels.len() && (#[trigger] cancels[i]).full_cancel && (
            #[trigger] events[j]) == reported(cancels[i], symbol_id, now) by {
            if j < before.len() {
                assert(events[j] == before[j]);
                let i = choose|i: int|
                    0 <= i < first.len() && (#[trigger] first[i]).full_cancel && before[j]
                        == reported(first[i], symbol_id, now);
                assert(cancels[i] == first[i]);
            } else {
                assert(cancels[cancels.len() - 1].full_cancel);
            }
        }
    }
}

/// The report of an order that prevention took away.
pub open spec fn reported(c: StpCancellation, symbol_id: SymbolId, now: Timestamp) -> Event {
    Event::OrderCancelled(
        OrderCancelled {
            order_id: c.order_id,
            user_id: c.user_id,
            symbol_id,
            remaining_size: c.size_cancelled,
            timestamp: now,
        },
    )
}

} // verus!
