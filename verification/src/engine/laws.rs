//! What holds of the engine as a whole.
use vstd::prelude::*;

use crate::engine::backing;
use crate::engine::lemmas;
use crate::engine::model;
use crate::engine::model::{EngineModel, PendingStop};
use crate::engine::positions;
use crate::risk::laws as risk_laws;
use crate::risk::model as risk_model;
use crate::risk::model::{AccountModel, Ledger};
use crate::risk::value;
use crate::store::sums;
use crate::types::command::{
    CancelOrder, Command, CommandEnvelope, ModifyOrder, PlaceOrder, SetMarkPrice,
};
use crate::types::enums::OrderType;
use crate::types::ids::{CurrencyId, OrderId, SeqNo, SymbolId, Timestamp, UserId};
use crate::types::numeric::{Bps, Price};
use crate::types::receipt::ReceiptModel;
use crate::types::symbol::SymbolSpec;

verus! {

/// Whether an engine is sound, every symbol has a line of waiting stops, and
/// reservations and open orders match one to one.
pub open spec fn matched(e: EngineModel) -> bool {
    &&& e.sound()
    &&& 0 <= e.next_order_id
    &&& forall|s: SymbolId| e.pending_stops.contains_key(s)
    &&& backing::backed(e)
}

/// A state that an engine can be in: its reservations match its open orders, and its
/// positions are in known symbols, with their margin in the right currency.
pub open spec fn reachable(e: EngineModel) -> bool {
    matched(e) && positions::in_order(e.ledger, e.symbols)
}

/// An engine that only knows spot symbols.
pub open spec fn spot_only(e: EngineModel) -> bool {
    forall|s: SymbolId| #[trigger]
        e.symbols.contains_key(s) ==> e.symbols[s].kind_params is Spot
}

/// Whether a symbol is known and a derivative.
pub open spec fn derivative(e: EngineModel, s: SymbolId) -> bool {
    e.symbols.contains_key(s) && !(e.symbols[s].kind_params is Spot)
}

/// Whether a command, with its receipt, trades a derivative or closes a position in one.
pub open spec fn moves_positions(e: EngineModel, cmd: Command, r: ReceiptModel) -> bool {
    match cmd {
        Command::PlaceOrder(p) => derivative(e, p.symbol_id) && model::trades_of(r.events).len() > 0,
        Command::ModifyOrder(m) => derivative(e, m.symbol_id) && model::trades_of(r.events).len()
            > 0,
        Command::SetMarkPrice(m) => derivative(e, m.symbol_id) && (model::trades_of(r.events).len()
            > 0 || !backing::closes_nothing(
            e.ledger,
            e.symbols[m.symbol_id],
            m.mark_price,
            risk_model::maintenance_margin(e.symbols[m.symbol_id]),
        )),
        Command::SettleFuture(s) => derivative(e, s.symbol_id) && r.status is Accepted
            && !backing::closes_nothing(
            e.ledger,
            e.symbols[s.symbol_id],
            s.settlement_price,
            None,
        ),
        _ => false,
    }
}

/// Whether a command keeps an engine without derivatives.
pub open spec fn brings_spot(cmd: Command) -> bool {
    cmd matches Command::RegisterSymbol(spec) ==> spec.kind_params is Spot
}

/// What an accepted command moves across the border of the engine.
pub open spec fn external(cmd: Command, r: ReceiptModel, c: CurrencyId) -> int {
    match cmd {
        Command::AdjustBalance(a) => if r.status is Accepted && a.currency_id == c {
            a.delta.0 as int
        } else {
            0
        },
        _ => 0,
    }
}

/// What an accepted funding settlement takes from all users together.
pub open spec fn funding(e: EngineModel, cmd: Command, r: ReceiptModel, c: CurrencyId) -> int {
    match cmd {
        Command::ApplyFunding(f) => if r.status is Accepted && e.symbols[f.symbol_id].quote_currency
            == c {
            sums::sum_map(
                e.ledger.accounts.remove(risk_model::house()),
                value::paid(
                    e.symbols[f.symbol_id],
                    e.mark_prices[f.symbol_id],
                    f.rate_bps as int,
                ),
            )
        } else {
            0
        },
        _ => 0,
    }
}

/// A new engine is in a state that commands can have led to: it has no orders and no
/// reservations.
pub proof fn law_new_engine()
    ensures
        reachable(model::new_engine()),
        spot_only(model::new_engine()),
{
    let e = model::new_engine();
    let a = risk_model::empty_account(risk_model::house());
    assert(e.ledger.accounts.dom() =~= set![risk_model::house()]);
    assert(a.positions.dom() =~= Set::<SymbolId>::empty());
}

/// Taking an id keeps the state.
proof fn lemma_id_taken(e: EngineModel)
    requires
        matched(e),
        e.with_next_order_id().exact(),
    ensures
        matched(e.with_next_order_id()),
        lemmas::unused(e.with_next_order_id(), OrderId(e.next_order_id as u64)),
        forall|c: CurrencyId| #[trigger]
            risk_model::total_internal(e.with_next_order_id().ledger, c)
                == risk_model::total_internal(e.ledger, c),
{
    lemmas::lemma_next_unused(e);
    backing::lemma_untouched_backed(e, e.with_next_order_id(), Seq::empty());
}

/// What a step of the engine keeps.
spec fn step_kept(e: EngineModel, f: EngineModel, steady: bool) -> bool {
    &&& matched(f)
    &&& backing::ledger_kept(e.ledger, f.ledger, steady)
    &&& f.symbols == e.symbols
}

proof fn lemma_place_step(e: EngineModel, seq_no: SeqNo, p: PlaceOrder, now: Timestamp, steady: bool)
    requires
        matched(e),
        steady ==> risk_laws::finite(e.ledger) && !moves_positions(
            e,
            Command::PlaceOrder(p),
            model::handle_place(e, seq_no, p, now).1,
        ),
        model::handle_place(e, seq_no, p, now).0.settled(),
    ensures
        step_kept(e, model::handle_place(e, seq_no, p, now).0, steady),
{
    let order_id = OrderId(e.next_order_id as u64);
    let e1 = e.with_next_order_id();
    lemmas::lemma_place_exact(e, seq_no, p, now);
    lemma_id_taken(e);
    let f = model::handle_place(e, seq_no, p, now).0;
    if e.symbols.contains_key(p.symbol_id) {
        if let Some(p2) = model::lowered(p) {
            let spec = e.symbols[p.symbol_id];
            assert(p2.symbol_id == p.symbol_id);
            backing::lemma_unused_not_live(e1, order_id);
            backing::lemma_place_checked_backed(e1, seq_no, order_id, p2, now, steady);
            lemma_checked_sound(e1, seq_no, order_id, p2, spec, now);
            if steady {
                assert forall|c: CurrencyId| #[trigger] risk_model::total_internal(f.ledger, c)
                    == risk_model::total_internal(e.ledger, c) by {
                    assert(risk_model::total_internal(f.ledger, c) == risk_model::total_internal(
                        e1.ledger,
                        c,
                    ));
                }
            }
        }
    }
}

/// Placing a checked order keeps the engine sound.
proof fn lemma_checked_sound(
    e: EngineModel,
    seq_no: SeqNo,
    order_id: OrderId,
    p: PlaceOrder,
    spec: SymbolSpec,
    now: Timestamp,
)
    requires
        e.sound(),
        lemmas::unused(e, order_id),
        e.symbols.contains_key(p.symbol_id),
        0 <= e.next_order_id,
        forall|s: SymbolId| e.pending_stops.contains_key(s),
    ensures
        ({
            let f = model::place_checked(e, seq_no, order_id, p, spec, now).0;
            &&& f.sound()
            &&& f.next_order_id == e.next_order_id
            &&& f.symbols == e.symbols
            &&& forall|s: SymbolId| f.pending_stops.contains_key(s)
        }),
{
    let (l, r) = risk_model::pre_check_place(e.ledger, p, spec, order_id);
    let e1 = e.with_ledger(l);
    assert(e.books.contains_key(p.symbol_id));
    assert(e1.sound());
    assert(lemmas::unused(e1, order_id));
    if r is Ok {
        let fires = e.mark_prices.contains_key(p.symbol_id) && model::stop_trigger_met(
            p.side,
            e.mark_prices[p.symbol_id],
            p.stop_price->0,
        );
        if model::is_stop(p.order_type) && p.stop_price.is_none() {
            let f = e1.with_ledger(risk_model::release_hold(l, order_id).0);
            assert(f.sound());
        } else if model::is_stop(p.order_type) && !fires {
            lemmas::lemma_stop_sound(
                e1,
                p.symbol_id,
                PendingStop { order_id, place_order: p },
            );
        } else {
            let p2 = if model::is_stop(p.order_type) {
                PlaceOrder { order_type: OrderType::Limit, ..p }
            } else {
                p
            };
            lemmas::lemma_apply_sound(e1, order_id, p2, spec, now);
        }
    }
}

proof fn lemma_mark_step(
    e: EngineModel,
    seq_no: SeqNo,
    m: SetMarkPrice,
    now: Timestamp,
    steady: bool,
)
    requires
        matched(e),
        steady ==> risk_laws::finite(e.ledger) && !moves_positions(
            e,
            Command::SetMarkPrice(m),
            model::handle_set_mark_price(e, seq_no, m, now).1,
        ),
        model::handle_set_mark_price(e, seq_no, m, now).0.settled(),
    ensures
        step_kept(e, model::handle_set_mark_price(e, seq_no, m, now).0, steady),
{
    if e.symbols.contains_key(m.symbol_id) {
        let s = m.symbol_id;
        let stops = e.pending_stops[s];
        let going = model::fired(stops, m.mark_price);
        let e1 = EngineModel {
            mark_prices: e.mark_prices.insert(s, m.mark_price),
            ledger: risk_model::liquidate(e.ledger, e.symbols[s], m.mark_price),
            pending_stops: e.pending_stops.insert(s, model::waiting(stops, m.mark_price)),
            ..e
        };
        backing::lemma_mark_backed(e, seq_no, m, now, steady);
        lemmas::lemma_waiting_sound(e, s, m.mark_price);
        assert(e1.sound()) by {
            let g = e.with_stops(s, model::waiting(stops, m.mark_price));
            assert(g.sound());
        }
        lemmas::lemma_fired_sound(e, s, m.mark_price);
        assert(lemmas::ready(e1, going, s));
        assert(e1.books.contains_key(s));
        lemma_fired_step(e1, going, going.len() as int, s, e.symbols[s], now);
        assert(going.subrange(0, going.len() as int) =~= going);
    }
}

/// Placing stops one after the other keeps the engine sound.
proof fn lemma_fired_step(
    e: EngineModel,
    stops: Seq<PendingStop>,
    k: int,
    s: SymbolId,
    spec: SymbolSpec,
    now: Timestamp,
)
    requires
        0 <= k <= stops.len(),
        e.sound(),
        lemmas::ready(e, stops, s),
        e.books.contains_key(s),
    ensures
        ({
            let f = model::place_fired(e, stops.subrange(0, k), spec, now).0;
            &&& f.sound()
            &&& lemmas::ready(f, stops.subrange(k, stops.len() as int), s)
            &&& f.books.contains_key(s)
            &&& f.symbols == e.symbols
            &&& f.next_order_id == e.next_order_id
            &&& f.pending_stops == e.pending_stops
        }),
    decreases k,
{
    let n = stops.len() as int;
    if k == 0 {
        assert(stops.subrange(0, 0) =~= Seq::<PendingStop>::empty());
        assert(stops.subrange(0, n) =~= stops);
    } else {
        let head = stops.subrange(0, k);
        assert(head.drop_last() =~= stops.subrange(0, k - 1));
        assert(head.last() == stops[k - 1]);
        let before = model::place_fired(e, stops.subrange(0, k - 1), spec, now).0;
        let stop = stops[k - 1];
        let p = PlaceOrder { order_type: OrderType::Limit, ..stop.place_order };
        lemma_fired_step(e, stops, k - 1, s, spec, now);
        let left = stops.subrange(k - 1, n);
        assert(left[0] == stop);
        assert(lemmas::unused(before, left[0].order_id));
        assert(left.drop_first() =~= stops.subrange(k, n));
        lemmas::lemma_apply_sound(before, stop.order_id, p, spec, now);
        lemmas::lemma_ready_step(before, left, s, p, spec, now);
    }
}

proof fn lemma_cancel_step(e: EngineModel, seq_no: SeqNo, c: CancelOrder, now: Timestamp, steady: bool)
    requires
        matched(e),
        steady ==> risk_laws::finite(e.ledger),
    ensures
        step_kept(e, model::handle_cancel(e, seq_no, c, now).0, steady),
{
    if e.books.contains_key(c.symbol_id) && e.books[c.symbol_id].has_order(c.order_id) {
        backing::lemma_cancel_backed(e, c.symbol_id, c.order_id, steady);
        lemmas::lemma_cancel_sound(e, c.symbol_id, c.order_id);
        let g = e.with_book(c.symbol_id, e.books[c.symbol_id].without(c.order_id));
        assert(g.sound());
        let f = g.with_ledger(risk_model::release_hold(e.ledger, c.order_id).0);
        assert(f.sound());
    }
}

proof fn lemma_modify_step(e: EngineModel, seq_no: SeqNo, m: ModifyOrder, now: Timestamp, steady: bool)
    requires
        matched(e),
        steady ==> risk_laws::finite(e.ledger) && !moves_positions(
            e,
            Command::ModifyOrder(m),
            model::handle_modify(e, seq_no, m, now).1,
        ),
        model::handle_modify(e, seq_no, m, now).0.settled(),
    ensures
        step_kept(e, model::handle_modify(e, seq_no, m, now).0, steady),
{
    if e.books.contains_key(m.symbol_id) && e.books[m.symbol_id].has_order(m.order_id) {
        let b = e.books[m.symbol_id];
        let p = model::replacement(b.order(m.order_id), m);
        assert(e.symbols.contains_key(m.symbol_id));
        backing::lemma_modify_backed(e, seq_no, m, now, steady);
        if b.order(m.order_id).user_id == m.user_id && p.size.0 > 0 {
            lemmas::lemma_modify_exact(e, seq_no, m, now);
            let order_id = OrderId(e.next_order_id as u64);
            let e1 = e.with_next_order_id();
            lemmas::lemma_next_unused(e);
            lemmas::lemma_cancel_sound(e1, m.symbol_id, m.order_id);
            let g = e1.with_book(m.symbol_id, b.without(m.order_id));
            assert(g.sound() && lemmas::unused(g, order_id));
            let l1 = risk_model::release_hold(e1.ledger, m.order_id).0;
            let (l2, r) = risk_model::pre_check_place(l1, p, e.symbols[m.symbol_id], order_id);
            let e3 = g.with_ledger(l1).with_ledger(l2);
            assert(e3.sound() && lemmas::unused(e3, order_id));
            if r is Ok {
                lemmas::lemma_apply_sound(e3, order_id, p, e.symbols[m.symbol_id], now);
            }
        }
    }
}

proof fn lemma_register_step(e: EngineModel, seq_no: SeqNo, spec: SymbolSpec)
    requires
        matched(e),
    ensures
        matched(model::handle_register_symbol(e, seq_no, spec).0),
{
    if !e.symbols.contains_key(spec.symbol_id) {
        lemmas::lemma_register_sound(e, seq_no, spec);
        backing::lemma_register_backed(e, seq_no, spec);
    }
}

/// A step that concerns the ledger only, and no reservation in it.
proof fn lemma_ledger_step(e: EngineModel, f: EngineModel)
    requires
        matched(e),
        f.books == e.books,
        f.pending_stops == e.pending_stops,
        f.next_order_id == e.next_order_id,
        backing::specs_alike(e.symbols, f.symbols),
        f.ledger.holds == e.ledger.holds,
        e.ledger.accounts.dom().subset_of(f.ledger.accounts.dom()),
    ensures
        matched(f),
{
    backing::lemma_untouched_backed(e, f, Seq::empty());
    assert(f.books.dom() =~= f.symbols.dom());
    assert(f.sound()) by {
        assert forall|s: SymbolId, i: int| #![trigger f.pending_stops[s][i]]
            0 <= i < f.pending_stops[s].len() implies f.symbols.contains_key(s) && model::stop_ok(
            f.pending_stops[s][i],
            s,
        ) && f.pending_stops[s][i].order_id.0 < f.next_order_id by {
            assert(model::stop_ok(e.pending_stops[s][i], s));
            assert(e.symbols.contains_key(s));
        }
    }
}

/// What a command does before its sequence number is noted.
proof fn lemma_dispatch_step(e: EngineModel, env: CommandEnvelope, steady: bool, c: CurrencyId)
    requires
        matched(e),
        steady ==> risk_laws::finite(e.ledger) && !moves_positions(
            e,
            env.command,
            model::dispatch(e, env).1,
        ),
        model::dispatch(e, env).0.settled(),
    ensures
        ({
            let (f, r) = model::dispatch(e, env);
            &&& matched(f)
            &&& steady ==> risk_model::total_internal(f.ledger, c) == risk_model::total_internal(
                e.ledger,
                c,
            ) + external(env.command, r, c) - funding(e, env.command, r, c)
        }),
{
    reveal(model::dispatch_trading);
    let (f, r) = model::dispatch(e, env);
    let seq_no = env.seq_no;
    let now = env.received_at;
    match env.command {
        Command::PlaceOrder(p) => {
            lemma_place_step(e, seq_no, p, now, steady);
        },
        Command::CancelOrder(x) => {
            lemma_cancel_step(e, seq_no, x, now, steady);
        },
        Command::ModifyOrder(m) => {
            lemma_modify_step(e, seq_no, m, now, steady);
        },
        Command::SetMarkPrice(m) => {
            lemma_mark_step(e, seq_no, m, now, steady);
        },
        Command::RegisterSymbol(spec) => {
            lemma_register_step(e, seq_no, spec);
        },
        Command::AddUser(a) => {
            lemma_ledger_step(e, f);
            if steady {
                risk_laws::law_users_conserve(e.ledger, a.user_id, false, c);
            }
        },
        Command::SuspendUser(u) => {
            lemma_ledger_step(e, f);
            if steady {
                risk_laws::law_users_conserve(e.ledger, u, true, c);
            }
        },
        Command::ResumeUser(u) => {
            lemma_ledger_step(e, f);
            if steady {
                risk_laws::law_users_conserve(e.ledger, u, false, c);
            }
        },
        Command::AdjustBalance(a) => {
            lemma_ledger_step(e, f);
            if steady {
                risk_laws::law_adjustment_moves_its_amount(e.ledger, a, c);
            }
        },
        Command::ApplyFunding(x) => {
            lemma_ledger_step(e, f);
            if steady && e.symbols.contains_key(x.symbol_id) {
                value::law_funding_moves_payments(
                    e.ledger,
                    e.symbols[x.symbol_id],
                    e.mark_prices[x.symbol_id],
                    x.rate_bps as int,
                    c,
                );
            }
        },
        Command::SettleFuture(x) => {
            assert(e.symbols.contains_key(x.symbol_id) ==> f.symbols.dom() =~= e.symbols.dom());
            lemma_ledger_step(e, f);
            if steady {
                assert(f.ledger.accounts =~= e.ledger.accounts);
            }
        },
        Command::Nop => {},
    }
}

/// The state in which a journaled command finds the engine.
pub open spec fn noted(e: EngineModel, env: CommandEnvelope) -> EngineModel {
    EngineModel {
        next_seq_no: if env.seq_no.0 + 1 > e.next_seq_no {
            env.seq_no.0 + 1
        } else {
            e.next_seq_no
        },
        ..e
    }.claim(env.seq_no.0 + 1 <= u64::MAX)
}

/// Noting a sequence number or a position in the journal changes nothing else.
proof fn lemma_note_step(e: EngineModel, f: EngineModel)
    requires
        matched(e),
        f.books == e.books,
        f.symbols == e.symbols,
        f.pending_stops == e.pending_stops,
        f.next_order_id == e.next_order_id,
        f.ledger.accounts == e.ledger.accounts,
        f.ledger.holds == e.ledger.holds,
    ensures
        matched(f),
        forall|c: CurrencyId| #[trigger]
            risk_model::total_internal(f.ledger, c) == risk_model::total_internal(e.ledger, c),
{
    lemma_ledger_step(e, f);
}

/// A noted sequence number leaves a state that an engine can be in.
pub proof fn lemma_noted_reachable(e: EngineModel, env: CommandEnvelope)
    requires
        reachable(e),
    ensures
        reachable(noted(e, env)),
{
    let e1 = noted(e, env);
    lemma_note_step(e, e1);
    assert(positions::in_order(e1.ledger, e1.symbols));
}

/// Positions and reservations stay in order.
proof fn lemma_envelope_in_order(e: EngineModel, env: CommandEnvelope)
    requires
        reachable(e),
    ensures
        ({
            let f = model::apply_envelope(e, env).0;
            positions::in_order(f.ledger, f.symbols)
        }),
{
    let e1 = noted(e, env);
    assert(positions::in_order(e1.ledger, e1.symbols));
    positions::lemma_dispatch(e1, env);
}

/// Reservations and open orders match one to one after every command: no command
/// loses a reservation, and none is left behind without an order. And every position
/// stays in a known symbol, with its margin in the quote currency of that symbol.
pub proof fn law_no_reservation_leaks(e: EngineModel, env: CommandEnvelope)
    requires
        reachable(e),
        model::apply_envelope(e, env).0.settled(),
    ensures
        reachable(model::apply_envelope(e, env).0),
{
    let e1 = noted(e, env);
    lemma_note_step(e, e1);
    lemma_dispatch_step(e1, env, false, CurrencyId(0));
    lemma_note_step(model::dispatch(e1, env).0, model::apply_envelope(e, env).0);
    lemma_envelope_in_order(e, env);
}

/// In every state that an engine can be in, the laws on derivative trades and on closings
/// apply to each of its symbols.
pub proof fn law_ledger_is_tidy(e: EngineModel, s: SymbolId)
    requires
        reachable(e),
        e.symbols.contains_key(s),
    ensures
        value::tidy(e.ledger, e.symbols[s]),
{
    assert(e.books.dom().contains(s));
    assert(e.books.contains_key(s));
    positions::lemma_tidy(e.ledger, e.symbols, s);
}

/// A position that a sweep closes does not depend on what else a ledger notes.
proof fn lemma_closes_alike(
    l: Ledger,
    k: Ledger,
    spec: SymbolSpec,
    price: Price,
    below: Option<Bps>,
)
    requires
        l.accounts == k.accounts,
        backing::closes_nothing(l, spec, price, below),
    ensures
        backing::closes_nothing(k, spec, price, below),
{
    assert forall|u: UserId| #[trigger] k.has(u) && u != risk_model::house() implies
        !risk_model::closes(k.accounts[u], spec, price, below) by {
        assert(l.has(u));
    }
}

proof fn lemma_moves_noted(e: EngineModel, env: CommandEnvelope, r: ReceiptModel)
    requires
        !moves_positions(e, env.command, r),
    ensures
        !moves_positions(noted(e, env), env.command, r),
{
    let l = noted(e, env).ledger;
    match env.command {
        Command::SetMarkPrice(m) => {
            let spec = e.symbols[m.symbol_id];
            let below = risk_model::maintenance_margin(spec);
            if backing::closes_nothing(e.ledger, spec, m.mark_price, below) {
                lemma_closes_alike(e.ledger, l, spec, m.mark_price, below);
            }
        },
        Command::SettleFuture(s) => {
            let spec = e.symbols[s.symbol_id];
            if backing::closes_nothing(e.ledger, spec, s.settlement_price, None) {
                lemma_closes_alike(e.ledger, l, spec, s.settlement_price, None);
            }
        },
        _ => {},
    }
}

/// No command that leaves the derivative positions alone makes or loses money: the total
/// of each currency changes by exactly what an accepted deposit or withdrawal moves, and
/// by what a funding settlement takes from all users together.
pub proof fn law_conserves_money(e: EngineModel, env: CommandEnvelope, c: CurrencyId)
    requires
        reachable(e),
        model::apply_envelope(e, env).0.settled(),
        !moves_positions(e, env.command, model::apply_envelope(e, env).1),
    ensures
        ({
            let (f, r) = model::apply_envelope(e, env);
            &&& reachable(f)
            &&& risk_model::total_internal(f.ledger, c) == risk_model::total_internal(e.ledger, c)
                + external(env.command, r, c) - funding(e, env.command, r, c)
        }),
{
    let e1 = noted(e, env);
    let r = model::dispatch(e1, env).1;
    lemma_note_step(e, e1);
    lemma_moves_noted(e, env, r);
    lemma_dispatch_step(e1, env, true, c);
    let f = model::apply_envelope(e, env).0;
    lemma_note_step(model::dispatch(e1, env).0, f);
    lemma_envelope_in_order(e, env);
    assert(risk_model::total_internal(e1.ledger, c) == risk_model::total_internal(e.ledger, c));
    assert(risk_model::total_internal(f.ledger, c) == risk_model::total_internal(
        model::dispatch(e1, env).0.ledger,
        c,
    ));
}

/// With spot symbols only, no command makes or loses money: the total of each
/// currency changes by exactly what an accepted deposit or withdrawal moves.
pub proof fn law_spot_conserves_money(e: EngineModel, env: CommandEnvelope, c: CurrencyId)
    requires
        reachable(e),
        spot_only(e),
        brings_spot(env.command),
        model::apply_envelope(e, env).0.settled(),
    ensures
        ({
            let (f, r) = model::apply_envelope(e, env);
            &&& reachable(f)
            &&& spot_only(f)
            &&& risk_model::total_internal(f.ledger, c) == risk_model::total_internal(e.ledger, c)
                + external(env.command, r, c)
        }),
{
    law_conserves_money(e, env, c);
    lemma_symbols_kept(noted(e, env), env);
    reveal(model::dispatch_trading);
}

/// Which symbols are known, and of which kind, changes with a registration only.
proof fn lemma_symbols_kept(e: EngineModel, env: CommandEnvelope)
    requires
        matched(e),
        model::dispatch(e, env).0.settled(),
    ensures
        !(env.command is RegisterSymbol) ==> backing::specs_alike(
            e.symbols,
            model::dispatch(e, env).0.symbols,
        ),
{
    reveal(model::dispatch_trading);
    let f = model::dispatch(e, env).0;
    let now = env.received_at;
    match env.command {
        Command::PlaceOrder(p) => {
            lemma_place_step(e, env.seq_no, p, now, false);
        },
        Command::ModifyOrder(m) => {
            lemma_modify_step(e, env.seq_no, m, now, false);
        },
        Command::SetMarkPrice(m) => {
            lemma_mark_step(e, env.seq_no, m, now, false);
        },
        Command::SettleFuture(x) => {
            assert(e.symbols.contains_key(x.symbol_id) ==> f.symbols.dom() =~= e.symbols.dom());
        },
        _ => {},
    }
}

/// The sum of what some commands move across the border of the engine.
pub open spec fn external_sum(
    envs: Seq<CommandEnvelope>,
    receipts: Seq<ReceiptModel>,
    c: CurrencyId,
) -> int
    decreases envs.len(),
{
    if envs.len() == 0 {
        0
    } else {
        external_sum(envs.drop_last(), receipts.drop_last(), c) + external(
            envs.last().command,
            receipts.last(),
            c,
        )
    }
}

/// After any sequence of commands on spot symbols the total of a currency equals
/// the net of all accepted transfers.
pub proof fn law_total_is_net_of_transfers(envs: Seq<CommandEnvelope>, c: CurrencyId)
    requires
        forall|i: int| 0 <= i < envs.len() ==> brings_spot((#[trigger] envs[i]).command),
        model::apply_all(model::new_engine(), envs).0.settled(),
    ensures
        ({
            let (f, receipts) = model::apply_all(model::new_engine(), envs);
            &&& reachable(f)
            &&& spot_only(f)
            &&& receipts.len() == envs.len()
            &&& risk_model::total_internal(f.ledger, c) == external_sum(envs, receipts, c)
        }),
    decreases envs.len(),
{
    let e = model::new_engine();
    if envs.len() == 0 {
        law_new_engine();
        lemma_nothing_yet(c);
    } else {
        let (before, receipts) = model::apply_all(e, envs.drop_last());
        lemmas::lemma_envelope_exact(before, envs.last());
        assert forall|i: int| 0 <= i < envs.drop_last().len() implies brings_spot(
            (#[trigger] envs.drop_last()[i]).command,
        ) by {
            assert(envs.drop_last()[i] == envs[i]);
        }
        law_total_is_net_of_transfers(envs.drop_last(), c);
        assert(brings_spot(envs[envs.len() - 1].command));
        law_spot_conserves_money(before, envs.last(), c);
        let (f, r) = model::apply_envelope(before, envs.last());
        assert(receipts.push(r).drop_last() =~= receipts);
    }
}

/// Whether none of some commands trades a derivative or closes a position in one.
pub open spec fn leave_positions(e: EngineModel, envs: Seq<CommandEnvelope>) -> bool
    decreases envs.len(),
{
    envs.len() > 0 ==> {
        let before = model::apply_all(e, envs.drop_last()).0;
        &&& leave_positions(e, envs.drop_last())
        &&& !moves_positions(
            before,
            envs.last().command,
            model::apply_envelope(before, envs.last()).1,
        )
    }
}

/// What deposits, withdrawals and funding settlements among some commands move.
pub open spec fn moved_sum(e: EngineModel, envs: Seq<CommandEnvelope>, c: CurrencyId) -> int
    decreases envs.len(),
{
    if envs.len() == 0 {
        0
    } else {
        let before = model::apply_all(e, envs.drop_last()).0;
        let r = model::apply_envelope(before, envs.last()).1;
        moved_sum(e, envs.drop_last(), c) + external(envs.last().command, r, c) - funding(
            before,
            envs.last().command,
            r,
            c,
        )
    }
}

/// Over any sequence of commands that leaves the derivative positions alone, the total of
/// a currency changes by what its deposits, withdrawals and funding settlements move.
pub proof fn law_totals_add_up(e: EngineModel, envs: Seq<CommandEnvelope>, c: CurrencyId)
    requires
        reachable(e),
        leave_positions(e, envs),
        model::apply_all(e, envs).0.settled(),
    ensures
        ({
            let f = model::apply_all(e, envs).0;
            &&& reachable(f)
            &&& risk_model::total_internal(f.ledger, c) == risk_model::total_internal(e.ledger, c)
                + moved_sum(e, envs, c)
        }),
    decreases envs.len(),
{
    if envs.len() > 0 {
        let before = model::apply_all(e, envs.drop_last()).0;
        lemmas::lemma_envelope_exact(before, envs.last());
        law_totals_add_up(e, envs.drop_last(), c);
        law_conserves_money(before, envs.last(), c);
    }
}

/// A new engine owns nothing.
proof fn lemma_nothing_yet(c: CurrencyId)
    ensures
        risk_model::total_internal(model::new_engine().ledger, c) == 0,
{
    let l = model::new_engine().ledger;
    let a = risk_model::empty_account(risk_model::house());
    let none = Map::<UserId, AccountModel>::empty();
    assert(l.accounts =~= none.insert(risk_model::house(), a));
    sums::lemma_sum_insert(none, risk_model::worth_in(c), risk_model::house(), a);
    assert(a.positions.dom() =~= Set::<SymbolId>::empty());
    assert(sums::sum_map(a.positions, risk_model::margin_in(c)) == 0);
    assert(sums::sum_map(none, risk_model::worth_in(c)) == 0);
}

/// Replaying a journal in two parts gives what replaying it at once gives: a
/// state that was saved halfway can be brought up to date with the rest.
pub proof fn law_replay_in_parts(
    e: EngineModel,
    first: Seq<CommandEnvelope>,
    second: Seq<CommandEnvelope>,
)
    ensures
        model::replay(e, first + second) == model::replay(model::replay(e, first), second),
    decreases second.len(),
{
    if second.len() == 0 {
        assert(first + second =~= first);
    } else {
        assert((first + second).drop_last() =~= first + second.drop_last());
        law_replay_in_parts(e, first, second.drop_last());
    }
}

/// A replay gives the state that applying the same commands gave.
pub proof fn law_replay_is_apply(e: EngineModel, envs: Seq<CommandEnvelope>)
    ensures
        model::replay(e, envs) == model::apply_all(e, envs).0,
    decreases envs.len(),
{
    if envs.len() > 0 {
        law_replay_is_apply(e, envs.drop_last());
    }
}

/// After a command the engine stands at its place in the journal, and its next
/// sequence number lies beyond it and never falls.
pub proof fn law_sequence_advances(e: EngineModel, env: CommandEnvelope)
    ensures
        model::apply_envelope(e, env).0.last_applied_seq == env.seq_no,
        model::apply_envelope(e, env).1.seq_no == env.seq_no,
        model::apply_envelope(e, env).0.next_seq_no > env.seq_no.0,
        model::apply_envelope(e, env).0.next_seq_no >= e.next_seq_no,
{
    let e1 = noted(e, env);
    lemma_sequence_apart(e1, env, e1.next_seq_no);
}

/// The engine with another next sequence number.
pub open spec fn renumbered(e: EngineModel, n: int) -> EngineModel {
    EngineModel { next_seq_no: n, ..e }
}

/// Placing stops does not look at the next sequence number.
pub proof fn lemma_fired_apart(
    e: EngineModel,
    stops: Seq<PendingStop>,
    spec: SymbolSpec,
    now: Timestamp,
    n: int,
)
    ensures
        model::place_fired(renumbered(e, n), stops, spec, now) == (
            renumbered(model::place_fired(e, stops, spec, now).0, n),
            model::place_fired(e, stops, spec, now).1,
        ),
        model::place_fired(e, stops, spec, now).0.next_seq_no == e.next_seq_no,
    decreases stops.len(),
{
    if stops.len() > 0 {
        lemma_fired_apart(e, stops.drop_last(), spec, now, n);
        let stop = stops.last();
        let p = PlaceOrder { order_type: OrderType::Limit, ..stop.place_order };
        lemma_apply_apart(
            model::place_fired(e, stops.drop_last(), spec, now).0,
            stop.order_id,
            p,
            spec,
            now,
            n,
        );
    }
}

/// Nor does placing an order.
pub proof fn lemma_apply_apart(
    e: EngineModel,
    order_id: OrderId,
    p: PlaceOrder,
    spec: SymbolSpec,
    now: Timestamp,
    n: int,
)
    ensures
        ({
            let (f, status, events) = model::apply_to_book(e, order_id, p, spec, now);
            &&& model::apply_to_book(renumbered(e, n), order_id, p, spec, now) == (
                renumbered(f, n),
                status,
                events,
            )
            &&& f.next_seq_no == e.next_seq_no
        }),
{
}

proof fn lemma_place_apart(e: EngineModel, seq_no: SeqNo, p: PlaceOrder, now: Timestamp, n: int)
    ensures
        model::handle_place(renumbered(e, n), seq_no, p, now) == (
            renumbered(model::handle_place(e, seq_no, p, now).0, n),
            model::handle_place(e, seq_no, p, now).1,
        ),
        model::handle_place(e, seq_no, p, now).0.next_seq_no == e.next_seq_no,
        model::handle_place(e, seq_no, p, now).1.seq_no == seq_no,
{
    let order_id = OrderId(e.next_order_id as u64);
    let e1 = e.with_next_order_id();
    assert(renumbered(e, n).with_next_order_id() == renumbered(e1, n));
    if e.symbols.contains_key(p.symbol_id) {
        if let Some(p2) = model::lowered(p) {
            let spec = e.symbols[p.symbol_id];
            let l = risk_model::pre_check_place(e1.ledger, p2, spec, order_id).0;
            let e2 = e1.with_ledger(l);
            assert(renumbered(e1, n).with_ledger(l) == renumbered(e2, n));
            let p3 = PlaceOrder { order_type: OrderType::Limit, ..p2 };
            lemma_apply_apart(e2, order_id, p2, spec, now, n);
            lemma_apply_apart(e2, order_id, p3, spec, now, n);
        }
    }
}

proof fn lemma_modify_apart(e: EngineModel, seq_no: SeqNo, m: ModifyOrder, now: Timestamp, n: int)
    ensures
        model::handle_modify(renumbered(e, n), seq_no, m, now) == (
            renumbered(model::handle_modify(e, seq_no, m, now).0, n),
            model::handle_modify(e, seq_no, m, now).1,
        ),
        model::handle_modify(e, seq_no, m, now).0.next_seq_no == e.next_seq_no,
        model::handle_modify(e, seq_no, m, now).1.seq_no == seq_no,
{
    if e.books.contains_key(m.symbol_id) {
        let b = e.books[m.symbol_id];
        let p = model::replacement(b.order(m.order_id), m);
        let order_id = OrderId(e.next_order_id as u64);
        let spec = e.symbols[m.symbol_id];
        let e1 = e.with_next_order_id();
        let l1 = risk_model::release_hold(e1.ledger, m.order_id).0;
        let e2 = e1.with_book(m.symbol_id, b.without(m.order_id)).with_ledger(l1);
        let e3 = e2.with_ledger(risk_model::pre_check_place(l1, p, spec, order_id).0);
        assert(renumbered(e, n).with_next_order_id() == renumbered(e1, n));
        lemma_apply_apart(e3, order_id, p, spec, now, n);
    }
}

proof fn lemma_mark_apart(e: EngineModel, seq_no: SeqNo, m: SetMarkPrice, now: Timestamp, n: int)
    ensures
        model::handle_set_mark_price(renumbered(e, n), seq_no, m, now) == (
            renumbered(model::handle_set_mark_price(e, seq_no, m, now).0, n),
            model::handle_set_mark_price(e, seq_no, m, now).1,
        ),
        model::handle_set_mark_price(e, seq_no, m, now).0.next_seq_no == e.next_seq_no,
        model::handle_set_mark_price(e, seq_no, m, now).1.seq_no == seq_no,
{
    if e.symbols.contains_key(m.symbol_id) {
        let spec = e.symbols[m.symbol_id];
        let stops = e.pending_stops[m.symbol_id];
        let e1 = EngineModel {
            mark_prices: e.mark_prices.insert(m.symbol_id, m.mark_price),
            ledger: risk_model::liquidate(e.ledger, spec, m.mark_price),
            pending_stops: e.pending_stops.insert(
                m.symbol_id,
                model::waiting(stops, m.mark_price),
            ),
            ..e
        };
        lemma_fired_apart(e1, model::fired(stops, m.mark_price), spec, now, n);
    }
}

/// No trading command looks at the next sequence number or changes it.
proof fn lemma_trading_apart(e: EngineModel, env: CommandEnvelope, n: int)
    ensures
        model::dispatch_trading(renumbered(e, n), env) == (
            renumbered(model::dispatch_trading(e, env).0, n),
            model::dispatch_trading(e, env).1,
        ),
        model::dispatch_trading(e, env).0.next_seq_no == e.next_seq_no,
        model::dispatch_trading(e, env).1.seq_no == env.seq_no,
{
    reveal(model::dispatch_trading);
    let now = env.received_at;
    match env.command {
        Command::SetMarkPrice(m) => {
            lemma_mark_apart(e, env.seq_no, m, now, n);
        },
        Command::PlaceOrder(p) => {
            lemma_place_apart(e, env.seq_no, p, now, n);
        },
        Command::ModifyOrder(m) => {
            lemma_modify_apart(e, env.seq_no, m, now, n);
        },
        _ => {},
    }
}

/// No command looks at the next sequence number or changes it.
proof fn lemma_sequence_apart(e: EngineModel, env: CommandEnvelope, n: int)
    ensures
        model::dispatch(renumbered(e, n), env) == (
            renumbered(model::dispatch(e, env).0, n),
            model::dispatch(e, env).1,
        ),
        model::dispatch(e, env).0.next_seq_no == e.next_seq_no,
        model::dispatch(e, env).1.seq_no == env.seq_no,
{
    lemma_trading_apart(e, env, n);
}

/// Commands taken in together do what they do one by one, with the same
/// receipts, whose sequence numbers follow one another. No commands change nothing.
pub proof fn law_batch_is_one_by_one(e: EngineModel, cmds: Seq<(Command, Timestamp)>)
    requires
        0 <= e.next_seq_no <= u64::MAX,
        model::submit_batch(e, cmds).0.exact(),
    ensures
        model::submit_batch(e, cmds) == model::submit_each(e, cmds),
        model::submit_batch(e, cmds).1.len() == cmds.len(),
        forall|i: int|
            0 <= i < cmds.len() ==> (#[trigger] model::submit_batch(e, cmds).1[i]).seq_no.0
                == e.next_seq_no + i,
        model::submit_batch(e, cmds).0.next_seq_no == e.next_seq_no + cmds.len(),
        cmds.len() == 0 ==> model::submit_batch(e, cmds) == (e, Seq::<ReceiptModel>::empty()),
{
    lemma_batch_part(e, cmds, cmds.len() as int);
    let envs = model::batch_envelopes(e, cmds);
    assert(envs.subrange(0, envs.len() as int) =~= envs);
    assert(cmds.subrange(0, cmds.len() as int) =~= cmds);
}

proof fn lemma_batch_part(e: EngineModel, cmds: Seq<(Command, Timestamp)>, k: int)
    requires
        0 <= k <= cmds.len(),
        0 <= e.next_seq_no <= u64::MAX,
        model::submit_batch(e, cmds).0.exact(),
    ensures
        ({
            let n = cmds.len() as int;
            let a = model::apply_all(
                model::with_seq_taken(e, n),
                model::batch_envelopes(e, cmds).subrange(0, k),
            );
            let b = model::submit_each(e, cmds.subrange(0, k));
            &&& a.0 == renumbered(b.0, e.next_seq_no + n)
            &&& a.1 == b.1
            &&& a.1.len() == k
            &&& forall|i: int|
                0 <= i < k ==> (#[trigger] a.1[i]).seq_no.0 == e.next_seq_no + i
            &&& b.0.next_seq_no == e.next_seq_no + k
            &&& e.next_seq_no + n <= u64::MAX
        }),
    decreases k,
{
    let n = cmds.len() as int;
    let t = model::with_seq_taken(e, n);
    let envs = model::batch_envelopes(e, cmds);
    lemmas::lemma_all_exact(t, envs, 0);
    assert(envs.subrange(0, 0) =~= Seq::<CommandEnvelope>::empty());
    if k == 0 {
        assert(cmds.subrange(0, 0) =~= Seq::<(Command, Timestamp)>::empty());
        assert(t == renumbered(e, e.next_seq_no + n));
    } else {
        lemma_batch_part(e, cmds, k - 1);
        assert(envs.subrange(0, k).drop_last() =~= envs.subrange(0, k - 1));
        assert(cmds.subrange(0, k).drop_last() =~= cmds.subrange(0, k - 1));
        let env = envs[k - 1];
        assert(envs.subrange(0, k).last() == env);
        assert(cmds.subrange(0, k).last() == cmds[k - 1]);
        let b = model::submit_each(e, cmds.subrange(0, k - 1)).0;
        assert(model::next_envelope(b, cmds[k - 1].0, cmds[k - 1].1) == env);
        let one = noted(b, env);
        lemma_sequence_apart(one, env, e.next_seq_no + n);
        assert(noted(renumbered(b, e.next_seq_no + n), env) == renumbered(
            one,
            e.next_seq_no + n,
        ));
    }
}

} // verus!
