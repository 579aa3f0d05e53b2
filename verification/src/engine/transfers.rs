//! A deposit or withdrawal that was accepted is remembered, whatever comes after it.
use vstd::prelude::*;

use crate::engine::laws;
use crate::engine::model;
use crate::engine::model::{EngineModel, PendingStop};
use crate::matching::model as book_model;
use crate::matching::outcome::StpCancellation;
use crate::risk::hold::Hold;
use crate::risk::model as risk_model;
use crate::risk::model::Ledger;
use crate::types::command::{
    AdjustBalance, Command, CommandEnvelope, ModifyOrder, PlaceOrder, SetMarkPrice,
};
use crate::types::enums::OrderType;
use crate::types::event::Trade;
use crate::types::ids::{OrderId, SeqNo, Timestamp};
use crate::types::symbol::SymbolSpec;

verus! {

proof fn lemma_side(l: Ledger, trade: Trade, h: Hold, is_taker: bool, spec: SymbolSpec)
    ensures
        risk_model::settle_side(l, trade, h, is_taker, spec).0.transfers == l.transfers,
{
}

proof fn lemma_trade(l: Ledger, trade: Trade, spec: SymbolSpec)
    ensures
        risk_model::apply_trade(l, trade, spec).0.transfers == l.transfers,
{
    let th = l.holds[trade.taker_order_id];
    let s1 = l.drop_hold(trade.taker_order_id);
    let mh = s1.holds[trade.maker_order_id];
    let s2 = s1.drop_hold(trade.maker_order_id);
    lemma_side(s2, trade, th, true, spec);
    lemma_side(risk_model::settle_side(s2, trade, th, true, spec).0, trade, mh, false, spec);
}

proof fn lemma_trades(l: Ledger, trades: Seq<Trade>, spec: SymbolSpec)
    ensures
        model::settle_trades(l, trades, spec).transfers == l.transfers,
    decreases trades.len(),
{
    if trades.len() > 0 {
        lemma_trades(l, trades.drop_last(), spec);
        lemma_trade(model::settle_trades(l, trades.drop_last(), spec), trades.last(), spec);
    }
}

proof fn lemma_cancels(l: Ledger, cancels: Seq<StpCancellation>)
    ensures
        model::release_cancelled(l, cancels).transfers == l.transfers,
    decreases cancels.len(),
{
    if cancels.len() > 0 {
        lemma_cancels(l, cancels.drop_last());
    }
}

proof fn lemma_apply(
    e: EngineModel,
    order_id: OrderId,
    p: PlaceOrder,
    spec: SymbolSpec,
    now: Timestamp,
)
    ensures
        model::apply_to_book(e, order_id, p, spec, now).0.ledger.transfers == e.ledger.transfers,
{
    let params = model::params_of(order_id, p, now);
    let b = e.books[p.symbol_id];
    let o = book_model::outcome_of(b, params);
    let l = e.ledger.claim(book_model::can_rest(b, params));
    lemma_trades(l, o.trades, spec);
    lemma_cancels(model::settle_trades(l, o.trades, spec), o.stp_cancellations);
}

proof fn lemma_fired(e: EngineModel, stops: Seq<PendingStop>, spec: SymbolSpec, now: Timestamp)
    ensures
        model::place_fired(e, stops, spec, now).0.ledger.transfers == e.ledger.transfers,
    decreases stops.len(),
{
    if stops.len() > 0 {
        lemma_fired(e, stops.drop_last(), spec, now);
        let stop = stops.last();
        lemma_apply(
            model::place_fired(e, stops.drop_last(), spec, now).0,
            stop.order_id,
            PlaceOrder { order_type: OrderType::Limit, ..stop.place_order },
            spec,
            now,
        );
    }
}

proof fn lemma_place(e: EngineModel, seq_no: SeqNo, p: PlaceOrder, now: Timestamp)
    ensures
        model::handle_place(e, seq_no, p, now).0.ledger.transfers == e.ledger.transfers,
{
    let order_id = OrderId(e.next_order_id as u64);
    let e1 = e.with_next_order_id();
    if let Some(p2) = model::lowered(p) {
        let spec = e.symbols[p.symbol_id];
        let l = risk_model::pre_check_place(e1.ledger, p2, spec, order_id).0;
        let e2 = e1.with_ledger(l);
        lemma_apply(e2, order_id, p2, spec, now);
        lemma_apply(
            e2,
            order_id,
            PlaceOrder { order_type: OrderType::Limit, ..p2 },
            spec,
            now,
        );
    }
}

proof fn lemma_modify(e: EngineModel, seq_no: SeqNo, m: ModifyOrder, now: Timestamp)
    ensures
        model::handle_modify(e, seq_no, m, now).0.ledger.transfers == e.ledger.transfers,
{
    let b = e.books[m.symbol_id];
    let p = model::replacement(b.order(m.order_id), m);
    let order_id = OrderId(e.next_order_id as u64);
    let spec = e.symbols[m.symbol_id];
    let e1 = e.with_next_order_id();
    let l1 = risk_model::release_hold(e1.ledger, m.order_id).0;
    let l2 = risk_model::pre_check_place(l1, p, spec, order_id).0;
    let e2 = e1.with_book(m.symbol_id, b.without(m.order_id)).with_ledger(l1);
    lemma_apply(e2.with_ledger(l2), order_id, p, spec, now);
}

proof fn lemma_mark(e: EngineModel, seq_no: SeqNo, m: SetMarkPrice, now: Timestamp)
    ensures
        model::handle_set_mark_price(e, seq_no, m, now).0.ledger.transfers == e.ledger.transfers,
{
    let spec = e.symbols[m.symbol_id];
    let stops = e.pending_stops[m.symbol_id];
    let e1 = EngineModel {
        mark_prices: e.mark_prices.insert(m.symbol_id, m.mark_price),
        ledger: risk_model::liquidate(e.ledger, spec, m.mark_price),
        pending_stops: e.pending_stops.insert(m.symbol_id, model::waiting(stops, m.mark_price)),
        ..e
    };
    lemma_fired(e1, model::fired(stops, m.mark_price), spec, now);
}

proof fn lemma_trading(e: EngineModel, env: CommandEnvelope)
    ensures
        model::dispatch_trading(e, env).0.ledger.transfers == e.ledger.transfers,
{
    let seq_no = env.seq_no;
    let now = env.received_at;
    match env.command {
        Command::PlaceOrder(p) => {
            assert(model::dispatch_trading(e, env) == model::handle_place(e, seq_no, p, now)) by {
                reveal(model::dispatch_trading);
            }
            lemma_place(e, seq_no, p, now);
        },
        Command::ModifyOrder(m) => {
            assert(model::dispatch_trading(e, env) == model::handle_modify(e, seq_no, m, now)) by {
                reveal(model::dispatch_trading);
            }
            lemma_modify(e, seq_no, m, now);
        },
        Command::SetMarkPrice(m) => {
            assert(model::dispatch_trading(e, env) == model::handle_set_mark_price(
                e,
                seq_no,
                m,
                now,
            )) by {
                reveal(model::dispatch_trading);
            }
            lemma_mark(e, seq_no, m, now);
        },
        _ => {
            reveal(model::dispatch_trading);
        },
    }
}

/// No command forgets a transfer, and only an accepted deposit or withdrawal adds one.
pub proof fn law_transfers_are_kept(e: EngineModel, env: CommandEnvelope)
    ensures
        ({
            let (f, r) = model::apply_envelope(e, env);
            f.ledger.transfers == (match env.command {
                Command::AdjustBalance(a) => if r.status is Accepted {
                    e.ledger.transfers.insert(risk_model::transfer_of(a))
                } else {
                    e.ledger.transfers
                },
                _ => e.ledger.transfers,
            })
        }),
{
    lemma_trading(laws::noted(e, env), env);
}

proof fn lemma_all_kept(e: EngineModel, envs: Seq<CommandEnvelope>)
    ensures
        e.ledger.transfers.subset_of(model::apply_all(e, envs).0.ledger.transfers),
    decreases envs.len(),
{
    if envs.len() > 0 {
        lemma_all_kept(e, envs.drop_last());
        law_transfers_are_kept(model::apply_all(e, envs.drop_last()).0, envs.last());
    }
}

/// A deposit or withdrawal counts once: after it was accepted, and whatever commands came
/// in between, another one under the same key for the same user and currency is refused
/// and moves nothing.
pub proof fn law_transfer_counts_once(
    e: EngineModel,
    first: CommandEnvelope,
    a: AdjustBalance,
    between: Seq<CommandEnvelope>,
    again: CommandEnvelope,
    b: AdjustBalance,
)
    requires
        first.command == Command::AdjustBalance(a),
        model::apply_envelope(e, first).1.status is Accepted,
        again.command == Command::AdjustBalance(b),
        risk_model::transfer_of(b) == risk_model::transfer_of(a),
    ensures
        ({
            let f = model::apply_all(model::apply_envelope(e, first).0, between).0;
            let (g, r) = model::apply_envelope(f, again);
            &&& r.status is Rejected
            &&& g.ledger.accounts == f.ledger.accounts
            &&& g.ledger.holds == f.ledger.holds
            &&& g.ledger.transfers == f.ledger.transfers
        }),
{
    let e1 = model::apply_envelope(e, first).0;
    law_transfers_are_kept(e, first);
    lemma_all_kept(e1, between);
    assert(e1.ledger.transfers.contains(risk_model::transfer_of(a)));
}

} // verus!
