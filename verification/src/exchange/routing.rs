//! What the exchange does as a whole with a command: whose money and which book it touches.
use vstd::prelude::*;

use crate::exchange::api::{
    CommandResultCode, CoreSymbolSpecification, Currency, MatcherEventType,
    MatcherTradeEvent, OrderAction, OrderCommand, OrderCommandType, SymbolId, UserId,
};
use crate::exchange::charges;
use crate::exchange::conservation;
use crate::exchange::laws;
use crate::exchange::ledger;
use crate::exchange::ledger::RiskModel;
use crate::exchange::model;
use crate::exchange::moves;
use crate::exchange::pipeline;
use crate::exchange::pipeline::{Duty, PipelineModel};
use crate::exchange::router;
use crate::exchange::router::RouterModel;

verus! {

/// The shard of books that a symbol belongs to.
pub open spec fn desk(p: PipelineModel, symbol: SymbolId) -> RouterModel {
    p.routers[conservation::home((symbol as u32) as u64, p.routers.len())]
}

/// The free money of a user.
pub open spec fn money(p: PipelineModel, u: UserId, d: Currency) -> int {
    pipeline::balance_over(p.risks, u, d)
}

/// Keeping the state and shutting down leave the exchange as it is. The state is to be saved
/// exactly where snapshots have somewhere to go; otherwise saving fails and shutting down is done.
pub proof fn law_saving_changes_nothing(p: PipelineModel, c: OrderCommand)
    requires
        c.command == OrderCommandType::PersistStateMatching || c.command
            == OrderCommandType::PersistStateRisk || c.command == OrderCommandType::ShutdownSignal,
    ensures
        pipeline::handled(p, c).pipeline == p,
        pipeline::handled(p, c).events.len() == 0,
        pipeline::handled(p, c).duty == Duty::Persist <==> p.keeps_snapshots,
        !p.keeps_snapshots ==> pipeline::handled(p, c).code == (if c.command
            == OrderCommandType::ShutdownSignal {
            CommandResultCode::Success
        } else {
            CommandResultCode::StatePersistMatchingEngineFailed
        }),
{
}

/// Nothing but keeping the state and shutting down has the state saved.
pub proof fn law_other_commands_save_nothing(p: PipelineModel, c: OrderCommand)
    requires
        c.command != OrderCommandType::PersistStateMatching,
        c.command != OrderCommandType::PersistStateRisk,
        c.command != OrderCommandType::ShutdownSignal,
    ensures
        pipeline::handled(p, c).duty == Duty::Report,
        pipeline::handled(p, c).pipeline.keeps_snapshots == p.keeps_snapshots,
{
}

/// A shard of books changes nothing but the book of the symbol of a command, and not even that
/// where the symbol belongs to another shard.
pub proof fn law_commands_touch_one_book(r: RouterModel, c: OrderCommand, s: SymbolId)
    ensures
        ({
            let step = router::routed(r, c);
            &&& s != c.symbol ==> {
                &&& step.router.books.contains_key(s) == r.books.contains_key(s)
                &&& r.books.contains_key(s) ==> step.router.books[s] == r.books[s]
            }
            &&& step.router.books.contains_key(c.symbol) == r.books.contains_key(c.symbol)
            &&& step.router.shard == r.shard && step.router.mask == r.mask
            &&& !r.serves(c.symbol) ==> {
                &&& step.router == r
                &&& step.code == c.result_code
                &&& step.action == c.action
                &&& step.events.len() == 0
            }
        }),
{
    reveal(router::routed);
}

/// An order that was not let through goes to no book. One that was let through for a symbol
/// without a book, or under a number that the book has, leaves whole, so that what it froze comes
/// back.
pub proof fn law_orders_are_let_through_first(r: RouterModel, c: OrderCommand)
    requires
        c.command == OrderCommandType::PlaceOrder,
        r.serves(c.symbol),
    ensures
        ({
            let step = router::routed(r, c);
            let known = r.books.contains_key(c.symbol);
            let valid = c.result_code == CommandResultCode::ValidForMatchingEngine;
            &&& !valid ==> step.router == r && step.code == c.result_code && step.events.len()
                == 0
            &&& valid && !known ==> step.router == r && step.code
                == CommandResultCode::MatchingInvalidOrderBookId
            &&& valid && known && r.books[c.symbol].has(c.order_id) ==> step.router.books
                == r.books && step.code == CommandResultCode::MatchingDuplicateOrderId
            &&& valid && step.code != CommandResultCode::Success ==> {
                &&& step.router.books == r.books
                &&& step.events.len() == 1
                &&& step.events[0].event_type == MatcherEventType::Reject
                &&& step.events[0].size == c.size
                &&& step.events[0].bidder_hold_price == c.reserve_price
            }
        }),
{
    reveal(router::routed);
    if r.books.contains_key(c.symbol) {
        laws::law_refusal_changes_nothing(r.books[c.symbol], c);
        assert(r.books.insert(c.symbol, r.books[c.symbol]) =~= r.books);
    }
}

/// What one reject of an order's user does to the shards of the ledger.
proof fn lemma_one_leaves(
    r: RiskModel,
    uid: UserId,
    symbol: SymbolId,
    action: OrderAction,
    e: MatcherTradeEvent,
)
    requires
        e.event_type == MatcherEventType::Reject,
    ensures
        ({
            let t = ledger::post_processed(r, uid, symbol, action, seq![e]);
            &&& !r.owns(uid) ==> t.users == r.users
            &&& r.symbols.contains_key(symbol) && r.owns(uid) && r.users.contains_key(uid)
                ==> charges::only_changed(
                r,
                t,
                uid,
                charges::pays_in(action, r.symbols[symbol]),
                charges::worst_case(
                    action,
                    e.size as int,
                    e.bidder_hold_price as int,
                    r.symbols[symbol],
                ),
            )
        }),
{
    reveal_with_fuel(ledger::settled, 2);
    assert(seq![e].drop_last() =~= Seq::<MatcherTradeEvent>::empty());
    assert(seq![e].last() == e);
    if r.symbols.contains_key(symbol) && r.owns(uid) && r.users.contains_key(uid) {
        charges::law_leaving_orders_give_back(r, uid, e, r.symbols[symbol], action);
    }
}

/// The money of a user after a command is what its shard has for it.
proof fn lemma_money(p: PipelineModel, c: OrderCommand, u: UserId, d: Currency)
    requires
        conservation::sound(p),
        c.matcher_events@.len() == 0,
    ensures
        ({
            let t = pipeline::handled(p, c).pipeline;
            let k = conservation::home(u, p.risks.len());
            &&& 0 <= k < p.risks.len()
            &&& t.risks.len() == p.risks.len()
            &&& money(p, u, d) == charges::has_free(p.risks[k], u, d)
            &&& money(t, u, d) == charges::has_free(t.risks[k], u, d)
        }),
{
    let t = pipeline::handled(p, c).pipeline;
    conservation::law_money_is_conserved(p, c, d);
    conservation::law_users_have_one_shard(p, u, d);
    conservation::law_users_have_one_shard(t, u, d);
    if !pipeline::is_persist(c.command) && c.command != OrderCommandType::ShutdownSignal {
        conservation::lemma_carried(p, c);
        conservation::lemma_home(c.uid, p.risks.len());
    }
}

/// The user of an order gets back what is left of it when the order is cancelled: a bid what it
/// was reserved at and the taker's fee, an ask the size. The order leaves its book. Nobody else's
/// money changes.
pub proof fn law_cancelling_pays_back(p: PipelineModel, c: OrderCommand, u: UserId, d: Currency)
    requires
        conservation::sound(p),
        c.matcher_events@.len() == 0,
        c.command == OrderCommandType::CancelOrder,
        desk(p, c.symbol).books.contains_key(c.symbol),
        model::orderly(desk(p, c.symbol).books[c.symbol]),
        desk(p, c.symbol).books[c.symbol].has(c.order_id),
        desk(p, c.symbol).books[c.symbol].order(c.order_id).uid == c.uid,
    ensures
        ({
            let b = desk(p, c.symbol).books[c.symbol];
            let o = b.order(c.order_id);
            let t = pipeline::handled(p, c);
            let back = charges::worst_case(
                o.action,
                o.size - o.filled,
                o.reserve_price as int,
                b.spec,
            );
            &&& t.code == CommandResultCode::Success
            &&& !desk(t.pipeline, c.symbol).books[c.symbol].has(c.order_id)
            &&& money(t.pipeline, u, d) == money(p, u, d) + (if u == c.uid && d
                == charges::pays_in(o.action, b.spec) {
                back
            } else {
                0
            })
        }),
{
    let j = conservation::home((c.symbol as u32) as u64, p.routers.len());
    conservation::lemma_home((c.symbol as u32) as u64, p.routers.len());
    assert(p.routers[j].shard == j);
    conservation::lemma_server(p.routers, c.symbol, j);
    let r = p.routers[j];
    let b = r.books[c.symbol];
    let o = b.order(c.order_id);
    let k = conservation::home(c.uid, p.risks.len());
    conservation::law_users_have_one_shard(p, c.uid, d);
    conservation::lemma_carried(p, c);
    charges::law_other_commands_pass(p.risks[k], c);
    let pre = ledger::pre_processed(p.risks[k], c);
    let c1 = ledger::answered(c, pre);
    assert(p.risks.update(k, pre.risk) =~= p.risks);
    assert(laws::sound_book(b, conservation::known(p.risks)));
    moves::law_cancelled_orders_leave(b, c1);
    let step = router::routed(r, c1);
    assert(step.code == CommandResultCode::Success && step.events == model::cancelled(
        b,
        c1,
    ).events && step.action == o.action && step.router.books[c.symbol] == model::cancelled(
        b,
        c1,
    ).book) by {
        reveal(router::routed);
    }
    let e = step.events[0];
    assert(step.events =~= seq![e]);
    lemma_money(p, c, u, d);
    let h = conservation::home(u, p.risks.len());
    lemma_one_leaves(p.risks[h], c.uid, c.symbol, o.action, e);
    assert(p.risks[h].symbols == p.risks[0].symbols);
    conservation::law_users_have_one_shard(p, u, d);
    let q = b.side(b.side_of(c.order_id));
    assert(model::listed(q, c.order_id));
    assert(q[model::place_of(q, c.order_id)] == o);
    assert(p.risks[k].users.contains_key(c.uid));
}

/// An order that is turned down, by the ledger or by the book, leaves all money and all books as
/// they were.
pub proof fn law_refused_orders_cost_nothing(
    p: PipelineModel,
    c: OrderCommand,
    u: UserId,
    d: Currency,
    s: SymbolId,
)
    requires
        conservation::sound(p),
        c.matcher_events@.len() == 0,
        c.command == OrderCommandType::PlaceOrder,
        pipeline::handled(p, c).code != CommandResultCode::Success,
    ensures
        money(pipeline::handled(p, c).pipeline, u, d) == money(p, u, d),
        desk(pipeline::handled(p, c).pipeline, s).books == desk(p, s).books,
{
    let j = conservation::home((c.symbol as u32) as u64, p.routers.len());
    conservation::lemma_home((c.symbol as u32) as u64, p.routers.len());
    conservation::lemma_home((s as u32) as u64, p.routers.len());
    assert(p.routers[j].shard == j);
    conservation::lemma_server(p.routers, c.symbol, j);
    let k = conservation::home(c.uid, p.risks.len());
    conservation::law_users_have_one_shard(p, c.uid, d);
    conservation::lemma_carried(p, c);
    charges::law_orders_freeze_their_worst_case(p.risks[k], c);
    let pre = ledger::pre_processed(p.risks[k], c);
    let c1 = ledger::answered(c, pre);
    law_orders_are_let_through_first(p.routers[j], c1);
    let step = router::routed(p.routers[j], c1);
    lemma_money(p, c, u, d);
    let h = conservation::home(u, p.risks.len());
    conservation::law_users_have_one_shard(p, u, d);
    if pre.code == CommandResultCode::ValidForMatchingEngine {
        let e = step.events[0];
        assert(step.events =~= seq![e]);
        assert(step.action == c.action) by {
            reveal(router::routed);
        }
        charges::law_frozen_money_comes_back(p.risks[k], c, e);
        if h != k {
            lemma_one_leaves(p.risks[h], c.uid, c.symbol, c.action, e);
        }
    } else {
        assert(p.risks.update(k, pre.risk) =~= p.risks);
    }
}

/// An adjustment that succeeds changes the one balance by its amount; one that does not changes
/// none. No book changes.
pub proof fn law_adjustments_arrive(
    p: PipelineModel,
    c: OrderCommand,
    u: UserId,
    d: Currency,
    s: SymbolId,
)
    requires
        conservation::sound(p),
        c.matcher_events@.len() == 0,
        c.command == OrderCommandType::BalanceAdjustment,
        c.order_id <= i64::MAX,
    ensures
        ({
            let t = pipeline::handled(p, c);
            &&& t.code == CommandResultCode::Success ==> money(t.pipeline, u, d) == money(p, u, d)
                + (if u == c.uid && d == c.symbol {
                c.price as int
            } else {
                0
            })
            &&& t.code != CommandResultCode::Success ==> money(t.pipeline, u, d) == money(p, u, d)
            &&& desk(t.pipeline, s).books == desk(p, s).books
            &&& t.events.len() == 0
        }),
{
    let j = conservation::home((c.symbol as u32) as u64, p.routers.len());
    conservation::lemma_home((c.symbol as u32) as u64, p.routers.len());
    conservation::lemma_home((s as u32) as u64, p.routers.len());
    let k = conservation::home(c.uid, p.risks.len());
    conservation::law_users_have_one_shard(p, c.uid, d);
    conservation::lemma_carried(p, c);
    charges::law_adjustments_change_one_balance(p.risks[k], c);
    let pre = ledger::pre_processed(p.risks[k], c);
    let c1 = ledger::answered(c, pre);
    let step = router::routed(p.routers[j], c1);
    assert(step == router::idle(p.routers[j], c1)) by {
        reveal(router::routed);
    }
    lemma_money(p, c, u, d);
}

/// A symbol is registered with every shard of the ledger, and gets one book that is empty. The
/// books of other symbols stay.
pub proof fn law_symbols_get_one_book(
    p: PipelineModel,
    spec: CoreSymbolSpecification,
    i: int,
    j: int,
    s: SymbolId,
)
    requires
        conservation::sound(p),
        0 <= i < p.risks.len(),
        0 <= j < p.routers.len(),
        !p.routers[j].books.contains_key(spec.symbol_id),
    ensures
        ({
            let t = pipeline::with_symbol(p, spec);
            let at_home = j == conservation::home(
                (spec.symbol_id as u32) as u64,
                p.routers.len(),
            );
            &&& t.risks[i].symbols.contains_key(spec.symbol_id)
            &&& t.risks[i].symbols[spec.symbol_id] == spec
            &&& t.risks[i].users == p.risks[i].users
            &&& t.routers[j].books.contains_key(spec.symbol_id) == at_home
            &&& at_home ==> {
                let b = t.routers[j].books[spec.symbol_id];
                b.spec == spec && b.asks.len() == 0 && b.bids.len() == 0
            }
            &&& s != spec.symbol_id ==> {
                &&& t.routers[j].books.contains_key(s) == p.routers[j].books.contains_key(s)
                &&& p.routers[j].books.contains_key(s) ==> t.routers[j].books[s]
                    == p.routers[j].books[s]
            }
        }),
{
    assert(p.routers[j].shard == j);
    conservation::lemma_server(p.routers, spec.symbol_id, j);
}

/// An answer leaves what a command asks for as it was: who asks, for which order of which symbol,
/// how much and at what price. The events of the answer stand behind those that were there.
pub proof fn law_answers_keep_the_request(
    old_cmd: OrderCommand,
    new_cmd: OrderCommand,
    step: pipeline::PipelineStep,
)
    requires
        pipeline::told(old_cmd, new_cmd, step),
    ensures
        new_cmd.command == old_cmd.command,
        new_cmd.uid == old_cmd.uid,
        new_cmd.order_id == old_cmd.order_id,
        new_cmd.symbol == old_cmd.symbol,
        new_cmd.price == old_cmd.price,
        new_cmd.size == old_cmd.size,
        new_cmd.order_type == old_cmd.order_type,
        new_cmd.timestamp == old_cmd.timestamp,
        new_cmd.seq == old_cmd.seq,
        new_cmd.result_code == step.code,
        old_cmd.matcher_events@.is_prefix_of(new_cmd.matcher_events@),
        new_cmd.matcher_events@.skip(old_cmd.matcher_events@.len() as int) == step.events,
{
    let all = new_cmd.matcher_events@;
    let before = old_cmd.matcher_events@;
    assert(all.take(before.len() as int) =~= before);
    assert(all.skip(before.len() as int) =~= step.events);
}

/// A shard hands a command about an order of its book to the book: a cancelled order leaves, a
/// moved one stands at its new price where it still stands, and one that is reduced wants so much
/// less.
pub proof fn law_changes_reach_their_order(r: RouterModel, c: OrderCommand)
    requires
        r.serves(c.symbol),
        r.books.contains_key(c.symbol),
        model::orderly(r.books[c.symbol]),
        r.books[c.symbol].has(c.order_id),
        r.books[c.symbol].order(c.order_id).uid == c.uid,
        c.price > 0,
        c.size > 0,
    ensures
        ({
            let o = r.books[c.symbol].order(c.order_id);
            let step = router::routed(r, c);
            let b = step.router.books[c.symbol];
            &&& c.command == OrderCommandType::CancelOrder ==> {
                &&& step.code == CommandResultCode::Success
                &&& !b.has(c.order_id)
                &&& step.action == o.action
                &&& step.events.len() == 1
                &&& step.events[0].size == o.size - o.filled
            }
            &&& c.command == OrderCommandType::ReduceOrder ==> {
                &&& step.code == CommandResultCode::Success
                &&& step.action == o.action
                &&& step.events.len() == 1
                &&& c.size < o.size - o.filled ==> step.events[0].size == c.size
                &&& c.size >= o.size - o.filled ==> !b.has(c.order_id)
            }
            &&& c.command == OrderCommandType::MoveOrder && c.price <= o.reserve_price ==> {
                &&& step.code == CommandResultCode::Success
                &&& step.action == o.action
                &&& b.has(c.order_id) ==> b.order(c.order_id).price == c.price
                    && b.order(c.order_id).filled == o.filled + laws::traded(step.events)
            }
        }),
{
    reveal(router::routed);
    let b = r.books[c.symbol];
    moves::law_cancelled_orders_leave(b, c);
    moves::law_reduced_orders_want_less(b, c);
    moves::law_moved_orders_rest_at_their_new_price(b, c);
}

} // verus!
