//! The exchange neither makes money nor loses any: free money, frozen money and fees
//! add up to what came in.
use vstd::prelude::*;

use crate::exchange::api::{
    CommandResultCode, CoreSymbolSpecification, Currency, MatcherEventType, MatcherTradeEvent,
    OrderAction, OrderCommand, OrderCommandType, SymbolId, UserId,
};
use crate::exchange::config::ExchangeConfig;
use crate::exchange::laws;
use crate::exchange::ledger;
use crate::exchange::ledger::{Profile, RiskModel};
use crate::exchange::model;
use crate::exchange::model::BookModel;
use crate::exchange::pipeline;
use crate::exchange::pipeline::PipelineModel;
use crate::exchange::router;
use crate::exchange::router::RouterModel;
use crate::store::sums;

verus! {

pub open spec fn free_in(currency: Currency) -> spec_fn(Profile) -> int {
    |p: Profile| ledger::amount(p.accounts, currency)
}

/// Free money and fees of a shard.
pub open spec fn worth(r: RiskModel, currency: Currency) -> int {
    sums::sum_map(r.users, free_in(currency)) + ledger::amount(r.fees, currency)
}

/// Free money and fees of all shards.
pub open spec fn worths(risks: Seq<RiskModel>, currency: Currency) -> int
    decreases risks.len(),
{
    if risks.len() == 0 {
        0
    } else {
        worths(risks.drop_last(), currency) + worth(risks.last(), currency)
    }
}

pub open spec fn held_in(currency: Currency) -> spec_fn(BookModel) -> int {
    |b: BookModel| laws::book_held(b, currency)
}

/// Frozen money in the books of all shards.
pub open spec fn holds(routers: Seq<RouterModel>, currency: Currency) -> int
    decreases routers.len(),
{
    if routers.len() == 0 {
        0
    } else {
        holds(routers.drop_last(), currency) + sums::sum_map(
            routers.last().books,
            held_in(currency),
        )
    }
}

/// All money of a currency.
pub open spec fn total(p: PipelineModel, currency: Currency) -> int {
    worths(p.risks, currency) + holds(p.routers, currency)
}

/// Which of some shards a number belongs to.
pub open spec fn home(n: u64, shards: nat) -> int {
    (n & (shards - 1) as u64) as int
}

/// The shards of the ledger are numbered, know the same symbols, and have the users
/// that belong to them.
pub open spec fn sharded(risks: Seq<RiskModel>) -> bool {
    &&& 0 < risks.len() <= u64::MAX
    &&& forall|i: int|
        0 <= i < risks.len() ==> {
            &&& (#[trigger] risks[i]).shard == i
            &&& risks[i].mask == risks.len() - 1
            &&& risks[i].symbols == risks[0].symbols
            &&& risks[i].users.dom().finite()
        }
    &&& forall|i: int, u: UserId|
        0 <= i < risks.len() && (#[trigger] risks[i].users.contains_key(u)) ==> i == home(
            u,
            risks.len(),
        )
}

/// The users of the shards that they belong to.
pub open spec fn known(risks: Seq<RiskModel>) -> Set<UserId> {
    Set::new(|u: UserId| risks[home(u, risks.len())].users.contains_key(u))
}

/// A shard of books is in order: its books belong to it, go by the specifications
/// that the ledger has, and their orders belong to users of the ledger.
pub open spec fn sound_router(
    r: RouterModel,
    symbols: Map<SymbolId, CoreSymbolSpecification>,
    users: Set<UserId>,
) -> bool {
    &&& r.books.dom().finite()
    &&& forall|s: SymbolId| #[trigger]
        r.books.contains_key(s) ==> {
            &&& symbols.contains_key(s)
            &&& r.books[s].spec == symbols[s]
            &&& laws::sound_book(r.books[s], users)
        }
}

/// An exchange in order.
pub open spec fn sound(p: PipelineModel) -> bool {
    &&& sharded(p.risks)
    &&& 0 < p.routers.len() <= u64::MAX
    &&& forall|j: int|
        0 <= j < p.routers.len() ==> {
            &&& (#[trigger] p.routers[j]).shard == j
            &&& p.routers[j].mask == p.routers.len() - 1
            &&& sound_router(p.routers[j], p.risks[0].symbols, known(p.risks))
        }
}

pub proof fn lemma_home(n: u64, shards: nat)
    requires
        0 < shards <= u64::MAX,
    ensures
        0 <= home(n, shards) < shards,
{
    let m = (shards - 1) as u64;
    assert(n & m <= m) by (bit_vector);
}

/// A number belongs to one shard.
proof fn lemma_owner(risks: Seq<RiskModel>, u: UserId, i: int)
    requires
        sharded(risks),
        0 <= i < risks.len(),
    ensures
        risks[i].owns(u) == (i == home(u, risks.len())),
        0 <= home(u, risks.len()) < risks.len(),
{
    lemma_home(u, risks.len());
    let m = risks[i].mask;
    if m == 0 {
        assert(u & 0 == 0) by (bit_vector);
    }
}

pub proof fn lemma_server(routers: Seq<RouterModel>, s: SymbolId, j: int)
    requires
        0 < routers.len() <= u64::MAX,
        0 <= j < routers.len(),
        routers[j].shard == j,
        routers[j].mask == routers.len() - 1,
    ensures
        routers[j].serves(s) == (j == home((s as u32) as u64, routers.len())),
        0 <= home((s as u32) as u64, routers.len()) < routers.len(),
{
    let n = (s as u32) as u64;
    lemma_home(n, routers.len());
    if routers[j].mask == 0 {
        assert(n & 0 == 0) by (bit_vector);
    }
}

/// One shard changes.
proof fn lemma_worths_update(risks: Seq<RiskModel>, k: int, r: RiskModel, currency: Currency)
    requires
        0 <= k < risks.len(),
    ensures
        worths(risks.update(k, r), currency) == worths(risks, currency) - worth(risks[k], currency)
            + worth(r, currency),
    decreases risks.len(),
{
    let t = risks.update(k, r);
    if k == risks.len() - 1 {
        assert(t.drop_last() =~= risks.drop_last());
    } else {
        assert(t.drop_last() =~= risks.drop_last().update(k, r));
        lemma_worths_update(risks.drop_last(), k, r, currency);
    }
}

proof fn lemma_holds_update(routers: Seq<RouterModel>, k: int, r: RouterModel, currency: Currency)
    requires
        0 <= k < routers.len(),
    ensures
        holds(routers.update(k, r), currency) == holds(routers, currency) - sums::sum_map(
            routers[k].books,
            held_in(currency),
        ) + sums::sum_map(r.books, held_in(currency)),
    decreases routers.len(),
{
    let t = routers.update(k, r);
    if k == routers.len() - 1 {
        assert(t.drop_last() =~= routers.drop_last());
    } else {
        assert(t.drop_last() =~= routers.drop_last().update(k, r));
        lemma_holds_update(routers.drop_last(), k, r, currency);
    }
}

/// Money that a user gets.
proof fn lemma_credited(r: RiskModel, u: UserId, c: Currency, n: int, currency: Currency)
    requires
        r.users.dom().finite(),
        r.users.contains_key(u),
    ensures
        worth(r.credited(u, c, n), currency) == worth(r, currency) + (if c == currency {
            n
        } else {
            0
        }),
        r.credited(u, c, n).users.dom() == r.users.dom(),
        r.credited(u, c, n).users.dom().finite(),
{
    let p = r.users[u];
    let sum = ledger::amount(p.accounts, c) + n;
    let p2 = Profile { accounts: p.accounts.insert(c, sum), ..p };
    sums::lemma_sum_insert(r.users, free_in(currency), u, p2);
    assert(r.users.insert(u, p2).dom() =~= r.users.dom());
}

proof fn lemma_earned(r: RiskModel, c: Currency, n: int, currency: Currency)
    ensures
        worth(r.earned(c, n), currency) == worth(r, currency) + (if c == currency {
            n
        } else {
            0
        }),
        r.earned(c, n).users == r.users,
{
}

/// What a shard keeps through all settling.
pub open spec fn same_frame(a: RiskModel, b: RiskModel) -> bool {
    &&& a.shard == b.shard
    &&& a.mask == b.mask
    &&& a.symbols == b.symbols
    &&& a.users.dom() == b.users.dom()
    &&& a.users.dom().finite() == b.users.dom().finite()
}

/// What the incoming side of a trade and the house get.
spec fn taker_gets(
    e: MatcherTradeEvent,
    spec: CoreSymbolSpecification,
    sell: bool,
    currency: Currency,
) -> int {
    let quote = currency == spec.quote_currency;
    let base = currency == spec.base_currency;
    let fees = e.size * spec.taker_fee + e.size * spec.maker_fee;
    (if quote {
        fees
    } else {
        0
    }) + (if sell {
        if quote {
            ledger::notional(e, spec) - e.size * spec.taker_fee
        } else {
            0
        }
    } else {
        (if quote {
            ledger::refund(e, spec)
        } else {
            0
        }) + (if base {
            e.size * spec.base_scale_k
        } else {
            0
        })
    })
}

/// What the resting side of a trade gets.
spec fn maker_gets(
    e: MatcherTradeEvent,
    spec: CoreSymbolSpecification,
    sell: bool,
    currency: Currency,
) -> int {
    let quote = currency == spec.quote_currency;
    let base = currency == spec.base_currency;
    if sell {
        (if quote {
            ledger::refund(e, spec) + (e.size * spec.taker_fee - e.size * spec.maker_fee)
        } else {
            0
        }) + (if base {
            e.size * spec.base_scale_k
        } else {
            0
        })
    } else {
        if quote {
            ledger::notional(e, spec) - e.size * spec.maker_fee
        } else {
            0
        }
    }
}

/// What a user gets back for an order that left.
spec fn owner_gets(
    e: MatcherTradeEvent,
    spec: CoreSymbolSpecification,
    sell: bool,
    currency: Currency,
) -> int {
    if sell {
        if currency == spec.base_currency {
            e.size * spec.base_scale_k
        } else {
            0
        }
    } else {
        if currency == spec.quote_currency {
            ledger::mul3(e.size as int, e.bidder_hold_price as int, spec.quote_scale_k as int)
                + e.size * spec.taker_fee
        } else {
            0
        }
    }
}

/// What both sides of a trade and the house get is what the trade sets free.
proof fn lemma_trade_is_even(
    e: MatcherTradeEvent,
    spec: CoreSymbolSpecification,
    action: OrderAction,
    currency: Currency,
)
    requires
        e.event_type == MatcherEventType::Trade,
    ensures
        taker_gets(e, spec, action == OrderAction::Ask, currency) + maker_gets(
            e,
            spec,
            action == OrderAction::Ask,
            currency,
        ) == laws::released(e, action, spec, currency),
{
    let n = e.size as int;
    let p = e.price as int;
    let h = e.bidder_hold_price as int;
    let k = spec.quote_scale_k as int;
    let f = spec.taker_fee as int;
    assert(n * p * k + n * (h - p) * k + n * f == n * (h * k + f)) by (nonlinear_arith);
    assert(n * 0 == 0) by (nonlinear_arith);
}

proof fn lemma_refund_is_even(
    e: MatcherTradeEvent,
    spec: CoreSymbolSpecification,
    action: OrderAction,
    currency: Currency,
)
    ensures
        owner_gets(e, spec, action == OrderAction::Ask, currency) == e.size * laws::unit(
            action,
            e.bidder_hold_price,
            spec,
            currency,
        ),
{
    let n = e.size as int;
    let h = e.bidder_hold_price as int;
    let k = spec.quote_scale_k as int;
    let f = spec.taker_fee as int;
    assert(n * h * k + n * f == n * (h * k + f)) by (nonlinear_arith);
    assert(n * 0 == 0) by (nonlinear_arith);
}

/// What one shard does with an event.
spec fn event_gets(
    r: RiskModel,
    uid: UserId,
    e: MatcherTradeEvent,
    spec: CoreSymbolSpecification,
    action: OrderAction,
    currency: Currency,
) -> int {
    let sell = action == OrderAction::Ask;
    match e.event_type {
        MatcherEventType::Trade => (if r.owns(uid) {
            taker_gets(e, spec, sell, currency)
        } else {
            0
        }) + (if r.owns(e.matched_order_uid) {
            maker_gets(e, spec, sell, currency)
        } else {
            0
        }),
        MatcherEventType::RejectMaker => if r.owns(uid) {
            owner_gets(e, spec, !sell, currency)
        } else {
            0
        },
        _ => if r.owns(uid) {
            owner_gets(e, spec, sell, currency)
        } else {
            0
        },
    }
}

/// The users of an event that belong to a shard are known there.
spec fn event_known(r: RiskModel, uid: UserId, e: MatcherTradeEvent) -> bool {
    &&& r.users.dom().finite()
    &&& r.owns(uid) ==> r.users.contains_key(uid)
    &&& e.event_type == MatcherEventType::Trade && r.owns(e.matched_order_uid)
        ==> r.users.contains_key(e.matched_order_uid)
}

proof fn lemma_event(
    r: RiskModel,
    uid: UserId,
    e: MatcherTradeEvent,
    spec: CoreSymbolSpecification,
    action: OrderAction,
    currency: Currency,
)
    requires
        event_known(r, uid, e),
    ensures
        ({
            let r2 = ledger::event_settled(r, uid, e, spec, action == OrderAction::Ask);
            &&& worth(r2, currency) == worth(r, currency) + event_gets(
                r,
                uid,
                e,
                spec,
                action,
                currency,
            )
            &&& same_frame(r2, r)
        }),
{
    let sell = action == OrderAction::Ask;
    let quote = spec.quote_currency;
    let base = spec.base_currency;
    match e.event_type {
        MatcherEventType::Trade => {
            let r0 = r.checked(ledger::trade_fits(e, spec));
            let fees = e.size * spec.taker_fee + e.size * spec.maker_fee;
            let r1 = if r.owns(uid) {
                ledger::taker_settled(r0, uid, e, spec, sell)
            } else {
                r0
            };
            if r.owns(uid) {
                lemma_earned(r0, quote, fees, currency);
                let ra = r0.earned(quote, fees);
                if sell {
                    lemma_credited(
                        ra,
                        uid,
                        quote,
                        ledger::notional(e, spec) - e.size * spec.taker_fee,
                        currency,
                    );
                } else {
                    lemma_credited(ra, uid, quote, ledger::refund(e, spec), currency);
                    lemma_credited(
                        ra.credited(uid, quote, ledger::refund(e, spec)),
                        uid,
                        base,
                        e.size * spec.base_scale_k,
                        currency,
                    );
                }
            }
            let m = e.matched_order_uid;
            if r.owns(m) {
                assert(r1.users.dom().contains(m));
                if sell {
                    let back = ledger::refund(e, spec) + (e.size * spec.taker_fee - e.size
                        * spec.maker_fee);
                    lemma_credited(r1, m, quote, back, currency);
                    let rb = r1.credited(m, quote, back);
                    assert(rb.users.dom().contains(m));
                    lemma_credited(rb, m, base, e.size * spec.base_scale_k, currency);
                } else {
                    lemma_credited(
                        r1,
                        m,
                        quote,
                        ledger::notional(e, spec) - e.size * spec.maker_fee,
                        currency,
                    );
                }
            }
        },
        MatcherEventType::RejectMaker => {
            lemma_reject(r, uid, e, spec, !sell, currency);
        },
        _ => {
            lemma_reject(r, uid, e, spec, sell, currency);
        },
    }
}

proof fn lemma_reject(
    r: RiskModel,
    uid: UserId,
    e: MatcherTradeEvent,
    spec: CoreSymbolSpecification,
    sell: bool,
    currency: Currency,
)
    requires
        r.users.dom().finite(),
        r.owns(uid) ==> r.users.contains_key(uid),
    ensures
        ({
            let r2 = ledger::reject_settled(r, uid, e, spec, sell);
            &&& worth(r2, currency) == worth(r, currency) + (if r.owns(uid) {
                owner_gets(e, spec, sell, currency)
            } else {
                0
            })
            &&& same_frame(r2, r)
        }),
{
    if r.owns(uid) {
        let r0 = r.checked(ledger::reject_fits(e, spec));
        if sell {
            lemma_credited(r0, uid, spec.base_currency, e.size * spec.base_scale_k, currency);
        } else {
            lemma_credited(
                r0,
                uid,
                spec.quote_currency,
                ledger::mul3(
                    e.size as int,
                    e.bidder_hold_price as int,
                    spec.quote_scale_k as int,
                ) + e.size * spec.taker_fee,
                currency,
            );
        }
    }
}

/// All shards settle an event.
spec fn settled_by_all(
    risks: Seq<RiskModel>,
    uid: UserId,
    e: MatcherTradeEvent,
    spec: CoreSymbolSpecification,
    action: OrderAction,
) -> Seq<RiskModel> {
    risks.map_values(
        |r: RiskModel| ledger::event_settled(r, uid, e, spec, action == OrderAction::Ask),
    )
}

/// Of an event, the shards up to one get what belongs to them.
proof fn lemma_event_up_to(
    risks: Seq<RiskModel>,
    n: int,
    uid: UserId,
    e: MatcherTradeEvent,
    spec: CoreSymbolSpecification,
    action: OrderAction,
    currency: Currency,
)
    requires
        sharded(risks),
        0 <= n <= risks.len(),
        known(risks).contains(uid),
        e.event_type == MatcherEventType::Trade ==> known(risks).contains(e.matched_order_uid),
    ensures
        ({
            let sell = action == OrderAction::Ask;
            let a = home(uid, risks.len());
            let b = home(e.matched_order_uid, risks.len());
            worths(settled_by_all(risks, uid, e, spec, action).take(n), currency) == worths(
                risks.take(n),
                currency,
            ) + (match e.event_type {
                MatcherEventType::Trade => (if a < n {
                    taker_gets(e, spec, sell, currency)
                } else {
                    0
                }) + (if b < n {
                    maker_gets(e, spec, sell, currency)
                } else {
                    0
                }),
                MatcherEventType::RejectMaker => if a < n {
                    owner_gets(e, spec, !sell, currency)
                } else {
                    0
                },
                _ => if a < n {
                    owner_gets(e, spec, sell, currency)
                } else {
                    0
                },
            })
        }),
    decreases n,
{
    let all = settled_by_all(risks, uid, e, spec, action);
    lemma_owner(risks, uid, 0);
    lemma_owner(risks, e.matched_order_uid, 0);
    if n == 0 {
        assert(all.take(0) =~= Seq::<RiskModel>::empty());
        assert(risks.take(0) =~= Seq::<RiskModel>::empty());
    } else {
        lemma_event_up_to(risks, n - 1, uid, e, spec, action, currency);
        assert(all.take(n).drop_last() =~= all.take(n - 1));
        assert(risks.take(n).drop_last() =~= risks.take(n - 1));
        let r = risks[n - 1];
        lemma_owner(risks, uid, n - 1);
        lemma_owner(risks, e.matched_order_uid, n - 1);
        assert(event_known(r, uid, e));
        lemma_event(r, uid, e, spec, action, currency);
        assert(all.take(n).last() == ledger::event_settled(
            r,
            uid,
            e,
            spec,
            action == OrderAction::Ask,
        ));
        assert(risks.take(n).last() == r);
    }
}

/// An event moves what it sets free, and nothing else.
proof fn lemma_event_by_all(
    risks: Seq<RiskModel>,
    uid: UserId,
    e: MatcherTradeEvent,
    spec: CoreSymbolSpecification,
    action: OrderAction,
    currency: Currency,
)
    requires
        sharded(risks),
        known(risks).contains(uid),
        e.event_type == MatcherEventType::Trade ==> known(risks).contains(e.matched_order_uid),
    ensures
        ({
            let all = settled_by_all(risks, uid, e, spec, action);
            &&& worths(all, currency) == worths(risks, currency) + laws::released(
                e,
                action,
                spec,
                currency,
            )
            &&& sharded(all)
            &&& known(all) == known(risks)
            &&& all[0].symbols == risks[0].symbols
        }),
{
    let all = settled_by_all(risks, uid, e, spec, action);
    let n = risks.len() as int;
    lemma_event_up_to(risks, n, uid, e, spec, action, currency);
    assert(all.take(n) =~= all);
    assert(risks.take(n) =~= risks);
    lemma_owner(risks, uid, 0);
    lemma_owner(risks, e.matched_order_uid, 0);
    match e.event_type {
        MatcherEventType::Trade => lemma_trade_is_even(e, spec, action, currency),
        MatcherEventType::RejectMaker => lemma_refund_is_even(e, spec, action.other(), currency),
        _ => lemma_refund_is_even(e, spec, action, currency),
    }
    assert forall|i: int| 0 <= i < all.len() implies same_frame(#[trigger] all[i], risks[i]) by {
        lemma_owner(risks, uid, i);
        lemma_owner(risks, e.matched_order_uid, i);
        assert(event_known(risks[i], uid, e));
        lemma_event(risks[i], uid, e, spec, action, currency);
    }
    lemma_same_frames(risks, all);
}

/// Shards that keep their frame are in order as before, and know the same users.
proof fn lemma_same_frames(a: Seq<RiskModel>, b: Seq<RiskModel>)
    requires
        sharded(a),
        b.len() == a.len(),
        forall|i: int| 0 <= i < b.len() ==> same_frame(#[trigger] b[i], a[i]),
    ensures
        sharded(b),
        known(b) == known(a),
        b[0].symbols == a[0].symbols,
{
    assert(same_frame(b[0], a[0]));
    assert forall|i: int| 0 <= i < b.len() implies {
        &&& (#[trigger] b[i]).shard == i
        &&& b[i].mask == b.len() - 1
        &&& b[i].symbols == b[0].symbols
        &&& b[i].users.dom().finite()
    } by {
        assert(same_frame(b[i], a[i]));
        assert(a[i].shard == i);
    }
    assert forall|i: int, u: UserId| 0 <= i < b.len() && (#[trigger] b[i].users.contains_key(
        u,
    )) implies i == home(u, b.len()) by {
        assert(same_frame(b[i], a[i]));
        assert(b[i].users.dom().contains(u) == a[i].users.dom().contains(u));
        assert(a[i].users.contains_key(u));
    }
    assert forall|u: UserId| known(b).contains(u) == known(a).contains(u) by {
        let k = home(u, a.len());
        lemma_home(u, a.len());
        assert(same_frame(b[k], a[k]));
        assert(b[k].users.dom().contains(u) == a[k].users.dom().contains(u));
    }
    assert(known(b) =~= known(a));
}

/// Settling all events of a command moves what they set free.
proof fn lemma_settled(
    risks: Seq<RiskModel>,
    uid: UserId,
    events: Seq<MatcherTradeEvent>,
    spec: CoreSymbolSpecification,
    action: OrderAction,
    currency: Currency,
)
    requires
        sharded(risks),
        events.len() > 0 ==> known(risks).contains(uid),
        laws::known_makers(events, known(risks)),
    ensures
        ({
            let all = risks.map_values(
                |r: RiskModel| ledger::settled(r, uid, events, spec, action == OrderAction::Ask),
            );
            &&& worths(all, currency) == worths(risks, currency) + laws::all_released(
                events,
                action,
                spec,
                currency,
            )
            &&& sharded(all)
            &&& known(all) == known(risks)
            &&& all[0].symbols == risks[0].symbols
        }),
    decreases events.len(),
{
    let sell = action == OrderAction::Ask;
    let all = risks.map_values(|r: RiskModel| ledger::settled(r, uid, events, spec, sell));
    if events.len() == 0 {
        assert(all =~= risks);
    } else {
        let rest = events.drop_last();
        assert forall|i: int|
            0 <= i < rest.len() && (#[trigger] rest[i]).event_type
                == MatcherEventType::Trade implies known(risks).contains(
            rest[i].matched_order_uid,
        ) by {
            assert(rest[i] == events[i]);
        }
        lemma_settled(risks, uid, rest, spec, action, currency);
        let before = risks.map_values(|r: RiskModel| ledger::settled(r, uid, rest, spec, sell));
        assert(events[events.len() - 1] == events.last());
        lemma_event_by_all(before, uid, events.last(), spec, action, currency);
        assert(all =~= settled_by_all(before, uid, events.last(), spec, action));
    }
}

/// Before matching, only the shard of the user acts.
proof fn lemma_frozen(risks: Seq<RiskModel>, n: int, c: OrderCommand)
    requires
        sharded(risks),
        0 <= n <= risks.len(),
    ensures
        ({
            let k = home(c.uid, risks.len());
            let step = ledger::pre_processed(risks[k], c);
            pipeline::frozen(risks.take(n), c) == (if n <= k {
                (risks.take(n), c)
            } else {
                (risks.take(n).update(k, step.risk), ledger::answered(c, step))
            })
        }),
    decreases n,
{
    let k = home(c.uid, risks.len());
    let step = ledger::pre_processed(risks[k], c);
    lemma_owner(risks, c.uid, 0);
    if n > 0 {
        lemma_frozen(risks, n - 1, c);
        lemma_owner(risks, c.uid, n - 1);
        assert(risks.take(n).drop_last() =~= risks.take(n - 1));
        assert(risks.take(n).last() == risks[n - 1]);
        let (before, c1) = pipeline::frozen(risks.take(n - 1), c);
        let r = risks[n - 1];
        if n - 1 == k {
            assert(before.push(step.risk) =~= risks.take(n).update(k, step.risk));
        } else {
            assert(ledger::pre_processed(r, c1) == (ledger::PreStep {
                risk: r,
                code: c1.result_code,
                reserve_price: c1.reserve_price,
            }));
            assert(ledger::answered(c1, ledger::pre_processed(r, c1)) == c1);
            if n - 1 < k {
                assert(before.push(r) =~= risks.take(n));
            } else {
                assert(before.push(r) =~= risks.take(n).update(k, step.risk));
            }
        }
    } else {
        assert(risks.take(0) =~= Seq::<RiskModel>::empty());
    }
}

/// Among the books, only the shard of the symbol acts.
proof fn lemma_routed(routers: Seq<RouterModel>, n: int, c: OrderCommand)
    requires
        0 < routers.len() <= u64::MAX,
        forall|j: int|
            0 <= j < routers.len() ==> (#[trigger] routers[j]).shard == j && routers[j].mask
                == routers.len() - 1,
        0 <= n <= routers.len(),
    ensures
        ({
            let k = home((c.symbol as u32) as u64, routers.len());
            let step = router::routed(routers[k], c);
            let m = pipeline::matched(routers.take(n), c);
            if n <= k {
                &&& m.routers == routers.take(n)
                &&& m.code == c.result_code
                &&& m.action == c.action
                &&& m.events == Seq::<MatcherTradeEvent>::empty()
            } else {
                &&& m.routers == routers.take(n).update(k, step.router)
                &&& m.code == step.code
                &&& m.action == step.action
                &&& m.events == step.events
            }
        }),
    decreases n,
{
    reveal(router::routed);
    let k = home((c.symbol as u32) as u64, routers.len());
    let step = router::routed(routers[k], c);
    assert(routers[0].shard == 0);
    lemma_server(routers, c.symbol, 0);
    if n > 0 {
        lemma_routed(routers, n - 1, c);
        assert(routers[n - 1].shard == n - 1);
        lemma_server(routers, c.symbol, n - 1);
        assert(routers.take(n).drop_last() =~= routers.take(n - 1));
        assert(routers.take(n).last() == routers[n - 1]);
        let m = pipeline::matched(routers.take(n - 1), c);
        let seen = pipeline::at_books(c, m.code, m.action);
        if n - 1 == k {
            assert(seen == c);
            assert(m.routers.push(step.router) =~= routers.take(n).update(k, step.router));
            assert(m.events + step.events =~= step.events);
        } else {
            assert(m.events + Seq::<MatcherTradeEvent>::empty() =~= m.events);
            if n - 1 < k {
                assert(m.routers.push(routers[n - 1]) =~= routers.take(n));
            } else {
                assert(m.routers.push(routers[n - 1]) =~= routers.take(n).update(k, step.router));
            }
        }
    } else {
        assert(routers.take(0) =~= Seq::<RouterModel>::empty());
    }
}

/// What comes into the exchange with a command.
pub open spec fn deposited(p: PipelineModel, c: OrderCommand, currency: Currency) -> int {
    if c.command == OrderCommandType::BalanceAdjustment && currency == c.symbol
        && pipeline::handled(p, c).code == CommandResultCode::Success {
        c.price as int
    } else {
        0
    }
}

/// What an order freezes as a checked one is what it brings to the book.
proof fn lemma_hold_is_unit(c: OrderCommand, spec: CoreSymbolSpecification, currency: Currency)
    requires
        ledger::hold(c.action, c.size as int, c.reserve_price, spec).is_some(),
    ensures
        laws::incoming(c, spec, currency) == (if currency == ledger::hold_currency(
            c.action,
            spec,
        ) {
            ledger::hold(c.action, c.size as int, c.reserve_price, spec).unwrap()
        } else {
            0
        }),
{
    let n = c.size as int;
    let h = c.reserve_price as int;
    let k = spec.quote_scale_k as int;
    let f = spec.taker_fee as int;
    assert(n * h * k + n * f == n * (h * k + f)) by (nonlinear_arith);
    assert(n * 0 == 0) by (nonlinear_arith);
}

/// What a shard of the ledger does before matching.
proof fn lemma_pre(r: RiskModel, c: OrderCommand, currency: Currency)
    requires
        r.users.dom().finite(),
        r.owns(c.uid),
    ensures
        ({
            let step = ledger::pre_processed(r, c);
            let c1 = ledger::answered(c, step);
            &&& step.risk.shard == r.shard
            &&& step.risk.mask == r.mask
            &&& step.risk.symbols == r.symbols
            &&& step.risk.users.dom().finite()
            &&& forall|u: UserId| #[trigger]
                r.users.contains_key(u) ==> step.risk.users.contains_key(u)
            &&& forall|u: UserId| #[trigger]
                step.risk.users.contains_key(u) && u != c.uid ==> r.users.contains_key(u)
            &&& worth(step.risk, currency) == worth(r, currency) + (match c.command {
                OrderCommandType::PlaceOrder => if step.code
                    == CommandResultCode::ValidForMatchingEngine {
                    -laws::incoming(c1, r.symbols[c.symbol], currency)
                } else {
                    0
                },
                OrderCommandType::BalanceAdjustment => if step.code == CommandResultCode::Success
                    && currency == c.symbol {
                    c.price as int
                } else {
                    0
                },
                _ => 0,
            })
            &&& c.command == OrderCommandType::PlaceOrder && step.code
                == CommandResultCode::ValidForMatchingEngine ==> r.users.contains_key(c.uid)
                && r.symbols.contains_key(c.symbol) && c.size > 0
        }),
{
    let step = ledger::pre_processed(r, c);
    let c1 = ledger::answered(c, step);
    match c.command {
        OrderCommandType::PlaceOrder => {
            if step.code == CommandResultCode::ValidForMatchingEngine {
                let spec = r.symbols[c.symbol];
                let n = ledger::hold(c.action, c.size as int, step.reserve_price, spec).unwrap();
                lemma_hold_is_unit(c1, spec, currency);
                lemma_credited(r, c.uid, ledger::hold_currency(c.action, spec), -n, currency);
                assert(step.risk.users.dom() == r.users.dom());
                assert forall|u: UserId| #[trigger]
                    step.risk.users.contains_key(u) implies r.users.contains_key(u) by {
                    assert(r.users.dom().contains(u));
                }
                assert forall|u: UserId| #[trigger]
                    r.users.contains_key(u) implies step.risk.users.contains_key(u) by {
                    assert(step.risk.users.dom().contains(u));
                }
            }
        },
        OrderCommandType::AddUser => {
            if !r.users.contains_key(c.uid) {
                let p = Profile { last_tx: 0, accounts: Map::empty() };
                sums::lemma_sum_insert(r.users, free_in(currency), c.uid, p);
            }
        },
        OrderCommandType::BalanceAdjustment => {
            if step.code == CommandResultCode::Success {
                let tx = c.order_id as i64 as int;
                let p = Profile {
                    last_tx: tx,
                    accounts: r.users[c.uid].accounts.insert(
                        c.symbol,
                        ledger::free(r.users, c.uid, c.symbol) + c.price,
                    ),
                };
                sums::lemma_sum_insert(r.users, free_in(currency), c.uid, p);
            }
        },
        _ => {},
    }
}

/// The exchange stays in order where users are added.
proof fn lemma_more_users(
    r: RouterModel,
    symbols: Map<SymbolId, CoreSymbolSpecification>,
    a: Set<UserId>,
    b: Set<UserId>,
)
    requires
        sound_router(r, symbols, a),
        a.subset_of(b),
    ensures
        sound_router(r, symbols, b),
{
    assert forall|s: SymbolId| #[trigger] r.books.contains_key(s) implies laws::sound_book(
        r.books[s],
        b,
    ) by {
        let book = r.books[s];
        assert(laws::sound_book(book, a));
        assert forall|i: int| 0 <= i < book.asks.len() implies model::order_ok(
            #[trigger] book.asks[i],
            OrderAction::Ask,
        ) && b.contains(book.asks[i].uid) by {
            assert(a.contains(book.asks[i].uid));
        }
        assert forall|i: int| 0 <= i < book.bids.len() implies model::order_ok(
            #[trigger] book.bids[i],
            OrderAction::Bid,
        ) && b.contains(book.bids[i].uid) by {
            assert(a.contains(book.bids[i].uid));
        }
    }
}

/// What a shard of books does: what a checked order froze is in its books, or was set
/// free.
proof fn lemma_routed_keeps(
    r: RouterModel,
    c: OrderCommand,
    symbols: Map<SymbolId, CoreSymbolSpecification>,
    users: Set<UserId>,
    currency: Currency,
)
    requires
        sound_router(r, symbols, users),
        r.serves(c.symbol),
        c.command == OrderCommandType::PlaceOrder && c.result_code
            == CommandResultCode::ValidForMatchingEngine ==> users.contains(c.uid)
            && symbols.contains_key(c.symbol) && c.size >= 0,
    ensures
        ({
            let step = router::routed(r, c);
            let placed = c.command == OrderCommandType::PlaceOrder && c.result_code
                == CommandResultCode::ValidForMatchingEngine;
            &&& sums::sum_map(r.books, held_in(currency)) + (if placed {
                laws::incoming(c, symbols[c.symbol], currency)
            } else {
                0
            }) == sums::sum_map(step.router.books, held_in(currency)) + (if step.events.len()
                == 0 {
                0
            } else {
                laws::all_released(step.events, step.action, symbols[c.symbol], currency)
            })
            &&& sound_router(step.router, symbols, users)
            &&& step.router.shard == r.shard
            &&& step.router.mask == r.mask
            &&& laws::known_makers(step.events, users)
            &&& step.events.len() > 0 ==> users.contains(c.uid) && symbols.contains_key(c.symbol)
            &&& c.command == OrderCommandType::BalanceAdjustment ==> step.code == c.result_code
        }),
{
    reveal(router::routed);
    let step = router::routed(r, c);
    let placed = c.command == OrderCommandType::PlaceOrder && c.result_code
        == CommandResultCode::ValidForMatchingEngine;
    let all = router::whole_order_leaves(c);
    if placed {
        let spec = symbols[c.symbol];
        assert(all.drop_last() =~= Seq::<MatcherTradeEvent>::empty());
        assert(laws::all_released(all.drop_last(), c.action, spec, currency) == 0);
        assert(laws::all_released(all, c.action, spec, currency) == laws::incoming(
            c,
            spec,
            currency,
        ));
    }
    if r.books.contains_key(c.symbol) {
        let b = r.books[c.symbol];
        let spec = symbols[c.symbol];
        assert(b.spec == spec && laws::sound_book(b, users));
        match c.command {
            OrderCommandType::PlaceOrder => {
                if placed {
                    let s = model::new_ordered(b, c);
                    laws::lemma_new_order_keeps(b, c, currency, users);
                    lemma_book_changes(r, c.symbol, s.book, symbols, users, currency);
                    if s.code != CommandResultCode::Success {
                        assert(s.events + all =~= all);
                        assert(r.books.insert(c.symbol, b) =~= r.books);
                    }
                }
            },
            OrderCommandType::CancelOrder => {
                laws::lemma_cancel_keeps(b, c, currency, users);
                let s = model::cancelled(b, c);
                lemma_book_changes(r, c.symbol, s.book, symbols, users, currency);
            },
            OrderCommandType::MoveOrder => {
                laws::lemma_move_keeps(b, c, currency, users);
                let s = model::moved(b, c);
                lemma_book_changes(r, c.symbol, s.book, symbols, users, currency);
            },
            OrderCommandType::ReduceOrder => {
                laws::lemma_reduce_keeps(b, c, currency, users);
                let s = model::reduced(b, c);
                lemma_book_changes(r, c.symbol, s.book, symbols, users, currency);
            },
            _ => {},
        }
    } else if placed {
        assert(Seq::<MatcherTradeEvent>::empty() + all =~= all);
    }
}

/// One book of a shard changes.
proof fn lemma_book_changes(
    r: RouterModel,
    symbol: SymbolId,
    b: BookModel,
    symbols: Map<SymbolId, CoreSymbolSpecification>,
    users: Set<UserId>,
    currency: Currency,
)
    requires
        sound_router(r, symbols, users),
        r.books.contains_key(symbol),
        b.spec == symbols[symbol],
        laws::sound_book(b, users),
    ensures
        sums::sum_map(r.books.insert(symbol, b), held_in(currency)) == sums::sum_map(
            r.books,
            held_in(currency),
        ) - laws::book_held(r.books[symbol], currency) + laws::book_held(b, currency),
        sound_router(RouterModel { books: r.books.insert(symbol, b), ..r }, symbols, users),
{
    sums::lemma_sum_insert(r.books, held_in(currency), symbol, b);
    let books = r.books.insert(symbol, b);
    assert forall|s: SymbolId| #[trigger] books.contains_key(s) implies {
        &&& symbols.contains_key(s)
        &&& books[s].spec == symbols[s]
        &&& laws::sound_book(books[s], users)
    } by {
        assert(r.books.contains_key(s));
    }
}

/// An exchange after a command that went through the shard of its user and that of its
/// symbol.
pub open spec fn carried(p: PipelineModel, c: OrderCommand) -> PipelineModel {
    let k = home(c.uid, p.risks.len());
    let pre = ledger::pre_processed(p.risks[k], c);
    let j = home((c.symbol as u32) as u64, p.routers.len());
    let step = router::routed(p.routers[j], ledger::answered(c, pre));
    PipelineModel {
        risks: pipeline::thawed(
            p.risks.update(k, pre.risk),
            c.uid,
            c.symbol,
            step.action,
            step.events,
        ),
        routers: p.routers.update(j, step.router),
        ..p
    }
}

/// The answer to a command that went through the shards.
pub open spec fn carried_code(p: PipelineModel, c: OrderCommand) -> CommandResultCode {
    let pre = ledger::pre_processed(p.risks[home(c.uid, p.risks.len())], c);
    let j = home((c.symbol as u32) as u64, p.routers.len());
    router::routed(p.routers[j], ledger::answered(c, pre)).code
}

/// The other shards have no part in a command.
pub proof fn lemma_carried(p: PipelineModel, c: OrderCommand)
    requires
        sound(p),
        c.matcher_events@.len() == 0,
        !pipeline::is_persist(c.command),
        c.command != OrderCommandType::ShutdownSignal,
    ensures
        pipeline::handled(p, c).pipeline == carried(p, c),
        pipeline::handled(p, c).code == carried_code(p, c),
        pipeline::handled(p, c).events == router::routed(
            p.routers[home((c.symbol as u32) as u64, p.routers.len())],
            ledger::answered(
                c,
                ledger::pre_processed(p.risks[home(c.uid, p.risks.len())], c),
            ),
        ).events,
{
    let risks = p.risks;
    let k = home(c.uid, risks.len());
    let pre = ledger::pre_processed(risks[k], c);
    let c1 = ledger::answered(c, pre);
    lemma_owner(risks, c.uid, 0);
    lemma_owner(risks, c.uid, k);
    lemma_frozen(risks, risks.len() as int, c);
    assert(risks.take(risks.len() as int) =~= risks);
    let j = home((c.symbol as u32) as u64, p.routers.len());
    assert(p.routers[0].shard == 0);
    lemma_server(p.routers, c.symbol, 0);
    assert(p.routers[j].shard == j);
    lemma_server(p.routers, c.symbol, j);
    lemma_routed(p.routers, p.routers.len() as int, c1);
    assert(p.routers.take(p.routers.len() as int) =~= p.routers);
    let step = router::routed(p.routers[j], c1);
    assert(c.matcher_events@ + step.events =~= step.events);
}

/// A command that goes through the shards conserves money.
proof fn lemma_carried_keeps(p: PipelineModel, c: OrderCommand, currency: Currency)
    requires
        sound(p),
        !pipeline::is_persist(c.command),
        c.command != OrderCommandType::ShutdownSignal,
    ensures
        total(carried(p, c), currency) == total(p, currency) + (if c.command
            == OrderCommandType::BalanceAdjustment && currency == c.symbol && carried_code(p, c)
            == CommandResultCode::Success {
            c.price as int
        } else {
            0
        }),
        sound(carried(p, c)),
{
    let risks = p.risks;
    let symbols = risks[0].symbols;
    let k = home(c.uid, risks.len());
    let pre = ledger::pre_processed(risks[k], c);
    let c1 = ledger::answered(c, pre);
    lemma_owner(risks, c.uid, 0);
    lemma_owner(risks, c.uid, k);
    lemma_pre(risks[k], c, currency);
    assert(risks[k].symbols == symbols);
    let risks1 = risks.update(k, pre.risk);
    lemma_worths_update(risks, k, pre.risk, currency);
    lemma_sharded_update(risks, k, pre.risk);
    let users = known(risks1);
    let j = home((c.symbol as u32) as u64, p.routers.len());
    assert(p.routers[0].shard == 0);
    lemma_server(p.routers, c.symbol, 0);
    assert(p.routers[j].shard == j);
    lemma_server(p.routers, c.symbol, j);
    assert forall|i: int| 0 <= i < p.routers.len() implies sound_router(
        #[trigger] p.routers[i],
        symbols,
        users,
    ) by {
        lemma_more_users(p.routers[i], symbols, known(risks), users);
    }
    let placed = c1.command == OrderCommandType::PlaceOrder && c1.result_code
        == CommandResultCode::ValidForMatchingEngine;
    if placed {
        assert(users.contains(c.uid));
    }
    lemma_routed_keeps(p.routers[j], c1, symbols, users, currency);
    let step = router::routed(p.routers[j], c1);
    let routers = p.routers.update(j, step.router);
    lemma_holds_update(p.routers, j, step.router, currency);
    let events = step.events;
    let risks2 = pipeline::thawed(risks1, c.uid, c.symbol, step.action, events);
    if events.len() > 0 {
        let spec = symbols[c.symbol];
        lemma_settled(risks1, c.uid, events, spec, step.action, currency);
        let sell = step.action == OrderAction::Ask;
        let all = risks1.map_values(|r: RiskModel| ledger::settled(r, c.uid, events, spec, sell));
        assert forall|i: int| 0 <= i < risks1.len() implies risks2[i] == all[i] by {
            assert(risks1[i].symbols == risks1[0].symbols);
        }
        assert(risks2 =~= all);
    } else {
        assert(risks2 =~= risks1);
    }
    assert forall|i: int| 0 <= i < routers.len() implies {
        &&& (#[trigger] routers[i]).shard == i
        &&& routers[i].mask == routers.len() - 1
        &&& sound_router(routers[i], symbols, users)
    } by {
        assert(p.routers[i].shard == i);
    }
}

/// No command makes money or loses any: free money, frozen money and fees together
/// change by what a balance adjustment brings in, and by nothing else. The exchange
/// stays in order.
pub proof fn law_money_is_conserved(p: PipelineModel, c: OrderCommand, currency: Currency)
    requires
        sound(p),
        c.matcher_events@.len() == 0,
    ensures
        total(pipeline::handled(p, c).pipeline, currency) == total(p, currency) + deposited(
            p,
            c,
            currency,
        ),
        sound(pipeline::handled(p, c).pipeline),
{
    if !pipeline::is_persist(c.command) && c.command != OrderCommandType::ShutdownSignal {
        lemma_carried(p, c);
        lemma_carried_keeps(p, c, currency);
    }
}

/// One shard of the ledger changes: no user leaves, and only one may come.
proof fn lemma_sharded_update(risks: Seq<RiskModel>, k: int, r: RiskModel)
    requires
        sharded(risks),
        0 <= k < risks.len(),
        r.shard == risks[k].shard,
        r.mask == risks[k].mask,
        r.symbols == risks[k].symbols,
        r.users.dom().finite(),
        forall|u: UserId| #[trigger]
            risks[k].users.contains_key(u) ==> r.users.contains_key(u),
        forall|u: UserId| #[trigger]
            r.users.contains_key(u) && !risks[k].users.contains_key(u) ==> k == home(
                u,
                risks.len(),
            ),
    ensures
        sharded(risks.update(k, r)),
        known(risks).subset_of(known(risks.update(k, r))),
        risks.update(k, r)[0].symbols == risks[0].symbols,
{
    let t = risks.update(k, r);
    assert(risks[k].symbols == risks[0].symbols);
    assert forall|i: int| 0 <= i < t.len() implies {
        &&& (#[trigger] t[i]).shard == i
        &&& t[i].mask == t.len() - 1
        &&& t[i].symbols == t[0].symbols
        &&& t[i].users.dom().finite()
    } by {
        assert(risks[i].shard == i);
    }
    assert forall|i: int, u: UserId| 0 <= i < t.len() && (#[trigger] t[i].users.contains_key(
        u,
    )) implies i == home(u, t.len()) by {
        assert(i != k ==> risks[i].users.contains_key(u));
        assert(risks[k].users.contains_key(u) ==> k == home(u, risks.len()));
    }
    assert forall|u: UserId| known(risks).contains(u) implies known(t).contains(u) by {
        let h = home(u, risks.len());
        lemma_home(u, risks.len());
        if h == k {
            assert(risks[k].users.contains_key(u));
        }
    }
}

/// A user is with one shard of the ledger: the others have no money of the user.
pub proof fn law_users_have_one_shard(p: PipelineModel, u: UserId, currency: Currency)
    requires
        sound(p),
    ensures
        0 <= home(u, p.risks.len()) < p.risks.len(),
        forall|i: int|
            0 <= i < p.risks.len() ==> (#[trigger] p.risks[i]).owns(u) == (i == home(
                u,
                p.risks.len(),
            )),
        pipeline::balance_over(p.risks, u, currency) == p.risks[home(
            u,
            p.risks.len(),
        )].balance(u, currency),
        ledger::fits(p.risks[home(u, p.risks.len())].balance(u, currency))
            ==> pipeline::balance_fits(p.risks, u, currency),
{
    lemma_home(u, p.risks.len());
    assert forall|i: int| 0 <= i < p.risks.len() implies (#[trigger] p.risks[i]).owns(u) == (i
        == home(u, p.risks.len())) by {
        lemma_owner(p.risks, u, i);
    }
    let n = p.risks.len() as int;
    assert(p.risks.take(n) =~= p.risks);
    assert forall|k: int| 0 <= k <= n implies pipeline::balance_over(
        #[trigger] p.risks.take(k),
        u,
        currency,
    ) == (if home(u, p.risks.len()) < k {
        p.risks[home(u, p.risks.len())].balance(u, currency)
    } else {
        0
    }) by {
        lemma_balance_at_home(p.risks, k, u, currency);
    }
}

proof fn lemma_balance_at_home(risks: Seq<RiskModel>, n: int, u: UserId, currency: Currency)
    requires
        sharded(risks),
        0 <= n <= risks.len(),
    ensures
        pipeline::balance_over(risks.take(n), u, currency) == (if home(u, risks.len()) < n {
            risks[home(u, risks.len())].balance(u, currency)
        } else {
            0
        }),
    decreases n,
{
    lemma_home(u, risks.len());
    if n > 0 {
        lemma_balance_at_home(risks, n - 1, u, currency);
        assert(risks.take(n).drop_last() =~= risks.take(n - 1));
        assert(risks.take(n).last() == risks[n - 1]);
        assert(risks[n - 1].users.contains_key(u) ==> n - 1 == home(u, risks.len()));
    }
}

/// A new exchange is in order and has no money.
pub proof fn law_fresh_exchange(
    config: ExchangeConfig,
    currency: Currency,
)
    requires
        config.risk_engines_num > 0,
        config.matching_engines_num > 0,
    ensures
        sound(pipeline::fresh(config)),
        total(pipeline::fresh(config), currency) == 0,
{
    let p = pipeline::fresh(config);
    lemma_empty_worths(p.risks, currency);
    lemma_empty_holds(p.routers, currency);
}

proof fn lemma_empty_worths(risks: Seq<RiskModel>, currency: Currency)
    requires
        forall|i: int|
            0 <= i < risks.len() ==> (#[trigger] risks[i]).users == Map::<UserId, Profile>::empty()
                && risks[i].fees == Map::<Currency, int>::empty(),
    ensures
        worths(risks, currency) == 0,
    decreases risks.len(),
{
    if risks.len() > 0 {
        assert(risks[risks.len() - 1] == risks.last());
        assert forall|i: int| 0 <= i < risks.drop_last().len() implies (
        #[trigger] risks.drop_last()[i]).users == Map::<UserId, Profile>::empty()
            && risks.drop_last()[i].fees == Map::<Currency, int>::empty() by {
            assert(risks.drop_last()[i] == risks[i]);
        }
        lemma_empty_worths(risks.drop_last(), currency);
    }
}

proof fn lemma_empty_holds(routers: Seq<RouterModel>, currency: Currency)
    requires
        forall|i: int|
            0 <= i < routers.len() ==> (#[trigger] routers[i]).books == Map::<
                SymbolId,
                BookModel,
            >::empty(),
    ensures
        holds(routers, currency) == 0,
    decreases routers.len(),
{
    if routers.len() > 0 {
        assert(routers[routers.len() - 1] == routers.last());
        assert forall|i: int| 0 <= i < routers.drop_last().len() implies (
        #[trigger] routers.drop_last()[i]).books == Map::<SymbolId, BookModel>::empty() by {
            assert(routers.drop_last()[i] == routers[i]);
        }
        lemma_empty_holds(routers.drop_last(), currency);
    }
}

/// A new symbol brings no money.
pub proof fn law_new_symbol_conserves(
    p: PipelineModel,
    spec: CoreSymbolSpecification,
    currency: Currency,
)
    requires
        sound(p),
        !p.risks[0].symbols.contains_key(spec.symbol_id),
    ensures
        sound(pipeline::with_symbol(p, spec)),
        total(pipeline::with_symbol(p, spec), currency) == total(p, currency),
{
    let p2 = pipeline::with_symbol(p, spec);
    lemma_same_worths(p.risks, p2.risks, currency);
    assert forall|i: int| 0 <= i < p2.risks.len() implies {
        &&& (#[trigger] p2.risks[i]).shard == i
        &&& p2.risks[i].mask == p2.risks.len() - 1
        &&& p2.risks[i].symbols == p2.risks[0].symbols
        &&& p2.risks[i].users.dom().finite()
    } by {
        assert(p.risks[i].symbols == p.risks[0].symbols);
    }
    assert forall|u: UserId| known(p2.risks).contains(u) == known(p.risks).contains(u) by {
        lemma_home(u, p.risks.len());
    }
    assert(known(p2.risks) =~= known(p.risks));
    assert forall|j: int| 0 <= j < p2.routers.len() implies {
        &&& (#[trigger] p2.routers[j]).shard == j
        &&& p2.routers[j].mask == p2.routers.len() - 1
        &&& sound_router(p2.routers[j], p2.risks[0].symbols, known(p2.risks))
        &&& sums::sum_map(p2.routers[j].books, held_in(currency)) == sums::sum_map(
            p.routers[j].books,
            held_in(currency),
        )
    } by {
        let r = p.routers[j];
        assert(r.shard == j && sound_router(r, p.risks[0].symbols, known(p.risks)));
        let b = BookModel { spec, asks: Seq::empty(), bids: Seq::empty() };
        assert(laws::book_held(b, currency) == 0);
        sums::lemma_sum_insert(r.books, held_in(currency), spec.symbol_id, b);
        let r2 = p2.routers[j];
        assert forall|s: SymbolId| #[trigger] r2.books.contains_key(s) implies {
            &&& p2.risks[0].symbols.contains_key(s)
            &&& r2.books[s].spec == p2.risks[0].symbols[s]
            &&& laws::sound_book(r2.books[s], known(p2.risks))
        } by {
            if s != spec.symbol_id || !r2.serves(s) {
                assert(r.books.contains_key(s));
            }
        }
    }
    lemma_same_holds(p.routers, p2.routers, currency);
}

proof fn lemma_same_worths(a: Seq<RiskModel>, b: Seq<RiskModel>, currency: Currency)
    requires
        a.len() == b.len(),
        forall|i: int|
            0 <= i < a.len() ==> (#[trigger] a[i]).users == b[i].users && a[i].fees == b[i].fees,
    ensures
        worths(a, currency) == worths(b, currency),
    decreases a.len(),
{
    if a.len() > 0 {
        assert(a[a.len() - 1] == a.last() && b[b.len() - 1] == b.last());
        assert forall|i: int| 0 <= i < a.drop_last().len() implies (
        #[trigger] a.drop_last()[i]).users == b.drop_last()[i].users && a.drop_last()[i].fees
            == b.drop_last()[i].fees by {
            assert(a.drop_last()[i] == a[i] && b.drop_last()[i] == b[i]);
        }
        lemma_same_worths(a.drop_last(), b.drop_last(), currency);
    }
}

proof fn lemma_same_holds(a: Seq<RouterModel>, b: Seq<RouterModel>, currency: Currency)
    requires
        a.len() == b.len(),
        forall|i: int|
            0 <= i < a.len() ==> sums::sum_map((#[trigger] b[i]).books, held_in(currency))
                == sums::sum_map(a[i].books, held_in(currency)),
    ensures
        holds(a, currency) == holds(b, currency),
    decreases a.len(),
{
    if a.len() > 0 {
        assert(a[a.len() - 1] == a.last() && b[b.len() - 1] == b.last());
        assert forall|i: int| 0 <= i < a.drop_last().len() implies sums::sum_map(
            (#[trigger] b.drop_last()[i]).books,
            held_in(currency),
        ) == sums::sum_map(a.drop_last()[i].books, held_in(currency)) by {
            assert(a.drop_last()[i] == a[i] && b.drop_last()[i] == b[i]);
        }
        lemma_same_holds(a.drop_last(), b.drop_last(), currency);
    }
}

/// What came into the exchange with some commands.
pub open spec fn came_in(
    p: PipelineModel,
    commands: Seq<OrderCommand>,
    currency: Currency,
) -> int
    decreases commands.len(),
{
    if commands.len() == 0 {
        0
    } else {
        came_in(p, commands.drop_last(), currency) + deposited(
            pipeline::run(p, commands.drop_last()),
            commands.last(),
            currency,
        )
    }
}

/// After any commands, free money, frozen money and fees are together what was there
/// before and what came in since.
pub proof fn law_total_is_what_came_in(
    p: PipelineModel,
    commands: Seq<OrderCommand>,
    currency: Currency,
)
    requires
        sound(p),
        forall|i: int| 0 <= i < commands.len() ==> (#[trigger] commands[i]).matcher_events@.len()
            == 0,
    ensures
        total(pipeline::run(p, commands), currency) == total(p, currency) + came_in(p, commands, currency),
        sound(pipeline::run(p, commands)),
    decreases commands.len(),
{
    if commands.len() > 0 {
        let rest = commands.drop_last();
        assert forall|i: int| 0 <= i < rest.len() implies (
        #[trigger] rest[i]).matcher_events@.len() == 0 by {
            assert(rest[i] == commands[i]);
        }
        law_total_is_what_came_in(p, rest, currency);
        assert(commands[commands.len() - 1] == commands.last());
        law_money_is_conserved(pipeline::run(p, rest), commands.last(), currency);
    }
}

} // verus!
