//! A command's way through the exchange: the shards of the ledger, the order books,
//! and the shards of the ledger again.
use vstd::prelude::*;

use crate::exchange::api;
use crate::exchange::api::{
    CommandResultCode, CoreSymbolSpecification, Currency, L2MarketData, MatcherTradeEvent,
    OrderAction, OrderCommand, OrderCommandType, Price, SymbolId, UserId,
};
use crate::exchange::book;
use crate::exchange::config::ExchangeConfig;
use crate::exchange::ledger;
use crate::exchange::ledger::RiskModel;
use crate::exchange::model::BookModel;
use crate::exchange::risk::RiskEngine;
use crate::exchange::router;
use crate::exchange::router::{MatchingEngineRouter, RouterModel};
use crate::exchange::state;
use crate::exchange::state::{MatchingEngineState, PipelineState, RiskEngineState};
use crate::math;

verus! {

/// All shards.
#[verifier::ext_equal]
pub struct PipelineModel {
    pub risks: Seq<RiskModel>,
    pub routers: Seq<RouterModel>,
    /// Whether snapshots have somewhere to go.
    pub keeps_snapshots: bool,
}

/// What is left to do with a command once it went through.
#[derive(Debug, Clone, Copy, PartialEq, Eq, Structural)]
pub enum Duty {
    /// Nothing: the answer is in the command.
    Report,
    /// The state is to be saved under the sequence number of the command, and
    /// [`persisted`] gives the answer.
    Persist,
}

/// The shards of the ledger before matching, one after the other.
pub open spec fn frozen(risks: Seq<RiskModel>, c: OrderCommand) -> (Seq<RiskModel>, OrderCommand)
    decreases risks.len(),
{
    if risks.len() == 0 {
        (risks, c)
    } else {
        let (before, c1) = frozen(risks.drop_last(), c);
        let step = ledger::pre_processed(risks.last(), c1);
        (before.push(step.risk), ledger::answered(c1, step))
    }
}

/// What comes of a command in the order books.
#[verifier::ext_equal]
pub struct Matching {
    pub routers: Seq<RouterModel>,
    pub code: CommandResultCode,
    pub action: OrderAction,
    pub events: Seq<MatcherTradeEvent>,
    pub fits: bool,
}

/// A command on its way through the books.
pub open spec fn at_books(
    c: OrderCommand,
    code: CommandResultCode,
    action: OrderAction,
) -> OrderCommand {
    OrderCommand { result_code: code, action, ..c }
}

/// The shards of books, one after the other.
pub open spec fn matched(routers: Seq<RouterModel>, c: OrderCommand) -> Matching
    decreases routers.len(),
{
    if routers.len() == 0 {
        Matching {
            routers,
            code: c.result_code,
            action: c.action,
            events: Seq::empty(),
            fits: true,
        }
    } else {
        let m = matched(routers.drop_last(), c);
        let step = router::routed(routers.last(), at_books(c, m.code, m.action));
        Matching {
            routers: m.routers.push(step.router),
            code: step.code,
            action: step.action,
            events: m.events + step.events,
            fits: m.fits && step.fits,
        }
    }
}

/// The shards of the ledger after matching.
pub open spec fn thawed(
    risks: Seq<RiskModel>,
    uid: UserId,
    symbol: SymbolId,
    action: OrderAction,
    events: Seq<MatcherTradeEvent>,
) -> Seq<RiskModel> {
    risks.map_values(|r: RiskModel| ledger::post_processed(r, uid, symbol, action, events))
}

pub open spec fn all_exact(risks: Seq<RiskModel>) -> bool {
    forall|i: int| 0 <= i < risks.len() ==> (#[trigger] risks[i]).exact
}

/// What a command does to the exchange.
#[verifier::ext_equal]
pub struct PipelineStep {
    pub pipeline: PipelineModel,
    pub code: CommandResultCode,
    pub reserve_price: Price,
    pub action: OrderAction,
    /// What is added to the events of the command.
    pub events: Seq<MatcherTradeEvent>,
    pub duty: Duty,
    /// The numbers that come up fit the machine.
    pub fits: bool,
}

/// A command that only concerns the keeping of the state.
pub open spec fn is_persist(command: OrderCommandType) -> bool {
    command == OrderCommandType::PersistStateMatching || command
        == OrderCommandType::PersistStateRisk
}

pub open spec fn handled(p: PipelineModel, c: OrderCommand) -> PipelineStep {
    let untouched = PipelineStep {
        pipeline: p,
        code: c.result_code,
        reserve_price: c.reserve_price,
        action: c.action,
        events: Seq::empty(),
        duty: Duty::Report,
        fits: true,
    };
    if is_persist(c.command) {
        if p.keeps_snapshots {
            PipelineStep { duty: Duty::Persist, ..untouched }
        } else {
            PipelineStep {
                code: CommandResultCode::StatePersistMatchingEngineFailed,
                ..untouched
            }
        }
    } else if c.command == OrderCommandType::ShutdownSignal {
        if p.keeps_snapshots {
            PipelineStep { duty: Duty::Persist, ..untouched }
        } else {
            PipelineStep { code: CommandResultCode::Success, ..untouched }
        }
    } else {
        let (risks, c1) = frozen(p.risks, c);
        let m = matched(p.routers, c1);
        let risks2 = thawed(risks, c.uid, c.symbol, m.action, c.matcher_events@ + m.events);
        PipelineStep {
            pipeline: PipelineModel { risks: risks2, routers: m.routers, ..p },
            code: m.code,
            reserve_price: c1.reserve_price,
            action: m.action,
            events: m.events,
            duty: Duty::Report,
            fits: all_exact(risks) && m.fits && all_exact(risks2),
        }
    }
}

/// The exchange after some commands.
pub open spec fn run(p: PipelineModel, commands: Seq<OrderCommand>) -> PipelineModel
    decreases commands.len(),
{
    if commands.len() == 0 {
        p
    } else {
        handled(run(p, commands.drop_last()), commands.last()).pipeline
    }
}

/// Whether the machine can take some commands through the exchange.
pub open spec fn run_fits(p: PipelineModel, commands: Seq<OrderCommand>) -> bool {
    forall|i: int|
        0 <= i < commands.len() ==> handled(run(p, commands.take(i)), #[trigger] commands[i]).fits
}

/// A state that covers the first commands, and the others replayed on top of it, give
/// what all commands give.
pub proof fn law_replay_on_top(
    p: PipelineModel,
    first: Seq<OrderCommand>,
    others: Seq<OrderCommand>,
)
    ensures
        run(run(p, first), others) == run(p, first + others),
    decreases others.len(),
{
    if others.len() == 0 {
        assert(first + others =~= first);
    } else {
        assert((first + others).drop_last() =~= first + others.drop_last());
        law_replay_on_top(p, first, others.drop_last());
    }
}

/// A command that went through.
pub open spec fn told(old: OrderCommand, new: OrderCommand, step: PipelineStep) -> bool {
    &&& api::same_request(old, new)
    &&& new.reserve_price == step.reserve_price
    &&& new.result_code == step.code
    &&& new.action == step.action
    &&& new.matcher_events@ == old.matcher_events@ + step.events
}

/// The answer to a command that had the state saved: whether that worked.
pub fn persisted(cmd: &mut OrderCommand, saved: bool)
    ensures
        *final(cmd) == (OrderCommand {
            result_code: if saved {
                CommandResultCode::Success
            } else {
                CommandResultCode::StatePersistMatchingEngineFailed
            },
            ..*old(cmd)
        }),
{
    cmd.result_code = if saved {
        CommandResultCode::Success
    } else {
        CommandResultCode::StatePersistMatchingEngineFailed
    };
}

pub open spec fn risk_models(v: Seq<RiskEngine>) -> Seq<RiskModel> {
    v.map_values(|e: RiskEngine| e@)
}

pub open spec fn router_models(v: Seq<MatchingEngineRouter>) -> Seq<RouterModel> {
    v.map_values(|e: MatchingEngineRouter| e@)
}

pub struct Pipeline {
    risk_engines: Vec<RiskEngine>,
    matching_engines: Vec<MatchingEngineRouter>,
    keeps_snapshots: bool,
}

impl View for Pipeline {
    type V = PipelineModel;

    closed spec fn view(&self) -> PipelineModel {
        PipelineModel {
            risks: risk_models(self.risk_engines@),
            routers: router_models(self.matching_engines@),
            keeps_snapshots: self.keeps_snapshots,
        }
    }
}

/// A number of shards: none, or a power of two.
pub open spec fn shards_ok(n: usize) -> bool {
    n == 0 || math::power_of_two(n as int)
}

/// An exchange without symbols and users.
pub open spec fn fresh(config: ExchangeConfig) -> PipelineModel {
    PipelineModel {
        risks: Seq::new(
            config.risk_engines_num as nat,
            |i: int|
                RiskModel {
                    shard: i as u64,
                    mask: (config.risk_engines_num - 1) as u64,
                    users: Map::empty(),
                    symbols: Map::empty(),
                    fees: Map::empty(),
                    exact: true,
                },
        ),
        routers: Seq::new(
            config.matching_engines_num as nat,
            |i: int|
                RouterModel {
                    shard: i as u64,
                    mask: (config.matching_engines_num - 1) as u64,
                    books: Map::empty(),
                },
        ),
        keeps_snapshots: false,
    }
}

/// The exchange once a symbol was registered.
pub open spec fn with_symbol(p: PipelineModel, spec: CoreSymbolSpecification) -> PipelineModel {
    PipelineModel {
        risks: p.risks.map_values(
            |r: RiskModel| RiskModel { symbols: r.symbols.insert(spec.symbol_id, spec), ..r },
        ),
        routers: p.routers.map_values(|r: RouterModel| router::opened(r, spec)),
        ..p
    }
}

/// Free money of a user, over all shards.
pub open spec fn balance_over(risks: Seq<RiskModel>, uid: UserId, currency: Currency) -> int
    decreases risks.len(),
{
    if risks.len() == 0 {
        0
    } else {
        balance_over(risks.drop_last(), uid, currency) + risks.last().balance(uid, currency)
    }
}

/// Fees taken, over all shards.
pub open spec fn fees_over(risks: Seq<RiskModel>, currency: Currency) -> int
    decreases risks.len(),
{
    if risks.len() == 0 {
        0
    } else {
        fees_over(risks.drop_last(), currency) + ledger::amount(risks.last().fees, currency)
    }
}

/// Whether the machine can form the sum of a user's money over the shards.
pub open spec fn balance_fits(risks: Seq<RiskModel>, uid: UserId, currency: Currency) -> bool {
    forall|k: int|
        0 <= k <= risks.len() ==> ledger::fits(
            balance_over(#[trigger] risks.take(k), uid, currency),
        )
}

/// Whether the machine can form the sum of the fees over the shards.
pub open spec fn fees_fit(risks: Seq<RiskModel>, currency: Currency) -> bool {
    forall|k: int|
        0 <= k <= risks.len() ==> ledger::fits(fees_over(#[trigger] risks.take(k), currency))
}

/// The book of a symbol, in the first shard that has one.
pub open spec fn book_of(routers: Seq<RouterModel>, symbol: SymbolId) -> Option<BookModel>
    decreases routers.len(),
{
    if routers.len() == 0 {
        None
    } else if routers.first().books.contains_key(symbol) {
        Some(routers.first().books[symbol])
    } else {
        book_of(routers.drop_first(), symbol)
    }
}

impl Pipeline {
    pub closed spec fn wf(&self) -> bool {
        &&& forall|i: int|
            0 <= i < self.risk_engines@.len() ==> (#[trigger] self.risk_engines@[i]).wf()
        &&& forall|i: int|
            0 <= i < self.matching_engines@.len() ==> (#[trigger] self.matching_engines@[i]).wf()
    }

    pub fn new(config: &ExchangeConfig) -> (r: Pipeline)
        requires
            shards_ok(config.risk_engines_num),
            shards_ok(config.matching_engines_num),
        ensures
            r.wf(),
            r@ == fresh(*config),
    {
        let mut risk_engines: Vec<RiskEngine> = Vec::new();
        let mut i: usize = 0;
        while i < config.risk_engines_num
            invariant
                shards_ok(config.risk_engines_num),
                i <= config.risk_engines_num,
                risk_engines@.len() == i,
                forall|k: int|
                    0 <= k < i ==> (#[trigger] risk_engines@[k]).wf() && risk_engines@[k]@ == fresh(
                        *config,
                    ).risks[k],
            decreases config.risk_engines_num - i,
        {
            risk_engines.push(RiskEngine::new(i, config.risk_engines_num));
            i = i + 1;
        }
        let mut matching_engines: Vec<MatchingEngineRouter> = Vec::new();
        let mut j: usize = 0;
        while j < config.matching_engines_num
            invariant
                shards_ok(config.matching_engines_num),
                j <= config.matching_engines_num,
                matching_engines@.len() == j,
                forall|k: int|
                    0 <= k < j ==> (#[trigger] matching_engines@[k]).wf() && matching_engines@[k]@
                        == fresh(*config).routers[k],
            decreases config.matching_engines_num - j,
        {
            matching_engines.push(MatchingEngineRouter::new(j, config.matching_engines_num));
            j = j + 1;
        }
        let r = Pipeline { risk_engines, matching_engines, keeps_snapshots: false };
        assert(r@.risks =~= fresh(*config).risks);
        assert(r@.routers =~= fresh(*config).routers);
        r
    }

    /// The best levels of a symbol, where it has a book.
    pub fn l2_depth(&self, symbol: SymbolId, depth: usize) -> (r: Option<L2MarketData>)
        requires
            self.wf(),
        ensures
            r.is_some() == book_of(self@.routers, symbol).is_some(),
            r matches Some(l2) ==> {
                let b = book_of(self@.routers, symbol).unwrap();
                &&& book::shows(b.asks, depth, l2.ask_prices@, l2.ask_volumes@, l2.ask_order_counts@)
                &&& book::shows(b.bids, depth, l2.bid_prices@, l2.bid_volumes@, l2.bid_order_counts@)
            },
    {
        let mut i: usize = 0;
        proof {
            assert(self@.routers.skip(0) =~= self@.routers);
        }
        while i < self.matching_engines.len()
            invariant
                self.wf(),
                i <= self.matching_engines@.len(),
                self.matching_engines@.len() == self@.routers.len(),
                book_of(self@.routers, symbol) == book_of(self@.routers.skip(i as int), symbol),
            decreases self.matching_engines@.len() - i,
        {
            proof {
                assert(self@.routers.skip(i as int).first() == self.matching_engines@[i as int]@);
                assert(self@.routers.skip(i as int).drop_first() =~= self@.routers.skip(i + 1));
            }
            match self.matching_engines[i].book(symbol) {
                Some(b) => {
                    return Some(b.get_l2_data(depth));
                },
                None => {},
            }
            i = i + 1;
        }
        None
    }

    /// From now on, snapshots have somewhere to go.
    pub fn set_snapshot_sink(&mut self)
        requires
            old(self).wf(),
        ensures
            final(self).wf(),
            final(self)@ == (PipelineModel { keeps_snapshots: true, ..old(self)@ }),
    {
        self.keeps_snapshots = true;
    }

    /// The exchange as lists.
    pub fn serialize_state(&self) -> (r: PipelineState)
        requires
            self.wf(),
        ensures
            state::pipeline_of(r) == state::unattached(self@),
            state::state_ok(r),
    {
        let mut risk_engines: Vec<RiskEngineState> = Vec::new();
        let mut i: usize = 0;
        while i < self.risk_engines.len()
            invariant
                self.wf(),
                i <= self.risk_engines@.len(),
                risk_engines@.len() == i,
                forall|j: int|
                    0 <= j < i ==> state::risk_of(#[trigger] risk_engines@[j])
                        == self.risk_engines@[j]@,
            decreases self.risk_engines@.len() - i,
        {
            risk_engines.push(self.risk_engines[i].serialize_state());
            i = i + 1;
        }
        let mut matching_engines: Vec<MatchingEngineState> = Vec::new();
        let mut k: usize = 0;
        while k < self.matching_engines.len()
            invariant
                self.wf(),
                k <= self.matching_engines@.len(),
                matching_engines@.len() == k,
                forall|j: int|
                    0 <= j < k ==> state::router_of(#[trigger] matching_engines@[j])
                        == self.matching_engines@[j]@ && state::router_ok(matching_engines@[j]),
            decreases self.matching_engines@.len() - k,
        {
            matching_engines.push(self.matching_engines[k].serialize_state());
            k = k + 1;
        }
        let r = PipelineState { risk_engines, matching_engines };
        proof {
            assert(state::pipeline_of(r).risks =~= self@.risks);
            assert(state::pipeline_of(r).routers =~= self@.routers);
        }
        r
    }

    /// The exchange that was saved, or `None` where the lists cannot be those of one.
    pub fn from_state(s: &PipelineState) -> (r: Option<Pipeline>)
        ensures
            r.is_some() == state::state_ok(*s),
            r matches Some(p) ==> p.wf() && p@ == state::pipeline_of(*s),
    {
        let mut risk_engines: Vec<RiskEngine> = Vec::new();
        let mut i: usize = 0;
        while i < s.risk_engines.len()
            invariant
                i <= s.risk_engines@.len(),
                risk_engines@.len() == i,
                forall|j: int|
                    0 <= j < i ==> (#[trigger] risk_engines@[j]).wf() && risk_engines@[j]@
                        == state::risk_of(s.risk_engines@[j]),
            decreases s.risk_engines@.len() - i,
        {
            risk_engines.push(RiskEngine::from_state(&s.risk_engines[i]));
            i = i + 1;
        }
        let mut matching_engines: Vec<MatchingEngineRouter> = Vec::new();
        let mut k: usize = 0;
        while k < s.matching_engines.len()
            invariant
                k <= s.matching_engines@.len(),
                matching_engines@.len() == k,
                forall|j: int|
                    0 <= j < k ==> (#[trigger] matching_engines@[j]).wf() && matching_engines@[j]@
                        == state::router_of(s.matching_engines@[j]),
                forall|j: int| 0 <= j < k ==> state::router_ok(#[trigger] s.matching_engines@[j]),
            decreases s.matching_engines@.len() - k,
        {
            match MatchingEngineRouter::from_state(&s.matching_engines[k]) {
                Some(e) => {
                    matching_engines.push(e);
                },
                None => {
                    assert(!state::router_ok(s.matching_engines@[k as int]));
                    return None;
                },
            }
            k = k + 1;
        }
        let p = Pipeline { risk_engines, matching_engines, keeps_snapshots: false };
        proof {
            assert(p@.risks =~= state::pipeline_of(*s).risks);
            assert(p@.routers =~= state::pipeline_of(*s).routers);
        }
        Some(p)
    }

    /// Registers a symbol with all shards.
    pub fn add_symbol(&mut self, spec: CoreSymbolSpecification)
        requires
            old(self).wf(),
        ensures
            final(self).wf(),
            final(self)@ == with_symbol(old(self)@, spec),
    {
        let ghost p = self@;
        let mut i: usize = 0;
        while i < self.risk_engines.len()
            invariant
                self.wf(),
                p == old(self)@,
                self.risk_engines@.len() == p.risks.len(),
                i <= self.risk_engines@.len(),
                self@.routers == p.routers,
                self@.keeps_snapshots == p.keeps_snapshots,
                forall|k: int|
                    0 <= k < i ==> (#[trigger] self@.risks[k]) == with_symbol(p, spec).risks[k],
                forall|k: int|
                    i <= k < p.risks.len() ==> (#[trigger] self@.risks[k]) == p.risks[k],
            decreases self.risk_engines@.len() - i,
        {
            let ghost before = self@;
            assert(before.risks[i as int] == p.risks[i as int]);
            let e = &mut self.risk_engines[i];
            e.add_symbol(spec);
            assert(self@.risks =~= before.risks.update(
                i as int,
                with_symbol(p, spec).risks[i as int],
            ));
            i = i + 1;
        }
        let ghost mid = self@;
        assert(mid.risks =~= with_symbol(p, spec).risks);
        let mut j: usize = 0;
        while j < self.matching_engines.len()
            invariant
                self.wf(),
                self.matching_engines@.len() == p.routers.len(),
                j <= self.matching_engines@.len(),
                self@.risks == mid.risks,
                self@.keeps_snapshots == p.keeps_snapshots,
                forall|k: int|
                    0 <= k < j ==> (#[trigger] self@.routers[k]) == with_symbol(p, spec).routers[k],
                forall|k: int|
                    j <= k < p.routers.len() ==> (#[trigger] self@.routers[k]) == p.routers[k],
            decreases self.matching_engines@.len() - j,
        {
            let ghost before = self@;
            assert(before.routers[j as int] == p.routers[j as int]);
            let e = &mut self.matching_engines[j];
            e.add_symbol(spec);
            assert(self@.routers =~= before.routers.update(
                j as int,
                with_symbol(p, spec).routers[j as int],
            ));
            j = j + 1;
        }
        assert(self@.routers =~= with_symbol(p, spec).routers);
    }

    /// Free money of a user. The sum over the shards fits.
    pub fn balance_of(&self, uid: UserId, currency: Currency) -> (r: i64)
        requires
            self.wf(),
            balance_fits(self@.risks, uid, currency),
        ensures
            r == balance_over(self@.risks, uid, currency),
    {
        let mut sum: i64 = 0;
        let mut i: usize = 0;
        proof {
            assert(self@.risks.take(self@.risks.len() as int) =~= self@.risks);
        }
        while i < self.risk_engines.len()
            invariant
                self.wf(),
                i <= self.risk_engines@.len(),
                self.risk_engines@.len() == self@.risks.len(),
                sum == balance_over(self@.risks.take(i as int), uid, currency),
                balance_fits(self@.risks, uid, currency),
            decreases self.risk_engines@.len() - i,
        {
            proof {
                assert(self@.risks.take(i + 1).drop_last() =~= self@.risks.take(i as int));
                assert(self@.risks.take(i + 1).last() == self.risk_engines@[i as int]@);
                assert(ledger::fits(balance_over(self@.risks.take(i + 1), uid, currency)));
            }
            sum = sum + self.risk_engines[i].balance_of(uid, currency);
            i = i + 1;
        }
        sum
    }

    /// Fees taken so far. The sum over the shards fits.
    pub fn fees_collected(&self, currency: Currency) -> (r: i64)
        requires
            self.wf(),
            fees_fit(self@.risks, currency),
        ensures
            r == fees_over(self@.risks, currency),
    {
        let mut sum: i64 = 0;
        let mut i: usize = 0;
        proof {
            assert(self@.risks.take(self@.risks.len() as int) =~= self@.risks);
        }
        while i < self.risk_engines.len()
            invariant
                self.wf(),
                i <= self.risk_engines@.len(),
                self.risk_engines@.len() == self@.risks.len(),
                sum == fees_over(self@.risks.take(i as int), currency),
                fees_fit(self@.risks, currency),
            decreases self.risk_engines@.len() - i,
        {
            proof {
                assert(self@.risks.take(i + 1).drop_last() =~= self@.risks.take(i as int));
                assert(self@.risks.take(i + 1).last() == self.risk_engines@[i as int]@);
                assert(ledger::fits(fees_over(self@.risks.take(i + 1), currency)));
            }
            sum = sum + self.risk_engines[i].fees_collected(currency);
            i = i + 1;
        }
        sum
    }

    /// The first stage: all shards of the ledger see the command.
    fn freeze(&mut self, cmd: &mut OrderCommand)
        requires
            old(self).wf(),
            all_exact(frozen(old(self)@.risks, *old(cmd)).0),
        ensures
            final(self).wf(),
            final(self)@ == (PipelineModel {
                risks: frozen(old(self)@.risks, *old(cmd)).0,
                ..old(self)@
            }),
            *final(cmd) == frozen(old(self)@.risks, *old(cmd)).1,
    {
        let ghost p = self@;
        let ghost c = *cmd;
        let ghost risks = p.risks;
        let mut i: usize = 0;
        proof {
            assert(risks.take(risks.len() as int) =~= risks);
        }
        while i < self.risk_engines.len()
            invariant
                self.wf(),
                risks == p.risks,
                self.risk_engines@.len() == risks.len(),
                i <= risks.len(),
                self@.routers == p.routers,
                self@.keeps_snapshots == p.keeps_snapshots,
                frozen(risks.take(i as int), c).0.len() == i,
                forall|k: int|
                    0 <= k < i ==> (#[trigger] self@.risks[k]) == frozen(
                        risks.take(i as int),
                        c,
                    ).0[k],
                forall|k: int| i <= k < risks.len() ==> (#[trigger] self@.risks[k]) == risks[k],
                *cmd == frozen(risks.take(i as int), c).1,
                all_exact(frozen(risks.take(risks.len() as int), c).0),
            decreases risks.len() - i,
        {
            let ghost before = self@;
            let ghost done = frozen(risks.take(i + 1), c).0;
            proof {
                assert(risks.take(i + 1).drop_last() =~= risks.take(i as int));
                lemma_frozen_exact(risks, c, i + 1);
                assert(before.risks[i as int] == risks[i as int]);
                assert(done[i as int].exact);
            }
            let e = &mut self.risk_engines[i];
            e.pre_process(cmd);
            assert(self@.risks =~= before.risks.update(i as int, done[i as int]));
            i = i + 1;
        }
        assert(self@.risks =~= frozen(risks, c).0);
    }

    /// The second stage: the books see the command.
    fn run_books(&mut self, cmd: &mut OrderCommand)
        requires
            old(self).wf(),
            matched(old(self)@.routers, *old(cmd)).fits,
        ensures
            final(self).wf(),
            final(self)@ == (PipelineModel {
                routers: matched(old(self)@.routers, *old(cmd)).routers,
                ..old(self)@
            }),
            api::same_request(*old(cmd), *final(cmd)),
            final(cmd).reserve_price == old(cmd).reserve_price,
            final(cmd).result_code == matched(old(self)@.routers, *old(cmd)).code,
            final(cmd).action == matched(old(self)@.routers, *old(cmd)).action,
            final(cmd).matcher_events@ == old(cmd).matcher_events@ + matched(
                old(self)@.routers,
                *old(cmd),
            ).events,
    {
        let ghost p = self@;
        let ghost c = *cmd;
        let ghost routers = p.routers;
        let mut i: usize = 0;
        proof {
            assert(routers.take(routers.len() as int) =~= routers);
            assert(c.matcher_events@ + Seq::<MatcherTradeEvent>::empty() =~= c.matcher_events@);
        }
        while i < self.matching_engines.len()
            invariant
                self.wf(),
                routers == p.routers,
                self.matching_engines@.len() == routers.len(),
                i <= routers.len(),
                self@.risks == p.risks,
                self@.keeps_snapshots == p.keeps_snapshots,
                matched(routers.take(i as int), c).routers.len() == i,
                forall|k: int|
                    0 <= k < i ==> (#[trigger] self@.routers[k]) == matched(
                        routers.take(i as int),
                        c,
                    ).routers[k],
                forall|k: int|
                    i <= k < routers.len() ==> (#[trigger] self@.routers[k]) == routers[k],
                api::same_request(c, *cmd),
                cmd.reserve_price == c.reserve_price,
                cmd.result_code == matched(routers.take(i as int), c).code,
                cmd.action == matched(routers.take(i as int), c).action,
                cmd.matcher_events@ == c.matcher_events@ + matched(
                    routers.take(i as int),
                    c,
                ).events,
                matched(routers.take(routers.len() as int), c).fits,
            decreases routers.len() - i,
        {
            let ghost before = self@;
            let ghost m = matched(routers.take(i as int), c);
            let ghost seen = at_books(c, m.code, m.action);
            let ghost step = router::routed(routers[i as int], seen);
            proof {
                assert(routers.take(i + 1).drop_last() =~= routers.take(i as int));
                lemma_matched_fits(routers, c, i + 1);
                assert(before.routers[i as int] == routers[i as int]);
                lemma_router_sees(routers[i as int], *cmd, seen);
            }
            let e = &mut self.matching_engines[i];
            e.process_order(cmd);
            proof {
                assert(self@.routers =~= before.routers.update(i as int, step.router));
                assert((c.matcher_events@ + m.events) + step.events =~= c.matcher_events@ + (
                m.events + step.events));
            }
            i = i + 1;
        }
        assert(self@.routers =~= matched(routers, c).routers);
    }

    /// The third stage: all shards of the ledger see what came of the command.
    fn thaw(&mut self, cmd: &OrderCommand)
        requires
            old(self).wf(),
            all_exact(
                thawed(
                    old(self)@.risks,
                    cmd.uid,
                    cmd.symbol,
                    cmd.action,
                    cmd.matcher_events@,
                ),
            ),
        ensures
            final(self).wf(),
            final(self)@ == (PipelineModel {
                risks: thawed(
                    old(self)@.risks,
                    cmd.uid,
                    cmd.symbol,
                    cmd.action,
                    cmd.matcher_events@,
                ),
                ..old(self)@
            }),
    {
        let ghost p = self@;
        let ghost done = thawed(p.risks, cmd.uid, cmd.symbol, cmd.action, cmd.matcher_events@);
        let mut i: usize = 0;
        while i < self.risk_engines.len()
            invariant
                self.wf(),
                self.risk_engines@.len() == p.risks.len(),
                i <= p.risks.len(),
                self@.routers == p.routers,
                self@.keeps_snapshots == p.keeps_snapshots,
                done == thawed(p.risks, cmd.uid, cmd.symbol, cmd.action, cmd.matcher_events@),
                all_exact(done),
                forall|k: int| 0 <= k < i ==> (#[trigger] self@.risks[k]) == done[k],
                forall|k: int|
                    i <= k < p.risks.len() ==> (#[trigger] self@.risks[k]) == p.risks[k],
            decreases p.risks.len() - i,
        {
            let ghost before = self@;
            proof {
                assert(before.risks[i as int] == p.risks[i as int]);
                assert(done[i as int].exact);
            }
            let e = &mut self.risk_engines[i];
            e.post_process(cmd);
            assert(self@.risks =~= before.risks.update(i as int, done[i as int]));
            i = i + 1;
        }
        assert(self@.risks =~= done);
    }

    /// Has the state saved, where there is somewhere to save it to.
    fn persist_state(&self, cmd: &mut OrderCommand) -> (duty: Duty)
        ensures
            duty == (if self@.keeps_snapshots {
                Duty::Persist
            } else {
                Duty::Report
            }),
            *final(cmd) == (OrderCommand {
                result_code: if self@.keeps_snapshots {
                    old(cmd).result_code
                } else {
                    CommandResultCode::StatePersistMatchingEngineFailed
                },
                ..*old(cmd)
            }),
    {
        if self.keeps_snapshots {
            Duty::Persist
        } else {
            cmd.result_code = CommandResultCode::StatePersistMatchingEngineFailed;
            Duty::Report
        }
    }

    /// Takes a command through the exchange.
    pub fn handle_event(&mut self, cmd: &mut OrderCommand) -> (duty: Duty)
        requires
            old(self).wf(),
            handled(old(self)@, *old(cmd)).fits,
        ensures
            final(self).wf(),
            final(self)@ == handled(old(self)@, *old(cmd)).pipeline,
            told(*old(cmd), *final(cmd), handled(old(self)@, *old(cmd))),
            duty == handled(old(self)@, *old(cmd)).duty,
    {
        proof {
            assert(cmd.matcher_events@ + Seq::<MatcherTradeEvent>::empty() =~= cmd.matcher_events@);
        }
        match cmd.command {
            OrderCommandType::PersistStateMatching => {
                return self.persist_state(cmd);
            },
            OrderCommandType::PersistStateRisk => {
                return self.persist_state(cmd);
            },
            OrderCommandType::ShutdownSignal => {
                if self.keeps_snapshots {
                    return Duty::Persist;
                }
                cmd.result_code = CommandResultCode::Success;
                return Duty::Report;
            },
            _ => {},
        }
        let ghost c = *cmd;
        let ghost p = self@;
        proof {
            lemma_frozen_request(p.risks, c);
        }
        self.freeze(cmd);
        self.run_books(cmd);
        self.thaw(cmd);
        Duty::Report
    }
}

/// A book only looks at what is asked and at the state so far.
proof fn lemma_router_sees(r: RouterModel, a: OrderCommand, b: OrderCommand)
    requires
        api::same_request(a, b),
        a.reserve_price == b.reserve_price,
        a.result_code == b.result_code,
        a.action == b.action,
    ensures
        router::routed(r, a) == router::routed(r, b),
{
    reveal(router::routed);
}

/// The stages of the ledger leave the request and its events alone.
proof fn lemma_frozen_request(risks: Seq<RiskModel>, c: OrderCommand)
    ensures
        api::same_request(frozen(risks, c).1, c),
        frozen(risks, c).1.action == c.action,
        frozen(risks, c).1.matcher_events == c.matcher_events,
        frozen(risks, c).0.len() == risks.len(),
    decreases risks.len(),
{
    if risks.len() > 0 {
        lemma_frozen_request(risks.drop_last(), c);
    }
}

/// What fits at the end fitted on the way.
proof fn lemma_frozen_exact(risks: Seq<RiskModel>, c: OrderCommand, i: int)
    requires
        0 <= i <= risks.len(),
        all_exact(frozen(risks.take(risks.len() as int), c).0),
    ensures
        all_exact(frozen(risks.take(i), c).0),
        frozen(risks.take(i), c).0.len() == i,
    decreases risks.len() - i,
{
    lemma_frozen_request(risks.take(i), c);
    if i < risks.len() {
        lemma_frozen_exact(risks, c, i + 1);
        assert(risks.take(i + 1).drop_last() =~= risks.take(i));
        let more = frozen(risks.take(i + 1), c).0;
        let less = frozen(risks.take(i), c).0;
        assert forall|k: int| 0 <= k < less.len() implies (#[trigger] less[k]).exact by {
            assert(more[k] == less[k]);
        }
    }
}

proof fn lemma_matched_fits(routers: Seq<RouterModel>, c: OrderCommand, i: int)
    requires
        0 <= i <= routers.len(),
        matched(routers.take(routers.len() as int), c).fits,
    ensures
        matched(routers.take(i), c).fits,
    decreases routers.len() - i,
{
    if i < routers.len() {
        lemma_matched_fits(routers, c, i + 1);
        assert(routers.take(i + 1).drop_last() =~= routers.take(i));
    }
}

} // verus!
