//! What an exchange saves of itself: plain lists, and the models that they stand for.
use vstd::prelude::*;

use crate::exchange::api::{
    CoreSymbolSpecification, Currency, OrderCommand, Price, SymbolId, UserId,
};
use crate::exchange::config::ExchangeConfig;
use crate::exchange::ledger::{Profile, RiskModel};
use crate::exchange::model;
use crate::exchange::model::{BookModel, DirectOrder};
use crate::exchange::pipeline;
use crate::exchange::pipeline::PipelineModel;
use crate::exchange::router::RouterModel;
use crate::exchange::users;
use crate::store::listing;

verus! {

/// A saved user.
#[derive(Debug)]
pub struct UserState {
    pub uid: UserId,
    /// The transaction seen last.
    pub last_tx: i64,
    pub accounts: Vec<(Currency, i64)>,
}

/// A saved shard of the ledger.
#[derive(Debug)]
pub struct RiskEngineState {
    pub shard_id: u64,
    pub shard_mask: u64,
    pub users: Vec<UserState>,
    pub symbols: Vec<(SymbolId, CoreSymbolSpecification)>,
    pub fees_collected: Vec<(Currency, i64)>,
}

/// A saved book: its orders, best first.
#[derive(Debug)]
pub struct OrderBookState {
    pub symbol_spec: CoreSymbolSpecification,
    pub asks: Vec<DirectOrder>,
    pub bids: Vec<DirectOrder>,
}

/// A saved shard of books.
#[derive(Debug)]
pub struct MatchingEngineState {
    pub shard_id: u64,
    pub shard_mask: u64,
    pub order_books: Vec<(SymbolId, OrderBookState)>,
}

#[derive(Debug)]
pub struct PipelineState {
    pub risk_engines: Vec<RiskEngineState>,
    pub matching_engines: Vec<MatchingEngineState>,
}

#[derive(Debug)]
pub struct ExchangeState {
    pub config: ExchangeConfig,
    pub pipeline_state: PipelineState,
}

/// The amounts that a list stands for.
pub open spec fn amounts_of(s: Seq<(Currency, i64)>) -> Map<Currency, int> {
    users::numbers(listing::map_of(s))
}

pub open spec fn profile_of(u: UserState) -> Profile {
    Profile { last_tx: u.last_tx as int, accounts: amounts_of(u.accounts@) }
}

/// The entries that a list of users stands for.
pub open spec fn user_entries(s: Seq<UserState>) -> Seq<(UserId, Profile)> {
    s.map_values(|u: UserState| (u.uid, profile_of(u)))
}

pub open spec fn users_of(s: Seq<UserState>) -> Map<UserId, Profile> {
    listing::map_of(user_entries(s))
}

/// The shard of the ledger that a saved one stands for.
pub open spec fn risk_of(s: RiskEngineState) -> RiskModel {
    RiskModel {
        shard: s.shard_id,
        mask: s.shard_mask,
        users: users_of(s.users@),
        symbols: listing::map_of(s.symbols@),
        fees: amounts_of(s.fees_collected@),
        exact: true,
    }
}

/// The book that a saved one stands for.
pub open spec fn book_of(s: OrderBookState) -> BookModel {
    BookModel { spec: s.symbol_spec, asks: s.asks@, bids: s.bids@ }
}

/// Whether the machine can count what is wanted at each price.
pub open spec fn volumes_fit(q: Seq<DirectOrder>) -> bool {
    forall|p: Price| #[trigger] model::volume_at(q, p) <= i64::MAX
}

/// Whether a saved book can be that of an exchange.
pub open spec fn book_ok(s: OrderBookState) -> bool {
    &&& model::orderly(book_of(s))
    &&& volumes_fit(s.asks@)
    &&& volumes_fit(s.bids@)
}

/// The entries that a list of books stands for.
pub open spec fn book_entries(s: Seq<(SymbolId, OrderBookState)>) -> Seq<(SymbolId, BookModel)> {
    s.map_values(|e: (SymbolId, OrderBookState)| (e.0, book_of(e.1)))
}

/// The shard of books that a saved one stands for.
pub open spec fn router_of(s: MatchingEngineState) -> RouterModel {
    RouterModel {
        shard: s.shard_id,
        mask: s.shard_mask,
        books: listing::map_of(book_entries(s.order_books@)),
    }
}

/// Whether a saved shard of books can be that of an exchange.
pub open spec fn router_ok(s: MatchingEngineState) -> bool {
    forall|i: int| 0 <= i < s.order_books@.len() ==> book_ok((#[trigger] s.order_books@[i]).1)
}

/// An exchange without the place that its snapshots go to.
pub open spec fn unattached(p: PipelineModel) -> PipelineModel {
    PipelineModel { keeps_snapshots: false, ..p }
}

/// The exchange that a saved one stands for. Where snapshots go is not saved.
pub open spec fn pipeline_of(s: PipelineState) -> PipelineModel {
    PipelineModel {
        risks: s.risk_engines@.map_values(|e: RiskEngineState| risk_of(e)),
        routers: s.matching_engines@.map_values(|e: MatchingEngineState| router_of(e)),
        keeps_snapshots: false,
    }
}

/// Whether a saved state can be that of an exchange: each list of resting orders is one
/// that a book can hold, the best price first, each id once and each size open. What an
/// exchange saves is always of this kind. A book with other lists could not keep what its
/// operations rely on, so they are refused.
pub open spec fn state_ok(s: PipelineState) -> bool {
    forall|i: int|
        0 <= i < s.matching_engines@.len() ==> router_ok(#[trigger] s.matching_engines@[i])
}

proof fn lemma_unattached_runs(p: PipelineModel, commands: Seq<OrderCommand>)
    ensures
        unattached(pipeline::run(unattached(p), commands)) == unattached(
            pipeline::run(p, commands),
        ),
    decreases commands.len(),
{
    if commands.len() > 0 {
        lemma_unattached_runs(p, commands.drop_last());
    }
}

/// Recovery is exact: the state that was saved after some commands, with the commands
/// since then replayed on top of it, is the state after all commands.
pub proof fn law_recovery(
    p: PipelineModel,
    covered: Seq<OrderCommand>,
    s: PipelineState,
    since: Seq<OrderCommand>,
)
    requires
        pipeline_of(s) == unattached(pipeline::run(p, covered)),
    ensures
        unattached(pipeline::run(pipeline_of(s), since)) == unattached(
            pipeline::run(p, covered + since),
        ),
{
    lemma_unattached_runs(pipeline::run(p, covered), since);
    pipeline::law_replay_on_top(p, covered, since);
}

} // verus!
