//! What an engine saves of itself.
use vstd::prelude::*;

use crate::engine::laws;
use crate::engine::lemmas;
use crate::engine::model;
use crate::engine::model::{EngineModel, PendingStop};
use crate::matching::model::BookModel;
use crate::matching::saved as saved_book;
use crate::matching::saved::BookSnapshot;
use crate::risk::saved as saved_ledger;
use crate::risk::saved::RiskSnapshot;
use crate::store::listing;
use crate::types::command::CommandEnvelope;
use crate::types::ids::{SeqNo, SymbolId};
use crate::types::numeric::Price;
use crate::types::symbol::SymbolSpec;

verus! {

/// Everything that survives a restart. Tables are listed by the number of the symbol.
#[derive(Debug)]
pub struct EngineSnapshot {
    pub risk: RiskSnapshot,
    pub books: Vec<(u32, BookSnapshot)>,
    pub symbols: Vec<(u32, SymbolSpec)>,
    pub mark_prices: Vec<(u32, Price)>,
    pub pending_stops: Vec<(u32, Vec<PendingStop>)>,
    pub next_seq_no: u64,
    pub next_order_id: u64,
    pub last_applied_seq: SeqNo,
}

/// What a map holds for symbols.
pub open spec fn by_symbol<V>(m: Map<u32, V>) -> Map<SymbolId, V> {
    Map::new(|s: SymbolId| m.contains_key(s.0), |s: SymbolId| m[s.0])
}

/// The stops that a map holds for symbols, none where nothing is stored.
pub open spec fn stops_in(m: Map<u32, Seq<PendingStop>>) -> Map<SymbolId, Seq<PendingStop>> {
    Map::new(
        |s: SymbolId| true,
        |s: SymbolId|
            if m.contains_key(s.0) {
                m[s.0]
            } else {
                Seq::empty()
            },
    )
}

/// The entries that a list of books stands for.
pub open spec fn book_entries(s: Seq<(u32, BookSnapshot)>) -> Seq<(u32, BookModel)> {
    s.map_values(|e: (u32, BookSnapshot)| (e.0, saved_book::book_of(e.1)))
}

/// The entries that a list of stops stands for.
pub open spec fn stop_entries(s: Seq<(u32, Vec<PendingStop>)>) -> Seq<(u32, Seq<PendingStop>)> {
    s.map_values(|e: (u32, Vec<PendingStop>)| (e.0, e.1@))
}

/// The engine that a saved one stands for.
pub open spec fn engine_of(s: EngineSnapshot) -> EngineModel {
    EngineModel {
        ledger: saved_ledger::ledger_of(s.risk),
        books: by_symbol(listing::map_of(book_entries(s.books@))),
        symbols: by_symbol(listing::map_of(s.symbols@)),
        mark_prices: by_symbol(listing::map_of(s.mark_prices@)),
        pending_stops: stops_in(listing::map_of(stop_entries(s.pending_stops@))),
        next_seq_no: s.next_seq_no as int,
        next_order_id: s.next_order_id as int,
        last_applied_seq: s.last_applied_seq,
        failure: None,
    }
}

/// Whether lists can be those of an engine. What an engine saves always can. With others
/// it could not keep what its operations rely on: that every symbol has a book, that
/// no two orders share an id and that no id is given out twice.
pub open spec fn engine_ok(s: EngineSnapshot) -> bool {
    &&& saved_ledger::ledger_ok(saved_ledger::ledger_of(s.risk))
    &&& forall|i: int|
        0 <= i < s.books@.len() ==> saved_book::book_ok(
            saved_book::book_of((#[trigger] s.books@[i]).1),
        )
    &&& engine_of(s).sound()
}

/// Where a recovery starts: from the latest state that was saved, and else from the
/// beginning.
pub open spec fn starting_from(
    e: EngineModel,
    latest: Option<(&EngineSnapshot, SeqNo)>,
) -> (EngineModel, SeqNo) {
    match latest {
        Some((s, seq)) => (engine_of(*s), seq),
        None => (e, SeqNo(0)),
    }
}

/// Whether the latest state that was saved, if there is one, can be that of an engine.
pub open spec fn latest_ok(latest: Option<(&EngineSnapshot, SeqNo)>) -> bool {
    latest matches Some((s, _)) ==> engine_ok(*s)
}

/// The journaled commands that come after a sequence number.
pub open spec fn after(envs: Seq<CommandEnvelope>, seq: SeqNo) -> Seq<CommandEnvelope>
    decreases envs.len(),
{
    if envs.len() == 0 {
        Seq::empty()
    } else if envs.last().seq_no.0 > seq.0 {
        after(envs.drop_last(), seq).push(envs.last())
    } else {
        after(envs.drop_last(), seq)
    }
}

proof fn lemma_after(covered: Seq<CommandEnvelope>, since: Seq<CommandEnvelope>, seq: SeqNo)
    requires
        forall|i: int| 0 <= i < covered.len() ==> (#[trigger] covered[i]).seq_no.0 <= seq.0,
        forall|i: int| 0 <= i < since.len() ==> (#[trigger] since[i]).seq_no.0 > seq.0,
    ensures
        after(covered + since, seq) == since,
    decreases covered.len() + since.len(),
{
    let all = covered + since;
    if since.len() > 0 {
        assert(all.drop_last() =~= covered + since.drop_last());
        assert forall|i: int| 0 <= i < since.drop_last().len() implies (
        #[trigger] since.drop_last()[i]).seq_no.0 > seq.0 by {
            assert(since.drop_last()[i] == since[i]);
        }
        lemma_after(covered, since.drop_last(), seq);
        assert(since[since.len() - 1].seq_no.0 > seq.0);
        assert(since =~= since.drop_last().push(since.last()));
    } else if covered.len() > 0 {
        assert(all =~= covered);
        assert(covered.drop_last() + since =~= covered.drop_last());
        assert forall|i: int| 0 <= i < covered.drop_last().len() implies (
        #[trigger] covered.drop_last()[i]).seq_no.0 <= seq.0 by {
            assert(covered.drop_last()[i] == covered[i]);
        }
        lemma_after(covered.drop_last(), since, seq);
        assert(covered[covered.len() - 1].seq_no.0 <= seq.0);
    } else {
        assert(all =~= since);
    }
}

/// Recovery is exact: where a state was saved after the commands up to a sequence
/// number, it and the commands of the whole journal that come after the number give
/// what all commands gave.
pub proof fn law_recovery(
    e: EngineModel,
    covered: Seq<CommandEnvelope>,
    since: Seq<CommandEnvelope>,
    s: EngineSnapshot,
    seq: SeqNo,
)
    requires
        engine_of(s) == model::replay(e, covered),
        forall|i: int| 0 <= i < covered.len() ==> (#[trigger] covered[i]).seq_no.0 <= seq.0,
        forall|i: int| 0 <= i < since.len() ==> (#[trigger] since[i]).seq_no.0 > seq.0,
    ensures
        model::replay(engine_of(s), after(covered + since, seq)) == model::replay(
            e,
            covered + since,
        ),
{
    lemma_after(covered, since, seq);
    laws::law_replay_in_parts(e, covered, since);
}

/// A replay is exact only where it was on the way.
pub proof fn lemma_after_exact(
    e: EngineModel,
    envs: Seq<CommandEnvelope>,
    seq: SeqNo,
    k: int,
)
    requires
        0 <= k <= envs.len(),
        model::replay(e, after(envs, seq)).exact(),
    ensures
        model::replay(e, after(envs.take(k), seq)).exact(),
    decreases envs.len(),
{
    if k == envs.len() {
        assert(envs.take(k) =~= envs);
    } else {
        let rest = envs.drop_last();
        if envs.last().seq_no.0 > seq.0 {
            assert(after(envs, seq).drop_last() =~= after(rest, seq));
            lemmas::lemma_envelope_exact(model::replay(e, after(rest, seq)), envs.last());
        }
        lemma_after_exact(e, rest, seq, k);
        assert(rest.take(k) =~= envs.take(k));
    }
}

} // verus!
