//! Saved engines: writing one down and building one up again.
use vstd::prelude::*;

use crate::engine::facade::{MatchingEngine, Tables};
use crate::engine::model;
use crate::engine::model::PendingStop;
use crate::engine::saved;
use crate::engine::saved::EngineSnapshot;
use crate::matching::book::SpotOrderBook;
use crate::matching::model::BookModel;
use crate::matching::outcome::RestingOrder;
use crate::matching::saved as saved_book;
use crate::matching::saved::BookSnapshot;
use crate::risk::engine::RiskEngine;
use crate::store::keyed::KeyedMap;
use crate::store::listing;
use crate::types::command::CommandEnvelope;
use crate::types::enums::Side;
use crate::types::ids::{SeqNo, SymbolId};

verus! {

/// The ids of saved orders were given out and are not among some others.
fn ids_free(list: &Vec<RestingOrder>, next: u64, taken: &KeyedMap<bool>) -> (r: bool)
    requires
        taken.wf(),
    ensures
        r == (forall|i: int|
            0 <= i < list@.len() ==> (#[trigger] list@[i]).order_id.0 < next
                && !taken@.contains_key(list@[i].order_id.0)),
{
    let mut i: usize = 0;
    while i < list.len()
        invariant
            taken.wf(),
            i <= list@.len(),
            forall|j: int|
                0 <= j < i ==> (#[trigger] list@[j]).order_id.0 < next && !taken@.contains_key(
                    list@[j].order_id.0,
                ),
        decreases list@.len() - i,
    {
        let id: u64 = list[i].order_id.0;
        if id >= next || taken.contains_key(id) {
            assert(list@[i as int].order_id.0 == id);
            return false;
        }
        i = i + 1;
    }
    true
}

/// Whether place `(k, i)` of a walk comes before place `(k2, i2)`.
spec fn precedes(k: int, i: int, k2: int, i2: int) -> bool {
    0 <= k && 0 <= i && (k < k2 || (k == k2 && i < i2))
}

impl MatchingEngine {
    /// The stops of the table at a place of the walk.
    spec fn stops_at(&self, k: int) -> Seq<PendingStop> {
        self.state.pending_stops@[self.state.pending_stops.key_order()[k]]@
    }

    spec fn stop_id(&self, k: int, i: int) -> u64 {
        self.stops_at(k)[i].order_id.0
    }

    /// A stop can be placed when it fires.
    spec fn stop_fine(&self, k: int, i: int) -> bool {
        let key = self.state.pending_stops.key_order()[k];
        &&& self.state.symbols@.contains_key(key)
        &&& model::stop_ok(self.stops_at(k)[i], SymbolId(key as u32))
        &&& self.stop_id(k, i) < self.state.next_order_id
    }

    /// Whether a place of the walk is one of a stop, and comes before another place.
    spec fn passed(&self, k: int, i: int, k2: int, i2: int) -> bool {
        precedes(k, i, k2, i2) && i < self.stops_at(k).len()
    }

    /// The stops before a place are fine, and their ids are collected.
    spec fn stops_fine(&self, k2: int, i2: int, ids: Map<u64, bool>) -> bool {
        forall|k: int, i: int| #[trigger]
            self.passed(k, i, k2, i2) ==> self.stop_fine(k, i) && ids.contains_key(
                self.stop_id(k, i),
            )
    }

    /// Every id that was collected is that of a stop before a place.
    spec fn ids_found(&self, k2: int, i2: int, ids: Map<u64, bool>) -> bool {
        forall|id: u64| #[trigger]
            ids.contains_key(id) ==> exists|k: int, i: int|
                #[trigger] self.passed(k, i, k2, i2) && self.stop_id(k, i) == id
    }

    /// The stops before a place have ids of their own.
    spec fn ids_differ(&self, k2: int, i2: int) -> bool {
        forall|k: int, i: int, m: int, j: int|
            #![trigger self.passed(k, i, k2, i2), self.passed(m, j, k2, i2)]
            self.passed(k, i, k2, i2) && self.passed(m, j, k2, i2) && (k != m || i != j)
                ==> self.stop_id(k, i) != self.stop_id(m, j)
    }

    spec fn stops_seen(&self, k2: int, i2: int, ids: Map<u64, bool>) -> bool {
        &&& self.stops_fine(k2, i2, ids)
        &&& self.ids_found(k2, i2, ids)
        &&& self.ids_differ(k2, i2)
    }

    /// One more stop was looked at.
    proof fn lemma_stop_seen(&self, k: int, i: int, ids: Map<u64, bool>)
        requires
            self.stops_seen(k, i, ids),
            0 <= k,
            0 <= i < self.stops_at(k).len(),
            self.stop_fine(k, i),
            !ids.contains_key(self.stop_id(k, i)),
        ensures
            self.stops_seen(k, i + 1, ids.insert(self.stop_id(k, i), true)),
    {
        let more = ids.insert(self.stop_id(k, i), true);
        assert forall|m: int, j: int| self.passed(m, j, k, i + 1) implies (self.passed(m, j, k, i)
            || (m == k && j == i)) by {}
        assert forall|id: u64| #[trigger] more.contains_key(id) implies exists|m: int, j: int|
            #[trigger] self.passed(m, j, k, i + 1) && self.stop_id(m, j) == id by {
            if id == self.stop_id(k, i) {
                assert(self.passed(k, i, k, i + 1));
            } else {
                assert(ids.contains_key(id));
                let (m, j) = choose|m: int, j: int|
                    #[trigger] self.passed(m, j, k, i) && self.stop_id(m, j) == id;
                assert(self.passed(m, j, k, i + 1));
            }
        }
        assert(self.ids_found(k, i + 1, more));
        assert forall|m: int, j: int| #[trigger] self.passed(m, j, k, i + 1) implies self.stop_fine(m, j) && more.contains_key(
            self.stop_id(m, j),
        ) by {
            if self.passed(m, j, k, i) {
                assert(ids.contains_key(self.stop_id(m, j)));
                assert(self.stop_fine(m, j));
            }
        }
        assert forall|a: int, b: int, m: int, j: int|
            #![trigger self.passed(a, b, k, i + 1), self.passed(m, j, k, i + 1)]
            self.passed(a, b, k, i + 1) && self.passed(m, j, k, i + 1) && (a != m || b
                != j) implies self.stop_id(a, b) != self.stop_id(m, j) by {
            assert(self.passed(a, b, k, i) || (a == k && b == i));
            assert(self.passed(m, j, k, i) || (m == k && j == i));
        }
    }

    /// All stops of a table were looked at.
    proof fn lemma_table_seen(&self, k: int, ids: Map<u64, bool>)
        requires
            self.stops_seen(k, self.stops_at(k).len() as int, ids),
            0 <= k,
        ensures
            self.stops_seen(k + 1, 0, ids),
    {
        let n = self.stops_at(k).len() as int;
        assert forall|m: int, j: int| self.passed(m, j, k + 1, 0) == self.passed(m, j, k, n) by {}
        assert forall|m: int, j: int| #[trigger] self.passed(m, j, k + 1, 0) implies self.stop_fine(m, j) && ids.contains_key(
            self.stop_id(m, j),
        ) by {
            assert(self.passed(m, j, k, n));
            assert(ids.contains_key(self.stop_id(m, j)));
            assert(self.stop_fine(m, j));
        }
        assert forall|id: u64| #[trigger] ids.contains_key(id) implies exists|m: int, j: int|
            #[trigger] self.passed(m, j, k + 1, 0) && self.stop_id(m, j) == id by {
            let (m, j) = choose|m: int, j: int|
                #[trigger] self.passed(m, j, k, n) && self.stop_id(m, j) == id;
            assert(self.passed(m, j, k + 1, 0));
        }
        assert forall|a: int, b: int, m: int, j: int|
            #![trigger self.passed(a, b, k + 1, 0), self.passed(m, j, k + 1, 0)]
            self.passed(a, b, k + 1, 0) && self.passed(m, j, k + 1, 0) && (a != m || b
                != j) implies self.stop_id(a, b) != self.stop_id(m, j) by {
            assert(self.passed(a, b, k, n) && self.passed(m, j, k, n));
        }
    }

    /// What is known of the stops of a sound engine.
    spec fn stops_sound(&self) -> bool {
        let e = self@;
        &&& forall|s: SymbolId, i: int| #![trigger e.pending_stops[s][i]]
            0 <= i < e.pending_stops[s].len() ==> {
                &&& e.symbols.contains_key(s)
                &&& model::stop_ok(e.pending_stops[s][i], s)
                &&& e.pending_stops[s][i].order_id.0 < e.next_order_id
            }
        &&& forall|s: SymbolId, i: int, t: SymbolId, j: int|
            #![trigger e.pending_stops[s][i], e.pending_stops[t][j]]
            0 <= i < e.pending_stops[s].len() && 0 <= j < e.pending_stops[t].len() && (s != t || i
                != j) ==> e.pending_stops[s][i].order_id != e.pending_stops[t][j].order_id
    }

    /// The table of stops, place by place.
    proof fn lemma_stops(&self)
        requires
            self.tables_ok(),
        ensures
            forall|k: int| #![trigger self.state.pending_stops.key_order()[k]]
                0 <= k < self.state.pending_stops.key_order().len() ==> {
                    let key = self.state.pending_stops.key_order()[k];
                    &&& key <= u32::MAX
                    &&& self@.pending_stops[SymbolId(key as u32)] == self.stops_at(k)
                },
            forall|k: int, m: int|
                #![trigger self.state.pending_stops.key_order()[k], self.state.pending_stops.key_order()[m]]
                0 <= k < self.state.pending_stops.key_order().len() && 0 <= m
                    < self.state.pending_stops.key_order().len() && k != m
                    ==> self.state.pending_stops.key_order()[k]
                    != self.state.pending_stops.key_order()[m],
            forall|s: SymbolId| #![trigger self@.pending_stops[s]]
                self@.pending_stops[s].len() > 0 ==> exists|k: int|
                    0 <= k < self.state.pending_stops.key_order().len()
                        && #[trigger] self.state.pending_stops.key_order()[k] == s.0 as u64,
    {
        self.state.pending_stops.lemma_key_order();
        let keys = self.state.pending_stops.key_order();
        assert forall|k: int| #![trigger keys[k]] 0 <= k < keys.len() implies keys[k] <= u32::MAX
            && self@.pending_stops[SymbolId(keys[k] as u32)] == self.stops_at(k) by {
            assert(keys.contains(keys[k]));
            assert(self.state.pending_stops@.contains_key(keys[k]));
        }
        assert forall|s: SymbolId| #![trigger self@.pending_stops[s]]
            self@.pending_stops[s].len() > 0 implies exists|k: int|
            0 <= k < keys.len() && #[trigger] keys[k] == s.0 as u64 by {
            assert(keys.contains(s.0 as u64));
        }
    }

    /// Whether the waiting stops are as they should be. Collects their ids.
    fn check_stops(&self) -> (r: Option<KeyedMap<bool>>)
        requires
            self.tables_ok(),
        ensures
            r.is_some() == self.stops_sound(),
            r matches Some(ids) ==> {
                &&& ids.wf()
                &&& forall|id: u64| #[trigger]
                    ids@.contains_key(id) <==> exists|s: SymbolId, i: int|
                        0 <= i < self@.pending_stops[s].len() && (
                        #[trigger] self@.pending_stops[s][i]).order_id.0 == id
            },
    {
        let mut ids: KeyedMap<bool> = KeyedMap::new();
        let n: usize = self.state.pending_stops.len();
        let ghost keys = self.state.pending_stops.key_order();
        proof {
            self.lemma_stops();
        }
        let mut k: usize = 0;
        while k < n
            invariant
                self.tables_ok(),
                keys == self.state.pending_stops.key_order(),
                n == keys.len(),
                k <= n,
                ids.wf(),
                self.stops_seen(k as int, 0, ids@),
            decreases n - k,
        {
            let key: u64 = self.state.pending_stops.key_at(k);
            let stops = self.state.pending_stops.value_at(k);
            let known: bool = self.state.symbols.contains_key(key);
            let mut i: usize = 0;
            while i < stops.len()
                invariant
                    self.tables_ok(),
                    keys == self.state.pending_stops.key_order(),
                    n == keys.len(),
                    k < n,
                    key == keys[k as int],
                    stops@ == self.stops_at(k as int),
                    known == self.state.symbols@.contains_key(key),
                    i <= stops@.len(),
                    ids.wf(),
                    self.stops_seen(k as int, i as int, ids@),
                decreases stops@.len() - i,
            {
                proof {
                    self.lemma_stops();
                    assert(self@.pending_stops[SymbolId(key as u32)] == self.stops_at(k as int));
                }
                let stop = stops[i];
                let id: u64 = stop.order_id.0;
                let fine: bool = known && stop.place_order.symbol_id.0 as u64 == key
                    && stop.place_order.price.is_some() && stop.place_order.stop_price.is_some()
                    && id < self.state.next_order_id;
                assert(fine == self.stop_fine(k as int, i as int));
                if !fine {
                    proof {
                        let s = SymbolId(key as u32);
                        assert(self@.pending_stops[s][i as int] == stop);
                    }
                    return None;
                }
                if ids.contains_key(id) {
                    proof {
                        let (m, j) = choose|m: int, j: int|
                            #[trigger] self.passed(m, j, k as int, i as int) && self.stop_id(m, j)
                                == id;
                        let s = SymbolId(key as u32);
                        let t = SymbolId(keys[m] as u32);
                        assert(keys[m] <= u32::MAX);
                        assert(self@.pending_stops[t] == self.stops_at(m));
                        assert(self@.pending_stops[s][i as int].order_id
                            == self@.pending_stops[t][j].order_id);
                    }
                    return None;
                }
                proof {
                    assert(self.stop_id(k as int, i as int) == id);
                    self.lemma_stop_seen(k as int, i as int, ids@);
                }
                ids.insert(id, true);
                i = i + 1;
            }
            proof {
                self.lemma_table_seen(k as int, ids@);
            }
            k = k + 1;
        }
        proof {
            self.lemma_seen_all(ids@);
        }
        Some(ids)
    }

    /// A walk over all stops settles what is known of them.
    proof fn lemma_seen_all(&self, ids: Map<u64, bool>)
        requires
            self.tables_ok(),
            self.stops_seen(self.state.pending_stops.key_order().len() as int, 0, ids),
        ensures
            self.stops_sound(),
            forall|id: u64| #[trigger]
                ids.contains_key(id) <==> exists|s: SymbolId, i: int|
                    0 <= i < self@.pending_stops[s].len() && (
                    #[trigger] self@.pending_stops[s][i]).order_id.0 == id,
    {
        self.lemma_stops();
        let e = self@;
        let keys = self.state.pending_stops.key_order();
        let n = keys.len() as int;
        assert forall|s: SymbolId, i: int| #![trigger e.pending_stops[s][i]]
            0 <= i < e.pending_stops[s].len() implies {
            &&& e.symbols.contains_key(s)
            &&& model::stop_ok(e.pending_stops[s][i], s)
            &&& e.pending_stops[s][i].order_id.0 < e.next_order_id
            &&& ids.contains_key(e.pending_stops[s][i].order_id.0)
        } by {
            let k = choose|k: int| 0 <= k < n && #[trigger] keys[k] == s.0 as u64;
            assert(SymbolId(keys[k] as u32) == s);
            assert(self.passed(k, i, n, 0));
            assert(self.stop_id(k, i) == e.pending_stops[s][i].order_id.0);
        }
        assert forall|s: SymbolId, i: int, t: SymbolId, j: int|
            #![trigger e.pending_stops[s][i], e.pending_stops[t][j]]
            0 <= i < e.pending_stops[s].len() && 0 <= j < e.pending_stops[t].len() && (s != t || i
                != j) implies e.pending_stops[s][i].order_id != e.pending_stops[t][j].order_id by {
            let k = choose|k: int| 0 <= k < n && #[trigger] keys[k] == s.0 as u64;
            let m = choose|m: int| 0 <= m < n && #[trigger] keys[m] == t.0 as u64;
            assert(SymbolId(keys[k] as u32) == s);
            assert(SymbolId(keys[m] as u32) == t);
            assert(self.passed(k, i, n, 0) && self.passed(m, j, n, 0));
            assert(self.stop_id(k, i) == e.pending_stops[s][i].order_id.0);
            assert(self.stop_id(m, j) == e.pending_stops[t][j].order_id.0);
        }
        assert forall|id: u64| #[trigger] ids.contains_key(id) implies exists|s: SymbolId, i: int|
            0 <= i < e.pending_stops[s].len() && (#[trigger] e.pending_stops[s][i]).order_id.0
                == id by {
            let (k, i) = choose|k: int, i: int|
                #[trigger] self.passed(k, i, n, 0) && self.stop_id(k, i) == id;
            let s = SymbolId(keys[k] as u32);
            assert(e.pending_stops[s][i].order_id.0 == id);
        }
    }

    /// Whether every table of one kind has its counterpart in the other.
    fn check_symbols(&self) -> (r: bool)
        requires
            self.tables_ok(),
        ensures
            r == (self@.books.dom() == self@.symbols.dom()),
    {
        let n: usize = self.state.books.len();
        let ghost bk = self.state.books.key_order();
        let ghost sk = self.state.symbols.key_order();
        proof {
            self.state.books.lemma_key_order();
            self.state.symbols.lemma_key_order();
        }
        let mut i: usize = 0;
        while i < n
            invariant
                self.tables_ok(),
                bk == self.state.books.key_order(),
                n == bk.len(),
                i <= n,
                forall|j: int|
                    0 <= j < i ==> self.state.symbols@.contains_key(#[trigger] bk[j]),
            decreases n - i,
        {
            let key: u64 = self.state.books.key_at(i);
            if !self.state.symbols.contains_key(key) {
                proof {
                    let s = SymbolId(key as u32);
                    assert(self.state.books@.contains_key(key));
                    assert(self@.books.dom().contains(s) && !self@.symbols.dom().contains(s));
                }
                return false;
            }
            i = i + 1;
        }
        let m: usize = self.state.symbols.len();
        let mut i: usize = 0;
        while i < m
            invariant
                self.tables_ok(),
                sk == self.state.symbols.key_order(),
                m == sk.len(),
                i <= m,
                forall|j: int| 0 <= j < i ==> self.state.books@.contains_key(#[trigger] sk[j]),
            decreases m - i,
        {
            let key: u64 = self.state.symbols.key_at(i);
            if !self.state.books.contains_key(key) {
                proof {
                    let s = SymbolId(key as u32);
                    assert(self.state.symbols@.contains_key(key));
                    assert(self@.symbols.dom().contains(s) && !self@.books.dom().contains(s));
                }
                return false;
            }
            i = i + 1;
        }
        proof {
            assert forall|s: SymbolId| self@.books.dom().contains(s)
                == self@.symbols.dom().contains(s) by {
                let key = s.0 as u64;
                if self.state.books@.contains_key(key) {
                    assert(bk.contains(key));
                }
                if self.state.symbols@.contains_key(key) {
                    assert(sk.contains(key));
                }
            }
            assert(self@.books.dom() =~= self@.symbols.dom());
        }
        true
    }

    /// Whether the ids of the resting orders were given out and are not among some
    /// others.
    fn check_orders(&self, taken: &KeyedMap<bool>) -> (r: bool)
        requires
            self.tables_ok(),
            taken.wf(),
        ensures
            r == (forall|s: SymbolId, side: Side, i: int|
                #![trigger self@.books[s].queue(side)[i]]
                self@.books.contains_key(s) && 0 <= i < self@.books[s].queue(side).len()
                    ==> self@.books[s].queue(side)[i].order_id.0 < self@.next_order_id
                    && !taken@.contains_key(self@.books[s].queue(side)[i].order_id.0)),
    {
        let n: usize = self.state.books.len();
        let ghost keys = self.state.books.key_order();
        let next: u64 = self.state.next_order_id;
        proof {
            self.state.books.lemma_key_order();
        }
        let mut k: usize = 0;
        while k < n
            invariant
                self.tables_ok(),
                taken.wf(),
                keys == self.state.books.key_order(),
                n == keys.len(),
                next == self.state.next_order_id,
                k <= n,
                forall|m: int, side: Side, i: int|
                    #![trigger self.state.books@[keys[m]]@.queue(side)[i]]
                    0 <= m < k && 0 <= i < self.state.books@[keys[m]]@.queue(side).len()
                        ==> self.state.books@[keys[m]]@.queue(side)[i].order_id.0 < next
                        && !taken@.contains_key(
                        self.state.books@[keys[m]]@.queue(side)[i].order_id.0,
                    ),
            decreases n - k,
        {
            let ghost s = SymbolId(keys[k as int] as u32);
            let key: u64 = self.state.books.key_at(k);
            proof {
                assert(self.state.books@.contains_key(key));
                assert(self@.books[s] == self.state.books@[key]@);
            }
            let lists = self.state.books.value_at(k).snapshot();
            let ghost b = saved_book::book_of(lists);
            if !ids_free(&lists.asks, next, taken) {
                proof {
                    let i = choose|i: int|
                        0 <= i < lists.asks@.len() && !((#[trigger] lists.asks@[i]).order_id.0
                            < next && !taken@.contains_key(lists.asks@[i].order_id.0));
                    assert(self@.books[s].queue(Side::Ask)[i] == lists.asks@[i]);
                }
                return false;
            }
            if !ids_free(&lists.bids, next, taken) {
                proof {
                    let i = choose|i: int|
                        0 <= i < lists.bids@.len() && !((#[trigger] lists.bids@[i]).order_id.0
                            < next && !taken@.contains_key(lists.bids@[i].order_id.0));
                    assert(self@.books[s].queue(Side::Bid)[i] == lists.bids@[i]);
                }
                return false;
            }
            proof {
                assert forall|side: Side, i: int| #![trigger b.queue(side)[i]]
                    0 <= i < b.queue(side).len() implies b.queue(side)[i].order_id.0 < next
                    && !taken@.contains_key(b.queue(side)[i].order_id.0) by {
                    match side {
                        Side::Ask => {
                            assert(lists.asks@[i].order_id.0 < next);
                        },
                        Side::Bid => {
                            assert(lists.bids@[i].order_id.0 < next);
                        },
                    }
                }
            }
            k = k + 1;
        }
        proof {
            assert forall|s: SymbolId, side: Side, i: int|
                #![trigger self@.books[s].queue(side)[i]]
                self@.books.contains_key(s) && 0 <= i < self@.books[s].queue(side).len() implies
                self@.books[s].queue(side)[i].order_id.0 < self@.next_order_id
                && !taken@.contains_key(self@.books[s].queue(side)[i].order_id.0) by {
                assert(keys.contains(s.0 as u64));
                let m = choose|m: int| 0 <= m < keys.len() && keys[m] == s.0 as u64;
                assert(self.state.books@[keys[m]]@.queue(side)[i] == self@.books[s].queue(side)[i]);
            }
        }
        true
    }

    /// Whether the tables fit together.
    fn check_sound(&self) -> (r: bool)
        requires
            self.tables_ok(),
        ensures
            r == self@.sound(),
    {
        let ghost e = self@;
        if !self.check_symbols() {
            return false;
        }
        match self.check_stops() {
            None => false,
            Some(ids) => {
                let r: bool = self.check_orders(&ids);
                proof {
                    let taken = ids@;
                    if e.sound() {
                        assert forall|s: SymbolId, side: Side, i: int|
                            #![trigger e.books[s].queue(side)[i]]
                            e.books.contains_key(s) && 0 <= i < e.books[s].queue(side).len() implies
                            e.books[s].queue(side)[i].order_id.0 < e.next_order_id
                            && !taken.contains_key(e.books[s].queue(side)[i].order_id.0) by {
                            let id = e.books[s].queue(side)[i].order_id.0;
                            if taken.contains_key(id) {
                                let (t, j) = choose|t: SymbolId, j: int|
                                    0 <= j < e.pending_stops[t].len() && (
                                    #[trigger] e.pending_stops[t][j]).order_id.0 == id;
                                assert(e.pending_stops[t][j].order_id
                                    != e.books[s].queue(side)[i].order_id);
                            }
                        }
                    }
                    if r {
                        assert forall|s: SymbolId, i: int, t: SymbolId, side: Side, j: int|
                            #![trigger e.pending_stops[s][i], e.books[t].queue(side)[j]]
                            0 <= i < e.pending_stops[s].len() && e.books.contains_key(t) && 0 <= j
                                < e.books[t].queue(side).len() implies e.pending_stops[s][i].order_id
                            != e.books[t].queue(side)[j].order_id by {
                            assert(taken.contains_key(e.pending_stops[s][i].order_id.0));
                            assert(!taken.contains_key(e.books[t].queue(side)[j].order_id.0));
                        }
                    }
                }
                r
            },
        }
    }
}

/// What a table of books holds, by 32-bit numbers.
spec fn numbered_books(m: Map<u64, SpotOrderBook>) -> Map<u32, BookModel> {
    Map::new(|k: u32| m.contains_key(k as u64), |k: u32| m[k as u64]@)
}

/// What a table of stops holds, by 32-bit numbers.
spec fn numbered_stops(m: Map<u64, Vec<PendingStop>>) -> Map<u32, Seq<PendingStop>> {
    Map::new(|k: u32| m.contains_key(k as u64), |k: u32| m[k as u64]@)
}

/// Another list of the same stops.
fn copy_stops(list: &Vec<PendingStop>) -> (r: Vec<PendingStop>)
    ensures
        r@ == list@,
{
    let mut out: Vec<PendingStop> = Vec::new();
    let mut i: usize = 0;
    while i < list.len()
        invariant
            i <= list@.len(),
            out@ == list@.take(i as int),
        decreases list@.len() - i,
    {
        out.push(list[i]);
        i = i + 1;
        assert(out@ =~= list@.take(i as int));
    }
    assert(out@ =~= list@);
    out
}

/// The books of a table as a list.
fn listed_books(m: &KeyedMap<SpotOrderBook>) -> (r: Vec<(u32, BookSnapshot)>)
    requires
        m.wf(),
        listing::small_keys(m@),
        forall|k: u64| #[trigger] m@.contains_key(k) ==> m@[k].wf(),
    ensures
        listing::map_of(saved::book_entries(r@)) == numbered_books(m@),
        forall|i: int|
            0 <= i < r@.len() ==> saved_book::book_ok(saved_book::book_of((#[trigger] r@[i]).1)),
{
    let mut out: Vec<(u32, BookSnapshot)> = Vec::new();
    let n: usize = m.len();
    let ghost keys = m.key_order();
    let mut i: usize = 0;
    proof {
        m.lemma_key_order();
        assert forall|j: int| 0 <= j < n implies m@.contains_key(#[trigger] keys[j]) by {
            assert(keys.contains(keys[j]));
        }
    }
    while i < n
        invariant
            m.wf(),
            listing::small_keys(m@),
            forall|k: u64| #[trigger] m@.contains_key(k) ==> m@[k].wf(),
            keys == m.key_order(),
            n == keys.len(),
            i <= n,
            out@.len() == i,
            forall|j: int| 0 <= j < n ==> m@.contains_key(#[trigger] keys[j]),
            forall|j: int|
                0 <= j < i ==> {
                    &&& (#[trigger] out@[j]).0 == keys[j]
                    &&& saved_book::book_of(out@[j].1) == m@[keys[j]]@
                    &&& saved_book::book_ok(saved_book::book_of(out@[j].1))
                },
        decreases n - i,
    {
        assert(m@.contains_key(keys[i as int]));
        out.push((m.key_at(i) as u32, m.value_at(i).snapshot()));
        i = i + 1;
    }
    proof {
        let e = saved::book_entries(out@);
        let all = numbered_books(m@);
        assert forall|k: u32| #[trigger] all.contains_key(k) implies exists|j: int|
            0 <= j < e.len() && (#[trigger] e[j]).0 == k by {
            assert(keys.contains(k as u64));
            let j = choose|j: int| 0 <= j < keys.len() && keys[j] == k as u64;
            assert(out@[j].0 == k);
            assert(e[j].0 == k);
        }
        assert forall|j: int| 0 <= j < e.len() implies all.contains_key((#[trigger] e[j]).0)
            && all[e[j].0] == e[j].1 by {
            assert(out@[j].0 == keys[j]);
            assert(m@.contains_key(keys[j]));
        }
        listing::lemma_lists(e, all);
    }
    out
}

/// The stops of a table as a list.
fn listed_stops(m: &KeyedMap<Vec<PendingStop>>) -> (r: Vec<(u32, Vec<PendingStop>)>)
    requires
        m.wf(),
        listing::small_keys(m@),
    ensures
        listing::map_of(saved::stop_entries(r@)) == numbered_stops(m@),
{
    let mut out: Vec<(u32, Vec<PendingStop>)> = Vec::new();
    let n: usize = m.len();
    let ghost keys = m.key_order();
    let mut i: usize = 0;
    proof {
        m.lemma_key_order();
        assert forall|j: int| 0 <= j < n implies m@.contains_key(#[trigger] keys[j]) by {
            assert(keys.contains(keys[j]));
        }
    }
    while i < n
        invariant
            m.wf(),
            listing::small_keys(m@),
            keys == m.key_order(),
            n == keys.len(),
            i <= n,
            out@.len() == i,
            forall|j: int| 0 <= j < n ==> m@.contains_key(#[trigger] keys[j]),
            forall|j: int|
                0 <= j < i ==> (#[trigger] out@[j]).0 == keys[j] && out@[j].1@ == m@[keys[j]]@,
        decreases n - i,
    {
        assert(m@.contains_key(keys[i as int]));
        out.push((m.key_at(i) as u32, copy_stops(m.value_at(i))));
        i = i + 1;
    }
    proof {
        let e = saved::stop_entries(out@);
        let all = numbered_stops(m@);
        assert forall|k: u32| #[trigger] all.contains_key(k) implies exists|j: int|
            0 <= j < e.len() && (#[trigger] e[j]).0 == k by {
            assert(keys.contains(k as u64));
            let j = choose|j: int| 0 <= j < keys.len() && keys[j] == k as u64;
            assert(out@[j].0 == k);
            assert(e[j].0 == k);
        }
        assert forall|j: int| 0 <= j < e.len() implies all.contains_key((#[trigger] e[j]).0)
            && all[e[j].0] == e[j].1 by {
            assert(out@[j].0 == keys[j]);
            assert(m@.contains_key(keys[j]));
        }
        listing::lemma_lists(e, all);
    }
    out
}

/// The table of saved books, or `None` where one of them cannot be.
fn book_table(list: &Vec<(u32, BookSnapshot)>) -> (r: Option<KeyedMap<SpotOrderBook>>)
    ensures
        r.is_some() == (forall|i: int|
            0 <= i < list@.len() ==> saved_book::book_ok(
                saved_book::book_of((#[trigger] list@[i]).1),
            )),
        r matches Some(m) ==> {
            &&& m.wf()
            &&& listing::small_keys(m@)
            &&& forall|k: u64| #[trigger] m@.contains_key(k) ==> m@[k].wf()
            &&& numbered_books(m@) == listing::map_of(saved::book_entries(list@))
        },
{
    let mut r: KeyedMap<SpotOrderBook> = KeyedMap::new();
    let ghost e = saved::book_entries(list@);
    let mut i: usize = 0;
    assert(numbered_books(r@) =~= listing::map_of(e.take(0)));
    while i < list.len()
        invariant
            e == saved::book_entries(list@),
            r.wf(),
            listing::small_keys(r@),
            forall|k: u64| #[trigger] r@.contains_key(k) ==> r@[k].wf(),
            i <= list@.len(),
            numbered_books(r@) == listing::map_of(e.take(i as int)),
            forall|j: int|
                0 <= j < i ==> saved_book::book_ok(saved_book::book_of((#[trigger] list@[j]).1)),
        decreases list@.len() - i,
    {
        let ghost before = r@;
        proof {
            assert(e.take(i + 1).drop_last() =~= e.take(i as int));
        }
        let book = match SpotOrderBook::from_snapshot(&list[i].1) {
            Some(b) => b,
            None => {
                assert(!saved_book::book_ok(saved_book::book_of(list@[i as int].1)));
                return None;
            },
        };
        let ghost b = book@;
        r.insert(list[i].0 as u64, book);
        assert(numbered_books(r@) =~= numbered_books(before).insert(list@[i as int].0, b));
        i = i + 1;
    }
    assert(e.take(i as int) =~= e);
    Some(r)
}

/// The table of saved stops.
fn stop_table(list: &Vec<(u32, Vec<PendingStop>)>) -> (r: KeyedMap<Vec<PendingStop>>)
    ensures
        r.wf(),
        listing::small_keys(r@),
        numbered_stops(r@) == listing::map_of(saved::stop_entries(list@)),
{
    let mut r: KeyedMap<Vec<PendingStop>> = KeyedMap::new();
    let ghost e = saved::stop_entries(list@);
    let mut i: usize = 0;
    assert(numbered_stops(r@) =~= listing::map_of(e.take(0)));
    while i < list.len()
        invariant
            e == saved::stop_entries(list@),
            r.wf(),
            listing::small_keys(r@),
            i <= list@.len(),
            numbered_stops(r@) == listing::map_of(e.take(i as int)),
        decreases list@.len() - i,
    {
        let ghost before = r@;
        proof {
            assert(e.take(i + 1).drop_last() =~= e.take(i as int));
        }
        let stops = copy_stops(&list[i].1);
        r.insert(list[i].0 as u64, stops);
        assert(numbered_stops(r@) =~= numbered_stops(before).insert(
            list@[i as int].0,
            list@[i as int].1@,
        ));
        i = i + 1;
    }
    assert(e.take(i as int) =~= e);
    r
}

impl MatchingEngine {
    /// Everything that survives a restart. It covers the commands up to the last one
    /// that was applied. An engine with a failed settlement is not saved.
    pub fn take_snapshot(&self) -> (r: (EngineSnapshot, SeqNo))
        requires
            self.wf(),
            self@.failure is None,
        ensures
            saved::engine_of(r.0) == self@,
            saved::engine_ok(r.0),
            r.1 == self@.last_applied_seq,
    {
        let s = EngineSnapshot {
            risk: self.state.risk.snapshot(),
            books: listed_books(&self.state.books),
            symbols: listing::small_entries(&self.state.symbols),
            mark_prices: listing::small_entries(&self.state.mark_prices),
            pending_stops: listed_stops(&self.state.pending_stops),
            next_seq_no: self.state.next_seq_no,
            next_order_id: self.state.next_order_id,
            last_applied_seq: self.state.last_applied_seq,
        };
        proof {
            let e = saved::engine_of(s);
            assert(e.books =~= self@.books);
            assert(e.symbols =~= self@.symbols);
            assert(e.mark_prices =~= self@.mark_prices);
            assert(e.pending_stops =~= self@.pending_stops);
            assert(e =~= self@);
        }
        (s, self.state.last_applied_seq)
    }

    /// The engine that was saved, or `None` where the lists cannot be those of one.
    pub fn from_snapshot(s: &EngineSnapshot) -> (r: Option<MatchingEngine>)
        ensures
            r.is_some() == saved::engine_ok(*s),
            r matches Some(e) ==> e.wf() && e@ == saved::engine_of(*s),
    {
        let risk = match RiskEngine::from_snapshot(&s.risk) {
            Some(r) => r,
            None => {
                return None;
            },
        };
        let books = match book_table(&s.books) {
            Some(b) => b,
            None => {
                return None;
            },
        };
        let r = MatchingEngine {
            state: Tables {
                risk,
                books,
                symbols: listing::small_table(&s.symbols),
                mark_prices: listing::small_table(&s.mark_prices),
                pending_stops: stop_table(&s.pending_stops),
                next_seq_no: s.next_seq_no,
                next_order_id: s.next_order_id,
                last_applied_seq: s.last_applied_seq,
                failure: None,
            },
        };
        proof {
            let e = saved::engine_of(*s);
            assert(r@.books =~= saved::by_symbol(numbered_books(r.state.books@)));
            assert(r@.symbols =~= saved::by_symbol(listing::by_number(r.state.symbols@)));
            assert(r@.mark_prices =~= saved::by_symbol(
                listing::by_number(r.state.mark_prices@),
            ));
            assert(r@.pending_stops =~= saved::stops_in(numbered_stops(r.state.pending_stops@)));
            assert(r@ =~= e);
        }
        if r.check_sound() {
            Some(r)
        } else {
            None
        }
    }

    /// Brings an engine up to date: it takes over the saved state, if there is one,
    /// and applies the journaled commands that come after what the state covers.
    /// Nothing happens where the saved state cannot be that of an engine.
    pub fn restore(
        &mut self,
        latest: Option<(&EngineSnapshot, SeqNo)>,
        journal: &[CommandEnvelope],
    ) -> (r: bool)
        requires
            old(self).wf(),
            ({
                let (base, seq) = saved::starting_from(old(self)@, latest);
                saved::latest_ok(latest) ==> model::replay(
                    base,
                    saved::after(journal@, seq),
                ).exact()
            }),
        ensures
            final(self).wf(),
            r == saved::latest_ok(latest),
            !r ==> final(self)@ == old(self)@,
            r ==> ({
                let (base, seq) = saved::starting_from(old(self)@, latest);
                final(self)@ == model::replay(base, saved::after(journal@, seq))
            }),
    {
        let ghost start = saved::starting_from(self@, latest);
        let mut last_snap_seq = SeqNo(0);
        match latest {
            Some((s, seq)) => match MatchingEngine::from_snapshot(s) {
                Some(e) => {
                    *self = e;
                    last_snap_seq = seq;
                },
                None => {
                    return false;
                },
            },
            None => {},
        }
        let ghost base = start.0;
        let ghost seq = start.1;
        let mut i: usize = 0;
        assert(saved::after(journal@.take(0), seq) =~= Seq::<CommandEnvelope>::empty());
        while i < journal.len()
            invariant
                self.wf(),
                i <= journal@.len(),
                seq == last_snap_seq,
                model::replay(base, saved::after(journal@, seq)).exact(),
                self@ == model::replay(base, saved::after(journal@.take(i as int), seq)),
            decreases journal@.len() - i,
        {
            proof {
                let more = journal@.take(i + 1);
                assert(more.drop_last() =~= journal@.take(i as int));
                saved::lemma_after_exact(base, journal@, seq, i + 1);
                if more.last().seq_no.0 > seq.0 {
                    assert(saved::after(more, seq).drop_last() =~= saved::after(
                        journal@.take(i as int),
                        seq,
                    ));
                }
            }
            if journal[i].seq_no.0 > last_snap_seq.0 {
                let receipt = self.apply_envelope(&journal[i]);
            }
            i = i + 1;
        }
        assert(journal@.take(i as int) =~= journal@);
        true
    }
}

} // verus!
