//! The order books of one shard of symbols.
use vstd::prelude::*;

use crate::exchange::api;
use crate::exchange::api::{
    CommandResultCode, CoreSymbolSpecification, MatcherTradeEvent, OrderAction, OrderCommand,
    OrderCommandType, SymbolId,
};
use crate::exchange::book::DirectOrderBook;
use crate::exchange::model;
use crate::exchange::model::{BookModel, BookStep};
use crate::exchange::state;
use crate::exchange::state::{MatchingEngineState, OrderBookState};
use crate::math;
use crate::store::coded::CodeMap;
use crate::store::listing;

verus! {

/// The books of a shard.
#[verifier::ext_equal]
pub struct RouterModel {
    pub shard: u64,
    pub mask: u64,
    pub books: Map<SymbolId, BookModel>,
}

impl RouterModel {
    /// Whether a symbol belongs to the shard.
    pub open spec fn serves(self, symbol: SymbolId) -> bool {
        self.mask == 0 || ((symbol as u32) as u64 & self.mask) == self.shard
    }
}

/// What a command does to the books of a shard.
#[verifier::ext_equal]
pub struct RouterStep {
    pub router: RouterModel,
    pub code: CommandResultCode,
    pub action: OrderAction,
    pub events: Seq<MatcherTradeEvent>,
    pub fits: bool,
}

/// Nothing happens.
pub open spec fn idle(r: RouterModel, c: OrderCommand) -> RouterStep {
    RouterStep {
        router: r,
        code: c.result_code,
        action: c.action,
        events: Seq::empty(),
        fits: true,
    }
}

/// A book answers.
pub open spec fn book_answers(r: RouterModel, c: OrderCommand, step: BookStep) -> RouterStep {
    RouterStep {
        router: RouterModel { books: r.books.insert(c.symbol, step.book), ..r },
        code: step.code,
        action: step.action,
        events: step.events,
        fits: step.fits,
    }
}

/// There is no book for the symbol.
pub open spec fn no_book(r: RouterModel, c: OrderCommand) -> RouterStep {
    RouterStep { code: CommandResultCode::MatchingInvalidOrderBookId, ..idle(r, c) }
}

/// All that an order wants leaves, so that what it froze is given back.
pub open spec fn whole_order_leaves(c: OrderCommand) -> Seq<MatcherTradeEvent> {
    seq![api::reject_event(c.size as int, c.price, c.reserve_price)]
}

/// A checked order goes to the book of its symbol. Where it is turned down, all of it
/// leaves.
pub open spec fn order_routed(r: RouterModel, c: OrderCommand) -> RouterStep {
    let step = if r.books.contains_key(c.symbol) {
        book_answers(r, c, model::new_ordered(r.books[c.symbol], c))
    } else {
        no_book(r, c)
    };
    let turned_down = step.code != CommandResultCode::Success;
    RouterStep {
        events: if turned_down {
            step.events + whole_order_leaves(c)
        } else {
            step.events
        },
        fits: step.fits && c.size >= 0,
        ..step
    }
}

/// What a shard of books does with a command.
#[verifier::opaque]
pub open spec fn routed(r: RouterModel, c: OrderCommand) -> RouterStep {
    if !r.serves(c.symbol) {
        idle(r, c)
    } else {
        match c.command {
            OrderCommandType::PlaceOrder => if c.result_code
                == CommandResultCode::ValidForMatchingEngine {
                order_routed(r, c)
            } else {
                idle(r, c)
            },
            OrderCommandType::CancelOrder => if r.books.contains_key(c.symbol) {
                book_answers(r, c, model::cancelled(r.books[c.symbol], c))
            } else {
                no_book(r, c)
            },
            OrderCommandType::MoveOrder => if r.books.contains_key(c.symbol) {
                book_answers(r, c, model::moved(r.books[c.symbol], c))
            } else {
                no_book(r, c)
            },
            OrderCommandType::ReduceOrder => if r.books.contains_key(c.symbol) {
                book_answers(r, c, model::reduced(r.books[c.symbol], c))
            } else {
                no_book(r, c)
            },
            _ => idle(r, c),
        }
    }
}

/// A command that a shard of books answered.
pub open spec fn told(old: OrderCommand, new: OrderCommand, step: RouterStep) -> bool {
    &&& api::same_request(old, new)
    &&& new.reserve_price == old.reserve_price
    &&& new.result_code == step.code
    &&& new.action == step.action
    &&& new.matcher_events@ == old.matcher_events@ + step.events
}

/// The books behind a map.
pub open spec fn models(m: Map<SymbolId, DirectOrderBook>) -> Map<SymbolId, BookModel> {
    m.map_values(|b: DirectOrderBook| b@)
}

spec fn all_wf(m: Map<SymbolId, DirectOrderBook>) -> bool {
    forall|s: SymbolId| #[trigger] m.contains_key(s) ==> m[s].wf()
}

pub struct MatchingEngineRouter {
    shard_id: u64,
    shard_mask: u64,
    books: CodeMap<DirectOrderBook>,
}

impl View for MatchingEngineRouter {
    type V = RouterModel;

    closed spec fn view(&self) -> RouterModel {
        RouterModel { shard: self.shard_id, mask: self.shard_mask, books: models(self.books@) }
    }
}

impl MatchingEngineRouter {
    pub closed spec fn wf(&self) -> bool {
        self.books.wf() && all_wf(self.books@)
    }

    /// A shard has finitely many books, and each of them is in order.
    pub proof fn law_books_in_order(&self)
        requires
            self.wf(),
        ensures
            self@.books.dom().finite(),
            forall|s: SymbolId| #[trigger]
                self@.books.contains_key(s) ==> model::orderly(self@.books[s]),
    {
        self.books.lemma_finite();
        assert(self@.books.dom() =~= self.books@.dom());
        assert forall|s: SymbolId| #[trigger] self@.books.contains_key(s) implies model::orderly(
            self@.books[s],
        ) by {
            assert(self.books@.contains_key(s));
            self.books@[s].law_orderly();
        }
    }

    /// The shard as lists.
    pub fn serialize_state(&self) -> (r: MatchingEngineState)
        requires
            self.wf(),
        ensures
            state::router_of(r) == self@,
            state::router_ok(r),
    {
        let mut out: Vec<(SymbolId, OrderBookState)> = Vec::new();
        let n: usize = self.books.len();
        let ghost codes = self.books.code_order();
        let mut i: usize = 0;
        proof {
            self.books.lemma_code_order();
        }
        while i < n
            invariant
                self.wf(),
                codes == self.books.code_order(),
                n == codes.len(),
                i <= n,
                out@.len() == i,
                forall|j: int| 0 <= j < n ==> self.books@.contains_key(#[trigger] codes[j]),
                forall|j: int|
                    0 <= j < i ==> {
                        &&& (#[trigger] out@[j]).0 == codes[j]
                        &&& state::book_of(out@[j].1) == self.books@[codes[j]]@
                        &&& state::book_ok(out@[j].1)
                    },
            decreases n - i,
        {
            assert(self.books@.contains_key(codes[i as int]));
            out.push((self.books.code_at(i), self.books.value_at(i).serialize_state()));
            i = i + 1;
        }
        proof {
            let e = state::book_entries(out@);
            assert forall|c: SymbolId| #[trigger] self@.books.contains_key(c) implies exists|j: int|
                0 <= j < e.len() && (#[trigger] e[j]).0 == c by {
                assert(self.books@.contains_key(c));
                let j = choose|j: int| 0 <= j < codes.len() && #[trigger] codes[j] == c;
                assert(out@[j].0 == c);
                assert(e[j].0 == c);
            }
            assert forall|j: int| 0 <= j < e.len() implies self@.books.contains_key(
                (#[trigger] e[j]).0,
            ) && self@.books[e[j].0] == e[j].1 by {
                assert(out@[j].0 == codes[j]);
                assert(self.books@.contains_key(codes[j]));
            }
            listing::lemma_lists(e, self@.books);
        }
        MatchingEngineState {
            shard_id: self.shard_id,
            shard_mask: self.shard_mask,
            order_books: out,
        }
    }

    /// The shard that was saved, or `None` where the lists cannot be those of one.
    pub fn from_state(s: &MatchingEngineState) -> (r: Option<MatchingEngineRouter>)
        ensures
            r.is_some() == state::router_ok(*s),
            r matches Some(e) ==> e.wf() && e@ == state::router_of(*s),
    {
        let mut books: CodeMap<DirectOrderBook> = CodeMap::new();
        let ghost e = state::book_entries(s.order_books@);
        let mut i: usize = 0;
        proof {
            assert(models(books@) =~= Map::<SymbolId, BookModel>::empty());
        }
        while i < s.order_books.len()
            invariant
                books.wf(),
                all_wf(books@),
                e == state::book_entries(s.order_books@),
                i <= s.order_books@.len(),
                models(books@) == listing::map_of(e.take(i as int)),
                forall|j: int| 0 <= j < i ==> state::book_ok((#[trigger] s.order_books@[j]).1),
            decreases s.order_books@.len() - i,
        {
            let ghost before = books@;
            proof {
                assert(e.take(i + 1).drop_last() =~= e.take(i as int));
            }
            let book = match DirectOrderBook::from_state(&s.order_books[i].1) {
                Some(b) => b,
                None => {
                    assert(!state::book_ok(s.order_books@[i as int].1));
                    return None;
                },
            };
            let ghost b = book@;
            books.insert(s.order_books[i].0, book);
            proof {
                assert(models(books@) =~= models(before).insert(s.order_books@[i as int].0, b));
            }
            i = i + 1;
        }
        proof {
            assert(e.take(i as int) =~= e);
        }
        Some(MatchingEngineRouter { shard_id: s.shard_id, shard_mask: s.shard_mask, books })
    }

    /// One of a number of shards that is a power of two.
    pub fn new(shard_id: usize, num_shards: usize) -> (r: MatchingEngineRouter)
        requires
            math::power_of_two(num_shards as int),
        ensures
            r.wf(),
            r@ == (RouterModel {
                shard: shard_id as u64,
                mask: (num_shards - 1) as u64,
                books: Map::empty(),
            }),
    {
        let r = MatchingEngineRouter {
            shard_id: shard_id as u64,
            shard_mask: (num_shards - 1) as u64,
            books: CodeMap::new(),
        };
        assert(r@.books =~= Map::<SymbolId, BookModel>::empty());
        r
    }

    fn symbol_for_this_shard(&self, symbol: SymbolId) -> (r: bool)
        ensures
            r == self@.serves(symbol),
    {
        self.shard_mask == 0 || (#[verifier::truncate]
        (symbol as u32) as u64 & self.shard_mask) == self.shard_id
    }

    /// Opens a book for a symbol of the shard. A book that is there stays.
    pub fn add_symbol(&mut self, spec: CoreSymbolSpecification)
        requires
            old(self).wf(),
        ensures
            final(self).wf(),
            final(self)@ == opened(old(self)@, spec),
    {
        if self.symbol_for_this_shard(spec.symbol_id) && !self.books.contains_key(spec.symbol_id) {
            let book = DirectOrderBook::new(spec);
            self.books.insert(spec.symbol_id, book);
            assert(self@.books =~= old(self)@.books.insert(spec.symbol_id, book@));
        }
    }

    /// The book of a symbol.
    pub fn book(&self, symbol: SymbolId) -> (r: Option<&DirectOrderBook>)
        requires
            self.wf(),
        ensures
            r.is_some() == self@.books.contains_key(symbol),
            r matches Some(b) ==> b.wf() && b@ == self@.books[symbol],
    {
        self.books.get(symbol)
    }

    /// Hands a command to the book of its symbol.
    pub fn process_order(&mut self, cmd: &mut OrderCommand)
        requires
            old(self).wf(),
            routed(old(self)@, *old(cmd)).fits,
        ensures
            final(self).wf(),
            final(self)@ == routed(old(self)@, *old(cmd)).router,
            told(*old(cmd), *final(cmd), routed(old(self)@, *old(cmd))),
    {
        proof {
            reveal(routed);
        }
        let ghost c = *cmd;
        let ghost m = self.books@;
        proof {
            assert(cmd.matcher_events@ + Seq::<MatcherTradeEvent>::empty() =~= cmd.matcher_events@);
        }
        if !self.symbol_for_this_shard(cmd.symbol) {
            return;
        }
        let place: bool = match cmd.command {
            OrderCommandType::PlaceOrder => true,
            OrderCommandType::CancelOrder => false,
            OrderCommandType::MoveOrder => false,
            OrderCommandType::ReduceOrder => false,
            _ => {
                return;
            },
        };
        if place && cmd.result_code != CommandResultCode::ValidForMatchingEngine {
            return;
        }
        let code = match self.books.get_mut(cmd.symbol) {
            None => CommandResultCode::MatchingInvalidOrderBookId,
            Some(book) => match cmd.command {
                OrderCommandType::CancelOrder => book.cancel_order(cmd),
                OrderCommandType::MoveOrder => book.move_order(cmd),
                OrderCommandType::ReduceOrder => book.reduce_order(cmd),
                _ => book.new_order(cmd),
            },
        };
        if place && code != CommandResultCode::Success {
            cmd.matcher_events.push(
                MatcherTradeEvent::new_reject(cmd.size, cmd.price, cmd.reserve_price),
            );
        }
        cmd.result_code = code;
        proof {
            let step = routed(old(self)@, c);
            assert(cmd.matcher_events@ =~= c.matcher_events@ + step.events);
            if m.contains_key(c.symbol) {
                assert(self@.books =~= old(self)@.books.insert(c.symbol, self.books@[c.symbol]@));
            }
            assert(self@ == step.router);
        }
    }
}

/// The books of a shard once a symbol was registered.
pub open spec fn opened(r: RouterModel, spec: CoreSymbolSpecification) -> RouterModel {
    if r.serves(spec.symbol_id) && !r.books.contains_key(spec.symbol_id) {
        RouterModel {
            books: r.books.insert(
                spec.symbol_id,
                BookModel { spec, asks: Seq::empty(), bids: Seq::empty() },
            ),
            ..r
        }
    } else {
        r
    }
}

} // verus!
