//! What a book saves of itself.
use vstd::prelude::*;

use crate::matching::model::BookModel;
use crate::matching::outcome::RestingOrder;
use crate::types::ids::SymbolId;

verus! {

/// A saved book: the queues of its two sides.
#[derive(Debug)]
pub struct BookSnapshot {
    pub symbol_id: SymbolId,
    pub asks: Vec<RestingOrder>,
    pub bids: Vec<RestingOrder>,
}

/// The book that a saved one stands for.
pub open spec fn book_of(s: BookSnapshot) -> BookModel {
    BookModel { symbol_id: s.symbol_id, asks: s.asks@, bids: s.bids@ }
}

/// Whether queues can be those of a book.
pub open spec fn book_ok(b: BookModel) -> bool {
    &&& b.in_priority()
    &&& b.orders_ok()
    &&& b.ids_distinct()
    &&& b.levels_fit()
}

} // verus!
