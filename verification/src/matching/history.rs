//! What holds of a book after any history of orders and cancellations.
use vstd::prelude::*;

use crate::matching::laws;
use crate::matching::model;
use crate::matching::model::BookModel;
use crate::matching::outcome::{PlaceParams, RestingOrder};
use crate::types::enums::Side;
use crate::types::ids::{OrderId, SymbolId};

verus! {

/// What can happen to a book.
pub enum BookStep {
    Place(PlaceParams),
    Cancel(OrderId),
}

/// A book after a step. Cancelling an order that is not there changes nothing.
pub open spec fn after(b: BookModel, step: BookStep) -> BookModel {
    match step {
        BookStep::Place(p) => model::book_after_place(b, p),
        BookStep::Cancel(id) => if b.has_order(id) {
            b.without(id)
        } else {
            b
        },
    }
}

/// Whether a step is one of those that never cross a book: an order with an id of its own,
/// where it comes to rest, that prevention does not stop in front of a resting order of its
/// user while it could rest. With no prevention, or with one that only takes from resting
/// orders, every order is such a step.
pub open spec fn harmless(b: BookModel, step: BookStep) -> bool {
    step matches BookStep::Place(p) ==> {
        &&& model::outcome_of(b, p).rested ==> !b.has_order(p.order_id)
        &&& laws::may_stop_short(p) ==> laws::meets_no_own(
            model::taker_of(b.symbol_id, p),
            b.queue(p.side.other()),
        )
    }
}

/// The book of a symbol after some steps.
pub open spec fn history(symbol_id: SymbolId, steps: Seq<BookStep>) -> BookModel
    decreases steps.len(),
{
    if steps.len() == 0 {
        BookModel { symbol_id, asks: Seq::empty(), bids: Seq::empty() }
    } else {
        after(history(symbol_id, steps.drop_last()), steps.last())
    }
}

/// Whether each of some steps was harmless when it came.
pub open spec fn all_harmless(symbol_id: SymbolId, steps: Seq<BookStep>) -> bool
    decreases steps.len(),
{
    steps.len() > 0 ==> {
        &&& all_harmless(symbol_id, steps.drop_last())
        &&& harmless(history(symbol_id, steps.drop_last()), steps.last())
    }
}

/// Taking an order out of a book does not bring its sides together.
proof fn lemma_cancel_uncrossed(b: BookModel, id: OrderId)
    requires
        b.has_order(id),
        laws::uncrossed(b),
    ensures
        laws::uncrossed(b.without(id)),
{
    let (s0, i0) = choose|side: Side, i: int| #[trigger] b.rests_at(side, i, id);
    assert(b.rests_at((s0, i0).0, (s0, i0).1, id));
    let (side, k) = b.find(id);
    assert(b.rests_at(side, k, id));
    let c = b.without(id);
    assert forall|i: int, j: int| #![trigger c.bids[i], c.asks[j]]
        0 <= i < c.bids.len() && 0 <= j < c.asks.len() implies c.bids[i].price.0
        < c.asks[j].price.0 by {
        let i0 = if side is Bid && i >= k {
            i + 1
        } else {
            i
        };
        let j0 = if side is Ask && j >= k {
            j + 1
        } else {
            j
        };
        assert(b.bids[i0] == c.bids[i] && b.asks[j0] == c.asks[j]);
    }
}

/// A book that began empty and saw any sequence of harmless orders and cancellations is
/// never crossed and never locked: its best bid stays below its best ask.
pub proof fn law_never_crossed(symbol_id: SymbolId, steps: Seq<BookStep>)
    requires
        all_harmless(symbol_id, steps),
    ensures
        ({
            let b = history(symbol_id, steps);
            &&& laws::kept(b)
            &&& laws::uncrossed(b)
            &&& b.bids.len() > 0 && b.asks.len() > 0 ==> b.bids[0].price.0 < b.asks[0].price.0
        }),
    decreases steps.len(),
{
    if steps.len() == 0 {
        assert(history(symbol_id, steps).queue(Side::Bid) =~= Seq::<RestingOrder>::empty());
    } else {
        let b = history(symbol_id, steps.drop_last());
        law_never_crossed(symbol_id, steps.drop_last());
        match steps.last() {
            BookStep::Place(p) => {
                laws::law_place_keeps_book(b, p);
                laws::law_stays_uncrossed(b, p);
            },
            BookStep::Cancel(id) => {
                if b.has_order(id) {
                    laws::law_cancel_keeps_book(b, id);
                    lemma_cancel_uncrossed(b, id);
                }
            },
        }
    }
}

} // verus!
