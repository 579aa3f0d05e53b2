//! What the depth of a book shows.
use vstd::prelude::*;

use crate::exchange::api::{OrderAction, Price, Size};
use crate::exchange::book;
use crate::exchange::model;
use crate::exchange::model::DirectOrder;

verus! {

/// What the orders of a side at a price still want.
pub open spec fn wanted_at(q: Seq<DirectOrder>, price: Price) -> int
    decreases q.len(),
{
    if q.len() == 0 {
        0
    } else {
        (if q[0].price == price {
            q[0].size - q[0].filled
        } else {
            0
        }) + wanted_at(q.drop_first(), price)
    }
}

/// How many orders of a side stand at a price.
pub open spec fn standing_at(q: Seq<DirectOrder>, price: Price) -> int
    decreases q.len(),
{
    if q.len() == 0 {
        0
    } else {
        (if q[0].price == price {
            1int
        } else {
            0
        }) + standing_at(q.drop_first(), price)
    }
}

proof fn lemma_last(q: Seq<DirectOrder>, price: Price)
    requires
        q.len() > 0,
    ensures
        wanted_at(q, price) == wanted_at(q.drop_last(), price) + (if q.last().price == price {
            q.last().size - q.last().filled
        } else {
            0
        }),
        standing_at(q, price) == standing_at(q.drop_last(), price) + (if q.last().price == price {
            1int
        } else {
            0
        }),
    decreases q.len(),
{
    if q.len() == 1 {
        assert(wanted_at(q.drop_first(), price) == 0 && wanted_at(q.drop_last(), price) == 0);
        assert(standing_at(q.drop_first(), price) == 0);
        assert(standing_at(q.drop_last(), price) == 0);
        assert(q[0] == q.last());
    } else {
        lemma_last(q.drop_first(), price);
        assert(q.drop_first().drop_last() =~= q.drop_last().drop_first());
        assert(q.drop_first().last() == q.last());
        assert(q.drop_last()[0] == q[0]);
    }
}

proof fn lemma_tallies(q: Seq<DirectOrder>, price: Price)
    ensures
        model::volume_at(q, price) == wanted_at(q, price),
        model::count_at(q, price) == standing_at(q, price),
    decreases q.len(),
{
    if q.len() > 0 {
        lemma_last(q, price);
        lemma_tallies(q.drop_last(), price);
    }
}

/// Whether a price is better than another one on a side: the lower ask, the higher bid.
pub open spec fn better(action: OrderAction, first: Price, second: Price) -> bool {
    match action {
        OrderAction::Ask => first < second,
        OrderAction::Bid => first > second,
    }
}

/// The prices of a side are listed once each, the best first.
proof fn lemma_prices(q: Seq<DirectOrder>, action: OrderAction)
    requires
        model::side_orderly(q, action),
    ensures
        ({
            let p = model::prices(q);
            &&& forall|i: int, j: int|
                0 <= i < j < p.len() ==> better(action, #[trigger] p[i], #[trigger] p[j])
            &&& forall|k: int| 0 <= k < q.len() ==> p.contains((#[trigger] q[k]).price)
            &&& forall|i: int|
                0 <= i < p.len() ==> exists|k: int|
                    0 <= k < q.len() && (#[trigger] q[k]).price == #[trigger] p[i]
            &&& q.len() > 0 ==> p.len() > 0 && p.last() == q.last().price
        }),
    decreases q.len(),
{
    if q.len() > 0 {
        let rest = q.drop_last();
        let n = rest.len() as int;
        assert forall|i: int| 0 <= i < rest.len() implies model::order_ok(
            #[trigger] rest[i],
            action,
        ) by {
            assert(rest[i] == q[i]);
        }
        assert(model::side_orderly(rest, action));
        lemma_prices(rest, action);
        let a = model::prices(rest);
        let p = model::prices(q);
        if rest.len() > 0 {
            assert(model::rank_of(action, q[n - 1].price) <= model::rank_of(action, q[n].price));
            assert(rest.last() == q[n - 1]);
        }
        assert forall|k: int| 0 <= k < q.len() implies p.contains((#[trigger] q[k]).price) by {
            if k < n {
                assert(a.contains(rest[k].price));
                let i = choose|i: int| 0 <= i < a.len() && a[i] == rest[k].price;
                assert(p[i] == a[i]);
            } else {
                assert(p[p.len() - 1] == q[n].price);
            }
        }
        assert forall|i: int| 0 <= i < p.len() implies exists|k: int|
            0 <= k < q.len() && (#[trigger] q[k]).price == #[trigger] p[i] by {
            if i < a.len() {
                assert(p[i] == a[i]);
                let k = choose|k: int| 0 <= k < rest.len() && (#[trigger] rest[k]).price == a[i];
                assert(q[k].price == p[i]);
            } else {
                assert(q[n].price == p[i]);
            }
        }
        assert forall|i: int, j: int| 0 <= i < j < p.len() implies better(
            action,
            #[trigger] p[i],
            #[trigger] p[j],
        ) by {
            if j < a.len() {
                assert(p[i] == a[i] && p[j] == a[j]);
            } else {
                assert(p[i] == a[i]);
                if i < a.len() - 1 {
                    assert(better(action, a[i], a[a.len() - 1]));
                }
            }
        }
    }
}

/// The depth of a side lists its best prices, strictly from the best one on, no more of them than
/// asked for, and leaves one out only where so many better ones are listed. Beside each price
/// stands what the orders there still want and how many there are.
pub proof fn law_depth_lists_the_best_prices(
    q: Seq<DirectOrder>,
    action: OrderAction,
    depth: usize,
    prices: Seq<Price>,
    volumes: Seq<Size>,
    counts: Seq<usize>,
)
    requires
        model::side_orderly(q, action),
        book::shows(q, depth, prices, volumes, counts),
    ensures
        prices.len() <= depth,
        volumes.len() == prices.len(),
        counts.len() == prices.len(),
        forall|i: int, j: int|
            0 <= i < j < prices.len() ==> better(
                action,
                #[trigger] prices[i],
                #[trigger] prices[j],
            ),
        forall|i: int|
            0 <= i < prices.len() ==> {
                &&& volumes[i] == wanted_at(q, #[trigger] prices[i])
                &&& counts[i] == standing_at(q, prices[i])
                &&& exists|k: int| 0 <= k < q.len() && (#[trigger] q[k]).price == prices[i]
            },
        forall|k: int|
            0 <= k < q.len() ==> prices.contains((#[trigger] q[k]).price) || (prices.len() == depth
                && forall|i: int|
                0 <= i < prices.len() ==> better(action, #[trigger] prices[i], q[k].price)),
{
    let p = model::prices(q);
    lemma_prices(q, action);
    assert forall|i: int, j: int| 0 <= i < j < prices.len() implies better(
        action,
        #[trigger] prices[i],
        #[trigger] prices[j],
    ) by {
        assert(prices[i] == p[i] && prices[j] == p[j]);
    }
    assert forall|i: int| 0 <= i < prices.len() implies {
        &&& volumes[i] == wanted_at(q, #[trigger] prices[i])
        &&& counts[i] == standing_at(q, prices[i])
        &&& exists|k: int| 0 <= k < q.len() && (#[trigger] q[k]).price == prices[i]
    } by {
        lemma_tallies(q, prices[i]);
        assert(prices[i] == p[i]);
    }
    assert forall|k: int| 0 <= k < q.len() implies prices.contains((#[trigger] q[k]).price) || (
    prices.len() == depth && forall|i: int|
        0 <= i < prices.len() ==> better(action, #[trigger] prices[i], q[k].price)) by {
        assert(p.contains(q[k].price));
        let j = choose|j: int| 0 <= j < p.len() && p[j] == q[k].price;
        if j < prices.len() {
            assert(prices[j] == p[j]);
        } else {
            assert forall|i: int| 0 <= i < prices.len() implies better(
                action,
                #[trigger] prices[i],
                q[k].price,
            ) by {
                assert(prices[i] == p[i]);
                assert(better(action, p[i], p[j]));
            }
        }
    }
}

} // verus!
