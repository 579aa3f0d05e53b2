//! The order book of one symbol.
use matching_engine::matching::book::SpotOrderBook;
use matching_engine::matching::outcome::{PlaceParams, PlacementOutcome};
use matching_engine::types::enums::{OrderType, SelfTradePrevention, Side, TimeInForce};
use matching_engine::types::ids::{ClientOrderId, OrderId, SymbolId, Timestamp, UserId};
use matching_engine::types::numeric::{Price, Size};
use matching_engine::types::reject::RejectReason;

fn place(book: &mut SpotOrderBook, oid: u64, uid: u64, side: Side, px: i64, sz: i64,
         tif: TimeInForce) -> PlacementOutcome {
    place_stp(book, oid, uid, side, px, sz, tif, SelfTradePrevention::Allow)
}

#[allow(clippy::too_many_arguments)]
fn place_stp(book: &mut SpotOrderBook, oid: u64, uid: u64, side: Side, px: i64, sz: i64,
             tif: TimeInForce, stp: SelfTradePrevention) -> PlacementOutcome {
    book.place(PlaceParams {
        order_id: OrderId(oid),
        user_id: UserId(uid),
        client_order_id: ClientOrderId(oid),
        side,
        order_type: OrderType::Limit,
        time_in_force: tif,
        price: Price(px),
        size: Size(sz),
        timestamp: Timestamp(0),
        stp,
        visible_size: None,
    })
}

#[allow(clippy::too_many_arguments)]
fn place_iceberg(book: &mut SpotOrderBook, oid: u64, uid: u64, side: Side, px: i64, sz: i64,
                 visible: i64) -> PlacementOutcome {
    book.place(PlaceParams {
        order_id: OrderId(oid),
        user_id: UserId(uid),
        client_order_id: ClientOrderId(oid),
        side,
        order_type: OrderType::Iceberg,
        time_in_force: TimeInForce::Gtc,
        price: Price(px),
        size: Size(sz),
        timestamp: Timestamp(0),
        stp: SelfTradePrevention::Allow,
        visible_size: Some(Size(visible)),
    })
}

#[test]
fn place_then_match_one_for_one() {
    let mut book = SpotOrderBook::new(SymbolId(1));
    let r1 = place(&mut book, 1, 100, Side::Ask, 100, 10, TimeInForce::Gtc);
    assert!(r1.rested && r1.trades.as_slice().is_empty());

    let r2 = place(&mut book, 2, 200, Side::Bid, 100, 10, TimeInForce::Ioc);
    assert_eq!(r2.trades.as_slice().len(), 1);
    assert_eq!(r2.trades.as_slice()[0].size, Size(10));
    assert_eq!(r2.trades.as_slice()[0].price, Price(100));
    assert_eq!(r2.remaining, Size(0));
    assert!(!r2.rested);
    assert_eq!(book.total_resting_orders(), 0);
}

#[test]
fn partial_fill_taker_rests_remainder_for_gtc() {
    let mut book = SpotOrderBook::new(SymbolId(1));
    place(&mut book, 1, 100, Side::Ask, 100, 5, TimeInForce::Gtc);
    let r = place(&mut book, 2, 200, Side::Bid, 100, 12, TimeInForce::Gtc);
    assert_eq!(r.filled, Size(5));
    assert_eq!(r.remaining, Size(7));
    assert!(r.rested);
    assert_eq!(book.best_bid(), Some(Price(100)));
}

#[test]
fn ioc_drops_remainder() {
    let mut book = SpotOrderBook::new(SymbolId(1));
    place(&mut book, 1, 100, Side::Ask, 100, 5, TimeInForce::Gtc);
    let r = place(&mut book, 2, 200, Side::Bid, 100, 12, TimeInForce::Ioc);
    assert_eq!(r.filled, Size(5));
    assert_eq!(r.remaining, Size(7));
    assert!(!r.rested);
    assert!(book.best_bid().is_none());
}

#[test]
fn fok_rejects_when_not_fully_fillable() {
    let mut book = SpotOrderBook::new(SymbolId(1));
    place(&mut book, 1, 100, Side::Ask, 100, 5, TimeInForce::Gtc);
    let r = place(&mut book, 2, 200, Side::Bid, 100, 12, TimeInForce::Fok);
    assert_eq!(r.reject, Some(RejectReason::FokUnfillable));
    assert!(r.trades.as_slice().is_empty());
    assert_eq!(book.best_ask(), Some(Price(100)));
}

#[test]
fn fok_fills_when_exactly_fillable() {
    let mut book = SpotOrderBook::new(SymbolId(1));
    place(&mut book, 1, 100, Side::Ask, 100, 5, TimeInForce::Gtc);
    place(&mut book, 2, 100, Side::Ask, 101, 7, TimeInForce::Gtc);
    let r = place(&mut book, 3, 200, Side::Bid, 101, 12, TimeInForce::Fok);
    assert!(r.reject.is_none());
    assert_eq!(r.trades.as_slice().len(), 2);
    assert_eq!(r.filled, Size(12));
}

#[test]
fn post_only_rejects_when_would_cross() {
    let mut book = SpotOrderBook::new(SymbolId(1));
    place(&mut book, 1, 100, Side::Ask, 100, 5, TimeInForce::Gtc);
    let r = place(&mut book, 2, 200, Side::Bid, 100, 5, TimeInForce::PostOnly);
    assert_eq!(r.reject, Some(RejectReason::PostOnlyWouldCross));
}

#[test]
fn post_only_rests_when_non_aggressive() {
    let mut book = SpotOrderBook::new(SymbolId(1));
    place(&mut book, 1, 100, Side::Ask, 100, 5, TimeInForce::Gtc);
    let r = place(&mut book, 2, 200, Side::Bid, 99, 5, TimeInForce::PostOnly);
    assert!(r.reject.is_none());
    assert!(r.rested);
}

#[test]
fn price_time_priority_within_bucket() {
    let mut book = SpotOrderBook::new(SymbolId(1));
    place(&mut book, 1, 100, Side::Ask, 100, 5, TimeInForce::Gtc);
    place(&mut book, 2, 101, Side::Ask, 100, 5, TimeInForce::Gtc);
    let r = place(&mut book, 3, 200, Side::Bid, 100, 5, TimeInForce::Gtc);
    assert_eq!(r.trades.as_slice().len(), 1);
    assert_eq!(r.trades.as_slice()[0].maker_user_id, UserId(100));
}

#[test]
fn best_price_priority_across_buckets() {
    let mut book = SpotOrderBook::new(SymbolId(1));
    place(&mut book, 1, 100, Side::Ask, 102, 5, TimeInForce::Gtc);
    place(&mut book, 2, 101, Side::Ask, 100, 5, TimeInForce::Gtc);
    let r = place(&mut book, 3, 200, Side::Bid, 102, 5, TimeInForce::Gtc);
    assert_eq!(r.trades.as_slice().len(), 1);
    assert_eq!(r.trades.as_slice()[0].price, Price(100));
}

#[test]
fn cancel_removes_from_book() {
    let mut book = SpotOrderBook::new(SymbolId(1));
    place(&mut book, 1, 100, Side::Ask, 100, 5, TimeInForce::Gtc);
    let c = book.cancel(OrderId(1)).unwrap();
    assert_eq!(c.remaining_size, Size(5));
    assert!(book.best_ask().is_none());
}

#[test]
fn cancel_unknown_returns_none() {
    let mut book = SpotOrderBook::new(SymbolId(1));
    assert!(book.cancel(OrderId(999)).is_none());
}

// ---- Self-trade prevention ----

#[test]
fn stp_none_allows_self_trade() {
    let mut book = SpotOrderBook::new(SymbolId(1));
    place(&mut book, 1, 100, Side::Ask, 100, 5, TimeInForce::Gtc);
    let r = place_stp(&mut book, 2, 100, Side::Bid, 100, 5, TimeInForce::Gtc,
                       SelfTradePrevention::Allow);
    assert_eq!(r.trades.as_slice().len(), 1);
    assert!(r.stp_cancellations.as_slice().is_empty());
    assert_eq!(r.filled, Size(5));
}

#[test]
fn stp_cancel_taker_stops_match() {
    let mut book = SpotOrderBook::new(SymbolId(1));
    place(&mut book, 1, 100, Side::Ask, 100, 5, TimeInForce::Gtc);
    let r = place_stp(&mut book, 2, 100, Side::Bid, 100, 5, TimeInForce::Gtc,
                       SelfTradePrevention::CancelTaker);
    assert!(r.trades.as_slice().is_empty());
    assert!(r.stp_cancellations.as_slice().is_empty());
    // Taker stopped, didn't rest (Gtc rests only if positive remaining
    // BUT cancel-taker semantics here drop the taker). Actually with
    // remaining=5 and Gtc, it WOULD rest. But user expects "cancel taker"
    // to drop the taker. Verify documented behavior: the book code returns
    // remaining; me-core decides whether to rest. With Gtc rest happens.
    assert_eq!(r.remaining, Size(5));
    // The maker is intact.
    assert_eq!(book.best_ask(), Some(Price(100)));
}

#[test]
fn stp_cancel_maker_removes_maker_and_continues() {
    let mut book = SpotOrderBook::new(SymbolId(1));
    // Two asks at 100: one same-user (uid=100), one other (uid=101).
    place(&mut book, 1, 100, Side::Ask, 100, 5, TimeInForce::Gtc);
    place(&mut book, 2, 101, Side::Ask, 100, 5, TimeInForce::Gtc);
    let r = place_stp(&mut book, 3, 100, Side::Bid, 100, 8, TimeInForce::Gtc,
                       SelfTradePrevention::CancelMaker);
    // Same-user maker removed (oid=1), trade happens against oid=2 (5 size).
    assert_eq!(r.stp_cancellations.as_slice().len(), 1);
    assert_eq!(r.stp_cancellations.as_slice()[0].order_id, OrderId(1));
    assert!(r.stp_cancellations.as_slice()[0].full_cancel);
    assert_eq!(r.trades.as_slice().len(), 1);
    assert_eq!(r.trades.as_slice()[0].maker_order_id, OrderId(2));
    assert_eq!(r.trades.as_slice()[0].size, Size(5));
    assert_eq!(r.filled, Size(5));
    assert_eq!(r.remaining, Size(3));
}

#[test]
fn stp_cancel_both_removes_maker_and_stops_taker() {
    let mut book = SpotOrderBook::new(SymbolId(1));
    place(&mut book, 1, 100, Side::Ask, 100, 5, TimeInForce::Gtc);
    place(&mut book, 2, 101, Side::Ask, 100, 5, TimeInForce::Gtc);
    let r = place_stp(&mut book, 3, 100, Side::Bid, 100, 8, TimeInForce::Gtc,
                       SelfTradePrevention::CancelBoth);
    assert_eq!(r.stp_cancellations.as_slice().len(), 1);
    assert_eq!(r.stp_cancellations.as_slice()[0].order_id, OrderId(1));
    assert!(r.trades.as_slice().is_empty());
    // Other-user maker stays untouched.
    assert_eq!(book.best_ask(), Some(Price(100)));
    // Taker had remaining 8, returned as-is.
    assert_eq!(r.remaining, Size(8));
}

#[test]
fn stp_decrement_and_cancel_taker_larger_than_maker() {
    let mut book = SpotOrderBook::new(SymbolId(1));
    // Same-user maker size 3, then other-user maker size 10.
    place(&mut book, 1, 100, Side::Ask, 100, 3, TimeInForce::Gtc);
    place(&mut book, 2, 101, Side::Ask, 100, 10, TimeInForce::Gtc);
    let r = place_stp(&mut book, 3, 100, Side::Bid, 100, 8, TimeInForce::Gtc,
                       SelfTradePrevention::DecrementAndCancel);
    // Same-user maker cancelled, taker decrements by 3 → 5 left.
    // Then taker matches 5 of the other-user maker normally.
    assert_eq!(r.stp_cancellations.as_slice().len(), 1);
    assert_eq!(r.stp_cancellations.as_slice()[0].order_id, OrderId(1));
    assert!(r.stp_cancellations.as_slice()[0].full_cancel);
    assert_eq!(r.stp_cancellations.as_slice()[0].size_cancelled, Size(3));
    assert_eq!(r.trades.as_slice().len(), 1);
    assert_eq!(r.trades.as_slice()[0].size, Size(5));
    assert_eq!(r.filled, Size(5));
    assert_eq!(r.remaining, Size(0));
}

#[test]
fn stp_decrement_and_cancel_maker_larger_than_taker() {
    let mut book = SpotOrderBook::new(SymbolId(1));
    place(&mut book, 1, 100, Side::Ask, 100, 10, TimeInForce::Gtc);
    let r = place_stp(&mut book, 2, 100, Side::Bid, 100, 3, TimeInForce::Gtc,
                       SelfTradePrevention::DecrementAndCancel);
    // Maker has 10, taker is 3. Reduce maker to 7, taker fully neutralised.
    assert_eq!(r.stp_cancellations.as_slice().len(), 1);
    assert_eq!(r.stp_cancellations.as_slice()[0].order_id, OrderId(1));
    assert!(!r.stp_cancellations.as_slice()[0].full_cancel);
    assert_eq!(r.stp_cancellations.as_slice()[0].size_cancelled, Size(3));
    assert!(r.trades.as_slice().is_empty());
    assert_eq!(r.remaining, Size(0));
    // Maker still on book with 7 remaining.
    let maker = book.get_order(OrderId(1)).unwrap();
    assert_eq!(maker.size_remaining, Size(7));
}

#[test]
fn stp_decrement_and_cancel_equal_sizes() {
    let mut book = SpotOrderBook::new(SymbolId(1));
    place(&mut book, 1, 100, Side::Ask, 100, 5, TimeInForce::Gtc);
    let r = place_stp(&mut book, 2, 100, Side::Bid, 100, 5, TimeInForce::Gtc,
                       SelfTradePrevention::DecrementAndCancel);
    assert_eq!(r.stp_cancellations.as_slice().len(), 1);
    // Maker fully cancelled, taker neutralised to 0.
    assert!(r.stp_cancellations.as_slice()[0].full_cancel);
    assert_eq!(r.stp_cancellations.as_slice()[0].size_cancelled, Size(5));
    assert!(r.trades.as_slice().is_empty());
    assert_eq!(r.remaining, Size(0));
    // Book is empty.
    assert!(book.best_ask().is_none());
}

// ---- Iceberg orders ----

#[test]
fn iceberg_shows_only_visible_slice_on_book() {
    let mut book = SpotOrderBook::new(SymbolId(1));
    // 100 total, 20 visible.
    place_iceberg(&mut book, 1, 100, Side::Ask, 50, 100, 20);
    // Total resting orders: 1 (single iceberg)
    assert_eq!(book.total_resting_orders(), 1);
    let order = book.get_order(OrderId(1)).unwrap();
    assert_eq!(order.size_remaining, Size(20));
    assert_eq!(order.hidden_remaining, Size(80));
    assert_eq!(order.visible_slice, Size(20));
}

#[test]
fn iceberg_refreshes_next_slice_when_visible_filled() {
    let mut book = SpotOrderBook::new(SymbolId(1));
    place_iceberg(&mut book, 1, 100, Side::Ask, 50, 100, 20);

    // Taker buys 20 — exactly the visible slice.
    let r = place(&mut book, 2, 200, Side::Bid, 50, 20, TimeInForce::Ioc);
    assert_eq!(r.trades.as_slice().len(), 1);
    assert_eq!(r.trades.as_slice()[0].size, Size(20));

    // Iceberg should have refreshed: visible 20, hidden 60.
    let order = book.get_order(OrderId(1)).unwrap();
    assert_eq!(order.size_remaining, Size(20));
    assert_eq!(order.hidden_remaining, Size(60));
}

#[test]
fn iceberg_consumes_all_slices_across_multiple_takers() {
    let mut book = SpotOrderBook::new(SymbolId(1));
    place_iceberg(&mut book, 1, 100, Side::Ask, 50, 100, 25);

    // Single 100 taker should consume all 4 slices.
    let r = place(&mut book, 2, 200, Side::Bid, 50, 100, TimeInForce::Ioc);
    // Each slice produces one trade.
    let total_filled: i64 = r.trades.as_slice().iter().map(|t| t.size.raw()).sum();
    assert_eq!(total_filled, 100);
    // Iceberg fully drained.
    assert!(book.get_order(OrderId(1)).is_none());
}

#[test]
fn iceberg_remainder_smaller_than_slice_emerges_intact() {
    let mut book = SpotOrderBook::new(SymbolId(1));
    // 50 total, 20 slice → last slice is 10.
    place_iceberg(&mut book, 1, 100, Side::Ask, 50, 50, 20);

    place(&mut book, 2, 200, Side::Bid, 50, 20, TimeInForce::Ioc);
    place(&mut book, 3, 200, Side::Bid, 50, 20, TimeInForce::Ioc);
    // After 40 filled, last slice = 10.
    let order = book.get_order(OrderId(1)).unwrap();
    assert_eq!(order.size_remaining, Size(10));
    assert_eq!(order.hidden_remaining, Size(0));
}

#[test]
fn iceberg_loses_time_priority_on_refresh() {
    let mut book = SpotOrderBook::new(SymbolId(1));
    // Iceberg first (will be head initially).
    place_iceberg(&mut book, 1, 100, Side::Ask, 50, 100, 10);
    // Regular order at same price (FIFO behind iceberg).
    place(&mut book, 2, 101, Side::Ask, 50, 5, TimeInForce::Gtc);

    // Taker buys 10 — fills first iceberg slice completely.
    place(&mut book, 3, 200, Side::Bid, 50, 10, TimeInForce::Ioc);
    // After the slice is consumed and refreshed, iceberg moves to tail.
    // Next taker buys 5 — should hit the regular order (oid=2), NOT the
    // refreshed iceberg slice.
    let r = place(&mut book, 4, 200, Side::Bid, 50, 5, TimeInForce::Ioc);
    assert_eq!(r.trades.as_slice().len(), 1);
    assert_eq!(r.trades.as_slice()[0].maker_order_id, OrderId(2));
}

#[test]
fn iceberg_rejects_visible_larger_than_size() {
    let mut book = SpotOrderBook::new(SymbolId(1));
    let r = place_iceberg(&mut book, 1, 100, Side::Ask, 50, 100, 150);
    assert!(matches!(r.reject, Some(RejectReason::UnsupportedCommand)));
}

#[test]
fn iceberg_rejects_zero_visible() {
    let mut book = SpotOrderBook::new(SymbolId(1));
    let r = place_iceberg(&mut book, 1, 100, Side::Ask, 50, 100, 0);
    assert!(matches!(r.reject, Some(RejectReason::UnsupportedCommand)));
}

#[test]
fn stp_does_not_apply_when_users_differ() {
    let mut book = SpotOrderBook::new(SymbolId(1));
    place(&mut book, 1, 100, Side::Ask, 100, 5, TimeInForce::Gtc);
    let r = place_stp(&mut book, 2, 200, Side::Bid, 100, 5, TimeInForce::Gtc,
                       SelfTradePrevention::CancelBoth);
    assert!(r.stp_cancellations.as_slice().is_empty());
    assert_eq!(r.trades.as_slice().len(), 1);
    assert_eq!(r.filled, Size(5));
}

#[test]
fn cancel_middle_of_bucket_preserves_linked_list() {
    let mut book = SpotOrderBook::new(SymbolId(1));
    place(&mut book, 1, 100, Side::Ask, 100, 3, TimeInForce::Gtc);
    place(&mut book, 2, 101, Side::Ask, 100, 3, TimeInForce::Gtc);
    place(&mut book, 3, 102, Side::Ask, 100, 3, TimeInForce::Gtc);
    book.cancel(OrderId(2)).unwrap();
    let r = place(&mut book, 4, 200, Side::Bid, 100, 6, TimeInForce::Gtc);
    assert_eq!(r.trades.as_slice().len(), 2);
    assert_eq!(r.trades.as_slice()[0].maker_order_id, OrderId(1));
    assert_eq!(r.trades.as_slice()[1].maker_order_id, OrderId(3));
}

#[test]
fn what_icebergs_hide_does_not_count_at_their_price() {
    let mut book = SpotOrderBook::new(SymbolId(1));
    let huge = i64::MAX;
    assert!(place_iceberg(&mut book, 1, 100, Side::Ask, 50, huge, 10).rested);
    assert!(place_iceberg(&mut book, 2, 200, Side::Ask, 50, huge, 20).rested);
    assert_eq!(book.get_order(OrderId(1)).unwrap().hidden_remaining, Size(huge - 10));
    // The first slice goes, and the next one stands behind the other order.
    let r = place(&mut book, 3, 300, Side::Bid, 50, 15, TimeInForce::Ioc);
    let sizes: Vec<_> =
        r.trades.as_slice().iter().map(|t| (t.maker_order_id.0, t.size.0)).collect();
    assert_eq!(sizes, [(1, 10), (2, 5)]);
    assert_eq!(book.get_order(OrderId(1)).unwrap().hidden_remaining, Size(huge - 20));
}

#[test]
fn only_an_order_that_rests_needs_an_id_of_its_own() {
    let mut book = SpotOrderBook::new(SymbolId(1));
    place(&mut book, 1, 100, Side::Bid, 90, 5, TimeInForce::Gtc);
    place(&mut book, 2, 100, Side::Ask, 100, 5, TimeInForce::Gtc);
    // It takes the id of a resting bid, trades and leaves the bid alone.
    let r = place(&mut book, 1, 200, Side::Bid, 100, 8, TimeInForce::Ioc);
    assert_eq!((r.filled, r.remaining, r.rested), (Size(5), Size(3), false));
    assert_eq!(book.best_bid(), Some(Price(90)));
    // So does one that is filled whole, and one that is refused.
    place(&mut book, 3, 100, Side::Ask, 100, 5, TimeInForce::Gtc);
    let r = place(&mut book, 1, 200, Side::Bid, 100, 5, TimeInForce::Gtc);
    assert_eq!((r.filled, r.rested), (Size(5), false));
    let r = place(&mut book, 1, 200, Side::Bid, 100, 5, TimeInForce::Fok);
    assert_eq!(r.reject, Some(RejectReason::FokUnfillable));
    assert_eq!(book.total_resting_orders(), 1);
}

#[test]
fn a_book_is_never_crossed_or_locked() {
    let preventions = [
        SelfTradePrevention::Allow,
        SelfTradePrevention::CancelMaker,
        SelfTradePrevention::DecrementAndCancel,
    ];
    let mut book = SpotOrderBook::new(SymbolId(1));
    let mut x: u64 = 7;
    for id in 1..400u64 {
        x = x.wrapping_mul(6_364_136_223_846_793_005).wrapping_add(1_442_695_040_888_963_407);
        let r = x >> 33;
        if r % 5 == 0 {
            book.cancel(OrderId(r % id));
        } else {
            let side = if r % 2 == 0 { Side::Bid } else { Side::Ask };
            let price = 95 + (r / 7 % 11) as i64;
            let size = 1 + (r / 77 % 9) as i64;
            let stp = preventions[(r / 693 % 3) as usize];
            place_stp(&mut book, id, 1 + r / 2079 % 3, side, price, size, TimeInForce::Gtc, stp);
        }
        if let (Some(bid), Some(ask)) = (book.best_bid(), book.best_ask()) {
            assert!(bid.0 < ask.0);
        }
    }
    assert!(book.total_resting_orders() > 0);
}
