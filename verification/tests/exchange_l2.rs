//! Market depth.
use matching_engine::exchange::api::{
    CommandResultCode, CoreSymbolSpecification, L2MarketData, OrderAction, OrderCommand,
    OrderCommandType, OrderType, SelfTradePrevention, SymbolType,
};
use matching_engine::exchange::book::DirectOrderBook;
use matching_engine::exchange::optimized::DirectOrderBookOptimized;

fn spec() -> CoreSymbolSpecification {
    CoreSymbolSpecification {
        symbol_id: 1,
        symbol_type: SymbolType::CurrencyExchangePair,
        base_currency: 0,
        quote_currency: 1,
        base_scale_k: 1,
        quote_scale_k: 1,
        taker_fee: 0,
        maker_fee: 0,
        margin_buy: 0,
        margin_sell: 0,
        stp: SelfTradePrevention::Allow,
    }
}


fn order(uid: u64, id: u64, action: OrderAction, price: i64, size: i64) -> OrderCommand {
    OrderCommand {
        command: OrderCommandType::PlaceOrder,
        uid,
        order_id: id,
        symbol: 1,
        price,
        reserve_price: price,
        size,
        action,
        order_type: OrderType::Gtc,
        ..Default::default()
    }
}

/// Three asks and three bids that do not meet, out of order.
fn orders() -> Vec<OrderCommand> {
    vec![
        order(1, 1, OrderAction::Ask, 103, 3),
        order(1, 2, OrderAction::Ask, 101, 1),
        order(1, 3, OrderAction::Ask, 102, 2),
        order(2, 4, OrderAction::Bid, 97, 7),
        order(2, 5, OrderAction::Bid, 99, 9),
        order(2, 6, OrderAction::Bid, 98, 8),
    ]
}

/// Ten levels show the whole book, with the best price first on both sides.
fn check_l2(l2: L2MarketData, total_ask: i64, total_bid: i64) {
    assert_eq!(l2.ask_prices, vec![101, 102, 103]);
    assert_eq!(l2.ask_volumes, vec![1, 2, 3]);
    assert_eq!(l2.bid_prices, vec![99, 98, 97]);
    assert_eq!(l2.bid_volumes, vec![9, 8, 7]);
    assert_eq!(l2.ask_volumes.iter().sum::<i64>(), total_ask);
    assert_eq!(l2.bid_volumes.iter().sum::<i64>(), total_bid);
}

/// Two levels are the best two.
fn check_l2_depth(l2: L2MarketData) {
    assert_eq!(l2.ask_prices, vec![101, 102]);
    assert_eq!(l2.bid_prices, vec![99, 98]);
}

#[test]
fn l2_ordering_direct() {
    let mut book = DirectOrderBook::new(spec());
    for mut cmd in orders() {
        assert_eq!(book.new_order(&mut cmd), CommandResultCode::Success);
    }
    check_l2(book.get_l2_data(10), book.get_total_ask_volume(), book.get_total_bid_volume());
    check_l2_depth(book.get_l2_data(2));
}

#[test]
fn l2_ordering_direct_optimized() {
    let mut book = DirectOrderBookOptimized::new(spec());
    for mut cmd in orders() {
        assert_eq!(book.new_order(&mut cmd), CommandResultCode::Success);
    }
    check_l2(book.get_l2_data(10), book.get_total_ask_volume(), book.get_total_bid_volume());
    check_l2_depth(book.get_l2_data(2));
}
