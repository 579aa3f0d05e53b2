//! Accounts, holds, trades and derivative positions.
use matching_engine::risk::engine::{RiskEngine, exchange_account};
use matching_engine::risk::model::Mark;
use matching_engine::types::command::{AdjustBalance, PlaceOrder};
use matching_engine::types::enums::{OrderType, SelfTradePrevention, Side, TimeInForce};
use matching_engine::types::event::Trade;
use matching_engine::types::ids::{ClientOrderId, CurrencyId, OrderId, SymbolId, Timestamp, UserId};
use matching_engine::types::numeric::{Amount, Bps, Price, Size};
use matching_engine::types::reject::RejectReason;
use matching_engine::types::symbol::{
    FeeSchedule, PerpParams, PriceBand, SymbolKindParams, SymbolSpec,
};

fn spec_btc_usdt() -> SymbolSpec {
    SymbolSpec {
        symbol_id: SymbolId(1),
        base_currency: CurrencyId(1),
        quote_currency: CurrencyId(2),
        base_minor_per_major: 100_000_000,
        quote_minor_per_major: 1_000_000,
        tick_size: Price(1),
        lot_size: Size(1),
        min_order_size: Size(1),
        max_order_size: Size(i64::MAX),
        fee_schedule: FeeSchedule { maker_bps: Bps(10), taker_bps: Bps(20) },
        price_band: PriceBand::none(),
        kind_params: SymbolKindParams::Spot,
        is_suspended: false,
    }
}

fn spec_btc_perp() -> SymbolSpec {
    SymbolSpec {
        symbol_id: SymbolId(2),
        base_currency: CurrencyId(1),
        quote_currency: CurrencyId(2),
        base_minor_per_major: 100_000_000,
        quote_minor_per_major: 1_000_000,
        tick_size: Price(1),
        lot_size: Size(1),
        min_order_size: Size(1),
        max_order_size: Size(i64::MAX),
        fee_schedule: FeeSchedule { maker_bps: Bps(10), taker_bps: Bps(20) },
        price_band: PriceBand::none(),
        kind_params: SymbolKindParams::PerpetualSwap(PerpParams {
            initial_margin_bps: Bps(500),       // 5% IM
            maintenance_margin_bps: Bps(250),   // 2.5% MM
            funding_interval_secs: 28_800,
            max_leverage: 20,
        }),
        is_suspended: false,
    }
}

fn po(uid: u64, symbol: SymbolId, side: Side, price: i64, size: i64) -> PlaceOrder {
    PlaceOrder {
        user_id: UserId(uid),
        symbol_id: symbol,
        client_order_id: ClientOrderId(uid),
        side,
        order_type: OrderType::Limit,
        time_in_force: TimeInForce::Gtc,
        price: Some(Price(price)),
        size: Size(size),
        reserve_price: None,
        stop_price: None,
        visible_size: None,
        self_trade_prevention: SelfTradePrevention::Allow,
    }
}

fn deposit(r: &mut RiskEngine, uid: u64, cur: CurrencyId, amt: i64) {
    r.adjust_balance(&AdjustBalance {
        user_id: UserId(uid),
        currency_id: cur,
        delta: Amount(amt),
        transaction_id: 0,
    })
    .unwrap();
}

#[test]
fn deposit_credits_free() {
    let mut r = RiskEngine::new();
    r.add_user(UserId(1)).unwrap();
    deposit(&mut r, 1, CurrencyId(2), 1_000_000);
    assert_eq!(r.account(UserId(1)).unwrap().free(CurrencyId(2)), Amount(1_000_000));
}

#[test]
fn pre_check_bid_holds_quote() {
    let mut r = RiskEngine::new();
    let spec = spec_btc_usdt();
    r.add_user(UserId(1)).unwrap();
    deposit(&mut r, 1, CurrencyId(2), 1_000_000_000);
    r.pre_check_place(&po(1, SymbolId(1), Side::Bid, 50_000_000, 50_000_000), &spec, OrderId(1))
        .unwrap();
    let a = r.account(UserId(1)).unwrap();
    assert_eq!(a.held(CurrencyId(2)), Amount(25_050_000));
    assert_eq!(a.free(CurrencyId(2)), Amount(1_000_000_000 - 25_050_000));
}

#[test]
fn pre_check_ask_holds_base_one_to_one() {
    let mut r = RiskEngine::new();
    let spec = spec_btc_usdt();
    r.add_user(UserId(1)).unwrap();
    deposit(&mut r, 1, CurrencyId(1), 100_000_000);
    r.pre_check_place(&po(1, SymbolId(1), Side::Ask, 50_000_000, 50_000_000), &spec, OrderId(1))
        .unwrap();
    let a = r.account(UserId(1)).unwrap();
    assert_eq!(a.held(CurrencyId(1)), Amount(50_000_000));
    assert_eq!(a.free(CurrencyId(1)), Amount(50_000_000));
}

#[test]
fn release_hold_refunds_all() {
    let mut r = RiskEngine::new();
    let spec = spec_btc_usdt();
    r.add_user(UserId(1)).unwrap();
    deposit(&mut r, 1, CurrencyId(2), 1_000_000_000);
    r.pre_check_place(&po(1, SymbolId(1), Side::Bid, 50_000_000, 50_000_000), &spec, OrderId(1))
        .unwrap();
    r.release_hold(OrderId(1)).unwrap();
    let a = r.account(UserId(1)).unwrap();
    assert_eq!(a.held(CurrencyId(2)), Amount(0));
    assert_eq!(a.free(CurrencyId(2)), Amount(1_000_000_000));
}

#[test]
fn release_unknown_order_is_noop() {
    let mut r = RiskEngine::new();
    assert!(r.release_hold(OrderId(999)).is_ok());
}

#[test]
fn full_trade_settles_both_sides_and_conserves_money() {
    let mut r = RiskEngine::new();
    let spec = spec_btc_usdt();
    r.add_user(UserId(1)).unwrap();
    r.add_user(UserId(2)).unwrap();
    deposit(&mut r, 1, CurrencyId(1), 100_000_000);
    deposit(&mut r, 2, CurrencyId(2), 1_000_000_000);

    let total_btc_before = r.total_internal(CurrencyId(1));
    let total_usdt_before = r.total_internal(CurrencyId(2));

    r.pre_check_place(&po(1, SymbolId(1), Side::Ask, 50_000_000, 100_000_000), &spec, OrderId(1))
        .unwrap();
    r.pre_check_place(&po(2, SymbolId(1), Side::Bid, 50_000_000, 100_000_000), &spec, OrderId(2))
        .unwrap();

    let trade = Trade {
        symbol_id: SymbolId(1),
        price: Price(50_000_000),
        size: Size(100_000_000),
        taker_order_id: OrderId(2),
        taker_user_id: UserId(2),
        maker_order_id: OrderId(1),
        maker_user_id: UserId(1),
        taker_side: Side::Bid,
        timestamp: Timestamp(0),
    };
    r.apply_trade(&trade, &spec).unwrap();

    assert_eq!(r.total_internal(CurrencyId(1)), total_btc_before);
    assert_eq!(r.total_internal(CurrencyId(2)), total_usdt_before);
    assert!(r.hold(OrderId(1)).is_none());
    assert!(r.hold(OrderId(2)).is_none());
    assert!(r.account(UserId(1)).unwrap().free(CurrencyId(2)).raw() > 0);
    assert_eq!(r.account(UserId(2)).unwrap().free(CurrencyId(1)), Amount(100_000_000));
    assert!(r.account(exchange_account()).unwrap().free(CurrencyId(2)).raw() > 0);
}

#[test]
fn partial_fill_keeps_proportional_hold() {
    let mut r = RiskEngine::new();
    let spec = spec_btc_usdt();
    r.add_user(UserId(1)).unwrap();
    r.add_user(UserId(2)).unwrap();
    deposit(&mut r, 1, CurrencyId(1), 100_000_000);
    deposit(&mut r, 2, CurrencyId(2), 1_000_000_000);
    r.pre_check_place(&po(1, SymbolId(1), Side::Ask, 50_000_000, 100_000_000), &spec, OrderId(1))
        .unwrap();
    r.pre_check_place(&po(2, SymbolId(1), Side::Bid, 50_000_000, 100_000_000), &spec, OrderId(2))
        .unwrap();
    let trade = Trade {
        symbol_id: SymbolId(1),
        price: Price(50_000_000),
        size: Size(40_000_000),
        taker_order_id: OrderId(2),
        taker_user_id: UserId(2),
        maker_order_id: OrderId(1),
        maker_user_id: UserId(1),
        taker_side: Side::Bid,
        timestamp: Timestamp(0),
    };
    r.apply_trade(&trade, &spec).unwrap();
    assert_eq!(r.hold(OrderId(1)).unwrap().remaining_size, Size(60_000_000));
    assert_eq!(r.hold(OrderId(2)).unwrap().remaining_size, Size(60_000_000));
}

// ---- Derivatives ----

#[test]
fn derivative_pre_check_locks_isolated_margin() {
    let mut r = RiskEngine::new();
    let spec = spec_btc_perp();
    r.add_user(UserId(1)).unwrap();
    deposit(&mut r, 1, CurrencyId(2), 10_000_000_000);

    // Bid 50M satoshi at 50e6 micro-USDT/BTC, IMR = 5%, taker fee = 0.2%.
    // notional = 50_000_000 * 50_000_000 / 100_000_000 = 25_000_000
    // margin = 25_000_000 * 500 / 10_000 = 1_250_000
    // fee = 25_000_000 * 20 / 10_000 = 50_000
    // total locked = 1_300_000
    r.pre_check_place(&po(1, SymbolId(2), Side::Bid, 50_000_000, 50_000_000), &spec, OrderId(1))
        .unwrap();
    let a = r.account(UserId(1)).unwrap();
    assert_eq!(a.held(CurrencyId(2)), Amount(1_300_000));
    assert_eq!(a.free(CurrencyId(2)), Amount(10_000_000_000 - 1_300_000));
}

#[test]
fn derivative_flip_closes_then_opens_opposite() {
    let mut r = RiskEngine::new();
    let spec = spec_btc_perp();
    open_50m_long_at_50(&mut r, &spec);

    // Flip: ask 80M at price 55e6 → close 50M long + open 30M short.
    r.add_user(UserId(3)).unwrap();
    deposit(&mut r, 3, CurrencyId(2), 10_000_000_000);
    r.pre_check_place(&po(1, SymbolId(2), Side::Ask, 55_000_000, 80_000_000), &spec, OrderId(3))
        .unwrap();
    r.pre_check_place(&po(3, SymbolId(2), Side::Bid, 55_000_000, 80_000_000), &spec, OrderId(4))
        .unwrap();
    r.apply_trade(
        &Trade {
            symbol_id: SymbolId(2),
            price: Price(55_000_000),
            size: Size(80_000_000),
            taker_order_id: OrderId(3),
            taker_user_id: UserId(1),
            maker_order_id: OrderId(4),
            maker_user_id: UserId(3),
            taker_side: Side::Ask,
            timestamp: Timestamp(0),
        },
        &spec,
    )
    .unwrap();

    let pos = r.account(UserId(1)).unwrap().position(SymbolId(2)).unwrap();
    // Long 50M closes at +5M profit; new position is short 30M with entry at 55e6.
    assert_eq!(pos.size, Size(-30_000_000));
    assert_eq!(pos.entry_price, Price(55_000_000));
    // New margin = 30M × 55e6 × 5% / 1e8 = 825_000
    assert_eq!(pos.margin_locked, Amount(825_000));
}

#[test]
fn derivative_flip_conserves_with_marks() {
    let mut r = RiskEngine::new();
    let spec = spec_btc_perp();
    open_50m_long_at_50(&mut r, &spec);

    r.add_user(UserId(3)).unwrap();
    deposit(&mut r, 3, CurrencyId(2), 10_000_000_000);

    let mark = [Mark { symbol_id: SymbolId(2), price: Price(55_000_000), scale: 100_000_000 }];
    let total_before = r.total_internal_with_marks(CurrencyId(2), &mark);

    r.pre_check_place(&po(1, SymbolId(2), Side::Ask, 55_000_000, 80_000_000), &spec, OrderId(3))
        .unwrap();
    r.pre_check_place(&po(3, SymbolId(2), Side::Bid, 55_000_000, 80_000_000), &spec, OrderId(4))
        .unwrap();
    r.apply_trade(
        &Trade {
            symbol_id: SymbolId(2),
            price: Price(55_000_000),
            size: Size(80_000_000),
            taker_order_id: OrderId(3),
            taker_user_id: UserId(1),
            maker_order_id: OrderId(4),
            maker_user_id: UserId(3),
            taker_side: Side::Ask,
            timestamp: Timestamp(0),
        },
        &spec,
    )
    .unwrap();

    let total_after = r.total_internal_with_marks(CurrencyId(2), &mark);
    assert_eq!(total_before, total_after);
}

#[test]
fn derivative_full_trade_conserves_total() {
    let mut r = RiskEngine::new();
    let spec = spec_btc_perp();
    r.add_user(UserId(1)).unwrap();
    r.add_user(UserId(2)).unwrap();
    deposit(&mut r, 1, CurrencyId(2), 10_000_000_000);
    deposit(&mut r, 2, CurrencyId(2), 10_000_000_000);

    let total_before = r.total_internal(CurrencyId(2));

    r.pre_check_place(
        &po(1, SymbolId(2), Side::Bid, 50_000_000, 50_000_000),
        &spec,
        OrderId(1),
    )
    .unwrap();
    r.pre_check_place(
        &po(2, SymbolId(2), Side::Ask, 50_000_000, 50_000_000),
        &spec,
        OrderId(2),
    )
    .unwrap();
    r.apply_trade(
        &Trade {
            symbol_id: SymbolId(2),
            price: Price(50_000_000),
            size: Size(50_000_000),
            taker_order_id: OrderId(1),
            taker_user_id: UserId(1),
            maker_order_id: OrderId(2),
            maker_user_id: UserId(2),
            taker_side: Side::Bid,
            timestamp: Timestamp(0),
        },
        &spec,
    )
    .unwrap();

    // After the trade: U1 has long position with margin locked, U2 has
    // short position with margin locked, exchange has fees. Money is
    // conserved across all of these buckets.
    assert_eq!(r.total_internal(CurrencyId(2)), total_before);

    let p1 = r.account(UserId(1)).unwrap().position(SymbolId(2)).unwrap();
    let p2 = r.account(UserId(2)).unwrap().position(SymbolId(2)).unwrap();
    assert_eq!(p1.size, Size(50_000_000));
    assert_eq!(p2.size, Size(-50_000_000));
    assert_eq!(p1.entry_price, Price(50_000_000));
    assert_eq!(p2.entry_price, Price(50_000_000));
}

/// Helper: open a 50M long for U1 at price 50e6 by trading with U2.
fn open_50m_long_at_50(r: &mut RiskEngine, spec: &SymbolSpec) {
    r.add_user(UserId(1)).unwrap();
    r.add_user(UserId(2)).unwrap();
    deposit(r, 1, CurrencyId(2), 10_000_000_000);
    deposit(r, 2, CurrencyId(2), 10_000_000_000);
    r.pre_check_place(&po(1, SymbolId(2), Side::Bid, 50_000_000, 50_000_000), spec, OrderId(1))
        .unwrap();
    r.pre_check_place(&po(2, SymbolId(2), Side::Ask, 50_000_000, 50_000_000), spec, OrderId(2))
        .unwrap();
    r.apply_trade(
        &Trade {
            symbol_id: SymbolId(2),
            price: Price(50_000_000),
            size: Size(50_000_000),
            taker_order_id: OrderId(1),
            taker_user_id: UserId(1),
            maker_order_id: OrderId(2),
            maker_user_id: UserId(2),
            taker_side: Side::Bid,
            timestamp: Timestamp(0),
        },
        spec,
    )
    .unwrap();
}

#[test]
fn derivative_full_close_at_profit_realizes_pnl_and_resets_entry() {
    let mut r = RiskEngine::new();
    let spec = spec_btc_perp();
    open_50m_long_at_50(&mut r, &spec);

    let u1_before_quote = r.account(UserId(1)).unwrap().free(CurrencyId(2)).raw();
    let u1_before_position_margin =
        r.account(UserId(1)).unwrap().position(SymbolId(2)).unwrap().margin_locked.raw();

    // U3 takes U1's close at higher price (60e6) → U1 closes at profit.
    r.add_user(UserId(3)).unwrap();
    deposit(&mut r, 3, CurrencyId(2), 10_000_000_000);
    r.pre_check_place(&po(1, SymbolId(2), Side::Ask, 60_000_000, 50_000_000), &spec, OrderId(3))
        .unwrap();
    r.pre_check_place(&po(3, SymbolId(2), Side::Bid, 60_000_000, 50_000_000), &spec, OrderId(4))
        .unwrap();
    r.apply_trade(
        &Trade {
            symbol_id: SymbolId(2),
            price: Price(60_000_000),
            size: Size(50_000_000),
            taker_order_id: OrderId(3),
            taker_user_id: UserId(1),
            maker_order_id: OrderId(4),
            maker_user_id: UserId(3),
            taker_side: Side::Ask,
            timestamp: Timestamp(0),
        },
        &spec,
    )
    .unwrap();

    let pos = r.account(UserId(1)).unwrap().position(SymbolId(2)).unwrap();
    assert_eq!(pos.size, Size(0));
    assert_eq!(pos.margin_locked, Amount(0));
    assert_eq!(pos.entry_price, Price(0));

    // Profit per unit at (60e6 - 50e6) × 50M / 100M = 5_000_000.
    let u1_after_quote = r.account(UserId(1)).unwrap().free(CurrencyId(2)).raw();
    let gained = u1_after_quote - u1_before_quote;
    // Expected = margin returned + realized profit - fee.
    // margin returned ≈ u1_before_position_margin
    // realized profit = 5_000_000
    // fee on notional 30_000_000 at 20bps (ceil) = 60_000
    assert_eq!(gained, u1_before_position_margin + 5_000_000 - 60_000);
}

#[test]
fn derivative_partial_reduce_keeps_entry_and_releases_proportional_margin() {
    let mut r = RiskEngine::new();
    let spec = spec_btc_perp();
    open_50m_long_at_50(&mut r, &spec);

    let pos_before = r.account(UserId(1)).unwrap().position(SymbolId(2)).unwrap().clone();
    let prev_margin = pos_before.margin_locked.raw();

    // Reduce 20M of 50M long at price 55e6.
    r.add_user(UserId(3)).unwrap();
    deposit(&mut r, 3, CurrencyId(2), 10_000_000_000);
    r.pre_check_place(&po(1, SymbolId(2), Side::Ask, 55_000_000, 20_000_000), &spec, OrderId(3))
        .unwrap();
    r.pre_check_place(&po(3, SymbolId(2), Side::Bid, 55_000_000, 20_000_000), &spec, OrderId(4))
        .unwrap();
    r.apply_trade(
        &Trade {
            symbol_id: SymbolId(2),
            price: Price(55_000_000),
            size: Size(20_000_000),
            taker_order_id: OrderId(3),
            taker_user_id: UserId(1),
            maker_order_id: OrderId(4),
            maker_user_id: UserId(3),
            taker_side: Side::Ask,
            timestamp: Timestamp(0),
        },
        &spec,
    )
    .unwrap();

    let pos_after = r.account(UserId(1)).unwrap().position(SymbolId(2)).unwrap();
    // Position size dropped to 30M, entry unchanged at 50e6.
    assert_eq!(pos_after.size, Size(30_000_000));
    assert_eq!(pos_after.entry_price, Price(50_000_000));
    // Margin released proportionally: 20M / 50M = 40% of prev.
    let expected_remaining_margin = prev_margin * 30 / 50;
    // Allow a 1-unit rounding tolerance (integer truncation on division).
    assert!(
        (pos_after.margin_locked.raw() - expected_remaining_margin).abs() <= 1,
        "expected ~{}, got {}",
        expected_remaining_margin,
        pos_after.margin_locked.raw()
    );
}

#[test]
fn derivative_reduce_conserves_total_internal_with_marks() {
    let mut r = RiskEngine::new();
    let spec = spec_btc_perp();
    open_50m_long_at_50(&mut r, &spec);

    // Hold the mark fixed throughout — conservation must hold at any
    // single mark price across the trade.
    let mark = [Mark { symbol_id: SymbolId(2), price: Price(55_000_000), scale: 100_000_000 }];

    r.add_user(UserId(3)).unwrap();
    deposit(&mut r, 3, CurrencyId(2), 10_000_000_000);

    let total_before = r.total_internal_with_marks(CurrencyId(2), &mark);

    r.pre_check_place(&po(1, SymbolId(2), Side::Ask, 55_000_000, 20_000_000), &spec, OrderId(3))
        .unwrap();
    r.pre_check_place(&po(3, SymbolId(2), Side::Bid, 55_000_000, 20_000_000), &spec, OrderId(4))
        .unwrap();
    r.apply_trade(
        &Trade {
            symbol_id: SymbolId(2),
            price: Price(55_000_000),
            size: Size(20_000_000),
            taker_order_id: OrderId(3),
            taker_user_id: UserId(1),
            maker_order_id: OrderId(4),
            maker_user_id: UserId(3),
            taker_side: Side::Ask,
            timestamp: Timestamp(0),
        },
        &spec,
    )
    .unwrap();

    // At a fixed mark, total (realized + unrealized + margin) is invariant
    // across the trade. U1 realized +1M on the close, exactly offset by
    // U2 (still open short) gaining an extra 1M of mark-to-market loss
    // on the symmetric side.
    let total_after = r.total_internal_with_marks(CurrencyId(2), &mark);
    assert_eq!(total_before, total_after);
}

#[test]
fn derivative_close_at_loss_debits_balance() {
    let mut r = RiskEngine::new();
    let spec = spec_btc_perp();
    open_50m_long_at_50(&mut r, &spec);

    let u1_before_quote = r.account(UserId(1)).unwrap().free(CurrencyId(2)).raw();
    let u1_before_position_margin =
        r.account(UserId(1)).unwrap().position(SymbolId(2)).unwrap().margin_locked.raw();

    // Close at 40e6 (worse than 50e6 entry) → loss of 5M.
    r.add_user(UserId(3)).unwrap();
    deposit(&mut r, 3, CurrencyId(2), 10_000_000_000);
    r.pre_check_place(&po(1, SymbolId(2), Side::Ask, 40_000_000, 50_000_000), &spec, OrderId(3))
        .unwrap();
    r.pre_check_place(&po(3, SymbolId(2), Side::Bid, 40_000_000, 50_000_000), &spec, OrderId(4))
        .unwrap();
    r.apply_trade(
        &Trade {
            symbol_id: SymbolId(2),
            price: Price(40_000_000),
            size: Size(50_000_000),
            taker_order_id: OrderId(3),
            taker_user_id: UserId(1),
            maker_order_id: OrderId(4),
            maker_user_id: UserId(3),
            taker_side: Side::Ask,
            timestamp: Timestamp(0),
        },
        &spec,
    )
    .unwrap();

    let u1_after_quote = r.account(UserId(1)).unwrap().free(CurrencyId(2)).raw();
    // Net = margin returned + (-5_000_000 loss) - fee.
    // fee on notional 20_000_000 at 20bps = 40_000.
    let net_change = u1_after_quote - u1_before_quote;
    assert_eq!(net_change, u1_before_position_margin - 5_000_000 - 40_000);
}

#[test]
fn derivative_open_then_increase_updates_weighted_entry() {
    let mut r = RiskEngine::new();
    let spec = spec_btc_perp();
    r.add_user(UserId(1)).unwrap();
    r.add_user(UserId(2)).unwrap();
    deposit(&mut r, 1, CurrencyId(2), 10_000_000_000);
    deposit(&mut r, 2, CurrencyId(2), 10_000_000_000);

    // User 1 opens long at 50e6 for size 40M.
    r.pre_check_place(&po(1, SymbolId(2), Side::Bid, 50_000_000, 40_000_000), &spec, OrderId(1))
        .unwrap();
    r.pre_check_place(&po(2, SymbolId(2), Side::Ask, 50_000_000, 40_000_000), &spec, OrderId(2))
        .unwrap();
    r.apply_trade(
        &Trade {
            symbol_id: SymbolId(2),
            price: Price(50_000_000),
            size: Size(40_000_000),
            taker_order_id: OrderId(1),
            taker_user_id: UserId(1),
            maker_order_id: OrderId(2),
            maker_user_id: UserId(2),
            taker_side: Side::Bid,
            timestamp: Timestamp(0),
        },
        &spec,
    )
    .unwrap();

    // User 1 increases long at 60e6 for size 60M.
    r.add_user(UserId(3)).unwrap();
    deposit(&mut r, 3, CurrencyId(2), 10_000_000_000);
    r.pre_check_place(&po(1, SymbolId(2), Side::Bid, 60_000_000, 60_000_000), &spec, OrderId(3))
        .unwrap();
    r.pre_check_place(&po(3, SymbolId(2), Side::Ask, 60_000_000, 60_000_000), &spec, OrderId(4))
        .unwrap();
    r.apply_trade(
        &Trade {
            symbol_id: SymbolId(2),
            price: Price(60_000_000),
            size: Size(60_000_000),
            taker_order_id: OrderId(3),
            taker_user_id: UserId(1),
            maker_order_id: OrderId(4),
            maker_user_id: UserId(3),
            taker_side: Side::Bid,
            timestamp: Timestamp(0),
        },
        &spec,
    )
    .unwrap();

    let pos = r.account(UserId(1)).unwrap().position(SymbolId(2)).unwrap();
    assert_eq!(pos.size, Size(100_000_000));
    // Weighted entry = (40M*50e6 + 60M*60e6) / 100M = 56e6
    assert_eq!(pos.entry_price, Price(56_000_000));
}

fn transfer(r: &mut RiskEngine, uid: u64, cur: u32, amt: i64, id: u64) -> Result<(), RejectReason> {
    r.adjust_balance(&AdjustBalance {
        user_id: UserId(uid),
        currency_id: CurrencyId(cur),
        delta: Amount(amt),
        transaction_id: id,
    })
}

#[test]
fn a_transfer_counts_once() {
    let mut r = RiskEngine::new();
    r.add_user(UserId(1)).unwrap();
    r.add_user(UserId(2)).unwrap();
    assert_eq!(transfer(&mut r, 1, 2, 1_000, 7), Ok(()));
    assert_eq!(transfer(&mut r, 1, 2, 1_000, 7), Err(RejectReason::UnsupportedCommand));
    assert_eq!(transfer(&mut r, 1, 2, -400, 7), Err(RejectReason::UnsupportedCommand));
    assert_eq!(r.account(UserId(1)).unwrap().free(CurrencyId(2)), Amount(1_000));
    // Another user, another currency or another key.
    assert_eq!(transfer(&mut r, 2, 2, 5, 7), Ok(()));
    assert_eq!(transfer(&mut r, 1, 1, 6, 7), Ok(()));
    assert_eq!(transfer(&mut r, 1, 2, -400, 8), Ok(()));
    assert_eq!(r.account(UserId(1)).unwrap().free(CurrencyId(2)), Amount(600));
    // A refused one was never there.
    assert_eq!(transfer(&mut r, 1, 2, -601, 9), Err(RejectReason::InsufficientFunds));
    assert_eq!(transfer(&mut r, 1, 2, -600, 9), Ok(()));
    assert_eq!(transfer(&mut r, 3, 2, 1, 9), Err(RejectReason::UnknownUser));
}

#[test]
fn a_price_just_below_its_band_is_refused() {
    let mut r = RiskEngine::new();
    r.add_user(UserId(1)).unwrap();
    deposit(&mut r, 1, CurrencyId(1), 100);
    let band = PriceBand {
        upper_bps_from_ref: None,
        lower_bps_from_ref: Some(Bps(1_000)),
        reference_price: Some(Price(15)),
    };
    let spec = SymbolSpec { price_band: band, ..spec_btc_usdt() };
    // A tenth below 15 is 13 and a half.
    let low = po(1, SymbolId(1), Side::Ask, 13, 10);
    let refused = r.pre_check_place(&low, &spec, OrderId(1));
    assert_eq!(refused, Err(RejectReason::PriceBandViolation));
    assert_eq!(r.account(UserId(1)).unwrap().free(CurrencyId(1)), Amount(100));
    let good = po(1, SymbolId(1), Side::Ask, 14, 10);
    assert_eq!(r.pre_check_place(&good, &spec, OrderId(1)), Ok(()));
    assert_eq!(r.account(UserId(1)).unwrap().free(CurrencyId(1)), Amount(90));
}
