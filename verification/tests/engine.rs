//! Commands through the whole engine.
use matching_engine::engine::facade::MatchingEngine;
use matching_engine::types::command::{
    AddUser, AdjustBalance, CancelOrder, Command, ModifyOrder, PlaceOrder, SetMarkPrice,
};
use matching_engine::types::enums::{OrderType, SelfTradePrevention, Side, TimeInForce};
use matching_engine::types::event::Event;
use matching_engine::types::ids::{
    ClientOrderId, CurrencyId, OrderId, SeqNo, SymbolId, Timestamp, UserId,
};
use matching_engine::types::numeric::{Amount, Bps, Price, Size};
use matching_engine::types::receipt::{CommandReceipt, CommandStatus};
use matching_engine::types::reject::RejectReason;
use matching_engine::types::symbol::{FeeSchedule, PriceBand, SymbolKindParams, SymbolSpec};

fn build_engine() -> MatchingEngine {
    let mut eng = MatchingEngine::new();
    eng.register_symbol(SymbolSpec {
        symbol_id: SymbolId(1),
        base_currency: CurrencyId(1),
        quote_currency: CurrencyId(2),
        base_minor_per_major: 100_000_000,
        quote_minor_per_major: 1_000_000,
        tick_size: Price(1),
        lot_size: Size(1),
        min_order_size: Size(1),
        max_order_size: Size(i64::MAX),
        fee_schedule: FeeSchedule { maker_bps: Bps(10), taker_bps: Bps(20) },
        price_band: PriceBand::none(),
        kind_params: SymbolKindParams::Spot,
        is_suspended: false,
    })
    .unwrap();
    eng
}

fn add_user(eng: &mut MatchingEngine, uid: u64) {
    eng.submit(Command::AddUser(AddUser { user_id: UserId(uid) }), Timestamp(0));
}

fn deposit(eng: &mut MatchingEngine, uid: u64, currency: u32, amt: i64) {
    eng.submit(
        Command::AdjustBalance(AdjustBalance {
            user_id: UserId(uid),
            currency_id: CurrencyId(currency),
            delta: Amount(amt),
            transaction_id: 0,
        }),
        Timestamp(0),
    );
}

fn place(
    eng: &mut MatchingEngine,
    uid: u64,
    coid: u64,
    side: Side,
    price: i64,
    size: i64,
    tif: TimeInForce,
) -> CommandReceipt {
    eng.submit(
        Command::PlaceOrder(PlaceOrder {
            user_id: UserId(uid),
            symbol_id: SymbolId(1),
            client_order_id: ClientOrderId(coid),
            side,
            order_type: OrderType::Limit,
            time_in_force: tif,
            price: Some(Price(price)),
            size: Size(size),
            reserve_price: None,
            stop_price: None,
            visible_size: None,
            self_trade_prevention: SelfTradePrevention::Allow,
        }),
        Timestamp(0),
    )
}

#[test]
fn end_to_end_trade_conserves_money() {
    let mut eng = build_engine();
    add_user(&mut eng, 1);
    add_user(&mut eng, 2);
    deposit(&mut eng, 1, 1, 100_000_000);
    deposit(&mut eng, 2, 2, 1_000_000_000);

    let btc_before = eng.risk().total_internal(CurrencyId(1));
    let usdt_before = eng.risk().total_internal(CurrencyId(2));

    place(&mut eng, 1, 1, Side::Ask, 50_000_000, 100_000_000, TimeInForce::Gtc);
    let r = place(&mut eng, 2, 2, Side::Bid, 50_000_000, 100_000_000, TimeInForce::Ioc);
    assert_eq!(r.status, CommandStatus::Filled);

    assert_eq!(eng.risk().total_internal(CurrencyId(1)), btc_before);
    assert_eq!(eng.risk().total_internal(CurrencyId(2)), usdt_before);
}

#[test]
fn rejected_place_does_not_leak_hold() {
    let mut eng = build_engine();
    add_user(&mut eng, 1);
    deposit(&mut eng, 1, 2, 1_000_000_000);
    let usdt_before = eng.risk().total_internal(CurrencyId(2));
    let user_free_before = eng.risk().account(UserId(1)).unwrap().free(CurrencyId(2));

    let r = place(&mut eng, 1, 1, Side::Bid, 50_000_000, 100_000_000, TimeInForce::Fok);
    assert!(matches!(r.status, CommandStatus::Rejected(_)));

    assert_eq!(eng.risk().total_internal(CurrencyId(2)), usdt_before);
    assert_eq!(eng.risk().account(UserId(1)).unwrap().free(CurrencyId(2)), user_free_before);
    assert_eq!(eng.risk().account(UserId(1)).unwrap().held(CurrencyId(2)), Amount(0));
}

#[test]
fn cancel_returns_hold_to_free() {
    let mut eng = build_engine();
    add_user(&mut eng, 1);
    deposit(&mut eng, 1, 2, 1_000_000_000);
    let free_before = eng.risk().account(UserId(1)).unwrap().free(CurrencyId(2));

    let r = place(&mut eng, 1, 1, Side::Bid, 50_000_000, 100_000_000, TimeInForce::Gtc);
    assert_eq!(r.status, CommandStatus::Accepted);
    let order_id = match &r.events.as_slice()[0] {
        Event::OrderAccepted(a) => a.order_id,
        _ => panic!("expected OrderAccepted"),
    };

    eng.submit(
        Command::CancelOrder(CancelOrder {
            user_id: UserId(1),
            symbol_id: SymbolId(1),
            order_id,
        }),
        Timestamp(0),
    );

    assert_eq!(eng.risk().account(UserId(1)).unwrap().free(CurrencyId(2)), free_before);
    assert_eq!(eng.risk().account(UserId(1)).unwrap().held(CurrencyId(2)), Amount(0));
}

#[test]
fn ioc_partial_fill_releases_remainder() {
    let mut eng = build_engine();
    add_user(&mut eng, 1);
    add_user(&mut eng, 2);
    deposit(&mut eng, 1, 1, 100_000_000);
    deposit(&mut eng, 2, 2, 1_000_000_000);
    let usdt_before = eng.risk().total_internal(CurrencyId(2));
    let btc_before = eng.risk().total_internal(CurrencyId(1));

    place(&mut eng, 1, 1, Side::Ask, 50_000_000, 30_000_000, TimeInForce::Gtc);
    let r = place(&mut eng, 2, 2, Side::Bid, 50_000_000, 100_000_000, TimeInForce::Ioc);
    assert!(matches!(r.status, CommandStatus::PartiallyFilled));

    assert_eq!(eng.risk().total_internal(CurrencyId(1)), btc_before);
    assert_eq!(eng.risk().total_internal(CurrencyId(2)), usdt_before);
    assert_eq!(eng.risk().account(UserId(2)).unwrap().held(CurrencyId(2)), Amount(0));
}

#[test]
fn unknown_symbol_rejects() {
    let mut eng = MatchingEngine::new();
    add_user(&mut eng, 1);
    let r = place(&mut eng, 1, 1, Side::Bid, 100, 10, TimeInForce::Gtc);
    assert!(matches!(r.status, CommandStatus::Rejected(RejectReason::UnknownSymbol)));
}

#[test]
fn insufficient_funds_rejects() {
    let mut eng = build_engine();
    add_user(&mut eng, 1);
    let r = place(&mut eng, 1, 1, Side::Bid, 50_000_000, 100_000_000, TimeInForce::Gtc);
    assert!(matches!(r.status, CommandStatus::Rejected(RejectReason::InsufficientFunds)));
}

#[test]
fn last_applied_seq_advances() {
    let mut eng = MatchingEngine::new();
    assert_eq!(eng.last_applied_seq(), SeqNo(0));
    add_user(&mut eng, 1);
    let last = eng.last_applied_seq();
    assert_eq!(last, SeqNo(1));
    eng.submit(Command::Nop, Timestamp(0));
    assert_eq!(eng.last_applied_seq(), SeqNo(2));
}

#[test]
fn submit_batch_matches_n_individual_submits() {
    // Build the same scenario both ways and compare end state.
    fn run<F: FnMut(&mut MatchingEngine, Vec<(Command, Timestamp)>)>(mut driver: F) -> MatchingEngine {
        let mut eng = build_engine();
        let t = Timestamp(0);
        let cmds = vec![
            (Command::AddUser(AddUser { user_id: UserId(1) }), t),
            (Command::AddUser(AddUser { user_id: UserId(2) }), t),
            (
                Command::AdjustBalance(AdjustBalance {
                    user_id: UserId(1),
                    currency_id: CurrencyId(1),
                    delta: Amount(100_000_000),
                    transaction_id: 0,
                }),
                t,
            ),
            (
                Command::AdjustBalance(AdjustBalance {
                    user_id: UserId(2),
                    currency_id: CurrencyId(2),
                    delta: Amount(1_000_000_000),
                    transaction_id: 1,
                }),
                t,
            ),
            (
                Command::PlaceOrder(PlaceOrder {
                    user_id: UserId(1),
                    symbol_id: SymbolId(1),
                    client_order_id: ClientOrderId(1),
                    side: Side::Ask,
                    order_type: OrderType::Limit,
                    time_in_force: TimeInForce::Gtc,
                    price: Some(Price(50_000_000)),
                    size: Size(100_000_000),
                    reserve_price: None,
                    stop_price: None,
                    visible_size: None,
                    self_trade_prevention: SelfTradePrevention::Allow,
                }),
                t,
            ),
            (
                Command::PlaceOrder(PlaceOrder {
                    user_id: UserId(2),
                    symbol_id: SymbolId(1),
                    client_order_id: ClientOrderId(2),
                    side: Side::Bid,
                    order_type: OrderType::Limit,
                    time_in_force: TimeInForce::Ioc,
                    price: Some(Price(50_000_000)),
                    size: Size(100_000_000),
                    reserve_price: None,
                    stop_price: None,
                    visible_size: None,
                    self_trade_prevention: SelfTradePrevention::Allow,
                }),
                t,
            ),
        ];
        driver(&mut eng, cmds);
        eng
    }

    let one_by_one = run(|eng, cmds| {
        for (cmd, ts) in cmds {
            eng.submit(cmd, ts);
        }
    });
    let batched = run(|eng, cmds| {
        eng.submit_batch(cmds);
    });

    for cur in [CurrencyId(1), CurrencyId(2)] {
        assert_eq!(
            one_by_one.risk().total_internal(cur),
            batched.risk().total_internal(cur)
        );
    }
    assert_eq!(one_by_one.last_applied_seq(), batched.last_applied_seq());
}

// ---- Market orders ----

fn place_market(
    eng: &mut MatchingEngine,
    uid: u64,
    coid: u64,
    side: Side,
    reserve_price: Option<i64>,
    size: i64,
) -> CommandReceipt {
    eng.submit(
        Command::PlaceOrder(PlaceOrder {
            user_id: UserId(uid),
            symbol_id: SymbolId(1),
            client_order_id: ClientOrderId(coid),
            side,
            order_type: OrderType::Market,
            time_in_force: TimeInForce::Ioc,
            price: None,
            size: Size(size),
            reserve_price: reserve_price.map(Price),
            stop_price: None,
            visible_size: None,
            self_trade_prevention: SelfTradePrevention::Allow,
        }),
        Timestamp(0),
    )
}

#[test]
fn market_bid_fills_available_liquidity_up_to_reserve() {
    let mut eng = build_engine();
    add_user(&mut eng, 1);
    add_user(&mut eng, 2);
    deposit(&mut eng, 1, 1, 100_000_000);
    deposit(&mut eng, 2, 2, 10_000_000_000);

    place(&mut eng, 1, 1, Side::Ask, 50_000_000, 100_000_000, TimeInForce::Gtc);
    let r = place_market(&mut eng, 2, 2, Side::Bid, Some(60_000_000), 50_000_000);
    // Filled at maker price 50e6, not at the 60e6 reserve.
    assert_eq!(r.status, CommandStatus::Filled);
}

#[test]
fn market_ask_sells_at_any_bid_price() {
    let mut eng = build_engine();
    add_user(&mut eng, 1);
    add_user(&mut eng, 2);
    deposit(&mut eng, 1, 1, 100_000_000);
    deposit(&mut eng, 2, 2, 10_000_000_000);

    // Buyer has a bid at 30e6 (much lower than 50e6 mid).
    place(&mut eng, 2, 1, Side::Bid, 30_000_000, 50_000_000, TimeInForce::Gtc);
    // Seller market-asks 50M — should hit the 30e6 bid regardless of "fair" price.
    let r = place_market(&mut eng, 1, 2, Side::Ask, None, 50_000_000);
    assert_eq!(r.status, CommandStatus::Filled);
}

#[test]
fn market_bid_without_reserve_rejects() {
    let mut eng = build_engine();
    add_user(&mut eng, 1);
    deposit(&mut eng, 1, 2, 10_000_000_000);

    let r = place_market(&mut eng, 1, 1, Side::Bid, None, 50_000_000);
    assert!(matches!(r.status, CommandStatus::Rejected(RejectReason::MissingPrice)));
}

// ---- Stop orders ----

fn place_stop_limit(
    eng: &mut MatchingEngine,
    uid: u64,
    coid: u64,
    side: Side,
    stop_price: i64,
    limit_price: i64,
    size: i64,
) -> CommandReceipt {
    eng.submit(
        Command::PlaceOrder(PlaceOrder {
            user_id: UserId(uid),
            symbol_id: SymbolId(1),
            client_order_id: ClientOrderId(coid),
            side,
            order_type: OrderType::StopLimit,
            time_in_force: TimeInForce::Gtc,
            price: Some(Price(limit_price)),
            size: Size(size),
            reserve_price: None,
            stop_price: Some(Price(stop_price)),
            visible_size: None,
            self_trade_prevention: SelfTradePrevention::Allow,
        }),
        Timestamp(0),
    )
}

fn set_mark(eng: &mut MatchingEngine, price: i64) {
    eng.submit(
        Command::SetMarkPrice(SetMarkPrice {
            symbol_id: SymbolId(1),
            mark_price: Price(price),
        }),
        Timestamp(0),
    );
}

#[test]
fn stop_pending_until_mark_crosses() {
    let mut eng = build_engine();
    add_user(&mut eng, 1);
    add_user(&mut eng, 2);
    deposit(&mut eng, 1, 1, 100_000_000);
    deposit(&mut eng, 2, 2, 10_000_000_000);

    // Resting ask at 50e6 so a triggered buy stop has liquidity.
    place(&mut eng, 1, 1, Side::Ask, 50_000_000, 100_000_000, TimeInForce::Gtc);
    // Buy stop @ 55e6 with limit 60e6. Mark unset/below 55 → pending.
    let r = place_stop_limit(&mut eng, 2, 2, Side::Bid, 55_000_000, 60_000_000, 50_000_000);
    assert_eq!(r.status, CommandStatus::Accepted);
    // No trade yet — the resting ask is untouched.
    assert_eq!(eng.book(SymbolId(1)).unwrap().best_ask(), Some(Price(50_000_000)));
}

#[test]
fn buy_stop_triggers_when_mark_reaches_stop_price() {
    let mut eng = build_engine();
    add_user(&mut eng, 1);
    add_user(&mut eng, 2);
    deposit(&mut eng, 1, 1, 100_000_000);
    deposit(&mut eng, 2, 2, 10_000_000_000);

    place(&mut eng, 1, 1, Side::Ask, 50_000_000, 100_000_000, TimeInForce::Gtc);
    place_stop_limit(&mut eng, 2, 2, Side::Bid, 55_000_000, 60_000_000, 50_000_000);

    // Mark rises to 55e6 → stop triggers.
    let r = eng.submit(
        Command::SetMarkPrice(SetMarkPrice {
            symbol_id: SymbolId(1),
            mark_price: Price(55_000_000),
        }),
        Timestamp(0),
    );
    // The triggered stop's events fold into the SetMarkPrice receipt.
    let trade = r.events.as_slice().iter().find_map(|e| match e {
        Event::Trade(t) => Some(t.clone()),
        _ => None,
    });
    let trade = trade.expect("expected a trade from the triggered stop");
    // Bought 50M of the resting 100M ask at fill price 50e6 (maker's price).
    assert_eq!(trade.size, Size(50_000_000));
    assert_eq!(trade.price, Price(50_000_000));
    // 50M of the original 100M ask remains on the book.
    assert_eq!(eng.book(SymbolId(1)).unwrap().best_ask(), Some(Price(50_000_000)));
}

#[test]
fn sell_stop_triggers_when_mark_falls() {
    let mut eng = build_engine();
    add_user(&mut eng, 1);
    add_user(&mut eng, 2);
    deposit(&mut eng, 1, 1, 100_000_000);
    deposit(&mut eng, 2, 2, 10_000_000_000);

    // Resting bid at 40e6.
    place(&mut eng, 2, 1, Side::Bid, 40_000_000, 50_000_000, TimeInForce::Gtc);
    // Sell stop @ 45e6 with limit 39e6. Mark not set → pending.
    place_stop_limit(&mut eng, 1, 2, Side::Ask, 45_000_000, 39_000_000, 50_000_000);

    // Set mark BELOW the stop price → triggers.
    set_mark(&mut eng, 44_000_000);
    // Bid consumed.
    assert!(eng.book(SymbolId(1)).unwrap().best_bid().is_none());
}

#[test]
fn stop_does_not_trigger_if_mark_doesnt_cross() {
    let mut eng = build_engine();
    add_user(&mut eng, 1);
    add_user(&mut eng, 2);
    deposit(&mut eng, 1, 1, 100_000_000);
    deposit(&mut eng, 2, 2, 10_000_000_000);

    place(&mut eng, 1, 1, Side::Ask, 50_000_000, 100_000_000, TimeInForce::Gtc);
    place_stop_limit(&mut eng, 2, 2, Side::Bid, 55_000_000, 60_000_000, 50_000_000);

    // Mark moves but doesn't reach 55e6.
    set_mark(&mut eng, 54_999_999);
    assert!(eng.book(SymbolId(1)).unwrap().best_ask().is_some());
}

// ---- ModifyOrder ----

fn modify_order(
    eng: &mut MatchingEngine,
    uid: u64,
    order_id: u64,
    new_price: Option<i64>,
    new_size: Option<i64>,
) -> CommandReceipt {
    eng.submit(
        Command::ModifyOrder(ModifyOrder {
            user_id: UserId(uid),
            symbol_id: SymbolId(1),
            order_id: OrderId(order_id),
            new_price: new_price.map(Price),
            new_size: new_size.map(Size),
        }),
        Timestamp(0),
    )
}

fn place_get_order_id(
    eng: &mut MatchingEngine,
    uid: u64,
    coid: u64,
    side: Side,
    price: i64,
    size: i64,
) -> OrderId {
    let r = place(eng, uid, coid, side, price, size, TimeInForce::Gtc);
    match r.events.as_slice().iter().find(|e| matches!(e, Event::OrderAccepted(_))) {
        Some(Event::OrderAccepted(a)) => a.order_id,
        _ => panic!("expected OrderAccepted"),
    }
}

#[test]
fn modify_changes_price_loses_priority() {
    let mut eng = build_engine();
    add_user(&mut eng, 1);
    deposit(&mut eng, 1, 2, 10_000_000_000);

    let oid = place_get_order_id(&mut eng, 1, 1, Side::Bid, 50_000_000, 10_000_000);

    let r = modify_order(&mut eng, 1, oid.0, Some(48_000_000), None);
    // Old order cancelled, new order placed at new price.
    let cancelled = r.events.as_slice().iter().any(|e| matches!(e, Event::OrderCancelled(c) if c.order_id == oid));
    let accepted_new = r.events.as_slice().iter().any(|e| matches!(e, Event::OrderAccepted(a) if a.order_id != oid));
    assert!(cancelled, "old order should be cancelled");
    assert!(accepted_new, "new order should be accepted");
    assert_eq!(eng.book(SymbolId(1)).unwrap().best_bid(), Some(Price(48_000_000)));
}

#[test]
fn modify_reduces_size() {
    let mut eng = build_engine();
    add_user(&mut eng, 1);
    deposit(&mut eng, 1, 2, 10_000_000_000);

    let oid = place_get_order_id(&mut eng, 1, 1, Side::Bid, 50_000_000, 10_000_000);
    let r = modify_order(&mut eng, 1, oid.0, None, Some(4_000_000));
    assert!(matches!(r.status, CommandStatus::Accepted));
    // New order's size is 4M, at original price.
    let new_oid = match r.events.as_slice().iter().find(|e| matches!(e, Event::OrderAccepted(a) if a.order_id != oid)) {
        Some(Event::OrderAccepted(a)) => a.order_id,
        _ => panic!("no new accepted"),
    };
    let new_order = eng.book(SymbolId(1)).unwrap().get_order(new_oid).unwrap();
    assert_eq!(new_order.size_remaining, Size(4_000_000));
    assert_eq!(new_order.price, Price(50_000_000));
}

#[test]
fn modify_increases_size_with_sufficient_funds() {
    let mut eng = build_engine();
    add_user(&mut eng, 1);
    deposit(&mut eng, 1, 2, 10_000_000_000);

    let oid = place_get_order_id(&mut eng, 1, 1, Side::Bid, 50_000_000, 5_000_000);
    let r = modify_order(&mut eng, 1, oid.0, None, Some(20_000_000));
    assert!(matches!(r.status, CommandStatus::Accepted));
    let new_oid = match r.events.as_slice().iter().find(|e| matches!(e, Event::OrderAccepted(a) if a.order_id != oid)) {
        Some(Event::OrderAccepted(a)) => a.order_id,
        _ => panic!("no new accepted"),
    };
    let new_order = eng.book(SymbolId(1)).unwrap().get_order(new_oid).unwrap();
    assert_eq!(new_order.size_remaining, Size(20_000_000));
}

#[test]
fn modify_unknown_order_rejects() {
    let mut eng = build_engine();
    add_user(&mut eng, 1);
    deposit(&mut eng, 1, 2, 10_000_000_000);

    let r = modify_order(&mut eng, 1, 999, Some(48_000_000), None);
    assert!(matches!(r.status, CommandStatus::Rejected(RejectReason::UnknownOrder)));
}

#[test]
fn modify_by_non_owner_rejects() {
    let mut eng = build_engine();
    add_user(&mut eng, 1);
    add_user(&mut eng, 2);
    deposit(&mut eng, 1, 2, 10_000_000_000);

    let oid = place_get_order_id(&mut eng, 1, 1, Side::Bid, 50_000_000, 10_000_000);
    // User 2 tries to modify user 1's order.
    let r = modify_order(&mut eng, 2, oid.0, Some(48_000_000), None);
    assert!(matches!(r.status, CommandStatus::Rejected(RejectReason::UnknownOrder)));
    // Original order still on the book.
    assert_eq!(eng.book(SymbolId(1)).unwrap().best_bid(), Some(Price(50_000_000)));
}

#[test]
fn modify_returns_full_hold_when_replacement_fails_pre_check() {
    let mut eng = build_engine();
    add_user(&mut eng, 1);
    // Deposit just enough for the initial order plus tiny buffer.
    deposit(&mut eng, 1, 2, 600_000_000);

    // 10M at 50e6 = notional 5_000_000, + 0.2% fee = 10_000 → hold ~5_010_000.
    let oid = place_get_order_id(&mut eng, 1, 1, Side::Bid, 50_000_000, 10_000_000);
    // Try to grow to 200M (notional 100_000_000) — too expensive.
    let r = modify_order(&mut eng, 1, oid.0, None, Some(2_000_000_000));
    assert!(matches!(r.status, CommandStatus::Rejected(RejectReason::InsufficientFunds)));
    // Old order is gone (cancelled atomically), held funds returned.
    assert!(eng.book(SymbolId(1)).unwrap().get_order(oid).is_none());
    let user1 = eng.risk().account(UserId(1)).unwrap();
    assert_eq!(user1.held(CurrencyId(2)).raw(), 0);
}

#[test]
fn stop_without_stop_price_rejects() {
    let mut eng = build_engine();
    add_user(&mut eng, 1);
    deposit(&mut eng, 1, 2, 10_000_000_000);
    let r = eng.submit(
        Command::PlaceOrder(PlaceOrder {
            user_id: UserId(1),
            symbol_id: SymbolId(1),
            client_order_id: ClientOrderId(1),
            side: Side::Bid,
            order_type: OrderType::StopLimit,
            time_in_force: TimeInForce::Gtc,
            price: Some(Price(60_000_000)),
            size: Size(50_000_000),
            reserve_price: None,
            stop_price: None,
            visible_size: None,
            self_trade_prevention: SelfTradePrevention::Allow,
        }),
        Timestamp(0),
    );
    assert!(matches!(r.status, CommandStatus::Rejected(RejectReason::MissingPrice)));
}

#[test]
fn market_with_no_liquidity_cancels() {
    let mut eng = build_engine();
    add_user(&mut eng, 1);
    deposit(&mut eng, 1, 2, 10_000_000_000);

    // Empty ask side — Market Bid finds nothing.
    let r = place_market(&mut eng, 1, 1, Side::Bid, Some(50_000_000), 50_000_000);
    // No fill, IOC drops it → Cancelled.
    assert!(matches!(r.status, CommandStatus::Cancelled));
}

#[test]
fn submit_batch_empty_is_noop() {
    let mut eng = build_engine();
    let before = eng.last_applied_seq();
    let receipts = eng.submit_batch(vec![]);
    assert!(receipts.is_empty());
    assert_eq!(eng.last_applied_seq(), before);
}
