//! What holds of the engine, on concrete values.
use matching_engine::engine::facade::MatchingEngine;
use matching_engine::matching::book::SpotOrderBook;
use matching_engine::matching::outcome::{PlaceParams, PlacementOutcome};
use matching_engine::risk::engine::RiskEngine;
use matching_engine::types::command::{
    AddUser, AdjustBalance, ApplyFunding, CancelOrder, Command, ModifyOrder, PlaceOrder,
    SetMarkPrice, SettleFuture,
};
use matching_engine::types::enums::{OrderType, SelfTradePrevention, Side, TimeInForce};
use matching_engine::types::ids::{
    ClientOrderId, CurrencyId, OrderId, SeqNo, SymbolId, Timestamp, UserId,
};
use matching_engine::types::numeric::{Amount, Bps, Price, Size};
use matching_engine::types::receipt::{CommandReceipt, CommandStatus};
use matching_engine::types::reject::RejectReason;
use matching_engine::types::symbol::{
    FeeSchedule, FutureParams, PerpParams, PriceBand, SymbolKindParams, SymbolSpec,
};

const BTC: CurrencyId = CurrencyId(1);
const USDT: CurrencyId = CurrencyId(2);

fn spec(id: u32, kind_params: SymbolKindParams) -> SymbolSpec {
    SymbolSpec {
        symbol_id: SymbolId(id),
        base_currency: BTC,
        quote_currency: USDT,
        base_minor_per_major: 100,
        quote_minor_per_major: 1,
        tick_size: Price(5),
        lot_size: Size(2),
        min_order_size: Size(4),
        max_order_size: Size(1_000_000),
        fee_schedule: FeeSchedule { maker_bps: Bps(10), taker_bps: Bps(20) },
        price_band: PriceBand::none(),
        kind_params,
        is_suspended: false,
    }
}

fn perp() -> SymbolKindParams {
    SymbolKindParams::PerpetualSwap(PerpParams {
        initial_margin_bps: Bps(500),
        maintenance_margin_bps: Bps(250),
        funding_interval_secs: 28_800,
        max_leverage: 20,
    })
}

fn future() -> SymbolKindParams {
    SymbolKindParams::Future(FutureParams {
        expiry: Timestamp(0),
        initial_margin_bps: Bps(500),
        maintenance_margin_bps: Bps(250),
        settlement_currency: USDT,
    })
}

fn engine(kinds: &[SymbolKindParams]) -> MatchingEngine {
    let mut eng = MatchingEngine::new();
    for (i, kind) in kinds.iter().enumerate() {
        assert_eq!(eng.register_symbol(spec(1 + i as u32, *kind)), Ok(()));
    }
    for uid in [1u64, 2] {
        eng.submit(Command::AddUser(AddUser { user_id: UserId(uid) }), Timestamp(0));
        for currency_id in [BTC, USDT] {
            eng.submit(
                Command::AdjustBalance(AdjustBalance {
                    user_id: UserId(uid),
                    currency_id,
                    delta: Amount(1_000_000),
                    transaction_id: 0,
                }),
                Timestamp(0),
            );
        }
    }
    eng
}

fn order(uid: u64, side: Side, price: i64, size: i64) -> PlaceOrder {
    PlaceOrder {
        user_id: UserId(uid),
        symbol_id: SymbolId(1),
        client_order_id: ClientOrderId(0),
        side,
        order_type: OrderType::Limit,
        time_in_force: TimeInForce::Gtc,
        price: Some(Price(price)),
        size: Size(size),
        reserve_price: None,
        stop_price: None,
        visible_size: None,
        self_trade_prevention: SelfTradePrevention::Allow,
    }
}

fn place(eng: &mut MatchingEngine, p: PlaceOrder) -> CommandReceipt {
    eng.submit(Command::PlaceOrder(p), Timestamp(0))
}

fn refused(eng: &mut MatchingEngine, p: PlaceOrder, reason: RejectReason) {
    assert_eq!(place(eng, p).status, CommandStatus::Rejected(reason));
}

// ---- Every reason for refusing an order ----

#[test]
fn orders_are_refused_for_a_reason() {
    let mut eng = engine(&[SymbolKindParams::Spot]);
    let good = order(1, Side::Bid, 50, 100);
    refused(&mut eng, PlaceOrder { user_id: UserId(9), ..good }, RejectReason::UnknownUser);
    refused(&mut eng, PlaceOrder { symbol_id: SymbolId(9), ..good }, RejectReason::UnknownSymbol);
    refused(&mut eng, PlaceOrder { price: None, ..good }, RejectReason::MissingPrice);
    refused(&mut eng, PlaceOrder { price: Some(Price(51)), ..good }, RejectReason::PriceTickMisaligned);
    refused(&mut eng, PlaceOrder { size: Size(101), ..good }, RejectReason::SizeLotMisaligned);
    refused(&mut eng, PlaceOrder { size: Size(2), ..good }, RejectReason::SizeBelowMinimum);
    refused(&mut eng, PlaceOrder { size: Size(1_000_002), ..good }, RejectReason::SizeAboveMaximum);
    refused(
        &mut eng,
        PlaceOrder { reserve_price: Some(Price(45)), ..good },
        RejectReason::InvalidReservePrice,
    );
    refused(
        &mut eng,
        PlaceOrder { price: Some(Price(5_000_000)), ..good },
        RejectReason::InsufficientFunds,
    );
    let fok = PlaceOrder { time_in_force: TimeInForce::Fok, ..good };
    refused(&mut eng, fok, RejectReason::FokUnfillable);
    assert_eq!(place(&mut eng, order(2, Side::Ask, 50, 100)).status, CommandStatus::Accepted);
    let post = PlaceOrder { time_in_force: TimeInForce::PostOnly, ..good };
    refused(&mut eng, post, RejectReason::PostOnlyWouldCross);
    eng.submit(Command::SuspendUser(UserId(1)), Timestamp(0));
    refused(&mut eng, good, RejectReason::UserSuspended);
    eng.submit(Command::ResumeUser(UserId(1)), Timestamp(0));
    assert_eq!(place(&mut eng, good).status, CommandStatus::Filled);
}

#[test]
fn orders_that_cost_too_much_are_refused() {
    let mut eng = engine(&[perp()]);
    // A margin of 5 % of 25_000_000, and the user has 1_000_000.
    refused(&mut eng, order(1, Side::Bid, 2_500, 1_000_000), RejectReason::InsufficientMargin);
    assert_eq!(place(&mut eng, order(1, Side::Bid, 1_000, 1_000_000)).status, CommandStatus::Accepted);
    let mut eng = engine(&[SymbolKindParams::Spot]);
    // No machine word holds this cost.
    refused(
        &mut eng,
        order(1, Side::Bid, 9_223_372_036_854_775_805, 1_000_000),
        RejectReason::ArithmeticOverflow,
    );
}

#[test]
fn prices_stay_in_their_band() {
    let mut eng = MatchingEngine::new();
    let band = PriceBand {
        upper_bps_from_ref: Some(Bps(2_000)),
        lower_bps_from_ref: Some(Bps(2_000)),
        reference_price: Some(Price(50)),
    };
    let s = SymbolSpec { price_band: band, ..spec(1, SymbolKindParams::Spot) };
    assert_eq!(eng.register_symbol(s), Ok(()));
    assert_eq!(eng.register_symbol(s), Err(RejectReason::UnsupportedCommand));
    eng.submit(Command::AddUser(AddUser { user_id: UserId(1) }), Timestamp(0));
    refused(&mut eng, order(1, Side::Bid, 35, 100), RejectReason::PriceBandViolation);
    refused(&mut eng, order(1, Side::Bid, 65, 100), RejectReason::PriceBandViolation);
    refused(&mut eng, order(1, Side::Bid, 60, 100), RejectReason::InsufficientFunds);
}

#[test]
fn other_commands_are_refused_for_a_reason() {
    let mut eng = engine(&[SymbolKindParams::Spot, perp(), future()]);
    let mut answer = |cmd: Command| match eng.submit(cmd, Timestamp(0)).status {
        CommandStatus::Rejected(r) => Some(r),
        _ => None,
    };
    let funding = |s| Command::ApplyFunding(ApplyFunding { symbol_id: SymbolId(s), rate_bps: 1 });
    assert_eq!(answer(funding(9)), Some(RejectReason::UnknownSymbol));
    assert_eq!(answer(funding(1)), Some(RejectReason::UnsupportedCommand));
    assert_eq!(answer(funding(2)), Some(RejectReason::InvalidOrderBookState));
    let settle = |s| {
        Command::SettleFuture(SettleFuture { symbol_id: SymbolId(s), settlement_price: Price(50) })
    };
    assert_eq!(answer(settle(9)), Some(RejectReason::UnknownSymbol));
    assert_eq!(answer(settle(2)), Some(RejectReason::UnsupportedCommand));
    assert_eq!(answer(settle(3)), None);
    let mark = |s| Command::SetMarkPrice(SetMarkPrice { symbol_id: SymbolId(s), mark_price: Price(5) });
    assert_eq!(answer(mark(9)), Some(RejectReason::UnknownSymbol));
    let cancel = Command::CancelOrder(CancelOrder {
        user_id: UserId(1),
        symbol_id: SymbolId(1),
        order_id: OrderId(77),
    });
    assert_eq!(answer(cancel), Some(RejectReason::UnknownOrder));
    let again = Command::AddUser(AddUser { user_id: UserId(1) });
    assert!(answer(again).is_some());
    let overdrawn = Command::AdjustBalance(AdjustBalance {
        user_id: UserId(1),
        currency_id: USDT,
        delta: Amount(-1_000_001),
        transaction_id: 1,
    });
    assert_eq!(answer(overdrawn), Some(RejectReason::InsufficientFunds));
    assert_eq!(answer(Command::SuspendUser(UserId(8))), Some(RejectReason::UnknownUser));
    // The settled future takes no orders any more.
    let late = PlaceOrder { symbol_id: SymbolId(3), ..order(1, Side::Bid, 50, 100) };
    assert_eq!(answer(Command::PlaceOrder(late)), Some(RejectReason::SymbolSuspended));
}

#[test]
fn reasons_are_told_in_words() {
    assert_eq!(RejectReason::UnknownUser.message(), "user does not exist");
    assert_eq!(RejectReason::PostOnlyWouldCross.message(), "post-only order would take liquidity");
}

// ---- The book ----

fn rest(book: &mut SpotOrderBook, id: u64, side: Side, price: i64, size: i64) -> PlacementOutcome {
    book.place(PlaceParams {
        order_id: OrderId(id),
        user_id: UserId(id),
        client_order_id: ClientOrderId(id),
        side,
        order_type: OrderType::Limit,
        time_in_force: TimeInForce::Gtc,
        price: Price(price),
        size: Size(size),
        timestamp: Timestamp(0),
        stp: SelfTradePrevention::Allow,
        visible_size: None,
    })
}

#[test]
fn trades_go_by_price_then_time_and_stay_within_the_limit() {
    let mut book = SpotOrderBook::new(SymbolId(1));
    rest(&mut book, 1, Side::Ask, 102, 5);
    rest(&mut book, 2, Side::Ask, 100, 5);
    rest(&mut book, 3, Side::Ask, 100, 5);
    let out = rest(&mut book, 4, Side::Bid, 101, 20);
    let trades: Vec<_> =
        out.trades.as_slice().iter().map(|t| (t.maker_order_id.0, t.price.0, t.size.0)).collect();
    assert_eq!(trades, vec![(2, 100, 5), (3, 100, 5)]);
    assert_eq!((out.filled, out.remaining), (Size(10), Size(10)));
    // What is left rests below the asks that remain.
    assert_eq!(book.best_bid(), Some(Price(101)));
    assert_eq!(book.best_ask(), Some(Price(102)));
    assert_eq!(book.symbol_id(), SymbolId(1));
}

#[test]
fn cancelling_a_resting_order_undoes_it() {
    let mut book = SpotOrderBook::new(SymbolId(1));
    rest(&mut book, 1, Side::Ask, 100, 5);
    rest(&mut book, 2, Side::Ask, 100, 7);
    let out = book.cancel(OrderId(2)).unwrap();
    assert_eq!(out.remaining_size, Size(7));
    assert_eq!(book.total_resting_orders(), 1);
    assert!(book.cancel(OrderId(2)).is_none());
    assert_eq!(book.get_order(OrderId(1)).unwrap().size_remaining, Size(5));
}

// ---- The ledger ----

#[test]
fn users_come_and_go_without_money() {
    let mut r = RiskEngine::new();
    assert_eq!(r.add_user(UserId(5)), Ok(()));
    assert!(r.add_user(UserId(5)).is_err());
    assert_eq!(r.suspend(UserId(5)), Ok(()));
    assert!(r.account(UserId(5)).unwrap().is_suspended());
    assert_eq!(r.resume(UserId(5)), Ok(()));
    assert_eq!(r.resume(UserId(6)), Err(RejectReason::UnknownUser));
    assert_eq!(r.total_internal(USDT), 0);
}

#[test]
fn reserving_and_releasing_keep_the_total() {
    let mut eng = engine(&[SymbolKindParams::Spot]);
    let total = eng.risk().total_internal(USDT);
    assert_eq!(place(&mut eng, order(1, Side::Bid, 50, 100_000)).status, CommandStatus::Accepted);
    let a = eng.risk().account(UserId(1)).unwrap();
    // 100000 of 100 minor units at 50, and a fee of 20 basis points.
    assert_eq!(a.held(USDT), Amount(50_100));
    assert_eq!(a.total(USDT), Amount(1_000_000));
    assert_eq!(a.free_currencies().len(), 2);
    assert_eq!(a.held_currencies(), vec![USDT]);
    assert_eq!(eng.risk().total_internal(USDT), total);
    eng.submit(
        Command::CancelOrder(CancelOrder {
            user_id: UserId(1),
            symbol_id: SymbolId(1),
            order_id: OrderId(1),
        }),
        Timestamp(0),
    );
    assert_eq!(eng.risk().account(UserId(1)).unwrap().held(USDT), Amount(0));
    assert!(eng.risk().hold(OrderId(1)).is_none());
}

#[test]
fn only_the_owner_cancels() {
    let mut eng = engine(&[SymbolKindParams::Spot]);
    place(&mut eng, order(1, Side::Bid, 50, 100));
    let r = eng.submit(
        Command::CancelOrder(CancelOrder {
            user_id: UserId(2),
            symbol_id: SymbolId(1),
            order_id: OrderId(1),
        }),
        Timestamp(0),
    );
    assert_eq!(r.status, CommandStatus::Rejected(RejectReason::UnknownOrder));
    assert_eq!(eng.book(SymbolId(1)).unwrap().best_bid(), Some(Price(50)));
    assert!(eng.risk().hold(OrderId(1)).is_some());
}

#[test]
fn every_reservation_has_an_order() {
    let mut eng = engine(&[SymbolKindParams::Spot]);
    place(&mut eng, order(1, Side::Ask, 50, 100));
    place(&mut eng, order(2, Side::Bid, 50, 60));
    eng.submit(
        Command::ModifyOrder(ModifyOrder {
            user_id: UserId(1),
            symbol_id: SymbolId(1),
            order_id: OrderId(1),
            new_price: Some(Price(55)),
            new_size: None,
        }),
        Timestamp(0),
    );
    let book = eng.book(SymbolId(1)).unwrap();
    assert_eq!(book.total_resting_orders(), 1);
    let o = book.get_order(OrderId(3)).unwrap();
    assert_eq!((o.price, o.size_remaining), (Price(55), Size(40)));
    assert_eq!(eng.risk().hold(OrderId(3)).unwrap().remaining_size, Size(40));
    assert!(eng.risk().hold(OrderId(1)).is_none());
    assert!(eng.risk().hold(OrderId(2)).is_none());
}

#[test]
fn settling_a_future_pays_what_was_won_and_lost() {
    let mut eng = engine(&[future()]);
    place(&mut eng, order(1, Side::Bid, 50, 200_000));
    place(&mut eng, order(2, Side::Ask, 50, 200_000));
    let total = eng.risk().total_internal(USDT);
    eng.submit(
        Command::SettleFuture(SettleFuture { symbol_id: SymbolId(1), settlement_price: Price(60) }),
        Timestamp(0),
    );
    assert_eq!(eng.risk().total_internal(USDT), total);
    let free = |u| eng.risk().account(UserId(u)).unwrap().free(USDT).raw();
    // 2000 units went from 50 to 60. The maker paid 10 basis points of 100000, the taker
    // 20.
    assert_eq!(free(1), 1_000_000 + 20_000 - 100);
    assert_eq!(free(2), 1_000_000 - 20_000 - 200);
    assert_eq!(eng.mark_price(SymbolId(1)), Some(Price(60)));
    assert!(eng.symbol(SymbolId(1)).unwrap().is_suspended);
}

// ---- Commands ----

#[test]
fn sequence_numbers_only_rise() {
    let mut eng = MatchingEngine::new();
    let first = eng.next_envelope(Command::Nop, Timestamp(5));
    assert_eq!((first.seq_no, first.received_at), (SeqNo(1), Timestamp(5)));
    eng.apply_envelope(&first);
    let envs = eng.take_envelopes(&[(Command::Nop, Timestamp(6)), (Command::Nop, Timestamp(7))]);
    assert_eq!((envs[0].seq_no, envs[1].seq_no), (SeqNo(2), SeqNo(3)));
    let receipts = eng.apply_all(&envs);
    assert_eq!(receipts.iter().map(|r| r.seq_no.0).collect::<Vec<_>>(), vec![2, 3]);
    assert_eq!(eng.last_applied_seq(), SeqNo(3));
    // An old envelope does not turn the numbers back.
    eng.apply_envelope(&first);
    assert_eq!(eng.submit(Command::Nop, Timestamp(0)).seq_no, SeqNo(4));
}

// ---- Money ----

fn transfer(eng: &mut MatchingEngine, uid: u64, delta: i64, transaction_id: u64) -> CommandStatus {
    let cmd = Command::AdjustBalance(AdjustBalance {
        user_id: UserId(uid),
        currency_id: USDT,
        delta: Amount(delta),
        transaction_id,
    });
    eng.submit(cmd, Timestamp(0)).status
}

#[test]
fn an_accepted_transfer_is_remembered() {
    let mut eng = engine(&[SymbolKindParams::Spot]);
    assert_eq!(transfer(&mut eng, 1, 500, 7), CommandStatus::Accepted);
    let total = eng.risk().total_internal(USDT);
    assert_eq!(total, 2_000_500);
    // Whatever comes in between.
    place(&mut eng, order(1, Side::Bid, 50, 100));
    place(&mut eng, order(2, Side::Ask, 50, 100));
    for delta in [500, -500, 1] {
        let again = transfer(&mut eng, 1, delta, 7);
        assert_eq!(again, CommandStatus::Rejected(RejectReason::UnsupportedCommand));
        assert_eq!(eng.risk().total_internal(USDT), total);
    }
    // The same key stands for something else with another user.
    assert_eq!(transfer(&mut eng, 2, 500, 7), CommandStatus::Accepted);
    // And a saved engine remembers it too.
    let (saved, _) = eng.take_snapshot();
    let mut back = MatchingEngine::from_snapshot(&saved).unwrap();
    let again = transfer(&mut back, 1, 500, 7);
    assert_eq!(again, CommandStatus::Rejected(RejectReason::UnsupportedCommand));
    assert_eq!(transfer(&mut back, 1, 500, 8), CommandStatus::Accepted);
    assert_eq!(back.risk().total_internal(USDT), total + 1_000);
}

#[test]
fn only_transfers_change_a_total_where_no_derivative_trades() {
    let mut eng = engine(&[SymbolKindParams::Spot, perp()]);
    let totals = |eng: &MatchingEngine| (eng.risk().total_internal(BTC), eng.risk().total_internal(USDT));
    assert_eq!(totals(&eng), (2_000_000, 2_000_000));
    // A spot trade beside a derivative.
    place(&mut eng, order(1, Side::Ask, 50, 100));
    assert_eq!(place(&mut eng, order(2, Side::Bid, 50, 40)).status, CommandStatus::Filled);
    assert_eq!(totals(&eng), (2_000_000, 2_000_000));
    // A derivative order that rests, and its cancellation.
    let rests = PlaceOrder { symbol_id: SymbolId(2), ..order(1, Side::Bid, 1_000, 1_000) };
    assert_eq!(place(&mut eng, rests).status, CommandStatus::Accepted);
    assert_eq!(totals(&eng), (2_000_000, 2_000_000));
    let cancel = Command::CancelOrder(CancelOrder {
        user_id: UserId(1),
        symbol_id: SymbolId(2),
        order_id: OrderId(3),
    });
    assert_eq!(eng.submit(cancel, Timestamp(0)).status, CommandStatus::Cancelled);
    assert_eq!(totals(&eng), (2_000_000, 2_000_000));
    // A mark that closes nothing.
    let mark = SetMarkPrice { symbol_id: SymbolId(2), mark_price: Price(50) };
    eng.submit(Command::SetMarkPrice(mark), Timestamp(0));
    assert_eq!(totals(&eng), (2_000_000, 2_000_000));
    assert_eq!(transfer(&mut eng, 1, -300, 1), CommandStatus::Accepted);
    assert_eq!(totals(&eng), (2_000_000, 1_999_700));
}

/// A hundred times the money, and the open profits at a mark.
fn worth(eng: &MatchingEngine, mark: i64) -> i128 {
    let mut sum = 100 * eng.risk().total_internal(USDT);
    for uid in [1u64, 2, 3] {
        if let Some(p) = eng.risk().account(UserId(uid)).unwrap().position(SymbolId(1)) {
            sum += (mark - p.entry_price.0) as i128 * p.size.0 as i128;
        }
    }
    sum
}

#[test]
fn rounding_is_all_that_a_derivative_trade_shifts() {
    let mut eng = engine(&[perp()]);
    eng.submit(Command::AddUser(AddUser { user_id: UserId(3) }), Timestamp(0));
    assert_eq!(transfer(&mut eng, 3, 1_000_000, 0), CommandStatus::Accepted);
    let before = worth(&eng, 70);
    place(&mut eng, order(1, Side::Bid, 50, 4));
    assert_eq!(place(&mut eng, order(2, Side::Ask, 50, 4)).status, CommandStatus::Filled);
    assert_eq!(worth(&eng, 70), before);
    // 4 at 50 and 8 at 55 are 12 at 53 and a third, and the third is lost.
    place(&mut eng, order(1, Side::Bid, 55, 8));
    assert_eq!(place(&mut eng, order(3, Side::Ask, 55, 8)).status, CommandStatus::Filled);
    assert_eq!(worth(&eng, 70), before + 4);
    // Replacing and cancelling shift nothing.
    let rests = place(&mut eng, order(1, Side::Bid, 40, 4));
    assert_eq!(rests.status, CommandStatus::Accepted);
    assert_eq!(worth(&eng, 70), before + 4);
    let m = ModifyOrder {
        user_id: UserId(1),
        symbol_id: SymbolId(1),
        order_id: OrderId(5),
        new_price: Some(Price(45)),
        new_size: None,
    };
    assert_eq!(eng.submit(Command::ModifyOrder(m), Timestamp(0)).status, CommandStatus::Accepted);
    assert_eq!(worth(&eng, 70), before + 4);
}

#[test]
fn closing_at_a_price_keeps_the_worth_at_that_price() {
    let mut eng = engine(&[future()]);
    eng.submit(Command::AddUser(AddUser { user_id: UserId(3) }), Timestamp(0));
    place(&mut eng, order(1, Side::Bid, 50, 400));
    assert_eq!(place(&mut eng, order(2, Side::Ask, 50, 400)).status, CommandStatus::Filled);
    let before = worth(&eng, 65);
    let settle = SettleFuture { symbol_id: SymbolId(1), settlement_price: Price(65) };
    assert_eq!(
        eng.submit(Command::SettleFuture(settle), Timestamp(0)).status,
        CommandStatus::Accepted
    );
    assert_eq!(worth(&eng, 65), before);
}

// ---- Trades that cannot be settled ----

/// An engine with a third user who has so much of the quote currency.
fn engine_with_third(funds: i64) -> MatchingEngine {
    let mut eng = engine(&[perp()]);
    eng.submit(Command::AddUser(AddUser { user_id: UserId(3) }), Timestamp(0));
    eng.submit(
        Command::AdjustBalance(AdjustBalance {
            user_id: UserId(3),
            currency_id: USDT,
            delta: Amount(funds),
            transaction_id: 0,
        }),
        Timestamp(0),
    );
    eng
}

#[test]
fn an_ask_above_its_limit_needs_the_margin_of_its_price() {
    // At its limit of 100 the ask costs 500 of margin and 20 of fee, at 2000 it costs
    // 10000 and 400.
    let short = Some(RejectReason::InsufficientMargin);
    for (funds, failure) in [(1_000, short), (10_399, short), (10_400, None)] {
        let mut eng = engine_with_third(funds);
        let bid = place(&mut eng, order(1, Side::Bid, 2_000, 10_000));
        assert_eq!(bid.status, CommandStatus::Accepted);
        assert_eq!(eng.failure(), None);
        place(&mut eng, order(3, Side::Ask, 100, 10_000));
        assert_eq!(eng.failure(), failure);
    }
}

#[test]
fn a_reducing_fill_needs_its_fee() {
    // The fee of 1000 at 5000 is more than the 520 that the ask reserved.
    let short = Some(RejectReason::InsufficientFunds);
    for (funds, failure) in [(1_519, short), (1_520, None)] {
        let mut eng = engine_with_third(funds);
        place(&mut eng, order(2, Side::Ask, 100, 10_000));
        let opened = place(&mut eng, order(3, Side::Bid, 100, 10_000));
        assert_eq!(opened.status, CommandStatus::Filled);
        place(&mut eng, order(1, Side::Bid, 5_000, 10_000));
        place(&mut eng, order(3, Side::Ask, 100, 10_000));
        assert_eq!(eng.failure(), failure);
    }
}

#[test]
fn the_first_failure_stays() {
    let mut eng = engine_with_third(1_000);
    place(&mut eng, order(1, Side::Bid, 2_000, 10_000));
    place(&mut eng, order(3, Side::Ask, 100, 10_000));
    assert_eq!(eng.failure(), Some(RejectReason::InsufficientMargin));
    eng.submit(Command::Nop, Timestamp(0));
    assert_eq!(eng.failure(), Some(RejectReason::InsufficientMargin));
}

#[test]
fn numbers_of_a_batch_follow_one_another() {
    let mut eng = engine(&[SymbolKindParams::Spot]);
    let before = eng.last_applied_seq().0;
    let cmds = vec![
        (Command::PlaceOrder(order(1, Side::Bid, 50, 100)), Timestamp(0)),
        (Command::Nop, Timestamp(1)),
        (Command::PlaceOrder(order(2, Side::Ask, 50, 100)), Timestamp(2)),
    ];
    let receipts = eng.submit_batch(cmds);
    let numbers: Vec<u64> = receipts.iter().map(|r| r.seq_no.0).collect();
    assert_eq!(numbers, vec![before + 1, before + 2, before + 3]);
    assert_eq!(receipts[2].status, CommandStatus::Filled);
    assert!(eng.submit_batch(vec![]).is_empty());
    assert_eq!(eng.last_applied_seq(), SeqNo(before + 3));
}
