//! What holds of the exchange, on concrete values.
use matching_engine::exchange::api::{
    CommandResultCode, CoreSymbolSpecification, MatcherEventType, OrderAction, OrderCommand,
    OrderCommandType, OrderType, SelfTradePrevention, SymbolType,
};
use matching_engine::exchange::book::DirectOrderBook;
use matching_engine::exchange::checksum::crc32;
use matching_engine::exchange::config::ExchangeConfig;
use matching_engine::exchange::journal::{
    compact_before, read_commands, read_commands_after, scan_headers, truncate_to_last_valid,
    JournalError, Journaler,
};
use matching_engine::exchange::lifecycle::{Closing, Delivery, ExchangeCore, LifecycleError};
use matching_engine::exchange::optimized::DirectOrderBookOptimized;
use matching_engine::exchange::pipeline::Duty;

fn spec(stp: SelfTradePrevention) -> CoreSymbolSpecification {
    CoreSymbolSpecification {
        symbol_id: 1,
        symbol_type: SymbolType::CurrencyExchangePair,
        base_currency: 0,
        quote_currency: 1,
        base_scale_k: 1,
        quote_scale_k: 1,
        taker_fee: 2,
        maker_fee: 1,
        margin_buy: 0,
        margin_sell: 0,
        stp,
    }
}

fn order(uid: u64, id: u64, action: OrderAction, price: i64, size: i64) -> OrderCommand {
    OrderCommand {
        command: OrderCommandType::PlaceOrder,
        uid,
        order_id: id,
        symbol: 1,
        price,
        reserve_price: price,
        size,
        action,
        order_type: OrderType::Gtc,
        ..Default::default()
    }
}

fn about(command: OrderCommandType, uid: u64, id: u64) -> OrderCommand {
    OrderCommand { command, uid, order_id: id, symbol: 1, ..Default::default() }
}

fn book_with(orders: &[(u64, u64, OrderAction, i64, i64)]) -> DirectOrderBook {
    let mut book = DirectOrderBook::new(spec(SelfTradePrevention::Allow));
    for &(uid, id, action, price, size) in orders {
        let mut cmd = order(uid, id, action, price, size);
        assert_eq!(book.new_order(&mut cmd), CommandResultCode::Success);
    }
    book
}

// ---- Books ----

#[test]
fn fills_take_the_best_price_and_the_oldest_order() {
    let mut book = book_with(&[
        (1, 1, OrderAction::Ask, 101, 5),
        (2, 2, OrderAction::Ask, 100, 5),
        (3, 3, OrderAction::Ask, 100, 5),
    ]);
    let mut cmd = order(9, 9, OrderAction::Bid, 101, 12);
    assert_eq!(book.new_order(&mut cmd), CommandResultCode::Success);
    let fills: Vec<_> =
        cmd.matcher_events.iter().map(|e| (e.matched_order_id, e.price, e.size)).collect();
    assert_eq!(fills, vec![(2, 100, 5), (3, 100, 5), (1, 101, 2)]);
    assert_eq!(book.get_total_ask_volume(), 3);
    assert_eq!(book.get_total_bid_volume(), 0);
}

#[test]
fn a_moved_order_trades_only_what_it_still_wants() {
    let mut book = book_with(&[
        (1, 1, OrderAction::Bid, 90, 10),
        (2, 2, OrderAction::Ask, 90, 4),
        (2, 3, OrderAction::Ask, 95, 10),
    ]);
    let mut cmd = OrderCommand { price: 95, ..about(OrderCommandType::MoveOrder, 1, 1) };
    // The order was reserved at 90 and may not be moved beyond that.
    assert_eq!(book.move_order(&mut cmd), CommandResultCode::RiskInvalidReserveBidPrice);
    assert_eq!(book.get_total_bid_volume(), 6);
    let mut cmd = OrderCommand { price: 80, ..about(OrderCommandType::MoveOrder, 1, 1) };
    assert_eq!(book.move_order(&mut cmd), CommandResultCode::Success);
    assert_eq!(book.get_order_by_id(1), Some((80, OrderAction::Bid)));
    assert_eq!(book.get_total_bid_volume(), 6);
}

#[test]
fn refused_commands_change_nothing() {
    let mut book = book_with(&[(1, 1, OrderAction::Bid, 90, 10)]);
    let unknown = CommandResultCode::MatchingUnknownOrderId;
    assert_eq!(book.cancel_order(&mut about(OrderCommandType::CancelOrder, 1, 7)), unknown);
    // Orders of others are not known either.
    assert_eq!(book.cancel_order(&mut about(OrderCommandType::CancelOrder, 2, 1)), unknown);
    let mut cmd = OrderCommand { price: 5, ..about(OrderCommandType::MoveOrder, 2, 1) };
    assert_eq!(book.move_order(&mut cmd), unknown);
    let mut cmd = OrderCommand { size: 1, ..about(OrderCommandType::ReduceOrder, 2, 1) };
    assert_eq!(book.reduce_order(&mut cmd), unknown);
    let mut cmd = about(OrderCommandType::MoveOrder, 1, 1);
    assert_eq!(book.move_order(&mut cmd), CommandResultCode::RiskInvalidOrderParams);
    assert_eq!(
        book.new_order(&mut order(1, 1, OrderAction::Bid, 80, 1)),
        CommandResultCode::MatchingDuplicateOrderId
    );
    assert_eq!(book.get_order_by_id(1), Some((90, OrderAction::Bid)));
    assert_eq!(book.get_total_bid_volume(), 10);
    assert_eq!(book.get_bid_buckets_count(), 1);
    assert_eq!(book.get_ask_buckets_count(), 0);
}

#[test]
fn reducing_takes_away_what_is_asked_or_the_whole_order() {
    let mut book = book_with(&[(1, 1, OrderAction::Bid, 90, 10)]);
    let mut cmd = OrderCommand { size: 4, ..about(OrderCommandType::ReduceOrder, 1, 1) };
    assert_eq!(book.reduce_order(&mut cmd), CommandResultCode::Success);
    assert_eq!(book.get_total_bid_volume(), 6);
    let mut cmd = OrderCommand { size: 0, ..about(OrderCommandType::ReduceOrder, 1, 1) };
    assert_eq!(book.reduce_order(&mut cmd), CommandResultCode::MatchingInvalidOrderSize);
    let mut cmd = OrderCommand { size: 100, ..about(OrderCommandType::ReduceOrder, 1, 1) };
    assert_eq!(book.reduce_order(&mut cmd), CommandResultCode::Success);
    assert_eq!(cmd.matcher_events[0].size, 6);
    assert_eq!(book.get_order_by_id(1), None);
}

#[test]
fn cancelling_undoes_placing() {
    let mut book = book_with(&[(1, 1, OrderAction::Ask, 100, 5)]);
    let before = book.get_l2_data(10);
    book.new_order(&mut order(2, 2, OrderAction::Ask, 100, 7));
    let mut cmd = about(OrderCommandType::CancelOrder, 2, 2);
    assert_eq!(book.cancel_order(&mut cmd), CommandResultCode::Success);
    assert_eq!(cmd.matcher_events[0].event_type, MatcherEventType::Reject);
    assert_eq!(cmd.matcher_events[0].size, 7);
    let after = book.get_l2_data(10);
    assert_eq!(after.ask_prices, before.ask_prices);
    assert_eq!(after.ask_volumes, before.ask_volumes);
    assert_eq!(after.ask_order_counts, before.ask_order_counts);
}

#[test]
fn a_book_stays_uncrossed() {
    let mut book = book_with(&[(1, 1, OrderAction::Ask, 100, 5), (2, 2, OrderAction::Bid, 99, 5)]);
    book.new_order(&mut order(3, 3, OrderAction::Bid, 105, 8));
    let l2 = book.get_l2_data(10);
    assert!(l2.ask_prices.is_empty());
    assert_eq!(l2.bid_prices, vec![105, 99]);
    assert_eq!(l2.bid_volumes, vec![3, 5]);
}

#[test]
fn fill_or_kill_within_a_budget() {
    let asks = [(1, 1, OrderAction::Ask, 100, 5), (2, 2, OrderAction::Ask, 110, 5)];
    // Five at 100 and five at 110 cost 1050.
    let mut book = book_with(&asks);
    let mut cmd =
        OrderCommand { order_type: OrderType::FokBudget, ..order(9, 9, OrderAction::Bid, 1049, 10) };
    assert_eq!(book.new_order(&mut cmd), CommandResultCode::Success);
    assert_eq!(cmd.matcher_events.len(), 1);
    assert_eq!(cmd.matcher_events[0].event_type, MatcherEventType::Reject);
    assert_eq!(book.get_total_ask_volume(), 10);

    let mut cmd =
        OrderCommand { order_type: OrderType::FokBudget, ..order(9, 9, OrderAction::Bid, 1050, 10) };
    assert_eq!(book.new_order(&mut cmd), CommandResultCode::Success);
    assert_eq!(cmd.matcher_events.iter().map(|e| e.size).sum::<i64>(), 10);
    assert_eq!(book.get_total_ask_volume(), 0);
}

#[test]
fn an_ask_that_brings_its_budget_fills_whole() {
    let ask = |budget: i64| OrderCommand {
        order_type: OrderType::FokBudget,
        ..order(9, 9, OrderAction::Ask, budget, 10)
    };
    let told = |cmd: &OrderCommand| -> Vec<(MatcherEventType, i64, i64)> {
        cmd.matcher_events.iter().map(|e| (e.event_type, e.price, e.size)).collect()
    };
    // Ten bring 1090, though nine of them only 10 each.
    let bids = [(1, 1, OrderAction::Bid, 1000, 1), (2, 2, OrderAction::Bid, 10, 9)];
    let mut book = book_with(&bids);
    let mut cmd = ask(900);
    assert_eq!(book.new_order(&mut cmd), CommandResultCode::Success);
    assert_eq!(
        told(&cmd),
        vec![(MatcherEventType::Trade, 1000, 1), (MatcherEventType::Trade, 10, 9)]
    );
    assert_eq!(book.get_total_bid_volume(), 0);
    let bids = [(1, 1, OrderAction::Bid, 600, 5), (2, 2, OrderAction::Bid, 100, 5)];
    let mut book = book_with(&bids);
    let mut cmd = ask(3500);
    assert_eq!(book.new_order(&mut cmd), CommandResultCode::Success);
    assert_eq!(
        told(&cmd),
        vec![(MatcherEventType::Trade, 600, 5), (MatcherEventType::Trade, 100, 5)]
    );
    // Ten bring 3500, one less than asked for.
    let mut book = book_with(&bids);
    let mut cmd = ask(3501);
    assert_eq!(book.new_order(&mut cmd), CommandResultCode::Success);
    assert_eq!(told(&cmd), vec![(MatcherEventType::Reject, 3501, 10)]);
    assert_eq!(book.get_total_bid_volume(), 10);
}

#[test]
fn a_passed_over_order_may_be_crossed() {
    let mut book = DirectOrderBook::new(spec(SelfTradePrevention::Skip));
    book.new_order(&mut order(1, 1, OrderAction::Ask, 100, 5));
    book.new_order(&mut order(1, 2, OrderAction::Bid, 105, 5));
    let l2 = book.get_l2_data(10);
    assert_eq!((l2.ask_prices, l2.bid_prices), (vec![100], vec![105]));
    // Where the incoming order is cancelled instead, it does not rest.
    let mut book = DirectOrderBook::new(spec(SelfTradePrevention::CancelTaker));
    book.new_order(&mut order(1, 1, OrderAction::Ask, 100, 5));
    book.new_order(&mut order(1, 2, OrderAction::Bid, 105, 5));
    let l2 = book.get_l2_data(10);
    assert_eq!((l2.ask_prices, l2.bid_prices), (vec![100], vec![]));
}

#[test]
fn batches_match_like_single_orders() {
    for size in [1, 5, 12, 20, 26] {
        let mut fills: Vec<Vec<(u64, i64, i64)>> = Vec::new();
        for batched in [false, true] {
            let mut book = DirectOrderBookOptimized::new(spec(SelfTradePrevention::Allow));
            book.set_simd_enabled(batched);
            for level in 0..5 {
                let mut ask = order(1, level + 1, OrderAction::Ask, 100 + level as i64, 5);
                assert_eq!(book.new_order(&mut ask), CommandResultCode::Success);
            }
            let mut bid = order(9, 9, OrderAction::Bid, 103, size);
            assert_eq!(book.new_order(&mut bid), CommandResultCode::Success);
            fills.push(
                bid.matcher_events.iter().map(|e| (e.matched_order_id, e.price, e.size)).collect(),
            );
        }
        assert_eq!(fills[0], fills[1]);
        assert_eq!(fills[0].iter().map(|f| f.2).sum::<i64>(), size.min(20));
    }
}

#[test]
fn the_pooled_book_serves_the_newest_order_of_a_price_first() {
    let mut book = DirectOrderBookOptimized::new(spec(SelfTradePrevention::Allow));
    for (uid, id, price) in [(1, 1, 100), (2, 2, 100), (3, 3, 99)] {
        book.new_order(&mut order(uid, id, OrderAction::Ask, price, 5));
    }
    let mut cmd = order(9, 9, OrderAction::Bid, 100, 7);
    assert_eq!(book.new_order(&mut cmd), CommandResultCode::Success);
    let fills: Vec<_> =
        cmd.matcher_events.iter().map(|e| (e.matched_order_id, e.price, e.size)).collect();
    assert_eq!(fills, vec![(3, 99, 5), (2, 100, 2)]);
}

#[test]
fn the_pooled_book_knows_only_some_commands() {
    let mut book = DirectOrderBookOptimized::new(spec(SelfTradePrevention::Allow));
    let unsupported = CommandResultCode::MatchingUnsupportedCommand;
    assert_eq!(book.move_order(&mut about(OrderCommandType::MoveOrder, 1, 1)), unsupported);
    assert_eq!(book.reduce_order(&mut about(OrderCommandType::ReduceOrder, 1, 1)), unsupported);
    let mut fok =
        OrderCommand { order_type: OrderType::FokBudget, ..order(1, 1, OrderAction::Bid, 9, 1) };
    assert_eq!(book.new_order(&mut fok), unsupported);
    assert_eq!(
        book.cancel_order(&mut about(OrderCommandType::CancelOrder, 1, 1)),
        CommandResultCode::MatchingUnknownOrderId
    );
    book.new_order(&mut order(1, 1, OrderAction::Bid, 9, 4));
    assert_eq!(book.get_order_by_id(1), Some((9, OrderAction::Bid)));
    assert_eq!(book.get_bid_buckets_count(), 1);
    assert_eq!(book.get_ask_buckets_count(), 0);
    let mut cancel = about(OrderCommandType::CancelOrder, 1, 1);
    assert_eq!(book.cancel_order(&mut cancel), CommandResultCode::Success);
    assert_eq!(cancel.matcher_events[0].size, 4);
    assert_eq!(book.get_order_by_id(1), None);
    assert_eq!(book.get_symbol_spec().symbol_id, 1);
}

// ---- The exchange as a whole ----

fn submit(core: &mut ExchangeCore, cmd: OrderCommand) -> CommandResultCode {
    let mut cmd = cmd;
    core.submit_command(&mut cmd, None);
    cmd.result_code
}

#[test]
fn a_journal_is_compacted_only_with_snapshots() {
    let mut core = ExchangeCore::new(ExchangeConfig::default());
    assert_eq!(core.compact_journal(Some(3)), Err(LifecycleError::NoSnapshots));
    assert_eq!(
        LifecycleError::NoSnapshots.message(),
        "未启用快照，压缩 WAL 会导致这段命令再也无法恢复"
    );
    assert_eq!(core.enable_snapshotting(), Ok(()));
    assert_eq!(core.compact_journal(Some(3)), Ok(Some(3)));
    assert_eq!(core.compact_journal(None), Ok(None));
}

#[test]
fn a_recovered_exchange_is_saved_when_it_stops() {
    let mut core = ExchangeCore::new(ExchangeConfig::default());
    assert_eq!(core.enable_snapshotting(), Ok(()));
    let state = core.serialize_state().unwrap();
    assert_eq!(core.load_snapshot(&state, 7), Ok(()));
    assert_eq!(core.shutdown(), Closing::Persist { seq: 7 });
    assert_eq!(core.shutdown(), Closing::Nothing);
}

#[test]
fn a_shutdown_signal_that_is_handed_in_is_journaled() {
    let mut core = ExchangeCore::new(ExchangeConfig::default());
    let mut signal = about(OrderCommandType::ShutdownSignal, 0, 0);
    assert!(core.needs_journal(&signal));
    core.submit_command(&mut signal, Some(4));
    assert_eq!((signal.seq, core.last_seq()), (4, 4));
    // A command to save the state has the number of the last one that was.
    let mut save = about(OrderCommandType::PersistStateMatching, 0, 0);
    assert!(!core.needs_journal(&save));
    core.submit_command(&mut save, Some(5));
    assert_eq!((save.seq, core.last_seq()), (4, 4));
}

#[test]
fn a_request_for_a_snapshot_asks_for_nothing_else() {
    let mut core = ExchangeCore::new(ExchangeConfig::default());
    assert_eq!(core.enable_snapshotting(), Ok(()));
    let (_, cmd) = core.request_snapshot();
    let blank = OrderCommand {
        command: OrderCommandType::PersistStateMatching,
        result_code: cmd.result_code,
        ..OrderCommand::default()
    };
    assert_eq!(format!("{cmd:?}"), format!("{blank:?}"));
}

#[test]
fn answers_of_the_ledger() {
    let mut core = ExchangeCore::new(ExchangeConfig::default());
    assert!(core.add_symbol(spec(SelfTradePrevention::Allow)).is_ok());
    let add = OrderCommand { command: OrderCommandType::AddUser, uid: 1, ..Default::default() };
    assert_eq!(submit(&mut core, add.clone()), CommandResultCode::Success);
    assert_eq!(submit(&mut core, add), CommandResultCode::UserMgmtUserAlreadyExists);
    assert_eq!(
        submit(&mut core, order(2, 1, OrderAction::Bid, 10, 1)),
        CommandResultCode::AuthInvalidUser
    );
    assert_eq!(submit(&mut core, order(1, 1, OrderAction::Bid, 10, 1)), CommandResultCode::RiskNsf);
    let elsewhere = OrderCommand { symbol: 5, ..order(1, 1, OrderAction::Bid, 10, 1) };
    assert_eq!(submit(&mut core, elsewhere), CommandResultCode::InvalidSymbol);
    let cancel = OrderCommand { symbol: 5, ..about(OrderCommandType::CancelOrder, 1, 1) };
    assert_eq!(submit(&mut core, cancel), CommandResultCode::MatchingInvalidOrderBookId);
}

#[test]
fn users_and_symbols_are_spread_over_shards() {
    let config =
        ExchangeConfig { risk_engines_num: 4, matching_engines_num: 2, ..Default::default() };
    let mut core = ExchangeCore::new(config);
    for symbol_id in [1, 2, -1] {
        assert!(core
            .add_symbol(CoreSymbolSpecification { symbol_id, ..spec(SelfTradePrevention::Allow) })
            .is_ok());
    }
    for uid in 1..=8 {
        let add = OrderCommand { command: OrderCommandType::AddUser, uid, ..Default::default() };
        assert_eq!(submit(&mut core, add), CommandResultCode::Success);
        for currency in [0, 1] {
            let deposit = OrderCommand {
                command: OrderCommandType::BalanceAdjustment,
                uid,
                symbol: currency,
                price: 1_000,
                order_id: 1 + currency as u64,
                ..Default::default()
            };
            assert_eq!(submit(&mut core, deposit), CommandResultCode::Success);
        }
    }
    for (i, symbol) in [1, 2, -1].into_iter().enumerate() {
        let ask = OrderCommand { symbol, ..order(1 + i as u64, 1, OrderAction::Ask, 10, 5) };
        assert_eq!(submit(&mut core, ask), CommandResultCode::Success);
        let bid = OrderCommand { symbol, ..order(8 - i as u64, 2, OrderAction::Bid, 10, 5) };
        assert_eq!(submit(&mut core, bid), CommandResultCode::Success);
    }
    let total = |currency| {
        (1..=8).map(|u| core.balance_of(u, currency).unwrap()).sum::<i64>()
            + core.fees_collected(currency).unwrap()
    };
    assert_eq!((total(0), total(1)), (8_000, 8_000));
    // Three trades of five: a buyer pays 50 and 10 in fees, a seller gets 50 less 5.
    assert_eq!(core.balance_of(8, 1), Some(940));
    assert_eq!(core.balance_of(1, 1), Some(1_045));
    assert_eq!(core.fees_collected(1), Some(45));
}

// ---- The journal ----

#[test]
fn the_checksum_is_crc_32() {
    assert_eq!(crc32(b""), 0);
    assert_eq!(crc32(b"123456789"), 0xcbf4_3926);
}

fn journal_of(payloads: &[&[u8]]) -> Vec<u8> {
    let mut j = Journaler::new(&[]);
    for p in payloads {
        j.write_command(p).unwrap();
    }
    j.pending().to_vec()
}

#[test]
fn a_journal_reads_back() {
    let file = journal_of(&[b"one", b"", b"three"]);
    let outcome = read_commands(&file);
    assert_eq!(outcome.truncated_at, None);
    assert_eq!(outcome.last_seq, Some(3));
    let payloads: Vec<&[u8]> = outcome.records.iter().map(|r| r.payload.as_slice()).collect();
    assert_eq!(payloads, vec![&b"one"[..], b"", b"three"]);
    assert_eq!(read_commands_after(&file, 2).records.len(), 1);
}

#[test]
fn every_torn_tail_is_found() {
    let file = journal_of(&[b"one", b"two"]);
    let whole = scan_headers(&file);
    let first = whole.headings.len();
    assert_eq!((first, whole.truncated_at), (2, None));
    for cut in 24..file.len() {
        let torn = &file[..cut];
        let outcome = read_commands(torn);
        assert_eq!(outcome.records.len(), 1);
        assert_eq!(outcome.truncated_at, if cut == 23 { None } else { Some(23) });
        assert_eq!(truncate_to_last_valid(torn), cut - 23);
    }
}

#[test]
fn a_cut_journal_takes_more() {
    let file = journal_of(&[b"one", b"two"]);
    let torn = &file[..file.len() - 1];
    let kept = &torn[..torn.len() - truncate_to_last_valid(torn)];
    let mut j = Journaler::new(kept);
    assert_eq!(j.write_command(b"2nd").unwrap(), (2, true));
    let mut file = kept.to_vec();
    file.extend_from_slice(j.pending());
    let outcome = read_commands(&file);
    assert_eq!(outcome.truncated_at, None);
    assert_eq!(outcome.records[1].payload, b"2nd");
}

#[test]
fn a_changed_record_is_found() {
    let mut file = journal_of(&[b"one", b"two"]);
    let last = file.len() - 1;
    file[last] ^= 1;
    let outcome = read_commands(&file);
    assert_eq!(outcome.records.len(), 1);
    assert_eq!(outcome.truncated_at, Some(23));
}

#[test]
fn compaction_keeps_the_rest() {
    let file = journal_of(&[b"one", b"two", b"three"]);
    let (start, end) = compact_before(&file, 2).unwrap();
    let outcome = read_commands(&file[start..end]);
    assert_eq!(outcome.records.len(), 1);
    assert_eq!((outcome.records[0].seq, outcome.last_seq), (3, Some(3)));
    assert!(compact_before(&file, 0).is_none());
}

#[test]
fn records_have_a_bound() {
    let mut j = Journaler::new(&[]);
    let huge = vec![0u8; (1 << 20) + 1];
    assert_eq!(j.write_command(&huge), Err(JournalError::TooLong { len: huge.len() }));
    assert_eq!(j.last_seq(), 0);
    assert!(j.pending().is_empty());
}

#[test]
fn a_bad_record_ends_the_good_part() {
    let file = journal_of(&[b"one", b"two", b"three"]);
    let mut outcome = read_commands(&file);
    outcome.stop_at(1);
    assert_eq!(outcome.records.len(), 1);
    assert_eq!(outcome.last_seq, Some(1));
    assert_eq!(outcome.truncated_at, Some(23));
}

#[test]
fn a_damaged_record_is_cut_with_all_behind_it() {
    let good = journal_of(&[b"one", b"two"]);
    let mut file = journal_of(&[b"one", b"two", b"three", b"four"]);
    // A complete record whose bytes changed, and a good one behind it.
    file[good.len() + 20] ^= 1;
    assert_eq!(scan_headers(&file).headings.len(), 4);
    assert_eq!(truncate_to_last_valid(&file), file.len() - good.len());
    let kept = &file[..good.len()];
    let mut j = Journaler::new(kept);
    assert_eq!(j.write_command(b"3rd").unwrap(), (3, true));
    let mut file = kept.to_vec();
    file.extend_from_slice(j.pending());
    let outcome = read_commands(&file);
    assert_eq!(outcome.truncated_at, None);
    assert_eq!((outcome.records.len(), outcome.last_seq), (3, Some(3)));
    assert_eq!(truncate_to_last_valid(&file), 0);
}

#[test]
fn compaction_cuts_damage() {
    let good = journal_of(&[b"one", b"two", b"three"]);
    let mut file = journal_of(&[b"one", b"two", b"three", b"four"]);
    file[good.len() + 20] ^= 1;
    let (start, end) = compact_before(&file, 1).unwrap();
    assert_eq!((start, end), (23, good.len()));
    let outcome = read_commands(&file[start..end]);
    assert_eq!(outcome.truncated_at, None);
    assert_eq!((outcome.records.len(), outcome.last_seq), (2, Some(3)));
    // With nothing to drop in front, the damage is reason enough.
    assert_eq!(compact_before(&file, 0), Some((0, good.len())));
}

#[test]
fn a_loaded_exchange_can_still_be_saved() {
    let mut core = ExchangeCore::new(ExchangeConfig::default());
    assert_eq!(core.enable_snapshotting(), Ok(()));
    let state = core.serialize_state().unwrap();
    assert_eq!(core.load_snapshot(&state, 7), Ok(()));
    let (delivery, cmd) = core.request_snapshot();
    assert_eq!(delivery, Delivery::Executed(Duty::Persist));
    assert_eq!(cmd.seq, 7);
}
