//! The life of an exchange: starting, journaling, saving, recovering, stopping.
use matching_engine::exchange::api::{
    CommandResultCode, CoreSymbolSpecification, OrderAction, OrderCommand, OrderCommandType,
    OrderType, SelfTradePrevention, SymbolId, SymbolType, UserId,
};
use matching_engine::exchange::config::ExchangeConfig;
use matching_engine::exchange::journal::{
    compact_before, read_commands, read_commands_after, truncate_to_last_valid, Journaler,
    ReplayOutcome, SyncPolicy,
};
use matching_engine::exchange::lifecycle::{
    Closing, Delivery, ExchangeCore, LifecycleError, ReplaySummary,
};
use matching_engine::exchange::pipeline::{persisted, Duty, Pipeline};
use matching_engine::exchange::state::ExchangeState;
use std::collections::{BTreeMap, VecDeque};

fn spec(symbol_id: SymbolId) -> CoreSymbolSpecification {
    CoreSymbolSpecification {
        stp: SelfTradePrevention::Allow,
        symbol_id,
        symbol_type: SymbolType::CurrencyExchangePair,
        base_currency: 0,
        quote_currency: 1,
        base_scale_k: 1,
        quote_scale_k: 1,
        taker_fee: 0,
        maker_fee: 0,
        margin_buy: 0,
        margin_sell: 0,
    }
}

/// The bytes of a command that adds a user or money.
fn encode(cmd: &OrderCommand) -> Vec<u8> {
    let mut out = vec![match cmd.command {
        OrderCommandType::AddUser => 1u8,
        OrderCommandType::BalanceAdjustment => 2,
        _ => panic!("no bytes for {:?}", cmd.command),
    }];
    out.extend_from_slice(&cmd.uid.to_le_bytes());
    out.extend_from_slice(&cmd.order_id.to_le_bytes());
    out.extend_from_slice(&cmd.price.to_le_bytes());
    out.extend_from_slice(&cmd.symbol.to_le_bytes());
    out
}

fn word(b: &[u8], at: usize) -> u64 {
    let mut w = [0u8; 8];
    w.copy_from_slice(&b[at..at + 8]);
    u64::from_le_bytes(w)
}

fn decode(seq: u64, b: &[u8]) -> OrderCommand {
    let mut symbol = [0u8; 4];
    symbol.copy_from_slice(&b[25..29]);
    OrderCommand {
        command: if b[0] == 1 {
            OrderCommandType::AddUser
        } else {
            OrderCommandType::BalanceAdjustment
        },
        uid: word(b, 1),
        order_id: word(b, 9),
        price: word(b, 17) as i64,
        symbol: i32::from_le_bytes(symbol),
        seq,
        ..Default::default()
    }
}

fn commands(outcome: &ReplayOutcome) -> Vec<OrderCommand> {
    outcome.records.iter().map(|r| decode(r.seq, &r.payload)).collect()
}

/// An exchange with the files and the queue that stand around it.
struct Desk {
    core: ExchangeCore,
    journal: Option<Journaler>,
    file: Vec<u8>,
    snaps: Option<BTreeMap<u64, ExchangeState>>,
    consumer: Option<Pipeline>,
    queue: VecDeque<OrderCommand>,
    reported: Vec<OrderCommand>,
}

impl Desk {
    fn new() -> Self {
        let mut core = ExchangeCore::new(ExchangeConfig::default());
        assert!(core.add_symbol(spec(1)).is_ok());
        Desk {
            core,
            journal: None,
            file: Vec::new(),
            snaps: None,
            consumer: None,
            queue: VecDeque::new(),
            reported: Vec::new(),
        }
    }

    fn enable_journaling(&mut self, file: &[u8]) {
        self.file = file.to_vec();
        self.journal = Some(Journaler::new(file));
    }

    fn enable_snapshotting(&mut self, snaps: BTreeMap<u64, ExchangeState>) {
        assert!(self.core.enable_snapshotting().is_ok());
        self.snaps = Some(snaps);
    }

    fn startup(&mut self) {
        self.consumer = self.core.startup();
    }

    fn submit_command(&mut self, cmd: OrderCommand) -> OrderCommand {
        let mut cmd = cmd;
        let mut written = None;
        if self.core.needs_journal(&cmd) {
            if let Some(j) = &mut self.journal {
                let (seq, sync) = j.write_command(&encode(&cmd)).unwrap();
                self.file.extend_from_slice(j.pending());
                j.written();
                if sync {
                    j.sync();
                }
                written = Some(seq);
            }
        }
        let untold = cmd.result_code;
        match self.core.submit_command(&mut cmd, written) {
            Delivery::Refused => {}
            Delivery::Executed(Duty::Report) => {}
            Delivery::Executed(Duty::Persist) => {
                let state = self.core.serialize_state().unwrap();
                self.save(state, cmd.seq);
                persisted(&mut cmd, true);
            }
            Delivery::Publish => {
                let mut published = cmd.clone();
                published.result_code = untold;
                self.queue.push_back(published);
            }
        }
        cmd
    }

    fn save(&mut self, state: ExchangeState, seq: u64) {
        self.snaps.as_mut().unwrap().insert(seq, state);
    }

    /// The consumer takes all that waits, as long as nothing went wrong.
    fn drain(&mut self, fails: fn(&OrderCommand) -> bool) {
        while let Some(mut cmd) = self.queue.pop_front() {
            if self.core.is_poisoned() {
                continue;
            }
            let pipeline = self.consumer.as_mut().unwrap();
            if let Duty::Persist = pipeline.handle_event(&mut cmd) {
                let state = ExchangeState {
                    config: self.core.config(),
                    pipeline_state: pipeline.serialize_state(),
                };
                self.snaps.as_mut().unwrap().insert(cmd.seq, state);
                persisted(&mut cmd, true);
            }
            if fails(&cmd) {
                self.core.poison();
            } else {
                self.reported.push(cmd);
            }
        }
    }

    fn latest_snapshot(&self) -> Option<u64> {
        self.snaps.as_ref().and_then(|s| s.keys().next_back().copied())
    }

    fn take_snapshot(&mut self) -> Result<(), LifecycleError> {
        match self.core.take_snapshot() {
            Ok(Some((state, seq))) => {
                self.save(state, seq);
                Ok(())
            }
            Ok(None) => Ok(()),
            Err(e) => Err(e),
        }
    }

    fn request_snapshot(&mut self) -> OrderCommand {
        let (delivery, mut cmd) = self.core.request_snapshot();
        match delivery {
            Delivery::Executed(Duty::Persist) => {
                let state = self.core.serialize_state().unwrap();
                self.save(state, cmd.seq);
                persisted(&mut cmd, true);
            }
            Delivery::Publish => self.queue.push_back(cmd.clone()),
            _ => {}
        }
        cmd
    }

    /// Drops what the latest snapshot covers. Returns how many bytes that was.
    fn compact_journal(&mut self) -> Result<u64, LifecycleError> {
        let keep = match self.core.compact_journal(self.latest_snapshot()) {
            Ok(Some(seq)) => seq,
            Ok(None) => return Ok(0),
            Err(e) => return Err(e),
        };
        match compact_before(&self.file, keep) {
            None => Ok(0),
            Some((start, end)) => {
                let before = self.file.len();
                self.file = self.file[start..end].to_vec();
                Ok((before - self.file.len()) as u64)
            }
        }
    }

    fn load_latest_snapshot(&mut self) -> bool {
        match self.latest_snapshot() {
            None => false,
            Some(seq) => {
                let snaps = self.snaps.take().unwrap();
                assert_eq!(self.core.load_snapshot(&snaps[&seq], seq), Ok(()));
                self.snaps = Some(snaps);
                true
            }
        }
    }

    fn replay_journal(&mut self, file: &[u8]) -> Result<ReplaySummary, LifecycleError> {
        let outcome = read_commands_after(file, self.core.last_seq());
        self.core.replay_journal(commands(&outcome), outcome.last_seq, outcome.truncated_at)
    }

    fn shutdown(&mut self) {
        match self.core.shutdown() {
            Closing::Nothing | Closing::Abandon => {}
            Closing::Persist { seq } => {
                let state = self.core.serialize_state().unwrap();
                self.save(state, seq);
            }
            Closing::Signal { seq } => self.queue.push_back(OrderCommand {
                command: OrderCommandType::ShutdownSignal,
                seq,
                ..Default::default()
            }),
        }
    }

    fn balance_of(&self, uid: UserId) -> i64 {
        self.core.balance_of(uid, 1).unwrap()
    }
}

fn never(_: &OrderCommand) -> bool {
    false
}

fn user(uid: UserId) -> OrderCommand {
    OrderCommand { command: OrderCommandType::AddUser, uid, ..Default::default() }
}

fn money(uid: UserId, order_id: u64, amount: i64) -> OrderCommand {
    OrderCommand {
        command: OrderCommandType::BalanceAdjustment,
        uid,
        symbol: 1,
        price: amount,
        order_id,
        ..Default::default()
    }
}

fn add_user(desk: &mut Desk, uid: UserId) -> CommandResultCode {
    desk.submit_command(user(uid)).result_code
}

fn credit(desk: &mut Desk, uid: UserId, order_id: u64, amount: i64) {
    desk.submit_command(money(uid, order_id, amount));
}

// ---- What can only be done before the exchange is started ----

#[test]
fn add_symbol_after_startup_errors() {
    let mut desk = Desk::new();
    desk.startup();
    let err = desk.core.add_symbol(spec(2)).unwrap_err();
    assert!(err.message().contains("startup"));
}

#[test]
fn snapshot_after_startup_errors() {
    let mut desk = Desk::new();
    desk.enable_snapshotting(BTreeMap::new());
    desk.startup();
    assert!(desk.core.take_snapshot().is_err());
    assert!(desk.core.serialize_state().is_err());
    assert_eq!(desk.core.enable_snapshotting(), Err(LifecycleError::AlreadyStarted));
}

#[test]
fn async_mode_reports_accepted_and_invokes_callback() {
    let mut desk = Desk::new();
    desk.startup();
    let returned = desk.submit_command(user(1));
    assert_eq!(returned.result_code, CommandResultCode::Accepted);
    desk.drain(never);
    assert_eq!(desk.reported.len(), 1);
    assert_eq!(desk.reported[0].result_code, CommandResultCode::Success);
}

#[test]
fn sync_mode_apis_work() {
    let mut desk = Desk::new();
    assert!(desk.core.add_symbol(spec(3)).is_ok());
    assert!(desk.core.serialize_state().is_ok());
    assert!(!desk.core.is_started());
}

#[test]
fn nothing_can_be_read_after_startup() {
    let mut desk = Desk::new();
    assert_eq!(desk.core.balance_of(1, 1), Some(0));
    assert_eq!(desk.core.fees_collected(1), Some(0));
    assert!(desk.core.l2_depth(1, 5).is_some());
    assert!(desk.core.l2_depth(2, 5).is_none());
    desk.startup();
    assert!(desk.core.is_started());
    assert_eq!(desk.core.balance_of(1, 1), None);
    assert_eq!(desk.core.fees_collected(1), None);
    assert!(desk.core.l2_depth(1, 5).is_none());
    assert!(desk.core.startup().is_none());
}

// ---- Order ids ----

#[test]
fn duplicate_order_id_rejected_and_refunded() {
    let mut desk = Desk::new();
    add_user(&mut desk, 1);
    credit(&mut desk, 1, 1, 10_000);

    fn place(desk: &mut Desk, order_id: u64) -> CommandResultCode {
        desk.submit_command(OrderCommand {
            command: OrderCommandType::PlaceOrder,
            uid: 1,
            order_id,
            symbol: 1,
            price: 100,
            reserve_price: 100,
            size: 10,
            action: OrderAction::Bid,
            order_type: OrderType::Gtc,
            ..Default::default()
        })
        .result_code
    }

    assert_eq!(place(&mut desk, 7), CommandResultCode::Success);
    let after_first = desk.balance_of(1);
    assert_eq!(place(&mut desk, 7), CommandResultCode::MatchingDuplicateOrderId);
    assert_eq!(desk.balance_of(1), after_first);
}

// ---- The journal ----

/// A record begins with 4 bytes of magic, 8 of number, 4 of length and 4 of checksum.
const HEADER_LEN: usize = 20;
const LEN_FIELD: std::ops::Range<usize> = 12..16;

fn write_journal(count: u64) -> Vec<u8> {
    let mut desk = Desk::new();
    desk.enable_journaling(&[]);
    for uid in 1..=count {
        add_user(&mut desk, uid);
    }
    desk.file
}

#[test]
fn wal_roundtrip() {
    let file = write_journal(5);
    let mut desk = Desk::new();
    let summary = desk.replay_journal(&file).unwrap();
    assert_eq!(summary.replayed, 5);
    assert_eq!(summary.truncated_at, None);
}

#[test]
fn wal_truncated_tail_replays_prefix() {
    let full = write_journal(5);
    let mut desk = Desk::new();
    let summary = desk.replay_journal(&full[..full.len() - 3]).unwrap();
    assert_eq!(summary.replayed, 4);
    assert!(summary.truncated_at.is_some());
}

#[test]
fn wal_corrupted_payload_detected_by_crc() {
    let mut bytes = write_journal(3);
    bytes[HEADER_LEN] ^= 0xFF;
    let mut desk = Desk::new();
    let summary = desk.replay_journal(&bytes).unwrap();
    assert_eq!(summary.replayed, 0);
    assert_eq!(summary.truncated_at, Some(0));
}

#[test]
fn wal_absurd_length_is_rejected() {
    let mut bytes = write_journal(2);
    bytes[LEN_FIELD].copy_from_slice(&u32::MAX.to_le_bytes());
    let mut desk = Desk::new();
    let summary = desk.replay_journal(&bytes).unwrap();
    assert_eq!(summary.replayed, 0);
    assert_eq!(summary.truncated_at, Some(0));
}

#[test]
fn truncate_to_last_valid_allows_clean_append() {
    let full = write_journal(5);
    let mut file = full[..full.len() - 3].to_vec();

    let dropped = truncate_to_last_valid(&file);
    assert!(dropped > 0);
    file.truncate(file.len() - dropped);

    let mut j = Journaler::with_sync_policy(&file, SyncPolicy::EveryCommand);
    let (_, sync) = j.write_command(&encode(&user(99))).unwrap();
    assert!(sync);
    file.extend_from_slice(j.pending());

    let mut desk = Desk::new();
    let summary = desk.replay_journal(&file).unwrap();
    assert_eq!(summary.replayed, 5);
    assert_eq!(summary.truncated_at, None);
}

#[test]
fn replay_after_startup_errors() {
    let file = write_journal(2);
    let mut desk = Desk::new();
    desk.startup();
    assert_eq!(desk.replay_journal(&file), Err(LifecycleError::AlreadyStarted));
}

#[test]
fn replay_restores_balances() {
    let mut desk = Desk::new();
    desk.enable_journaling(&[]);
    add_user(&mut desk, 1);
    credit(&mut desk, 1, 1, 5_000);
    assert_eq!(desk.balance_of(1), 5_000);

    let mut restored = Desk::new();
    restored.replay_journal(&desk.file).unwrap();
    assert_eq!(restored.balance_of(1), 5_000);
}

// ---- Sequence numbers, checkpoints, compaction ----

#[test]
fn journal_seq_is_monotonic_and_survives_reopen() {
    let mut desk = Desk::new();
    desk.enable_journaling(&[]);
    assert_eq!(desk.core.last_seq(), 0);
    add_user(&mut desk, 1);
    add_user(&mut desk, 2);
    assert_eq!(desk.core.last_seq(), 2);

    let mut again = Desk::new();
    again.enable_journaling(&desk.file);
    add_user(&mut again, 3);
    assert_eq!(again.core.last_seq(), 3);

    let mut restored = Desk::new();
    let summary = restored.replay_journal(&again.file).unwrap();
    assert_eq!(summary.replayed, 3);
    assert_eq!(summary.last_seq, 3);
}

#[test]
fn checkpoint_then_replay_does_not_double_apply() {
    let mut desk = Desk::new();
    desk.enable_journaling(&[]);
    desk.enable_snapshotting(BTreeMap::new());

    add_user(&mut desk, 1);
    credit(&mut desk, 1, 1, 5_000);
    assert_eq!(desk.balance_of(1), 5_000);

    desk.take_snapshot().unwrap();
    assert!(desk.compact_journal().unwrap() > 0);

    credit(&mut desk, 1, 2, 300);
    assert_eq!(desk.balance_of(1), 5_300);

    // The snapshot gives 5000, the journal only adds the 300 since then.
    let mut restored = Desk::new();
    restored.enable_snapshotting(desk.snaps.take().unwrap());
    assert!(restored.load_latest_snapshot());
    assert_eq!(restored.balance_of(1), 5_000);
    let summary = restored.replay_journal(&desk.file).unwrap();
    assert_eq!(summary.replayed, 1);
    assert_eq!(restored.balance_of(1), 5_300);
}

#[test]
fn compaction_keeps_suffix_intact() {
    let mut desk = Desk::new();
    desk.enable_journaling(&[]);
    desk.enable_snapshotting(BTreeMap::new());
    for uid in 1..=5 {
        add_user(&mut desk, uid);
    }
    desk.take_snapshot().unwrap();
    for uid in 6..=8 {
        add_user(&mut desk, uid);
    }

    let before = desk.file.len() as u64;
    let reclaimed = desk.compact_journal().unwrap();
    let after = desk.file.len() as u64;
    assert_eq!(before - after, reclaimed);
    assert!(after > 0);

    let outcome = read_commands(&desk.file);
    assert_eq!(outcome.records.len(), 3);
    assert_eq!(outcome.last_seq, Some(8));
    assert_eq!(outcome.truncated_at, None);

    add_user(&mut desk, 9);
    assert_eq!(desk.core.last_seq(), 9);
}

#[test]
fn compaction_refused_without_snapshotting() {
    let mut desk = Desk::new();
    desk.enable_journaling(&[]);
    add_user(&mut desk, 1);

    let err = desk.compact_journal().unwrap_err();
    assert!(err.message().contains("未启用快照"));

    // Snapshots are enabled, but there is none yet: nothing can be dropped.
    desk.enable_snapshotting(BTreeMap::new());
    assert_eq!(desk.compact_journal(), Ok(0));
}

// ---- Snapshots while the consumer has the state ----

#[test]
fn in_band_snapshot_works_after_startup() {
    let mut desk = Desk::new();
    desk.enable_journaling(&[]);
    desk.enable_snapshotting(BTreeMap::new());
    desk.startup();
    assert!(desk.core.take_snapshot().is_err());

    desk.submit_command(user(1));
    desk.submit_command(money(1, 1, 7_000));
    let accepted = desk.request_snapshot();
    assert_eq!(accepted.result_code, CommandResultCode::Accepted);

    desk.drain(never);
    assert_eq!(desk.reported.len(), 3);
    assert_eq!(desk.reported[2].command, OrderCommandType::PersistStateMatching);
    assert_eq!(desk.reported[2].result_code, CommandResultCode::Success);

    // It is filed under the number of the last command that it covers.
    assert_eq!(desk.latest_snapshot(), Some(2));

    let mut restored = Desk::new();
    restored.enable_snapshotting(desk.snaps.take().unwrap());
    assert!(restored.load_latest_snapshot());
    assert_eq!(restored.balance_of(1), 7_000);
    assert_eq!(restored.core.last_seq(), 2);

    let summary = restored.replay_journal(&desk.file).unwrap();
    assert_eq!(summary.replayed, 0);
    assert_eq!(restored.balance_of(1), 7_000);
}

#[test]
fn control_commands_are_not_journaled() {
    let mut desk = Desk::new();
    desk.enable_journaling(&[]);
    desk.enable_snapshotting(BTreeMap::new());

    add_user(&mut desk, 1);
    assert_eq!(desk.request_snapshot().result_code, CommandResultCode::Success);
    add_user(&mut desk, 2);

    let outcome = read_commands(&desk.file);
    let cmds = commands(&outcome);
    assert_eq!(cmds.len(), 2);
    assert!(cmds.iter().all(|c| c.command == OrderCommandType::AddUser));
    assert_eq!(cmds.iter().map(|c| c.seq).collect::<Vec<_>>(), vec![1, 2]);

    assert_eq!(desk.latest_snapshot(), Some(1));
}

#[test]
fn in_band_snapshot_without_store_reports_failure() {
    let mut desk = Desk::new();
    let result = desk.request_snapshot();
    assert_eq!(result.result_code, CommandResultCode::StatePersistMatchingEngineFailed);
}

#[test]
fn async_checkpoint_then_compact_then_recover() {
    let mut desk = Desk::new();
    desk.enable_journaling(&[]);
    desk.enable_snapshotting(BTreeMap::new());
    desk.startup();

    desk.submit_command(user(1));
    desk.submit_command(money(1, 1, 1_000));
    desk.request_snapshot();
    desk.drain(never);
    assert_eq!(desk.reported.len(), 3);

    let before = desk.file.len();
    let reclaimed = desk.compact_journal().unwrap();
    assert!(reclaimed > 0);
    assert!(desk.file.len() < before);

    desk.submit_command(money(1, 2, 250));
    desk.drain(never);

    let mut restored = Desk::new();
    restored.enable_snapshotting(desk.snaps.take().unwrap());
    assert!(restored.load_latest_snapshot());
    assert_eq!(restored.balance_of(1), 1_000);

    let summary = restored.replay_journal(&desk.file).unwrap();
    assert_eq!(summary.replayed, 1);
    assert_eq!(restored.balance_of(1), 1_250);
}

// ---- A consumer that fails ----

#[test]
fn panicking_consumer_poisons_engine_instead_of_aborting() {
    let mut desk = Desk::new();
    desk.startup();
    assert!(!desk.core.is_poisoned());

    assert_eq!(add_user(&mut desk, 1), CommandResultCode::Accepted);
    add_user(&mut desk, 2);
    desk.drain(|c| c.uid >= 2);
    assert!(desk.core.is_poisoned());

    for uid in 3..200 {
        assert_eq!(add_user(&mut desk, uid), CommandResultCode::EnginePoisoned);
    }
    assert!(desk.queue.is_empty());
}

#[test]
fn poisoned_engine_stops_journaling() {
    let mut desk = Desk::new();
    desk.enable_journaling(&[]);
    desk.startup();

    add_user(&mut desk, 1);
    add_user(&mut desk, 2);
    desk.drain(|c| c.uid == 2);
    assert!(desk.core.is_poisoned());

    let before = desk.file.len();
    for uid in 3..20 {
        add_user(&mut desk, uid);
    }
    assert_eq!(desk.file.len(), before);
}

// ---- Shutting down ----

#[test]
fn shutdown_drains_inflight_commands() {
    const N: usize = 500;
    let mut desk = Desk::new();
    desk.startup();
    for uid in 1..=N as u64 {
        add_user(&mut desk, uid);
    }
    assert!(desk.reported.len() < N);

    // The signal stands behind all that was accepted.
    desk.shutdown();
    desk.drain(never);
    assert_eq!(desk.reported.len(), N + 1);
    assert_eq!(desk.reported[N].command, OrderCommandType::ShutdownSignal);
    assert_eq!(desk.reported[N].result_code, CommandResultCode::Success);
    assert!(desk.core.is_stopped());
}

#[test]
fn shutdown_takes_final_snapshot_and_state_survives() {
    let mut desk = Desk::new();
    desk.enable_journaling(&[]);
    desk.enable_snapshotting(BTreeMap::new());
    desk.startup();

    desk.submit_command(user(1));
    desk.submit_command(money(1, 1, 4_200));
    desk.shutdown();
    desk.drain(never);

    assert_eq!(add_user(&mut desk, 99), CommandResultCode::EngineStopped);
    desk.shutdown();
    assert!(desk.queue.is_empty());

    assert_eq!(desk.latest_snapshot(), Some(2));

    let mut restored = Desk::new();
    restored.enable_snapshotting(desk.snaps.take().unwrap());
    assert!(restored.load_latest_snapshot());
    assert_eq!(restored.balance_of(1), 4_200);
    let summary = restored.replay_journal(&desk.file).unwrap();
    assert_eq!(summary.replayed, 0);
}

#[test]
fn shutdown_after_poison_does_not_snapshot() {
    let mut desk = Desk::new();
    desk.enable_snapshotting(BTreeMap::new());
    desk.startup();

    add_user(&mut desk, 1);
    add_user(&mut desk, 2);
    desk.drain(|c| c.uid == 2);
    assert!(desk.core.is_poisoned());

    desk.shutdown();
    desk.drain(never);
    assert_eq!(desk.latest_snapshot(), None);
}

#[test]
fn shutdown_works_in_sync_mode() {
    let mut desk = Desk::new();
    desk.enable_journaling(&[]);
    desk.enable_snapshotting(BTreeMap::new());
    add_user(&mut desk, 1);

    desk.shutdown();
    assert!(desk.core.is_stopped());
    assert_eq!(desk.latest_snapshot(), Some(1));
    assert_eq!(add_user(&mut desk, 2), CommandResultCode::EngineStopped);
}

// ---- Saved states ----

/// Places a bid of user 1.
fn bid(order_id: u64, price: i64, size: i64) -> OrderCommand {
    OrderCommand {
        command: OrderCommandType::PlaceOrder,
        uid: 1,
        order_id,
        symbol: 1,
        price,
        reserve_price: price,
        size,
        action: OrderAction::Bid,
        order_type: OrderType::Gtc,
        ..Default::default()
    }
}

fn desk_with_orders() -> Desk {
    let mut desk = Desk::new();
    add_user(&mut desk, 1);
    credit(&mut desk, 1, 1, 10_000);
    for (id, price, size) in [(1, 100, 5), (2, 101, 3), (3, 100, 2)] {
        assert_eq!(desk.submit_command(bid(id, price, size)).result_code, CommandResultCode::Success);
    }
    desk
}

#[test]
fn a_saved_exchange_comes_back_as_it_was() {
    let desk = desk_with_orders();
    let saved = desk.core.serialize_state().unwrap();
    let book = &saved.pipeline_state.matching_engines[0].order_books[0].1;
    assert_eq!(book.bids.iter().map(|o| o.order_id).collect::<Vec<_>>(), vec![2, 1, 3]);
    assert!(book.asks.is_empty());

    let core = ExchangeCore::from_state(&saved).unwrap();
    assert_eq!(core.balance_of(1, 1), desk.core.balance_of(1, 1));
    let (a, b) = (core.l2_depth(1, 10).unwrap(), desk.core.l2_depth(1, 10).unwrap());
    assert_eq!(a.bid_prices, b.bid_prices);
    assert_eq!(a.bid_volumes, vec![3, 7]);
    assert_eq!(a.bid_order_counts, b.bid_order_counts);
}

#[test]
fn a_state_that_cannot_be_is_turned_down() {
    let desk = desk_with_orders();
    for spoil in [
        // The orders stand in the wrong order.
        (|s: &mut ExchangeState| orders(s).swap(0, 1)) as fn(&mut ExchangeState),
        // An id occurs twice.
        |s| orders(s)[1].order_id = 2,
        // An order wants nothing.
        |s| orders(s)[0].filled = 3,
        // An order is on the wrong side.
        |s| orders(s)[0].action = OrderAction::Ask,
        // What is wanted at a price cannot be counted.
        |s| orders(s)[1].size = i64::MAX,
    ] {
        let mut saved = desk.core.serialize_state().unwrap();
        spoil(&mut saved);
        assert!(ExchangeCore::from_state(&saved).is_none());
        let mut fresh = Desk::new();
        assert_eq!(fresh.core.load_snapshot(&saved, 9), Err(LifecycleError::BadSnapshot));
        assert_eq!(fresh.core.last_seq(), 0);
    }
}

fn orders(s: &mut ExchangeState) -> &mut Vec<matching_engine::exchange::model::DirectOrder> {
    &mut s.pipeline_state.matching_engines[0].order_books[0].1.bids
}

#[test]
fn journal_sync_policies() {
    let mut every = Journaler::with_sync_policy(&[], SyncPolicy::EveryN(3));
    let due: Vec<bool> = (0..3).map(|_| every.write_command(&[1]).unwrap().1).collect();
    assert_eq!(due, vec![false, false, true]);
    let mut manual = Journaler::with_sync_policy(&[], SyncPolicy::Never);
    assert_eq!(manual.write_command(&[1]).unwrap(), (1, false));
    assert_eq!(manual.last_seq(), 1);
}
