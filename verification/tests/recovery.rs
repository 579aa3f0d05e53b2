//! What an engine left behind brings it back.
use matching_engine::engine::facade::MatchingEngine;
use matching_engine::engine::saved::EngineSnapshot;
use matching_engine::risk::engine::exchange_account;
use matching_engine::types::command::{
    AddUser, AdjustBalance, CancelOrder, Command, CommandEnvelope, PlaceOrder,
};
use matching_engine::types::enums::{OrderType, SelfTradePrevention, Side, TimeInForce};
use matching_engine::types::ids::{
    ClientOrderId, CurrencyId, OrderId, SeqNo, SymbolId, Timestamp, UserId,
};
use matching_engine::types::numeric::{Amount, Bps, Price, Size};
use matching_engine::types::receipt::CommandReceipt;
use matching_engine::types::symbol::{FeeSchedule, PriceBand, SymbolKindParams, SymbolSpec};
use std::collections::BTreeMap;

const BTC: CurrencyId = CurrencyId(1);
const USDT: CurrencyId = CurrencyId(2);
const BTC_USDT: SymbolId = SymbolId(1);

fn spec() -> SymbolSpec {
    SymbolSpec {
        symbol_id: BTC_USDT,
        base_currency: BTC,
        quote_currency: USDT,
        base_minor_per_major: 100_000_000,
        quote_minor_per_major: 1_000_000,
        tick_size: Price(1),
        lot_size: Size(1),
        min_order_size: Size(1),
        max_order_size: Size(i64::MAX),
        fee_schedule: FeeSchedule { maker_bps: Bps(10), taker_bps: Bps(20) },
        price_band: PriceBand::none(),
        kind_params: SymbolKindParams::Spot,
        is_suspended: false,
    }
}

#[derive(Debug, PartialEq, Eq)]
struct StateSummary {
    last_applied_seq: u64,
    accounts: BTreeMap<(u64, u32), (i64, i64)>, // (uid,cur) -> (free, held)
    exchange_balances: BTreeMap<u32, i64>,
    total_internal: BTreeMap<u32, i128>,
    resting: BTreeMap<u32, usize>, // symbol_id.0 -> count
}

impl StateSummary {
    fn from_engine(eng: &MatchingEngine, users: &[UserId], symbols: &[SymbolId]) -> Self {
        let mut accounts = BTreeMap::new();
        let mut exchange_balances = BTreeMap::new();
        let mut total_internal = BTreeMap::new();
        let mut resting = BTreeMap::new();

        for uid in users {
            for cur in [BTC, USDT] {
                let acct = eng.risk().account(*uid);
                if let Some(a) = acct {
                    accounts.insert((uid.0, cur.0), (a.free(cur).raw(), a.held(cur).raw()));
                }
            }
        }
        for cur in [BTC, USDT] {
            let acct = eng.risk().account(exchange_account());
            exchange_balances.insert(cur.0, acct.map(|a| a.free(cur).raw()).unwrap_or(0));
            total_internal.insert(cur.0, eng.risk().total_internal(cur));
        }
        for sym in symbols {
            if let Some(book) = eng.book(*sym) {
                resting.insert(sym.0, book.total_resting_orders());
            }
        }
        Self {
            last_applied_seq: eng.last_applied_seq().0,
            accounts,
            exchange_balances,
            total_internal,
            resting,
        }
    }
}

/// An engine whose commands are journaled before they are applied, and the files that
/// it leaves behind.
struct Desk {
    eng: MatchingEngine,
    wal: Vec<CommandEnvelope>,
    snap: Option<(EngineSnapshot, SeqNo)>,
}

impl Desk {
    /// Opens an engine over what an earlier one left behind.
    fn open(wal: Vec<CommandEnvelope>, snap: Option<(EngineSnapshot, SeqNo)>) -> Desk {
        let mut eng = MatchingEngine::new();
        let latest = snap.as_ref().map(|(s, seq)| (s, *seq));
        assert!(eng.restore(latest, &wal));
        Desk { eng, wal, snap }
    }

    fn submit(&mut self, cmd: Command, now: Timestamp) -> CommandReceipt {
        let env = self.eng.next_envelope(cmd, now);
        self.wal.push(env);
        self.eng.apply_envelope(&env)
    }

    fn take_snapshot(&mut self) {
        self.snap = Some(self.eng.take_snapshot());
    }

    fn crash(self) -> (Vec<CommandEnvelope>, Option<(EngineSnapshot, SeqNo)>) {
        (self.wal, self.snap)
    }
}

fn add_user(eng: &mut Desk, uid: u64) {
    eng.submit(Command::AddUser(AddUser { user_id: UserId(uid) }), Timestamp(0));
}

fn deposit(eng: &mut Desk, uid: u64, cur: CurrencyId, amt: i64) {
    eng.submit(
        Command::AdjustBalance(AdjustBalance {
            user_id: UserId(uid),
            currency_id: cur,
            delta: Amount(amt),
            transaction_id: 0,
        }),
        Timestamp(0),
    );
}

fn place(
    eng: &mut Desk,
    uid: u64,
    coid: u64,
    side: Side,
    price: i64,
    size: i64,
    tif: TimeInForce,
) {
    eng.submit(
        Command::PlaceOrder(PlaceOrder {
            user_id: UserId(uid),
            symbol_id: BTC_USDT,
            client_order_id: ClientOrderId(coid),
            side,
            order_type: OrderType::Limit,
            time_in_force: tif,
            price: Some(Price(price)),
            size: Size(size),
            reserve_price: None,
            stop_price: None,
            visible_size: None,
            self_trade_prevention: SelfTradePrevention::Allow,
        }),
        Timestamp(0),
    );
}

fn cancel(eng: &mut Desk, uid: u64, oid: u64) {
    eng.submit(
        Command::CancelOrder(CancelOrder {
            user_id: UserId(uid),
            symbol_id: BTC_USDT,
            order_id: OrderId(oid),
        }),
        Timestamp(0),
    );
}

fn seed_scenario(eng: &mut Desk) {
    eng.submit(Command::RegisterSymbol(spec()), Timestamp(0));
    add_user(eng, 1);
    add_user(eng, 2);
    add_user(eng, 3);
    deposit(eng, 1, BTC, 200_000_000);
    deposit(eng, 2, USDT, 5_000_000_000);
    deposit(eng, 3, USDT, 1_000_000_000);
    place(eng, 1, 1, Side::Ask, 50_000_000, 80_000_000, TimeInForce::Gtc);
    place(eng, 2, 2, Side::Bid, 50_000_000, 30_000_000, TimeInForce::Ioc);
    place(eng, 3, 3, Side::Bid, 49_000_000, 10_000_000, TimeInForce::Gtc);
    place(eng, 1, 4, Side::Ask, 51_000_000, 50_000_000, TimeInForce::Gtc);
}

fn extra_post_snapshot(eng: &mut Desk) {
    place(eng, 2, 5, Side::Bid, 51_000_000, 25_000_000, TimeInForce::Ioc);
    cancel(eng, 3, 7); // no order has this id
    place(eng, 3, 6, Side::Bid, 50_500_000, 5_000_000, TimeInForce::Gtc);
}

const USERS: [UserId; 3] = [UserId(1), UserId(2), UserId(3)];

fn summary(desk: &Desk) -> StateSummary {
    StateSummary::from_engine(&desk.eng, &USERS, &[BTC_USDT])
}

#[test]
fn replay_from_wal_only_reproduces_state() {
    let mut a = Desk::open(Vec::new(), None);
    seed_scenario(&mut a);
    extra_post_snapshot(&mut a);
    let summary_a = summary(&a);

    let (wal, snap) = a.crash();
    let b = Desk::open(wal, snap);
    assert_eq!(summary_a, summary(&b));
}

#[test]
fn snapshot_plus_wal_delta_reproduces_state() {
    let mut a = Desk::open(Vec::new(), None);
    seed_scenario(&mut a);
    a.take_snapshot();
    extra_post_snapshot(&mut a);
    let summary_a = summary(&a);

    let (wal, snap) = a.crash();
    let b = Desk::open(wal, snap);
    assert_eq!(summary_a, summary(&b));
}

#[test]
fn snapshot_only_no_wal_delta_reproduces_state() {
    let mut a = Desk::open(Vec::new(), None);
    seed_scenario(&mut a);
    a.take_snapshot();
    let summary_a = summary(&a);

    let (wal, snap) = a.crash();
    let b = Desk::open(wal, snap);
    assert_eq!(summary_a, summary(&b));
}

#[test]
fn restore_preserves_conservation_invariant() {
    let mut a = Desk::open(Vec::new(), None);
    seed_scenario(&mut a);
    a.take_snapshot();
    extra_post_snapshot(&mut a);

    let (wal, snap) = a.crash();
    let b = Desk::open(wal, snap);
    assert_eq!(b.eng.risk().total_internal(BTC), 200_000_000i128);
    assert_eq!(b.eng.risk().total_internal(USDT), 5_000_000_000i128 + 1_000_000_000i128);
}

#[test]
fn a_snapshot_lists_what_the_engine_holds() {
    let mut a = Desk::open(Vec::new(), None);
    seed_scenario(&mut a);
    let (s, seq) = a.eng.take_snapshot();
    assert_eq!(seq, SeqNo(11));
    assert_eq!(s.last_applied_seq, seq);
    assert_eq!(s.next_seq_no, 12);
    assert_eq!(s.next_order_id, 5);
    assert_eq!(s.books.len(), 1);
    let book = &s.books[0].1;
    assert_eq!(book.asks.iter().map(|o| o.price.0).collect::<Vec<_>>(), [50_000_000, 51_000_000]);
    assert_eq!(book.asks[0].size_remaining, Size(50_000_000));
    assert_eq!(book.bids.iter().map(|o| o.price.0).collect::<Vec<_>>(), [49_000_000]);
    assert_eq!(s.risk.holds.len(), 3);
    assert_eq!(s.risk.accounts.len(), 4);
    assert!(MatchingEngine::from_snapshot(&s).is_some());
}

#[test]
fn a_snapshot_that_cannot_be_is_turned_down() {
    for spoil in [
        // A book without its symbol.
        (|s: &mut EngineSnapshot| s.symbols.clear()) as fn(&mut EngineSnapshot),
        // An id that was not given out.
        |s| s.next_order_id = 2,
        // The worse price first.
        |s| s.books[0].1.asks.swap(0, 1),
        // An order that wants nothing.
        |s| s.books[0].1.asks[0].size_remaining = Size(0),
        // The account that collects the fees is missing.
        |s| s.risk.accounts.retain(|a| a.0 != 0),
    ] {
        let mut a = Desk::open(Vec::new(), None);
        seed_scenario(&mut a);
        let (mut s, seq) = a.eng.take_snapshot();
        spoil(&mut s);
        assert!(MatchingEngine::from_snapshot(&s).is_none());
        let mut fresh = MatchingEngine::new();
        assert!(!fresh.restore(Some((&s, seq)), &a.wal));
        assert_eq!(fresh.last_applied_seq(), SeqNo(0));
    }
}
