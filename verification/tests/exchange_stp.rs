//! Orders of one user that would meet each other.
use matching_engine::exchange::api::{
    CommandResultCode, CoreSymbolSpecification, Currency, MatcherEventType, OrderAction,
    OrderCommand, OrderCommandType, OrderId, OrderType, Price, SelfTradePrevention, Size,
    SymbolId, SymbolType, UserId,
};
use matching_engine::exchange::config::ExchangeConfig;
use matching_engine::exchange::lifecycle::{Delivery, ExchangeCore};
use matching_engine::exchange::pipeline::Duty;

const BASE: Currency = 0;
const QUOTE: Currency = 1;
const SYM: SymbolId = 1;

/// An exchange that takes its commands at once and keeps no journal.
struct Desk(ExchangeCore);

impl Desk {
    fn new() -> Self {
        Desk(ExchangeCore::new(ExchangeConfig::default()))
    }

    fn add_symbol(&mut self, spec: CoreSymbolSpecification) {
        assert!(self.0.add_symbol(spec).is_ok());
    }

    fn submit_command(&mut self, cmd: OrderCommand) -> OrderCommand {
        let mut cmd = cmd;
        let delivery = self.0.submit_command(&mut cmd, None);
        assert_eq!(delivery, Delivery::Executed(Duty::Report));
        cmd
    }

    fn balance_of(&self, uid: UserId, currency: Currency) -> Option<i64> {
        self.0.balance_of(uid, currency)
    }

    fn fees_collected(&self, currency: Currency) -> Option<i64> {
        self.0.fees_collected(currency)
    }
}

struct Harness {
    core: Desk,
    tx: i64,
    deposited_base: i64,
    deposited_quote: i64,
}

impl Harness {
    fn new(stp: SelfTradePrevention) -> Self {
        let mut core = Desk::new();
        core.add_symbol(CoreSymbolSpecification {
            symbol_id: SYM,
            symbol_type: SymbolType::CurrencyExchangePair,
            base_currency: BASE,
            quote_currency: QUOTE,
            base_scale_k: 1,
            quote_scale_k: 1,
            taker_fee: 2,
            maker_fee: 1,
            margin_buy: 0,
            margin_sell: 0,
            stp,
        });

        let mut h = Self {
            core,
            tx: 0,
            deposited_base: 0,
            deposited_quote: 0,
        };
        for uid in [1, 2] {
            h.core.submit_command(OrderCommand {
                command: OrderCommandType::AddUser,
                uid,
                ..Default::default()
            });
            h.deposit(uid, BASE, 1_000);
            h.deposit(uid, QUOTE, 100_000);
        }
        h
    }

    fn deposit(&mut self, uid: UserId, currency: Currency, amount: i64) {
        self.tx += 1;
        let code = self
            .core
            .submit_command(OrderCommand {
                command: OrderCommandType::BalanceAdjustment,
                uid,
                symbol: currency,
                price: amount,
                order_id: self.tx as u64,
                ..Default::default()
            })
            .result_code;
        assert_eq!(code, CommandResultCode::Success);
        match currency {
            BASE => self.deposited_base += amount,
            QUOTE => self.deposited_quote += amount,
            _ => {}
        }
    }

    fn place(
        &mut self,
        uid: UserId,
        order_id: OrderId,
        action: OrderAction,
        price: Price,
        size: Size,
    ) -> OrderCommand {
        self.core.submit_command(OrderCommand {
            command: OrderCommandType::PlaceOrder,
            uid,
            order_id,
            symbol: SYM,
            price,
            reserve_price: price,
            size,
            action,
            order_type: OrderType::Gtc,
            ..Default::default()
        })
    }

    fn cancel(&mut self, uid: UserId, order_id: OrderId) -> CommandResultCode {
        self.core
            .submit_command(OrderCommand {
                command: OrderCommandType::CancelOrder,
                uid,
                order_id,
                symbol: SYM,
                ..Default::default()
            })
            .result_code
    }

    fn balance(&self, uid: UserId, currency: Currency) -> i64 {
        self.core.balance_of(uid, currency).unwrap()
    }

    fn assert_conserved(&self) {
        let quote = self.balance(1, QUOTE) + self.balance(2, QUOTE) + self.core.fees_collected(QUOTE).unwrap();
        let base = self.balance(1, BASE) + self.balance(2, BASE) + self.core.fees_collected(BASE).unwrap();
        assert_eq!(quote, self.deposited_quote);
        assert_eq!(base, self.deposited_base);
    }
}

fn count(cmd: &OrderCommand, kind: MatcherEventType) -> usize {
    cmd.matcher_events
        .iter()
        .filter(|e| e.event_type == kind)
        .count()
}

fn self_cross(h: &mut Harness) -> OrderCommand {
    h.place(1, 1, OrderAction::Ask, 100, 10);
    h.place(1, 2, OrderAction::Bid, 100, 10)
}

#[test]
fn none_allows_self_trade() {
    let mut h = Harness::new(SelfTradePrevention::Allow);
    let r = self_cross(&mut h);
    assert_eq!(count(&r, MatcherEventType::Trade), 1);
    h.assert_conserved();
}

#[test]
fn cancel_taker_keeps_maker() {
    let mut h = Harness::new(SelfTradePrevention::CancelTaker);
    let r = self_cross(&mut h);

    assert_eq!(count(&r, MatcherEventType::Trade), 0);
    assert_eq!(count(&r, MatcherEventType::Reject), 1);
    assert_eq!(count(&r, MatcherEventType::RejectMaker), 0);

    let taken = h.place(2, 3, OrderAction::Bid, 100, 10);
    assert_eq!(count(&taken, MatcherEventType::Trade), 1);

    h.assert_conserved();
}

#[test]
fn cancel_maker_removes_resting_order() {
    let mut h = Harness::new(SelfTradePrevention::CancelMaker);
    let r = self_cross(&mut h);

    assert_eq!(count(&r, MatcherEventType::Trade), 0);
    assert_eq!(count(&r, MatcherEventType::RejectMaker), 1);

    let taken = h.place(2, 3, OrderAction::Bid, 100, 10);
    assert_eq!(count(&taken, MatcherEventType::Trade), 0);

    assert_eq!(h.cancel(1, 2), CommandResultCode::Success);
    assert_eq!(h.cancel(2, 3), CommandResultCode::Success);
    h.assert_conserved();
}

#[test]
fn cancel_both_clears_both_sides() {
    let mut h = Harness::new(SelfTradePrevention::CancelBoth);
    let r = self_cross(&mut h);

    assert_eq!(count(&r, MatcherEventType::Trade), 0);
    assert_eq!(count(&r, MatcherEventType::RejectMaker), 1);
    assert_eq!(count(&r, MatcherEventType::Reject), 1);

    let probe = h.place(2, 3, OrderAction::Bid, 100, 10);
    assert_eq!(count(&probe, MatcherEventType::Trade), 0);

    assert_eq!(h.cancel(2, 3), CommandResultCode::Success);
    h.assert_conserved();
}

#[test]
fn skip_keeps_both_orders() {
    let mut h = Harness::new(SelfTradePrevention::Skip);
    let r = self_cross(&mut h);

    assert_eq!(count(&r, MatcherEventType::Trade), 0);
    assert_eq!(count(&r, MatcherEventType::Reject), 0);
    assert_eq!(count(&r, MatcherEventType::RejectMaker), 0);

    let hit_ask = h.place(2, 3, OrderAction::Bid, 100, 10);
    assert_eq!(count(&hit_ask, MatcherEventType::Trade), 1);
    let hit_bid = h.place(2, 4, OrderAction::Ask, 100, 10);
    assert_eq!(count(&hit_bid, MatcherEventType::Trade), 1);

    h.assert_conserved();
}

#[test]
fn skip_continues_matching_other_makers() {
    let mut h = Harness::new(SelfTradePrevention::Skip);

    h.place(1, 1, OrderAction::Ask, 100, 10);
    h.place(2, 2, OrderAction::Ask, 101, 10);

    let r = h.place(1, 3, OrderAction::Bid, 101, 10);

    let trades: Vec<_> = r
        .matcher_events
        .iter()
        .filter(|e| e.event_type == MatcherEventType::Trade)
        .collect();
    assert_eq!(trades.len(), 1);
    assert_eq!(trades[0].price, 101);
    assert_eq!(trades[0].matched_order_uid, 2);

    let taken = h.place(2, 4, OrderAction::Bid, 100, 10);
    assert_eq!(count(&taken, MatcherEventType::Trade), 1);

    h.assert_conserved();
}

#[test]
fn cancel_taker_after_partial_fill_keeps_fills() {
    let mut h = Harness::new(SelfTradePrevention::CancelTaker);

    h.place(2, 1, OrderAction::Ask, 100, 4);
    h.place(1, 2, OrderAction::Ask, 100, 10);

    let r = h.place(1, 3, OrderAction::Bid, 100, 10);

    let filled: i64 = r
        .matcher_events
        .iter()
        .filter(|e| e.event_type == MatcherEventType::Trade)
        .map(|e| e.size)
        .sum();
    assert_eq!(filled, 4);

    let rejected: i64 = r
        .matcher_events
        .iter()
        .filter(|e| e.event_type == MatcherEventType::Reject)
        .map(|e| e.size)
        .sum();
    assert_eq!(rejected, 6);

    assert_eq!(h.cancel(1, 2), CommandResultCode::Success);
    h.assert_conserved();
}

#[test]
fn all_modes_conserve_funds() {
    for stp in [
        SelfTradePrevention::Allow,
        SelfTradePrevention::CancelTaker,
        SelfTradePrevention::CancelMaker,
        SelfTradePrevention::CancelBoth,
        SelfTradePrevention::Skip,
    ] {
        let mut h = Harness::new(stp);

        h.place(1, 1, OrderAction::Ask, 100, 10);
        h.place(2, 2, OrderAction::Ask, 101, 10);
        h.place(1, 3, OrderAction::Bid, 101, 15);
        h.place(2, 4, OrderAction::Bid, 99, 5);

        for (uid, oid) in [(1, 1), (2, 2), (1, 3), (2, 4)] {
            let _ = h.cancel(uid, oid);
        }

        h.assert_conserved();
    }
}
