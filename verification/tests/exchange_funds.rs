//! No command sequence makes or loses money.
use matching_engine::exchange::api::{
    CommandResultCode, CoreSymbolSpecification, Currency, OrderAction, OrderCommand,
    OrderCommandType, OrderId, OrderType, Price, SelfTradePrevention, Size, SymbolId,
    SymbolType, UserId,
};
use matching_engine::exchange::config::ExchangeConfig;
use matching_engine::exchange::lifecycle::{Delivery, ExchangeCore};
use matching_engine::exchange::pipeline::Duty;

const BASE: Currency = 0;
const QUOTE: Currency = 1;
const SYM: SymbolId = 1;

const TAKER_FEE: i64 = 2;
const MAKER_FEE: i64 = 1;

/// An exchange that takes its commands at once and keeps no journal.
struct Desk(ExchangeCore);

impl Desk {
    fn new() -> Self {
        Desk(ExchangeCore::new(ExchangeConfig::default()))
    }

    fn add_symbol(&mut self, spec: CoreSymbolSpecification) {
        assert!(self.0.add_symbol(spec).is_ok());
    }

    fn submit_command(&mut self, cmd: OrderCommand) -> OrderCommand {
        let mut cmd = cmd;
        let delivery = self.0.submit_command(&mut cmd, None);
        assert_eq!(delivery, Delivery::Executed(Duty::Report));
        cmd
    }

    fn balance_of(&self, uid: UserId, currency: Currency) -> Option<i64> {
        self.0.balance_of(uid, currency)
    }

    fn fees_collected(&self, currency: Currency) -> Option<i64> {
        self.0.fees_collected(currency)
    }
}

struct Harness {
    core: Desk,
    next_tx_id: std::collections::HashMap<UserId, i64>,
    deposited_base: i64,
    deposited_quote: i64,
}

impl Harness {
    fn new() -> Self {
        let mut core = Desk::new();
        core.add_symbol(CoreSymbolSpecification {
            symbol_id: SYM,
            symbol_type: SymbolType::CurrencyExchangePair,
            base_currency: BASE,
            quote_currency: QUOTE,
            base_scale_k: 1,
            quote_scale_k: 1,
            taker_fee: TAKER_FEE,
            maker_fee: MAKER_FEE,
            margin_buy: 0,
            margin_sell: 0,
            stp: SelfTradePrevention::Allow,
        });
        Self {
            core,
            next_tx_id: std::collections::HashMap::new(),
            deposited_base: 0,
            deposited_quote: 0,
        }
    }

    fn add_user(&mut self, uid: UserId) {
        let code = self
            .core
            .submit_command(OrderCommand {
                command: OrderCommandType::AddUser,
                uid,
                ..Default::default()
            })
            .result_code;
        assert_eq!(code, CommandResultCode::Success);
    }

    fn deposit(&mut self, uid: UserId, currency: Currency, amount: i64) -> CommandResultCode {
        let tx = self.next_tx_id.entry(uid).or_insert(0);
        *tx += 1;
        let tx_id = *tx;
        self.deposit_with_tx(uid, currency, amount, tx_id)
    }

    fn deposit_with_tx(
        &mut self,
        uid: UserId,
        currency: Currency,
        amount: i64,
        tx_id: i64,
    ) -> CommandResultCode {
        let code = self
            .core
            .submit_command(OrderCommand {
                command: OrderCommandType::BalanceAdjustment,
                uid,
                symbol: currency,
                price: amount,
                order_id: tx_id as u64,
                ..Default::default()
            })
            .result_code;
        if code == CommandResultCode::Success {
            match currency {
                BASE => self.deposited_base += amount,
                QUOTE => self.deposited_quote += amount,
                _ => {}
            }
        }
        code
    }

    #[allow(clippy::too_many_arguments)]
    fn place(
        &mut self,
        uid: UserId,
        order_id: OrderId,
        action: OrderAction,
        order_type: OrderType,
        price: Price,
        reserve_price: Price,
        size: Size,
    ) -> CommandResultCode {
        self.core
            .submit_command(OrderCommand {
                command: OrderCommandType::PlaceOrder,
                uid,
                order_id,
                symbol: SYM,
                price,
                reserve_price,
                size,
                action,
                order_type,
                ..Default::default()
            })
            .result_code
    }

    fn cancel(&mut self, uid: UserId, order_id: OrderId) -> CommandResultCode {
        self.core
            .submit_command(OrderCommand {
                command: OrderCommandType::CancelOrder,
                uid,
                order_id,
                symbol: SYM,
                ..Default::default()
            })
            .result_code
    }

    fn move_order(&mut self, uid: UserId, order_id: OrderId, price: Price) -> CommandResultCode {
        self.core
            .submit_command(OrderCommand {
                command: OrderCommandType::MoveOrder,
                uid,
                order_id,
                symbol: SYM,
                price,
                ..Default::default()
            })
            .result_code
    }

    fn balance(&self, uid: UserId, currency: Currency) -> i64 {
        self.core.balance_of(uid, currency).unwrap()
    }

    fn fees(&self, currency: Currency) -> i64 {
        self.core.fees_collected(currency).unwrap()
    }

    fn assert_conserved(&self, uids: &[UserId]) {
        let quote: i64 = uids.iter().map(|&u| self.balance(u, QUOTE)).sum::<i64>() + self.fees(QUOTE);
        let base: i64 = uids.iter().map(|&u| self.balance(u, BASE)).sum::<i64>() + self.fees(BASE);

        assert_eq!(quote, self.deposited_quote);
        assert_eq!(base, self.deposited_base);
    }
}

#[test]
fn cancel_refunds_exact_hold() {
    let mut h = Harness::new();
    h.add_user(1);
    h.deposit(1, QUOTE, 10_000);
    let before = h.balance(1, QUOTE);

    assert_eq!(
        h.place(1, 1, OrderAction::Bid, OrderType::Gtc, 100, 100, 10),
        CommandResultCode::Success
    );
    assert_eq!(h.balance(1, QUOTE), before - 1020);

    assert_eq!(h.cancel(1, 1), CommandResultCode::Success);
    assert_eq!(h.balance(1, QUOTE), before);
    h.assert_conserved(&[1]);
}

#[test]
fn unfilled_ioc_refunds() {
    let mut h = Harness::new();
    h.add_user(1);
    h.deposit(1, QUOTE, 10_000);
    let before = h.balance(1, QUOTE);

    h.place(1, 1, OrderAction::Bid, OrderType::Ioc, 100, 100, 10);

    assert_eq!(h.balance(1, QUOTE), before);
    h.assert_conserved(&[1]);
}

#[test]
fn non_positive_params_rejected() {
    let mut h = Harness::new();
    h.add_user(1);
    h.deposit(1, QUOTE, 1_000);

    for (price, size) in [(100, -10), (100, 0), (-100, 10), (0, 10)] {
        let code = h.place(1, 1, OrderAction::Bid, OrderType::Gtc, price, price.max(1), size);
        assert_eq!(code, CommandResultCode::RiskInvalidOrderParams);
    }

    assert_eq!(h.balance(1, QUOTE), 1_000);
    h.assert_conserved(&[1]);
}

#[test]
fn reserve_below_price_rejected() {
    let mut h = Harness::new();
    h.add_user(1);
    h.deposit(1, QUOTE, 10_000);

    let code = h.place(1, 1, OrderAction::Bid, OrderType::Gtc, 100, 90, 10);
    assert_eq!(code, CommandResultCode::RiskInvalidReserveBidPrice);
    assert_eq!(h.balance(1, QUOTE), 10_000);
}

#[test]
fn unsupported_order_type_refunds_and_reports_failure() {
    let mut h = Harness::new();
    h.add_user(1);
    h.deposit(1, QUOTE, 10_000);
    let before = h.balance(1, QUOTE);

    for (i, ot) in [
        OrderType::Fok,
        OrderType::PostOnly,
        OrderType::Iceberg,
        OrderType::Day,
        OrderType::StopLimit,
        OrderType::Gtd(9999),
    ]
    .into_iter()
    .enumerate()
    {
        let code = h.place(1, 100 + i as u64, OrderAction::Bid, ot, 100, 100, 10);
        assert_eq!(code, CommandResultCode::MatchingUnsupportedCommand);
        assert_eq!(h.balance(1, QUOTE), before);
    }

    h.assert_conserved(&[1]);
}

#[test]
fn full_trade_conserves_funds_with_fees() {
    let mut h = Harness::new();
    h.add_user(1);
    h.add_user(2);
    h.deposit(1, BASE, 1_000);
    h.deposit(2, QUOTE, 10_000);

    assert_eq!(
        h.place(1, 1, OrderAction::Ask, OrderType::Gtc, 100, 100, 10),
        CommandResultCode::Success
    );
    assert_eq!(
        h.place(2, 2, OrderAction::Bid, OrderType::Gtc, 100, 100, 10),
        CommandResultCode::Success
    );

    assert_eq!(h.balance(2, QUOTE), 10_000 - 1020);
    assert_eq!(h.balance(2, BASE), 10);
    assert_eq!(h.balance(1, QUOTE), 990);
    assert_eq!(h.balance(1, BASE), 1_000 - 10);
    assert_eq!(h.fees(QUOTE), 30);

    h.assert_conserved(&[1, 2]);
}

#[test]
fn maker_is_charged_maker_fee_not_taker_fee() {
    let mut h = Harness::new();
    h.add_user(1);
    h.add_user(2);
    h.deposit(1, QUOTE, 10_000);
    h.deposit(2, BASE, 1_000);

    assert_eq!(
        h.place(1, 1, OrderAction::Bid, OrderType::Gtc, 100, 100, 10),
        CommandResultCode::Success
    );
    assert_eq!(
        h.place(2, 2, OrderAction::Ask, OrderType::Gtc, 100, 100, 10),
        CommandResultCode::Success
    );

    assert_eq!(h.balance(1, QUOTE), 10_000 - 1010);
    assert_eq!(h.balance(1, BASE), 10);
    assert_eq!(h.balance(2, QUOTE), 980);
    assert_eq!(h.fees(QUOTE), 30);

    h.assert_conserved(&[1, 2]);
}

#[test]
fn partial_fill_then_cancel_conserves() {
    let mut h = Harness::new();
    h.add_user(1);
    h.add_user(2);
    h.deposit(1, QUOTE, 10_000);
    h.deposit(2, BASE, 1_000);

    h.place(1, 1, OrderAction::Bid, OrderType::Gtc, 50, 50, 100);
    h.place(2, 2, OrderAction::Ask, OrderType::Gtc, 50, 50, 40);
    assert_eq!(h.cancel(1, 1), CommandResultCode::Success);

    assert_eq!(h.balance(1, BASE), 40);
    assert_eq!(h.balance(2, BASE), 1_000 - 40);
    h.assert_conserved(&[1, 2]);
}

#[test]
fn move_order_does_not_overfill() {
    let mut h = Harness::new();
    h.add_user(1);
    h.add_user(2);
    h.deposit(1, QUOTE, 100_000);
    h.deposit(2, BASE, 1_000);

    h.place(1, 1, OrderAction::Bid, OrderType::Gtc, 90, 100, 10);
    h.place(2, 2, OrderAction::Ask, OrderType::Gtc, 90, 90, 4);
    assert_eq!(h.balance(1, BASE), 4);

    h.place(2, 3, OrderAction::Ask, OrderType::Gtc, 95, 95, 10);
    assert_eq!(h.move_order(1, 1, 95), CommandResultCode::Success);

    assert_eq!(h.balance(1, BASE), 10);

    h.cancel(2, 3);
    h.assert_conserved(&[1, 2]);
}

#[test]
fn duplicate_balance_adjustment_is_ignored() {
    let mut h = Harness::new();
    h.add_user(1);

    assert_eq!(
        h.deposit_with_tx(1, QUOTE, 1_000, 1),
        CommandResultCode::Success
    );
    assert_eq!(
        h.deposit_with_tx(1, QUOTE, 1_000, 1),
        CommandResultCode::UserMgmtDuplicateTransaction
    );
    assert_eq!(
        h.deposit_with_tx(1, QUOTE, 1_000, 0),
        CommandResultCode::UserMgmtDuplicateTransaction
    );

    assert_eq!(h.balance(1, QUOTE), 1_000);
    h.assert_conserved(&[1]);
}

#[test]
fn withdrawal_cannot_go_negative() {
    let mut h = Harness::new();
    h.add_user(1);
    h.deposit(1, QUOTE, 100);

    assert_eq!(
        h.deposit_with_tx(1, QUOTE, -500, 99),
        CommandResultCode::RiskNsf
    );
    assert_eq!(h.balance(1, QUOTE), 100);
    h.assert_conserved(&[1]);
}

#[test]
fn hold_overflow_is_rejected() {
    let mut h = Harness::new();
    h.add_user(1);
    h.deposit(1, QUOTE, i64::MAX);

    let code = h.place(
        1,
        1,
        OrderAction::Bid,
        OrderType::Gtc,
        i64::MAX / 2,
        i64::MAX / 2,
        1_000_000,
    );
    assert_eq!(code, CommandResultCode::RiskArithmeticOverflow);
    assert_eq!(h.balance(1, QUOTE), i64::MAX);
}
