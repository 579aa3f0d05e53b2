//! The conservation ledger.
use matching_engine::types::ids::CurrencyId;
use matching_engine::types::invariants::{ConservationLedger, InMemoryLedger};
use matching_engine::types::numeric::Amount;

#[test]
fn deposit_credits_balance() {
    let mut l = InMemoryLedger::default();
    let usd = CurrencyId(1);
    l.record_external_in(usd, Amount(1000));
    l.record_credit(usd, Amount(1000));
    assert!(l.check_balanced().is_ok());
}

#[test]
fn credit_without_external_breaks_balance() {
    let mut l = InMemoryLedger::default();
    let usd = CurrencyId(1);
    l.record_credit(usd, Amount(1000));
    let reports = l.check_balanced().unwrap_err();
    assert_eq!(reports.len(), 1);
    assert_eq!(reports[0].delta, 1000);
}

#[test]
fn internal_trade_net_zero_preserves_balance() {
    let mut l = InMemoryLedger::default();
    let usd = CurrencyId(1);
    let btc = CurrencyId(2);

    l.record_external_in(usd, Amount(1000));
    l.record_credit(usd, Amount(1000));
    l.record_external_in(btc, Amount(1_000_000));
    l.record_credit(btc, Amount(1_000_000));

    // Alice (had USD) buys 500k satoshi from Bob (had BTC) at some price.
    l.record_debit(usd, Amount(1000));
    l.record_credit(btc, Amount(500_000));
    l.record_credit(usd, Amount(1000));
    l.record_debit(btc, Amount(500_000));

    assert!(l.check_balanced().is_ok());
}

#[test]
fn fee_to_exchange_account_preserves_balance() {
    let mut l = InMemoryLedger::default();
    let usd = CurrencyId(1);

    l.record_external_in(usd, Amount(1000));
    l.record_credit(usd, Amount(1000));

    // 10 USD fee from user → exchange revenue (both are internal accounts).
    l.record_debit(usd, Amount(10));
    l.record_credit(usd, Amount(10));

    assert!(l.check_balanced().is_ok());
}

#[test]
fn withdrawal_paired_with_debit_preserves_balance() {
    let mut l = InMemoryLedger::default();
    let usd = CurrencyId(1);
    l.record_external_in(usd, Amount(1000));
    l.record_credit(usd, Amount(1000));

    l.record_debit(usd, Amount(400));
    l.record_external_out(usd, Amount(400));

    assert!(l.check_balanced().is_ok());
}
