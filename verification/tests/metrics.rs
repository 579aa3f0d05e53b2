//! Counters and their rendering.
use matching_engine::metrics::{Counter, Metrics, render_prometheus};
use matching_engine::risk::engine::RiskEngine;

#[test]
fn empty_snapshot_renders() {
    let m = Metrics::new();
    let risk = RiskEngine::new();
    let s = render_prometheus(&m, &risk, 0, &[]);
    assert!(s.contains("me_commands_total 0"));
    assert!(s.contains("# TYPE me_commands_total counter"));
    assert!(s.contains("me_last_applied_seq 0"));
}

#[test]
fn counters_increment() {
    let mut m = Metrics::new();
    m.inc(Counter::CommandsTotal);
    m.inc(Counter::CommandsTotal);
    m.add(Counter::TradesTotal, 5);
    let risk = RiskEngine::new();
    let s = render_prometheus(&m, &risk, 42, &[]);
    assert!(s.contains("me_commands_total 2"));
    assert!(s.contains("me_trades_total 5"));
    assert!(s.contains("me_last_applied_seq 42"));
}
