//! Counters of the engine and their text for a scraper.
use vstd::prelude::*;
use vstd::string::StringExecFns;

use crate::risk::engine as risk_engine;
use crate::risk::engine::RiskEngine;
use crate::risk::model as risk_model;
use crate::risk::model::AccountModel;
use crate::store::keyed::KeyedMap;
use crate::text;
use crate::types::ids::{CurrencyId, UserId};

verus! {

/// Counters that only grow, until they start over at zero.
#[derive(Debug, Clone, Copy, PartialEq, Eq, Structural)]
pub struct Metrics {
    pub commands_total: u64,
    pub place_orders_total: u64,
    pub cancel_orders_total: u64,
    pub modify_orders_total: u64,
    pub trades_total: u64,
    pub liquidations_total: u64,
    pub stp_cancellations_total: u64,
    pub rejected_total: u64,
    pub wal_syncs_total: u64,
    pub funding_settlements_total: u64,
    pub future_settlements_total: u64,
    pub stops_triggered_total: u64,
}

/// One of the counters.
#[derive(Debug, Clone, Copy, PartialEq, Eq, Structural)]
pub enum Counter {
    CommandsTotal,
    PlaceOrdersTotal,
    CancelOrdersTotal,
    ModifyOrdersTotal,
    TradesTotal,
    LiquidationsTotal,
    StpCancellationsTotal,
    RejectedTotal,
    WalSyncsTotal,
    FundingSettlementsTotal,
    FutureSettlementsTotal,
    StopsTriggeredTotal,
}

/// The account that covers deficits. It is opened like any other.
pub open spec fn insurance() -> UserId {
    UserId(u64::MAX)
}

/// The id of the account that covers deficits.
pub fn insurance_fund() -> (r: UserId)
    ensures
        r == insurance(),
{
    UserId(u64::MAX)
}

/// A counter that has grown.
pub open spec fn grown(v: u64, n: u64) -> u64 {
    if v + n > u64::MAX {
        (v + n - u64::MAX - 1) as u64
    } else {
        (v + n) as u64
    }
}

impl Metrics {
    /// The value of a counter.
    pub open spec fn value(self, c: Counter) -> u64 {
        match c {
            Counter::CommandsTotal => self.commands_total,
            Counter::PlaceOrdersTotal => self.place_orders_total,
            Counter::CancelOrdersTotal => self.cancel_orders_total,
            Counter::ModifyOrdersTotal => self.modify_orders_total,
            Counter::TradesTotal => self.trades_total,
            Counter::LiquidationsTotal => self.liquidations_total,
            Counter::StpCancellationsTotal => self.stp_cancellations_total,
            Counter::RejectedTotal => self.rejected_total,
            Counter::WalSyncsTotal => self.wal_syncs_total,
            Counter::FundingSettlementsTotal => self.funding_settlements_total,
            Counter::FutureSettlementsTotal => self.future_settlements_total,
            Counter::StopsTriggeredTotal => self.stops_triggered_total,
        }
    }

    pub fn new() -> (r: Metrics)
        ensures
            forall|c: Counter| r.value(c) == 0,
    {
        Metrics {
            commands_total: 0,
            place_orders_total: 0,
            cancel_orders_total: 0,
            modify_orders_total: 0,
            trades_total: 0,
            liquidations_total: 0,
            stp_cancellations_total: 0,
            rejected_total: 0,
            wal_syncs_total: 0,
            funding_settlements_total: 0,
            future_settlements_total: 0,
            stops_triggered_total: 0,
        }
    }

    /// Counts one.
    pub fn inc(&mut self, counter: Counter)
        ensures
            forall|c: Counter| #[trigger]
                final(self).value(c) == (if c == counter {
                    grown(old(self).value(c), 1)
                } else {
                    old(self).value(c)
                }),
    {
        self.add(counter, 1);
    }

    /// Counts some.
    pub fn add(&mut self, counter: Counter, n: u64)
        ensures
            forall|c: Counter| #[trigger]
                final(self).value(c) == (if c == counter {
                    grown(old(self).value(c), n)
                } else {
                    old(self).value(c)
                }),
    {
        match counter {
            Counter::CommandsTotal => {
                self.commands_total = grow(self.commands_total, n);
            },
            Counter::PlaceOrdersTotal => {
                self.place_orders_total = grow(self.place_orders_total, n);
            },
            Counter::CancelOrdersTotal => {
                self.cancel_orders_total = grow(self.cancel_orders_total, n);
            },
            Counter::ModifyOrdersTotal => {
                self.modify_orders_total = grow(self.modify_orders_total, n);
            },
            Counter::TradesTotal => {
                self.trades_total = grow(self.trades_total, n);
            },
            Counter::LiquidationsTotal => {
                self.liquidations_total = grow(self.liquidations_total, n);
            },
            Counter::StpCancellationsTotal => {
                self.stp_cancellations_total = grow(self.stp_cancellations_total, n);
            },
            Counter::RejectedTotal => {
                self.rejected_total = grow(self.rejected_total, n);
            },
            Counter::WalSyncsTotal => {
                self.wal_syncs_total = grow(self.wal_syncs_total, n);
            },
            Counter::FundingSettlementsTotal => {
                self.funding_settlements_total = grow(self.funding_settlements_total, n);
            },
            Counter::FutureSettlementsTotal => {
                self.future_settlements_total = grow(self.future_settlements_total, n);
            },
            Counter::StopsTriggeredTotal => {
                self.stops_triggered_total = grow(self.stops_triggered_total, n);
            },
        }
    }
}

impl Default for Metrics {
    fn default() -> (r: Metrics)
        ensures
            forall|c: Counter| r.value(c) == 0,
    {
        Metrics::new()
    }
}

fn grow(v: u64, n: u64) -> (r: u64)
    ensures
        r == grown(v, n),
{
    if n > u64::MAX - v {
        n - (u64::MAX - v) - 1
    } else {
        v + n
    }
}

/// The text with the lines of a counter.
pub open spec fn with_counter(out: Seq<char>, name: Seq<char>, help: Seq<char>, v: int) -> Seq<char> {
    out + "# HELP "@ + name + " "@ + help + "\n# TYPE "@ + name + " counter\n"@ + name + " "@
        + text::decimal(v) + "\n"@
}

/// The text with the lines that announce a gauge.
pub open spec fn with_header(out: Seq<char>, name: Seq<char>, help: Seq<char>) -> Seq<char> {
    out + "# HELP "@ + name + " "@ + help + "\n# TYPE "@ + name + " gauge\n"@
}

/// The text with a line for one member of a gauge.
pub open spec fn with_member(
    out: Seq<char>,
    name: Seq<char>,
    label: Seq<char>,
    id: int,
    v: int,
) -> Seq<char> {
    out + name + "{"@ + label + "=\""@ + text::decimal(id) + "\"} "@ + text::signed_decimal(v)
        + "\n"@
}

/// The text with a line for each currency of a list.
pub open spec fn with_currencies(
    out: Seq<char>,
    name: Seq<char>,
    list: Seq<CurrencyId>,
    amounts: spec_fn(CurrencyId) -> int,
) -> Seq<char>
    decreases list.len(),
{
    if list.len() == 0 {
        out
    } else {
        with_member(
            with_currencies(out, name, list.drop_last(), amounts),
            name,
            "currency"@,
            list.last().0 as int,
            amounts(list.last()),
        )
    }
}

/// The text with a line for each book.
pub open spec fn with_depths(out: Seq<char>, name: Seq<char>, depths: Seq<(u32, usize)>) -> Seq<char>
    decreases depths.len(),
{
    if depths.len() == 0 {
        out
    } else {
        with_member(
            with_depths(out, name, depths.drop_last()),
            name,
            "symbol"@,
            depths.last().0 as int,
            depths.last().1 as int,
        )
    }
}

/// The text with all counters.
pub open spec fn with_counters(out: Seq<char>, m: Metrics) -> Seq<char> {
    let t1 = with_counter(
        out,
        "me_commands_total"@,
        "Total commands processed (any type)"@,
        m.commands_total as int,
    );
    let t2 = with_counter(
        t1,
        "me_place_orders_total"@,
        "PlaceOrder commands accepted by dispatch (incl. later-rejected)"@,
        m.place_orders_total as int,
    );
    let t3 = with_counter(
        t2,
        "me_cancel_orders_total"@,
        "CancelOrder commands accepted by dispatch"@,
        m.cancel_orders_total as int,
    );
    let t4 = with_counter(
        t3,
        "me_modify_orders_total"@,
        "ModifyOrder commands accepted by dispatch"@,
        m.modify_orders_total as int,
    );
    let t5 = with_counter(
        t4,
        "me_trades_total"@,
        "Trade events emitted (one per maker × taker fill)"@,
        m.trades_total as int,
    );
    let t6 = with_counter(
        t5,
        "me_stp_cancellations_total"@,
        "Maker cancellations triggered by self-trade prevention"@,
        m.stp_cancellations_total as int,
    );
    let t7 = with_counter(
        t6,
        "me_liquidations_total"@,
        "Force-closed positions across all symbols"@,
        m.liquidations_total as int,
    );
    let t8 = with_counter(
        t7,
        "me_rejected_total"@,
        "CommandStatus::Rejected outcomes from submit"@,
        m.rejected_total as int,
    );
    let t9 = with_counter(
        t8,
        "me_wal_syncs_total"@,
        "Successful WAL fsync calls"@,
        m.wal_syncs_total as int,
    );
    let t10 = with_counter(
        t9,
        "me_funding_settlements_total"@,
        "ApplyFunding commands processed"@,
        m.funding_settlements_total as int,
    );
    let t11 = with_counter(
        t10,
        "me_future_settlements_total"@,
        "SettleFuture commands processed"@,
        m.future_settlements_total as int,
    );
    let t12 = with_counter(
        t11,
        "me_stops_triggered_total"@,
        "Stop orders triggered by mark-price updates"@,
        m.stops_triggered_total as int,
    );
    t12
}

/// A list without what it has named before.
pub open spec fn named_once(list: Seq<CurrencyId>) -> Seq<CurrencyId>
    decreases list.len(),
{
    if list.len() == 0 {
        Seq::empty()
    } else {
        let before = named_once(list.drop_last());
        if list.drop_last().contains(list.last()) {
            before
        } else {
            before.push(list.last())
        }
    }
}

/// The currencies that an account was touched in, free ones first.
pub open spec fn touched(risk: RiskEngine, u: UserId) -> Seq<CurrencyId> {
    if risk@.has(u) {
        risk.book(u).free_list() + risk.book(u).held_list()
    } else {
        Seq::empty()
    }
}

/// The free balances of an account.
pub open spec fn free_of(a: AccountModel) -> spec_fn(CurrencyId) -> int {
    |c: CurrencyId| a.free[c]
}

/// The totals of the ledger.
pub open spec fn totals_of(risk: RiskEngine) -> spec_fn(CurrencyId) -> int {
    |c: CurrencyId| risk_model::total_internal(risk@, c)
}

/// The text with the free balances of an account, where it exists.
pub open spec fn with_account(
    out: Seq<char>,
    risk: RiskEngine,
    u: UserId,
    name: Seq<char>,
    help: Seq<char>,
) -> Seq<char> {
    if risk@.has(u) {
        with_currencies(
            with_header(out, name, help),
            name,
            risk.book(u).free_list(),
            free_of(risk@.accounts[u]),
        )
    } else {
        out
    }
}

/// The whole text.
pub open spec fn prometheus(
    m: Metrics,
    risk: RiskEngine,
    last_applied_seq: u64,
    depths: Seq<(u32, usize)>,
) -> Seq<char> {
    let t1 = with_counters(Seq::empty(), m);
    let t2 = with_header(
        t1,
        "me_last_applied_seq"@,
        "Sequence number of the last applied command"@,
    ) + "me_last_applied_seq"@ + " "@ + text::signed_decimal(
        #[verifier::truncate] (last_applied_seq as i64) as int,
    ) + "\n"@;
    let t3 = with_account(
        t2,
        risk,
        insurance(),
        "me_insurance_fund_balance"@,
        "Insurance fund balance per currency (signed; negative = uncovered deficit)"@,
    );
    let t4 = with_account(
        t3,
        risk,
        risk_model::house(),
        "me_exchange_revenue"@,
        "Accumulated trading-fee revenue per currency"@,
    );
    let t5 = if depths.len() == 0 {
        t4
    } else {
        with_depths(
            with_header(
                t4,
                "me_order_book_resting_orders"@,
                "Number of resting orders per symbol"@,
            ),
            "me_order_book_resting_orders"@,
            depths,
        )
    };
    let t6 = with_header(
        t5,
        "me_total_internal"@,
        "Sum of free + held + position.margin_locked across all accounts (mark-free, realized only)"@,
    );
    with_currencies(
        t6,
        "me_total_internal"@,
        named_once(touched(risk, insurance()) + touched(risk, risk_model::house())),
        totals_of(risk),
    )
}

fn write_counter(out: &mut String, name: &str, help: &str, value: u64)
    ensures
        final(out)@ == with_counter(old(out)@, name@, help@, value as int),
{
    out.append("# HELP ");
    out.append(name);
    out.append(" ");
    out.append(help);
    out.append("\n# TYPE ");
    out.append(name);
    out.append(" counter\n");
    out.append(name);
    out.append(" ");
    text::push_decimal(out, value as u128);
    out.append("\n");
}

fn gauge_header(out: &mut String, name: &str, help: &str)
    ensures
        final(out)@ == with_header(old(out)@, name@, help@),
{
    out.append("# HELP ");
    out.append(name);
    out.append(" ");
    out.append(help);
    out.append("\n# TYPE ");
    out.append(name);
    out.append(" gauge\n");
}

fn write_gauge(out: &mut String, name: &str, help: &str, value: i64)
    ensures
        final(out)@ == with_header(old(out)@, name@, help@) + name@ + " "@ + text::signed_decimal(
            value as int,
        ) + "\n"@,
{
    gauge_header(out, name, help);
    out.append(name);
    out.append(" ");
    text::push_signed(out, value as i128);
    out.append("\n");
}

fn write_member(out: &mut String, name: &str, label: &str, id: u32, value: i128)
    ensures
        final(out)@ == with_member(old(out)@, name@, label@, id as int, value as int),
{
    out.append(name);
    out.append("{");
    out.append(label);
    out.append("=\"");
    text::push_decimal(out, id as u128);
    out.append("\"} ");
    text::push_signed(out, value);
    out.append("\n");
}

/// Writes the free balances of an account, where it exists.
fn write_account(out: &mut String, risk: &RiskEngine, u: UserId, name: &str, help: &str)
    requires
        risk.wf(),
    ensures
        final(out)@ == with_account(old(out)@, *risk, u, name@, help@),
{
    match risk.account(u) {
        None => {},
        Some(a) => {
            gauge_header(out, name, help);
            let list: Vec<CurrencyId> = a.free_currencies();
            let mut i: usize = 0;
            let ghost head = out@;
            assert(list@.subrange(0, 0) =~= Seq::<CurrencyId>::empty());
            while i < list.len()
                invariant
                    i <= list@.len(),
                    a.wf(),
                    out@ == with_currencies(
                        head,
                        name@,
                        list@.subrange(0, i as int),
                        free_of(a@),
                    ),
                decreases list.len() - i,
            {
                let c: CurrencyId = list[i];
                assert(list@.subrange(0, i + 1).drop_last() =~= list@.subrange(0, i as int));
                write_member(out, name, "currency", c.0, a.free(c).0 as i128);
                i = i + 1;
            }
            assert(list@.subrange(0, i as int) =~= list@);
        },
    }
}

/// Adds some currencies to a list.
fn extend(list: &mut Vec<CurrencyId>, more: Vec<CurrencyId>)
    ensures
        final(list)@ == old(list)@ + more@,
{
    let mut i: usize = 0;
    while i < more.len()
        invariant
            i <= more@.len(),
            list@ == old(list)@ + more@.subrange(0, i as int),
        decreases more.len() - i,
    {
        list.push(more[i]);
        assert(more@.subrange(0, i + 1) =~= more@.subrange(0, i as int).push(more@[i as int]));
        i = i + 1;
        assert(list@ =~= old(list)@ + more@.subrange(0, i as int));
    }
    assert(more@.subrange(0, i as int) =~= more@);
}

/// The currencies that the accounts of the house were touched in, with
/// repetitions.
fn collect_currencies(risk: &RiskEngine) -> (r: Vec<CurrencyId>)
    requires
        risk.wf(),
    ensures
        r@ == touched(*risk, insurance()) + touched(*risk, risk_model::house()),
{
    let mut v: Vec<CurrencyId> = Vec::new();
    match risk.account(insurance_fund()) {
        None => {},
        Some(a) => {
            extend(&mut v, a.free_currencies());
            extend(&mut v, a.held_currencies());
        },
    }
    assert(v@ =~= touched(*risk, insurance()));
    match risk.account(risk_engine::exchange_account()) {
        None => {},
        Some(a) => {
            extend(&mut v, a.free_currencies());
            extend(&mut v, a.held_currencies());
        },
    }
    assert(v@ =~= touched(*risk, insurance()) + touched(*risk, risk_model::house()));
    v
}

/// Writes the totals of the currencies that the house was touched in.
fn write_totals(out: &mut String, risk: &RiskEngine, name: &str)
    requires
        risk.wf(),
        forall|c: CurrencyId| #[trigger]
            risk_model::gross_internal(risk@, c) <= i128::MAX,
    ensures
        final(out)@ == with_currencies(
            old(out)@,
            name@,
            named_once(touched(*risk, insurance()) + touched(*risk, risk_model::house())),
            totals_of(*risk),
        ),
{
    let list: Vec<CurrencyId> = collect_currencies(risk);
    let mut seen: KeyedMap<bool> = KeyedMap::new();
    let mut i: usize = 0;
    assert(list@.subrange(0, 0) =~= Seq::<CurrencyId>::empty());
    while i < list.len()
        invariant
            i <= list@.len(),
            risk.wf(),
            seen.wf(),
            forall|c: CurrencyId| #[trigger]
                risk_model::gross_internal(risk@, c) <= i128::MAX,
            forall|c: CurrencyId| #[trigger]
                seen@.contains_key(c.0 as u64) == list@.subrange(0, i as int).contains(c),
            out@ == with_currencies(
                old(out)@,
                name@,
                named_once(list@.subrange(0, i as int)),
                totals_of(*risk),
            ),
        decreases list.len() - i,
    {
        let c: CurrencyId = list[i];
        let ghost before = list@.subrange(0, i as int);
        let ghost after = list@.subrange(0, i + 1);
        assert(after.drop_last() =~= before);
        assert(after.last() == c);
        assert(after =~= before.push(c));
        assert(seen@.contains_key(c.0 as u64) == before.contains(c));
        if !seen.contains_key(c.0 as u64) {
            let total: i128 = risk.total_internal(c);
            assert(named_once(after).drop_last() =~= named_once(before));
            write_member(out, name, "currency", c.0, total);
            seen.insert(c.0 as u64, true);
        }
        assert forall|x: CurrencyId| #[trigger]
            seen@.contains_key(x.0 as u64) == after.contains(x) by {
            if before.contains(x) {
                let j = choose|j: int| 0 <= j < before.len() && before[j] == x;
                assert(after[j] == x);
            }
            if after.contains(x) && x != c {
                let j = choose|j: int| 0 <= j < after.len() && after[j] == x;
                assert(before[j] == x);
            }
            if x == c {
                assert(after[i as int] == c);
            }
        }
        i = i + 1;
    }
    assert(list@.subrange(0, i as int) =~= list@);
}

/// Writes the depth of each book.
fn write_depths(out: &mut String, name: &str, depths: &[(u32, usize)])
    ensures
        final(out)@ == with_depths(old(out)@, name@, depths@),
{
    let mut i: usize = 0;
    assert(depths@.subrange(0, 0) =~= Seq::<(u32, usize)>::empty());
    while i < depths.len()
        invariant
            i <= depths@.len(),
            out@ == with_depths(old(out)@, name@, depths@.subrange(0, i as int)),
        decreases depths.len() - i,
    {
        let (symbol, count): (u32, usize) = depths[i];
        assert(depths@.subrange(0, i + 1).drop_last() =~= depths@.subrange(0, i as int));
        write_member(out, name, "symbol", symbol, count as i128);
        i = i + 1;
    }
    assert(depths@.subrange(0, i as int) =~= depths@);
}

fn write_counters(out: &mut String, metrics: &Metrics)
    ensures
        final(out)@ == with_counters(old(out)@, *metrics),
{
    write_counter(
        out,
        "me_commands_total",
        "Total commands processed (any type)",
        metrics.commands_total,
    );
    write_counter(
        out,
        "me_place_orders_total",
        "PlaceOrder commands accepted by dispatch (incl. later-rejected)",
        metrics.place_orders_total,
    );
    write_counter(
        out,
        "me_cancel_orders_total",
        "CancelOrder commands accepted by dispatch",
        metrics.cancel_orders_total,
    );
    write_counter(
        out,
        "me_modify_orders_total",
        "ModifyOrder commands accepted by dispatch",
        metrics.modify_orders_total,
    );
    write_counter(
        out,
        "me_trades_total",
        "Trade events emitted (one per maker × taker fill)",
        metrics.trades_total,
    );
    write_counter(
        out,
        "me_stp_cancellations_total",
        "Maker cancellations triggered by self-trade prevention",
        metrics.stp_cancellations_total,
    );
    write_counter(
        out,
        "me_liquidations_total",
        "Force-closed positions across all symbols",
        metrics.liquidations_total,
    );
    write_counter(
        out,
        "me_rejected_total",
        "CommandStatus::Rejected outcomes from submit",
        metrics.rejected_total,
    );
    write_counter(
        out,
        "me_wal_syncs_total",
        "Successful WAL fsync calls",
        metrics.wal_syncs_total,
    );
    write_counter(
        out,
        "me_funding_settlements_total",
        "ApplyFunding commands processed",
        metrics.funding_settlements_total,
    );
    write_counter(
        out,
        "me_future_settlements_total",
        "SettleFuture commands processed",
        metrics.future_settlements_total,
    );
    write_counter(
        out,
        "me_stops_triggered_total",
        "Stop orders triggered by mark-price updates",
        metrics.stops_triggered_total,
    );
}

/// The counters and the state of the ledger as a scraper reads them. Balances
/// come in the order in which the accounts list them.
pub fn render_prometheus(
    metrics: &Metrics,
    risk: &RiskEngine,
    last_applied_seq: u64,
    order_book_depths: &[(u32, usize)],
) -> (r: String)
    requires
        risk.wf(),
        forall|c: CurrencyId| #[trigger]
            risk_model::gross_internal(risk@, c) <= i128::MAX,
    ensures
        r@ == prometheus(*metrics, *risk, last_applied_seq, order_book_depths@),
{
    let mut out: String = String::new();
    write_counters(&mut out, metrics);
    write_gauge(
        &mut out,
        "me_last_applied_seq",
        "Sequence number of the last applied command",
        #[verifier::truncate] (last_applied_seq as i64),
    );
    write_account(
        &mut out,
        risk,
        insurance_fund(),
        "me_insurance_fund_balance",
        "Insurance fund balance per currency (signed; negative = uncovered deficit)",
    );
    write_account(
        &mut out,
        risk,
        risk_engine::exchange_account(),
        "me_exchange_revenue",
        "Accumulated trading-fee revenue per currency",
    );
    if order_book_depths.len() != 0 {
        gauge_header(
            &mut out,
            "me_order_book_resting_orders",
            "Number of resting orders per symbol",
        );
        write_depths(&mut out, "me_order_book_resting_orders", order_book_depths);
    }
    gauge_header(
        &mut out,
        "me_total_internal",
        "Sum of free + held + position.margin_locked across all accounts (mark-free, realized only)",
    );
    write_totals(&mut out, risk, "me_total_internal");
    out
}

/// A counter goes up by what is counted, and begins anew where the machine has no larger number.
pub proof fn law_counters_grow(v: u64, n: u64)
    ensures
        v + n <= u64::MAX ==> grown(v, n) == v + n,
        v + n > u64::MAX ==> grown(v, n) < v && (v - grown(v, n)) + n == 0x1_0000_0000_0000_0000,
{
}

/// A list in which everything is named once has what the list has, each once, what came first
/// still first.
pub proof fn law_currencies_are_named_once(list: Seq<CurrencyId>, c: CurrencyId)
    ensures
        named_once(list).no_duplicates(),
        named_once(list).contains(c) == list.contains(c),
        named_once(list).is_prefix_of(named_once(list.push(c))),
        list.contains(c) ==> named_once(list.push(c)) == named_once(list),
        !list.contains(c) ==> named_once(list.push(c)) == named_once(list).push(c),
    decreases list.len(),
{
    assert(list.push(c).drop_last() =~= list);
    assert(list.push(c).last() == c);
    if list.len() > 0 {
        let first = list.drop_last();
        let x = list.last();
        law_currencies_are_named_once(first, c);
        law_currencies_are_named_once(first, x);
        let before = named_once(first);
        let all = named_once(list);
        assert(list =~= first.push(x));
        assert(list.contains(c) == (first.contains(c) || x == c)) by {
            if first.contains(c) {
                let i = choose|i: int| 0 <= i < first.len() && first[i] == c;
                assert(list[i] == c);
            }
            if list.contains(c) {
                let i = choose|i: int| 0 <= i < list.len() && list[i] == c;
                if i < first.len() {
                    assert(first[i] == c);
                }
            }
            if x == c {
                assert(list[list.len() - 1] == c);
            }
        }
        assert(all.contains(c) == (before.contains(c) || x == c)) by {
            if before.contains(c) {
                let i = choose|i: int| 0 <= i < before.len() && before[i] == c;
                assert(all[i] == c);
            }
            if all.contains(c) {
                let i = choose|i: int| 0 <= i < all.len() && all[i] == c;
                if i < before.len() {
                    assert(before[i] == c);
                }
            }
            if x == c && !first.contains(x) {
                assert(all[all.len() - 1] == c);
            }
        }
        if !first.contains(x) {
            assert(all == before.push(x));
            assert forall|i: int, j: int|
                0 <= i < all.len() && 0 <= j < all.len() && i != j implies all[i] != all[j] by {
                if i == before.len() || j == before.len() {
                    let k = if i == before.len() {
                        j
                    } else {
                        i
                    };
                    assert(before[k] == all[k]);
                    assert(before.contains(before[k]));
                }
            }
        }
    }
}

/// The name that a counter is shown under.
pub open spec fn name_of(c: Counter) -> Seq<char> {
    match c {
        Counter::CommandsTotal => "me_commands_total"@,
        Counter::PlaceOrdersTotal => "me_place_orders_total"@,
        Counter::CancelOrdersTotal => "me_cancel_orders_total"@,
        Counter::ModifyOrdersTotal => "me_modify_orders_total"@,
        Counter::TradesTotal => "me_trades_total"@,
        Counter::StpCancellationsTotal => "me_stp_cancellations_total"@,
        Counter::LiquidationsTotal => "me_liquidations_total"@,
        Counter::RejectedTotal => "me_rejected_total"@,
        Counter::WalSyncsTotal => "me_wal_syncs_total"@,
        Counter::FundingSettlementsTotal => "me_funding_settlements_total"@,
        Counter::FutureSettlementsTotal => "me_future_settlements_total"@,
        Counter::StopsTriggeredTotal => "me_stops_triggered_total"@,
    }
}

/// The line that shows a value under a name.
pub open spec fn line(name: Seq<char>, v: int) -> Seq<char> {
    name + " "@ + text::decimal(v) + "\n"@
}

/// Whether a text shows a line between two parts of it.
pub open spec fn shows_between(
    out: Seq<char>,
    shown: Seq<char>,
    before: Seq<char>,
    behind: Seq<char>,
) -> bool {
    out == before + shown + behind
}

/// Whether a text shows a line.
pub open spec fn shows(out: Seq<char>, shown: Seq<char>) -> bool {
    exists|before: Seq<char>, behind: Seq<char>| #[trigger]
        shows_between(out, shown, before, behind)
}

proof fn lemma_shown(out: Seq<char>, name: Seq<char>, help: Seq<char>, v: int)
    ensures
        shows(with_counter(out, name, help, v), line(name, v)),
{
    let before = out + "# HELP "@ + name + " "@ + help + "\n# TYPE "@ + name + " counter\n"@;
    assert(with_counter(out, name, help, v) =~= before + line(name, v) + Seq::<char>::empty());
    assert(shows_between(
        with_counter(out, name, help, v),
        line(name, v),
        before,
        Seq::empty(),
    ));
}

proof fn lemma_still_shown(
    out: Seq<char>,
    name: Seq<char>,
    help: Seq<char>,
    v: int,
    shown: Seq<char>,
)
    requires
        shows(out, shown),
    ensures
        shows(with_counter(out, name, help, v), shown),
{
    let (before, behind) = choose|before: Seq<char>, behind: Seq<char>| #[trigger]
        shows_between(out, shown, before, behind);
    let more = "# HELP "@ + name + " "@ + help + "\n# TYPE "@ + name + " counter\n"@ + name + " "@
        + text::decimal(v) + "\n"@;
    let all = with_counter(out, name, help, v);
    assert(all =~= out + more);
    assert(out + more =~= before + shown + (behind + more));
    assert(shows_between(all, shown, before, behind + more));
}

/// The text shows each counter under its name, with the value that it has.
#[verifier::spinoff_prover]
#[verifier::rlimit(60)]
pub proof fn law_counters_are_shown(out: Seq<char>, m: Metrics, c: Counter)
    ensures
        shows(with_counters(out, m), line(name_of(c), m.value(c) as int)),
{
    let shown = line(name_of(c), m.value(c) as int);
    let t0 = out;
    let n1 = "me_commands_total"@;
    let h1 = "Total commands processed (any type)"@;
    let v1 = m.commands_total as int;
    let t1 = with_counter(t0, n1, h1, v1);
    let n2 = "me_place_orders_total"@;
    let h2 = "PlaceOrder commands accepted by dispatch (incl. later-rejected)"@;
    let v2 = m.place_orders_total as int;
    let t2 = with_counter(t1, n2, h2, v2);
    let n3 = "me_cancel_orders_total"@;
    let h3 = "CancelOrder commands accepted by dispatch"@;
    let v3 = m.cancel_orders_total as int;
    let t3 = with_counter(t2, n3, h3, v3);
    let n4 = "me_modify_orders_total"@;
    let h4 = "ModifyOrder commands accepted by dispatch"@;
    let v4 = m.modify_orders_total as int;
    let t4 = with_counter(t3, n4, h4, v4);
    let n5 = "me_trades_total"@;
    let h5 = "Trade events emitted (one per maker × taker fill)"@;
    let v5 = m.trades_total as int;
    let t5 = with_counter(t4, n5, h5, v5);
    let n6 = "me_stp_cancellations_total"@;
    let h6 = "Maker cancellations triggered by self-trade prevention"@;
    let v6 = m.stp_cancellations_total as int;
    let t6 = with_counter(t5, n6, h6, v6);
    let n7 = "me_liquidations_total"@;
    let h7 = "Force-closed positions across all symbols"@;
    let v7 = m.liquidations_total as int;
    let t7 = with_counter(t6, n7, h7, v7);
    let n8 = "me_rejected_total"@;
    let h8 = "CommandStatus::Rejected outcomes from submit"@;
    let v8 = m.rejected_total as int;
    let t8 = with_counter(t7, n8, h8, v8);
    let n9 = "me_wal_syncs_total"@;
    let h9 = "Successful WAL fsync calls"@;
    let v9 = m.wal_syncs_total as int;
    let t9 = with_counter(t8, n9, h9, v9);
    let n10 = "me_funding_settlements_total"@;
    let h10 = "ApplyFunding commands processed"@;
    let v10 = m.funding_settlements_total as int;
    let t10 = with_counter(t9, n10, h10, v10);
    let n11 = "me_future_settlements_total"@;
    let h11 = "SettleFuture commands processed"@;
    let v11 = m.future_settlements_total as int;
    let t11 = with_counter(t10, n11, h11, v11);
    let n12 = "me_stops_triggered_total"@;
    let h12 = "Stop orders triggered by mark-price updates"@;
    let v12 = m.stops_triggered_total as int;
    let t12 = with_counter(t11, n12, h12, v12);
    if c == Counter::CommandsTotal {
        lemma_shown(t0, n1, h1, v1);
    } else if shows(t0, shown) {
        lemma_still_shown(t0, n1, h1, v1, shown);
    }
    if c == Counter::PlaceOrdersTotal {
        lemma_shown(t1, n2, h2, v2);
    } else if shows(t1, shown) {
        lemma_still_shown(t1, n2, h2, v2, shown);
    }
    if c == Counter::CancelOrdersTotal {
        lemma_shown(t2, n3, h3, v3);
    } else if shows(t2, shown) {
        lemma_still_shown(t2, n3, h3, v3, shown);
    }
    if c == Counter::ModifyOrdersTotal {
        lemma_shown(t3, n4, h4, v4);
    } else if shows(t3, shown) {
        lemma_still_shown(t3, n4, h4, v4, shown);
    }
    if c == Counter::TradesTotal {
        lemma_shown(t4, n5, h5, v5);
    } else if shows(t4, shown) {
        lemma_still_shown(t4, n5, h5, v5, shown);
    }
    if c == Counter::StpCancellationsTotal {
        lemma_shown(t5, n6, h6, v6);
    } else if shows(t5, shown) {
        lemma_still_shown(t5, n6, h6, v6, shown);
    }
    if c == Counter::LiquidationsTotal {
        lemma_shown(t6, n7, h7, v7);
    } else if shows(t6, shown) {
        lemma_still_shown(t6, n7, h7, v7, shown);
    }
    if c == Counter::RejectedTotal {
        lemma_shown(t7, n8, h8, v8);
    } else if shows(t7, shown) {
        lemma_still_shown(t7, n8, h8, v8, shown);
    }
    if c == Counter::WalSyncsTotal {
        lemma_shown(t8, n9, h9, v9);
    } else if shows(t8, shown) {
        lemma_still_shown(t8, n9, h9, v9, shown);
    }
    if c == Counter::FundingSettlementsTotal {
        lemma_shown(t9, n10, h10, v10);
    } else if shows(t9, shown) {
        lemma_still_shown(t9, n10, h10, v10, shown);
    }
    if c == Counter::FutureSettlementsTotal {
        lemma_shown(t10, n11, h11, v11);
    } else if shows(t10, shown) {
        lemma_still_shown(t10, n11, h11, v11, shown);
    }
    if c == Counter::StopsTriggeredTotal {
        lemma_shown(t11, n12, h12, v12);
    } else if shows(t11, shown) {
        lemma_still_shown(t11, n12, h12, v12, shown);
    }
    assert(with_counters(out, m) == t12);
}

} // verus!
