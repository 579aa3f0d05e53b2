//! What the reports of the ledger say: what was closed, what was paid, and what all accounts are
//! worth at their marks.
use vstd::prelude::*;

use crate::risk::margins;
use crate::risk::model;
use crate::risk::hold::LiquidationReport;
use crate::risk::model::{AccountModel, Ledger, Mark};
use crate::store::sums;
use crate::types::ids::{CurrencyId, UserId};
use crate::types::numeric::{Bps, Price};
use crate::types::symbol::SymbolSpec;

verus! {

/// Whether a report says what closing its position did to the account of its user.
pub open spec fn tells_closing(
    s: Ledger,
    t: Ledger,
    spec: SymbolSpec,
    price: Price,
    r: LiquidationReport,
) -> bool {
    let a = s.accounts[r.user_id];
    let b = t.accounts[r.user_id];
    let p = a.positions[spec.symbol_id];
    &&& r.user_id != UserId(0)
    &&& r.symbol_id == spec.symbol_id
    &&& r.close_price == price
    &&& p.size.0 != 0
    &&& b.positions[spec.symbol_id].size.0 == 0
    &&& p.size.0 != i64::MIN ==> r.size_closed.0 == margins::extent(p)
    &&& r.margin_released == p.margin_locked
    &&& model::can_close(a, spec, price) ==> b.free[spec.quote_currency]
        == a.free[spec.quote_currency] + r.margin_released.0 + r.realized_pnl.0
}

/// Each report of a sweep tells of a position that the sweep closed, and each such position of a
/// user that the sweep met is reported.
pub proof fn law_closings_are_reported(
    s: Ledger,
    users: Seq<UserId>,
    spec: SymbolSpec,
    price: Price,
    below: Option<Bps>,
)
    requires
        forall|i: int| 0 <= i < users.len() ==> s.has(#[trigger] users[i]),
    ensures
        ({
            let t = model::sweep(s, spec, price, below);
            let reports = model::sweep_reports(s, users, spec, price, below);
            &&& forall|i: int|
                0 <= i < reports.len() ==> users.contains((#[trigger] reports[i]).user_id)
                    && tells_closing(s, t, spec, price, reports[i])
            &&& forall|k: int|
                0 <= k < users.len() && t.accounts[#[trigger] users[k]] != s.accounts[users[k]]
                    ==> exists|i: int|
                    0 <= i < reports.len() && (#[trigger] reports[i]).user_id == users[k]
        }),
    decreases users.len(),
{
    let t = model::sweep(s, spec, price, below);
    let reports = model::sweep_reports(s, users, spec, price, below);
    if users.len() > 0 {
        let first = users.drop_last();
        let u = users.last();
        assert forall|i: int| 0 <= i < first.len() implies s.has(#[trigger] first[i]) by {
            assert(first[i] == users[i]);
        }
        law_closings_are_reported(s, first, spec, price, below);
        let before = model::sweep_reports(s, first, spec, price, below);
        assert(users[users.len() - 1] == u);
        assert(s.has(u));
        assert forall|i: int| 0 <= i < reports.len() implies users.contains(
            (#[trigger] reports[i]).user_id,
        ) && tells_closing(s, t, spec, price, reports[i]) by {
            if i < before.len() {
                assert(reports[i] == before[i]);
                let k = choose|k: int| 0 <= k < first.len() && first[k] == before[i].user_id;
                assert(users[k] == before[i].user_id);
            } else {
                assert(users.contains(u));
            }
        }
        assert forall|k: int| 0 <= k < users.len() && t.accounts[#[trigger] users[k]]
            != s.accounts[users[k]] implies exists|i: int|
            0 <= i < reports.len() && (#[trigger] reports[i]).user_id == users[k] by {
            if k < first.len() {
                assert(first[k] == users[k]);
                let i = choose|i: int|
                    0 <= i < before.len() && (#[trigger] before[i]).user_id == users[k];
                assert(reports[i] == before[i]);
            } else {
                assert(reports[reports.len() - 1].user_id == u);
            }
        }
    }
}

/// Each report of a funding settlement tells what its user paid, and each user that the settlement
/// met and that paid or got something is reported.
pub proof fn law_funding_is_reported(
    s: Ledger,
    users: Seq<UserId>,
    spec: SymbolSpec,
    mark: Price,
    rate: int,
)
    requires
        forall|i: int| 0 <= i < users.len() ==> s.has(#[trigger] users[i]),
    ensures
        ({
            let t = model::apply_funding(s, spec, mark, rate);
            let reports = model::funding_reports(s, users, spec, mark, rate);
            &&& forall|i: int|
                0 <= i < reports.len() ==> {
                    let r = #[trigger] reports[i];
                    let a = s.accounts[r.user_id];
                    &&& users.contains(r.user_id)
                    &&& r.symbol_id == spec.symbol_id
                    &&& model::can_fund(a, spec, mark, rate) ==> r.payment.0 != 0
                        && t.accounts[r.user_id].free[spec.quote_currency]
                        == a.free[spec.quote_currency] - r.payment.0
                }
            &&& forall|k: int|
                0 <= k < users.len() && t.accounts[#[trigger] users[k]] != s.accounts[users[k]]
                    ==> exists|i: int|
                    0 <= i < reports.len() && (#[trigger] reports[i]).user_id == users[k]
        }),
    decreases users.len(),
{
    let t = model::apply_funding(s, spec, mark, rate);
    let reports = model::funding_reports(s, users, spec, mark, rate);
    if users.len() > 0 {
        let first = users.drop_last();
        let u = users.last();
        assert forall|i: int| 0 <= i < first.len() implies s.has(#[trigger] first[i]) by {
            assert(first[i] == users[i]);
        }
        law_funding_is_reported(s, first, spec, mark, rate);
        let before = model::funding_reports(s, first, spec, mark, rate);
        assert(users[users.len() - 1] == u);
        assert(s.has(u));
        assert forall|i: int| 0 <= i < reports.len() implies {
            let r = #[trigger] reports[i];
            let a = s.accounts[r.user_id];
            &&& users.contains(r.user_id)
            &&& r.symbol_id == spec.symbol_id
            &&& model::can_fund(a, spec, mark, rate) ==> r.payment.0 != 0
                && t.accounts[r.user_id].free[spec.quote_currency] == a.free[spec.quote_currency]
                - r.payment.0
        } by {
            if i < before.len() {
                assert(reports[i] == before[i]);
                let k = choose|k: int| 0 <= k < first.len() && first[k] == before[i].user_id;
                assert(users[k] == before[i].user_id);
            } else {
                assert(users.contains(u));
            }
        }
        assert forall|k: int| 0 <= k < users.len() && t.accounts[#[trigger] users[k]]
            != s.accounts[users[k]] implies exists|i: int|
            0 <= i < reports.len() && (#[trigger] reports[i]).user_id == users[k] by {
            if k < first.len() {
                assert(first[k] == users[k]);
                let i = choose|i: int|
                    0 <= i < before.len() && (#[trigger] before[i]).user_id == users[k];
                assert(reports[i] == before[i]);
            } else {
                assert(reports[reports.len() - 1].user_id == u);
            }
        }
    }
}

/// What the position of an account gains at a mark, before the scale: the way from its entry to
/// the mark, times its size. A short gains where the mark is below its entry.
pub open spec fn gain_at(c: CurrencyId, m: Mark) -> spec_fn(AccountModel) -> int {
    |a: AccountModel|
        if !a.positions.contains_key(m.symbol_id) || a.positions[m.symbol_id].margin_currency
            != c {
            0
        } else if a.positions[m.symbol_id].size.0 >= 0 {
            margins::extent(a.positions[m.symbol_id]) * (m.price.0
                - a.positions[m.symbol_id].entry_price.0)
        } else {
            margins::extent(a.positions[m.symbol_id]) * (a.positions[m.symbol_id].entry_price.0
                - m.price.0)
        }
}

/// The total with marks is the total without, and for each mark what all positions in its symbol
/// gain at it together. One more mark changes it by that much, whichever marks there are already.
pub proof fn law_marks_add_open_profits(s: Ledger, c: CurrencyId, marks: Seq<Mark>, m: Mark)
    requires
        m.scale > 0,
    ensures
        model::total_with_marks(s, c, Seq::empty()) == model::total_internal(s, c),
        model::total_with_marks(s, c, marks.push(m)) == model::total_with_marks(s, c, marks)
            + margins::whole(sums::sum_map(s.accounts, gain_at(c, m)), m.scale as int),
{
    assert(marks.push(m).drop_last() =~= marks);
    assert forall|a: AccountModel| #[trigger] gain_at(c, m)(a) == model::raw_profit_in(c, m)(
        a,
    ) by {
        let p = a.positions[m.symbol_id];
        let d = m.price.0 - p.entry_price.0;
        let n = p.size.0 as int;
        assert(n * d == d * n) by (nonlinear_arith);
        assert((-n) * (-d) == d * n) by (nonlinear_arith);
    }
    assert(gain_at(c, m) =~= model::raw_profit_in(c, m));
}

} // verus!
