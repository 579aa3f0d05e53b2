//! The ledger as mathematics.
//!
//! Balances are unbounded integers here. A ledger remembers in `exact` whether
//! every amount that the machine formed on the way fits its machine word: where
//! it is false the machine would have overflowed.
use vstd::prelude::*;

use crate::math;
use crate::risk::hold::{FundingReport, Hold, HoldKind, LiquidationReport, Position};
use crate::risk::transfers::Transfer;
use crate::store::sums;
use crate::types::command::{AdjustBalance, PlaceOrder};
use crate::types::enums::Side;
use crate::types::event::Trade;
use crate::types::ids::{CurrencyId, OrderId, SymbolId, UserId};
use crate::types::numeric;
use crate::types::numeric::{Amount, Bps, Price, Size};
use crate::types::reject::RejectReason;
use crate::types::symbol::{SymbolKindParams, SymbolSpec};

verus! {

/// A user's account. `free` can be spent, `held` is reserved for open orders.
#[verifier::ext_equal]
pub struct AccountModel {
    pub user_id: UserId,
    pub free: Map<CurrencyId, int>,
    pub held: Map<CurrencyId, int>,
    pub positions: Map<SymbolId, Position>,
    pub is_suspended: bool,
}

/// Nothing in any currency.
pub open spec fn nothing() -> Map<CurrencyId, int> {
    Map::new(|c: CurrencyId| true, |c: CurrencyId| 0int)
}

/// A new account.
pub open spec fn empty_account(user_id: UserId) -> AccountModel {
    AccountModel {
        user_id,
        free: nothing(),
        held: nothing(),
        positions: Map::empty(),
        is_suspended: false,
    }
}

impl AccountModel {
    pub open spec fn credited(self, c: CurrencyId, x: int) -> AccountModel {
        AccountModel { free: self.free.insert(c, self.free[c] + x), ..self }
    }

    pub open spec fn reserved(self, c: CurrencyId, x: int) -> AccountModel {
        AccountModel { held: self.held.insert(c, self.held[c] + x), ..self }
    }

    pub open spec fn with_position(self, s: SymbolId, p: Position) -> AccountModel {
        AccountModel { positions: self.positions.insert(s, p), ..self }
    }

    /// The position in a symbol, flat where there is none.
    pub open spec fn position_in(self, s: SymbolId) -> Position {
        if self.positions.contains_key(s) {
            self.positions[s]
        } else {
            Position::flat()
        }
    }

    /// Whether an amount can be taken from the free balance.
    pub open spec fn can_spend(self, c: CurrencyId, x: int) -> bool {
        x == 0 || self.free[c] >= x
    }
}

/// All accounts, all reservations, and the transfers that were accepted.
#[verifier::ext_equal]
pub struct Ledger {
    pub accounts: Map<UserId, AccountModel>,
    pub holds: Map<OrderId, Hold>,
    pub transfers: Set<Transfer>,
    pub exact: bool,
}

/// The account that collects the fees.
pub open spec fn house() -> UserId {
    UserId(0)
}

impl Ledger {
    pub open spec fn has(self, u: UserId) -> bool {
        self.accounts.contains_key(u)
    }

    /// Remembers whether a condition on the machine's arithmetic held.
    pub open spec fn claim(self, ok: bool) -> Ledger {
        Ledger { exact: self.exact && ok, ..self }
    }

    pub open spec fn with_account(self, u: UserId, a: AccountModel) -> Ledger {
        Ledger { accounts: self.accounts.insert(u, a), ..self }
    }

    /// Adds to a free balance.
    pub open spec fn credit(self, u: UserId, c: CurrencyId, x: int) -> Ledger {
        let a = self.accounts[u].credited(c, x);
        self.with_account(u, a).claim(math::fits_i64(a.free[c]))
    }

    /// Adds to a reserved balance.
    pub open spec fn reserve(self, u: UserId, c: CurrencyId, x: int) -> Ledger {
        let a = self.accounts[u].reserved(c, x);
        self.with_account(u, a).claim(math::fits_i64(a.held[c]))
    }

    pub open spec fn set_position(self, u: UserId, s: SymbolId, p: Position) -> Ledger {
        self.with_account(u, self.accounts[u].with_position(s, p))
    }

    pub open spec fn put_hold(self, h: Hold) -> Ledger {
        Ledger { holds: self.holds.insert(h.order_id, h), ..self }
    }

    pub open spec fn drop_hold(self, id: OrderId) -> Ledger {
        Ledger { holds: self.holds.remove(id), ..self }
    }

    /// Remembers a transfer.
    pub open spec fn note(self, t: Transfer) -> Ledger {
        Ledger { transfers: self.transfers.insert(t), ..self }
    }

    /// Moves an amount from reserved back to free.
    pub open spec fn unreserve(self, u: UserId, c: CurrencyId, x: int) -> Ledger {
        self.reserve(u, c, -x).credit(u, c, x)
    }
}

/// A ledger after an operation, and what the operation answered.
pub type Step = (Ledger, Result<(), RejectReason>);

/// The ledger of an engine that nobody uses yet.
pub open spec fn new_ledger() -> Ledger {
    Ledger {
        accounts: map![house() => empty_account(house())],
        holds: Map::empty(),
        transfers: Set::empty(),
        exact: true,
    }
}

pub open spec fn add_user(s: Ledger, u: UserId) -> Step {
    if u == house() || s.has(u) {
        (s, Err(RejectReason::UnsupportedCommand))
    } else {
        (s.with_account(u, empty_account(u)), Ok(()))
    }
}

pub open spec fn set_suspended(s: Ledger, u: UserId, suspended: bool) -> Step {
    if s.has(u) {
        (s.with_account(u, AccountModel { is_suspended: suspended, ..s.accounts[u] }), Ok(()))
    } else {
        (s, Err(RejectReason::UnknownUser))
    }
}

/// What a deposit or withdrawal is known by.
pub open spec fn transfer_of(cmd: AdjustBalance) -> Transfer {
    Transfer {
        user_id: cmd.user_id,
        currency_id: cmd.currency_id,
        transaction_id: cmd.transaction_id,
    }
}

/// A deposit succeeds, and a withdrawal where the free balance covers it, but none of
/// them twice: one that was accepted before is refused.
pub open spec fn adjust_balance(s: Ledger, cmd: AdjustBalance) -> Step {
    let delta = cmd.delta.0 as int;
    let t = transfer_of(cmd);
    if !s.has(cmd.user_id) {
        (s, Err(RejectReason::UnknownUser))
    } else if s.transfers.contains(t) {
        (s, Err(RejectReason::UnsupportedCommand))
    } else if delta >= 0 {
        (s.credit(cmd.user_id, cmd.currency_id, delta).note(t), Ok(()))
    } else if s.accounts[cmd.user_id].can_spend(cmd.currency_id, -delta) {
        (
            s.credit(cmd.user_id, cmd.currency_id, delta).claim(math::fits_i64(-delta)).note(t),
            Ok(()),
        )
    } else {
        (s.claim(math::fits_i64(-delta)), Err(RejectReason::InsufficientFunds))
    }
}

/// A value that the machine can hold.
pub open spec fn fitted(x: int) -> Option<int> {
    if math::fits_i64(x) {
        Some(x)
    } else {
        None
    }
}

/// `price` times `size` over the scale of the base currency.
pub open spec fn quoted(price: int, size: int, spec: SymbolSpec) -> Option<int> {
    if spec.base_minor_per_major == 0 {
        None
    } else {
        fitted(math::tdiv(price * size, spec.base_minor_per_major as int))
    }
}

/// A rate of an amount, rounded up.
pub open spec fn rated(amount: Option<int>, bps: Bps) -> Option<int> {
    match amount {
        Some(a) => fitted(numeric::bps_of_ceil(a, bps.0 as int)),
        None => None,
    }
}

/// The sum of two amounts.
pub open spec fn summed(a: Option<int>, b: Option<int>) -> Option<int> {
    match (a, b) {
        (Some(x), Some(y)) => fitted(x + y),
        _ => None,
    }
}

/// The first amount less the second.
pub open spec fn less(a: Option<int>, b: Option<int>) -> Option<int> {
    match (a, b) {
        (Some(x), Some(y)) => fitted(x - y),
        _ => None,
    }
}

/// Why an order is refused whoever places it, if it is.
pub open spec fn order_refusal(cmd: PlaceOrder, spec: SymbolSpec) -> Option<RejectReason> {
    if spec.is_suspended {
        Some(RejectReason::SymbolSuspended)
    } else if cmd.size.0 <= 0 || cmd.size.0 < spec.min_order_size.0 {
        Some(RejectReason::SizeBelowMinimum)
    } else if cmd.size.0 > spec.max_order_size.0 {
        Some(RejectReason::SizeAboveMaximum)
    } else {
        match cmd.price {
            None => Some(RejectReason::MissingPrice),
            Some(price) => if spec.tick_size.0 > 0 && price.0 as int % spec.tick_size.0 as int != 0 {
                Some(RejectReason::PriceTickMisaligned)
            } else if spec.lot_size.0 > 0 && cmd.size.0 as int % spec.lot_size.0 as int != 0 {
                Some(RejectReason::SizeLotMisaligned)
            } else if out_of_band(price, spec) {
                Some(RejectReason::PriceBandViolation)
            } else {
                None
            },
        }
    }
}

/// Whether a price lies outside the band of its symbol.
pub open spec fn out_of_band(price: Price, spec: SymbolSpec) -> bool {
    match spec.price_band.reference_price {
        None => false,
        Some(reference) => {
            ||| (spec.price_band.upper_bps_from_ref matches Some(up) && price.0 > math::tdiv(
                reference.0 * (10_000 + up.0),
                10_000,
            ))
            ||| (spec.price_band.lower_bps_from_ref matches Some(down) && price.0 * 10_000
                < reference.0 * (10_000 - down.0))
        },
    }
}

/// What a spot order reserves: the currency, the amount, and the price that a
/// bid is reserved at.
pub open spec fn spot_need(cmd: PlaceOrder, spec: SymbolSpec, price: Price) -> Result<
    (CurrencyId, int, Option<Price>),
    RejectReason,
> {
    match cmd.side {
        Side::Bid => {
            let at = match cmd.reserve_price {
                Some(p) => p,
                None => price,
            };
            let gross = quoted(at.0 as int, cmd.size.0 as int, spec);
            if at.0 < price.0 {
                Err(RejectReason::InvalidReservePrice)
            } else {
                match summed(gross, rated(gross, spec.fee_schedule.taker_bps)) {
                    Some(amount) => Ok((spec.quote_currency, amount, Some(at))),
                    None => Err(RejectReason::ArithmeticOverflow),
                }
            }
        },
        Side::Ask => Ok((spec.base_currency, cmd.size.0 as int, None)),
    }
}

/// Magnitude as a machine word has it: the lowest value is its own.
pub open spec fn word_abs(x: int) -> int {
    if x >= 0 || x == i64::MIN {
        x
    } else {
        -x
    }
}

/// Size with the sign of its side.
pub open spec fn signed(side: Side, size: int) -> int {
    match side {
        Side::Bid => size,
        Side::Ask => -size,
    }
}

/// Margin and fee that a derivative order reserves. The margin covers the
/// position that the order would leave if it filled at its price, as far as the
/// margin of the present position does not.
pub open spec fn derivative_need(
    a: AccountModel,
    cmd: PlaceOrder,
    spec: SymbolSpec,
    imr: Bps,
    price: Price,
) -> Option<(int, int)> {
    let p = a.position_in(cmd.symbol_id);
    let target = word_abs(p.size.0 + signed(cmd.side, cmd.size.0 as int));
    let required = rated(quoted(price.0 as int, target, spec), imr);
    let fee = rated(
        quoted(price.0 as int, cmd.size.0 as int, spec),
        spec.fee_schedule.taker_bps,
    );
    match (required, fee) {
        (Some(m), Some(f)) => {
            let more = numeric::saturated(m - p.margin_locked.0);
            let margin = if more > 0 {
                more
            } else {
                0
            };
            if math::fits_i64(margin + f) {
                Some((margin, f))
            } else {
                None
            }
        },
        _ => None,
    }
}

/// Initial margin rate of a derivative.
pub open spec fn initial_margin(spec: SymbolSpec) -> Option<Bps> {
    match spec.kind_params {
        SymbolKindParams::Spot => None,
        SymbolKindParams::PerpetualSwap(p) => Some(p.initial_margin_bps),
        SymbolKindParams::Future(f) => Some(f.initial_margin_bps),
    }
}

/// Maintenance margin rate of a derivative.
pub open spec fn maintenance_margin(spec: SymbolSpec) -> Option<Bps> {
    match spec.kind_params {
        SymbolKindParams::Spot => None,
        SymbolKindParams::PerpetualSwap(p) => Some(p.maintenance_margin_bps),
        SymbolKindParams::Future(f) => Some(f.maintenance_margin_bps),
    }
}

/// Moves an amount from free to reserved and records the hold.
pub open spec fn lock(s: Ledger, h: Hold, short: RejectReason) -> Step {
    let amount = h.remaining_amount.0 as int;
    if s.accounts[h.user_id].can_spend(h.currency, amount) {
        (
            s.credit(h.user_id, h.currency, -amount).reserve(
                h.user_id,
                h.currency,
                amount,
            ).put_hold(h),
            Ok(()),
        )
    } else {
        (s, Err(short))
    }
}

/// Reserves funds for a spot order.
pub open spec fn pre_check_spot(
    s: Ledger,
    cmd: PlaceOrder,
    spec: SymbolSpec,
    price: Price,
    order_id: OrderId,
) -> Step {
    match spot_need(cmd, spec, price) {
        Err(r) => (s, Err(r)),
        Ok((currency, amount, bid_reserve_price)) => lock(
            s,
            Hold {
                user_id: cmd.user_id,
                symbol_id: cmd.symbol_id,
                order_id,
                side: cmd.side,
                currency,
                remaining_size: cmd.size,
                remaining_amount: Amount(amount as i64),
                pre_check_fee_bps: spec.fee_schedule.taker_bps,
                kind: HoldKind::Spot { bid_reserve_price },
            },
            RejectReason::InsufficientFunds,
        ),
    }
}

/// Reserves margin and fee for a derivative order.
pub open spec fn pre_check_derivative(
    s: Ledger,
    cmd: PlaceOrder,
    spec: SymbolSpec,
    imr: Bps,
    price: Price,
    order_id: OrderId,
) -> Step {
    let a = s.accounts[cmd.user_id];
    let ok = math::fits_i64(
        a.position_in(cmd.symbol_id).size.0 + signed(cmd.side, cmd.size.0 as int),
    );
    match derivative_need(a, cmd, spec, imr, price) {
        None => (s.claim(ok), Err(RejectReason::ArithmeticOverflow)),
        Some((margin, fee)) => lock(
            s.claim(ok),
            Hold {
                user_id: cmd.user_id,
                symbol_id: cmd.symbol_id,
                order_id,
                side: cmd.side,
                currency: spec.quote_currency,
                remaining_size: cmd.size,
                remaining_amount: Amount((margin + fee) as i64),
                pre_check_fee_bps: spec.fee_schedule.taker_bps,
                kind: HoldKind::Derivative {
                    reserve_margin: Amount(margin as i64),
                    reserve_fee: Amount(fee as i64),
                    original_size: cmd.size,
                    ref_price: price,
                },
            },
            RejectReason::InsufficientMargin,
        ),
    }
}

/// Checks an order and reserves what it may cost.
pub open spec fn pre_check_place(
    s: Ledger,
    cmd: PlaceOrder,
    spec: SymbolSpec,
    order_id: OrderId,
) -> Step {
    match order_refusal(cmd, spec) {
        Some(r) => (s, Err(r)),
        None => if !s.has(cmd.user_id) {
            (s, Err(RejectReason::UnknownUser))
        } else if s.accounts[cmd.user_id].is_suspended {
            (s, Err(RejectReason::UserSuspended))
        } else {
            match initial_margin(spec) {
                None => pre_check_spot(s, cmd, spec, cmd.price->0, order_id),
                Some(imr) => pre_check_derivative(s, cmd, spec, imr, cmd.price->0, order_id),
            }
        },
    }
}

/// Returns a whole reservation. An order without one has nothing to return.
pub open spec fn release_hold(s: Ledger, order_id: OrderId) -> Step {
    if !s.holds.contains_key(order_id) {
        (s, Ok(()))
    } else {
        let h = s.holds[order_id];
        let t = s.drop_hold(order_id);
        if t.has(h.user_id) {
            (t.unreserve(h.user_id, h.currency, h.remaining_amount.0 as int), Ok(()))
        } else {
            (t, Err(RejectReason::UnknownUser))
        }
    }
}

/// The part of a reservation that belongs to a part of the order.
pub open spec fn released_part(h: Hold, size: int) -> int {
    math::tdiv(h.remaining_amount.0 * size, h.remaining_size.0 as int)
}

/// Returns the part of a reservation that belongs to `size` of the order.
pub open spec fn partial_release_hold(s: Ledger, order_id: OrderId, size: Size) -> Step {
    if !s.holds.contains_key(order_id) || size.0 <= 0 || s.holds[order_id].remaining_size.0 <= 0 {
        (s, Ok(()))
    } else {
        let h = s.holds[order_id];
        let part = if size.0 <= h.remaining_size.0 {
            size.0 as int
        } else {
            h.remaining_size.0 as int
        };
        let amount = released_part(h, part);
        let smaller = Hold {
            remaining_size: Size((h.remaining_size.0 - part) as i64),
            remaining_amount: Amount((h.remaining_amount.0 - amount) as i64),
            ..h
        };
        let t = Ledger { holds: s.holds.insert(order_id, smaller), ..s };
        if t.has(h.user_id) {
            (t.unreserve(h.user_id, h.currency, amount), Ok(()))
        } else {
            (t, Err(RejectReason::UnknownUser))
        }
    }
}

/// A ledger after the settlement of one side of a trade, and what is left of
/// the reservation.
pub type Settled = (Ledger, Result<Option<Hold>, RejectReason>);

/// A reservation after a fill. One of a filled order is dissolved, and what is
/// left of it becomes free.
pub open spec fn drawn_down(s: Ledger, h: Hold, amount: int, size: int) -> Settled {
    let left = h.remaining_amount.0 - amount;
    let open = h.remaining_size.0 - size;
    let t = s.claim(math::fits_i64(left) && math::fits_i64(open));
    if open == 0 {
        if left == 0 {
            (t, Ok(None))
        } else {
            (t.unreserve(h.user_id, h.currency, left), Ok(None))
        }
    } else {
        (
            t,
            Ok(
                Some(
                    Hold {
                        remaining_amount: Amount(left as i64),
                        remaining_size: Size(open as i64),
                        ..h
                    },
                ),
            ),
        )
    }
}

/// The fee rate of a side of a trade.
pub open spec fn fee_rate(is_taker: bool, spec: SymbolSpec) -> Bps {
    if is_taker {
        spec.fee_schedule.taker_bps
    } else {
        spec.fee_schedule.maker_bps
    }
}

/// Terms of a spot bid's fill: what leaves the reservation, what of that comes
/// back, and the fee.
pub open spec fn bid_terms(trade: Trade, h: Hold, reserve: Price, is_taker: bool, spec: SymbolSpec) -> Option<
    (int, int, int),
> {
    let gross = quoted(reserve.0 as int, trade.size.0 as int, spec);
    let release = summed(gross, rated(gross, h.pre_check_fee_bps));
    let cost = quoted(trade.price.0 as int, trade.size.0 as int, spec);
    let fee = rated(cost, fee_rate(is_taker, spec));
    let slack = less(release, summed(cost, fee));
    match (release, slack, fee) {
        (Some(r), Some(k), Some(f)) => Some((r, k, f)),
        _ => None,
    }
}

/// Terms of a spot ask's fill: what the seller gets, and the fee.
pub open spec fn ask_terms(trade: Trade, is_taker: bool, spec: SymbolSpec) -> Option<(int, int)> {
    let proceeds = quoted(trade.price.0 as int, trade.size.0 as int, spec);
    let fee = rated(proceeds, fee_rate(is_taker, spec));
    match (less(proceeds, fee), fee) {
        (Some(n), Some(f)) => Some((n, f)),
        _ => None,
    }
}

/// Settles one side of a spot trade.
pub open spec fn settle_spot(
    s: Ledger,
    trade: Trade,
    h: Hold,
    is_taker: bool,
    spec: SymbolSpec,
) -> Settled {
    let u = h.user_id;
    match h.side {
        Side::Bid => match h.kind {
            HoldKind::Spot { bid_reserve_price: Some(reserve) } => match bid_terms(
                trade,
                h,
                reserve,
                is_taker,
                spec,
            ) {
                None => (s, Err(RejectReason::ArithmeticOverflow)),
                Some((release, slack, fee)) => if !s.has(u) {
                    (s, Err(RejectReason::UnknownUser))
                } else {
                    drawn_down(
                        s.reserve(u, h.currency, -release).credit(u, h.currency, slack).credit(
                            u,
                            spec.base_currency,
                            trade.size.0 as int,
                        ).credit(house(), spec.quote_currency, fee),
                        h,
                        release,
                        trade.size.0 as int,
                    )
                },
            },
            _ => (s.claim(false), Err(RejectReason::InvalidOrderBookState)),
        },
        Side::Ask => match ask_terms(trade, is_taker, spec) {
            None => (s, Err(RejectReason::ArithmeticOverflow)),
            Some((net, fee)) => if !s.has(u) {
                (s, Err(RejectReason::UnknownUser))
            } else {
                drawn_down(
                    s.reserve(u, h.currency, -(trade.size.0 as int)).credit(
                        u,
                        spec.quote_currency,
                        net,
                    ).credit(house(), spec.quote_currency, fee),
                    h,
                    trade.size.0 as int,
                    trade.size.0 as int,
                )
            },
        },
    }
}

/// The part of a reserve that belongs to a fill.
pub open spec fn share(reserve: Amount, fill: Size, whole: Size) -> int {
    math::tdiv(reserve.0 * fill.0, whole.0 as int)
}

/// Takes an amount out of a reservation and pays another one: what is left over
/// becomes free, what is missing comes from the free balance. Says whether the
/// free balance covered it.
pub open spec fn pay_from_reserve(
    s: Ledger,
    u: UserId,
    c: CurrencyId,
    reserved: int,
    cost: int,
) -> (Ledger, bool) {
    let t = s.reserve(u, c, -reserved);
    if cost > reserved {
        let t1 = t.claim(math::fits_i64(cost - reserved));
        if t1.accounts[u].can_spend(c, cost - reserved) {
            (t1.credit(u, c, reserved - cost), true)
        } else {
            (t1, false)
        }
    } else {
        (t.credit(u, c, numeric::saturated(reserved - cost)), true)
    }
}

/// Profit of closing `size` of a position at a price.
pub open spec fn profit(p: Position, size: int, price: Price, spec: SymbolSpec) -> int {
    let per_unit = if p.size.0 > 0 {
        price.0 - p.entry_price.0
    } else {
        p.entry_price.0 - price.0
    };
    math::tdiv(per_unit * size, spec.base_minor_per_major as int)
}

/// Average entry price of a position that grows.
pub open spec fn blended_entry(p: Position, added: int, size: Size, price: Price) -> int {
    let new_size = p.size.0 + added;
    if new_size == 0 {
        0
    } else if p.size.0 == 0 {
        price.0 as int
    } else {
        math::tdiv(
            word_abs(p.size.0 as int) * p.entry_price.0 + size.0 * price.0,
            math::magnitude(new_size),
        )
    }
}

/// A fill that opens a position or adds to it: margin moves from the
/// reservation into the position.
pub open spec fn settle_open(
    s: Ledger,
    trade: Trade,
    h: Hold,
    notional: int,
    fee: int,
    reserved: int,
    imr: Bps,
    spec: SymbolSpec,
) -> Step {
    let u = h.user_id;
    let margin = rated(Some(notional), imr);
    match summed(margin, Some(fee)) {
        None => (s, Err(RejectReason::ArithmeticOverflow)),
        Some(cost) => {
            let (t, paid) = pay_from_reserve(s, u, h.currency, reserved, cost);
            if !paid {
                (t, Err(RejectReason::InsufficientMargin))
            } else {
                let p = t.accounts[u].position_in(h.symbol_id);
                let added = signed(h.side, trade.size.0 as int);
                let entry = blended_entry(p, added, trade.size, trade.price);
                let locked = p.margin_locked.0 + margin->0;
                let q = Position {
                    size: Size((p.size.0 + added) as i64),
                    entry_price: Price(entry as i64),
                    margin_locked: Amount(locked as i64),
                    margin_currency: h.currency,
                };
                (
                    t.set_position(u, h.symbol_id, q).claim(
                        math::fits_i64(p.size.0 + added) && math::fits_i64(entry)
                            && math::fits_i64(locked),
                    ).credit(house(), spec.quote_currency, fee),
                    Ok(()),
                )
            }
        },
    }
}

/// A fill that closes a position and opens one in the other direction.
pub open spec fn settle_flip(
    s: Ledger,
    trade: Trade,
    h: Hold,
    fee: int,
    reserved: int,
    imr: Bps,
    spec: SymbolSpec,
) -> Step {
    let u = h.user_id;
    let p = s.accounts[u].position_in(h.symbol_id);
    let added = signed(h.side, trade.size.0 as int);
    let closed = word_abs(p.size.0 as int);
    let opened = word_abs(added) - closed;
    let gain = profit(p, closed, trade.price, spec);
    let s1 = s.claim(math::fits_i64(opened) && math::fits_i64(gain));
    match rated(quoted(trade.price.0 as int, opened, spec), imr) {
        None => (s1, Err(RejectReason::ArithmeticOverflow)),
        Some(margin) => if !math::fits_i64(margin + fee) {
            (s1.reserve(u, h.currency, -reserved), Err(RejectReason::ArithmeticOverflow))
        } else {
            let (t, paid) = pay_from_reserve(s1, u, h.currency, reserved, margin + fee);
            if !paid {
                (t, Err(RejectReason::InsufficientMargin))
            } else {
                let q = Position {
                    size: Size(
                        (if added > 0 {
                            opened
                        } else {
                            -opened
                        }) as i64,
                    ),
                    entry_price: trade.price,
                    margin_locked: Amount(margin as i64),
                    margin_currency: h.currency,
                };
                (
                    t.claim(
                        math::fits_i64(reserved - margin - fee) && math::fits_i64(
                            p.margin_locked.0 + gain,
                        ) && math::fits_i64(-opened),
                    ).credit(u, h.currency, p.margin_locked.0 + gain).set_position(
                        u,
                        h.symbol_id,
                        q,
                    ).credit(house(), spec.quote_currency, fee),
                    Ok(()),
                )
            }
        },
    }
}

/// A fill that makes a position smaller: it realises the profit of the closed
/// part and frees the margin in proportion.
pub open spec fn settle_reduce(
    s: Ledger,
    trade: Trade,
    h: Hold,
    fee: int,
    reserved: int,
    spec: SymbolSpec,
) -> Step {
    let u = h.user_id;
    let (t, paid) = pay_from_reserve(s, u, h.currency, reserved, fee);
    if !paid {
        (t, Err(RejectReason::InsufficientFunds))
    } else {
        let p = t.accounts[u].position_in(h.symbol_id);
        let left = p.size.0 + signed(h.side, trade.size.0 as int);
        let gain = profit(p, trade.size.0 as int, trade.price, spec);
        let freed = math::tdiv(p.margin_locked.0 * trade.size.0, word_abs(p.size.0 as int));
        let kept = numeric::saturated(p.margin_locked.0 - freed);
        let q = Position {
            size: Size(left as i64),
            entry_price: if left == 0 {
                Price(0)
            } else {
                p.entry_price
            },
            margin_locked: Amount(kept as i64),
            margin_currency: p.margin_currency,
        };
        let t2 = t.set_position(u, h.symbol_id, q).claim(
            math::fits_i64(left) && math::fits_i64(gain) && math::fits_i64(freed),
        );
        (
            t2.claim(
                math::fits_i64(t2.accounts[u].free[spec.quote_currency] + freed),
            ).credit(u, spec.quote_currency, freed + gain).credit(
                house(),
                spec.quote_currency,
                fee,
            ),
            Ok(()),
        )
    }
}

/// Settles one side of a derivative trade.
pub open spec fn settle_derivative(
    s: Ledger,
    trade: Trade,
    h: Hold,
    is_taker: bool,
    spec: SymbolSpec,
) -> Settled {
    match (h.kind, initial_margin(spec)) {
        (
            HoldKind::Derivative { reserve_margin, reserve_fee, original_size, ref_price },
            Some(imr),
        ) => if !s.has(h.user_id) {
            (s, Err(RejectReason::UnknownUser))
        } else {
            let p = s.accounts[h.user_id].position_in(h.symbol_id);
            let added = signed(h.side, trade.size.0 as int);
            let against = p.size.0 != 0 && (p.size.0 > 0) != (added > 0);
            let flips = against && word_abs(added) > word_abs(p.size.0 as int);
            let margin_share = share(reserve_margin, trade.size, original_size);
            let fee_share = share(reserve_fee, trade.size, original_size);
            let notional = quoted(trade.price.0 as int, trade.size.0 as int, spec);
            let fee = rated(notional, fee_rate(is_taker, spec));
            let s1 = s.claim(
                trade.size.0 != i64::MIN && original_size.0 != 0 && math::fits_i64(margin_share)
                    && math::fits_i64(fee_share),
            );
            match (fitted(margin_share + fee_share), fee) {
                (Some(reserved), Some(f)) => {
                    let (t, r) = if flips {
                        settle_flip(s1, trade, h, f, reserved, imr, spec)
                    } else if against {
                        settle_reduce(s1, trade, h, f, reserved, spec)
                    } else {
                        settle_open(s1, trade, h, notional->0, f, reserved, imr, spec)
                    };
                    match r {
                        Err(e) => (t, Err(e)),
                        Ok(_) => drawn_down(t, h, reserved, trade.size.0 as int),
                    }
                },
                _ => (s1, Err(RejectReason::ArithmeticOverflow)),
            }
        },
        _ => (s.claim(false), Err(RejectReason::InvalidOrderBookState)),
    }
}

/// Settles one side of a trade.
pub open spec fn settle_side(
    s: Ledger,
    trade: Trade,
    h: Hold,
    is_taker: bool,
    spec: SymbolSpec,
) -> Settled {
    match h.kind {
        HoldKind::Spot { bid_reserve_price } => settle_spot(s, trade, h, is_taker, spec),
        HoldKind::Derivative { reserve_margin, reserve_fee, original_size, ref_price } =>
            settle_derivative(s, trade, h, is_taker, spec),
    }
}

/// Puts back what is left of a reservation.
pub open spec fn put_back(s: Ledger, h: Option<Hold>) -> Ledger {
    match h {
        Some(h) => s.put_hold(h),
        None => s,
    }
}

/// Settles both sides of a trade, the taker's first.
pub open spec fn apply_trade(s: Ledger, trade: Trade, spec: SymbolSpec) -> Step {
    if !s.holds.contains_key(trade.taker_order_id) {
        (s, Err(RejectReason::InvalidOrderBookState))
    } else {
        let s1 = s.drop_hold(trade.taker_order_id);
        if !s1.holds.contains_key(trade.maker_order_id) {
            (s1, Err(RejectReason::InvalidOrderBookState))
        } else {
            let s2 = s1.drop_hold(trade.maker_order_id);
            let (s3, taker) = settle_side(s2, trade, s.holds[trade.taker_order_id], true, spec);
            match taker {
                Err(e) => (s3, Err(e)),
                Ok(th) => {
                    let (s4, maker) = settle_side(
                        s3,
                        trade,
                        s1.holds[trade.maker_order_id],
                        false,
                        spec,
                    );
                    match maker {
                        Err(e) => (s4, Err(e)),
                        Ok(mh) => (put_back(put_back(s4, th), mh), Ok(())),
                    }
                },
            }
        }
    }
}

/// Profit that a position would make if it were closed whole.
pub open spec fn unrealized(p: Position, mark: Price, spec: SymbolSpec) -> int {
    profit(p, math::magnitude(p.size.0 as int), mark, spec)
}

/// Value of a position at a mark.
pub open spec fn notional_at(p: Position, mark: Price, spec: SymbolSpec) -> int {
    math::tdiv(mark.0 * math::magnitude(p.size.0 as int), spec.base_minor_per_major as int)
}

/// Whether margin and profit no longer cover the maintenance margin.
pub open spec fn underwater(p: Position, mark: Price, spec: SymbolSpec, mmr: Bps) -> bool {
    p.margin_locked.0 + unrealized(p, mark, spec) < math::tdiv(
        notional_at(p, mark, spec) * mmr.0,
        10_000,
    )
}

/// Whether a sweep closes the position of an account: every open one, or with a
/// maintenance rate only those that it no longer covers.
pub open spec fn closes(a: AccountModel, spec: SymbolSpec, price: Price, below: Option<Bps>) -> bool {
    &&& a.positions.contains_key(spec.symbol_id)
    &&& a.positions[spec.symbol_id].size.0 != 0
    &&& below matches Some(mmr) ==> underwater(a.positions[spec.symbol_id], price, spec, mmr)
}

/// Whether the machine can look at the position of an account.
pub open spec fn can_look(a: AccountModel, spec: SymbolSpec, price: Price, below: Option<Bps>) -> bool {
    a.positions.contains_key(spec.symbol_id) && a.positions[spec.symbol_id].size.0 != 0 ==> {
        let p = a.positions[spec.symbol_id];
        &&& spec.base_minor_per_major != 0
        &&& below matches Some(mmr) ==> i128::MIN <= notional_at(p, price, spec) * mmr.0
            <= i128::MAX
    }
}

/// What closing a position brings.
pub open spec fn close_gain(a: AccountModel, spec: SymbolSpec, price: Price) -> int {
    let p = a.positions[spec.symbol_id];
    profit(p, word_abs(p.size.0 as int), price, spec)
}

/// Whether the machine can close the position of an account.
pub open spec fn can_close(a: AccountModel, spec: SymbolSpec, price: Price) -> bool {
    let p = a.positions[spec.symbol_id];
    let gain = close_gain(a, spec, price);
    &&& spec.base_minor_per_major != 0
    &&& math::fits_i64(gain)
    &&& math::fits_i64(a.free[spec.quote_currency] + p.margin_locked.0)
    &&& math::fits_i64(a.free[spec.quote_currency] + p.margin_locked.0 + gain)
}

/// An account whose position was closed: margin and profit are free.
pub open spec fn closed(a: AccountModel, spec: SymbolSpec, price: Price) -> AccountModel {
    let p = a.positions[spec.symbol_id];
    a.credited(
        spec.quote_currency,
        p.margin_locked.0 + close_gain(a, spec, price),
    ).with_position(
        spec.symbol_id,
        Position { margin_currency: p.margin_currency, ..Position::flat() },
    )
}

/// The report about a closed position.
pub open spec fn close_report(
    u: UserId,
    a: AccountModel,
    spec: SymbolSpec,
    price: Price,
) -> LiquidationReport {
    let p = a.positions[spec.symbol_id];
    LiquidationReport {
        user_id: u,
        symbol_id: spec.symbol_id,
        size_closed: Size(word_abs(p.size.0 as int) as i64),
        close_price: price,
        realized_pnl: Amount(close_gain(a, spec, price) as i64),
        margin_released: p.margin_locked,
    }
}

/// An account after a sweep.
pub open spec fn swept(
    u: UserId,
    a: AccountModel,
    spec: SymbolSpec,
    price: Price,
    below: Option<Bps>,
) -> AccountModel {
    if u != house() && closes(a, spec, price, below) {
        closed(a, spec, price)
    } else {
        a
    }
}

/// The ledger after a sweep over all users but the fee account.
pub open spec fn sweep(s: Ledger, spec: SymbolSpec, price: Price, below: Option<Bps>) -> Ledger {
    Ledger {
        accounts: Map::new(
            |u: UserId| s.has(u),
            |u: UserId| swept(u, s.accounts[u], spec, price, below),
        ),
        exact: s.exact && forall|u: UserId| #[trigger]
            s.has(u) && u != house() ==> can_look(s.accounts[u], spec, price, below) && (closes(
                s.accounts[u],
                spec,
                price,
                below,
            ) ==> can_close(s.accounts[u], spec, price)),
        ..s
    }
}

/// The ledger after the positions that a mark puts below their maintenance
/// margin were closed.
pub open spec fn liquidate(s: Ledger, spec: SymbolSpec, mark: Price) -> Ledger {
    match maintenance_margin(spec) {
        Some(mmr) => sweep(s, spec, mark, Some(mmr)),
        None => s,
    }
}

/// The reports of a sweep that meets the users in a given order.
pub open spec fn sweep_reports(
    s: Ledger,
    users: Seq<UserId>,
    spec: SymbolSpec,
    price: Price,
    below: Option<Bps>,
) -> Seq<LiquidationReport>
    decreases users.len(),
{
    if users.len() == 0 {
        Seq::empty()
    } else {
        let before = sweep_reports(s, users.drop_last(), spec, price, below);
        let u = users.last();
        if u != house() && closes(s.accounts[u], spec, price, below) {
            before.push(close_report(u, s.accounts[u], spec, price))
        } else {
            before
        }
    }
}

/// What a position pays in a funding settlement.
pub open spec fn funding_of(a: AccountModel, spec: SymbolSpec, mark: Price, rate: int) -> int {
    if a.positions.contains_key(spec.symbol_id) {
        math::tdiv(
            math::tdiv(
                a.positions[spec.symbol_id].size.0 * mark.0 * rate,
                spec.base_minor_per_major as int,
            ),
            10_000,
        )
    } else {
        0
    }
}

/// Whether the machine can compute a funding payment and book it.
pub open spec fn can_fund(a: AccountModel, spec: SymbolSpec, mark: Price, rate: int) -> bool {
    a.positions.contains_key(spec.symbol_id) && a.positions[spec.symbol_id].size.0 != 0 ==> {
        &&& spec.base_minor_per_major != 0
        &&& i128::MIN < a.positions[spec.symbol_id].size.0 * mark.0 * rate <= i128::MAX
        &&& math::fits_i64(funding_of(a, spec, mark, rate))
        &&& math::fits_i64(
            a.free[spec.quote_currency] - funding_of(a, spec, mark, rate),
        )
    }
}

/// Whether an account takes part in a funding settlement.
pub open spec fn funds(a: AccountModel, spec: SymbolSpec, mark: Price, rate: int) -> bool {
    &&& a.positions.contains_key(spec.symbol_id)
    &&& a.positions[spec.symbol_id].size.0 != 0
    &&& funding_of(a, spec, mark, rate) != 0
}

/// An account after a funding settlement.
pub open spec fn funded(u: UserId, a: AccountModel, spec: SymbolSpec, mark: Price, rate: int) -> AccountModel {
    if u != house() && funds(a, spec, mark, rate) {
        a.credited(spec.quote_currency, -funding_of(a, spec, mark, rate))
    } else {
        a
    }
}

/// The ledger after a funding settlement.
pub open spec fn apply_funding(s: Ledger, spec: SymbolSpec, mark: Price, rate: int) -> Ledger {
    Ledger {
        accounts: Map::new(
            |u: UserId| s.has(u),
            |u: UserId| funded(u, s.accounts[u], spec, mark, rate),
        ),
        exact: s.exact && forall|u: UserId| #[trigger]
            s.has(u) && u != house() ==> can_fund(s.accounts[u], spec, mark, rate),
        ..s
    }
}

/// The reports of a funding settlement that meets the users in a given order.
pub open spec fn funding_reports(
    s: Ledger,
    users: Seq<UserId>,
    spec: SymbolSpec,
    mark: Price,
    rate: int,
) -> Seq<FundingReport>
    decreases users.len(),
{
    if users.len() == 0 {
        Seq::empty()
    } else {
        let before = funding_reports(s, users.drop_last(), spec, mark, rate);
        let u = users.last();
        if u != house() && funds(s.accounts[u], spec, mark, rate) {
            before.push(
                FundingReport {
                    user_id: u,
                    symbol_id: spec.symbol_id,
                    payment: Amount(funding_of(s.accounts[u], spec, mark, rate) as i64),
                },
            )
        } else {
            before
        }
    }
}

/// Margin that positions lock in a currency.
pub open spec fn margin_in(c: CurrencyId) -> spec_fn(Position) -> int {
    |p: Position|
        if p.margin_currency == c {
            p.margin_locked.0 as int
        } else {
            0
        }
}

/// Everything that an account owns in a currency, without open profits.
pub open spec fn worth_in(c: CurrencyId) -> spec_fn(AccountModel) -> int {
    |a: AccountModel| a.free[c] + a.held[c] + sums::sum_map(a.positions, margin_in(c))
}

/// Everything that all accounts own in a currency, without open profits.
pub open spec fn total_internal(s: Ledger, c: CurrencyId) -> int {
    sums::sum_map(s.accounts, worth_in(c))
}

/// Magnitude of the margin that a position locks in a currency.
pub open spec fn margin_size_in(c: CurrencyId) -> spec_fn(Position) -> int {
    |p: Position| math::magnitude(margin_in(c)(p))
}

/// Sum of the magnitudes of everything in an account.
pub open spec fn gross_in(c: CurrencyId) -> spec_fn(AccountModel) -> int {
    |a: AccountModel|
        math::magnitude(a.free[c]) + math::magnitude(a.held[c]) + sums::sum_map(
            a.positions,
            margin_size_in(c),
        )
}

/// Sum of the magnitudes of everything in a currency.
pub open spec fn gross_internal(s: Ledger, c: CurrencyId) -> int {
    sums::sum_map(s.accounts, gross_in(c))
}

/// A mark price and the scale of its symbol.
#[derive(Debug, Clone, Copy)]
pub struct Mark {
    pub symbol_id: SymbolId,
    pub price: Price,
    pub scale: i64,
}

/// Open profit of a position in minor units times the scale of its symbol.
pub open spec fn raw_profit_in(c: CurrencyId, m: Mark) -> spec_fn(AccountModel) -> int {
    |a: AccountModel|
        if a.positions.contains_key(m.symbol_id) && a.positions[m.symbol_id].margin_currency == c {
            (m.price.0 - a.positions[m.symbol_id].entry_price.0)
                * a.positions[m.symbol_id].size.0
        } else {
            0
        }
}

/// Magnitude of the same.
pub open spec fn raw_profit_size_in(c: CurrencyId, m: Mark) -> spec_fn(AccountModel) -> int {
    |a: AccountModel| math::magnitude(raw_profit_in(c, m)(a))
}

/// Open profit of all positions in a symbol. The scale divides once, at the
/// end, so that longs and shorts lose no fractions against each other.
pub open spec fn open_profit(s: Ledger, c: CurrencyId, m: Mark) -> int {
    if m.scale > 0 {
        math::tdiv(sums::sum_map(s.accounts, raw_profit_in(c, m)), m.scale as int)
    } else {
        0
    }
}

/// Open profit of some symbols.
pub open spec fn open_profits(s: Ledger, c: CurrencyId, marks: Seq<Mark>) -> int
    decreases marks.len(),
{
    if marks.len() == 0 {
        0
    } else {
        open_profits(s, c, marks.drop_last()) + open_profit(s, c, marks.last())
    }
}

/// Everything that all accounts own in a currency, with open profits at some
/// marks.
pub open spec fn total_with_marks(s: Ledger, c: CurrencyId, marks: Seq<Mark>) -> int {
    total_internal(s, c) + open_profits(s, c, marks)
}

/// Whether the machine can add the open profit of the `i`-th mark.
pub open spec fn mark_fits(s: Ledger, c: CurrencyId, marks: Seq<Mark>, i: int) -> bool {
    &&& sums::sum_map(s.accounts, raw_profit_size_in(c, marks[i])) <= i128::MAX
    &&& i128::MIN <= total_internal(s, c) + open_profits(s, c, marks.subrange(0, i + 1))
        <= i128::MAX
}

/// Whether every sum that the machine forms for a total with marks fits.
pub open spec fn marks_fit(s: Ledger, c: CurrencyId, marks: Seq<Mark>) -> bool {
    &&& gross_internal(s, c) <= i128::MAX
    &&& forall|i: int| 0 <= i < marks.len() ==> #[trigger] mark_fits(s, c, marks, i)
}

} // verus!
