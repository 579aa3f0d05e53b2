//! The risk engine: reserves funds before an order reaches a book, settles its
//! fills, and gives back what is left.
use vstd::prelude::*;

use crate::math;
use crate::risk::account::UserAccount;
use crate::risk::hold::{FundingReport, Hold, HoldKind, LiquidationReport, Position};
use crate::risk::laws;
use crate::risk::model;
use crate::risk::model::{AccountModel, Ledger, Mark};
use crate::risk::saved;
use crate::risk::saved::{AccountSnapshot, RiskSnapshot};
use crate::risk::transfers::{Transfer, TransferLog};
use crate::store::keyed::KeyedMap;
use crate::store::listing;
use crate::store::sums;
use crate::types::command::{AdjustBalance, PlaceOrder};
use crate::types::enums::Side;
use crate::types::event::Trade;
use crate::types::ids::{CurrencyId, OrderId, SymbolId, UserId};
use crate::types::numeric;
use crate::types::numeric::{Amount, Bps, Price, Size};
use crate::types::reject::RejectReason;
use crate::types::symbol::{SymbolKindParams, SymbolSpec};

verus! {

/// Accounts, reservations, and the transfers that were accepted. Each order has at most
/// one reservation.
pub struct RiskEngine {
    accounts: KeyedMap<UserAccount>,
    holds: KeyedMap<Hold>,
    transfers: TransferLog,
}

/// The id of the account that collects the fees.
pub fn exchange_account() -> (r: UserId)
    ensures
        r == model::house(),
{
    UserId(0)
}

spec fn accounts_of(m: Map<u64, UserAccount>) -> Map<UserId, AccountModel> {
    Map::new(|u: UserId| m.contains_key(u.0), |u: UserId| m[u.0]@)
}

spec fn holds_of(m: Map<u64, Hold>) -> Map<OrderId, Hold> {
    Map::new(|id: OrderId| m.contains_key(id.0), |id: OrderId| m[id.0])
}

impl View for RiskEngine {
    type V = Ledger;

    closed spec fn view(&self) -> Ledger {
        Ledger {
            accounts: accounts_of(self.accounts@),
            holds: holds_of(self.holds@),
            transfers: self.transfers@,
            exact: true,
        }
    }
}

impl RiskEngine {
    /// The tables are in order and the fee account exists.
    pub closed spec fn wf(&self) -> bool {
        &&& self.accounts.wf()
        &&& self.holds.wf()
        &&& self.transfers.wf()
        &&& forall|k: u64| #[trigger]
            self.accounts@.contains_key(k) ==> self.accounts@[k].wf()
        &&& self.accounts@.contains_key(0)
    }

    /// Every ledger has the fee account and finitely many accounts and positions, and its
    /// balances are machine words.
    pub proof fn lemma_ledger(&self)
        requires
            self.wf(),
        ensures
            self@.exact,
            self@.has(model::house()),
            laws::finite(self@),
            forall|u: UserId, c: CurrencyId|
                self@.has(u) ==> math::fits_i64(#[trigger] self@.accounts[u].free[c]),
            forall|u: UserId, c: CurrencyId|
                self@.has(u) ==> math::fits_i64(#[trigger] self@.accounts[u].held[c]),
    {
        assert forall|u: UserId, c: CurrencyId| self@.has(u) implies math::fits_i64(
            #[trigger] self@.accounts[u].free[c],
        ) && math::fits_i64(self@.accounts[u].held[c]) by {
            self.accounts@[u.0].lemma_words();
        }
        assert forall|u: UserId, c: CurrencyId| self@.has(u) implies math::fits_i64(
            #[trigger] self@.accounts[u].held[c],
        ) by {
            self.accounts@[u.0].lemma_words();
        }
        self.lemma_walk();
        assert forall|u: UserId| #[trigger]
            self@.accounts.contains_key(u) implies self@.accounts[u].positions.dom().finite() by {
            self.accounts@[u.0].lemma_words();
        }
    }

    pub fn new() -> (r: RiskEngine)
        ensures
            r.wf(),
            r@ == model::new_ledger(),
    {
        let mut accounts: KeyedMap<UserAccount> = KeyedMap::new();
        accounts.insert(0, UserAccount::new(UserId(0)));
        let r = RiskEngine {
            accounts,
            holds: KeyedMap::new(),
            transfers: TransferLog::new(),
        };
        assert(r@.accounts =~= model::new_ledger().accounts);
        assert(r@.holds =~= model::new_ledger().holds);
        r
    }

    /// The ledger as lists.
    pub fn snapshot(&self) -> (r: RiskSnapshot)
        requires
            self.wf(),
        ensures
            saved::ledger_of(r) == self@,
            saved::ledger_ok(saved::ledger_of(r)),
    {
        let mut accounts: Vec<(u64, AccountSnapshot)> = Vec::new();
        let n: usize = self.accounts.len();
        let ghost keys = self.accounts.key_order();
        let mut i: usize = 0;
        proof {
            self.accounts.lemma_key_order();
            assert forall|j: int| 0 <= j < n implies self.accounts@.contains_key(
                #[trigger] keys[j],
            ) by {
                assert(keys.contains(keys[j]));
            }
        }
        while i < n
            invariant
                self.wf(),
                keys == self.accounts.key_order(),
                n == keys.len(),
                i <= n,
                accounts@.len() == i,
                forall|j: int| 0 <= j < n ==> self.accounts@.contains_key(#[trigger] keys[j]),
                forall|j: int|
                    0 <= j < i ==> (#[trigger] accounts@[j]).0 == keys[j] && saved::account_of(
                        accounts@[j].1,
                    ) == self.accounts@[keys[j]]@,
            decreases n - i,
        {
            assert(self.accounts@.contains_key(keys[i as int]));
            accounts.push((self.accounts.key_at(i), self.accounts.value_at(i).snapshot()));
            i = i + 1;
        }
        let r = RiskSnapshot {
            accounts,
            holds: listing::entries(&self.holds),
            transfers: self.transfers.listed(),
        };
        proof {
            let e = saved::account_entries(accounts@);
            let m = self.accounts@.map_values(|a: UserAccount| a@);
            assert forall|u: u64| #[trigger] m.contains_key(u) implies exists|j: int|
                0 <= j < e.len() && (#[trigger] e[j]).0 == u by {
                assert(keys.contains(u));
                let j = choose|j: int| 0 <= j < keys.len() && keys[j] == u;
                assert(accounts@[j].0 == u);
                assert(e[j].0 == u);
            }
            assert forall|j: int| 0 <= j < e.len() implies m.contains_key((#[trigger] e[j]).0)
                && m[e[j].0] == e[j].1 by {
                assert(accounts@[j].0 == keys[j]);
                assert(self.accounts@.contains_key(keys[j]));
            }
            listing::lemma_lists(e, m);
            assert(saved::ledger_of(r).accounts =~= self@.accounts);
            assert(saved::ledger_of(r).holds =~= self@.holds);
        }
        r
    }

    /// The ledger that was saved, or `None` where the lists cannot be those of one.
    pub fn from_snapshot(s: &RiskSnapshot) -> (r: Option<RiskEngine>)
        ensures
            r.is_some() == saved::ledger_ok(saved::ledger_of(*s)),
            r matches Some(e) ==> e.wf() && e@ == saved::ledger_of(*s),
    {
        let mut accounts: KeyedMap<UserAccount> = KeyedMap::new();
        let ghost e = saved::account_entries(s.accounts@);
        let mut i: usize = 0;
        proof {
            assert(accounts@.map_values(|a: UserAccount| a@) =~= listing::map_of(e.take(0)));
        }
        while i < s.accounts.len()
            invariant
                accounts.wf(),
                forall|k: u64| #[trigger] accounts@.contains_key(k) ==> accounts@[k].wf(),
                e == saved::account_entries(s.accounts@),
                i <= s.accounts@.len(),
                accounts@.map_values(|a: UserAccount| a@) == listing::map_of(e.take(i as int)),
            decreases s.accounts@.len() - i,
        {
            let ghost before = accounts@;
            proof {
                assert(e.take(i + 1).drop_last() =~= e.take(i as int));
            }
            let a = UserAccount::from_snapshot(&s.accounts[i].1);
            let ghost m = a@;
            accounts.insert(s.accounts[i].0, a);
            proof {
                assert(accounts@.map_values(|a: UserAccount| a@) =~= before.map_values(
                    |a: UserAccount| a@,
                ).insert(s.accounts@[i as int].0, m));
            }
            i = i + 1;
        }
        proof {
            assert(e.take(i as int) =~= e);
        }
        let ghost all = listing::map_of(e);
        proof {
            assert forall|k: u64| #[trigger] all.contains_key(k) implies accounts@.contains_key(k)
                && accounts@[k]@ == all[k] by {}
            assert forall|k: u64| #[trigger] accounts@.contains_key(k) implies all.contains_key(
                k,
            ) by {}
        }
        if !accounts.contains_key(0) {
            return None;
        }
        let r = RiskEngine {
            accounts,
            holds: listing::table(&s.holds),
            transfers: TransferLog::of(&s.transfers),
        };
        proof {
            assert(r@.accounts =~= saved::ledger_of(*s).accounts);
            assert(r@.holds =~= saved::ledger_of(*s).holds);
        }
        Some(r)
    }

    /// Adds to a free balance.
    fn credit(&mut self, u: UserId, c: CurrencyId, amount: Amount)
        requires
            old(self).wf(),
            old(self)@.has(u),
            old(self)@.credit(u, c, amount.0 as int).exact,
        ensures
            final(self).wf(),
            final(self)@ == old(self)@.credit(u, c, amount.0 as int),
    {
        match self.accounts.get_mut(u.0) {
            Some(a) => {
                a.credit_free(c, amount);
            },
            None => {},
        }
        assert(self@.accounts =~= old(self)@.credit(u, c, amount.0 as int).accounts);
    }

    /// Takes from a free balance where it covers the amount.
    fn debit(&mut self, u: UserId, c: CurrencyId, amount: Amount) -> (r: bool)
        requires
            old(self).wf(),
            old(self)@.has(u),
            old(self)@.accounts[u].can_spend(c, amount.0 as int) ==> old(self)@.credit(
                u,
                c,
                -(amount.0 as int),
            ).exact,
        ensures
            final(self).wf(),
            r == old(self)@.accounts[u].can_spend(c, amount.0 as int),
            final(self)@ == (if r {
                old(self)@.credit(u, c, -(amount.0 as int))
            } else {
                old(self)@
            }),
    {
        let r: bool = match self.accounts.get_mut(u.0) {
            Some(a) => a.debit_free(c, amount),
            None => false,
        };
        assert(r ==> self@.accounts =~= old(self)@.credit(u, c, -(amount.0 as int)).accounts);
        assert(!r ==> self@.accounts =~= old(self)@.accounts);
        r
    }

    /// Adds to a reserved balance.
    fn add_hold(&mut self, u: UserId, c: CurrencyId, amount: Amount)
        requires
            old(self).wf(),
            old(self)@.has(u),
            old(self)@.reserve(u, c, amount.0 as int).exact,
        ensures
            final(self).wf(),
            final(self)@ == old(self)@.reserve(u, c, amount.0 as int),
    {
        match self.accounts.get_mut(u.0) {
            Some(a) => {
                a.add_to_hold(c, amount);
            },
            None => {},
        }
        assert(self@.accounts =~= old(self)@.reserve(u, c, amount.0 as int).accounts);
    }

    /// Takes from a reserved balance.
    fn sub_hold(&mut self, u: UserId, c: CurrencyId, amount: Amount)
        requires
            old(self).wf(),
            old(self)@.has(u),
            old(self)@.reserve(u, c, -(amount.0 as int)).exact,
        ensures
            final(self).wf(),
            final(self)@ == old(self)@.reserve(u, c, -(amount.0 as int)),
    {
        match self.accounts.get_mut(u.0) {
            Some(a) => {
                a.sub_from_hold(c, amount);
            },
            None => {},
        }
        assert(self@.accounts =~= old(self)@.reserve(u, c, -(amount.0 as int)).accounts);
    }

    fn set_position(&mut self, u: UserId, s: SymbolId, p: Position)
        requires
            old(self).wf(),
            old(self)@.has(u),
        ensures
            final(self).wf(),
            final(self)@ == old(self)@.set_position(u, s, p),
    {
        match self.accounts.get_mut(u.0) {
            Some(a) => {
                a.set_position(s, p);
            },
            None => {},
        }
        assert(self@.accounts =~= old(self)@.set_position(u, s, p).accounts);
    }

    fn position_of(&self, u: UserId, s: SymbolId) -> (r: Position)
        requires
            self.wf(),
            self@.has(u),
        ensures
            r == self@.accounts[u].position_in(s),
    {
        match self.accounts.get(u.0) {
            Some(a) => a.position_or_flat(s),
            None => Position::default(),
        }
    }

    fn put_hold(&mut self, h: Hold)
        requires
            old(self).wf(),
        ensures
            final(self).wf(),
            final(self)@ == old(self)@.put_hold(h),
    {
        self.holds.insert(h.order_id.0, h);
        assert(self@.holds =~= old(self)@.put_hold(h).holds);
    }

    fn take_hold(&mut self, order_id: OrderId) -> (r: Option<Hold>)
        requires
            old(self).wf(),
        ensures
            final(self).wf(),
            r == (if old(self)@.holds.contains_key(order_id) {
                Some(old(self)@.holds[order_id])
            } else {
                None
            }),
            final(self)@ == old(self)@.drop_hold(order_id),
            r.is_none() ==> final(self)@ == old(self)@,
    {
        let r = self.holds.remove(order_id.0);
        assert(self@.holds =~= old(self)@.drop_hold(order_id).holds);
        r
    }

    fn has_account(&self, u: UserId) -> (r: bool)
        requires
            self.wf(),
        ensures
            r == self@.has(u),
    {
        self.accounts.contains_key(u.0)
    }

    /// Opens an account.
    pub fn add_user(&mut self, user_id: UserId) -> (r: Result<(), RejectReason>)
        requires
            old(self).wf(),
        ensures
            final(self).wf(),
            (final(self)@, r) == model::add_user(old(self)@, user_id),
    {
        if user_id == exchange_account() {
            return Err(RejectReason::UnsupportedCommand);
        }
        if self.accounts.contains_key(user_id.0) {
            return Err(RejectReason::UnsupportedCommand);
        }
        self.accounts.insert(user_id.0, UserAccount::new(user_id));
        assert(self@.accounts =~= model::add_user(old(self)@, user_id).0.accounts);
        Ok(())
    }

    fn set_suspended(&mut self, user_id: UserId, suspended: bool) -> (r: Result<(), RejectReason>)
        requires
            old(self).wf(),
        ensures
            final(self).wf(),
            (final(self)@, r) == model::set_suspended(old(self)@, user_id, suspended),
    {
        let r = match self.accounts.get_mut(user_id.0) {
            Some(a) => {
                a.set_suspended(suspended);
                Ok(())
            },
            None => Err(RejectReason::UnknownUser),
        };
        assert(self@.accounts =~= model::set_suspended(
            old(self)@,
            user_id,
            suspended,
        ).0.accounts);
        r
    }

    /// Keeps a user from placing orders.
    pub fn suspend(&mut self, user_id: UserId) -> (r: Result<(), RejectReason>)
        requires
            old(self).wf(),
        ensures
            final(self).wf(),
            (final(self)@, r) == model::set_suspended(old(self)@, user_id, true),
    {
        self.set_suspended(user_id, true)
    }

    /// Lets a user place orders again.
    pub fn resume(&mut self, user_id: UserId) -> (r: Result<(), RejectReason>)
        requires
            old(self).wf(),
        ensures
            final(self).wf(),
            (final(self)@, r) == model::set_suspended(old(self)@, user_id, false),
    {
        self.set_suspended(user_id, false)
    }

    /// A deposit or a withdrawal. One that was accepted before is refused and changes
    /// nothing.
    pub fn adjust_balance(&mut self, cmd: &AdjustBalance) -> (r: Result<(), RejectReason>)
        requires
            old(self).wf(),
            model::adjust_balance(old(self)@, *cmd).0.exact,
        ensures
            final(self).wf(),
            (final(self)@, r) == model::adjust_balance(old(self)@, *cmd),
    {
        if !self.has_account(cmd.user_id) {
            return Err(RejectReason::UnknownUser);
        }
        let t = Transfer {
            user_id: cmd.user_id,
            currency_id: cmd.currency_id,
            transaction_id: cmd.transaction_id,
        };
        if self.transfers.contains(t) {
            return Err(RejectReason::UnsupportedCommand);
        }
        if cmd.delta.0 >= 0 {
            self.credit(cmd.user_id, cmd.currency_id, cmd.delta);
        } else {
            let amount = Amount(-cmd.delta.0);
            if !self.debit(cmd.user_id, cmd.currency_id, amount) {
                return Err(RejectReason::InsufficientFunds);
            }
        }
        self.transfers.insert(t);
        Ok(())
    }

    pub fn account(&self, user_id: UserId) -> (r: Option<&UserAccount>)
        requires
            self.wf(),
        ensures
            r.is_some() == self@.has(user_id),
            r matches Some(a) ==> a.wf() && *a == self.book(user_id) && a@
                == self@.accounts[user_id],
    {
        self.accounts.get(user_id.0)
    }

    /// The account of a user.
    pub closed spec fn book(&self, user_id: UserId) -> UserAccount {
        self.accounts@[user_id.0]
    }

    pub fn hold(&self, order_id: OrderId) -> (r: Option<&Hold>)
        requires
            self.wf(),
        ensures
            r == (if self@.holds.contains_key(order_id) {
                Some(&self@.holds[order_id])
            } else {
                None
            }),
    {
        self.holds.get(order_id.0)
    }

    /// Gives a whole reservation back.
    pub fn release_hold(&mut self, order_id: OrderId) -> (r: Result<(), RejectReason>)
        requires
            old(self).wf(),
            model::release_hold(old(self)@, order_id).0.exact,
        ensures
            final(self).wf(),
            (final(self)@, r) == model::release_hold(old(self)@, order_id),
    {
        let h = match self.take_hold(order_id) {
            Some(h) => h,
            None => {
                return Ok(());
            },
        };
        if !self.has_account(h.user_id) {
            return Err(RejectReason::UnknownUser);
        }
        self.sub_hold(h.user_id, h.currency, h.remaining_amount);
        self.credit(h.user_id, h.currency, h.remaining_amount);
        Ok(())
    }

    /// Gives the part of a reservation back that belongs to a part of its order.
    /// The rest of the reservation stays.
    pub fn partial_release_hold(&mut self, order_id: OrderId, size_to_release: Size) -> (r: Result<
        (),
        RejectReason,
    >)
        requires
            old(self).wf(),
            model::partial_release_hold(old(self)@, order_id, size_to_release).0.exact,
        ensures
            final(self).wf(),
            (final(self)@, r) == model::partial_release_hold(
                old(self)@,
                order_id,
                size_to_release,
            ),
    {
        let h: Hold = match self.holds.get(order_id.0) {
            Some(h) => *h,
            None => {
                return Ok(());
            },
        };
        if size_to_release.0 <= 0 || h.remaining_size.0 <= 0 {
            return Ok(());
        }
        let part: i64 = if size_to_release.0 <= h.remaining_size.0 {
            size_to_release.0
        } else {
            h.remaining_size.0
        };
        proof {
            numeric::lemma_product_fits(h.remaining_amount.0, part);
            lemma_share_bound(h.remaining_amount.0 as int, part as int, h.remaining_size.0 as int);
        }
        let product: i128 = h.remaining_amount.0 as i128 * part as i128;
        let amount: i64 = math::trunc_div(product, h.remaining_size.0 as i128) as i64;
        let mut smaller = h;
        smaller.remaining_size = Size(h.remaining_size.0 - part);
        smaller.remaining_amount = Amount(h.remaining_amount.0 - amount);
        self.holds.insert(order_id.0, smaller);
        proof {
            assert(self@.holds =~= old(self)@.holds.insert(order_id, smaller));
        }
        if !self.has_account(h.user_id) {
            return Err(RejectReason::UnknownUser);
        }
        self.sub_hold(h.user_id, h.currency, Amount(amount));
        self.credit(h.user_id, h.currency, Amount(amount));
        Ok(())
    }
}

/// `price` times `size` over the scale of the base currency.
fn quote_amount(price: Price, size: Size, spec: &SymbolSpec) -> (r: Option<Amount>)
    ensures
        r.is_some() == model::quoted(price.0 as int, size.0 as int, *spec).is_some(),
        r matches Some(a) ==> Some(a.0 as int) == model::quoted(
            price.0 as int,
            size.0 as int,
            *spec,
        ),
{
    proof {
        numeric::lemma_product_fits(price.0, size.0);
    }
    Amount::from_scaled_i128(price.mul_size(size), spec.base_minor_per_major as i128)
}

/// A rate of an amount, rounded up.
fn rate(amount: Option<Amount>, bps: Bps) -> (r: Option<Amount>)
    ensures
        word(r) == model::rated(word(amount), bps),
{
    match amount {
        Some(a) => a.mul_bps_ceil(bps),
        None => None,
    }
}

/// The sum of two amounts.
fn plus(a: Option<Amount>, b: Option<Amount>) -> (r: Option<Amount>)
    ensures
        word(r) == model::summed(word(a), word(b)),
{
    match a {
        Some(x) => match b {
            Some(y) => x.checked_add(y),
            None => None,
        },
        None => None,
    }
}

/// The first amount less the second.
fn minus(a: Option<Amount>, b: Option<Amount>) -> (r: Option<Amount>)
    ensures
        word(r) == model::less(word(a), word(b)),
{
    match a {
        Some(x) => match b {
            Some(y) => x.checked_sub(y),
            None => None,
        },
        None => None,
    }
}

/// An amount as a number.
spec fn word(a: Option<Amount>) -> Option<int> {
    match a {
        Some(x) => Some(x.0 as int),
        None => None,
    }
}

/// Magnitude of a word; the lowest word is its own.
fn word_abs(x: i64) -> (r: i64)
    ensures
        r == model::word_abs(x as int),
{
    if x >= 0 || x == i64::MIN {
        x
    } else {
        -x
    }
}

/// Why an order is refused whoever places it, if it is.
fn order_refusal(cmd: &PlaceOrder, spec: &SymbolSpec) -> (r: Option<RejectReason>)
    ensures
        r == model::order_refusal(*cmd, *spec),
{
    if spec.is_suspended {
        return Some(RejectReason::SymbolSuspended);
    }
    if !cmd.size.is_positive() {
        return Some(RejectReason::SizeBelowMinimum);
    }
    if cmd.size.0 < spec.min_order_size.0 {
        return Some(RejectReason::SizeBelowMinimum);
    }
    if cmd.size.0 > spec.max_order_size.0 {
        return Some(RejectReason::SizeAboveMaximum);
    }
    let price = match cmd.price {
        Some(p) => p,
        None => {
            return Some(RejectReason::MissingPrice);
        },
    };
    if spec.tick_size.0 > 0 && !math::is_multiple(price.0, spec.tick_size.0) {
        return Some(RejectReason::PriceTickMisaligned);
    }
    if spec.lot_size.0 > 0 && !math::is_multiple(cmd.size.0, spec.lot_size.0) {
        return Some(RejectReason::SizeLotMisaligned);
    }
    match spec.price_band.reference_price {
        Some(reference) => {
            match spec.price_band.upper_bps_from_ref {
                Some(up) => {
                    let factor: i64 = 10_000 + up.0 as i64;
                    proof {
                        numeric::lemma_product_fits(reference.0, factor);
                    }
                    let limit: i128 = math::trunc_div(
                        reference.0 as i128 * factor as i128,
                        10_000,
                    );
                    if price.0 as i128 > limit {
                        return Some(RejectReason::PriceBandViolation);
                    }
                },
                None => {},
            }
            match spec.price_band.lower_bps_from_ref {
                Some(down) => {
                    let factor: i64 = 10_000 - down.0 as i64;
                    proof {
                        numeric::lemma_product_fits(reference.0, factor);
                    }
                    if price.0 as i128 * 10_000 < reference.0 as i128 * factor as i128 {
                        return Some(RejectReason::PriceBandViolation);
                    }
                },
                None => {},
            }
        },
        None => {},
    }
    None
}

impl RiskEngine {
    /// Moves a hold's amount from free to reserved and records the hold.
    fn lock(&mut self, h: Hold, short: RejectReason) -> (r: Result<(), RejectReason>)
        requires
            old(self).wf(),
            old(self)@.has(h.user_id),
            model::lock(old(self)@, h, short).0.exact,
        ensures
            final(self).wf(),
            (final(self)@, r) == model::lock(old(self)@, h, short),
    {
        if !self.debit(h.user_id, h.currency, h.remaining_amount) {
            return Err(short);
        }
        self.add_hold(h.user_id, h.currency, h.remaining_amount);
        self.put_hold(h);
        Ok(())
    }

    /// Reserves funds for a spot order.
    fn pre_check_spot(
        &mut self,
        cmd: &PlaceOrder,
        spec: &SymbolSpec,
        price: Price,
        order_id: OrderId,
    ) -> (r: Result<(), RejectReason>)
        requires
            old(self).wf(),
            old(self)@.has(cmd.user_id),
            model::pre_check_spot(old(self)@, *cmd, *spec, price, order_id).0.exact,
        ensures
            final(self).wf(),
            (final(self)@, r) == model::pre_check_spot(
                old(self)@,
                *cmd,
                *spec,
                price,
                order_id,
            ),
    {
        let (currency, amount, bid_reserve_price) = match cmd.side {
            Side::Bid => {
                let at: Price = match cmd.reserve_price {
                    Some(p) => p,
                    None => price,
                };
                if at.0 < price.0 {
                    return Err(RejectReason::InvalidReservePrice);
                }
                let gross = quote_amount(at, cmd.size, spec);
                match plus(gross, rate(gross, spec.fee_schedule.taker_bps)) {
                    Some(a) => (spec.quote_currency, a, Some(at)),
                    None => {
                        return Err(RejectReason::ArithmeticOverflow);
                    },
                }
            },
            Side::Ask => (spec.base_currency, Amount(cmd.size.0), None),
        };
        self.lock(
            Hold {
                user_id: cmd.user_id,
                symbol_id: cmd.symbol_id,
                order_id,
                side: cmd.side,
                currency,
                remaining_size: cmd.size,
                remaining_amount: amount,
                pre_check_fee_bps: spec.fee_schedule.taker_bps,
                kind: HoldKind::Spot { bid_reserve_price },
            },
            RejectReason::InsufficientFunds,
        )
    }

    /// Reserves margin and fee for a derivative order.
    fn pre_check_derivative(
        &mut self,
        cmd: &PlaceOrder,
        spec: &SymbolSpec,
        imr: Bps,
        price: Price,
        order_id: OrderId,
    ) -> (r: Result<(), RejectReason>)
        requires
            old(self).wf(),
            old(self)@.has(cmd.user_id),
            cmd.size.0 > 0,
            model::pre_check_derivative(old(self)@, *cmd, *spec, imr, price, order_id).0.exact,
        ensures
            final(self).wf(),
            (final(self)@, r) == model::pre_check_derivative(
                old(self)@,
                *cmd,
                *spec,
                imr,
                price,
                order_id,
            ),
    {
        let p = self.position_of(cmd.user_id, cmd.symbol_id);
        let order_signed: i64 = match cmd.side {
            Side::Bid => cmd.size.0,
            Side::Ask => -cmd.size.0,
        };
        let target: i64 = word_abs(p.size.0 + order_signed);
        let required = match rate(quote_amount(price, Size(target), spec), imr) {
            Some(a) => a,
            None => {
                return Err(RejectReason::ArithmeticOverflow);
            },
        };
        let more: i64 = numeric::saturating_diff(required.0, p.margin_locked.0);
        let margin = Amount(
            if more > 0 {
                more
            } else {
                0
            },
        );
        let fee = match rate(
            quote_amount(price, cmd.size, spec),
            spec.fee_schedule.taker_bps,
        ) {
            Some(a) => a,
            None => {
                return Err(RejectReason::ArithmeticOverflow);
            },
        };
        let to_lock = match margin.checked_add(fee) {
            Some(a) => a,
            None => {
                return Err(RejectReason::ArithmeticOverflow);
            },
        };
        self.lock(
            Hold {
                user_id: cmd.user_id,
                symbol_id: cmd.symbol_id,
                order_id,
                side: cmd.side,
                currency: spec.quote_currency,
                remaining_size: cmd.size,
                remaining_amount: to_lock,
                pre_check_fee_bps: spec.fee_schedule.taker_bps,
                kind: HoldKind::Derivative {
                    reserve_margin: margin,
                    reserve_fee: fee,
                    original_size: cmd.size,
                    ref_price: price,
                },
            },
            RejectReason::InsufficientMargin,
        )
    }

    /// Checks an order and reserves what it may cost.
    pub fn pre_check_place(
        &mut self,
        cmd: &PlaceOrder,
        spec: &SymbolSpec,
        order_id: OrderId,
    ) -> (r: Result<(), RejectReason>)
        requires
            old(self).wf(),
            model::pre_check_place(old(self)@, *cmd, *spec, order_id).0.exact,
        ensures
            final(self).wf(),
            (final(self)@, r) == model::pre_check_place(old(self)@, *cmd, *spec, order_id),
    {
        match order_refusal(cmd, spec) {
            Some(reason) => {
                return Err(reason);
            },
            None => {},
        }
        let price: Price = match cmd.price {
            Some(p) => p,
            None => {
                return Err(RejectReason::MissingPrice);
            },
        };
        match self.account(cmd.user_id) {
            Some(a) => {
                if a.is_suspended() {
                    return Err(RejectReason::UserSuspended);
                }
            },
            None => {
                return Err(RejectReason::UnknownUser);
            },
        }
        match spec.kind_params {
            SymbolKindParams::Spot => self.pre_check_spot(cmd, spec, price, order_id),
            SymbolKindParams::PerpetualSwap(p) => self.pre_check_derivative(
                cmd,
                spec,
                p.initial_margin_bps,
                price,
                order_id,
            ),
            SymbolKindParams::Future(f) => self.pre_check_derivative(
                cmd,
                spec,
                f.initial_margin_bps,
                price,
                order_id,
            ),
        }
    }

    /// Draws a reservation down by a fill and dissolves it when its order is
    /// filled.
    fn draw_down(&mut self, hold: Hold, amount: Amount, size: Size) -> (r: Option<Hold>)
        requires
            old(self).wf(),
            old(self)@.has(hold.user_id),
            model::drawn_down(old(self)@, hold, amount.0 as int, size.0 as int).0.exact,
        ensures
            final(self).wf(),
            (final(self)@, Ok::<Option<Hold>, RejectReason>(r)) == model::drawn_down(
                old(self)@,
                hold,
                amount.0 as int,
                size.0 as int,
            ),
    {
        let left = Amount(hold.remaining_amount.0 - amount.0);
        let open = Size(hold.remaining_size.0 - size.0);
        if open.is_zero() {
            if !left.is_zero() {
                self.sub_hold(hold.user_id, hold.currency, left);
                self.credit(hold.user_id, hold.currency, left);
            }
            None
        } else {
            let mut rest = hold;
            rest.remaining_amount = left;
            rest.remaining_size = open;
            Some(rest)
        }
    }

    /// Settles one side of a spot trade.
    fn settle_spot(&mut self, trade: &Trade, hold: Hold, is_taker: bool, spec: &SymbolSpec) -> (r:
        Result<Option<Hold>, RejectReason>)
        requires
            old(self).wf(),
            model::settle_spot(old(self)@, *trade, hold, is_taker, *spec).0.exact,
        ensures
            final(self).wf(),
            (final(self)@, r) == model::settle_spot(old(self)@, *trade, hold, is_taker, *spec),
    {
        proof {
            self.lemma_ledger();
        }
        let u = hold.user_id;
        let fee_bps = if is_taker {
            spec.fee_schedule.taker_bps
        } else {
            spec.fee_schedule.maker_bps
        };
        match hold.side {
            Side::Bid => {
                let reserve: Price = match hold.kind {
                    HoldKind::Spot { bid_reserve_price: Some(p) } => p,
                    _ => {
                        return Err(RejectReason::InvalidOrderBookState);
                    },
                };
                let gross = quote_amount(reserve, trade.size, spec);
                let release = plus(gross, rate(gross, hold.pre_check_fee_bps));
                let cost = quote_amount(trade.price, trade.size, spec);
                let fee = rate(cost, fee_bps);
                let slack = minus(release, plus(cost, fee));
                let (release, slack, fee) = match (release, slack, fee) {
                    (Some(a), Some(b), Some(c)) => (a, b, c),
                    _ => {
                        return Err(RejectReason::ArithmeticOverflow);
                    },
                };
                if !self.has_account(u) {
                    return Err(RejectReason::UnknownUser);
                }
                self.sub_hold(u, hold.currency, release);
                self.credit(u, hold.currency, slack);
                self.credit(u, spec.base_currency, Amount(trade.size.0));
                self.credit(exchange_account(), spec.quote_currency, fee);
                Ok(self.draw_down(hold, release, trade.size))
            },
            Side::Ask => {
                let proceeds = quote_amount(trade.price, trade.size, spec);
                let fee = rate(proceeds, fee_bps);
                let (net, fee) = match (minus(proceeds, fee), fee) {
                    (Some(a), Some(b)) => (a, b),
                    _ => {
                        return Err(RejectReason::ArithmeticOverflow);
                    },
                };
                if !self.has_account(u) {
                    return Err(RejectReason::UnknownUser);
                }
                self.sub_hold(u, hold.currency, Amount(trade.size.0));
                self.credit(u, spec.quote_currency, net);
                self.credit(exchange_account(), spec.quote_currency, fee);
                Ok(self.draw_down(hold, Amount(trade.size.0), trade.size))
            },
        }
    }

    /// Takes an amount out of a reservation and pays another one. What is left
    /// over becomes free, what is missing comes from the free balance; says
    /// whether that covered it.
    fn pay_from_reserve(&mut self, u: UserId, c: CurrencyId, reserved: Amount, cost: Amount) -> (r:
        bool)
        requires
            old(self).wf(),
            old(self)@.has(u),
            model::pay_from_reserve(
                old(self)@,
                u,
                c,
                reserved.0 as int,
                cost.0 as int,
            ).0.exact,
        ensures
            final(self).wf(),
            (final(self)@, r) == model::pay_from_reserve(
                old(self)@,
                u,
                c,
                reserved.0 as int,
                cost.0 as int,
            ),
            final(self)@.has(u),
    {
        self.sub_hold(u, c, reserved);
        if cost.0 > reserved.0 {
            self.debit(u, c, Amount(cost.0 - reserved.0))
        } else {
            self.credit(u, c, Amount(numeric::saturating_diff(reserved.0, cost.0)));
            true
        }
    }

    /// A fill that opens a position or adds to it.
    fn settle_derivative_open(
        &mut self,
        trade: &Trade,
        hold: &Hold,
        notional: Amount,
        fee: Amount,
        reserved: Amount,
        imr: Bps,
        spec: &SymbolSpec,
    ) -> (r: Result<(), RejectReason>)
        requires
            old(self).wf(),
            old(self)@.has(hold.user_id),
            trade.size.0 != i64::MIN,
            model::settle_open(
                old(self)@,
                *trade,
                *hold,
                notional.0 as int,
                fee.0 as int,
                reserved.0 as int,
                imr,
                *spec,
            ).0.exact,
        ensures
            final(self).wf(),
            (final(self)@, r) == model::settle_open(
                old(self)@,
                *trade,
                *hold,
                notional.0 as int,
                fee.0 as int,
                reserved.0 as int,
                imr,
                *spec,
            ),
    {
        proof {
            self.lemma_ledger();
        }
        let u = hold.user_id;
        let margin = rate(Some(notional), imr);
        let cost = match plus(margin, Some(fee)) {
            Some(a) => a,
            None => {
                return Err(RejectReason::ArithmeticOverflow);
            },
        };
        let margin = match margin {
            Some(a) => a,
            None => {
                return Err(RejectReason::ArithmeticOverflow);
            },
        };
        if !self.pay_from_reserve(u, hold.currency, reserved, cost) {
            return Err(RejectReason::InsufficientMargin);
        }
        let p = self.position_of(u, hold.symbol_id);
        let added: i64 = match hold.side {
            Side::Bid => trade.size.0,
            Side::Ask => -trade.size.0,
        };
        let size: i64 = p.size.0 + added;
        let entry: i64 = if size == 0 {
            0
        } else if p.size.0 == 0 {
            trade.price.0
        } else {
            let prev: i64 = word_abs(p.size.0);
            proof {
                numeric::lemma_product_fits(prev, p.entry_price.0);
                lemma_product_below(trade.size.0, trade.price.0);
            }
            let before: i128 = prev as i128 * p.entry_price.0 as i128;
            let filled: i128 = trade.size.0 as i128 * trade.price.0 as i128;
            let whole: i128 = if size >= 0 {
                size as i128
            } else {
                -(size as i128)
            };
            math::trunc_div(before + filled, whole) as i64
        };
        let q = Position {
            size: Size(size),
            entry_price: Price(entry),
            margin_locked: Amount(p.margin_locked.0 + margin.0),
            margin_currency: hold.currency,
        };
        self.set_position(u, hold.symbol_id, q);
        self.credit(exchange_account(), spec.quote_currency, fee);
        Ok(())
    }

    /// A fill that closes a position and opens one in the other direction.
    fn settle_derivative_flip(
        &mut self,
        trade: &Trade,
        hold: &Hold,
        fee: Amount,
        reserved: Amount,
        imr: Bps,
        spec: &SymbolSpec,
    ) -> (r: Result<(), RejectReason>)
        requires
            old(self).wf(),
            old(self)@.has(hold.user_id),
            trade.size.0 != i64::MIN,
            spec.base_minor_per_major != 0,
            model::settle_flip(
                old(self)@,
                *trade,
                *hold,
                fee.0 as int,
                reserved.0 as int,
                imr,
                *spec,
            ).0.exact,
        ensures
            final(self).wf(),
            (final(self)@, r) == model::settle_flip(
                old(self)@,
                *trade,
                *hold,
                fee.0 as int,
                reserved.0 as int,
                imr,
                *spec,
            ),
    {
        proof {
            self.lemma_ledger();
        }
        let u = hold.user_id;
        let p = self.position_of(u, hold.symbol_id);
        let added: i64 = match hold.side {
            Side::Bid => trade.size.0,
            Side::Ask => -trade.size.0,
        };
        let closed: i64 = word_abs(p.size.0);
        let opened: i64 = word_abs(added) - closed;
        let gain: i64 = profit(&p, closed, trade.price, spec);
        let margin = match rate(quote_amount(trade.price, Size(opened), spec), imr) {
            Some(a) => a,
            None => {
                return Err(RejectReason::ArithmeticOverflow);
            },
        };
        let target = match margin.checked_add(fee) {
            Some(a) => a,
            None => {
                self.sub_hold(u, hold.currency, reserved);
                return Err(RejectReason::ArithmeticOverflow);
            },
        };
        if !self.pay_from_reserve(u, hold.currency, reserved, target) {
            return Err(RejectReason::InsufficientMargin);
        }
        self.credit(u, hold.currency, Amount(p.margin_locked.0 + gain));
        let q = Position {
            size: Size(
                if added > 0 {
                    opened
                } else {
                    -opened
                },
            ),
            entry_price: trade.price,
            margin_locked: margin,
            margin_currency: hold.currency,
        };
        self.set_position(u, hold.symbol_id, q);
        self.credit(exchange_account(), spec.quote_currency, fee);
        Ok(())
    }

    /// A fill that makes a position smaller.
    fn settle_derivative_reduce(
        &mut self,
        trade: &Trade,
        hold: &Hold,
        fee: Amount,
        reserved: Amount,
        spec: &SymbolSpec,
    ) -> (r: Result<(), RejectReason>)
        requires
            old(self).wf(),
            old(self)@.has(hold.user_id),
            trade.size.0 != i64::MIN,
            spec.base_minor_per_major != 0,
            old(self)@.accounts[hold.user_id].position_in(hold.symbol_id).size.0 != 0,
            model::settle_reduce(
                old(self)@,
                *trade,
                *hold,
                fee.0 as int,
                reserved.0 as int,
                *spec,
            ).0.exact,
        ensures
            final(self).wf(),
            (final(self)@, r) == model::settle_reduce(
                old(self)@,
                *trade,
                *hold,
                fee.0 as int,
                reserved.0 as int,
                *spec,
            ),
    {
        proof {
            self.lemma_ledger();
        }
        let u = hold.user_id;
        if !self.pay_from_reserve(u, hold.currency, reserved, fee) {
            return Err(RejectReason::InsufficientFunds);
        }
        let p = self.position_of(u, hold.symbol_id);
        let added: i64 = match hold.side {
            Side::Bid => trade.size.0,
            Side::Ask => -trade.size.0,
        };
        let left: i64 = p.size.0 + added;
        let gain: i64 = profit(&p, trade.size.0, trade.price, spec);
        proof {
            numeric::lemma_product_fits(p.margin_locked.0, trade.size.0);
        }
        let freed: i64 = math::trunc_div(
            p.margin_locked.0 as i128 * trade.size.0 as i128,
            word_abs(p.size.0) as i128,
        ) as i64;
        let kept: i64 = numeric::saturating_diff(p.margin_locked.0, freed);
        let q = Position {
            size: Size(left),
            entry_price: if left == 0 {
                Price(0)
            } else {
                p.entry_price
            },
            margin_locked: Amount(kept),
            margin_currency: p.margin_currency,
        };
        self.set_position(u, hold.symbol_id, q);
        self.add_signed(u, spec.quote_currency, freed, gain);
        self.credit(exchange_account(), spec.quote_currency, fee);
        Ok(())
    }

    /// Adds two amounts to a free balance, the first one first.
    fn add_signed(&mut self, u: UserId, c: CurrencyId, first: i64, second: i64)
        requires
            old(self).wf(),
            old(self)@.has(u),
            math::fits_i64(old(self)@.accounts[u].free[c] + first),
            old(self)@.credit(u, c, first + second).exact,
        ensures
            final(self).wf(),
            final(self)@ == old(self)@.credit(u, c, first + second),
    {
        self.credit(u, c, Amount(first));
        self.credit(u, c, Amount(second));
        assert(self@.accounts =~= old(self)@.credit(u, c, first + second).accounts) by {
            let a = old(self)@.accounts[u];
            assert(a.credited(c, first as int).credited(c, second as int).free =~= a.credited(
                c,
                first + second,
            ).free);
        }
    }

    /// Settles one side of a derivative trade.
    #[verifier::rlimit(30)]
    fn settle_derivative(&mut self, trade: &Trade, hold: Hold, is_taker: bool, spec: &SymbolSpec) -> (r:
        Result<Option<Hold>, RejectReason>)
        requires
            old(self).wf(),
            model::settle_derivative(old(self)@, *trade, hold, is_taker, *spec).0.exact,
        ensures
            final(self).wf(),
            (final(self)@, r) == model::settle_derivative(
                old(self)@,
                *trade,
                hold,
                is_taker,
                *spec,
            ),
    {
        let (reserve_margin, reserve_fee, original_size) = match hold.kind {
            HoldKind::Derivative { reserve_margin, reserve_fee, original_size, ref_price } => (
                reserve_margin,
                reserve_fee,
                original_size,
            ),
            _ => {
                return Err(RejectReason::InvalidOrderBookState);
            },
        };
        let imr = match spec.kind_params {
            SymbolKindParams::PerpetualSwap(p) => p.initial_margin_bps,
            SymbolKindParams::Future(f) => f.initial_margin_bps,
            SymbolKindParams::Spot => {
                return Err(RejectReason::InvalidOrderBookState);
            },
        };
        if !self.has_account(hold.user_id) {
            return Err(RejectReason::UnknownUser);
        }
        let p = self.position_of(hold.user_id, hold.symbol_id);
        proof {
            lemma_settled_exact(self@, *trade, hold, is_taker, *spec);
        }
        let added: i64 = match hold.side {
            Side::Bid => trade.size.0,
            Side::Ask => -trade.size.0,
        };
        let against: bool = p.size.0 != 0 && (p.size.0 > 0) != (added > 0);
        let flips: bool = against && word_abs(added) > word_abs(p.size.0);
        let fee_share: i64 = share(reserve_fee, trade.size, original_size);
        let margin_share: i64 = share(reserve_margin, trade.size, original_size);
        let reserved = match Amount(margin_share).checked_add(Amount(fee_share)) {
            Some(a) => a,
            None => {
                return Err(RejectReason::ArithmeticOverflow);
            },
        };
        let fee_bps = if is_taker {
            spec.fee_schedule.taker_bps
        } else {
            spec.fee_schedule.maker_bps
        };
        let notional = match quote_amount(trade.price, trade.size, spec) {
            Some(a) => a,
            None => {
                return Err(RejectReason::ArithmeticOverflow);
            },
        };
        let fee = match notional.mul_bps_ceil(fee_bps) {
            Some(a) => a,
            None => {
                return Err(RejectReason::ArithmeticOverflow);
            },
        };
        let r = if flips {
            self.settle_derivative_flip(trade, &hold, fee, reserved, imr, spec)
        } else if against {
            self.settle_derivative_reduce(trade, &hold, fee, reserved, spec)
        } else {
            self.settle_derivative_open(trade, &hold, notional, fee, reserved, imr, spec)
        };
        match r {
            Err(e) => Err(e),
            Ok(_) => Ok(self.draw_down(hold, reserved, trade.size)),
        }
    }

    /// Settles one side of a trade.
    fn settle_side(&mut self, trade: &Trade, hold: Hold, is_taker: bool, spec: &SymbolSpec) -> (r:
        Result<Option<Hold>, RejectReason>)
        requires
            old(self).wf(),
            model::settle_side(old(self)@, *trade, hold, is_taker, *spec).0.exact,
        ensures
            final(self).wf(),
            (final(self)@, r) == model::settle_side(old(self)@, *trade, hold, is_taker, *spec),
    {
        match hold.kind {
            HoldKind::Spot { bid_reserve_price } => self.settle_spot(trade, hold, is_taker, spec),
            HoldKind::Derivative { reserve_margin, reserve_fee, original_size, ref_price } =>
                self.settle_derivative(trade, hold, is_taker, spec),
        }
    }

    /// Settles both sides of a trade.
    pub fn apply_trade(&mut self, trade: &Trade, spec: &SymbolSpec) -> (r: Result<(), RejectReason>)
        requires
            old(self).wf(),
            model::apply_trade(old(self)@, *trade, *spec).0.exact,
        ensures
            final(self).wf(),
            (final(self)@, r) == model::apply_trade(old(self)@, *trade, *spec),
    {
        proof {
            lemma_trade_exact(self@, *trade, *spec);
        }
        let taker_hold = match self.take_hold(trade.taker_order_id) {
            Some(h) => h,
            None => {
                return Err(RejectReason::InvalidOrderBookState);
            },
        };
        let maker_hold = match self.take_hold(trade.maker_order_id) {
            Some(h) => h,
            None => {
                return Err(RejectReason::InvalidOrderBookState);
            },
        };
        let taker = match self.settle_side(trade, taker_hold, true, spec) {
            Ok(h) => h,
            Err(e) => {
                return Err(e);
            },
        };
        let maker = match self.settle_side(trade, maker_hold, false, spec) {
            Ok(h) => h,
            Err(e) => {
                return Err(e);
            },
        };
        match taker {
            Some(h) => {
                self.put_hold(h);
            },
            None => {},
        }
        match maker {
            Some(h) => {
                self.put_hold(h);
            },
            None => {},
        }
        Ok(())
    }
}

/// Settling one side exactly takes an exact ledger.
pub proof fn lemma_side_exact(s: Ledger, trade: Trade, h: Hold, is_taker: bool, spec: SymbolSpec)
    requires
        model::settle_side(s, trade, h, is_taker, spec).0.exact,
    ensures
        s.exact,
{
}

/// Where a trade settles exactly, each of its steps does.
pub proof fn lemma_trade_exact(s: Ledger, trade: Trade, spec: SymbolSpec)
    requires
        model::apply_trade(s, trade, spec).0.exact,
    ensures
        s.exact,
        s.holds.contains_key(trade.taker_order_id) && s.drop_hold(
            trade.taker_order_id,
        ).holds.contains_key(trade.maker_order_id) ==> model::settle_side(
            s.drop_hold(trade.taker_order_id).drop_hold(trade.maker_order_id),
            trade,
            s.holds[trade.taker_order_id],
            true,
            spec,
        ).0.exact,
{
    if s.holds.contains_key(trade.taker_order_id) && s.drop_hold(
        trade.taker_order_id,
    ).holds.contains_key(trade.maker_order_id) {
        let s2 = s.drop_hold(trade.taker_order_id).drop_hold(trade.maker_order_id);
        let (s3, r) = model::settle_side(s2, trade, s.holds[trade.taker_order_id], true, spec);
        if r is Ok {
            lemma_side_exact(
                s3,
                trade,
                s.drop_hold(trade.taker_order_id).holds[trade.maker_order_id],
                false,
                spec,
            );
        }
        lemma_side_exact(s2, trade, s.holds[trade.taker_order_id], true, spec);
    }
}

/// Open profit of a whole position times the scale of its symbol, as the machine
/// forms it.
fn equity_of(p: &Position, mark: Price, spec: &SymbolSpec) -> (r: i128)
    requires
        spec.base_minor_per_major != 0,
    ensures
        r == p.margin_locked.0 + model::unrealized(*p, mark, *spec),
{
    let per_unit: i128 = if p.size.0 > 0 {
        mark.0 as i128 - p.entry_price.0 as i128
    } else {
        p.entry_price.0 as i128 - mark.0 as i128
    };
    let whole: i128 = if p.size.0 >= 0 {
        p.size.0 as i128
    } else {
        -(p.size.0 as i128)
    };
    proof {
        lemma_spread_magnitude(per_unit as int, whole as int);
        math::lemma_tdiv_bounds(per_unit * whole, spec.base_minor_per_major as int);
    }
    p.margin_locked.0 as i128 + math::trunc_div(
        per_unit * whole,
        spec.base_minor_per_major as i128,
    )
}

/// A price difference times a magnitude leaves room for a margin.
proof fn lemma_spread_magnitude(d: int, s: int)
    requires
        -0xffff_ffff_ffff_ffff <= d <= 0xffff_ffff_ffff_ffff,
        0 <= s <= 0x8000_0000_0000_0000,
    ensures
        -0x7fff_ffff_ffff_ffff_8000_0000_0000_0000 <= d * s
            <= 0x7fff_ffff_ffff_ffff_8000_0000_0000_0000,
{
    let a: int = 0xffff_ffff_ffff_ffff;
    let b: int = 0x8000_0000_0000_0000;
    assert(-(a * b) <= d * s <= a * b) by (nonlinear_arith)
        requires
            -a <= d <= a,
            0 <= s <= b,
    ;
    assert(a * b == 0x7fff_ffff_ffff_ffff_8000_0000_0000_0000);
}

impl RiskEngine {
    /// The users in the order in which a walk meets them.
    pub closed spec fn walk(&self) -> Seq<UserId> {
        Seq::new(self.accounts.key_order().len(), |i: int| UserId(self.accounts.key_order()[i]))
    }

    /// A walk meets each account once.
    pub proof fn lemma_walk(&self)
        requires
            self.wf(),
        ensures
            self.walk().no_duplicates(),
            forall|i: int| 0 <= i < self.walk().len() ==> self@.has(#[trigger] self.walk()[i]),
            forall|u: UserId| #[trigger] self@.has(u) ==> self.walk().contains(u),
            forall|u: UserId| #[trigger]
                self@.accounts.contains_key(u) ==> self.walk().contains(u),
            self@.accounts.dom().finite(),
    {
        self.accounts.lemma_key_order();
        let keys = self.accounts.key_order();
        let users = self.walk();
        assert forall|i: int| 0 <= i < users.len() implies self@.has(#[trigger] users[i]) by {
            assert(keys.contains(keys[i]));
        }
        assert forall|u: UserId| #[trigger] self@.has(u) implies users.contains(u) by {
            assert(self.accounts@.contains_key(u.0));
            let i = choose|i: int| 0 <= i < keys.len() && keys[i] == u.0;
            assert(users[i] == u);
        }
        assert forall|u: UserId| users.contains(u) implies self@.has(u) by {
            let i = choose|i: int| 0 <= i < users.len() && users[i] == u;
            assert(self@.has(users[i]));
        }
        assert forall|u: UserId| self@.accounts.dom().contains(u) == users.to_set().contains(u) by {
            assert(self@.has(u) == users.contains(u));
        }
        assert forall|u: UserId| #[trigger] self@.accounts.contains_key(u) implies users.contains(
            u,
        ) by {
            assert(self@.has(u));
        }
        assert(self@.accounts.dom() =~= users.to_set());
        vstd::seq_lib::seq_to_set_is_finite(users);
    }

    /// Closes the position of a user at a price: its margin and its profit
    /// become free.
    fn force_close_position(&mut self, user_id: UserId, spec: &SymbolSpec, close_price: Price) -> (r:
        Option<LiquidationReport>)
        requires
            old(self).wf(),
            old(self)@.has(user_id),
            model::closes(old(self)@.accounts[user_id], *spec, close_price, None)
                ==> model::can_close(old(self)@.accounts[user_id], *spec, close_price),
        ensures
            final(self).wf(),
            final(self).walk() == old(self).walk(),
            ({
                let a = old(self)@.accounts[user_id];
                if model::closes(a, *spec, close_price, None) {
                    &&& r == Some(model::close_report(user_id, a, *spec, close_price))
                    &&& final(self)@ == old(self)@.with_account(
                        user_id,
                        model::closed(a, *spec, close_price),
                    )
                } else {
                    r.is_none() && final(self)@ == old(self)@
                }
            }),
    {
        let p: Position = match self.accounts.get(user_id.0) {
            Some(a) => match a.position(spec.symbol_id) {
                Some(p) => *p,
                None => {
                    return None;
                },
            },
            None => {
                return None;
            },
        };
        if p.size.is_zero() {
            return None;
        }
        let size: i64 = word_abs(p.size.0);
        let gain: i64 = profit(&p, size, close_price, spec);
        let released: i64 = p.margin_locked.0;
        let q = Position {
            size: Size(0),
            entry_price: Price(0),
            margin_locked: Amount(0),
            margin_currency: p.margin_currency,
        };
        match self.accounts.get_mut(user_id.0) {
            Some(a) => {
                a.credit_free(spec.quote_currency, Amount(released));
                a.credit_free(spec.quote_currency, Amount(gain));
                a.set_position(spec.symbol_id, q);
            },
            None => {},
        }
        proof {
            let a = old(self)@.accounts[user_id];
            assert(a.credited(spec.quote_currency, released as int).credited(
                spec.quote_currency,
                gain as int,
            ).free =~= a.credited(spec.quote_currency, released + gain).free);
            assert(self@.accounts =~= old(self)@.accounts.insert(
                user_id,
                model::closed(a, *spec, close_price),
            ));
        }
        Some(
            LiquidationReport {
                user_id,
                symbol_id: spec.symbol_id,
                size_closed: Size(size),
                close_price,
                realized_pnl: Amount(gain),
                margin_released: Amount(released),
            },
        )
    }

    /// Whether margin and profit of a position no longer cover its maintenance
    /// margin.
    fn is_underwater(p: &Position, spec: &SymbolSpec, mark: Price, mmr: Bps) -> (r: bool)
        requires
            spec.base_minor_per_major != 0,
            i128::MIN <= model::notional_at(*p, mark, *spec) * mmr.0 <= i128::MAX,
        ensures
            r == model::underwater(*p, mark, *spec, mmr),
    {
        let whole: i128 = if p.size.0 >= 0 {
            p.size.0 as i128
        } else {
            -(p.size.0 as i128)
        };
        proof {
            lemma_spread_magnitude(mark.0 as int, whole as int);
        }
        let notional: i128 = math::trunc_div(
            mark.0 as i128 * whole,
            spec.base_minor_per_major as i128,
        );
        let needed: i128 = math::trunc_div(notional * mmr.0 as i128, 10_000);
        equity_of(p, mark, spec) < needed
    }

    /// Closes the open positions of a symbol at a price: all of them, or with a
    /// maintenance rate those that it no longer covers.
    fn sweep(&mut self, spec: &SymbolSpec, price: Price, below: Option<Bps>) -> (r: Vec<
        LiquidationReport,
    >)
        requires
            old(self).wf(),
            model::sweep(old(self)@, *spec, price, below).exact,
        ensures
            final(self).wf(),
            final(self)@ == model::sweep(old(self)@, *spec, price, below),
            final(self).walk() == old(self).walk(),
            r@ == model::sweep_reports(old(self)@, old(self).walk(), *spec, price, below),
    {
        let mut reports: Vec<LiquidationReport> = Vec::new();
        let n: usize = self.accounts.len();
        let mut i: usize = 0;
        let ghost s = self@;
        let ghost users = self.walk();
        proof {
            self.lemma_walk();
            assert(users.subrange(0, 0) =~= Seq::<UserId>::empty());
        }
        while i < n
            invariant
                self.wf(),
                i <= n,
                n == users.len(),
                self.walk() == users,
                users.no_duplicates(),
                forall|j: int| 0 <= j < users.len() ==> s.has(#[trigger] users[j]),
                forall|u: UserId| #[trigger] s.has(u) ==> users.contains(u),
                s.exact,
                model::sweep(s, *spec, price, below).exact,
                self@.holds == s.holds,
                self@.transfers == s.transfers,
                self@.accounts.dom() == s.accounts.dom(),
                forall|j: int|
                    0 <= j < i ==> self@.accounts[#[trigger] users[j]] == model::swept(
                        users[j],
                        s.accounts[users[j]],
                        *spec,
                        price,
                        below,
                    ),
                forall|j: int|
                    i <= j < n ==> self@.accounts[#[trigger] users[j]] == s.accounts[users[j]],
                reports@ == model::sweep_reports(
                    s,
                    users.subrange(0, i as int),
                    *spec,
                    price,
                    below,
                ),
            decreases n - i,
        {
            let user_id = UserId(self.accounts.key_at(i));
            proof {
                assert(user_id == users[i as int]);
                assert(s.has(user_id));
                assert(users.subrange(0, i + 1).drop_last() =~= users.subrange(0, i as int));
                assert(users.subrange(0, i + 1).last() == user_id);
            }
            if user_id != exchange_account() {
                let wanted: bool = match below {
                    None => true,
                    Some(mmr) => match self.accounts.get(user_id.0) {
                        Some(a) => match a.position(spec.symbol_id) {
                            Some(p) => if p.size.is_zero() {
                                false
                            } else {
                                Self::is_underwater(p, spec, price, mmr)
                            },
                            None => false,
                        },
                        None => false,
                    },
                };
                if wanted {
                    match self.force_close_position(user_id, spec, price) {
                        Some(report) => {
                            reports.push(report);
                        },
                        None => {},
                    }
                }
            }
            proof {
                assert(self@.accounts.dom() =~= s.accounts.dom());
            }
            i = i + 1;
        }
        proof {
            let t = model::sweep(s, *spec, price, below);
            assert forall|u: UserId| s.has(u) implies self@.accounts[u] == t.accounts[u] by {
                let j = choose|j: int| 0 <= j < users.len() && users[j] == u;
                assert(users[j] == u);
            }
            assert(self@.accounts =~= t.accounts);
            assert(users.subrange(0, i as int) =~= users);
        }
        reports
    }

    /// Closes at the mark every position whose margin and open profit are below
    /// its maintenance margin.
    pub fn scan_liquidations(&mut self, spec: &SymbolSpec, mark: Price) -> (r: Vec<
        LiquidationReport,
    >)
        requires
            old(self).wf(),
            model::liquidate(old(self)@, *spec, mark).exact,
        ensures
            final(self).wf(),
            final(self)@ == model::liquidate(old(self)@, *spec, mark),
            final(self).walk() == old(self).walk(),
            r@ == (match model::maintenance_margin(*spec) {
                Some(mmr) => model::sweep_reports(
                    old(self)@,
                    old(self).walk(),
                    *spec,
                    mark,
                    Some(mmr),
                ),
                None => Seq::empty(),
            }),
    {
        match spec.kind_params {
            SymbolKindParams::PerpetualSwap(p) => self.sweep(
                spec,
                mark,
                Some(p.maintenance_margin_bps),
            ),
            SymbolKindParams::Future(f) => self.sweep(spec, mark, Some(f.maintenance_margin_bps)),
            SymbolKindParams::Spot => Vec::new(),
        }
    }

    /// Closes every position of a symbol at its settlement price.
    pub fn settle_all_positions(&mut self, spec: &SymbolSpec, settlement_price: Price) -> (r: Vec<
        LiquidationReport,
    >)
        requires
            old(self).wf(),
            model::sweep(old(self)@, *spec, settlement_price, None).exact,
        ensures
            final(self).wf(),
            final(self)@ == model::sweep(old(self)@, *spec, settlement_price, None),
            final(self).walk() == old(self).walk(),
            r@ == model::sweep_reports(
                old(self)@,
                old(self).walk(),
                *spec,
                settlement_price,
                None,
            ),
    {
        self.sweep(spec, settlement_price, None)
    }

    /// What a user pays in a funding settlement, if it takes part.
    fn funding_payment(&self, user_id: UserId, spec: &SymbolSpec, mark: Price, rate_bps: i32) -> (r:
        i64)
        requires
            self.wf(),
            self@.has(user_id),
            model::can_fund(self@.accounts[user_id], *spec, mark, rate_bps as int),
        ensures
            r == (if model::funds(self@.accounts[user_id], *spec, mark, rate_bps as int) {
                model::funding_of(self@.accounts[user_id], *spec, mark, rate_bps as int)
            } else {
                0
            }),
    {
        let p: Position = match self.accounts.get(user_id.0) {
            Some(a) => match a.position(spec.symbol_id) {
                Some(p) => *p,
                None => {
                    return 0;
                },
            },
            None => {
                return 0;
            },
        };
        if p.size.is_zero() {
            return 0;
        }
        proof {
            numeric::lemma_product_fits(p.size.0, mark.0);
        }
        let notional: i128 = p.size.0 as i128 * mark.0 as i128;
        let scaled: i128 = math::trunc_div(
            notional * rate_bps as i128,
            spec.base_minor_per_major as i128,
        );
        math::trunc_div(scaled, 10_000) as i64
    }

    /// Lets longs pay shorts, or the other way round where the rate is
    /// negative, at the mark.
    pub fn apply_funding(&mut self, spec: &SymbolSpec, mark: Price, rate_bps: i32) -> (r: Vec<
        FundingReport,
    >)
        requires
            old(self).wf(),
            model::apply_funding(old(self)@, *spec, mark, rate_bps as int).exact,
        ensures
            final(self).wf(),
            final(self)@ == model::apply_funding(old(self)@, *spec, mark, rate_bps as int),
            final(self).walk() == old(self).walk(),
            r@ == model::funding_reports(
                old(self)@,
                old(self).walk(),
                *spec,
                mark,
                rate_bps as int,
            ),
    {
        let mut reports: Vec<FundingReport> = Vec::new();
        let n: usize = self.accounts.len();
        let mut i: usize = 0;
        let ghost s = self@;
        let ghost users = self.walk();
        let ghost rate = rate_bps as int;
        proof {
            self.lemma_walk();
            assert(users.subrange(0, 0) =~= Seq::<UserId>::empty());
        }
        while i < n
            invariant
                self.wf(),
                i <= n,
                n == users.len(),
                self.walk() == users,
                users.no_duplicates(),
                rate == rate_bps as int,
                forall|j: int| 0 <= j < users.len() ==> s.has(#[trigger] users[j]),
                forall|u: UserId| #[trigger] s.has(u) ==> users.contains(u),
                s.exact,
                model::apply_funding(s, *spec, mark, rate).exact,
                self@.holds == s.holds,
                self@.transfers == s.transfers,
                self@.accounts.dom() == s.accounts.dom(),
                forall|j: int|
                    0 <= j < i ==> self@.accounts[#[trigger] users[j]] == model::funded(
                        users[j],
                        s.accounts[users[j]],
                        *spec,
                        mark,
                        rate,
                    ),
                forall|j: int|
                    i <= j < n ==> self@.accounts[#[trigger] users[j]] == s.accounts[users[j]],
                reports@ == model::funding_reports(
                    s,
                    users.subrange(0, i as int),
                    *spec,
                    mark,
                    rate,
                ),
            decreases n - i,
        {
            let user_id = UserId(self.accounts.key_at(i));
            proof {
                assert(user_id == users[i as int]);
                assert(s.has(user_id));
                assert(users.subrange(0, i + 1).drop_last() =~= users.subrange(0, i as int));
                assert(users.subrange(0, i + 1).last() == user_id);
            }
            if user_id != exchange_account() {
                let payment: i64 = self.funding_payment(user_id, spec, mark, rate_bps);
                if payment != 0 {
                    self.book_payment(user_id, spec.quote_currency, payment);
                    reports.push(
                        FundingReport {
                            user_id,
                            symbol_id: spec.symbol_id,
                            payment: Amount(payment),
                        },
                    );
                }
            }
            proof {
                assert(self@.accounts.dom() =~= s.accounts.dom());
            }
            i = i + 1;
        }
        proof {
            let t = model::apply_funding(s, *spec, mark, rate);
            assert forall|u: UserId| s.has(u) implies self@.accounts[u] == t.accounts[u] by {
                let j = choose|j: int| 0 <= j < users.len() && users[j] == u;
                assert(users[j] == u);
            }
            assert(self@.accounts =~= t.accounts);
            assert(users.subrange(0, i as int) =~= users);
        }
        reports
    }

    /// Takes a payment, of either sign, from a free balance.
    fn book_payment(&mut self, u: UserId, c: CurrencyId, payment: i64)
        requires
            old(self).wf(),
            old(self)@.has(u),
            old(self)@.credit(u, c, -(payment as int)).exact,
        ensures
            final(self).wf(),
            final(self).walk() == old(self).walk(),
            final(self)@ == old(self)@.credit(u, c, -(payment as int)),
    {
        match self.accounts.get_mut(u.0) {
            Some(a) => {
                a.pay(c, Amount(payment));
            },
            None => {},
        }
        assert(self@.accounts =~= old(self)@.credit(u, c, -(payment as int)).accounts);
    }

    /// Everything that the accounts own in a currency: free and reserved
    /// balances and the margin of positions. Open profits do not count.
    pub fn total_internal(&self, currency: CurrencyId) -> (r: i128)
        requires
            self.wf(),
            model::gross_internal(self@, currency) <= i128::MAX,
        ensures
            r == model::total_internal(self@, currency),
    {
        let ghost m = self@.accounts;
        let ghost users = self.walk();
        let ghost f = model::worth_in(currency);
        let ghost g = model::gross_in(currency);
        let mut total: i128 = 0;
        let mut i: usize = 0;
        let n: usize = self.accounts.len();
        proof {
            self.lemma_walk();
            sums::lemma_sum_walk(m, users, f);
            sums::lemma_sum_walk(m, users, g);
            assert(users.subrange(0, 0) =~= Seq::<UserId>::empty());
        }
        while i < n
            invariant
                self.wf(),
                i <= n,
                n == users.len(),
                users == self.walk(),
                m == self@.accounts,
                forall|j: int| 0 <= j < users.len() ==> self@.has(#[trigger] users[j]),
                f == model::worth_in(currency),
                g == model::gross_in(currency),
                sums::sum_walk(m, users, g) <= i128::MAX,
                total == sums::sum_walk(m, users.subrange(0, i as int), f),
            decreases n - i,
        {
            proof {
                assert(users.subrange(0, i + 1).drop_last() =~= users.subrange(0, i as int));
                assert(self@.has(users[i as int]));
                lemma_worth_bound(self@, self.walk(), i as int, currency);
            }
            let a = self.accounts.value_at(i);
            proof {
                a.lemma_words();
            }
            let margin: i128 = a.margin_total(currency);
            total = total + a.free(currency).0 as i128;
            total = total + a.held(currency).0 as i128;
            total = total + margin;
            i = i + 1;
        }
        assert(users.subrange(0, i as int) =~= users);
        total
    }

    /// Open profit of all positions in a symbol at its mark, times its scale.
    fn raw_profit(&self, currency: CurrencyId, mark: &Mark) -> (r: i128)
        requires
            self.wf(),
            sums::sum_map(self@.accounts, model::raw_profit_size_in(currency, *mark)) <= i128::MAX,
        ensures
            r == sums::sum_map(self@.accounts, model::raw_profit_in(currency, *mark)),
    {
        let ghost m = self@.accounts;
        let ghost users = self.walk();
        let ghost f = model::raw_profit_in(currency, *mark);
        let ghost g = model::raw_profit_size_in(currency, *mark);
        let mut total: i128 = 0;
        let mut i: usize = 0;
        let n: usize = self.accounts.len();
        proof {
            self.lemma_walk();
            sums::lemma_sum_walk(m, users, f);
            sums::lemma_sum_walk(m, users, g);
            assert(users.subrange(0, 0) =~= Seq::<UserId>::empty());
        }
        while i < n
            invariant
                self.wf(),
                i <= n,
                n == users.len(),
                users == self.walk(),
                m == self@.accounts,
                forall|j: int| 0 <= j < users.len() ==> self@.has(#[trigger] users[j]),
                f == model::raw_profit_in(currency, *mark),
                g == model::raw_profit_size_in(currency, *mark),
                sums::sum_walk(m, users, g) <= i128::MAX,
                total == sums::sum_walk(m, users.subrange(0, i as int), f),
            decreases n - i,
        {
            proof {
                assert(users.subrange(0, i + 1).drop_last() =~= users.subrange(0, i as int));
                assert(self@.has(users[i as int]));
                sums::lemma_walk_bound(m, users, i + 1, f, g);
                assert(f(m[users[i as int]]) == sums::sum_walk(
                    m,
                    users.subrange(0, i + 1),
                    f,
                ) - sums::sum_walk(m, users.subrange(0, i as int), f));
            }
            match self.accounts.value_at(i).position(mark.symbol_id) {
                Some(p) => {
                    if p.margin_currency == currency {
                        let diff: i128 = mark.price.0 as i128 - p.entry_price.0 as i128;
                        proof {
                            lemma_spread_product(diff as int, p.size.0 as int);
                        }
                        total = total + diff * p.size.0 as i128;
                    }
                },
                None => {},
            }
            i = i + 1;
        }
        assert(users.subrange(0, i as int) =~= users);
        total
    }

    /// Everything that the accounts own in a currency, with the open profits of
    /// the positions in the marked symbols.
    pub fn total_internal_with_marks(&self, currency: CurrencyId, marks: &[Mark]) -> (r: i128)
        requires
            self.wf(),
            model::marks_fit(self@, currency, marks@),
        ensures
            r == model::total_with_marks(self@, currency, marks@),
    {
        let mut total: i128 = self.total_internal(currency);
        let mut i: usize = 0;
        assert(marks@.subrange(0, 0) =~= Seq::<Mark>::empty());
        while i < marks.len()
            invariant
                self.wf(),
                i <= marks@.len(),
                model::marks_fit(self@, currency, marks@),
                total == model::total_internal(self@, currency) + model::open_profits(
                    self@,
                    currency,
                    marks@.subrange(0, i as int),
                ),
            decreases marks@.len() - i,
        {
            proof {
                assert(marks@.subrange(0, i + 1).drop_last() =~= marks@.subrange(0, i as int));
                assert(model::mark_fits(self@, currency, marks@, i as int));
            }
            let mark: Mark = marks[i];
            if mark.scale > 0 {
                let raw: i128 = self.raw_profit(currency, &mark);
                total = total + math::trunc_div(raw, mark.scale as i128);
            }
            i = i + 1;
        }
        assert(marks@.subrange(0, i as int) =~= marks@);
        total
    }
}

/// On the way through the accounts no partial sum leaves the magnitudes of the
/// whole.
proof fn lemma_worth_bound(s: Ledger, users: Seq<UserId>, i: int, c: CurrencyId)
    requires
        0 <= i < users.len(),
    ensures
        ({
            let a = s.accounts[users[i]];
            let whole = sums::sum_walk(s.accounts, users, model::gross_in(c));
            let before = sums::sum_walk(s.accounts, users.subrange(0, i), model::worth_in(c));
            let margin = sums::sum_map(a.positions, model::margin_in(c));
            &&& -whole <= before <= whole
            &&& -whole <= before + a.free[c] <= whole
            &&& -whole <= before + a.free[c] + a.held[c] <= whole
            &&& -whole <= before + a.free[c] + a.held[c] + margin <= whole
            &&& sums::sum_map(a.positions, model::margin_size_in(c)) <= whole
        }),
{
    let m = s.accounts;
    let f = model::worth_in(c);
    let g = model::gross_in(c);
    let a = m[users[i]];
    assert forall|v: AccountModel| #[trigger] g(v) >= f(v) && g(v) >= -f(v) by {
        sums::lemma_sum_magnitude(v.positions, model::margin_in(c), model::margin_size_in(c));
    }
    sums::lemma_sum_magnitude(a.positions, model::margin_in(c), model::margin_size_in(c));
    let before = users.subrange(0, i);
    sums::lemma_walk_bound(m, before, i, f, g);
    assert(before.subrange(0, i) =~= before);
    sums::lemma_walk_bound(m, users, i + 1, f, g);
    assert(users.subrange(0, i + 1).drop_last() =~= before);
}

/// The part of a reserve that belongs to a fill.
fn share(reserve: Amount, fill: Size, whole: Size) -> (r: i64)
    requires
        whole.0 != 0,
        math::fits_i64(model::share(reserve, fill, whole)),
    ensures
        r == model::share(reserve, fill, whole),
{
    proof {
        numeric::lemma_product_fits(reserve.0, fill.0);
    }
    math::trunc_div(reserve.0 as i128 * fill.0 as i128, whole.0 as i128) as i64
}

/// Profit of closing a part of a position at a price.
fn profit(p: &Position, size: i64, price: Price, spec: &SymbolSpec) -> (r: i64)
    requires
        spec.base_minor_per_major != 0,
        math::fits_i64(model::profit(*p, size as int, price, *spec)),
    ensures
        r == model::profit(*p, size as int, price, *spec),
{
    let per_unit: i128 = if p.size.0 > 0 {
        price.0 as i128 - p.entry_price.0 as i128
    } else {
        p.entry_price.0 as i128 - price.0 as i128
    };
    proof {
        lemma_spread_product(per_unit as int, size as int);
    }
    math::trunc_div(per_unit * size as i128, spec.base_minor_per_major as i128) as i64
}

/// A price difference times a size stays inside `i128`.
proof fn lemma_spread_product(d: int, s: int)
    requires
        -0xffff_ffff_ffff_ffff <= d <= 0xffff_ffff_ffff_ffff,
        i64::MIN <= s <= i64::MAX,
    ensures
        i128::MIN < d * s <= i128::MAX,
{
    let a: int = 0xffff_ffff_ffff_ffff;
    let b: int = 0x8000_0000_0000_0000;
    assert(-(a * b) <= d * s <= a * b) by (nonlinear_arith)
        requires
            -a <= d <= a,
            -b <= s <= b,
    ;
    assert(a * b == 0x7fff_ffff_ffff_ffff_8000_0000_0000_0000);
}

/// A product with a factor above the lowest word is below the largest one.
proof fn lemma_product_below(a: i64, b: i64)
    requires
        a != i64::MIN,
    ensures
        -0x4000_0000_0000_0000_0000_0000_0000_0000 < a * b
            < 0x4000_0000_0000_0000_0000_0000_0000_0000,
{
    let m: int = 0x7fff_ffff_ffff_ffff;
    let n: int = 0x8000_0000_0000_0000;
    let x = a as int;
    let y = b as int;
    assert(-(m * n) <= x * y <= m * n) by (nonlinear_arith)
        requires
            -m <= x <= m,
            -n <= y <= n,
    ;
    assert(m * n < 0x4000_0000_0000_0000_0000_0000_0000_0000);
}

/// Where a settlement is exact, its first step was.
proof fn lemma_settled_exact(s: Ledger, trade: Trade, h: Hold, is_taker: bool, spec: SymbolSpec)
    requires
        model::settle_derivative(s, trade, h, is_taker, spec).0.exact,
        s.has(h.user_id),
        h.kind is Derivative,
        model::initial_margin(spec).is_some(),
    ensures
        trade.size.0 != i64::MIN,
        h.kind matches HoldKind::Derivative { reserve_margin, reserve_fee, original_size, ref_price }
            ==> original_size.0 != 0 && math::fits_i64(
            model::share(reserve_margin, trade.size, original_size),
        ) && math::fits_i64(model::share(reserve_fee, trade.size, original_size)),
{
}

/// A share of an amount lies between zero and the amount.
proof fn lemma_share_bound(amount: int, part: int, whole: int)
    requires
        0 < part <= whole,
    ensures
        amount >= 0 ==> 0 <= math::tdiv(amount * part, whole) <= amount,
        amount <= 0 ==> amount <= math::tdiv(amount * part, whole) <= 0,
{
    let m = math::magnitude(amount);
    assert(math::magnitude(amount * part) == m * part) by (nonlinear_arith)
        requires
            m == math::magnitude(amount),
            part > 0,
    ;
    assert(0 <= (m * part) / whole <= m) by (nonlinear_arith)
        requires
            m >= 0,
            0 < part <= whole,
    ;
    assert((amount >= 0 ==> amount * part >= 0) && (amount <= 0 ==> amount * part <= 0))
        by (nonlinear_arith)
        requires
            part > 0,
    ;
}

} // verus!
