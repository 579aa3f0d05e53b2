//! A user's account.
use vstd::prelude::*;

use crate::math;
use crate::risk::hold::Position;
use crate::risk::model;
use crate::risk::model::AccountModel;
use crate::risk::saved;
use crate::risk::saved::AccountSnapshot;
use crate::store::keyed::KeyedMap;
use crate::store::listing;
use crate::store::sums;
use crate::types::ids::{CurrencyId, SymbolId, UserId};
use crate::types::numeric::Amount;

verus! {

/// A user's account: what is free, what is reserved for open orders, and the
/// derivative positions, each with its own margin.
pub struct UserAccount {
    user_id: UserId,
    balances: KeyedMap<Amount>,
    holds: KeyedMap<Amount>,
    positions: KeyedMap<Position>,
    is_suspended: bool,
}

/// An amount per currency, zero where nothing is stored.
spec fn amounts(m: Map<u64, Amount>) -> Map<CurrencyId, int> {
    Map::new(
        |c: CurrencyId| true,
        |c: CurrencyId|
            if m.contains_key(c.0 as u64) {
                m[c.0 as u64].0 as int
            } else {
                0
            },
    )
}

/// The stored positions.
spec fn positions_of(m: Map<u64, Position>) -> Map<SymbolId, Position> {
    Map::new(|s: SymbolId| m.contains_key(s.0 as u64), |s: SymbolId| m[s.0 as u64])
}

/// Keys as currencies.
spec fn currencies_of(keys: Seq<u64>) -> Seq<CurrencyId> {
    Seq::new(keys.len(), |i: int| CurrencyId(keys[i] as u32))
}

proof fn lemma_currencies(m: &KeyedMap<Amount>)
    requires
        m.wf(),
        listing::small_keys(m@),
    ensures
        currencies_of(m.key_order()).no_duplicates(),
        forall|c: CurrencyId|
            !#[trigger] currencies_of(m.key_order()).contains(c) ==> amounts(m@)[c] == 0,
{
    m.lemma_key_order();
    let keys = m.key_order();
    let list = currencies_of(keys);
    assert forall|i: int| 0 <= i < keys.len() implies #[trigger] keys[i] <= u32::MAX by {
        assert(keys.contains(keys[i]));
        assert(m@.contains_key(keys[i]));
    }
    assert forall|i: int, j: int| 0 <= i < list.len() && 0 <= j < list.len() && i != j implies list[i]
        != list[j] by {
        assert(keys[i] != keys[j]);
    }
    assert forall|c: CurrencyId| !#[trigger] list.contains(c) implies amounts(m@)[c] == 0 by {
        if m@.contains_key(c.0 as u64) {
            let i = choose|i: int| 0 <= i < keys.len() && keys[i] == c.0 as u64;
            assert(list[i] == c);
        }
    }
}

fn list_currencies(m: &KeyedMap<Amount>) -> (r: Vec<CurrencyId>)
    requires
        m.wf(),
    ensures
        r@ == currencies_of(m.key_order()),
{
    let mut out: Vec<CurrencyId> = Vec::new();
    let n: usize = m.len();
    let mut i: usize = 0;
    while i < n
        invariant
            m.wf(),
            i <= n,
            n == m.key_order().len(),
            out@.len() == i,
            forall|j: int| 0 <= j < i ==> out@[j] == CurrencyId(m.key_order()[j] as u32),
        decreases n - i,
    {
        out.push(CurrencyId(#[verifier::truncate] (m.key_at(i) as u32)));
        i = i + 1;
    }
    assert(out@ =~= currencies_of(m.key_order()));
    out
}

impl View for UserAccount {
    type V = AccountModel;

    closed spec fn view(&self) -> AccountModel {
        AccountModel {
            user_id: self.user_id,
            free: amounts(self.balances@),
            held: amounts(self.holds@),
            positions: positions_of(self.positions@),
            is_suspended: self.is_suspended,
        }
    }
}

impl UserAccount {
    /// The tables of the account are in order.
    pub closed spec fn wf(&self) -> bool {
        &&& self.balances.wf()
        &&& self.holds.wf()
        &&& self.positions.wf()
        &&& listing::small_keys(self.balances@)
        &&& listing::small_keys(self.holds@)
        &&& listing::small_keys(self.positions@)
    }

    /// Balances are machine words, for every currency.
    pub proof fn lemma_words(&self)
        requires
            self.wf(),
        ensures
            forall|c: CurrencyId| math::fits_i64(#[trigger] self@.free[c]),
            forall|c: CurrencyId| math::fits_i64(#[trigger] self@.held[c]),
            forall|c: CurrencyId| #[trigger] self@.free.contains_key(c),
            forall|c: CurrencyId| #[trigger] self@.held.contains_key(c),
            self@.positions.dom().finite(),
    {
        self.positions.lemma_key_order();
        let keys = self.positions@.dom();
        let back = |k: u64| SymbolId(k as u32);
        keys.lemma_map_finite(back);
        assert forall|s: SymbolId| self@.positions.contains_key(s) implies keys.map(back).contains(
            s,
        ) by {
            assert(keys.contains(s.0 as u64));
            assert(back(s.0 as u64) == s);
        }
        assert(self@.positions.dom().subset_of(keys.map(back)));
        vstd::set_lib::lemma_set_subset_finite(keys.map(back), self@.positions.dom());
    }

    pub fn new(user_id: UserId) -> (r: UserAccount)
        ensures
            r.wf(),
            r@ == model::empty_account(user_id),
    {
        let r = UserAccount {
            user_id,
            balances: KeyedMap::new(),
            holds: KeyedMap::new(),
            positions: KeyedMap::new(),
            is_suspended: false,
        };
        assert(r@ =~= model::empty_account(user_id));
        r
    }

    /// The account as lists.
    pub fn snapshot(&self) -> (r: AccountSnapshot)
        requires
            self.wf(),
        ensures
            saved::account_of(r) == self@,
    {
        let r = AccountSnapshot {
            user_id: self.user_id,
            balances: listing::small_entries(&self.balances),
            holds: listing::small_entries(&self.holds),
            positions: listing::small_entries(&self.positions),
            is_suspended: self.is_suspended,
        };
        assert(saved::account_of(r) =~= self@);
        r
    }

    /// The account that was saved.
    pub fn from_snapshot(s: &AccountSnapshot) -> (r: UserAccount)
        ensures
            r.wf(),
            r@ == saved::account_of(*s),
    {
        let r = UserAccount {
            user_id: s.user_id,
            balances: listing::small_table(&s.balances),
            holds: listing::small_table(&s.holds),
            positions: listing::small_table(&s.positions),
            is_suspended: s.is_suspended,
        };
        assert(r@ =~= saved::account_of(*s));
        r
    }

    pub fn user_id(&self) -> (r: UserId)
        ensures
            r == self@.user_id,
    {
        self.user_id
    }

    pub fn is_suspended(&self) -> (r: bool)
        ensures
            r == self@.is_suspended,
    {
        self.is_suspended
    }

    pub(crate) fn set_suspended(&mut self, suspended: bool)
        requires
            old(self).wf(),
        ensures
            final(self).wf(),
            final(self)@ == (AccountModel { is_suspended: suspended, ..old(self)@ }),
    {
        self.is_suspended = suspended;
    }

    /// What can be spent.
    pub fn free(&self, currency: CurrencyId) -> (r: Amount)
        requires
            self.wf(),
        ensures
            r.0 == self@.free[currency],
    {
        match self.balances.get(currency.0 as u64) {
            Some(a) => *a,
            None => Amount(0),
        }
    }

    /// What is reserved for open orders.
    pub fn held(&self, currency: CurrencyId) -> (r: Amount)
        requires
            self.wf(),
        ensures
            r.0 == self@.held[currency],
    {
        match self.holds.get(currency.0 as u64) {
            Some(a) => *a,
            None => Amount(0),
        }
    }

    /// The currencies that the free balance was ever touched in.
    pub closed spec fn free_list(&self) -> Seq<CurrencyId> {
        currencies_of(self.balances.key_order())
    }

    /// The currencies that the reserved balance was ever touched in.
    pub closed spec fn held_list(&self) -> Seq<CurrencyId> {
        currencies_of(self.holds.key_order())
    }

    /// Where a balance was never touched, there is nothing.
    pub proof fn lemma_lists(&self)
        requires
            self.wf(),
        ensures
            self.free_list().no_duplicates(),
            self.held_list().no_duplicates(),
            forall|c: CurrencyId|
                !#[trigger] self.free_list().contains(c) ==> self@.free[c] == 0,
            forall|c: CurrencyId|
                !#[trigger] self.held_list().contains(c) ==> self@.held[c] == 0,
    {
        lemma_currencies(&self.balances);
        lemma_currencies(&self.holds);
    }

    pub fn free_currencies(&self) -> (r: Vec<CurrencyId>)
        requires
            self.wf(),
        ensures
            r@ == self.free_list(),
    {
        list_currencies(&self.balances)
    }

    pub fn held_currencies(&self) -> (r: Vec<CurrencyId>)
        requires
            self.wf(),
        ensures
            r@ == self.held_list(),
    {
        list_currencies(&self.holds)
    }

    /// Free and reserved together.
    pub fn total(&self, currency: CurrencyId) -> (r: Amount)
        requires
            self.wf(),
            math::fits_i64(self@.free[currency] + self@.held[currency]),
        ensures
            r.0 == self@.free[currency] + self@.held[currency],
    {
        self.free(currency) + self.held(currency)
    }

    pub fn position(&self, symbol: SymbolId) -> (r: Option<&Position>)
        requires
            self.wf(),
        ensures
            r == (if self@.positions.contains_key(symbol) {
                Some(&self@.positions[symbol])
            } else {
                None
            }),
    {
        self.positions.get(symbol.0 as u64)
    }

    /// The position in a symbol, flat where there is none.
    pub(crate) fn position_or_flat(&self, symbol: SymbolId) -> (r: Position)
        requires
            self.wf(),
        ensures
            r == self@.position_in(symbol),
    {
        match self.positions.get(symbol.0 as u64) {
            Some(p) => *p,
            None => Position::default(),
        }
    }

    pub(crate) fn credit_free(&mut self, currency: CurrencyId, amount: Amount)
        requires
            old(self).wf(),
            math::fits_i64(old(self)@.free[currency] + amount.0),
        ensures
            final(self).wf(),
            final(self)@ == old(self)@.credited(currency, amount.0 as int),
    {
        if !amount.is_zero() {
            let now: Amount = self.free(currency);
            self.balances.insert(currency.0 as u64, now + amount);
        }
        assert(self@.free =~= old(self)@.credited(currency, amount.0 as int).free);
    }

    /// Takes an amount from the free balance where it covers it.
    pub(crate) fn debit_free(&mut self, currency: CurrencyId, amount: Amount) -> (r: bool)
        requires
            old(self).wf(),
            old(self)@.can_spend(currency, amount.0 as int) ==> math::fits_i64(
                old(self)@.free[currency] - amount.0,
            ),
        ensures
            final(self).wf(),
            r == old(self)@.can_spend(currency, amount.0 as int),
            final(self)@ == (if r {
                old(self)@.credited(currency, -(amount.0 as int))
            } else {
                old(self)@
            }),
    {
        if amount.is_zero() {
            assert(self@.free =~= old(self)@.credited(currency, 0).free);
            return true;
        }
        let now: Amount = self.free(currency);
        if now.0 < amount.0 {
            return false;
        }
        self.balances.insert(currency.0 as u64, now - amount);
        assert(self@.free =~= old(self)@.credited(currency, -(amount.0 as int)).free);
        true
    }

    /// Takes a payment of either sign from the free balance, which may go below
    /// zero.
    pub(crate) fn pay(&mut self, currency: CurrencyId, payment: Amount)
        requires
            old(self).wf(),
            math::fits_i64(old(self)@.free[currency] - payment.0),
        ensures
            final(self).wf(),
            final(self)@ == old(self)@.credited(currency, -(payment.0 as int)),
    {
        let now: Amount = self.free(currency);
        self.balances.insert(currency.0 as u64, now - payment);
        assert(self@.free =~= old(self)@.credited(currency, -(payment.0 as int)).free);
    }

    pub(crate) fn add_to_hold(&mut self, currency: CurrencyId, amount: Amount)
        requires
            old(self).wf(),
            math::fits_i64(old(self)@.held[currency] + amount.0),
        ensures
            final(self).wf(),
            final(self)@ == old(self)@.reserved(currency, amount.0 as int),
    {
        if !amount.is_zero() {
            let now: Amount = self.held(currency);
            self.holds.insert(currency.0 as u64, now + amount);
        }
        assert(self@.held =~= old(self)@.reserved(currency, amount.0 as int).held);
    }

    pub(crate) fn sub_from_hold(&mut self, currency: CurrencyId, amount: Amount)
        requires
            old(self).wf(),
            math::fits_i64(old(self)@.held[currency] - amount.0),
        ensures
            final(self).wf(),
            final(self)@ == old(self)@.reserved(currency, -(amount.0 as int)),
    {
        if !amount.is_zero() {
            let now: Amount = self.held(currency);
            self.holds.insert(currency.0 as u64, now - amount);
        }
        assert(self@.held =~= old(self)@.reserved(currency, -(amount.0 as int)).held);
    }

    pub(crate) fn set_position(&mut self, symbol: SymbolId, position: Position)
        requires
            old(self).wf(),
        ensures
            final(self).wf(),
            final(self)@ == old(self)@.with_position(symbol, position),
    {
        self.positions.insert(symbol.0 as u64, position);
        assert(self@.positions =~= old(self)@.with_position(symbol, position).positions);
    }

    /// How many symbols the account has a position in, open or closed.
    pub(crate) fn position_count(&self) -> (r: usize)
        requires
            self.wf(),
        ensures
            r == self.position_order().len(),
    {
        self.positions.len()
    }

    /// The symbols of the positions in the order of a walk.
    pub closed spec fn position_order(&self) -> Seq<SymbolId> {
        Seq::new(
            self.positions.key_order().len(),
            |i: int| SymbolId(self.positions.key_order()[i] as u32),
        )
    }

    /// A walk meets each position once.
    pub proof fn lemma_position_order(&self)
        requires
            self.wf(),
        ensures
            self.position_order().no_duplicates(),
            forall|i: int|
                0 <= i < self.position_order().len() ==> self@.positions.contains_key(
                    #[trigger] self.position_order()[i],
                ),
            forall|s: SymbolId| #[trigger]
                self@.positions.contains_key(s) ==> self.position_order().contains(s),
    {
        self.positions.lemma_key_order();
        let keys = self.positions.key_order();
        let ids = self.position_order();
        assert forall|i: int| 0 <= i < ids.len() implies self@.positions.contains_key(
            #[trigger] ids[i],
        ) && keys[i] <= u32::MAX by {
            assert(keys.contains(keys[i]));
            assert(self.positions@.contains_key(keys[i]));
        }
        assert forall|i: int, j: int| 0 <= i < ids.len() && 0 <= j < ids.len() && i != j implies ids[i]
            != ids[j] by {
            assert(self@.positions.contains_key(ids[i]) && self@.positions.contains_key(ids[j]));
            assert(keys[i] != keys[j]);
        }
        assert forall|s: SymbolId| #[trigger] self@.positions.contains_key(s) implies ids.contains(
            s,
        ) by {
            assert(self.positions@.contains_key(s.0 as u64));
            let i = choose|i: int| 0 <= i < keys.len() && keys[i] == s.0 as u64;
            assert(ids[i] == s);
        }
    }

    /// The position at a place of the walk.
    pub(crate) fn position_at(&self, i: usize) -> (r: (SymbolId, Position))
        requires
            self.wf(),
            i < self.position_order().len(),
        ensures
            r.0 == self.position_order()[i as int],
            self@.positions.contains_key(r.0),
            r.1 == self@.positions[r.0],
    {
        proof {
            self.positions.lemma_key_order();
            let keys = self.positions.key_order();
            assert(keys.contains(keys[i as int]));
        }
        (SymbolId(self.positions.key_at(i) as u32), *self.positions.value_at(i))
    }

    /// Margin that the positions lock in a currency.
    pub(crate) fn margin_total(&self, currency: CurrencyId) -> (r: i128)
        requires
            self.wf(),
            sums::sum_map(self@.positions, model::margin_size_in(currency)) <= i128::MAX,
        ensures
            r == sums::sum_map(self@.positions, model::margin_in(currency)),
    {
        let ghost m = self@.positions;
        let ghost keys = self.position_order();
        let ghost f = model::margin_in(currency);
        let ghost g = model::margin_size_in(currency);
        let mut total: i128 = 0;
        let mut i: usize = 0;
        let n: usize = self.position_count();
        proof {
            self.lemma_position_order();
            sums::lemma_sum_walk(m, keys, f);
            sums::lemma_sum_walk(m, keys, g);
            assert(keys.subrange(0, 0) =~= Seq::<SymbolId>::empty());
        }
        while i < n
            invariant
                self.wf(),
                i <= n,
                n == keys.len(),
                keys == self.position_order(),
                m == self@.positions,
                f == model::margin_in(currency),
                g == model::margin_size_in(currency),
                sums::sum_walk(m, keys, g) <= i128::MAX,
                total == sums::sum_walk(m, keys.subrange(0, i as int), f),
            decreases n - i,
        {
            proof {
                assert(keys.subrange(0, i + 1).drop_last() =~= keys.subrange(0, i as int));
                sums::lemma_walk_bound(m, keys, i + 1, f, g);
            }
            let (symbol, p) = self.position_at(i);
            if p.margin_currency == currency {
                total = total + p.margin_locked.0 as i128;
            }
            i = i + 1;
        }
        assert(keys.subrange(0, i as int) =~= keys);
        total
    }
}

} // verus!
