//! The users of one shard and their money.
use vstd::prelude::*;

use crate::exchange::api::{CommandResultCode, Currency, UserId};
use crate::exchange::ledger;
use crate::exchange::ledger::Profile;
use crate::exchange::state;
use crate::exchange::state::UserState;
use crate::store::coded::CodeMap;
use crate::store::keyed::KeyedMap;
use crate::store::listing;

verus! {

/// The numbers of a map.
pub open spec fn numbers(m: Map<Currency, i64>) -> Map<Currency, int> {
    m.map_values(|n: i64| n as int)
}

/// Amounts per currency.
pub struct Amounts {
    entries: CodeMap<i64>,
}

impl View for Amounts {
    type V = Map<Currency, int>;

    closed spec fn view(&self) -> Map<Currency, int> {
        numbers(self.entries@)
    }
}

impl Amounts {
    pub closed spec fn wf(&self) -> bool {
        self.entries.wf()
    }

    pub fn new() -> (r: Amounts)
        ensures
            r.wf(),
            r@ == Map::<Currency, int>::empty(),
    {
        let r = Amounts { entries: CodeMap::new() };
        assert(r@ =~= Map::<Currency, int>::empty());
        r
    }

    /// What is recorded for a currency.
    pub fn get(&self, currency: Currency) -> (r: i64)
        requires
            self.wf(),
        ensures
            r == ledger::amount(self@, currency),
    {
        match self.entries.get(currency) {
            Some(n) => *n,
            None => 0,
        }
    }

    pub fn set(&mut self, currency: Currency, n: i64)
        requires
            old(self).wf(),
        ensures
            final(self).wf(),
            final(self)@ == old(self)@.insert(currency, n as int),
    {
        self.entries.insert(currency, n);
        assert(self@ =~= old(self)@.insert(currency, n as int));
    }

    /// The amounts as a list.
    pub fn serialize_state(&self) -> (r: Vec<(Currency, i64)>)
        requires
            self.wf(),
        ensures
            state::amounts_of(r@) == self@,
    {
        let mut out: Vec<(Currency, i64)> = Vec::new();
        let n: usize = self.entries.len();
        let ghost codes = self.entries.code_order();
        let mut i: usize = 0;
        while i < n
            invariant
                self.wf(),
                codes == self.entries.code_order(),
                n == codes.len(),
                i <= n,
                out@.len() == i,
                forall|j: int|
                    0 <= j < i ==> (#[trigger] out@[j]).0 == codes[j] && out@[j].1
                        == self.entries@[codes[j]],
            decreases n - i,
        {
            out.push((self.entries.code_at(i), *self.entries.value_at(i)));
            i = i + 1;
        }
        proof {
            self.entries.lemma_code_order();
            assert forall|c: Currency| #[trigger]
                self.entries@.contains_key(c) implies exists|j: int|
                0 <= j < out@.len() && (#[trigger] out@[j]).0 == c by {
                let j = choose|j: int| 0 <= j < codes.len() && #[trigger] codes[j] == c;
                assert(out@[j].0 == c);
            }
            assert forall|j: int| 0 <= j < out@.len() implies self.entries@.contains_key(
                (#[trigger] out@[j]).0,
            ) && self.entries@[out@[j].0] == out@[j].1 by {
                assert(self.entries@.contains_key(codes[j]));
            }
            listing::lemma_lists(out@, self.entries@);
        }
        out
    }

    /// The amounts of a list.
    pub fn from_state(list: &Vec<(Currency, i64)>) -> (r: Amounts)
        ensures
            r.wf(),
            r@ == state::amounts_of(list@),
    {
        let mut r = Amounts::new();
        let mut i: usize = 0;
        proof {
            assert(list@.take(list@.len() as int) =~= list@);
            assert(state::amounts_of(list@.take(0)) =~= Map::<Currency, int>::empty());
        }
        while i < list.len()
            invariant
                r.wf(),
                i <= list@.len(),
                r@ == state::amounts_of(list@.take(i as int)),
            decreases list@.len() - i,
        {
            let ghost before = list@.take(i as int);
            proof {
                let now = list@.take(i + 1);
                assert(now.drop_last() =~= before);
                assert(state::amounts_of(now) =~= state::amounts_of(before).insert(
                    list@[i as int].0,
                    list@[i as int].1 as int,
                ));
            }
            r.set(list[i].0, list[i].1);
            i = i + 1;
        }
        proof {
            assert(list@.take(i as int) =~= list@);
        }
        r
    }
}

/// A user.
pub struct UserProfile {
    last_tx: i64,
    accounts: Amounts,
}

impl View for UserProfile {
    type V = Profile;

    closed spec fn view(&self) -> Profile {
        Profile { last_tx: self.last_tx as int, accounts: self.accounts@ }
    }
}

impl UserProfile {
    pub closed spec fn wf(&self) -> bool {
        self.accounts.wf()
    }
}

/// The profiles behind a map.
pub open spec fn profiles(m: Map<UserId, UserProfile>) -> Map<UserId, Profile> {
    m.map_values(|p: UserProfile| p@)
}

spec fn all_wf(m: Map<UserId, UserProfile>) -> bool {
    forall|u: UserId| #[trigger] m.contains_key(u) ==> m[u].wf()
}

pub struct UserProfileService {
    users: KeyedMap<UserProfile>,
}

impl View for UserProfileService {
    type V = Map<UserId, Profile>;

    closed spec fn view(&self) -> Map<UserId, Profile> {
        profiles(self.users@)
    }
}

impl UserProfileService {
    pub closed spec fn wf(&self) -> bool {
        self.users.wf() && all_wf(self.users@)
    }

    pub fn new() -> (r: UserProfileService)
        ensures
            r.wf(),
            r@ == Map::<UserId, Profile>::empty(),
    {
        let r = UserProfileService { users: KeyedMap::new() };
        assert(r@ =~= Map::<UserId, Profile>::empty());
        r
    }

    /// The users as a list.
    pub fn serialize_state(&self) -> (r: Vec<UserState>)
        requires
            self.wf(),
        ensures
            state::users_of(r@) == self@,
    {
        let mut out: Vec<UserState> = Vec::new();
        let n: usize = self.users.len();
        let ghost keys = self.users.key_order();
        let mut i: usize = 0;
        proof {
            self.users.lemma_key_order();
        }
        while i < n
            invariant
                self.wf(),
                keys == self.users.key_order(),
                n == keys.len(),
                i <= n,
                out@.len() == i,
                forall|j: int| 0 <= j < n ==> self.users@.contains_key(#[trigger] keys[j]),
                forall|j: int|
                    0 <= j < i ==> (#[trigger] out@[j]).uid == keys[j] && state::profile_of(out@[j])
                        == self.users@[keys[j]]@,
            decreases n - i,
        {
            let uid: UserId = self.users.key_at(i);
            let p = self.users.value_at(i);
            assert(self.users@.contains_key(keys[i as int]));
            out.push(
                UserState { uid, last_tx: p.last_tx, accounts: p.accounts.serialize_state() },
            );
            i = i + 1;
        }
        proof {
            let e = state::user_entries(out@);
            assert forall|u: UserId| #[trigger] self@.contains_key(u) implies exists|j: int|
                0 <= j < e.len() && (#[trigger] e[j]).0 == u by {
                assert(keys.contains(u));
                let j = choose|j: int| 0 <= j < keys.len() && keys[j] == u;
                assert(out@[j].uid == u);
                assert(e[j].0 == u);
            }
            assert forall|j: int| 0 <= j < e.len() implies self@.contains_key((#[trigger] e[j]).0)
                && self@[e[j].0] == e[j].1 by {
                assert(out@[j].uid == keys[j]);
                assert(self.users@.contains_key(keys[j]));
            }
            listing::lemma_lists(e, self@);
        }
        out
    }

    /// The users of a list.
    pub fn from_state(list: &Vec<UserState>) -> (r: UserProfileService)
        ensures
            r.wf(),
            r@ == state::users_of(list@),
    {
        let mut r = UserProfileService::new();
        let ghost e = state::user_entries(list@);
        let mut i: usize = 0;
        proof {
            assert(e.take(e.len() as int) =~= e);
        }
        while i < list.len()
            invariant
                r.wf(),
                e == state::user_entries(list@),
                i <= list@.len(),
                r@ == listing::map_of(e.take(i as int)),
            decreases list@.len() - i,
        {
            let ghost before = r.users@;
            proof {
                assert(e.take(i + 1).drop_last() =~= e.take(i as int));
            }
            let p = UserProfile {
                last_tx: list[i].last_tx,
                accounts: Amounts::from_state(&list[i].accounts),
            };
            r.users.insert(list[i].uid, p);
            proof {
                assert(profiles(r.users@) =~= profiles(before).insert(list@[i as int].uid, p@));
            }
            i = i + 1;
        }
        proof {
            assert(e.take(i as int) =~= e);
        }
        r
    }

    /// There are finitely many users.
    pub proof fn lemma_finite(&self)
        requires
            self.wf(),
        ensures
            self@.dom().finite(),
    {
        self.users.lemma_key_order();
        assert(self@.dom() =~= self.users@.dom());
    }

    /// Adds a user who has nothing. Tells whether the user is new.
    pub fn add_user(&mut self, uid: UserId) -> (r: bool)
        requires
            old(self).wf(),
        ensures
            final(self).wf(),
            r == !old(self)@.contains_key(uid),
            final(self)@ == (if r {
                old(self)@.insert(uid, (Profile { last_tx: 0, accounts: Map::empty() }))
            } else {
                old(self)@
            }),
    {
        if self.users.contains_key(uid) {
            return false;
        }
        self.users.insert(uid, UserProfile { last_tx: 0, accounts: Amounts::new() });
        assert(self@ =~= old(self)@.insert(uid, Profile { last_tx: 0, accounts: Map::empty() }));
        true
    }

    /// Free money of a user.
    pub fn balance(&self, uid: UserId, currency: Currency) -> (r: Option<i64>)
        requires
            self.wf(),
        ensures
            r.is_some() == self@.contains_key(uid),
            r matches Some(n) ==> n == ledger::amount(self@[uid].accounts, currency),
    {
        match self.users.get(uid) {
            Some(p) => Some(p.accounts.get(currency)),
            None => None,
        }
    }

    /// Records the free money of a user.
    pub fn set_balance(&mut self, uid: UserId, currency: Currency, n: i64)
        requires
            old(self).wf(),
            old(self)@.contains_key(uid),
        ensures
            final(self).wf(),
            final(self)@ == old(self)@.insert(
                uid,
                (Profile {
                    accounts: old(self)@[uid].accounts.insert(currency, n as int),
                    ..old(self)@[uid]
                }),
            ),
    {
        match self.users.get_mut(uid) {
            Some(p) => {
                p.accounts.set(currency, n);
            },
            None => {},
        }
        assert(self@ =~= old(self)@.insert(
            uid,
            Profile {
                accounts: old(self)@[uid].accounts.insert(currency, n as int),
                ..old(self)@[uid]
            },
        ));
    }

    /// Money comes in or, where the amount is negative, goes out. Transactions of a
    /// user have increasing ids: one that was seen is ignored.
    pub fn balance_adjustment(
        &mut self,
        uid: UserId,
        currency: Currency,
        n: i64,
        tx: i64,
    ) -> (r: CommandResultCode)
        requires
            old(self).wf(),
        ensures
            final(self).wf(),
            r == ledger::adjust_code(old(self)@, uid, currency, n as int, tx as int),
            final(self)@ == ledger::adjusted(old(self)@, uid, currency, n as int, tx as int),
    {
        let balance: i64 = match self.balance(uid, currency) {
            Some(b) => b,
            None => {
                return CommandResultCode::AuthInvalidUser;
            },
        };
        match self.users.get(uid) {
            Some(p) => {
                if tx <= p.last_tx {
                    return CommandResultCode::UserMgmtDuplicateTransaction;
                }
            },
            None => {},
        }
        let sum: i64 = match balance.checked_add(n) {
            Some(s) => s,
            None => {
                return CommandResultCode::RiskArithmeticOverflow;
            },
        };
        if sum < 0 {
            return CommandResultCode::RiskNsf;
        }
        match self.users.get_mut(uid) {
            Some(p) => {
                p.accounts.set(currency, sum);
                p.last_tx = tx;
            },
            None => {},
        }
        assert(self@ =~= old(self)@.insert(
            uid,
            Profile {
                last_tx: tx as int,
                accounts: old(self)@[uid].accounts.insert(currency, sum as int),
            },
        ));
        CommandResultCode::Success
    }
}

} // verus!
