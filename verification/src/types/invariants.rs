//! A double-entry check on the books of an exchange: in every currency, what
//! all accounts hold together equals what came in less what went out.
use vstd::prelude::*;

use crate::store::keyed::KeyedMap;
use crate::types::ids::CurrencyId;
use crate::types::numeric::Amount;

verus! {

/// A currency whose books do not balance.
#[derive(Debug, Clone, Copy, PartialEq, Eq, Structural)]
pub struct ImbalanceReport {
    pub currency: CurrencyId,
    /// What all accounts hold together.
    pub internal_net: i128,
    /// What came in less what went out.
    pub external_net: i128,
    /// The first less the second.
    pub delta: i128,
}

/// The net of a currency inside and across the border.
#[derive(Debug, Clone, Copy)]
pub struct Nets {
    pub internal: i128,
    pub external: i128,
}

/// Nothing recorded.
pub open spec fn no_nets() -> Nets {
    Nets { internal: 0, external: 0 }
}

/// The nets after money was credited to an account.
pub open spec fn credited(n: Nets, amount: Amount) -> Nets {
    Nets { internal: (n.internal + amount.0) as i128, ..n }
}

/// The nets after money was debited from an account.
pub open spec fn debited(n: Nets, amount: Amount) -> Nets {
    Nets { internal: (n.internal - amount.0) as i128, ..n }
}

/// The nets after money came in.
pub open spec fn came_in(n: Nets, amount: Amount) -> Nets {
    Nets { external: (n.external + amount.0) as i128, ..n }
}

/// The nets after money went out.
pub open spec fn went_out(n: Nets, amount: Amount) -> Nets {
    Nets { external: (n.external - amount.0) as i128, ..n }
}

/// A transfer between accounts leaves the nets as they were. A deposit that is
/// credited and a withdrawal that is debited keep the difference between them.
pub proof fn law_paired_entries_balance(n: Nets, amount: Amount)
    requires
        i128::MIN <= n.internal + amount.0 <= i128::MAX,
        i128::MIN <= n.internal - amount.0 <= i128::MAX,
        i128::MIN <= n.external + amount.0 <= i128::MAX,
        i128::MIN <= n.external - amount.0 <= i128::MAX,
    ensures
        debited(credited(n, amount), amount) == n,
        credited(debited(n, amount), amount) == n,
        ({
            let d = credited(came_in(n, amount), amount);
            d.internal - d.external == n.internal - n.external
        }),
        ({
            let w = debited(went_out(n, amount), amount);
            w.internal - w.external == n.internal - n.external
        }),
{
}

/// The report on a currency.
pub open spec fn report_of(c: CurrencyId, n: Nets) -> ImbalanceReport {
    ImbalanceReport {
        currency: c,
        internal_net: n.internal,
        external_net: n.external,
        delta: (n.internal - n.external) as i128,
    }
}

/// Whether some reports are about each currency that does not balance, once.
pub open spec fn lists_imbalances(
    reports: Seq<ImbalanceReport>,
    nets: spec_fn(CurrencyId) -> Nets,
) -> bool {
    &&& forall|i: int|
        0 <= i < reports.len() ==> {
            let c = (#[trigger] reports[i]).currency;
            &&& nets(c).internal != nets(c).external
            &&& reports[i] == report_of(c, nets(c))
        }
    &&& forall|i: int, j: int| #![trigger reports[i], reports[j]]
        0 <= i < j < reports.len() ==> reports[i].currency != reports[j].currency
    &&& forall|c: CurrencyId| #![trigger nets(c)]
        nets(c).internal != nets(c).external ==> exists|i: int|
            0 <= i < reports.len() && (#[trigger] reports[i]).currency == c
}

/// Whether a difference of nets is a machine word.
pub open spec fn delta_fits(n: Nets) -> bool {
    i128::MIN <= n.internal - n.external <= i128::MAX
}

/// Books that can be checked. Credits and debits move money inside; the other
/// two record what crosses the border.
pub trait ConservationLedger {
    spec fn in_order(&self) -> bool;

    /// The nets of a currency.
    spec fn nets(&self, c: CurrencyId) -> Nets;

    fn record_credit(&mut self, currency: CurrencyId, amount: Amount)
        requires
            old(self).in_order(),
            old(self).nets(currency).internal + amount.0 <= i128::MAX,
            old(self).nets(currency).internal + amount.0 >= i128::MIN,
        ensures
            final(self).in_order(),
            forall|c: CurrencyId| #[trigger]
                final(self).nets(c) == (if c == currency {
                    credited(old(self).nets(c), amount)
                } else {
                    old(self).nets(c)
                }),
    ;

    fn record_debit(&mut self, currency: CurrencyId, amount: Amount)
        requires
            old(self).in_order(),
            old(self).nets(currency).internal - amount.0 <= i128::MAX,
            old(self).nets(currency).internal - amount.0 >= i128::MIN,
        ensures
            final(self).in_order(),
            forall|c: CurrencyId| #[trigger]
                final(self).nets(c) == (if c == currency {
                    debited(old(self).nets(c), amount)
                } else {
                    old(self).nets(c)
                }),
    ;

    fn record_external_in(&mut self, currency: CurrencyId, amount: Amount)
        requires
            old(self).in_order(),
            old(self).nets(currency).external + amount.0 <= i128::MAX,
            old(self).nets(currency).external + amount.0 >= i128::MIN,
        ensures
            final(self).in_order(),
            forall|c: CurrencyId| #[trigger]
                final(self).nets(c) == (if c == currency {
                    came_in(old(self).nets(c), amount)
                } else {
                    old(self).nets(c)
                }),
    ;

    fn record_external_out(&mut self, currency: CurrencyId, amount: Amount)
        requires
            old(self).in_order(),
            old(self).nets(currency).external - amount.0 <= i128::MAX,
            old(self).nets(currency).external - amount.0 >= i128::MIN,
        ensures
            final(self).in_order(),
            forall|c: CurrencyId| #[trigger]
                final(self).nets(c) == (if c == currency {
                    went_out(old(self).nets(c), amount)
                } else {
                    old(self).nets(c)
                }),
    ;

    /// Succeeds where every currency balances, and reports the others.
    fn check_balanced(&self) -> (r: Result<(), Vec<ImbalanceReport>>)
        requires
            self.in_order(),
            forall|c: CurrencyId| delta_fits(#[trigger] self.nets(c)),
        ensures
            r is Ok <==> forall|c: CurrencyId|
                (#[trigger] self.nets(c)).internal == self.nets(c).external,
            r matches Err(reports) ==> lists_imbalances(
                reports@,
                |c: CurrencyId| self.nets(c),
            ),
    ;
}

/// Books in memory.
pub struct InMemoryLedger {
    books: KeyedMap<Nets>,
}

impl InMemoryLedger {
    /// The nets of a currency, nothing where none were recorded.
    closed spec fn recorded(&self, c: CurrencyId) -> Nets {
        if self.books@.contains_key(c.0 as u64) {
            self.books@[c.0 as u64]
        } else {
            no_nets()
        }
    }

    closed spec fn keys_fit(&self) -> bool {
        forall|k: u64| #[trigger] self.books@.contains_key(k) ==> k <= u32::MAX
    }

    fn now(&self, currency: CurrencyId) -> (r: Nets)
        requires
            self.books.wf(),
        ensures
            r == self.recorded(currency),
    {
        match self.books.get(currency.0 as u64) {
            Some(n) => *n,
            None => Nets { internal: 0, external: 0 },
        }
    }

    fn note(&mut self, currency: CurrencyId, n: Nets)
        requires
            old(self).in_order(),
        ensures
            final(self).in_order(),
            forall|c: CurrencyId| #[trigger]
                final(self).nets(c) == (if c == currency {
                    n
                } else {
                    old(self).nets(c)
                }),
    {
        self.books.insert(currency.0 as u64, n);
    }
}

impl Default for InMemoryLedger {
    fn default() -> (r: InMemoryLedger)
        ensures
            r.in_order(),
            forall|c: CurrencyId| #[trigger] r.nets(c) == no_nets(),
    {
        InMemoryLedger { books: KeyedMap::new() }
    }
}

impl ConservationLedger for InMemoryLedger {
    closed spec fn in_order(&self) -> bool {
        self.books.wf() && self.keys_fit()
    }

    closed spec fn nets(&self, c: CurrencyId) -> Nets {
        self.recorded(c)
    }

    fn record_credit(&mut self, currency: CurrencyId, amount: Amount) {
        let n: Nets = self.now(currency);
        self.note(currency, Nets { internal: n.internal + amount.0 as i128, ..n });
    }

    fn record_debit(&mut self, currency: CurrencyId, amount: Amount) {
        let n: Nets = self.now(currency);
        self.note(currency, Nets { internal: n.internal - amount.0 as i128, ..n });
    }

    fn record_external_in(&mut self, currency: CurrencyId, amount: Amount) {
        let n: Nets = self.now(currency);
        self.note(currency, Nets { external: n.external + amount.0 as i128, ..n });
    }

    fn record_external_out(&mut self, currency: CurrencyId, amount: Amount) {
        let n: Nets = self.now(currency);
        self.note(currency, Nets { external: n.external - amount.0 as i128, ..n });
    }

    fn check_balanced(&self) -> (r: Result<(), Vec<ImbalanceReport>>) {
        let mut reports: Vec<ImbalanceReport> = Vec::new();
        let n: usize = self.books.len();
        let ghost keys = self.books.key_order();
        proof {
            self.books.lemma_key_order();
        }
        let mut i: usize = 0;
        while i < n
            invariant
                i <= n,
                n == keys.len(),
                keys == self.books.key_order(),
                keys.no_duplicates(),
                self.in_order(),
                forall|k: u64| #[trigger] self.books@.contains_key(k) <==> keys.contains(k),
                forall|c: CurrencyId| delta_fits(#[trigger] self.nets(c)),
                forall|j: int|
                    0 <= j < reports@.len() ==> {
                        let c = (#[trigger] reports@[j]).currency;
                        &&& self.nets(c).internal != self.nets(c).external
                        &&& reports@[j] == report_of(c, self.nets(c))
                        &&& exists|k: int| 0 <= k < i && #[trigger] keys[k] == c.0
                    },
                forall|j: int, k: int| #![trigger reports@[j], reports@[k]]
                    0 <= j < k < reports@.len() ==> reports@[j].currency != reports@[k].currency,
                forall|k: int|
                    0 <= k < i ==> {
                        let c = CurrencyId((#[trigger] keys[k]) as u32);
                        self.nets(c).internal != self.nets(c).external ==> exists|j: int|
                            0 <= j < reports@.len() && (#[trigger] reports@[j]).currency == c
                    },
            decreases n - i,
        {
            let key: u64 = self.books.key_at(i);
            let c = CurrencyId(key as u32);
            assert(keys.contains(keys[i as int]));
            assert(self.books@.contains_key(key));
            let v: Nets = *self.books.value_at(i);
            assert(v == self.nets(c));
            let ghost before = reports@;
            if v.internal != v.external {
                assert(delta_fits(self.nets(c)));
                reports.push(
                    ImbalanceReport {
                        currency: c,
                        internal_net: v.internal,
                        external_net: v.external,
                        delta: v.internal - v.external,
                    },
                );
                assert forall|j: int, k: int| #![trigger reports@[j], reports@[k]]
                    0 <= j < k < reports@.len() implies reports@[j].currency
                    != reports@[k].currency by {
                    if k == before.len() {
                        let m = choose|m: int| 0 <= m < i && #[trigger] keys[m]
                            == before[j].currency.0;
                        assert(keys[m] != keys[i as int]);
                    }
                }
            }
            assert forall|k: int| 0 <= k < i + 1 implies {
                let x = CurrencyId((#[trigger] keys[k]) as u32);
                self.nets(x).internal != self.nets(x).external ==> exists|j: int|
                    0 <= j < reports@.len() && (#[trigger] reports@[j]).currency == x
            } by {
                let x = CurrencyId(keys[k] as u32);
                if self.nets(x).internal != self.nets(x).external {
                    if k < i {
                        let j = choose|j: int|
                            0 <= j < before.len() && (#[trigger] before[j]).currency == x;
                        assert(reports@[j].currency == x);
                    } else {
                        assert(reports@[before.len() as int].currency == x);
                    }
                }
            }
            i = i + 1;
        }
        proof {
            assert forall|c: CurrencyId| #![trigger self.nets(c)]
                self.nets(c).internal != self.nets(c).external implies exists|j: int|
                0 <= j < reports@.len() && (#[trigger] reports@[j]).currency == c by {
                assert(self.books@.contains_key(c.0 as u64));
                let k = choose|k: int| 0 <= k < keys.len() && keys[k] == c.0 as u64;
                assert(CurrencyId(keys[k] as u32) == c);
            }
            let f = |c: CurrencyId| self.nets(c);
            assert forall|c: CurrencyId| #![trigger f(c)]
                f(c).internal != f(c).external implies exists|j: int|
                0 <= j < reports@.len() && (#[trigger] reports@[j]).currency == c by {
                assert(self.nets(c).internal != self.nets(c).external);
            }
        }
        if reports.len() == 0 {
            Ok(())
        } else {
            assert(reports@[0] == report_of(reports@[0].currency, self.nets(reports@[0].currency)));
            Err(reports)
        }
    }
}

/// A report tells by how much more is inside than came in.
pub proof fn law_reports_tell_the_difference(c: CurrencyId, n: Nets)
    requires
        delta_fits(n),
    ensures
        report_of(c, n).currency == c,
        report_of(c, n).delta + n.external == n.internal,
        report_of(c, n).internal_net == n.internal,
        report_of(c, n).external_net == n.external,
{
}

} // verus!
