//! Deposits and withdrawals that were accepted, so that none of them counts twice.
use vstd::prelude::*;

use crate::store::keyed::KeyedMap;
use crate::types::ids::{CurrencyId, UserId};

verus! {

/// What a transfer is known by: its id, for one user and one currency.
#[derive(Debug, Clone, Copy, PartialEq, Eq, Structural)]
pub struct Transfer {
    pub user_id: UserId,
    pub currency_id: CurrencyId,
    pub transaction_id: u64,
}

/// The transfers of a list.
pub open spec fn transfers_in(s: Seq<Transfer>) -> Set<Transfer> {
    Set::new(|t: Transfer| s.contains(t))
}

/// The transfers so far, in their order, and an index of them by their ids.
pub struct TransferLog {
    list: Vec<Transfer>,
    by_id: KeyedMap<Vec<Transfer>>,
}

impl View for TransferLog {
    type V = Set<Transfer>;

    closed spec fn view(&self) -> Set<Transfer> {
        transfers_in(self.list@)
    }
}

/// Whether an index holds a transfer.
spec fn indexed(m: Map<u64, Vec<Transfer>>, t: Transfer) -> bool {
    m.contains_key(t.transaction_id) && m[t.transaction_id]@.contains(t)
}

impl TransferLog {
    /// The index holds what the list does.
    pub closed spec fn wf(&self) -> bool {
        &&& self.by_id.wf()
        &&& forall|t: Transfer| #[trigger] self.list@.contains(t) <==> indexed(self.by_id@, t)
    }

    pub fn new() -> (r: TransferLog)
        ensures
            r.wf(),
            r@ == Set::<Transfer>::empty(),
    {
        let r = TransferLog { list: Vec::new(), by_id: KeyedMap::new() };
        assert(r@ =~= Set::<Transfer>::empty());
        r
    }

    /// Whether a transfer was noted.
    pub fn contains(&self, t: Transfer) -> (r: bool)
        requires
            self.wf(),
        ensures
            r == self@.contains(t),
    {
        assert(self.list@.contains(t) == indexed(self.by_id@, t));
        match self.by_id.get(t.transaction_id) {
            None => false,
            Some(v) => {
                let mut i: usize = 0;
                while i < v.len()
                    invariant
                        i <= v@.len(),
                        self@.contains(t) == v@.contains(t),
                        forall|j: int| 0 <= j < i ==> (#[trigger] v@[j]) != t,
                    decreases v@.len() - i,
                {
                    if v[i] == t {
                        assert(v@.contains(t));
                        return true;
                    }
                    i = i + 1;
                }
                assert(!v@.contains(t));
                false
            },
        }
    }

    /// Notes a transfer.
    pub fn insert(&mut self, t: Transfer)
        requires
            old(self).wf(),
        ensures
            final(self).wf(),
            final(self)@ == old(self)@.insert(t),
    {
        let ghost l = self.list@;
        let ghost m = self.by_id@;
        let mut known: Vec<Transfer> = match self.by_id.remove(t.transaction_id) {
            Some(v) => v,
            None => Vec::new(),
        };
        let ghost before = known@;
        known.push(t);
        self.by_id.insert(t.transaction_id, known);
        self.list.push(t);
        proof {
            lemma_push(l, t);
            lemma_push(before, t);
            assert forall|x: Transfer| #[trigger] self.list@.contains(x) <==> indexed(
                self.by_id@,
                x,
            ) by {
                assert(l.contains(x) == indexed(m, x));
                assert(self.list@.contains(x) == (l.contains(x) || x == t));
                if x.transaction_id == t.transaction_id {
                    assert(self.by_id@[x.transaction_id]@.contains(x) == (before.contains(x) || x
                        == t));
                }
            }
            assert(self@ =~= old(self)@.insert(t));
        }
    }

    /// The transfers in their order.
    pub fn listed(&self) -> (r: Vec<Transfer>)
        ensures
            transfers_in(r@) == self@,
    {
        let mut r: Vec<Transfer> = Vec::new();
        let mut i: usize = 0;
        while i < self.list.len()
            invariant
                i <= self.list@.len(),
                r@ == self.list@.take(i as int),
            decreases self.list@.len() - i,
        {
            r.push(self.list[i]);
            i = i + 1;
            assert(r@ =~= self.list@.take(i as int));
        }
        assert(r@ =~= self.list@);
        r
    }

    /// The transfers of a list.
    pub fn of(list: &Vec<Transfer>) -> (r: TransferLog)
        ensures
            r.wf(),
            r@ == transfers_in(list@),
    {
        let mut r = TransferLog::new();
        let mut i: usize = 0;
        assert(r@ =~= transfers_in(list@.take(0)));
        while i < list.len()
            invariant
                r.wf(),
                i <= list@.len(),
                r@ == transfers_in(list@.take(i as int)),
            decreases list@.len() - i,
        {
            r.insert(list[i]);
            proof {
                lemma_push(list@.take(i as int), list@[i as int]);
                assert(list@.take(i + 1) =~= list@.take(i as int).push(list@[i as int]));
                assert(r@ =~= transfers_in(list@.take(i + 1)));
            }
            i = i + 1;
        }
        assert(list@.take(i as int) =~= list@);
        r
    }
}

proof fn lemma_push(s: Seq<Transfer>, t: Transfer)
    ensures
        forall|x: Transfer| #[trigger] s.push(t).contains(x) <==> s.contains(x) || x == t,
{
    let p = s.push(t);
    assert(p[s.len() as int] == t);
    assert forall|x: Transfer| s.contains(x) implies p.contains(x) by {
        let i = choose|i: int| 0 <= i < s.len() && s[i] == x;
        assert(p[i] == x);
    }
    assert forall|x: Transfer| #[trigger] p.contains(x) implies s.contains(x) || x == t by {
        let i = choose|i: int| 0 <= i < p.len() && p[i] == x;
        if i < s.len() {
            assert(s[i] == x);
        }
    }
}

} // verus!
