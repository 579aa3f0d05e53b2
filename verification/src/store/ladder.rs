//! A price ladder: entries in priority order, best rank first and first come
//! first served within a rank.
//!
//! The entries form one doubly linked chain through all ranks. Each rank in use
//! has a bucket that knows the last entry of the rank, how many entries there
//! are and how much quantity they hold together, and a sorted list of levels
//! finds the bucket of a rank.
use vstd::prelude::*;

use crate::store::arena::Arena;

verus! {

/// An entry of the chain. `ahead` has priority over it, `behind` comes after.
#[derive(Copy)]
pub struct Node<T> {
    pub rank: i64,
    pub qty: i64,
    pub value: T,
    pub ahead: Option<usize>,
    pub behind: Option<usize>,
    pub bucket: usize,
}

/// Tally of one rank.
#[derive(Clone, Copy)]
pub struct Bucket {
    pub rank: i64,
    pub tail: usize,
    pub total: i64,
    pub count: usize,
}

/// Where the bucket of a rank is found.
#[derive(Clone, Copy)]
pub struct Level {
    pub rank: i64,
    pub bucket: usize,
}

/// An entry as seen from outside.
#[derive(Copy)]
pub struct Item<T> {
    pub handle: usize,
    pub rank: i64,
    pub qty: i64,
    pub value: T,
}

impl<T: Copy> Clone for Node<T> {
    fn clone(&self) -> (r: Node<T>)
        ensures
            r == *self,
    {
        *self
    }
}

impl<T: Copy> Clone for Item<T> {
    fn clone(&self) -> (r: Item<T>)
        ensures
            r == *self,
    {
        *self
    }
}

/// The entries of a chain.
pub open spec fn items<T>(q: Seq<usize>, n: Map<usize, Node<T>>) -> Seq<Item<T>> {
    Seq::new(
        q.len(),
        |i: int|
            Item { handle: q[i], rank: n[q[i]].rank, qty: n[q[i]].qty, value: n[q[i]].value },
    )
}

/// Quantity at one rank.
pub open spec fn rank_volume<T>(s: Seq<Item<T>>, rank: int) -> int
    decreases s.len(),
{
    if s.len() == 0 {
        0
    } else {
        rank_volume(s.drop_last(), rank) + (if s.last().rank == rank {
            s.last().qty as int
        } else {
            0
        })
    }
}

/// Number of entries at one rank.
pub open spec fn rank_count<T>(s: Seq<Item<T>>, rank: int) -> nat
    decreases s.len(),
{
    if s.len() == 0 {
        0
    } else {
        rank_count(s.drop_last(), rank) + (if s.last().rank == rank {
            1nat
        } else {
            0nat
        })
    }
}

/// Quantity at a rank or at better ones.
pub open spec fn volume_up_to<T>(s: Seq<Item<T>>, rank: int) -> int
    decreases s.len(),
{
    if s.len() == 0 {
        0
    } else {
        volume_up_to(s.drop_last(), rank) + (if s.last().rank <= rank {
            s.last().qty as int
        } else {
            0
        })
    }
}

/// The ranks in use, each once, in the order of the entries.
pub open spec fn ranks<T>(s: Seq<Item<T>>) -> Seq<i64>
    decreases s.len(),
{
    if s.len() == 0 {
        Seq::empty()
    } else {
        let before = ranks(s.drop_last());
        if before.len() > 0 && before.last() == s.last().rank {
            before
        } else {
            before.push(s.last().rank)
        }
    }
}

/// Where a new entry of a rank goes: behind all entries of that rank and of
/// better ones.
pub open spec fn slot_for<T>(s: Seq<Item<T>>, rank: int) -> int
    decreases s.len(),
{
    if s.len() == 0 {
        0
    } else if s.last().rank <= rank {
        s.len() as int
    } else {
        slot_for(s.drop_last(), rank)
    }
}

/// Entries stand in order of rank.
pub open spec fn by_rank<T>(s: Seq<Item<T>>) -> bool {
    forall|i: int, j: int| 0 <= i <= j < s.len() ==> s[i].rank <= s[j].rank
}

/// The node at place `i` points to its neighbours.
spec fn link_at<T>(q: Seq<usize>, n: Map<usize, Node<T>>, i: int) -> bool {
    &&& n[q[i]].ahead == (if i > 0 {
        Some(q[i - 1])
    } else {
        None
    })
    &&& n[q[i]].behind == (if i + 1 < q.len() {
        Some(q[i + 1])
    } else {
        None
    })
}

/// The chain links its nodes in the order `q`, and no node stands outside it.
spec fn linked<T>(q: Seq<usize>, n: Map<usize, Node<T>>, first: Option<usize>) -> bool {
    &&& q.no_duplicates()
    &&& forall|h: usize| #[trigger] n.contains_key(h) ==> q.contains(h)
    &&& forall|i: int| #![trigger q[i]] 0 <= i < q.len() ==> n.contains_key(q[i])
    &&& forall|i: int| 0 <= i < q.len() ==> #[trigger] link_at(q, n, i)
    &&& first == (if q.len() > 0 {
        Some(q[0])
    } else {
        None
    })
}

/// Nodes are sorted, carry a quantity, and belong to the bucket of their rank.
#[verifier::opaque]
spec fn bucketed<T>(q: Seq<usize>, n: Map<usize, Node<T>>, b: Map<usize, Bucket>) -> bool {
    &&& forall|i: int, j: int| #![trigger q[i], q[j]]
        0 <= i <= j < q.len() ==> n[q[i]].rank <= n[q[j]].rank
    &&& forall|i: int| #![trigger q[i]]
        0 <= i < q.len() ==> n[q[i]].qty > 0 && b.contains_key(n[q[i]].bucket)
            && b[n[q[i]].bucket].rank == n[q[i]].rank
    &&& forall|x: usize, y: usize| #![trigger b[x], b[y]]
        b.contains_key(x) && b.contains_key(y) && b[x].rank == b[y].rank ==> x == y
}

/// Whether the entry at `k` is the last one of the bucket.
spec fn tail_at<T>(q: Seq<usize>, n: Map<usize, Node<T>>, bucket: Bucket, k: int) -> bool {
    &&& 0 <= k < q.len()
    &&& q[k] == bucket.tail
    &&& n[q[k]].rank == bucket.rank
    &&& k + 1 < q.len() ==> n[q[k + 1]].rank > bucket.rank
}

/// Each bucket knows the last entry of its rank and its tallies.
#[verifier::opaque]
spec fn tallied<T>(q: Seq<usize>, n: Map<usize, Node<T>>, b: Map<usize, Bucket>) -> bool {
    forall|x: usize| #[trigger]
        b.contains_key(x) ==> {
            &&& exists|k: int| tail_at(q, n, b[x], k)
            &&& b[x].total == rank_volume(items(q, n), b[x].rank as int)
            &&& b[x].count == rank_count(items(q, n), b[x].rank as int)
        }
}

/// The levels list the buckets in order of rank.
#[verifier::opaque]
spec fn indexed(b: Map<usize, Bucket>, l: Seq<Level>) -> bool {
    &&& forall|i: int, j: int| 0 <= i < j < l.len() ==> l[i].rank < l[j].rank
    &&& forall|i: int| #![trigger l[i]]
        0 <= i < l.len() ==> b.contains_key(l[i].bucket) && b[l[i].bucket].rank == l[i].rank
    &&& forall|x: usize| #[trigger]
        b.contains_key(x) ==> exists|i: int| 0 <= i < l.len() && (#[trigger] l[i]).bucket == x
}

/// Entries in priority order.
pub struct PriceLadder<T> {
    nodes: Arena<Node<T>>,
    buckets: Arena<Bucket>,
    levels: Vec<Level>,
    first: Option<usize>,
    order: Ghost<Seq<usize>>,
}

impl<T> View for PriceLadder<T> {
    type V = Seq<Item<T>>;

    closed spec fn view(&self) -> Seq<Item<T>> {
        items(self.order@, self.nodes@)
    }
}

proof fn lemma_rank_volume_insert<T>(s: Seq<Item<T>>, k: int, x: Item<T>, rank: int)
    requires
        0 <= k <= s.len(),
    ensures
        rank_volume(s.insert(k, x), rank) == rank_volume(s, rank) + (if x.rank == rank {
            x.qty as int
        } else {
            0
        }),
        rank_count(s.insert(k, x), rank) == rank_count(s, rank) + (if x.rank == rank {
            1int
        } else {
            0
        }),
    decreases s.len(),
{
    let t = s.insert(k, x);
    if k == s.len() {
        assert(t.drop_last() =~= s);
    } else {
        assert(t.drop_last() =~= s.drop_last().insert(k, x));
        assert(t.last() == s.last());
        lemma_rank_volume_insert(s.drop_last(), k, x, rank);
    }
}

proof fn lemma_rank_volume_remove<T>(s: Seq<Item<T>>, k: int, rank: int)
    requires
        0 <= k < s.len(),
    ensures
        rank_volume(s.remove(k), rank) == rank_volume(s, rank) - (if s[k].rank == rank {
            s[k].qty as int
        } else {
            0
        }),
        rank_count(s.remove(k), rank) == rank_count(s, rank) - (if s[k].rank == rank {
            1int
        } else {
            0
        }),
{
    lemma_rank_volume_insert(s.remove(k), k, s[k], rank);
    assert(s.remove(k).insert(k, s[k]) =~= s);
}

proof fn lemma_rank_volume_update<T>(s: Seq<Item<T>>, k: int, x: Item<T>, rank: int)
    requires
        0 <= k < s.len(),
        x.rank == s[k].rank,
    ensures
        rank_volume(s.update(k, x), rank) == rank_volume(s, rank) + (if x.rank == rank {
            x.qty - s[k].qty
        } else {
            0
        }),
        rank_count(s.update(k, x), rank) == rank_count(s, rank),
{
    lemma_rank_volume_remove(s, k, rank);
    lemma_rank_volume_insert(s.remove(k), k, x, rank);
    assert(s.remove(k).insert(k, x) =~= s.update(k, x));
}

/// A slot is pinned down by what stands before and behind it.
proof fn lemma_slot<T>(s: Seq<Item<T>>, rank: int, k: int)
    requires
        0 <= k <= s.len(),
        k > 0 ==> s[k - 1].rank <= rank,
        forall|i: int| k <= i < s.len() ==> s[i].rank > rank,
    ensures
        slot_for(s, rank) == k,
    decreases s.len(),
{
    if s.len() > 0 && k < s.len() {
        assert(s.last().rank > rank);
        lemma_slot(s.drop_last(), rank, k);
    }
}

/// Every entry counts at least itself.
proof fn lemma_rank_volume_has<T>(s: Seq<Item<T>>, k: int)
    requires
        0 <= k < s.len(),
        forall|i: int| 0 <= i < s.len() ==> s[i].qty > 0,
    ensures
        rank_volume(s, s[k].rank as int) >= s[k].qty,
        rank_count(s, s[k].rank as int) >= 1,
    decreases s.len(),
{
    lemma_rank_volume_nonneg(s.drop_last(), s[k].rank as int);
    if k < s.len() - 1 {
        assert(s.drop_last()[k] == s[k]);
        lemma_rank_volume_has(s.drop_last(), k);
    }
}

proof fn lemma_rank_volume_nonneg<T>(s: Seq<Item<T>>, rank: int)
    requires
        forall|i: int| 0 <= i < s.len() ==> s[i].qty > 0,
    ensures
        rank_volume(s, rank) >= 0,
        rank_count(s, rank) <= s.len(),
    decreases s.len(),
{
    if s.len() > 0 {
        assert forall|i: int| 0 <= i < s.drop_last().len() implies s.drop_last()[i].qty > 0 by {
            assert(s.drop_last()[i] == s[i]);
        }
        lemma_rank_volume_nonneg(s.drop_last(), rank);
    }
}

/// Nothing is tallied for a rank that no entry has.
proof fn lemma_no_volume<T>(s: Seq<Item<T>>, rank: int)
    requires
        forall|i: int| 0 <= i < s.len() ==> (#[trigger] s[i]).rank != rank,
    ensures
        rank_volume(s, rank) == 0,
    decreases s.len(),
{
    if s.len() > 0 {
        assert(s[s.len() - 1].rank != rank);
        assert forall|i: int| 0 <= i < s.drop_last().len() implies (#[trigger] s.drop_last()[i]).rank
            != rank by {
            assert(s.drop_last()[i] == s[i]);
        }
        lemma_no_volume(s.drop_last(), rank);
    }
}

impl<T: Copy> PriceLadder<T> {
    /// Chain, buckets and levels agree.
    pub closed spec fn wf(&self) -> bool {
        &&& self.nodes.wf()
        &&& self.buckets.wf()
        &&& linked(self.order@, self.nodes@, self.first)
        &&& bucketed(self.order@, self.nodes@, self.buckets@)
        &&& tallied(self.order@, self.nodes@, self.buckets@)
        &&& indexed(self.buckets@, self.levels@)
    }

    /// What a well-formed ladder shows: sorted entries of positive quantity,
    /// each with a handle of its own.
    pub proof fn lemma_view(&self)
        requires
            self.wf(),
        ensures
            by_rank(self@),
            forall|i: int| 0 <= i < self@.len() ==> (#[trigger] self@[i]).qty > 0,
            forall|i: int, j: int|
                0 <= i < self@.len() && 0 <= j < self@.len() && i != j ==> (
                #[trigger] self@[i]).handle != (#[trigger] self@[j]).handle,
    {
        reveal(bucketed);
    }

    /// Whether a handle stands for an entry.
    pub open spec fn has(&self, handle: usize) -> bool {
        exists|i: int| 0 <= i < self@.len() && (#[trigger] self@[i]).handle == handle
    }

    /// Place of a handle in the order of priority.
    pub open spec fn place(&self, handle: usize) -> int {
        choose|i: int| 0 <= i < self@.len() && (#[trigger] self@[i]).handle == handle
    }

    /// The place of the handle at `i` is `i`.
    pub proof fn lemma_place(&self, i: int)
        requires
            self.wf(),
            0 <= i < self@.len(),
        ensures
            self.has(self@[i].handle),
            self.place(self@[i].handle) == i,
    {
        let h = self@[i].handle;
        let j = self.place(h);
        assert(self.has(h));
        assert(0 <= j < self@.len() && self@[j].handle == h);
        assert(self.order@[i] == self.order@[j]);
    }

    /// The tallies of a ladder are machine words.
    pub proof fn lemma_volume_fits(&self, rank: int)
        requires
            self.wf(),
        ensures
            rank_volume(self@, rank) <= i64::MAX,
    {
        if exists|i: int| 0 <= i < self@.len() && (#[trigger] self@[i]).rank == rank {
            let i = choose|i: int| 0 <= i < self@.len() && (#[trigger] self@[i]).rank == rank;
            lemma_bucket_of(self.order@, self.nodes@, self.buckets@, i);
        } else {
            lemma_no_volume(self@, rank);
        }
    }

    /// Bound on the tallies of a ladder.
    proof fn lemma_lengths(&self)
        requires
            self.wf(),
        ensures
            self.order@.len() <= usize::MAX,
            forall|r: int| rank_count(self@, r) <= self.order@.len(),
            forall|r: int| rank_volume(self@, r) >= 0,
    {
        reveal(bucketed);
        self.nodes.lemma_len_bound();
        assert(self.nodes@.dom() =~= self.order@.to_set());
        self.order@.unique_seq_to_set();
        assert forall|r: int|
            rank_count(self@, r) <= self.order@.len() && rank_volume(self@, r) >= 0 by {
            lemma_rank_volume_nonneg(self@, r);
        }
    }

    pub fn new() -> (r: PriceLadder<T>)
        ensures
            r.wf(),
            r@ == Seq::<Item<T>>::empty(),
    {
        let r = PriceLadder {
            nodes: Arena::new(),
            buckets: Arena::new(),
            levels: Vec::new(),
            first: None,
            order: Ghost(Seq::empty()),
        };
        proof {
            reveal(bucketed);
            reveal(tallied);
            reveal(indexed);
        }
        assert(r@ =~= Seq::<Item<T>>::empty());
        r
    }

    /// Handle of the entry with the highest priority.
    pub fn front(&self) -> (r: Option<usize>)
        requires
            self.wf(),
        ensures
            r == (if self@.len() > 0 {
                Some(self@[0].handle)
            } else {
                None
            }),
    {
        self.first
    }

    /// Number of entries.
    pub fn len(&self) -> (r: usize)
        requires
            self.wf(),
        ensures
            r == self@.len(),
    {
        proof {
            assert(self.nodes@.dom() =~= self.order@.to_set());
            self.order@.unique_seq_to_set();
        }
        self.nodes.len()
    }

    /// Whether a handle stands for an entry.
    pub fn contains(&self, handle: usize) -> (r: bool)
        requires
            self.wf(),
        ensures
            r == self.has(handle),
    {
        let r: bool = self.nodes.contains(handle);
        proof {
            if r {
                let i = choose|i: int| 0 <= i < self.order@.len() && self.order@[i] == handle;
                assert(self@[i].handle == handle);
            } else if self.has(handle) {
                let i = self.place(handle);
                assert(self.order@[i] == handle);
            }
        }
        r
    }

    /// The entry behind a handle.
    pub fn get(&self, handle: usize) -> (r: Item<T>)
        requires
            self.wf(),
            self.has(handle),
        ensures
            r == self@[self.place(handle)],
            r.handle == handle,
    {
        proof {
            assert(self.order@[self.place(handle)] == handle);
        }
        let node = self.nodes.get(handle);
        Item { handle, rank: node.rank, qty: node.qty, value: node.value }
    }

    /// Handle of the entry that comes next in priority.
    pub fn behind(&self, handle: usize) -> (r: Option<usize>)
        requires
            self.wf(),
            self.has(handle),
        ensures
            r == (if self.place(handle) + 1 < self@.len() {
                Some(self@[self.place(handle) + 1].handle)
            } else {
                None
            }),
    {
        proof {
            assert(self.order@[self.place(handle)] == handle);
            assert(link_at(self.order@, self.nodes@, self.place(handle)));
        }
        self.nodes.get(handle).behind
    }

    /// Index of the first level that is not better than the rank.
    fn find_level(&self, rank: i64) -> (j: usize)
        requires
            self.wf(),
        ensures
            j <= self.levels@.len(),
            forall|i: int| 0 <= i < j ==> (#[trigger] self.levels@[i]).rank < rank,
            forall|i: int| j <= i < self.levels@.len() ==> (#[trigger] self.levels@[i]).rank >= rank,
    {
        proof {
            reveal(indexed);
        }
        let mut lo: usize = 0;
        let mut hi: usize = self.levels.len();
        while lo < hi
            invariant
                forall|i: int, j: int|
                    0 <= i < j < self.levels@.len() ==> self.levels@[i].rank < self.levels@[j].rank,
                lo <= hi <= self.levels@.len(),
                forall|i: int| 0 <= i < lo ==> (#[trigger] self.levels@[i]).rank < rank,
                forall|i: int|
                    hi <= i < self.levels@.len() ==> (#[trigger] self.levels@[i]).rank >= rank,
            decreases hi - lo,
        {
            let mid: usize = lo + (hi - lo) / 2;
            if self.levels[mid].rank < rank {
                lo = mid + 1;
            } else {
                hi = mid;
            }
        }
        lo
    }

    /// Puts a node into the chain behind `anchor`, or in front of all others.
    fn link(&mut self, rank: i64, qty: i64, value: T, bucket: usize, anchor: Option<usize>, k: Ghost<int>) -> (h: usize)
        requires
            old(self).nodes.wf(),
            linked(old(self).order@, old(self).nodes@, old(self).first),
            0 <= k@ <= old(self).order@.len(),
            anchor == (if k@ > 0 {
                Some(old(self).order@[k@ - 1])
            } else {
                None
            }),
        ensures
            final(self).nodes.wf(),
            final(self).buckets == old(self).buckets,
            final(self).levels == old(self).levels,
            !old(self).nodes@.contains_key(h),
            final(self).order@ == old(self).order@.insert(k@, h),
            linked(final(self).order@, final(self).nodes@, final(self).first),
            final(self).nodes@.contains_key(h),
            final(self).nodes@[h].rank == rank,
            final(self).nodes@[h].qty == qty,
            final(self).nodes@[h].value == value,
            final(self).nodes@[h].bucket == bucket,
            forall|x: usize| #[trigger]
                old(self).nodes@.contains_key(x) ==> final(self).nodes@.contains_key(x)
                    && same_entry(final(self).nodes@[x], old(self).nodes@[x]),
    {
        let behind: Option<usize> = match anchor {
            Some(a) => {
                assert(link_at(self.order@, self.nodes@, k@ - 1));
                self.nodes.get(a).behind
            },
            None => self.first,
        };
        let ghost q = self.order@;
        let ghost n = self.nodes@;
        proof {
            if k@ < q.len() {
                assert(behind == Some(q[k@]));
            } else {
                assert(behind.is_none());
            }
        }
        let h: usize = self.nodes.insert(
            Node { rank, qty, value, ahead: anchor, behind, bucket },
        );
        assert(!q.contains(h)) by {
            if q.contains(h) {
                let i = choose|i: int| 0 <= i < q.len() && q[i] == h;
                assert(n.contains_key(q[i]));
            }
        }
        match anchor {
            Some(a) => {
                let mut node = self.nodes.get(a);
                node.behind = Some(h);
                self.nodes.set(a, node);
            },
            None => {
                self.first = Some(h);
            },
        }
        match behind {
            Some(c) => {
                assert(q[k@] == c);
                let mut node = self.nodes.get(c);
                node.ahead = Some(h);
                self.nodes.set(c, node);
            },
            None => {},
        }
        proof {
            self.order@ = q.insert(k@, h);
            let q2 = self.order@;
            let n2 = self.nodes@;
            assert forall|i: int| 0 <= i < q2.len() implies q2[i] == (if i < k@ {
                q[i]
            } else if i == k@ {
                h
            } else {
                q[i - 1]
            }) by {}
            assert(q2.no_duplicates());
            assert forall|x: usize| #[trigger] n2.contains_key(x) implies q2.contains(x) by {
                if x == h {
                    assert(q2[k@] == h);
                } else {
                    assert(n.contains_key(x));
                    let i = choose|i: int| 0 <= i < q.len() && q[i] == x;
                    if i < k@ {
                        assert(q2[i] == x);
                    } else {
                        assert(q2[i + 1] == x);
                    }
                }
            }
            assert forall|i: int| 0 <= i < q2.len() implies #[trigger] link_at(q2, n2, i) by {
                if i < k@ {
                    assert(link_at(q, n, i));
                } else if i > k@ {
                    assert(link_at(q, n, i - 1));
                }
            }
        }
        h
    }

    /// Adds an entry behind all entries of its rank.
    #[verifier::rlimit(30)]
    pub fn push(&mut self, rank: i64, qty: i64, value: T) -> (h: usize)
        requires
            old(self).wf(),
            qty > 0,
            rank_volume(old(self)@, rank as int) + qty <= i64::MAX,
        ensures
            final(self).wf(),
            !old(self).has(h),
            final(self)@ == old(self)@.insert(
                slot_for(old(self)@, rank as int),
                (Item { handle: h, rank, qty, value }),
            ),
    {
        let j: usize = self.find_level(rank);
        let known: bool = j < self.levels.len() && self.levels[j].rank == rank;
        let ghost q = self.order@;
        let ghost n = self.nodes@;
        let ghost b = self.buckets@;
        let ghost l = self.levels@;
        let ghost s = self@;
        let ghost mut k: int = 0;
        let anchor: Option<usize> = if known {
            let x: usize = self.levels[j].bucket;
            proof {
                k = lemma_tail(q, n, b, l, j as int) + 1;
            }
            let bucket = self.buckets.get(x);
            Some(bucket.tail)
        } else if j > 0 {
            let x: usize = self.levels[j - 1].bucket;
            proof {
                k = lemma_tail(q, n, b, l, j - 1) + 1;
            }
            let bucket = self.buckets.get(x);
            Some(bucket.tail)
        } else {
            None
        };
        proof {
            lemma_position(q, n, b, l, j as int, rank, k);
            lemma_slot(s, rank as int, k);
        }
        let x: usize = if known {
            self.levels[j].bucket
        } else {
            self.buckets.insert(Bucket { rank, tail: 0, total: 0, count: 0 })
        };
        if !known {
            self.levels.insert(j, Level { rank, bucket: x });
        }
        let h: usize = self.link(rank, qty, value, x, anchor, Ghost(k));
        let mut bucket = self.buckets.get(x);
        let ghost fresh = Item { handle: h, rank, qty, value };
        let ghost q2 = self.order@;
        let ghost n2 = self.nodes@;
        proof {
            lemma_items_insert(q, n, q2, n2, k, h);
            if !known {
                lemma_absent_level(q, n, b, l, j as int, rank);
                lemma_no_rank(s, rank as int);
            }
            lemma_rank_volume_insert(s, k, fresh, rank as int);
            lemma_chain_length(q2, self.nodes, rank as int);
        }
        bucket.tail = h;
        bucket.total = bucket.total + qty;
        bucket.count = bucket.count + 1;
        self.buckets.set(x, bucket);
        proof {
            let b2 = self.buckets@;
            if !known {
                assert(!b.contains_key(x));
                assert(self.levels@ =~= l.insert(j as int, Level { rank, bucket: x }));
                lemma_indexed_insert(b, l, b2, j as int, Level { rank, bucket: x });
            } else {
                lemma_same_ranks(b, l, b2, x);
                lemma_one_bucket(q, n, b, x);
            }
            lemma_bucketed_insert(q, n, b, q2, n2, b2, k, h, x);
            lemma_tallied_insert(q, n, b, q2, n2, b2, k, h, x);
            if old(self).has(h) {
                let i = old(self).place(h);
                assert(n.contains_key(q[i]));
            }
        }
        h
    }

    /// Takes a node out of the chain.
    fn unlink(&mut self, h: usize, k: Ghost<int>)
        requires
            old(self).nodes.wf(),
            linked(old(self).order@, old(self).nodes@, old(self).first),
            0 <= k@ < old(self).order@.len(),
            old(self).order@[k@] == h,
        ensures
            final(self).nodes.wf(),
            final(self).buckets == old(self).buckets,
            final(self).levels == old(self).levels,
            final(self).order@ == old(self).order@.remove(k@),
            linked(final(self).order@, final(self).nodes@, final(self).first),
            final(self).nodes@.dom() == old(self).nodes@.dom().remove(h),
            forall|x: usize| #[trigger]
                old(self).nodes@.contains_key(x) && x != h ==> same_entry(
                    final(self).nodes@[x],
                    old(self).nodes@[x],
                ),
    {
        let ghost q = self.order@;
        let ghost n = self.nodes@;
        assert(link_at(q, n, k@));
        let node = self.nodes.get(h);
        match node.ahead {
            Some(a) => {
                assert(n.contains_key(q[k@ - 1]));
                let mut other = self.nodes.get(a);
                other.behind = node.behind;
                self.nodes.set(a, other);
            },
            None => {
                self.first = node.behind;
            },
        }
        match node.behind {
            Some(c) => {
                assert(n.contains_key(q[k@ + 1]));
                let mut other = self.nodes.get(c);
                other.ahead = node.ahead;
                self.nodes.set(c, other);
            },
            None => {},
        }
        let removed = self.nodes.remove(h);
        proof {
            self.order@ = q.remove(k@);
            let q2 = self.order@;
            let n2 = self.nodes@;
            assert forall|i: int| 0 <= i < q2.len() implies q2[i] == (if i < k@ {
                q[i]
            } else {
                q[i + 1]
            }) by {}
            assert(q2.no_duplicates());
            assert(n2.dom() =~= n.dom().remove(h));
            assert forall|x: usize| #[trigger] n2.contains_key(x) implies q2.contains(x) by {
                assert(n.contains_key(x));
                let i = choose|i: int| 0 <= i < q.len() && q[i] == x;
                if i < k@ {
                    assert(q2[i] == x);
                } else {
                    assert(q2[i - 1] == x);
                }
            }
            assert forall|i: int| #![trigger q2[i]] 0 <= i < q2.len() implies n2.contains_key(q2[i]) by {
                if i < k@ {
                    assert(n.contains_key(q[i]));
                } else {
                    assert(n.contains_key(q[i + 1]));
                }
            }
            assert forall|i: int| 0 <= i < q2.len() implies #[trigger] link_at(q2, n2, i) by {
                if i < k@ {
                    assert(link_at(q, n, i));
                } else {
                    assert(link_at(q, n, i + 1));
                }
            }
        }
    }

    /// Takes an entry out.
    pub fn remove(&mut self, h: usize) -> (r: Item<T>)
        requires
            old(self).wf(),
            old(self).has(h),
        ensures
            final(self).wf(),
            r == old(self)@[old(self).place(h)],
            r.handle == h,
            final(self)@ == old(self)@.remove(old(self).place(h)),
    {
        let r = self.get(h);
        let ghost q = self.order@;
        let ghost n = self.nodes@;
        let ghost b = self.buckets@;
        let ghost l = self.levels@;
        let ghost s = self@;
        let ghost k = self.place(h);
        proof {
            assert(q[k] == h);
            assert(n.contains_key(q[k]));
            lemma_bucket_of(q, n, b, k);
            assert(link_at(q, n, k));
        }
        let node = self.nodes.get(h);
        let x: usize = node.bucket;
        let mut bucket = self.buckets.get(x);
        let shared: bool = match node.ahead {
            Some(a) => {
                assert(n.contains_key(q[k - 1]));
                self.nodes.get(a).bucket == x
            },
            None => false,
        };
        let j: usize = self.find_level(node.rank);
        let ghost t = lemma_tail_of(q, n, b, x);
        self.unlink(h, Ghost(k));
        let ghost q2 = self.order@;
        let ghost n2 = self.nodes@;
        proof {
            lemma_items_remove(q, n, q2, n2, k);
            lemma_rank_volume_remove(s, k, node.rank as int);
        }
        if bucket.tail == h && !shared {
            proof {
                lemma_alone(q, n, b, k);
                lemma_level_of(b, l, x, j as int);
            }
            let removed_bucket = self.buckets.remove(x);
            let removed_level = self.levels.remove(j);
            proof {
                let b2 = self.buckets@;
                assert(self.levels@ =~= l.remove(j as int));
                lemma_indexed_remove(b, l, b2, j as int);
                lemma_bucketed_remove(q, n, b, q2, n2, b2, k);
                lemma_tallied_remove(q, n, b, q2, n2, b2, k, t);
            }
        } else {
            proof {
                lemma_counts_at_least(q, n, b, k);
            }
            bucket.total = bucket.total - node.qty;
            bucket.count = bucket.count - 1;
            if bucket.tail == h {
                match node.ahead {
                    Some(a) => {
                        bucket.tail = a;
                    },
                    None => {},
                }
            }
            self.buckets.set(x, bucket);
            proof {
                let b2 = self.buckets@;
                lemma_same_ranks(b, l, b2, x);
                lemma_bucketed_remove(q, n, b, q2, n2, b2, k);
                lemma_tallied_remove(q, n, b, q2, n2, b2, k, t);
            }
        }
        r
    }

    /// Changes the quantity and the value of an entry in place.
    pub fn update(&mut self, h: usize, qty: i64, value: T)
        requires
            old(self).wf(),
            old(self).has(h),
            qty > 0,
            qty <= old(self)@[old(self).place(h)].qty || rank_volume(
                old(self)@,
                old(self)@[old(self).place(h)].rank as int,
            ) - old(self)@[old(self).place(h)].qty + qty <= i64::MAX,
        ensures
            final(self).wf(),
            final(self)@ == old(self)@.update(
                old(self).place(h),
                (Item { handle: h, rank: old(self)@[old(self).place(h)].rank, qty, value }),
            ),
    {
        let ghost q = self.order@;
        let ghost n = self.nodes@;
        let ghost b = self.buckets@;
        let ghost k = self.place(h);
        proof {
            assert(q[k] == h);
            assert(n.contains_key(q[k]));
            lemma_bucket_of(q, n, b, k);
            lemma_counts_at_least(q, n, b, k);
        }
        let mut node = self.nodes.get(h);
        let x: usize = node.bucket;
        let mut bucket = self.buckets.get(x);
        bucket.total = bucket.total - node.qty + qty;
        node.qty = qty;
        node.value = value;
        self.nodes.set(h, node);
        self.buckets.set(x, bucket);
        proof {
            let n2 = self.nodes@;
            let b2 = self.buckets@;
            assert forall|i: int| 0 <= i < q.len() implies #[trigger] link_at(q, n2, i) by {
                assert(link_at(q, n, i));
            }
            assert(n2.dom() =~= n.dom());
            lemma_same_ranks(b, self.levels@, b2, x);
            lemma_update(q, n, b, n2, b2, k);
        }
    }

    /// Number of ranks in use.
    pub fn level_count(&self) -> (r: usize)
        requires
            self.wf(),
        ensures
            r == ranks(self@).len(),
    {
        proof {
            self.lemma_levels();
        }
        self.levels.len()
    }

    /// Rank, quantity and number of entries of the `i`-th best rank.
    pub fn level_at(&self, i: usize) -> (r: (i64, i64, usize))
        requires
            self.wf(),
            i < ranks(self@).len(),
        ensures
            r.0 == ranks(self@)[i as int],
            r.1 == rank_volume(self@, r.0 as int),
            r.2 == rank_count(self@, r.0 as int),
    {
        proof {
            self.lemma_levels();
            let t = lemma_tail(self.order@, self.nodes@, self.buckets@, self.levels@, i as int);
        }
        let level = self.levels[i];
        let bucket = self.buckets.get(level.bucket);
        (level.rank, bucket.total, bucket.count)
    }

    /// The levels are the ranks of the entries.
    proof fn lemma_levels(&self)
        requires
            self.wf(),
        ensures
            self.levels@.len() == ranks(self@).len(),
            forall|i: int|
                0 <= i < self.levels@.len() ==> (#[trigger] self.levels@[i]).rank == ranks(
                    self@,
                )[i],
    {
        let l = self.levels@;
        let s = self@;
        let a = Seq::new(l.len(), |i: int| l[i].rank);
        self.lemma_view();
        lemma_ranks(s);
        assert forall|r: i64| a.contains(r) implies ranks(s).contains(r) by {
            let i = choose|i: int| 0 <= i < a.len() && a[i] == r;
            let t = lemma_tail(self.order@, self.nodes@, self.buckets@, l, i);
            assert(s[t].rank == r);
        }
        assert forall|r: i64| ranks(s).contains(r) implies a.contains(r) by {
            let i = choose|i: int| 0 <= i < s.len() && (#[trigger] s[i]).rank == r;
            let m = self.lemma_level_exists(i);
            assert(a[m] == r);
        }
        assert(increasing(a)) by {
            reveal(indexed);
        }
        lemma_increasing_unique(a, ranks(s));
        assert forall|i: int| 0 <= i < l.len() implies (#[trigger] l[i]).rank == ranks(s)[i] by {
            assert(a[i] == l[i].rank);
        }
    }

    /// The rank of an entry has a level.
    proof fn lemma_level_exists(&self, i: int) -> (m: int)
        requires
            self.wf(),
            0 <= i < self@.len(),
        ensures
            0 <= m < self.levels@.len(),
            self.levels@[m].rank == self@[i].rank,
    {
        lemma_bucket_of(self.order@, self.nodes@, self.buckets@, i);
        reveal(indexed);
        let x = self.nodes@[self.order@[i]].bucket;
        choose|m: int| 0 <= m < self.levels@.len() && (#[trigger] self.levels@[m]).bucket == x
    }

    /// Whether the entries up to a rank hold a quantity.
    pub fn reaches(&self, limit: i64, needed: i64) -> (r: bool)
        requires
            self.wf(),
            needed > 0,
        ensures
            r == (volume_up_to(self@, limit as int) >= needed),
    {
        let ghost s = self@;
        let ghost l = self.levels@;
        let mut rest: i64 = needed;
        let mut j: usize = 0;
        let ghost mut low: int = i64::MIN - 1;
        proof {
            self.lemma_view();
            self.lemma_lengths();
            lemma_volume_none(s, low);
        }
        while j < self.levels.len() && self.levels[j].rank <= limit
            invariant
                self.wf(),
                s == self@,
                l == self.levels@,
                j <= l.len(),
                low == (if j > 0 {
                    l[j - 1].rank as int
                } else {
                    i64::MIN - 1
                }),
                low <= limit,
                rest == needed - volume_up_to(s, low),
                rest > 0,
            decreases l.len() - j,
        {
            proof {
                let t = lemma_tail(self.order@, self.nodes@, self.buckets@, l, j as int);
                self.lemma_view();
                self.lemma_lengths();
                assert forall|i: int| 0 <= i < s.len() implies (#[trigger] s[i]).rank <= low
                    || s[i].rank >= l[j as int].rank by {
                    let m = self.lemma_level_exists(i);
                    reveal(indexed);
                    assert(m < j ==> l[m].rank <= l[j - 1].rank);
                }
                assert(low < l[j as int].rank) by {
                    reveal(indexed);
                }
                lemma_volume_step(s, low, l[j as int].rank as int);
                lemma_volume_mono(s, l[j as int].rank as int, limit as int);
                assert(rank_volume(s, l[j as int].rank as int) >= 0);
            }
            let bucket = self.buckets.get(self.levels[j].bucket);
            if bucket.total >= rest {
                return true;
            }
            rest = rest - bucket.total;
            proof {
                low = l[j as int].rank as int;
            }
            j = j + 1;
        }
        proof {
            assert forall|i: int| 0 <= i < s.len() implies (#[trigger] s[i]).rank <= low
                || s[i].rank > limit by {
                let m = self.lemma_level_exists(i);
                reveal(indexed);
                assert(m < j ==> l[m].rank <= l[j - 1].rank);
                assert(m > j ==> l[m].rank > l[j as int].rank);
            }
            lemma_volume_gap(s, low, limit as int);
        }
        false
    }
}

/// Strictly increasing.
pub open spec fn increasing(a: Seq<i64>) -> bool {
    forall|i: int, j: int| 0 <= i < j < a.len() ==> a[i] < a[j]
}

/// The ranks of sorted entries are increasing, and are the ranks that occur.
pub proof fn lemma_ranks<T>(s: Seq<Item<T>>)
    requires
        by_rank(s),
    ensures
        increasing(ranks(s)),
        s.len() > 0 ==> ranks(s).len() > 0 && ranks(s).last() == s.last().rank,
        forall|i: int| 0 <= i < s.len() ==> ranks(s).contains((#[trigger] s[i]).rank),
        forall|r: i64| #[trigger]
            ranks(s).contains(r) ==> exists|i: int| 0 <= i < s.len() && (#[trigger] s[i]).rank == r,
    decreases s.len(),
{
    if s.len() > 0 {
        let p = s.drop_last();
        assert(by_rank(p));
        lemma_ranks(p);
        let rp = ranks(p);
        let rs = ranks(s);
        if rp.len() > 0 {
            assert(p.len() > 0);
            assert(rp.last() == s[s.len() - 2].rank);
            assert(rp.last() <= s.last().rank);
        }
        assert forall|i: int| 0 <= i < s.len() implies rs.contains((#[trigger] s[i]).rank) by {
            if i < p.len() {
                assert(p[i] == s[i]);
                let m = choose|m: int| 0 <= m < rp.len() && rp[m] == s[i].rank;
                assert(rs[m] == s[i].rank);
            } else {
                assert(rs[rs.len() - 1] == s[i].rank);
            }
        }
        assert forall|r: i64| #[trigger] rs.contains(r) implies exists|i: int|
            0 <= i < s.len() && (#[trigger] s[i]).rank == r by {
            let m = choose|m: int| 0 <= m < rs.len() && rs[m] == r;
            if r == s.last().rank {
                assert(s[s.len() - 1].rank == r);
            } else {
                assert(rp[m] == r);
                assert(rp.contains(r));
                let i = choose|i: int| 0 <= i < p.len() && (#[trigger] p[i]).rank == r;
                assert(s[i].rank == r);
            }
        }
    }
}

/// Increasing sequences of the same numbers are equal.
proof fn lemma_increasing_unique(a: Seq<i64>, b: Seq<i64>)
    requires
        increasing(a),
        increasing(b),
        forall|r: i64| #[trigger] a.contains(r) ==> b.contains(r),
        forall|r: i64| #[trigger] b.contains(r) ==> a.contains(r),
    ensures
        a == b,
    decreases a.len(),
{
    if a.len() == 0 {
        if b.len() > 0 {
            assert(b.contains(b[0]));
        }
        assert(a =~= b);
    } else {
        assert(a.contains(a[a.len() - 1]));
        assert(b.contains(a.last()));
        assert(b.contains(b[b.len() - 1]));
        assert(a.contains(b.last()));
        assert(a.last() == b.last());
        let a2 = a.drop_last();
        let b2 = b.drop_last();
        assert forall|r: i64| #[trigger] a2.contains(r) implies b2.contains(r) by {
            let m = choose|m: int| 0 <= m < a2.len() && a2[m] == r;
            assert(a[m] == r);
            assert(a.contains(r));
            let p = choose|p: int| 0 <= p < b.len() && b[p] == r;
            assert(b2[p] == r);
        }
        assert forall|r: i64| #[trigger] b2.contains(r) implies a2.contains(r) by {
            let m = choose|m: int| 0 <= m < b2.len() && b2[m] == r;
            assert(b[m] == r);
            assert(b.contains(r));
            let p = choose|p: int| 0 <= p < a.len() && a[p] == r;
            assert(a2[p] == r);
        }
        lemma_increasing_unique(a2, b2);
        assert(a =~= a2.push(a.last()));
        assert(b =~= b2.push(b.last()));
    }
}

proof fn lemma_volume_none<T>(s: Seq<Item<T>>, rank: int)
    requires
        rank < i64::MIN,
    ensures
        volume_up_to(s, rank) == 0,
    decreases s.len(),
{
    if s.len() > 0 {
        lemma_volume_none(s.drop_last(), rank);
    }
}

proof fn lemma_volume_gap<T>(s: Seq<Item<T>>, low: int, high: int)
    requires
        low <= high,
        forall|i: int| 0 <= i < s.len() ==> (#[trigger] s[i]).rank <= low || s[i].rank > high,
    ensures
        volume_up_to(s, high) == volume_up_to(s, low),
    decreases s.len(),
{
    if s.len() > 0 {
        let p = s.drop_last();
        assert forall|i: int| 0 <= i < p.len() implies (#[trigger] p[i]).rank <= low || p[i].rank
            > high by {
            assert(p[i] == s[i]);
        }
        lemma_volume_gap(p, low, high);
    }
}

proof fn lemma_volume_step<T>(s: Seq<Item<T>>, low: int, high: int)
    requires
        low < high,
        forall|i: int| 0 <= i < s.len() ==> (#[trigger] s[i]).rank <= low || s[i].rank >= high,
    ensures
        volume_up_to(s, high) == volume_up_to(s, low) + rank_volume(s, high),
    decreases s.len(),
{
    if s.len() > 0 {
        let p = s.drop_last();
        assert forall|i: int| 0 <= i < p.len() implies (#[trigger] p[i]).rank <= low || p[i].rank
            >= high by {
            assert(p[i] == s[i]);
        }
        lemma_volume_step(p, low, high);
    }
}

proof fn lemma_volume_mono<T>(s: Seq<Item<T>>, low: int, high: int)
    requires
        low <= high,
        forall|i: int| 0 <= i < s.len() ==> (#[trigger] s[i]).qty > 0,
    ensures
        volume_up_to(s, low) <= volume_up_to(s, high),
    decreases s.len(),
{
    if s.len() > 0 {
        let p = s.drop_last();
        assert forall|i: int| 0 <= i < p.len() implies (#[trigger] p[i]).qty > 0 by {
            assert(p[i] == s[i]);
        }
        lemma_volume_mono(p, low, high);
    }
}

/// The node at a place belongs to the bucket of its rank, which no other bucket
/// has.
proof fn lemma_bucket_of<T>(q: Seq<usize>, n: Map<usize, Node<T>>, b: Map<usize, Bucket>, k: int)
    requires
        bucketed(q, n, b),
        tallied(q, n, b),
        0 <= k < q.len(),
    ensures
        n[q[k]].qty > 0,
        b.contains_key(n[q[k]].bucket),
        b[n[q[k]].bucket].rank == n[q[k]].rank,
        b[n[q[k]].bucket].total == rank_volume(items(q, n), n[q[k]].rank as int),
        b[n[q[k]].bucket].count == rank_count(items(q, n), n[q[k]].rank as int),
{
    reveal(bucketed);
    reveal(tallied);
    assert(b.contains_key(n[q[k]].bucket));
}

/// The tail of a bucket stands at some place.
proof fn lemma_tail_of<T>(
    q: Seq<usize>,
    n: Map<usize, Node<T>>,
    b: Map<usize, Bucket>,
    x: usize,
) -> (t: int)
    requires
        tallied(q, n, b),
        b.contains_key(x),
    ensures
        tail_at(q, n, b[x], t),
{
    reveal(tallied);
    choose|t: int| tail_at(q, n, b[x], t)
}

/// An entry counts toward its bucket.
proof fn lemma_counts_at_least<T>(
    q: Seq<usize>,
    n: Map<usize, Node<T>>,
    b: Map<usize, Bucket>,
    k: int,
)
    requires
        bucketed(q, n, b),
        tallied(q, n, b),
        0 <= k < q.len(),
    ensures
        b[n[q[k]].bucket].total >= n[q[k]].qty,
        b[n[q[k]].bucket].count >= 1,
{
    lemma_bucket_of(q, n, b, k);
    reveal(bucketed);
    assert forall|i: int| 0 <= i < items(q, n).len() implies items(q, n)[i].qty > 0 by {
        assert(n[q[i]].qty > 0);
    }
    lemma_rank_volume_has(items(q, n), k);
}

/// A tail that has no entry of its bucket ahead of it is alone in the bucket.
proof fn lemma_alone<T>(q: Seq<usize>, n: Map<usize, Node<T>>, b: Map<usize, Bucket>, k: int)
    requires
        q.no_duplicates(),
        bucketed(q, n, b),
        tallied(q, n, b),
        0 <= k < q.len(),
        b[n[q[k]].bucket].tail == q[k],
        k > 0 ==> n[q[k - 1]].bucket != n[q[k]].bucket,
    ensures
        forall|i: int| 0 <= i < q.len() && i != k ==> n[#[trigger] q[i]].rank != n[q[k]].rank,
        forall|i: int| 0 <= i < q.len() && i != k ==> n[#[trigger] q[i]].bucket != n[q[k]].bucket,
{
    lemma_bucket_of(q, n, b, k);
    let x = n[q[k]].bucket;
    let t = lemma_tail_of(q, n, b, x);
    assert(t == k);
    reveal(bucketed);
    assert forall|i: int| 0 <= i < q.len() && i != k implies n[#[trigger] q[i]].rank
        != n[q[k]].rank by {
        if i < k {
            assert(n[q[i]].rank <= n[q[k - 1]].rank);
            assert(n[q[k - 1]].rank <= n[q[k]].rank);
            assert(b[n[q[k - 1]].bucket].rank == n[q[k - 1]].rank);
            assert(b[x].rank == n[q[k]].rank);
        } else {
            assert(n[q[k + 1]].rank <= n[q[i]].rank);
        }
    }
}

/// The level of a bucket is the one that the search for its rank finds.
proof fn lemma_level_of(b: Map<usize, Bucket>, l: Seq<Level>, x: usize, j: int)
    requires
        indexed(b, l),
        b.contains_key(x),
        0 <= j <= l.len(),
        forall|i: int| 0 <= i < j ==> (#[trigger] l[i]).rank < b[x].rank,
        forall|i: int| j <= i < l.len() ==> (#[trigger] l[i]).rank >= b[x].rank,
    ensures
        j < l.len(),
        l[j].bucket == x,
{
    reveal(indexed);
    let m = choose|m: int| 0 <= m < l.len() && (#[trigger] l[m]).bucket == x;
    assert(l[m].rank == b[x].rank);
    if m != j {
        assert(l[j].rank >= b[x].rank);
        assert(l[j].rank < l[m].rank);
    }
}

/// Dropping a level together with its bucket keeps the index complete.
proof fn lemma_indexed_remove(b: Map<usize, Bucket>, l: Seq<Level>, b2: Map<usize, Bucket>, j: int)
    requires
        indexed(b, l),
        0 <= j < l.len(),
        b2 == b.remove(l[j].bucket),
    ensures
        indexed(b2, l.remove(j)),
{
    reveal(indexed);
    let l2 = l.remove(j);
    assert forall|u: usize| #[trigger] b2.contains_key(u) implies exists|i: int|
        0 <= i < l2.len() && (#[trigger] l2[i]).bucket == u by {
        assert(b.contains_key(u));
        let i = choose|i: int| 0 <= i < l.len() && (#[trigger] l[i]).bucket == u;
        if i < j {
            assert(l2[i].bucket == u);
        } else {
            assert(l2[i - 1].bucket == u);
        }
    }
    assert forall|i: int| #![trigger l2[i]] 0 <= i < l2.len() implies b2.contains_key(l2[i].bucket)
        && b2[l2[i].bucket].rank == l2[i].rank by {
        let m = if i < j {
            i
        } else {
            i + 1
        };
        assert(l2[i] == l[m]);
        assert(b.contains_key(l[m].bucket));
        assert(m < j ==> l[m].rank < l[j].rank);
        assert(m > j ==> l[j].rank < l[m].rank);
    }
}

/// Unlinking a node removes its entry.
proof fn lemma_items_remove<T>(
    q: Seq<usize>,
    n: Map<usize, Node<T>>,
    q2: Seq<usize>,
    n2: Map<usize, Node<T>>,
    k: int,
)
    requires
        0 <= k < q.len(),
        q.no_duplicates(),
        q2 == q.remove(k),
        forall|i: int| #![trigger q[i]] 0 <= i < q.len() ==> n.contains_key(q[i]),
        forall|x: usize| #[trigger] n.contains_key(x) && x != q[k] ==> same_entry(n2[x], n[x]),
    ensures
        items(q2, n2) == items(q, n).remove(k),
{
    let t = items(q, n).remove(k);
    assert forall|i: int| 0 <= i < q2.len() implies #[trigger] items(q2, n2)[i] == t[i] by {
        if i < k {
            assert(n.contains_key(q[i]));
        } else {
            assert(n.contains_key(q[i + 1]));
        }
    }
    assert(items(q2, n2) =~= t);
}

/// What remains after an entry has left is still sorted and bucketed.
proof fn lemma_bucketed_remove<T>(
    q: Seq<usize>,
    n: Map<usize, Node<T>>,
    b: Map<usize, Bucket>,
    q2: Seq<usize>,
    n2: Map<usize, Node<T>>,
    b2: Map<usize, Bucket>,
    k: int,
)
    requires
        bucketed(q, n, b),
        0 <= k < q.len(),
        q.no_duplicates(),
        q2 == q.remove(k),
        forall|i: int| #![trigger q[i]] 0 <= i < q.len() ==> n.contains_key(q[i]),
        forall|x: usize| #[trigger] n.contains_key(x) && x != q[k] ==> same_entry(n2[x], n[x]),
        forall|y: usize| #[trigger] b2.contains_key(y) ==> b.contains_key(y) && b2[y].rank
            == b[y].rank,
        forall|y: usize| #[trigger]
            b.contains_key(y) && y != n[q[k]].bucket ==> b2.contains_key(y),
        b2.contains_key(n[q[k]].bucket) || (forall|i: int|
            0 <= i < q.len() && i != k ==> n[#[trigger] q[i]].bucket != n[q[k]].bucket),
    ensures
        bucketed(q2, n2, b2),
{
    reveal(bucketed);
    assert forall|i: int| 0 <= i < q2.len() implies q2[i] == (if i < k {
        q[i]
    } else {
        q[i + 1]
    }) by {}
    assert forall|i: int| #![trigger q2[i]] 0 <= i < q2.len() implies n2[q2[i]].qty > 0
        && b2.contains_key(n2[q2[i]].bucket) && b2[n2[q2[i]].bucket].rank == n2[q2[i]].rank by {
        let m = if i < k {
            i
        } else {
            i + 1
        };
        assert(q2[i] == q[m]);
        assert(n.contains_key(q[m]));
        assert(b.contains_key(n[q[m]].bucket));
    }
    assert forall|i: int, j: int| #![trigger q2[i], q2[j]] 0 <= i <= j < q2.len() implies n2[q2[i]].rank
        <= n2[q2[j]].rank by {
        let mi = if i < k {
            i
        } else {
            i + 1
        };
        let mj = if j < k {
            j
        } else {
            j + 1
        };
        assert(n.contains_key(q[mi]) && n.contains_key(q[mj]));
        assert(n[q[mi]].rank <= n[q[mj]].rank);
    }
}

/// Tails and tallies after an entry has left.
proof fn lemma_tallied_remove<T>(
    q: Seq<usize>,
    n: Map<usize, Node<T>>,
    b: Map<usize, Bucket>,
    q2: Seq<usize>,
    n2: Map<usize, Node<T>>,
    b2: Map<usize, Bucket>,
    k: int,
    tx: int,
)
    requires
        bucketed(q, n, b),
        tallied(q, n, b),
        0 <= k < q.len(),
        q.no_duplicates(),
        q2 == q.remove(k),
        forall|i: int| #![trigger q[i]] 0 <= i < q.len() ==> n.contains_key(q[i]),
        forall|x: usize| #[trigger] n.contains_key(x) && x != q[k] ==> same_entry(n2[x], n[x]),
        forall|y: usize| #[trigger]
            b2.contains_key(y) && y != n[q[k]].bucket ==> b.contains_key(y) && b2[y] == b[y],
        tail_at(q, n, b[n[q[k]].bucket], tx),
        b2.contains_key(n[q[k]].bucket) ==> {
            let old_bucket = b[n[q[k]].bucket];
            let new_bucket = b2[n[q[k]].bucket];
            &&& new_bucket.rank == old_bucket.rank
            &&& new_bucket.total == old_bucket.total - n[q[k]].qty
            &&& new_bucket.count == old_bucket.count - 1
            &&& new_bucket.tail == (if old_bucket.tail == q[k] {
                q[k - 1]
            } else {
                old_bucket.tail
            })
            &&& old_bucket.tail == q[k] ==> k > 0 && n[q[k - 1]].bucket == n[q[k]].bucket
        },
    ensures
        tallied(q2, n2, b2),
{
    lemma_bucket_of(q, n, b, k);
    lemma_one_bucket(q, n, b, n[q[k]].bucket);
    lemma_items_remove(q, n, q2, n2, k);
    let s = items(q, n);
    let x = n[q[k]].bucket;
    assert forall|i: int| 0 <= i < q2.len() implies q2[i] == (if i < k {
        q[i]
    } else {
        q[i + 1]
    }) by {}
    assert(forall|i: int, j: int| #![trigger q[i], q[j]]
        0 <= i <= j < q.len() ==> n[q[i]].rank <= n[q[j]].rank) by {
        reveal(bucketed);
    }
    if k > 0 && n[q[k - 1]].bucket == x {
        lemma_bucket_of(q, n, b, k - 1);
    }
    reveal(tallied);
    assert forall|u: usize| #[trigger] b2.contains_key(u) implies {
        &&& exists|t: int| tail_at(q2, n2, b2[u], t)
        &&& b2[u].total == rank_volume(items(q2, n2), b2[u].rank as int)
        &&& b2[u].count == rank_count(items(q2, n2), b2[u].rank as int)
    } by {
        lemma_rank_volume_remove(s, k, b2[u].rank as int);
        let t = if u == x {
            tx
        } else {
            assert(b.contains_key(u));
            choose|t: int| tail_at(q, n, b[u], t)
        };
        assert(n.contains_key(q[t]));
        if t + 1 < q.len() {
            assert(n.contains_key(q[t + 1]));
        }
        if k + 1 < q.len() {
            assert(n.contains_key(q[k + 1]));
            assert(n[q[k]].rank <= n[q[k + 1]].rank);
        }
        if t < k {
            if u == x {
                assert(n[q[t + 1]].rank <= n[q[k]].rank);
                assert(false);
            }
            assert(tail_at(q2, n2, b2[u], t));
        } else if t == k {
            assert(n.contains_key(q[k - 1]));
            assert(tail_at(q2, n2, b2[u], k - 1));
        } else {
            assert(tail_at(q2, n2, b2[u], t - 1));
        }
    }
}

/// Changing an entry in place keeps everything but the total of its bucket.
proof fn lemma_update<T>(
    q: Seq<usize>,
    n: Map<usize, Node<T>>,
    b: Map<usize, Bucket>,
    n2: Map<usize, Node<T>>,
    b2: Map<usize, Bucket>,
    k: int,
)
    requires
        q.no_duplicates(),
        bucketed(q, n, b),
        tallied(q, n, b),
        0 <= k < q.len(),
        forall|i: int| #![trigger q[i]] 0 <= i < q.len() ==> n.contains_key(q[i]),
        n2 == n.insert(q[k], n2[q[k]]),
        n2[q[k]].rank == n[q[k]].rank,
        n2[q[k]].bucket == n[q[k]].bucket,
        n2[q[k]].qty > 0,
        b2 == b.insert(n[q[k]].bucket, b2[n[q[k]].bucket]),
        b2[n[q[k]].bucket].rank == b[n[q[k]].bucket].rank,
        b2[n[q[k]].bucket].tail == b[n[q[k]].bucket].tail,
        b2[n[q[k]].bucket].count == b[n[q[k]].bucket].count,
        b2[n[q[k]].bucket].total == b[n[q[k]].bucket].total - n[q[k]].qty + n2[q[k]].qty,
    ensures
        bucketed(q, n2, b2),
        tallied(q, n2, b2),
        items(q, n2) == items(q, n).update(
            k,
            (Item {
                handle: q[k],
                rank: n[q[k]].rank,
                qty: n2[q[k]].qty,
                value: n2[q[k]].value,
            }),
        ),
{
    let s = items(q, n);
    let changed = Item {
        handle: q[k],
        rank: n[q[k]].rank,
        qty: n2[q[k]].qty,
        value: n2[q[k]].value,
    };
    assert(items(q, n2) =~= s.update(k, changed)) by {
        assert forall|i: int| 0 <= i < q.len() implies #[trigger] items(q, n2)[i] == s.update(
            k,
            changed,
        )[i] by {
            assert(i != k ==> q[i] != q[k]);
        }
    }
    lemma_bucket_of(q, n, b, k);
    lemma_one_bucket(q, n, b, n[q[k]].bucket);
    assert(forall|i: int| #![trigger q[i]] 0 <= i < q.len() ==> n2[q[i]].rank == n[q[i]].rank);
    assert(bucketed(q, n2, b2)) by {
        reveal(bucketed);
    }
    reveal(tallied);
    assert forall|u: usize| #[trigger] b2.contains_key(u) implies {
        &&& exists|t: int| tail_at(q, n2, b2[u], t)
        &&& b2[u].total == rank_volume(items(q, n2), b2[u].rank as int)
        &&& b2[u].count == rank_count(items(q, n2), b2[u].rank as int)
    } by {
        lemma_rank_volume_update(s, k, changed, b2[u].rank as int);
        assert(b.contains_key(u));
        let t = choose|t: int| tail_at(q, n, b[u], t);
        if t + 1 < q.len() {
            assert(n2[q[t + 1]].rank == n[q[t + 1]].rank);
        }
        assert(tail_at(q, n2, b2[u], t));
    }
}

/// The bucket of a level knows the last entry of its rank.
proof fn lemma_tail<T>(
    q: Seq<usize>,
    n: Map<usize, Node<T>>,
    b: Map<usize, Bucket>,
    l: Seq<Level>,
    j: int,
) -> (t: int)
    requires
        tallied(q, n, b),
        indexed(b, l),
        0 <= j < l.len(),
    ensures
        b.contains_key(l[j].bucket),
        b[l[j].bucket].rank == l[j].rank,
        b[l[j].bucket].total == rank_volume(items(q, n), l[j].rank as int),
        b[l[j].bucket].count == rank_count(items(q, n), l[j].rank as int),
        tail_at(q, n, b[l[j].bucket], t),
{
    reveal(tallied);
    reveal(indexed);
    assert(b.contains_key(l[j].bucket));
    choose|t: int| tail_at(q, n, b[l[j].bucket], t)
}

/// The place behind all entries that are no worse than the rank, found from the
/// levels.
proof fn lemma_position<T>(
    q: Seq<usize>,
    n: Map<usize, Node<T>>,
    b: Map<usize, Bucket>,
    l: Seq<Level>,
    j: int,
    rank: i64,
    k: int,
)
    requires
        bucketed(q, n, b),
        indexed(b, l),
        0 <= j <= l.len(),
        forall|i: int| 0 <= i < j ==> (#[trigger] l[i]).rank < rank,
        forall|i: int| j <= i < l.len() ==> (#[trigger] l[i]).rank >= rank,
        if j < l.len() && l[j].rank == rank {
            tail_at(q, n, b[l[j].bucket], k - 1)
        } else if j > 0 {
            tail_at(q, n, b[l[j - 1].bucket], k - 1)
        } else {
            k == 0
        },
    ensures
        0 <= k <= q.len(),
        k > 0 ==> n[q[k - 1]].rank <= rank,
        forall|i: int| k <= i < q.len() ==> n[#[trigger] q[i]].rank > rank,
{
    reveal(bucketed);
    reveal(indexed);
    assert forall|i: int| k <= i < q.len() implies n[#[trigger] q[i]].rank > rank by {
        let y = n[q[i]].bucket;
        let m = choose|m: int| 0 <= m < l.len() && (#[trigger] l[m]).bucket == y;
        assert(l[m].rank == n[q[i]].rank);
        assert(n[q[k]].rank <= n[q[i]].rank);
        if j < l.len() && l[j].rank == rank {
        } else {
            if j > 0 {
                assert(l[m].rank > l[j - 1].rank);
                assert(m > j - 1);
            }
            assert(l[m].rank >= rank);
            assert(m > j ==> l[j].rank < l[m].rank);
        }
    }
}

/// A rank that no level has is the rank of no bucket and no entry.
proof fn lemma_absent_level<T>(
    q: Seq<usize>,
    n: Map<usize, Node<T>>,
    b: Map<usize, Bucket>,
    l: Seq<Level>,
    j: int,
    rank: i64,
)
    requires
        bucketed(q, n, b),
        indexed(b, l),
        0 <= j <= l.len(),
        forall|i: int| 0 <= i < j ==> (#[trigger] l[i]).rank < rank,
        forall|i: int| j <= i < l.len() ==> (#[trigger] l[i]).rank >= rank,
        j < l.len() ==> l[j].rank != rank,
    ensures
        forall|w: usize| b.contains_key(w) ==> (#[trigger] b[w]).rank != rank,
        forall|i: int| 0 <= i < q.len() ==> (#[trigger] items(q, n)[i]).rank != rank,
        forall|i: int| j <= i < l.len() ==> (#[trigger] l[i]).rank > rank,
{
    reveal(bucketed);
    reveal(indexed);
    assert forall|w: usize| b.contains_key(w) implies (#[trigger] b[w]).rank != rank by {
        let m = choose|m: int| 0 <= m < l.len() && (#[trigger] l[m]).bucket == w;
        assert(m > j ==> l[j].rank < l[m].rank);
    }
    assert forall|i: int| 0 <= i < q.len() implies (#[trigger] items(q, n)[i]).rank != rank by {
        assert(b.contains_key(n[q[i]].bucket));
    }
}

/// Linking a node in inserts its entry.
proof fn lemma_items_insert<T>(
    q: Seq<usize>,
    n: Map<usize, Node<T>>,
    q2: Seq<usize>,
    n2: Map<usize, Node<T>>,
    k: int,
    h: usize,
)
    requires
        0 <= k <= q.len(),
        q2 == q.insert(k, h),
        forall|i: int| #![trigger q[i]] 0 <= i < q.len() ==> n.contains_key(q[i]),
        forall|x: usize| #[trigger]
            n.contains_key(x) ==> n2.contains_key(x) && same_entry(n2[x], n[x]),
    ensures
        items(q2, n2) == items(q, n).insert(
            k,
            (Item { handle: h, rank: n2[h].rank, qty: n2[h].qty, value: n2[h].value }),
        ),
{
    let fresh = Item { handle: h, rank: n2[h].rank, qty: n2[h].qty, value: n2[h].value };
    let t = items(q, n).insert(k, fresh);
    assert forall|i: int| 0 <= i < q2.len() implies #[trigger] items(q2, n2)[i] == t[i] by {
        if i < k {
            assert(n.contains_key(q[i]));
        } else if i > k {
            assert(n.contains_key(q[i - 1]));
        }
    }
    assert(items(q2, n2) =~= t);
}

/// A chain is no longer than its arena can count.
proof fn lemma_chain_length<T: Copy>(q: Seq<usize>, arena: Arena<Node<T>>, rank: int)
    requires
        arena.wf(),
        q.no_duplicates(),
        forall|h: usize| #[trigger] arena@.contains_key(h) ==> q.contains(h),
        forall|i: int| #![trigger q[i]] 0 <= i < q.len() ==> arena@.contains_key(q[i]),
    ensures
        q.len() <= usize::MAX,
        rank_count(items(q, arena@), rank) <= q.len(),
{
    arena.lemma_len_bound();
    assert(arena@.dom() =~= q.to_set());
    q.unique_seq_to_set();
    lemma_rank_count_bound(items(q, arena@), rank);
}

proof fn lemma_rank_count_bound<T>(s: Seq<Item<T>>, rank: int)
    ensures
        rank_count(s, rank) <= s.len(),
    decreases s.len(),
{
    if s.len() > 0 {
        lemma_rank_count_bound(s.drop_last(), rank);
    }
}

/// Changing the tallies of a bucket leaves the index as it is.
proof fn lemma_same_ranks(b: Map<usize, Bucket>, l: Seq<Level>, b2: Map<usize, Bucket>, x: usize)
    requires
        indexed(b, l),
        b.contains_key(x),
        b2 == b.insert(x, b2[x]),
        b2[x].rank == b[x].rank,
    ensures
        indexed(b2, l),
{
    reveal(indexed);
    assert(b2.dom() =~= b.dom());
}

/// A rank has one bucket.
proof fn lemma_one_bucket<T>(
    q: Seq<usize>,
    n: Map<usize, Node<T>>,
    b: Map<usize, Bucket>,
    x: usize,
)
    requires
        bucketed(q, n, b),
        b.contains_key(x),
    ensures
        forall|y: usize| #[trigger] b.contains_key(y) && y != x ==> b[y].rank != b[x].rank,
{
    reveal(bucketed);
}

/// A new level keeps the index sorted and complete.
proof fn lemma_indexed_insert(
    b: Map<usize, Bucket>,
    l: Seq<Level>,
    b2: Map<usize, Bucket>,
    j: int,
    level: Level,
)
    requires
        indexed(b, l),
        0 <= j <= l.len(),
        forall|i: int| 0 <= i < j ==> (#[trigger] l[i]).rank < level.rank,
        forall|i: int| j <= i < l.len() ==> (#[trigger] l[i]).rank > level.rank,
        !b.contains_key(level.bucket),
        b2.dom() =~= b.dom().insert(level.bucket),
        b2[level.bucket].rank == level.rank,
        forall|x: usize| #[trigger] b.contains_key(x) ==> b2[x].rank == b[x].rank,
    ensures
        indexed(b2, l.insert(j, level)),
{
    reveal(indexed);
    let l2 = l.insert(j, level);
    assert forall|u: usize| #[trigger] b2.contains_key(u) implies exists|i: int|
        0 <= i < l2.len() && (#[trigger] l2[i]).bucket == u by {
        if u == level.bucket {
            assert(l2[j].bucket == u);
        } else {
            assert(b.contains_key(u));
            let i = choose|i: int| 0 <= i < l.len() && (#[trigger] l[i]).bucket == u;
            if i < j {
                assert(l2[i].bucket == u);
            } else {
                assert(l2[i + 1].bucket == u);
            }
        }
    }
    assert forall|i: int| #![trigger l2[i]] 0 <= i < l2.len() implies b2.contains_key(
        l2[i].bucket,
    ) && b2[l2[i].bucket].rank == l2[i].rank by {
        if i < j {
            assert(l2[i] == l[i]);
        } else if i > j {
            assert(l2[i] == l[i - 1]);
        }
    }
}

/// A new entry behind its rank keeps the chain sorted and bucketed.
proof fn lemma_bucketed_insert<T>(
    q: Seq<usize>,
    n: Map<usize, Node<T>>,
    b: Map<usize, Bucket>,
    q2: Seq<usize>,
    n2: Map<usize, Node<T>>,
    b2: Map<usize, Bucket>,
    k: int,
    h: usize,
    x: usize,
)
    requires
        bucketed(q, n, b),
        0 <= k <= q.len(),
        q2 == q.insert(k, h),
        forall|i: int| #![trigger q[i]] 0 <= i < q.len() ==> n.contains_key(q[i]),
        forall|y: usize| #[trigger]
            n.contains_key(y) ==> n2.contains_key(y) && same_entry(n2[y], n[y]),
        k > 0 ==> n[q[k - 1]].rank <= n2[h].rank,
        forall|i: int| k <= i < q.len() ==> n[#[trigger] q[i]].rank > n2[h].rank,
        n2[h].qty > 0,
        n2[h].bucket == x,
        b2.dom() =~= b.dom().insert(x),
        b2[x].rank == n2[h].rank,
        b.contains_key(x) ==> b[x].rank == n2[h].rank,
        !b.contains_key(x) ==> (forall|w: usize| b.contains_key(w) ==> (#[trigger] b[w]).rank
            != n2[h].rank),
        forall|y: usize| #[trigger] b.contains_key(y) ==> b2[y].rank == b[y].rank,
    ensures
        bucketed(q2, n2, b2),
{
    reveal(bucketed);
    assert forall|i: int| 0 <= i < q2.len() implies n2[#[trigger] q2[i]].qty > 0
        && b2.contains_key(n2[q2[i]].bucket) && b2[n2[q2[i]].bucket].rank == n2[q2[i]].rank by {
        if i < k {
            assert(n.contains_key(q[i]));
        } else if i > k {
            assert(n.contains_key(q[i - 1]));
        }
    }
    assert forall|i: int, m: int| #![trigger q2[i], q2[m]] 0 <= i <= m < q2.len() implies n2[q2[i]].rank
        <= n2[q2[m]].rank by {
        if i < k {
            assert(n.contains_key(q[i]));
        } else if i > k {
            assert(n.contains_key(q[i - 1]));
        }
        if m < k {
            assert(n.contains_key(q[m]));
        } else if m > k {
            assert(n.contains_key(q[m - 1]));
        }
        if i < k && k <= m {
            assert(n[q[i]].rank <= n[q[k - 1]].rank);
        }
    }
}

/// A new entry behind its rank becomes the tail of its bucket and counts there.
proof fn lemma_tallied_insert<T>(
    q: Seq<usize>,
    n: Map<usize, Node<T>>,
    b: Map<usize, Bucket>,
    q2: Seq<usize>,
    n2: Map<usize, Node<T>>,
    b2: Map<usize, Bucket>,
    k: int,
    h: usize,
    x: usize,
)
    requires
        tallied(q, n, b),
        0 <= k <= q.len(),
        q2 == q.insert(k, h),
        forall|i: int| #![trigger q[i]] 0 <= i < q.len() ==> n.contains_key(q[i]),
        forall|y: usize| #[trigger]
            n.contains_key(y) ==> n2.contains_key(y) && same_entry(n2[y], n[y]),
        k > 0 ==> n[q[k - 1]].rank <= n2[h].rank,
        forall|i: int| k <= i < q.len() ==> n[#[trigger] q[i]].rank > n2[h].rank,
        b2.dom() =~= b.dom().insert(x),
        b2[x].rank == n2[h].rank,
        b2[x].tail == h,
        b2[x].total == rank_volume(items(q, n), n2[h].rank as int) + n2[h].qty,
        b2[x].count == rank_count(items(q, n), n2[h].rank as int) + 1,
        forall|y: usize| #[trigger]
            b.contains_key(y) && y != x ==> b2[y] == b[y] && b[y].rank != n2[h].rank,
    ensures
        tallied(q2, n2, b2),
{
    reveal(tallied);
    let s = items(q, n);
    let fresh = Item { handle: h, rank: n2[h].rank, qty: n2[h].qty, value: n2[h].value };
    lemma_items_insert(q, n, q2, n2, k, h);
    assert forall|u: usize| #[trigger] b2.contains_key(u) implies {
        &&& exists|t: int| tail_at(q2, n2, b2[u], t)
        &&& b2[u].total == rank_volume(items(q2, n2), b2[u].rank as int)
        &&& b2[u].count == rank_count(items(q2, n2), b2[u].rank as int)
    } by {
        lemma_rank_volume_insert(s, k, fresh, b2[u].rank as int);
        if u == x {
            if k + 1 < q2.len() {
                assert(q2[k + 1] == q[k]);
                assert(n.contains_key(q[k]));
            }
            assert(tail_at(q2, n2, b2[u], k));
        } else {
            assert(b.contains_key(u));
            let t = choose|t: int| tail_at(q, n, b[u], t);
            assert(n.contains_key(q[t]));
            if t < k {
                if t + 1 < k {
                    assert(n.contains_key(q[t + 1]));
                }
                assert(tail_at(q2, n2, b2[u], t));
            } else {
                assert(q2[t + 1] == q[t]);
                if t + 2 < q2.len() {
                    assert(q2[t + 2] == q[t + 1]);
                    assert(n.contains_key(q[t + 1]));
                }
                assert(tail_at(q2, n2, b2[u], t + 1));
            }
        }
    }
}

/// Without entries of a rank its tallies are zero.
proof fn lemma_no_rank<T>(s: Seq<Item<T>>, rank: int)
    requires
        forall|i: int| 0 <= i < s.len() ==> (#[trigger] s[i]).rank != rank,
    ensures
        rank_volume(s, rank) == 0,
        rank_count(s, rank) == 0,
    decreases s.len(),
{
    if s.len() > 0 {
        assert forall|i: int| 0 <= i < s.drop_last().len() implies (
        #[trigger] s.drop_last()[i]).rank != rank by {
            assert(s.drop_last()[i] == s[i]);
        }
        lemma_no_rank(s.drop_last(), rank);
    }
}

/// Two nodes differ in their links at most.
spec fn same_entry<T>(x: Node<T>, y: Node<T>) -> bool {
    x.rank == y.rank && x.qty == y.qty && x.value == y.value && x.bucket == y.bucket
}

} // verus!
