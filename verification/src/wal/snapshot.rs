//! Saved states. A state that was saved after the command with some sequence
//! number is filed under a name that holds the number.
use vstd::prelude::*;
use vstd::string::StringExecFns;

use crate::text;
use crate::types::ids::SeqNo;

verus! {

/// A saved state.
#[derive(Debug, Clone, Copy, PartialEq, Eq, Structural)]
pub struct SnapshotEntry {
    pub seq_no: SeqNo,
}

/// The name of a saved state.
pub open spec fn name_of(seq_no: SeqNo) -> Seq<char> {
    "snapshot_"@ + text::decimal(seq_no.0 as int) + ".bin"@
}

/// What stands between the beginning and the end of the name of a saved state.
pub open spec fn number_in(name: Seq<char>) -> Option<Seq<char>> {
    let begin = "snapshot_"@;
    let end = ".bin"@;
    if text::begins_with(name, begin) {
        let rest = name.subrange(begin.len() as int, name.len() as int);
        if text::ends_with(rest, end) {
            Some(rest.subrange(0, rest.len() - end.len()))
        } else {
            None
        }
    } else {
        None
    }
}

/// The state that a file of some name holds, if it holds one.
pub open spec fn entry_of(name: Seq<char>) -> Option<SnapshotEntry> {
    match number_in(name) {
        None => None,
        Some(s) => match text::parsed(s, u64::MAX as int) {
            None => None,
            Some(n) => Some(SnapshotEntry { seq_no: SeqNo(n as u64) }),
        },
    }
}

/// The states among some files, in the order of the files.
pub open spec fn entries_of(names: Seq<Seq<char>>) -> Seq<SnapshotEntry>
    decreases names.len(),
{
    if names.len() == 0 {
        Seq::empty()
    } else {
        let before = entries_of(names.drop_last());
        match entry_of(names.last()) {
            None => before,
            Some(e) => before.push(e),
        }
    }
}

/// Whether states stand in the order of their numbers.
pub open spec fn ascending(s: Seq<SnapshotEntry>) -> bool {
    forall|i: int, j: int| #![trigger s[i], s[j]]
        0 <= i <= j < s.len() ==> s[i].seq_no.0 <= s[j].seq_no.0
}

/// The names as texts.
pub open spec fn texts(names: Seq<String>) -> Seq<Seq<char>> {
    Seq::new(names.len(), |i: int| names[i]@)
}

/// The name of a saved state.
pub fn snapshot_name(seq_no: SeqNo) -> (r: String)
    ensures
        r@ == name_of(seq_no),
{
    let mut out: String = String::from_str("snapshot_");
    text::push_decimal(&mut out, seq_no.0 as u128);
    out.append(".bin");
    out
}

/// The state that a file of some name holds, if it holds one.
pub fn parse_snapshot_name(name: &str) -> (r: Option<SnapshotEntry>)
    ensures
        r == entry_of(name@),
{
    match text::strip_prefix(name, "snapshot_") {
        None => None,
        Some(rest) => match text::strip_suffix(rest, ".bin") {
            None => None,
            Some(num) => match text::parse_number(num, u64::MAX) {
                None => None,
                Some(n) => Some(SnapshotEntry { seq_no: SeqNo(n) }),
            },
        },
    }
}

/// Puts a state where it belongs among some in order.
fn file_entry(entries: &mut Vec<SnapshotEntry>, e: SnapshotEntry)
    requires
        ascending(old(entries)@),
    ensures
        ascending(final(entries)@),
        final(entries)@.to_multiset() == old(entries)@.to_multiset().insert(e),
{
    let n: usize = entries.len();
    let mut i: usize = n;
    while i > 0 && entries[i - 1].seq_no.0 > e.seq_no.0
        invariant
            i <= n,
            n == entries@.len(),
            ascending(entries@),
            forall|j: int| i <= j < n ==> entries@[j].seq_no.0 > e.seq_no.0,
        decreases i,
    {
        i = i - 1;
    }
    let ghost before = entries@;
    assert forall|j: int| 0 <= j < i implies before[j].seq_no.0 <= e.seq_no.0 by {
        assert(before[j].seq_no.0 <= before[i - 1].seq_no.0);
    }
    entries.insert(i, e);
    let ghost after = entries@;
    assert forall|a: int, b: int| #![trigger after[a], after[b]]
        0 <= a <= b < after.len() implies after[a].seq_no.0 <= after[b].seq_no.0 by {
        let a0 = if a <= i {
            a
        } else {
            a - 1
        };
        let b0 = if b <= i {
            b
        } else {
            b - 1
        };
        if a != i && b != i {
            assert(before[a0].seq_no.0 <= before[b0].seq_no.0);
        }
    }
    proof {
        before.to_multiset_ensures();
        vstd::seq_lib::to_multiset_insert(before, i as int, e);
    }
}

/// A directory of saved states.
pub struct SnapshotStore {
    dir: String,
}

impl SnapshotStore {
    /// Where the states are.
    pub closed spec fn place(&self) -> Seq<char> {
        self.dir@
    }

    pub fn new(dir: String) -> (r: SnapshotStore)
        ensures
            r.place() == dir@,
    {
        SnapshotStore { dir }
    }

    pub fn dir(&self) -> (r: &str)
        ensures
            r@ == self.place(),
    {
        self.dir.as_str()
    }

    /// The states among the files of the directory, in the order of their
    /// numbers. Other files are passed over.
    pub fn list(&self, names: &Vec<String>) -> (r: Vec<SnapshotEntry>)
        ensures
            ascending(r@),
            r@.to_multiset() == entries_of(texts(names@)).to_multiset(),
    {
        let mut out: Vec<SnapshotEntry> = Vec::new();
        let mut i: usize = 0;
        let ghost all = texts(names@);
        assert(all.subrange(0, 0) =~= Seq::<Seq<char>>::empty());
        while i < names.len()
            invariant
                i <= names@.len(),
                all == texts(names@),
                ascending(out@),
                out@.to_multiset() == entries_of(all.subrange(0, i as int)).to_multiset(),
            decreases names.len() - i,
        {
            assert(all.subrange(0, i + 1).drop_last() =~= all.subrange(0, i as int));
            match parse_snapshot_name(names[i].as_str()) {
                Some(e) => {
                    file_entry(&mut out, e);
                    proof {
                        entries_of(all.subrange(0, i as int)).to_multiset_ensures();
                    }
                },
                None => {},
            }
            i = i + 1;
        }
        assert(all.subrange(0, i as int) =~= all);
        out
    }

    /// The state with the highest number among the files of the directory.
    pub fn latest(&self, names: &Vec<String>) -> (r: Option<SnapshotEntry>)
        ensures
            r.is_none() == (entries_of(texts(names@)).len() == 0),
            r matches Some(e) ==> entries_of(texts(names@)).contains(e) && forall|i: int|
                0 <= i < entries_of(texts(names@)).len() ==> (#[trigger] entries_of(
                    texts(names@),
                )[i]).seq_no.0 <= e.seq_no.0,
    {
        let out: Vec<SnapshotEntry> = self.list(names);
        let n: usize = out.len();
        let ghost all = entries_of(texts(names@));
        proof {
            out@.to_multiset_ensures();
            all.to_multiset_ensures();
        }
        if n == 0 {
            None
        } else {
            let e: SnapshotEntry = out[n - 1];
            proof {
                assert(out@.to_multiset().contains(out@[n - 1]));
                assert forall|i: int| 0 <= i < all.len() implies (
                #[trigger] all[i]).seq_no.0 <= e.seq_no.0 by {
                    assert(all.to_multiset().contains(all[i]));
                    let j = choose|j: int| 0 <= j < out@.len() && out@[j] == all[i];
                    assert(out@[j].seq_no.0 <= out@[n - 1].seq_no.0);
                }
            }
            Some(e)
        }
    }
}

/// The name of a saved state says which one it is.
pub proof fn law_name_reads_back(seq_no: SeqNo)
    ensures
        entry_of(name_of(seq_no)) == Some(SnapshotEntry { seq_no }),
{
    let begin = "snapshot_"@;
    let end = ".bin"@;
    let num = text::decimal(seq_no.0 as int);
    let name = name_of(seq_no);
    assert(name.subrange(0, begin.len() as int) =~= begin);
    let rest = name.subrange(begin.len() as int, name.len() as int);
    assert(rest =~= num + end);
    assert(rest.subrange(rest.len() - end.len(), rest.len() as int) =~= end);
    assert(rest.subrange(0, rest.len() - end.len()) =~= num);
    text::law_decimal_reads_back(seq_no.0 as int, u64::MAX as int);
}

/// The states that are found are those whose names are among the files, whatever other files
/// there are.
pub proof fn law_states_are_found(names: Seq<Seq<char>>, seq_no: SeqNo, i: int)
    requires
        0 <= i < names.len(),
    ensures
        names[i] == name_of(seq_no) ==> entries_of(names).contains(SnapshotEntry { seq_no }),
        entries_of(names).len() <= names.len(),
    decreases names.len(),
{
    let first = names.drop_last();
    let before = entries_of(first);
    let all = entries_of(names);
    if first.len() == 0 {
        assert(before.len() == 0);
    }
    if i < first.len() {
        law_states_are_found(first, seq_no, i);
        if before.contains(SnapshotEntry { seq_no }) {
            let k = choose|k: int| 0 <= k < before.len() && before[k] == (SnapshotEntry { seq_no });
            assert(all[k] == before[k]);
        }
    } else {
        if first.len() > 0 {
            law_states_are_found(first, seq_no, 0);
        }
        law_name_reads_back(seq_no);
        if names[i] == name_of(seq_no) {
            assert(all[all.len() - 1] == (SnapshotEntry { seq_no }));
        }
    }
}

} // verus!
