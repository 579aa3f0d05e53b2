//! Maps written down as lists of entries.
use vstd::prelude::*;

use crate::store::keyed::KeyedMap;

verus! {

/// The map that a list of entries stands for. Of several entries under one key the last
/// one counts.
pub open spec fn map_of<K, V>(s: Seq<(K, V)>) -> Map<K, V>
    decreases s.len(),
{
    if s.len() == 0 {
        Map::empty()
    } else {
        map_of(s.drop_last()).insert(s.last().0, s.last().1)
    }
}

/// Whether a list holds the entries of a map and nothing else.
pub open spec fn lists<K, V>(s: Seq<(K, V)>, m: Map<K, V>) -> bool {
    &&& forall|i: int|
        0 <= i < s.len() ==> m.contains_key((#[trigger] s[i]).0) && m[s[i].0] == s[i].1
    &&& forall|k: K| #[trigger]
        m.contains_key(k) ==> exists|i: int| 0 <= i < s.len() && (#[trigger] s[i]).0 == k
}

proof fn lemma_agrees<K, V>(s: Seq<(K, V)>, m: Map<K, V>)
    requires
        forall|i: int|
            0 <= i < s.len() ==> m.contains_key((#[trigger] s[i]).0) && m[s[i].0] == s[i].1,
    ensures
        forall|i: int| 0 <= i < s.len() ==> map_of(s).contains_key((#[trigger] s[i]).0),
        forall|k: K| #[trigger]
            map_of(s).contains_key(k) ==> m.contains_key(k) && map_of(s)[k] == m[k],
    decreases s.len(),
{
    if s.len() > 0 {
        let rest = s.drop_last();
        assert forall|i: int| 0 <= i < rest.len() implies m.contains_key((#[trigger] rest[i]).0)
            && m[rest[i].0] == rest[i].1 by {
            assert(rest[i] == s[i]);
        }
        lemma_agrees(rest, m);
        let last = s[s.len() - 1];
        assert(m.contains_key(last.0) && m[last.0] == last.1);
        assert forall|i: int| 0 <= i < s.len() implies map_of(s).contains_key(
            (#[trigger] s[i]).0,
        ) by {
            if i < rest.len() {
                assert(rest[i] == s[i]);
            }
        }
        assert forall|k: K| #[trigger] map_of(s).contains_key(k) implies m.contains_key(k)
            && map_of(s)[k] == m[k] by {
            if k != last.0 {
                assert(map_of(rest).contains_key(k));
            }
        }
    }
}

/// A list of the entries of a map stands for the map.
pub proof fn lemma_lists<K, V>(s: Seq<(K, V)>, m: Map<K, V>)
    requires
        lists(s, m),
    ensures
        map_of(s) == m,
{
    lemma_agrees(s, m);
    assert forall|k: K| #[trigger] m.contains_key(k) implies map_of(s).contains_key(k) by {
        let i = choose|i: int| 0 <= i < s.len() && (#[trigger] s[i]).0 == k;
        assert(map_of(s).contains_key(s[i].0));
    }
    assert(map_of(s) =~= m);
}

/// The entries of a table.
pub fn entries<V: Copy>(m: &KeyedMap<V>) -> (r: Vec<(u64, V)>)
    requires
        m.wf(),
    ensures
        map_of(r@) == m@,
{
    let mut out: Vec<(u64, V)> = Vec::new();
    let n: usize = m.len();
    let ghost keys = m.key_order();
    let mut i: usize = 0;
    while i < n
        invariant
            m.wf(),
            keys == m.key_order(),
            n == keys.len(),
            i <= n,
            out@.len() == i,
            forall|j: int|
                0 <= j < i ==> (#[trigger] out@[j]).0 == keys[j] && out@[j].1 == m@[keys[j]],
        decreases n - i,
    {
        out.push((m.key_at(i), *m.value_at(i)));
        i = i + 1;
    }
    proof {
        m.lemma_key_order();
        assert forall|k: u64| #[trigger] m@.contains_key(k) implies exists|j: int|
            0 <= j < out@.len() && (#[trigger] out@[j]).0 == k by {
            assert(keys.contains(k));
            let j = choose|j: int| 0 <= j < keys.len() && keys[j] == k;
            assert(out@[j].0 == k);
        }
        assert forall|j: int| 0 <= j < out@.len() implies m@.contains_key((#[trigger] out@[j]).0)
            && m@[out@[j].0] == out@[j].1 by {
            assert(keys.contains(keys[j]));
        }
        lemma_lists(out@, m@);
    }
    out
}

/// The table of a list of entries.
pub fn table<V: Copy>(list: &Vec<(u64, V)>) -> (r: KeyedMap<V>)
    ensures
        r.wf(),
        r@ == map_of(list@),
{
    let mut r: KeyedMap<V> = KeyedMap::new();
    let mut i: usize = 0;
    while i < list.len()
        invariant
            r.wf(),
            i <= list@.len(),
            r@ == map_of(list@.take(i as int)),
        decreases list@.len() - i,
    {
        proof {
            assert(list@.take(i + 1).drop_last() =~= list@.take(i as int));
        }
        r.insert(list[i].0, list[i].1);
        i = i + 1;
    }
    assert(list@.take(i as int) =~= list@);
    r
}

/// Keys that are 32-bit numbers.
pub open spec fn small_keys<V>(m: Map<u64, V>) -> bool {
    forall|k: u64| #[trigger] m.contains_key(k) ==> k <= u32::MAX
}

/// A map by 32-bit numbers.
pub open spec fn by_number<V>(m: Map<u64, V>) -> Map<u32, V> {
    Map::new(|k: u32| m.contains_key(k as u64), |k: u32| m[k as u64])
}

/// The entries of a table that is keyed by 32-bit numbers.
pub fn small_entries<V: Copy>(m: &KeyedMap<V>) -> (r: Vec<(u32, V)>)
    requires
        m.wf(),
        small_keys(m@),
    ensures
        map_of(r@) == by_number(m@),
{
    let mut out: Vec<(u32, V)> = Vec::new();
    let n: usize = m.len();
    let ghost keys = m.key_order();
    let mut i: usize = 0;
    proof {
        m.lemma_key_order();
        assert forall|j: int| 0 <= j < n implies m@.contains_key(#[trigger] keys[j]) by {
            assert(keys.contains(keys[j]));
        }
    }
    while i < n
        invariant
            m.wf(),
            small_keys(m@),
            keys == m.key_order(),
            n == keys.len(),
            i <= n,
            out@.len() == i,
            forall|j: int| 0 <= j < n ==> m@.contains_key(#[trigger] keys[j]),
            forall|j: int|
                0 <= j < i ==> (#[trigger] out@[j]).0 == keys[j] && out@[j].1 == m@[keys[j]],
        decreases n - i,
    {
        assert(m@.contains_key(keys[i as int]));
        out.push((m.key_at(i) as u32, *m.value_at(i)));
        i = i + 1;
    }
    proof {
        assert forall|k: u32| #[trigger] by_number(m@).contains_key(k) implies exists|j: int|
            0 <= j < out@.len() && (#[trigger] out@[j]).0 == k by {
            assert(keys.contains(k as u64));
            let j = choose|j: int| 0 <= j < keys.len() && keys[j] == k as u64;
            assert(out@[j].0 == k);
        }
        assert forall|j: int| 0 <= j < out@.len() implies by_number(m@).contains_key(
            (#[trigger] out@[j]).0,
        ) && by_number(m@)[out@[j].0] == out@[j].1 by {
            assert(m@.contains_key(keys[j]));
        }
        lemma_lists(out@, by_number(m@));
    }
    out
}

/// The table of a list of entries under 32-bit numbers.
pub fn small_table<V: Copy>(list: &Vec<(u32, V)>) -> (r: KeyedMap<V>)
    ensures
        r.wf(),
        small_keys(r@),
        by_number(r@) == map_of(list@),
{
    let mut r: KeyedMap<V> = KeyedMap::new();
    let mut i: usize = 0;
    assert(by_number(r@) =~= map_of(list@.take(0)));
    while i < list.len()
        invariant
            r.wf(),
            small_keys(r@),
            i <= list@.len(),
            by_number(r@) == map_of(list@.take(i as int)),
        decreases list@.len() - i,
    {
        let ghost before = r@;
        proof {
            assert(list@.take(i + 1).drop_last() =~= list@.take(i as int));
        }
        r.insert(list[i].0 as u64, list[i].1);
        assert(by_number(r@) =~= by_number(before).insert(list@[i as int].0, list@[i as int].1));
        i = i + 1;
    }
    assert(list@.take(i as int) =~= list@);
    r
}

} // verus!
