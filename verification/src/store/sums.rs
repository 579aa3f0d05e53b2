//! Sums over the values of a map.
use vstd::prelude::*;

verus! {

/// Sum of `f` over the values of a finite map.
pub open spec fn sum_map<K, V>(m: Map<K, V>, f: spec_fn(V) -> int) -> int
    decreases m.dom().len(),
{
    if m.dom().finite() && m.dom().len() > 0 {
        let k = m.dom().choose();
        f(m[k]) + sum_map(m.remove(k), f)
    } else {
        0
    }
}

/// Any key can be taken out of the sum.
pub proof fn lemma_sum_take<K, V>(m: Map<K, V>, f: spec_fn(V) -> int, k: K)
    requires
        m.dom().finite(),
        m.contains_key(k),
    ensures
        sum_map(m, f) == f(m[k]) + sum_map(m.remove(k), f),
    decreases m.dom().len(),
{
    assert(m.dom().contains(k));
    vstd::set_lib::lemma_set_empty_equivalency_len(m.dom());
    assert(m.dom().len() > 0);
    let c = m.dom().choose();
    assert(m.dom().contains(c));
    if c != k {
        let a = m.remove(c);
        let b = m.remove(k);
        assert(a.dom() =~= m.dom().remove(c));
        assert(b.dom() =~= m.dom().remove(k));
        lemma_sum_take(a, f, k);
        lemma_sum_take(b, f, c);
        assert(a.remove(k) =~= b.remove(c));
    }
}

/// Storing a value changes the sum by what it adds.
pub proof fn lemma_sum_insert<K, V>(m: Map<K, V>, f: spec_fn(V) -> int, k: K, v: V)
    requires
        m.dom().finite(),
    ensures
        m.insert(k, v).dom().finite(),
        sum_map(m.insert(k, v), f) == sum_map(m, f) + f(v) - (if m.contains_key(k) {
            f(m[k])
        } else {
            0
        }),
{
    let m2 = m.insert(k, v);
    assert(m2.dom() =~= m.dom().insert(k));
    lemma_sum_take(m2, f, k);
    if m.contains_key(k) {
        lemma_sum_take(m, f, k);
        assert(m2.remove(k) =~= m.remove(k));
    } else {
        assert(m2.remove(k) =~= m);
    }
}

/// A sum is no larger than the sum of the magnitudes.
pub proof fn lemma_sum_magnitude<K, V>(m: Map<K, V>, f: spec_fn(V) -> int, g: spec_fn(V) -> int)
    requires
        forall|v: V| #[trigger] g(v) >= f(v) && g(v) >= -f(v),
    ensures
        -sum_map(m, g) <= sum_map(m, f) <= sum_map(m, g),
    decreases m.dom().len(),
{
    if m.dom().finite() && m.dom().len() > 0 {
        vstd::set_lib::lemma_set_empty_equivalency_len(m.dom());
        let c = m.dom().choose();
        let rest = m.remove(c);
        assert(rest.dom() =~= m.dom().remove(c));
        lemma_sum_magnitude(rest, f, g);
        assert(g(m[c]) >= f(m[c]));
    }
}

/// Sum of `f` over the values of some keys.
pub open spec fn sum_walk<K, V>(m: Map<K, V>, keys: Seq<K>, f: spec_fn(V) -> int) -> int
    decreases keys.len(),
{
    if keys.len() == 0 {
        0
    } else {
        sum_walk(m, keys.drop_last(), f) + f(m[keys.last()])
    }
}

/// A walk that meets each key once sums the map.
pub proof fn lemma_sum_walk<K, V>(m: Map<K, V>, keys: Seq<K>, f: spec_fn(V) -> int)
    requires
        keys.no_duplicates(),
        forall|i: int| 0 <= i < keys.len() ==> m.contains_key(#[trigger] keys[i]),
        forall|k: K| #[trigger] m.contains_key(k) ==> keys.contains(k),
    ensures
        sum_walk(m, keys, f) == sum_map(m, f),
        m.dom().finite(),
    decreases keys.len(),
{
    assert forall|k: K| m.dom().contains(k) == keys.to_set().contains(k) by {
        if keys.contains(k) {
            let i = choose|i: int| 0 <= i < keys.len() && keys[i] == k;
            assert(m.contains_key(keys[i]));
        }
        if m.contains_key(k) {
            assert(keys.contains(k));
        }
    }
    assert(m.dom() =~= keys.to_set());
    vstd::seq_lib::seq_to_set_is_finite(keys);
    keys.unique_seq_to_set();
    if keys.len() > 0 {
        let k = keys.last();
        let m2 = m.remove(k);
        let rest = keys.drop_last();
        assert(m.contains_key(keys[keys.len() - 1]));
        assert forall|i: int| 0 <= i < rest.len() implies m2.contains_key(#[trigger] rest[i]) by {
            assert(m.contains_key(keys[i]));
            assert(keys[i] != keys[keys.len() - 1]);
        }
        assert forall|j: K| #[trigger] m2.contains_key(j) implies rest.contains(j) by {
            assert(m.contains_key(j));
            let i = choose|i: int| 0 <= i < keys.len() && keys[i] == j;
            assert(rest[i] == j);
        }
        lemma_sum_walk(m2, rest, f);
        lemma_walk_same(m, m2, rest, f);
        lemma_sum_take(m, f, k);
    }
}

/// A walk only looks at the values that it meets.
proof fn lemma_walk_same<K, V>(m: Map<K, V>, m2: Map<K, V>, keys: Seq<K>, f: spec_fn(V) -> int)
    requires
        forall|i: int| 0 <= i < keys.len() ==> m[#[trigger] keys[i]] == m2[keys[i]],
    ensures
        sum_walk(m, keys, f) == sum_walk(m2, keys, f),
    decreases keys.len(),
{
    if keys.len() > 0 {
        assert(m[keys[keys.len() - 1]] == m2[keys[keys.len() - 1]]);
        assert forall|i: int| 0 <= i < keys.drop_last().len() implies m[
            #[trigger] keys.drop_last()[i]
        ] == m2[keys.drop_last()[i]] by {
            assert(keys.drop_last()[i] == keys[i]);
        }
        lemma_walk_same(m, m2, keys.drop_last(), f);
    }
}

/// What a walk has summed up on the way is no larger than the magnitudes of the
/// whole.
pub proof fn lemma_walk_bound<K, V>(
    m: Map<K, V>,
    keys: Seq<K>,
    k: int,
    f: spec_fn(V) -> int,
    g: spec_fn(V) -> int,
)
    requires
        0 <= k <= keys.len(),
        forall|v: V| #[trigger] g(v) >= f(v) && g(v) >= -f(v),
    ensures
        -sum_walk(m, keys, g) <= sum_walk(m, keys.subrange(0, k), f) <= sum_walk(m, keys, g),
        0 <= sum_walk(m, keys.subrange(0, k), g) <= sum_walk(m, keys, g),
    decreases keys.len(),
{
    if keys.len() == 0 {
        assert(keys.subrange(0, k) =~= keys);
    } else {
        let rest = keys.drop_last();
        assert(g(m[keys.last()]) >= f(m[keys.last()]));
        if k == keys.len() {
            assert(keys.subrange(0, k) =~= keys);
            lemma_walk_bound(m, rest, k - 1, f, g);
            assert(rest.subrange(0, k - 1) =~= rest);
        } else {
            assert(rest.subrange(0, k) =~= keys.subrange(0, k));
            lemma_walk_bound(m, rest, k, f, g);
        }
    }
}

/// Where every value adds something, the sum adds the sum of it.
pub proof fn lemma_sum_added<K, V>(
    m: Map<K, V>,
    n: Map<K, V>,
    f: spec_fn(V) -> int,
    g: spec_fn(V) -> int,
)
    requires
        m.dom().finite(),
        n.dom() == m.dom(),
        forall|k: K| #[trigger] m.contains_key(k) ==> f(n[k]) == f(m[k]) + g(m[k]),
    ensures
        sum_map(n, f) == sum_map(m, f) + sum_map(m, g),
    decreases m.dom().len(),
{
    if m.dom().len() > 0 {
        vstd::set_lib::lemma_set_empty_equivalency_len(m.dom());
        let c = m.dom().choose();
        assert(m.contains_key(c));
        let a = m.remove(c);
        let b = n.remove(c);
        assert(a.dom() =~= m.dom().remove(c));
        assert(b.dom() =~= a.dom());
        assert forall|k: K| #[trigger] a.contains_key(k) implies f(b[k]) == f(a[k]) + g(a[k]) by {
            assert(m.contains_key(k));
        }
        lemma_sum_added(a, b, f, g);
        lemma_sum_take(n, f, c);
    }
}

/// Where no value shifts by more than a bound, the sum shifts by no more than
/// the bound for each.
pub proof fn lemma_sum_close<K, V>(m: Map<K, V>, n: Map<K, V>, f: spec_fn(V) -> int, bound: int)
    requires
        m.dom().finite(),
        n.dom() == m.dom(),
        forall|k: K| #[trigger]
            m.contains_key(k) ==> -bound <= f(n[k]) - f(m[k]) <= bound,
    ensures
        -(bound * m.dom().len()) <= sum_map(n, f) - sum_map(m, f) <= bound * m.dom().len(),
    decreases m.dom().len(),
{
    if m.dom().len() > 0 {
        vstd::set_lib::lemma_set_empty_equivalency_len(m.dom());
        let c = m.dom().choose();
        assert(m.contains_key(c));
        let a = m.remove(c);
        let b = n.remove(c);
        assert(a.dom() =~= m.dom().remove(c));
        assert(b.dom() =~= a.dom());
        assert forall|k: K| #[trigger] a.contains_key(k) implies -bound <= f(b[k]) - f(a[k])
            <= bound by {
            assert(m.contains_key(k));
        }
        lemma_sum_close(a, b, f, bound);
        lemma_sum_take(n, f, c);
        let k = a.dom().len() as int;
        assert(bound * (k + 1) == bound * k + bound) by (nonlinear_arith);
    } else {
        assert(n.dom().len() == 0);
        assert(bound * 0 == 0) by (nonlinear_arith);
    }
}

/// A scaled sum and another sum are one sum.
pub proof fn lemma_sum_linear<K, V>(
    m: Map<K, V>,
    scale: int,
    f: spec_fn(V) -> int,
    g: spec_fn(V) -> int,
    h: spec_fn(V) -> int,
)
    requires
        forall|v: V| #[trigger] h(v) == scale * f(v) + g(v),
    ensures
        sum_map(m, h) == scale * sum_map(m, f) + sum_map(m, g),
    decreases m.dom().len(),
{
    if m.dom().finite() && m.dom().len() > 0 {
        vstd::set_lib::lemma_set_empty_equivalency_len(m.dom());
        let c = m.dom().choose();
        let a = m.remove(c);
        assert(a.dom() =~= m.dom().remove(c));
        lemma_sum_linear(a, scale, f, g, h);
        assert(h(m[c]) == scale * f(m[c]) + g(m[c]));
        assert(scale * (f(m[c]) + sum_map(a, f)) == scale * f(m[c]) + scale * sum_map(a, f))
            by (nonlinear_arith);
    } else {
        assert(scale * 0 == 0) by (nonlinear_arith);
    }
}

} // verus!
