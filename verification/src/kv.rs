//! Specification helpers for association lists: sequences of key-value
//! pairs with unique keys, the lookup function they denote, and summation
//! over their entries. Every container in this crate (component storages,
//! inventories, the world asset map) is modelled through these functions.

use vstd::prelude::*;

verus! {

/// The value associated with key `k` in `s`, taking the first matching
/// pair; `None` when no pair carries the key.
pub open spec fn kv_get<K, V>(s: Seq<(K, V)>, k: K) -> Option<V>
    decreases s.len(),
{
    if s.len() == 0 {
        None
    } else if s[0].0 == k {
        Some(s[0].1)
    } else {
        kv_get(s.subrange(1, s.len() as int), k)
    }
}

/// No two pairs of `s` carry the same key.
pub open spec fn kv_unique<K, V>(s: Seq<(K, V)>) -> bool {
    forall|i: int, j: int| 0 <= i < j < s.len() ==> s[i].0 != s[j].0
}

/// The sum of `f` over all elements of `s`.
pub open spec fn sum_by<T>(s: Seq<T>, f: spec_fn(T) -> int) -> int
    decreases s.len(),
{
    if s.len() == 0 {
        0
    } else {
        f(s[0]) + sum_by(s.subrange(1, s.len() as int), f)
    }
}

/// A pair whose key is `s[i].0` is found at index `i` when keys are unique.
pub proof fn lemma_kv_get_present<K, V>(s: Seq<(K, V)>, i: int)
    requires
        kv_unique(s),
        0 <= i < s.len(),
    ensures
        kv_get(s, s[i].0) == Some(s[i].1),
    decreases s.len(),
{
    if i == 0 {
    } else {
        assert(s[0].0 != s[i].0);
        let t = s.subrange(1, s.len() as int);
        assert(forall|a: int, b: int| 0 <= a < b < t.len() ==> t[a].0 != t[b].0) by {
            assert(forall|a: int| 0 <= a < t.len() ==> t[a] == s[a + 1]);
        }
        assert(t[i - 1] == s[i]);
        lemma_kv_get_present(t, i - 1);
    }
}

/// A key that no pair of `s` carries is not found.
pub proof fn lemma_kv_get_absent<K, V>(s: Seq<(K, V)>, k: K)
    requires
        forall|i: int| 0 <= i < s.len() ==> s[i].0 != k,
    ensures
        kv_get(s, k) is None,
    decreases s.len(),
{
    if s.len() == 0 {
    } else {
        let t = s.subrange(1, s.len() as int);
        assert(forall|a: int| 0 <= a < t.len() ==> t[a] == s[a + 1]);
        lemma_kv_get_absent(t, k);
    }
}

/// A found key is carried by some pair, whose value the lookup returns.
pub proof fn lemma_kv_get_some_index<K, V>(s: Seq<(K, V)>, k: K)
    requires
        kv_get(s, k) is Some,
    ensures
        exists|i: int|
            0 <= i < s.len() && s[i].0 == k && kv_get(s, k) == Some(s[i].1),
    decreases s.len(),
{
    if s.len() == 0 {
    } else if s[0].0 == k {
        assert(s[0].0 == k && kv_get(s, k) == Some(s[0].1));
    } else {
        let t = s.subrange(1, s.len() as int);
        lemma_kv_get_some_index(t, k);
        let j = choose|j: int| 0 <= j < t.len() && t[j].0 == k && kv_get(t, k) == Some(t[j].1);
        assert(s[j + 1] == t[j]);
    }
}

/// How appending a pair changes every lookup.
pub proof fn lemma_kv_get_push<K, V>(s: Seq<(K, V)>, k: K, v: V, k2: K)
    ensures
        kv_get(s.push((k, v)), k2) == (if kv_get(s, k2) is Some {
            kv_get(s, k2)
        } else if k2 == k {
            Some(v)
        } else {
            None::<V>
        }),
    decreases s.len(),
{
    let p = s.push((k, v));
    if s.len() == 0 {
        assert(p[0] == (k, v));
        assert(p.subrange(1, p.len() as int) =~= Seq::<(K, V)>::empty());
        assert(kv_get(Seq::<(K, V)>::empty(), k2) is None);
    } else {
        assert(p[0] == s[0]);
        let t = s.subrange(1, s.len() as int);
        assert(p.subrange(1, p.len() as int) =~= t.push((k, v)));
        lemma_kv_get_push(t, k, v, k2);
    }
}

/// How replacing the pair at index `i` (keeping its key) changes lookups.
pub proof fn lemma_kv_get_update<K, V>(s: Seq<(K, V)>, i: int, k: K, v: V, k2: K)
    requires
        kv_unique(s),
        0 <= i < s.len(),
        s[i].0 == k,
    ensures
        kv_get(s.update(i, (k, v)), k2) == (if k2 == k {
            Some(v)
        } else {
            kv_get(s, k2)
        }),
    decreases s.len(),
{
    let u = s.update(i, (k, v));
    if i == 0 {
        assert(u[0] == (k, v));
        assert(u.subrange(1, u.len() as int) =~= s.subrange(1, s.len() as int));
        if k2 == k {
        } else {
            assert(s[0].0 == k);
        }
    } else {
        assert(u[0] == s[0]);
        let t = s.subrange(1, s.len() as int);
        assert(forall|a: int| 0 <= a < t.len() ==> t[a] == s[a + 1]);
        assert(forall|a: int, b: int| 0 <= a < b < t.len() ==> t[a].0 != t[b].0);
        assert(u.subrange(1, u.len() as int) =~= t.update(i - 1, (k, v)));
        assert(s[0].0 != k);
        lemma_kv_get_update(t, i - 1, k, v, k2);
    }
}

/// How removing the pair at index `i` changes every lookup.
pub proof fn lemma_kv_get_remove<K, V>(s: Seq<(K, V)>, i: int, k2: K)
    requires
        kv_unique(s),
        0 <= i < s.len(),
    ensures
        kv_get(s.remove(i), k2) == (if k2 == s[i].0 {
            None::<V>
        } else {
            kv_get(s, k2)
        }),
    decreases s.len(),
{
    let r = s.remove(i);
    let t = s.subrange(1, s.len() as int);
    assert(forall|a: int| 0 <= a < t.len() ==> t[a] == s[a + 1]);
    assert(forall|a: int, b: int| 0 <= a < b < t.len() ==> t[a].0 != t[b].0);
    if i == 0 {
        assert(r =~= t);
        if k2 == s[0].0 {
            assert(forall|a: int| 0 <= a < t.len() ==> t[a].0 != k2);
            lemma_kv_get_absent(t, k2);
        }
    } else {
        assert(r[0] == s[0]);
        assert(r.subrange(1, r.len() as int) =~= t.remove(i - 1));
        assert(t[i - 1] == s[i]);
        lemma_kv_get_remove(t, i - 1, k2);
    }
}

/// Appending a fresh key preserves key uniqueness.
pub proof fn lemma_kv_unique_push<K, V>(s: Seq<(K, V)>, k: K, v: V)
    requires
        kv_unique(s),
        forall|i: int| 0 <= i < s.len() ==> s[i].0 != k,
    ensures
        kv_unique(s.push((k, v))),
{
    let p = s.push((k, v));
    assert(forall|i: int| 0 <= i < s.len() ==> p[i] == s[i]);
}

/// Removing a pair preserves key uniqueness.
pub proof fn lemma_kv_unique_remove<K, V>(s: Seq<(K, V)>, i: int)
    requires
        kv_unique(s),
        0 <= i < s.len(),
    ensures
        kv_unique(s.remove(i)),
{
    let r = s.remove(i);
    assert(forall|a: int, b: int| 0 <= a < b < r.len() ==> r[a].0 != r[b].0) by {
        assert(forall|a: int| 0 <= a < r.len() ==> r[a] == (if a < i {
            s[a]
        } else {
            s[a + 1]
        }));
    }
}

/// Replacing the pair at index `i`, keeping its key, preserves uniqueness.
pub proof fn lemma_kv_unique_update<K, V>(s: Seq<(K, V)>, i: int, k: K, v: V)
    requires
        kv_unique(s),
        0 <= i < s.len(),
        s[i].0 == k,
    ensures
        kv_unique(s.update(i, (k, v))),
{
    let u = s.update(i, (k, v));
    assert(forall|a: int| 0 <= a < u.len() ==> u[a].0 == s[a].0);
}

/// Appending an element adds its contribution to the sum.
pub proof fn lemma_sum_by_push<T>(s: Seq<T>, f: spec_fn(T) -> int, x: T)
    ensures
        sum_by(s.push(x), f) == sum_by(s, f) + f(x),
    decreases s.len(),
{
    let p = s.push(x);
    if s.len() == 0 {
        assert(p[0] == x);
        assert(p.subrange(1, p.len() as int) =~= Seq::<T>::empty());
        assert(sum_by(Seq::<T>::empty(), f) == 0);
    } else {
        assert(p[0] == s[0]);
        assert(p.subrange(1, p.len() as int) =~= s.subrange(1, s.len() as int).push(x));
        lemma_sum_by_push(s.subrange(1, s.len() as int), f, x);
    }
}

/// Removing the element at index `i` subtracts its contribution.
pub proof fn lemma_sum_by_remove<T>(s: Seq<T>, f: spec_fn(T) -> int, i: int)
    requires
        0 <= i < s.len(),
    ensures
        sum_by(s.remove(i), f) == sum_by(s, f) - f(s[i]),
    decreases s.len(),
{
    let r = s.remove(i);
    let t = s.subrange(1, s.len() as int);
    if i == 0 {
        assert(r =~= t);
    } else {
        assert(r[0] == s[0]);
        assert(r.subrange(1, r.len() as int) =~= t.remove(i - 1));
        assert(t[i - 1] == s[i]);
        lemma_sum_by_remove(t, f, i - 1);
    }
}

/// Replacing the element at index `i` swaps its contribution for the new one.
pub proof fn lemma_sum_by_update<T>(s: Seq<T>, f: spec_fn(T) -> int, i: int, x: T)
    requires
        0 <= i < s.len(),
    ensures
        sum_by(s.update(i, x), f) == sum_by(s, f) - f(s[i]) + f(x),
    decreases s.len(),
{
    let u = s.update(i, x);
    let t = s.subrange(1, s.len() as int);
    if i == 0 {
        assert(u[0] == x);
        assert(u.subrange(1, u.len() as int) =~= t);
    } else {
        assert(u[0] == s[0]);
        assert(u.subrange(1, u.len() as int) =~= t.update(i - 1, x));
        assert(t[i - 1] == s[i]);
        lemma_sum_by_update(t, f, i - 1, x);
    }
}

/// A sum of nonnegative contributions is nonnegative.
pub proof fn lemma_sum_by_nonneg<T>(s: Seq<T>, f: spec_fn(T) -> int)
    requires
        forall|i: int| 0 <= i < s.len() ==> f(s[i]) >= 0,
    ensures
        sum_by(s, f) >= 0,
    decreases s.len(),
{
    if s.len() == 0 {
    } else {
        let t = s.subrange(1, s.len() as int);
        assert(forall|a: int| 0 <= a < t.len() ==> t[a] == s[a + 1]);
        lemma_sum_by_nonneg(t, f);
    }
}

/// When all contributions are nonnegative, each single one is bounded by
/// the whole sum.
pub proof fn lemma_sum_by_element_le<T>(s: Seq<T>, f: spec_fn(T) -> int, i: int)
    requires
        forall|j: int| 0 <= j < s.len() ==> f(s[j]) >= 0,
        0 <= i < s.len(),
    ensures
        f(s[i]) <= sum_by(s, f),
    decreases s.len(),
{
    let t = s.subrange(1, s.len() as int);
    assert(forall|a: int| 0 <= a < t.len() ==> t[a] == s[a + 1]);
    if i == 0 {
        lemma_sum_by_nonneg(t, f);
    } else {
        assert(t[i - 1] == s[i]);
        lemma_sum_by_element_le(t, f, i - 1);
    }
}

} // verus!
