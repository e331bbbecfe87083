use vstd::prelude::*;

verus! {

/// Index of the first entry of `d` under key `k`, or -1.
pub open spec fn find_key<V>(d: Seq<(Seq<char>, V)>, k: Seq<char>) -> int
    decreases d.len(),
{
    if d.len() == 0 {
        -1
    } else {
        let i = find_key(d.drop_last(), k);
        if i >= 0 {
            i
        } else if d.last().0 == k {
            d.len() - 1
        } else {
            -1
        }
    }
}

/// The value of `d` under key `k`: that of its first entry under `k`.
pub open spec fn kv_get<V>(d: Seq<(Seq<char>, V)>, k: Seq<char>) -> Option<V> {
    let i = find_key(d, k);
    if i >= 0 {
        Some(d[i].1)
    } else {
        None
    }
}

/// `d` with `k` set to `v`: the entry keeps its place if the key is there,
/// else it is appended.
pub open spec fn kv_insert<V>(d: Seq<(Seq<char>, V)>, k: Seq<char>, v: V) -> Seq<(Seq<char>, V)> {
    let i = find_key(d, k);
    if i >= 0 {
        d.update(i, (k, v))
    } else {
        d.push((k, v))
    }
}

/// `find_key` is the first match: within range, under key `k`, and no
/// earlier entry is under `k`; -1 when no entry is.
pub proof fn lemma_find_key<V>(d: Seq<(Seq<char>, V)>, k: Seq<char>)
    ensures
        -1 <= find_key(d, k) < d.len(),
        find_key(d, k) >= 0 ==> d[find_key(d, k)].0 == k,
        forall|j: int| 0 <= j < d.len() && (find_key(d, k) < 0 || j < find_key(d, k)) ==> d[j].0 != k,
    decreases d.len(),
{
    if d.len() > 0 {
        let p = d.drop_last();
        lemma_find_key(p, k);
        assert forall|j: int|
            0 <= j < d.len() && (find_key(d, k) < 0 || j < find_key(d, k)) implies d[j].0 != k by {
            if j < d.len() - 1 {
                assert(d[j] == p[j]);
            }
        }
    }
}

/// An index that is the first match of `k` (or -1 with no match) is what
/// `find_key` returns.
pub proof fn lemma_find_key_is<V>(d: Seq<(Seq<char>, V)>, k: Seq<char>, i: int)
    requires
        -1 <= i < d.len(),
        i >= 0 ==> d[i].0 == k,
        forall|j: int| 0 <= j < d.len() && (i < 0 || j < i) ==> d[j].0 != k,
    ensures
        find_key(d, k) == i,
{
    lemma_find_key(d, k);
    let f = find_key(d, k);
    if f >= 0 && i >= 0 {
        if f < i {
            assert(d[f].0 != k);
        } else if i < f {
            assert(d[i].0 != k);
        }
    } else if f >= 0 {
        assert(d[f].0 != k);
    } else if i >= 0 {
        assert(d[i].0 != k);
    }
}

/// A first match stays the first match when entries are appended.
pub proof fn lemma_find_key_prefix<V>(d: Seq<(Seq<char>, V)>, n: int, k: Seq<char>)
    requires
        0 <= n <= d.len(),
        find_key(d.take(n), k) >= 0,
    ensures
        find_key(d, k) == find_key(d.take(n), k),
    decreases d.len() - n,
{
    if n < d.len() {
        assert(d.take(n + 1).drop_last() =~= d.take(n));
        lemma_find_key_prefix(d, n + 1, k);
    } else {
        assert(d.take(n) =~= d);
    }
}

/// Keys of `d` appear once each.
pub open spec fn keys_unique<V>(d: Seq<(Seq<char>, V)>) -> bool {
    forall|i: int, j: int| 0 <= i < j < d.len() ==> d[i].0 != d[j].0
}

/// In a list whose keys appear once each, the value under `d[i].0` is
/// `d[i].1`.
pub proof fn lemma_get_unique<V>(d: Seq<(Seq<char>, V)>, i: int)
    requires
        keys_unique(d),
        0 <= i < d.len(),
    ensures
        kv_get(d, d[i].0) == Some(d[i].1),
{
    lemma_find_key(d, d[i].0);
}

/// After setting `k` to `v`, the value under `k` is `v`; other keys keep
/// their values.
pub proof fn lemma_insert_get<V>(d: Seq<(Seq<char>, V)>, k: Seq<char>, v: V, k2: Seq<char>)
    ensures
        kv_get(kv_insert(d, k, v), k2) == if k2 == k {
            Some(v)
        } else {
            kv_get(d, k2)
        },
{
    lemma_find_key(d, k);
    lemma_find_key(d, k2);
    let d2 = kv_insert(d, k, v);
    let i = find_key(d, k);
    let i2 = find_key(d, k2);
    if k2 == k {
        if i >= 0 {
            lemma_find_key_is(d2, k2, i);
        } else {
            lemma_find_key_is(d2, k2, d.len() as int);
        }
    } else {
        if i >= 0 {
            lemma_find_key_is(d2, k2, i2);
        } else {
            lemma_find_key_is(d2, k2, i2);
        }
    }
}

/// `d` without its first entry under `k`.
pub open spec fn kv_remove<V>(d: Seq<(Seq<char>, V)>, k: Seq<char>) -> Seq<(Seq<char>, V)> {
    let i = find_key(d, k);
    if i >= 0 {
        d.remove(i)
    } else {
        d
    }
}

/// In a list whose keys appear once each, an entry under `k` is the one
/// `find_key` finds.
pub proof fn lemma_unique_find<V>(d: Seq<(Seq<char>, V)>, k: Seq<char>, i: int)
    requires
        keys_unique(d),
        0 <= i < d.len(),
        d[i].0 == k,
    ensures
        find_key(d, k) == i,
{
    lemma_find_key_is(d, k, i);
}

/// Replacing the value of an entry moves no key.
pub proof fn lemma_update_value<V>(d: Seq<(Seq<char>, V)>, i: int, v: V, k: Seq<char>)
    requires
        0 <= i < d.len(),
    ensures
        find_key(d.update(i, (d[i].0, v)), k) == find_key(d, k),
        keys_unique(d) ==> keys_unique(d.update(i, (d[i].0, v))),
{
    lemma_find_key(d, k);
    lemma_find_key_is(d.update(i, (d[i].0, v)), k, find_key(d, k));
}

/// Appending an entry under a new key moves no other key.
pub proof fn lemma_push_new<V>(d: Seq<(Seq<char>, V)>, k: Seq<char>, v: V, k2: Seq<char>)
    requires
        find_key(d, k) < 0,
    ensures
        find_key(d.push((k, v)), k2) == if k2 == k {
            d.len() as int
        } else {
            find_key(d, k2)
        },
        keys_unique(d) ==> keys_unique(d.push((k, v))),
{
    lemma_find_key(d, k);
    lemma_find_key(d, k2);
    let d2 = d.push((k, v));
    if k2 == k {
        lemma_find_key_is(d2, k2, d.len() as int);
    } else {
        lemma_find_key_is(d2, k2, find_key(d, k2));
    }
}

/// Setting a key keeps keys unique.
pub proof fn lemma_insert_unique<V>(d: Seq<(Seq<char>, V)>, k: Seq<char>, v: V)
    requires
        keys_unique(d),
    ensures
        keys_unique(kv_insert(d, k, v)),
{
    lemma_find_key(d, k);
    if find_key(d, k) >= 0 {
        lemma_update_value(d, find_key(d, k), v, k);
    } else {
        lemma_push_new(d, k, v, k);
    }
}

/// After removing `k` from a list whose keys appear once each, no value is
/// under `k`; other keys keep their values, and keys stay unique.
pub proof fn lemma_remove_get<V>(d: Seq<(Seq<char>, V)>, k: Seq<char>, k2: Seq<char>)
    requires
        keys_unique(d),
    ensures
        kv_get(kv_remove(d, k), k2) == if k2 == k {
            None
        } else {
            kv_get(d, k2)
        },
        keys_unique(kv_remove(d, k)),
{
    lemma_find_key(d, k);
    lemma_find_key(d, k2);
    let i = find_key(d, k);
    if i >= 0 {
        let d2 = d.remove(i);
        assert(keys_unique(d2)) by {
            assert forall|a: int, b: int| 0 <= a < b < d2.len() implies d2[a].0 != d2[b].0 by {
                let a1 = if a < i { a } else { a + 1 };
                let b1 = if b < i { b } else { b + 1 };
                assert(d2[a] == d[a1]);
                assert(d2[b] == d[b1]);
            }
        }
        if k2 == k {
            assert forall|j: int| 0 <= j < d2.len() implies d2[j].0 != k2 by {
                let j1 = if j < i { j } else { j + 1 };
                assert(d2[j] == d[j1]);
            }
            lemma_find_key_is(d2, k2, -1);
        } else {
            let f = find_key(d, k2);
            if f >= 0 {
                let f2 = if f < i { f } else { f - 1 };
                assert(d2[f2] == d[f]);
                lemma_unique_find(d2, k2, f2);
            } else {
                assert forall|j: int| 0 <= j < d2.len() implies d2[j].0 != k2 by {
                    let j1 = if j < i { j } else { j + 1 };
                    assert(d2[j] == d[j1]);
                }
                lemma_find_key_is(d2, k2, -1);
            }
        }
    }
}

} // verus!
