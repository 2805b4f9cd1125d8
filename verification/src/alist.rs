//! Association sequences: the spec-level vocabulary for every keyed table in
//! the router (rooms by name, the token index, a room's members and live
//! connections). A table is a sequence of key/value pairs with pairwise
//! distinct keys; lookups resolve to the first matching entry, which under
//! that uniqueness is the only one.

use vstd::prelude::*;

verus! {

/// Index of the first entry with key `k`, or -1 when there is none.
pub open spec fn alist_idx<K, V>(s: Seq<(K, V)>, k: K) -> int
    decreases s.len(),
{
    if s.len() == 0 {
        -1
    } else if s[0].0 == k {
        0
    } else {
        let r = alist_idx(s.drop_first(), k);
        if r == -1 {
            -1
        } else {
            r + 1
        }
    }
}

/// Whether some entry has key `k`.
pub open spec fn alist_has<K, V>(s: Seq<(K, V)>, k: K) -> bool {
    alist_idx(s, k) != -1
}

/// Value of the first entry with key `k`.
pub open spec fn alist_get<K, V>(s: Seq<(K, V)>, k: K) -> V
    recommends
        alist_has(s, k),
{
    s[alist_idx(s, k)].1
}

/// Replace the value under `k` in place when present, append otherwise.
pub open spec fn alist_set<K, V>(s: Seq<(K, V)>, k: K, v: V) -> Seq<(K, V)> {
    if alist_has(s, k) {
        s.update(alist_idx(s, k), (k, v))
    } else {
        s.push((k, v))
    }
}

/// Drop the entry with key `k` when present, keeping the order of the rest.
pub open spec fn alist_remove<K, V>(s: Seq<(K, V)>, k: K) -> Seq<(K, V)> {
    if alist_has(s, k) {
        s.remove(alist_idx(s, k))
    } else {
        s
    }
}

/// Drop every entry whose value is `v`, keeping the order of the rest.
pub open spec fn alist_drop_value<K, V>(s: Seq<(K, V)>, v: V) -> Seq<(K, V)>
    decreases s.len(),
{
    if s.len() == 0 {
        Seq::empty()
    } else {
        let rest = alist_drop_value(s.drop_first(), v);
        if s[0].1 == v {
            rest
        } else {
            seq![s[0]] + rest
        }
    }
}

/// Pairwise distinct keys.
pub open spec fn alist_unique<K, V>(s: Seq<(K, V)>) -> bool {
    forall|i: int, j: int| 0 <= i < j < s.len() ==> s[i].0 != s[j].0
}

/// What `alist_idx` resolves to: -1 exactly when no entry has the key, and
/// otherwise the first matching position.
pub proof fn lemma_alist_idx<K, V>(s: Seq<(K, V)>, k: K)
    ensures
        alist_idx(s, k) == -1 ==> forall|i: int| 0 <= i < s.len() ==> s[i].0 != k,
        alist_idx(s, k) != -1 ==> {
            &&& 0 <= alist_idx(s, k) < s.len()
            &&& s[alist_idx(s, k)].0 == k
            &&& forall|j: int| 0 <= j < alist_idx(s, k) ==> s[j].0 != k
        },
    decreases s.len(),
{
    if s.len() == 0 {
    } else if s[0].0 == k {
    } else {
        let t = s.drop_first();
        lemma_alist_idx(t, k);
        assert forall|i: int| 0 <= i < s.len() && s[i].0 == k implies alist_idx(s, k) != -1 by {
            assert(t[i - 1].0 == k);
        }
        if alist_idx(s, k) != -1 {
            let x = alist_idx(s, k);
            assert(x == alist_idx(t, k) + 1);
            assert(s[x].0 == t[x - 1].0);
            assert forall|j: int| 0 <= j < x implies s[j].0 != k by {
                if j > 0 {
                    assert(s[j].0 == t[j - 1].0);
                }
            }
        }
    }
}

/// The first matching position determines `alist_idx`.
pub proof fn lemma_alist_idx_of_first<K, V>(s: Seq<(K, V)>, k: K, i: int)
    requires
        0 <= i < s.len(),
        s[i].0 == k,
        forall|j: int| 0 <= j < i ==> s[j].0 != k,
    ensures
        alist_idx(s, k) == i,
    decreases s.len(),
{
    if s[0].0 == k {
    } else {
        assert(s.drop_first()[i - 1].0 == k);
        lemma_alist_idx_of_first(s.drop_first(), k, i - 1);
    }
}

/// Under unique keys, any matching position is the resolved one.
pub proof fn lemma_alist_idx_unique<K, V>(s: Seq<(K, V)>, k: K, i: int)
    requires
        alist_unique(s),
        0 <= i < s.len(),
        s[i].0 == k,
    ensures
        alist_idx(s, k) == i,
        alist_has(s, k),
        alist_get(s, k) == s[i].1,
{
    assert forall|j: int| 0 <= j < i implies s[j].0 != k by {
        assert(s[j].0 != s[i].0);
    }
    lemma_alist_idx_of_first(s, k, i);
}

/// Appending an entry with a fresh key: old keys resolve as before, the new
/// key resolves to the appended entry, and uniqueness is kept.
pub proof fn lemma_alist_push<K, V>(s: Seq<(K, V)>, k: K, v: V)
    requires
        alist_unique(s),
        !alist_has(s, k),
    ensures
        alist_unique(s.push((k, v))),
        alist_has(s.push((k, v)), k),
        alist_get(s.push((k, v)), k) == v,
        forall|k2: K| k2 != k ==> alist_has(s.push((k, v)), k2) == alist_has(s, k2),
        forall|k2: K|
            k2 != k && alist_has(s, k2) ==> alist_get(s.push((k, v)), k2) == alist_get(s, k2),
{
    let s2 = s.push((k, v));
    lemma_alist_idx(s, k);
    assert forall|i: int, j: int| 0 <= i < j < s2.len() implies s2[i].0 != s2[j].0 by {
        if j < s.len() {
            assert(s[i].0 != s[j].0);
        } else {
            assert(s2[j].0 == k && s[i].0 != k);
        }
    }
    lemma_alist_idx_unique(s2, k, s.len() as int);
    assert forall|k2: K| k2 != k implies alist_has(s2, k2) == alist_has(s, k2) && (alist_has(
        s,
        k2,
    ) ==> alist_get(s2, k2) == alist_get(s, k2)) by {
        lemma_alist_idx(s, k2);
        lemma_alist_idx(s2, k2);
        if alist_has(s, k2) {
            let i = alist_idx(s, k2);
            assert(s2[i].0 == k2);
            lemma_alist_idx_unique(s2, k2, i);
        } else {
            if alist_has(s2, k2) {
                let i = alist_idx(s2, k2);
                assert(s2[i].0 == k2);
                assert(i == s.len() as int);
            }
        }
    }
}

/// Updating the value at the key's resolved position: the key now holds the
/// new value, every other key is untouched, and uniqueness is kept.
pub proof fn lemma_alist_update<K, V>(s: Seq<(K, V)>, k: K, v: V)
    requires
        alist_unique(s),
        alist_has(s, k),
    ensures
        alist_unique(alist_set(s, k, v)),
        alist_set(s, k, v).len() == s.len(),
        alist_has(alist_set(s, k, v), k),
        alist_get(alist_set(s, k, v), k) == v,
        forall|k2: K| k2 != k ==> alist_has(alist_set(s, k, v), k2) == alist_has(s, k2),
        forall|k2: K|
            k2 != k && alist_has(s, k2) ==> alist_get(alist_set(s, k, v), k2) == alist_get(s, k2),
{
    lemma_alist_idx(s, k);
    let i = alist_idx(s, k);
    let s2 = s.update(i, (k, v));
    assert forall|a: int, b: int| 0 <= a < b < s2.len() implies s2[a].0 != s2[b].0 by {
        assert(s[a].0 != s[b].0);
        assert(s2[a].0 == s[a].0 && s2[b].0 == s[b].0);
    }
    lemma_alist_idx_unique(s2, k, i);
    assert forall|k2: K| k2 != k implies alist_has(s2, k2) == alist_has(s, k2) && (alist_has(
        s,
        k2,
    ) ==> alist_get(s2, k2) == alist_get(s, k2)) by {
        lemma_alist_idx(s, k2);
        lemma_alist_idx(s2, k2);
        if alist_has(s, k2) {
            let j = alist_idx(s, k2);
            assert(s2[j].0 == k2);
            lemma_alist_idx_unique(s2, k2, j);
        } else {
            if alist_has(s2, k2) {
                let j = alist_idx(s2, k2);
                assert(s2[j].0 == k2);
                assert(s[j].0 == k2);
            }
        }
    }
}

/// Setting a key's value, whether or not the key is present: the key now
/// holds the new value, every other key is untouched, and uniqueness is kept.
pub proof fn lemma_alist_set<K, V>(s: Seq<(K, V)>, k: K, v: V)
    requires
        alist_unique(s),
    ensures
        alist_unique(alist_set(s, k, v)),
        alist_has(alist_set(s, k, v), k),
        alist_get(alist_set(s, k, v), k) == v,
        alist_set(s, k, v).len() == if alist_has(s, k) {
            s.len()
        } else {
            s.len() + 1
        },
        forall|k2: K| k2 != k ==> alist_has(alist_set(s, k, v), k2) == alist_has(s, k2),
        forall|k2: K|
            k2 != k && alist_has(s, k2) ==> alist_get(alist_set(s, k, v), k2) == alist_get(s, k2),
{
    if alist_has(s, k) {
        lemma_alist_update(s, k, v);
    } else {
        lemma_alist_push(s, k, v);
    }
}

/// Removing the key's entry: the key is gone, every other key keeps its
/// value, and uniqueness is kept.
pub proof fn lemma_alist_remove<K, V>(s: Seq<(K, V)>, k: K)
    requires
        alist_unique(s),
        alist_has(s, k),
    ensures
        alist_unique(alist_remove(s, k)),
        alist_remove(s, k).len() == s.len() - 1,
        !alist_has(alist_remove(s, k), k),
        forall|k2: K| k2 != k ==> alist_has(alist_remove(s, k), k2) == alist_has(s, k2),
        forall|k2: K|
            k2 != k && alist_has(s, k2) ==> alist_get(alist_remove(s, k), k2) == alist_get(s, k2),
{
    lemma_alist_idx(s, k);
    let i = alist_idx(s, k);
    let s2 = s.remove(i);
    assert forall|a: int, b: int| 0 <= a < b < s2.len() implies s2[a].0 != s2[b].0 by {
        let a0 = if a < i {
            a
        } else {
            a + 1
        };
        let b0 = if b < i {
            b
        } else {
            b + 1
        };
        assert(s2[a].0 == s[a0].0 && s2[b].0 == s[b0].0);
        assert(s[a0].0 != s[b0].0);
    }
    lemma_alist_idx(s2, k);
    if alist_has(s2, k) {
        let j = alist_idx(s2, k);
        let j0 = if j < i {
            j
        } else {
            j + 1
        };
        assert(s[j0].0 == s2[j].0);
        assert(s[j0].0 != s[i].0);
    }
    assert forall|k2: K| k2 != k implies alist_has(s2, k2) == alist_has(s, k2) && (alist_has(
        s,
        k2,
    ) ==> alist_get(s2, k2) == alist_get(s, k2)) by {
        lemma_alist_idx(s, k2);
        lemma_alist_idx(s2, k2);
        if alist_has(s, k2) {
            let j = alist_idx(s, k2);
            assert(s[j].0 == k2);
            let j2 = if j < i {
                j
            } else {
                j - 1
            };
            assert(s2[j2].0 == k2);
            lemma_alist_idx_unique(s2, k2, j2);
        } else {
            if alist_has(s2, k2) {
                let j = alist_idx(s2, k2);
                let j0 = if j < i {
                    j
                } else {
                    j + 1
                };
                assert(s[j0].0 == s2[j].0);
            }
        }
    }
}

/// A key other than the head's resolves the same way in the tail.
pub proof fn lemma_alist_head_skip<K, V>(u: Seq<(K, V)>, k: K)
    requires
        u.len() > 0,
        u[0].0 != k,
    ensures
        alist_has(u, k) == alist_has(u.drop_first(), k),
        alist_has(u, k) ==> alist_get(u, k) == alist_get(u.drop_first(), k),
{
    let t = u.drop_first();
    if alist_idx(t, k) != -1 {
        lemma_alist_idx(t, k);
        assert(u[alist_idx(t, k) + 1] == t[alist_idx(t, k)]);
    }
}

/// Dropping every entry with value `v`: what remains are exactly the entries
/// of `s` under other values, with their keys and values intact.
pub proof fn lemma_alist_drop_value<K, V>(s: Seq<(K, V)>, v: V)
    requires
        alist_unique(s),
    ensures
        alist_unique(alist_drop_value(s, v)),
        forall|i: int|
            0 <= i < alist_drop_value(s, v).len() ==> (#[trigger] alist_drop_value(s, v)[i]).1 != v
                && s.contains(alist_drop_value(s, v)[i]),
        forall|k: K|
            #[trigger] alist_has(alist_drop_value(s, v), k) <==> (alist_has(s, k) && alist_get(
                s,
                k,
            ) != v),
        forall|k: K|
            alist_has(alist_drop_value(s, v), k) ==> alist_get(alist_drop_value(s, v), k)
                == alist_get(s, k),
    decreases s.len(),
{
    let d = alist_drop_value(s, v);
    if s.len() == 0 {
        assert forall|k: K| true implies !alist_has(d, k) by {
            lemma_alist_idx(d, k);
        }
    } else {
        let t = s.drop_first();
        assert(alist_unique(t)) by {
            assert forall|a: int, b: int| 0 <= a < b < t.len() implies t[a].0 != t[b].0 by {
                assert(s[a + 1].0 != s[b + 1].0);
            }
        }
        lemma_alist_drop_value(t, v);
        let dt = alist_drop_value(t, v);
        assert forall|i: int|
            0 <= i < dt.len() implies s.contains(dt[i]) by {
            assert(t.contains(dt[i]));
            let w = choose|w: int| 0 <= w < t.len() && t[w] == dt[i];
            assert(s[w + 1] == dt[i]);
        }
        // Key facts relating lookups in `s` to lookups in its tail.
        assert forall|k: K| k != s[0].0 implies alist_has(s, k) == alist_has(t, k) && (alist_has(
            t,
            k,
        ) ==> alist_get(s, k) == alist_get(t, k)) by {
            lemma_alist_head_skip(s, k);
        }
        assert(!alist_has(t, s[0].0)) by {
            lemma_alist_idx(t, s[0].0);
            if alist_has(t, s[0].0) {
                let j = alist_idx(t, s[0].0);
                assert(s[j + 1].0 == s[0].0);
            }
        }
        if s[0].1 == v {
            assert(d == dt);
            assert forall|k: K| #[trigger] alist_has(d, k) <==> (alist_has(s, k) && alist_get(s, k)
                != v) by {
                if k == s[0].0 {
                    assert(!alist_has(t, k));
                    assert(alist_get(s, k) == s[0].1);
                } else {
                }
            }
        } else {
            assert(d == seq![s[0]] + dt);
            assert(d.drop_first() =~= dt);
            assert(d[0] == s[0]);
            // No remaining entry reuses the head's key.
            assert forall|i: int| 0 <= i < dt.len() implies dt[i].0 != s[0].0 by {
                assert(alist_has(t, dt[i].0)) by {
                    let w = choose|w: int| 0 <= w < t.len() && t[w] == dt[i];
                    lemma_alist_idx_unique(t, dt[i].0, w);
                }
            }
            assert(alist_unique(d)) by {
                assert forall|a: int, b: int| 0 <= a < b < d.len() implies d[a].0 != d[b].0 by {
                    if a == 0 {
                        assert(d[b] == dt[b - 1]);
                    } else {
                        assert(d[a] == dt[a - 1] && d[b] == dt[b - 1]);
                        assert(dt[a - 1].0 != dt[b - 1].0);
                    }
                }
            }
            assert forall|i: int|
                0 <= i < d.len() implies (#[trigger] d[i]).1 != v && s.contains(d[i]) by {
                if i == 0 {
                    assert(s[0] == d[0]);
                } else {
                    assert(d[i] == dt[i - 1]);
                }
            }
            assert forall|k: K| #[trigger] alist_has(d, k) <==> (alist_has(s, k) && alist_get(s, k)
                != v) by {
                if k == s[0].0 {
                    lemma_alist_idx_unique(d, k, 0);
                } else {
                    lemma_alist_head_skip(d, k);
                }
            }
            assert forall|k: K| alist_has(d, k) implies alist_get(d, k) == alist_get(s, k) by {
                if k == s[0].0 {
                    lemma_alist_idx_unique(d, k, 0);
                } else {
                    lemma_alist_head_skip(d, k);
                }
            }
        }
    }
}

} // verus!
