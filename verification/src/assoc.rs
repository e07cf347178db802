//! Specification helpers for association sequences.
//!
//! Both the key-to-entry index and the modelled disk tier are, at the
//! mathematical level, sequences of `(key, value)` pairs with pairwise
//! distinct keys. Keeping them as sequences (rather than maps) preserves
//! insertion order, which the eviction algorithm depends on for its
//! deterministic tie-breaking.

use vstd::prelude::*;

verus! {

/// No two pairs of `s` carry the same key.
pub open spec fn keys_distinct<V>(s: Seq<(Seq<char>, V)>) -> bool {
    forall|i: int, j: int| 0 <= i < j < s.len() ==> s[i].0 != s[j].0
}

/// Index of the first pair of `s` whose key is `k`, or `-1` if there is none.
pub open spec fn find_key<V>(s: Seq<(Seq<char>, V)>, k: Seq<char>) -> int
    decreases s.len(),
{
    if s.len() == 0 {
        -1
    } else if s[0].0 == k {
        0
    } else {
        let r = find_key(s.drop_first(), k);
        if r < 0 {
            -1
        } else {
            r + 1
        }
    }
}

/// Whether some pair of `s` carries the key `k`.
pub open spec fn contains_key<V>(s: Seq<(Seq<char>, V)>, k: Seq<char>) -> bool {
    find_key(s, k) >= 0
}

/// The value stored under `k`; meaningful only when `contains_key(s, k)`.
pub open spec fn value_of<V>(s: Seq<(Seq<char>, V)>, k: Seq<char>) -> V {
    s[find_key(s, k)].1
}

/// `s` with `v` stored under `k`: the pair carrying `k` is replaced in
/// place if one exists, appended otherwise.
pub open spec fn set_assoc<V>(s: Seq<(Seq<char>, V)>, k: Seq<char>, v: V) -> Seq<(Seq<char>, V)> {
    if contains_key(s, k) {
        s.update(find_key(s, k), (k, v))
    } else {
        s.push((k, v))
    }
}

/// `s` without the pair that carries `k`; `s` itself if no pair does.
pub open spec fn remove_key<V>(s: Seq<(Seq<char>, V)>, k: Seq<char>) -> Seq<(Seq<char>, V)> {
    if contains_key(s, k) {
        s.remove(find_key(s, k))
    } else {
        s
    }
}

/// What `find_key` returns: `-1` exactly when no pair carries `k`, and
/// otherwise the first index that does.
pub proof fn lemma_find_key<V>(s: Seq<(Seq<char>, V)>, k: Seq<char>)
    ensures
        find_key(s, k) == -1 <==> (forall|i: int| 0 <= i < s.len() ==> s[i].0 != k),
        find_key(s, k) != -1 ==> {
            &&& 0 <= find_key(s, k) < s.len()
            &&& s[find_key(s, k)].0 == k
            &&& forall|i: int| 0 <= i < find_key(s, k) ==> s[i].0 != k
        },
    decreases s.len(),
{
    if s.len() == 0 {
    } else if s[0].0 == k {
    } else {
        lemma_find_key(s.drop_first(), k);
        assert(forall|i: int| 1 <= i < s.len() ==> s[i] == s.drop_first()[i - 1]);
        let r = find_key(s.drop_first(), k);
        if r == -1 {
            assert forall|i: int| 0 <= i < s.len() implies s[i].0 != k by {
                if i >= 1 {
                    assert(s.drop_first()[i - 1].0 != k);
                }
            }
        } else {
            assert(s[r + 1] == s.drop_first()[r]);
            assert forall|i: int| 0 <= i < r + 1 implies s[i].0 != k by {
                if i >= 1 {
                    assert(s.drop_first()[i - 1].0 != k);
                }
            }
        }
    }
}

/// Removing the pair at an index keeps the remaining keys pairwise distinct.
pub proof fn lemma_remove_keeps_distinct<V>(s: Seq<(Seq<char>, V)>, i: int)
    requires
        keys_distinct(s),
        0 <= i < s.len(),
    ensures
        keys_distinct(s.remove(i)),
{
    assert forall|p: int, q: int| 0 <= p < q < s.remove(i).len() implies s.remove(i)[p].0 != s.remove(
        i,
    )[q].0 by {
        let p0 = if p < i {
            p
        } else {
            p + 1
        };
        let q0 = if q < i {
            q
        } else {
            q + 1
        };
        assert(s.remove(i)[p] == s[p0]);
        assert(s.remove(i)[q] == s[q0]);
    }
}

/// Replacing the pair at an index with one that carries the same key keeps
/// the keys pairwise distinct.
pub proof fn lemma_update_keeps_distinct<V>(s: Seq<(Seq<char>, V)>, i: int, v: (Seq<char>, V))
    requires
        keys_distinct(s),
        0 <= i < s.len(),
        v.0 == s[i].0,
    ensures
        keys_distinct(s.update(i, v)),
{
}

/// Appending a pair whose key occurs nowhere in `s` keeps the keys pairwise
/// distinct.
pub proof fn lemma_push_keeps_distinct<V>(s: Seq<(Seq<char>, V)>, v: (Seq<char>, V))
    requires
        keys_distinct(s),
        forall|i: int| 0 <= i < s.len() ==> s[i].0 != v.0,
    ensures
        keys_distinct(s.push(v)),
{
}

/// Two sequences that carry the same keys at the same positions agree on
/// `find_key` for every key.
pub proof fn lemma_find_key_same_keys<V, W>(
    s1: Seq<(Seq<char>, V)>,
    s2: Seq<(Seq<char>, W)>,
    k: Seq<char>,
)
    requires
        s1.len() == s2.len(),
        forall|i: int| 0 <= i < s1.len() ==> s1[i].0 == s2[i].0,
    ensures
        find_key(s1, k) == find_key(s2, k),
    decreases s1.len(),
{
    if s1.len() > 0 {
        assert(s1[0].0 == s2[0].0);
        assert(forall|i: int| 0 <= i < s1.drop_first().len() ==> s1.drop_first()[i] == s1[i + 1]);
        assert(forall|i: int| 0 <= i < s2.drop_first().len() ==> s2.drop_first()[i] == s2[i + 1]);
        lemma_find_key_same_keys(s1.drop_first(), s2.drop_first(), k);
    }
}

/// What `find_key` returns on a sequence extended at the end.
pub proof fn lemma_find_key_push<V>(s: Seq<(Seq<char>, V)>, v: (Seq<char>, V), k: Seq<char>)
    ensures
        find_key(s.push(v), k) == if contains_key(s, k) {
            find_key(s, k)
        } else if v.0 == k {
            s.len() as int
        } else {
            -1
        },
    decreases s.len(),
{
    if s.len() == 0 {
        assert(s.push(v)[0] == v);
        assert(s.push(v).drop_first() =~= Seq::<(Seq<char>, V)>::empty());
        assert(find_key(s, k) == -1);
        assert(find_key(Seq::<(Seq<char>, V)>::empty(), k) == -1);
        if v.0 == k {
            assert(find_key(s.push(v), k) == 0);
        } else {
            assert(find_key(s.push(v), k) == -1);
        }
    } else {
        assert(s.push(v)[0] == s[0]);
        assert(s.push(v).drop_first() =~= s.drop_first().push(v));
        lemma_find_key_push(s.drop_first(), v, k);
        if s[0].0 == k {
            assert(find_key(s.push(v), k) == 0);
            assert(find_key(s, k) == 0);
        } else {
            assert(find_key(s.push(v), k) == (if find_key(s.drop_first().push(v), k) < 0 {
                -1
            } else {
                find_key(s.drop_first().push(v), k) + 1
            }));
            assert(find_key(s, k) == (if find_key(s.drop_first(), k) < 0 {
                -1
            } else {
                find_key(s.drop_first(), k) + 1
            }));
        }
    }
}

/// In a sequence with pairwise distinct keys, the pair at any index is the
/// one `find_key` finds for its key.
pub proof fn lemma_index_is_find<V>(s: Seq<(Seq<char>, V)>, i: int)
    requires
        keys_distinct(s),
        0 <= i < s.len(),
    ensures
        find_key(s, s[i].0) == i,
{
    lemma_find_key(s, s[i].0);
    let f = find_key(s, s[i].0);
    if f == -1 {
        assert(s[i].0 != s[i].0);
    } else if f < i {
        assert(s[f].0 == s[i].0);
        assert(false);
    } else if f > i {
        assert(s[i].0 != s[i].0);
    }
}

/// What storing `v` under `k` does: the pair under `k` carries `v`
/// afterwards, and every other key keeps its pair.
pub proof fn lemma_set_assoc<V>(s: Seq<(Seq<char>, V)>, k: Seq<char>, v: V)
    requires
        keys_distinct(s),
    ensures
        keys_distinct(set_assoc(s, k, v)),
        contains_key(set_assoc(s, k, v), k),
        value_of(set_assoc(s, k, v), k) == v,
        forall|k2: Seq<char>| k2 != k ==> #[trigger] contains_key(set_assoc(s, k, v), k2)
            == contains_key(s, k2),
        forall|k2: Seq<char>| k2 != k && contains_key(s, k2) ==> #[trigger] value_of(
            set_assoc(s, k, v),
            k2,
        ) == value_of(s, k2),
{
    lemma_find_key(s, k);
    let t = set_assoc(s, k, v);
    if contains_key(s, k) {
        let i = find_key(s, k);
        lemma_update_keeps_distinct(s, i, (k, v));
        assert forall|k2: Seq<char>| true implies find_key(t, k2) == find_key(s, k2) by {
            lemma_find_key_same_keys(s, t, k2);
        }
        assert(t[i].1 == v);
        assert forall|k2: Seq<char>| k2 != k && contains_key(s, k2) implies #[trigger] value_of(
            t,
            k2,
        ) == value_of(s, k2) by {
            lemma_find_key(s, k2);
            let j = find_key(s, k2);
            assert(s[j].0 == k2);
            assert(j != i);
            assert(t[j] == s[j]);
        }
    } else {
        assert forall|i: int| 0 <= i < s.len() implies s[i].0 != k by {}
        lemma_push_keeps_distinct(s, (k, v));
        assert forall|k2: Seq<char>| true implies find_key(t, k2) == (if contains_key(s, k2) {
            find_key(s, k2)
        } else if k2 == k {
            s.len() as int
        } else {
            -1
        }) by {
            lemma_find_key_push(s, (k, v), k2);
        }
        assert(t[s.len() as int].1 == v);
        assert forall|k2: Seq<char>| k2 != k && contains_key(s, k2) implies #[trigger] value_of(
            t,
            k2,
        ) == value_of(s, k2) by {
            lemma_find_key(s, k2);
            let j = find_key(s, k2);
            assert(t[j] == s[j]);
        }
    }
}

/// What removing `k` does: no pair carries `k` afterwards, and every other
/// key keeps its pair.
pub proof fn lemma_remove_assoc<V>(s: Seq<(Seq<char>, V)>, k: Seq<char>)
    requires
        keys_distinct(s),
    ensures
        keys_distinct(remove_key(s, k)),
        !contains_key(remove_key(s, k), k),
        forall|k2: Seq<char>| k2 != k ==> #[trigger] contains_key(remove_key(s, k), k2)
            == contains_key(s, k2),
        forall|k2: Seq<char>| k2 != k && contains_key(s, k2) ==> #[trigger] value_of(
            remove_key(s, k),
            k2,
        ) == value_of(s, k2),
{
    lemma_find_key(s, k);
    let t = remove_key(s, k);
    if contains_key(s, k) {
        let i = find_key(s, k);
        lemma_remove_keeps_distinct(s, i);
        assert forall|j: int| 0 <= j < t.len() implies t[j] == (if j < i {
            s[j]
        } else {
            s[j + 1]
        }) by {}
        assert forall|j: int| 0 <= j < t.len() implies t[j].0 != k by {
            if j >= i {
                assert(s[j + 1].0 != s[i].0);
            }
        }
        lemma_find_key(t, k);
        assert forall|k2: Seq<char>| k2 != k implies #[trigger] contains_key(t, k2)
            == contains_key(s, k2) by {
            lemma_find_key(s, k2);
            lemma_find_key(t, k2);
            if contains_key(s, k2) {
                let j = find_key(s, k2);
                assert(j != i);
                let pos = if j < i {
                    j
                } else {
                    j - 1
                };
                assert(t[pos] == s[j]);
                if find_key(t, k2) == -1 {
                    assert(t[pos].0 != k2);
                }
            }
            if contains_key(t, k2) {
                let j2 = find_key(t, k2);
                let back = if j2 < i {
                    j2
                } else {
                    j2 + 1
                };
                assert(t[j2] == s[back]);
                if find_key(s, k2) == -1 {
                    assert(s[back].0 != k2);
                }
            }
        }
        assert forall|k2: Seq<char>| k2 != k && contains_key(s, k2) implies #[trigger] value_of(
            t,
            k2,
        ) == value_of(s, k2) by {
            lemma_find_key(s, k2);
            let j = find_key(s, k2);
            assert(j != i);
            let pos = if j < i {
                j
            } else {
                j - 1
            };
            assert(t[pos] == s[j]);
            lemma_find_key(t, k2);
            if find_key(t, k2) == -1 {
                assert(t[pos].0 != k2);
            }
            let j2 = find_key(t, k2);
            let back = if j2 < i {
                j2
            } else {
                j2 + 1
            };
            assert(t[j2] == s[back]);
            assert(s[back].0 == k2);
            if back != j {
                assert(s[back].0 == s[j].0);
                assert(false);
            }
        }
    }
}

} // verus!
