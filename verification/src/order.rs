//! The mathematical model of a leaf's live prefix: a strictly ascending run
//! of keys, and the slot arithmetic that insert, lookup and remove share.

use vstd::prelude::*;

verus! {

/// A strictly ascending run of keys — the sortedness invariant of a leaf's
/// live prefix. Strictness also rules out duplicate keys.
pub open spec fn sorted(s: Seq<u64>) -> bool {
    forall|i: int, j: int| 0 <= i < j < s.len() ==> s[i] < s[j]
}

/// Number of entries of `s` strictly below `k`. In a sorted run this is the
/// slot where `k` lives if present, and where it would be inserted if not.
pub open spec fn keys_below(s: Seq<u64>, k: u64) -> int
    decreases s.len(),
{
    if s.len() == 0 {
        0
    } else if s.last() < k {
        keys_below(s.drop_last(), k) + 1
    } else {
        keys_below(s.drop_last(), k)
    }
}

/// In a sorted run, everything before slot `keys_below(s, k)` is strictly
/// below `k` and everything from that slot on is at least `k`.
pub proof fn lemma_keys_below_bounds(s: Seq<u64>, k: u64)
    requires
        sorted(s),
    ensures
        0 <= keys_below(s, k) <= s.len(),
        forall|i: int| 0 <= i < keys_below(s, k) ==> s[i] < k,
        forall|i: int| keys_below(s, k) <= i < s.len() ==> k <= s[i],
    decreases s.len(),
{
    if s.len() > 0 {
        let d = s.drop_last();
        assert(forall|i: int| 0 <= i < d.len() ==> d[i] == s[i]);
        lemma_keys_below_bounds(d, k);
        if s.last() < k {
            if keys_below(d, k) < d.len() {
                assert(k <= d[keys_below(d, k)]);
                assert(s[keys_below(d, k)] < s[s.len() - 1]);
                assert(false);
            }
            assert(forall|i: int| 0 <= i < s.len() - 1 ==> s[i] == d[i] && d[i] < k);
        }
    }
}

/// A sorted run holds `k` exactly when slot `keys_below(s, k)` holds it.
pub proof fn lemma_found(s: Seq<u64>, k: u64)
    requires
        sorted(s),
    ensures
        s.contains(k) <==> (keys_below(s, k) < s.len() && s[keys_below(s, k)] == k),
{
    lemma_keys_below_bounds(s, k);
    if s.contains(k) {
        let w = choose|w: int| 0 <= w < s.len() && s[w] == k;
        if w < keys_below(s, k) {
            assert(s[w] < k);
        }
        if w > keys_below(s, k) {
            assert(s[keys_below(s, k)] < s[w]);
        }
        assert(w == keys_below(s, k));
    }
}

/// Law: inserting a fresh key at its sorted slot keeps the run strictly
/// ascending, holds the new key, and grows the run by one.
pub proof fn lemma_sorted_insert(s: Seq<u64>, k: u64)
    requires
        sorted(s),
        !s.contains(k),
    ensures
        sorted(s.insert(keys_below(s, k), k)),
        s.insert(keys_below(s, k), k).contains(k),
        s.insert(keys_below(s, k), k).len() == s.len() + 1,
{
    lemma_keys_below_bounds(s, k);
    let kb = keys_below(s, k);
    let t = s.insert(kb, k);
    s.insert_ensures(kb, k);
    assert(forall|i: int| 0 <= i < s.len() ==> s[i] != k);
    assert(forall|i: int| 0 <= i < kb ==> t[i] == s[i]);
    assert(t[kb] == k);
    assert forall|i: int| kb < i < t.len() implies t[i] == s[i - 1] by {
        assert(t[(i - 1) + 1] == s[i - 1]);
    }
    assert forall|i: int, j: int| 0 <= i < j < t.len() implies t[i] < t[j] by {
        if j < kb {
        } else if j == kb {
            assert(t[i] == s[i] && s[i] < k);
        } else {
            assert(t[j] == s[j - 1] && k <= s[j - 1] && s[j - 1] != k);
            if i < kb {
                assert(t[i] == s[i] && s[i] < k);
            } else if i == kb {
            } else {
                assert(t[i] == s[i - 1]);
            }
        }
    }
    assert(t.contains(k)) by {
        assert(0 <= kb < t.len() && t[kb] == k);
    }
}

/// Law: removing one slot keeps the run strictly ascending, and — keys being
/// unique in a strictly ascending run — removes that key entirely.
pub proof fn lemma_sorted_remove(s: Seq<u64>, i: int)
    requires
        sorted(s),
        0 <= i < s.len(),
    ensures
        sorted(s.remove(i)),
        !s.remove(i).contains(s[i]),
        s.remove(i).len() == s.len() - 1,
        forall|k: u64| k != s[i] ==> (s.remove(i).contains(k) <==> s.contains(k)),
    decreases s.len(),
{
    s.remove_ensures(i);
    let t = s.remove(i);
    assert(forall|j: int| 0 <= j < i ==> t[j] == s[j]);
    assert forall|j: int| i <= j < t.len() implies t[j] == s[j + 1] by {
        assert(t[j] == s[j + 1]);
    }
    assert forall|a: int, b: int| 0 <= a < b < t.len() implies t[a] < t[b] by {
        if a < i && b < i {
        } else if a < i {
            assert(t[b] == s[b + 1] && s[a] < s[b + 1]);
        } else {
            assert(t[a] == s[a + 1] && t[b] == s[b + 1]);
        }
    }
    assert forall|j: int| 0 <= j < t.len() implies t[j] != s[i] by {
        if j < i {
            assert(s[j] < s[i]);
        } else {
            assert(t[j] == s[j + 1] && s[i] < s[j + 1]);
        }
    }
    assert forall|k: u64| k != s[i] implies (t.contains(k) <==> s.contains(k)) by {
        if t.contains(k) {
            let w = choose|w: int| 0 <= w < t.len() && t[w] == k;
            if w < i {
                assert(s[w] == k);
            } else {
                assert(s[w + 1] == k);
            }
        }
        if s.contains(k) {
            let w = choose|w: int| 0 <= w < s.len() && s[w] == k;
            if w < i {
                assert(t[w] == k);
            } else {
                assert(w > i);
                assert(t[w - 1] == s[(w - 1) + 1]);
                assert(t[w - 1] == k);
            }
        }
    }
}

/// Law: a full leaf routing a key below its maximum keeps the smallest keys.
/// Dropping the maximum and inserting the fresh key at its sorted slot yields
/// a strictly ascending run of the same length that holds the new key and no
/// longer holds the old maximum.
pub proof fn lemma_displace_max(s: Seq<u64>, k: u64)
    requires
        sorted(s),
        s.len() > 0,
        !s.contains(k),
        k < s.last(),
    ensures
        keys_below(s.drop_last(), k) == keys_below(s, k),
        sorted(s.drop_last().insert(keys_below(s, k), k)),
        s.drop_last().insert(keys_below(s, k), k).contains(k),
        !s.drop_last().insert(keys_below(s, k), k).contains(s.last()),
        s.drop_last().insert(keys_below(s, k), k).len() == s.len(),
{
    let d = s.drop_last();
    assert(forall|i: int| 0 <= i < d.len() ==> d[i] == s[i]);
    assert(sorted(d));
    assert(!d.contains(k)) by {
        if d.contains(k) {
            let w = choose|w: int| 0 <= w < d.len() && d[w] == k;
            assert(s[w] == k);
        }
    }
    lemma_keys_below_bounds(s, k);
    lemma_sorted_insert(d, k);
    let kb = keys_below(s, k);
    let t = d.insert(kb, k);
    d.insert_ensures(kb, k);
    assert forall|i: int| 0 <= i < t.len() implies t[i] != s.last() by {
        if i < kb {
            assert(t[i] == d[i] && s[i] < s[s.len() - 1]);
        } else if i == kb {
            assert(t[i] == k);
        } else {
            assert(t[(i - 1) + 1] == d[i - 1]);
            assert(s[i - 1] < s[s.len() - 1]);
        }
    }
    if t.contains(s.last()) {
        let w = choose|w: int| 0 <= w < t.len() && t[w] == s.last();
        assert(false);
    }
}

} // verus!
