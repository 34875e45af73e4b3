//! The leaf node: up to `L_CAPACITY` key-value pairs, index-aligned and
//! sorted by key, mutated in place by the single writer that owns this copy.

use vstd::prelude::*;
use vstd::pervasive::VecAdditionalExecFns;

use crate::constants::L_CAPACITY;
use crate::constants::L_MAX_IDX;
use crate::order::keys_below;
use crate::order::lemma_displace_max;
use crate::order::lemma_found;
use crate::order::lemma_keys_below_bounds;
use crate::order::lemma_sorted_insert;
use crate::order::lemma_sorted_remove;
use crate::order::sorted;
use crate::states::BLInsertState;
use crate::states::BLRemoveState;
use crate::utils::shift_insert;
use crate::utils::shift_remove;

verus! {

/// A leaf node. `key[i]` is associated with `value[i]`; the two vectors are
/// index-aligned, never longer than `L_CAPACITY`, and the keys are strictly
/// ascending.
pub struct Leaf {
    /// The live keys, strictly ascending.
    pub key: Vec<u64>,
    /// The live values, index-aligned with `key`.
    pub value: Vec<u64>,
}

impl Leaf {
    /// Well-formedness: what every constructor establishes and every method
    /// preserves.
    pub open spec fn wf(self) -> bool {
        &&& self.key@.len() == self.value@.len()
        &&& self.key@.len() <= L_CAPACITY
        &&& sorted(self.key@)
    }

    /// Creates an empty leaf.
    pub fn new() -> (r: Self)
        ensures
            r.wf(),
            r.key@ == Seq::<u64>::empty(),
            r.value@ == Seq::<u64>::empty(),
    {
        Leaf { key: Vec::new(), value: Vec::new() }
    }

    /// Number of live pairs.
    pub fn len(&self) -> (r: usize)
        ensures
            r == self.key@.len(),
    {
        self.key.len()
    }

    /// Binary search over the live prefix for the slot of `k`: the number of
    /// keys strictly below it.
    fn locate(&self, k: u64) -> (r: usize)
        requires
            self.wf(),
        ensures
            r == keys_below(self.key@, k),
    {
        proof {
            lemma_keys_below_bounds(self.key@, k);
        }
        let mut lo: usize = 0;
        let mut hi: usize = self.key.len();
        while lo < hi
            invariant
                self.wf(),
                lo <= hi <= self.key@.len(),
                forall|i: int| 0 <= i < lo ==> self.key@[i] < k,
                forall|i: int| hi <= i < self.key@.len() ==> k <= self.key@[i],
            decreases hi - lo,
        {
            let mid: usize = lo + (hi - lo) / 2;
            if self.key[mid] < k {
                lo = mid + 1;
            } else {
                hi = mid;
            }
        }
        proof {
            let kb = keys_below(self.key@, k);
            if lo < kb {
                assert(self.key@[lo as int] < k);
            }
            if lo > kb {
                assert(k <= self.key@[kb]);
                assert(self.key@[kb] < k);
            }
        }
        lo
    }

    /// Stores the pair `(k, v)`, updating in place when `k` is already live,
    /// inserting at the sorted slot when there is room, and otherwise
    /// splitting: the leaf keeps the `L_CAPACITY` smallest keys among its
    /// contents and the new pair, and returns the single largest excess pair
    /// for the parent to route into a new right sibling.
    pub fn insert_or_update(&mut self, k: u64, v: u64) -> (r: BLInsertState<u64, u64>)
        requires
            old(self).wf(),
        ensures
            final(self).wf(),
            // updating a present key stores the new value in place and hands
            // back the previous one; the keys and the count are unchanged
            old(self).key@.contains(k) ==> {
                &&& r == BLInsertState::<u64, u64>::Done(
                    Some(old(self).value@[keys_below(old(self).key@, k)]),
                )
                &&& final(self).key@ == old(self).key@
                &&& final(self).value@ == old(self).value@.update(
                    keys_below(old(self).key@, k),
                    v,
                )
            },
            // a fresh key in a leaf with room goes to its sorted slot
            !old(self).key@.contains(k) && old(self).key@.len() < L_CAPACITY ==> {
                &&& r == BLInsertState::<u64, u64>::Done(None)
                &&& final(self).key@ == old(self).key@.insert(keys_below(old(self).key@, k), k)
                &&& final(self).value@ == old(self).value@.insert(
                    keys_below(old(self).key@, k),
                    v,
                )
            },
            // a leaf below capacity never splits
            old(self).key@.len() < L_CAPACITY ==> !(r is Split),
            // a full leaf rejects a key above its maximum and stays unchanged
            (!old(self).key@.contains(k) && old(self).key@.len() == L_CAPACITY && k > old(
                self,
            ).key@.last()) ==> {
                &&& r == BLInsertState::<u64, u64>::Split(k, v)
                &&& final(self).key@ == old(self).key@
                &&& final(self).value@ == old(self).value@
            },
            // a full leaf given a key below its maximum evicts the maximum
            // pair: it keeps the L_CAPACITY smallest keys, now holds `k`, no
            // longer holds the old maximum, and promotes the evicted pair
            (!old(self).key@.contains(k) && old(self).key@.len() == L_CAPACITY && k < old(
                self,
            ).key@.last()) ==> {
                &&& r == BLInsertState::<u64, u64>::Split(
                    old(self).key@.last(),
                    old(self).value@.last(),
                )
                &&& final(self).key@ == old(self).key@.drop_last().insert(
                    keys_below(old(self).key@, k),
                    k,
                )
                &&& final(self).value@ == old(self).value@.drop_last().insert(
                    keys_below(old(self).key@, k),
                    v,
                )
                &&& final(self).key@.contains(k)
                &&& !final(self).key@.contains(old(self).key@.last())
                &&& final(self).key@.len() == L_CAPACITY
            },
    {
        proof {
            lemma_keys_below_bounds(self.key@, k);
            lemma_found(self.key@, k);
        }
        let count = self.key.len();
        let idx = self.locate(k);
        if idx < count && self.key[idx] == k {
            // the key exists: overwrite its value and return the previous one
            let prev: u64 = self.value[idx];
            self.value.set(idx, v);
            BLInsertState::Done(Some(prev))
        } else if count == L_CAPACITY {
            // the leaf is full and the key is fresh
            if idx >= count {
                // the new key exceeds every live key: it must live in a new
                // right sibling, so hand it back unchanged
                proof {
                    assert(old(self).key@.last() < k);
                }
                BLInsertState::Split(k, v)
            } else {
                // evict the current maximum, insert the new pair at its slot,
                // and promote the evicted pair
                proof {
                    assert(old(self).key@.last() >= k && old(self).key@.last() != k);
                    lemma_displace_max(old(self).key@, k);
                }
                let pk = shift_remove(&mut self.key, L_MAX_IDX);
                let pv = shift_remove(&mut self.value, L_MAX_IDX);
                shift_insert(&mut self.key, k, idx);
                shift_insert(&mut self.value, v, idx);
                proof {
                    assert(old(self).key@.remove(L_MAX_IDX as int) =~= old(
                        self,
                    ).key@.drop_last());
                    assert(old(self).value@.remove(L_MAX_IDX as int) =~= old(
                        self,
                    ).value@.drop_last());
                }
                BLInsertState::Split(pk, pv)
            }
        } else {
            // there is room: shift the tail and place the pair at its slot
            proof {
                lemma_sorted_insert(old(self).key@, k);
            }
            shift_insert(&mut self.key, k, idx);
            shift_insert(&mut self.value, v, idx);
            BLInsertState::Done(None)
        }
    }

    /// Removes `k` if live. An absent key is no fault: the leaf is left
    /// untouched and the caller told so. A remove that leaves (or finds) the
    /// leaf empty reports `Shrink`, the signal for the parent to detach it —
    /// exactly once per emptied leaf, since a second remove finds no key.
    pub fn remove(&mut self, k: &u64) -> (r: BLRemoveState<u64>)
        requires
            old(self).wf(),
        ensures
            final(self).wf(),
            // removing from an already-empty leaf reports Shrink(None)
            old(self).key@.len() == 0 ==> {
                &&& r == BLRemoveState::<u64>::Shrink(None)
                &&& final(self).key@ == old(self).key@
                &&& final(self).value@ == old(self).value@
            },
            // an absent key leaves a non-empty leaf untouched
            old(self).key@.len() > 0 && !old(self).key@.contains(*k) ==> {
                &&& r == BLRemoveState::<u64>::Done(None)
                &&& final(self).key@ == old(self).key@
                &&& final(self).value@ == old(self).value@
            },
            // a present key comes out with its value, closing the gap; the
            // remove that empties the leaf reports Shrink instead of Done
            old(self).key@.contains(*k) ==> {
                &&& final(self).key@ == old(self).key@.remove(keys_below(old(self).key@, *k))
                &&& final(self).value@ == old(self).value@.remove(keys_below(old(self).key@, *k))
                &&& !final(self).key@.contains(*k)
                &&& r == (if old(self).key@.len() == 1 {
                    BLRemoveState::<u64>::Shrink(
                        Some(old(self).value@[keys_below(old(self).key@, *k)]),
                    )
                } else {
                    BLRemoveState::<u64>::Done(
                        Some(old(self).value@[keys_below(old(self).key@, *k)]),
                    )
                })
            },
    {
        // already empty - should never occur in a maintained tree, but report
        // the shrink rather than trusting the caller
        if self.key.len() == 0 {
            return BLRemoveState::Shrink(None);
        }
        match self.get_idx(k) {
            // count is greater than 0 and the key is not here
            None => BLRemoveState::Done(None),
            Some(idx) => {
                proof {
                    lemma_sorted_remove(old(self).key@, idx as int);
                }
                let _pk = shift_remove(&mut self.key, idx);
                let pv = shift_remove(&mut self.value, idx);
                if self.key.len() == 0 {
                    BLRemoveState::Shrink(Some(pv))
                } else {
                    BLRemoveState::Done(Some(pv))
                }
            },
        }
    }

    /// Slot of the last live pair.
    pub fn max_idx(&self) -> (r: usize)
        requires
            self.key@.len() > 0,
        ensures
            r == self.key@.len() - 1,
    {
        self.key.len() - 1
    }

    /// The smallest live key. Calling this on an empty leaf is a contract
    /// violation of the surrounding tree, so emptiness is excluded outright.
    pub fn min(&self) -> (r: &u64)
        requires
            self.wf(),
            self.key@.len() > 0,
        ensures
            *r == self.key@[0],
            forall|i: int| 0 <= i < self.key@.len() ==> *r <= self.key@[i],
    {
        &self.key[0]
    }

    /// The largest live key; as `min`, only callable on a non-empty leaf.
    pub fn max(&self) -> (r: &u64)
        requires
            self.wf(),
            self.key@.len() > 0,
        ensures
            *r == self.key@.last(),
            forall|i: int| 0 <= i < self.key@.len() ==> self.key@[i] <= *r,
    {
        let idx = self.max_idx();
        &self.key[idx]
    }

    /// Linear scan of the live prefix for `k`; its slot if present.
    fn get_idx(&self, k: &u64) -> (r: Option<usize>)
        requires
            self.wf(),
        ensures
            match r {
                Some(idx) => self.key@.contains(*k) && idx == keys_below(self.key@, *k)
                    && idx < self.key@.len() && self.key@[idx as int] == *k,
                None => !self.key@.contains(*k),
            },
    {
        proof {
            lemma_found(self.key@, *k);
        }
        let count = self.key.len();
        let mut idx: usize = 0;
        while idx < count
            invariant
                self.wf(),
                count == self.key@.len(),
                idx <= count,
                forall|j: int| 0 <= j < idx ==> self.key@[j] != *k,
            decreases count - idx,
        {
            if self.key[idx] == *k {
                proof {
                    lemma_keys_below_bounds(self.key@, *k);
                    let kb = keys_below(self.key@, *k);
                    if idx < kb {
                        assert(self.key@[idx as int] < *k);
                    }
                    if idx > kb {
                        assert(*k <= self.key@[kb]);
                        assert(self.key@[kb] != *k);
                        assert(self.key@[kb] < self.key@[idx as int]);
                    }
                }
                return Some(idx);
            }
            idx = idx + 1;
        }
        None
    }

    /// The value live under `k`, while the leaf is not mutated.
    pub fn get_ref(&self, k: &u64) -> (r: Option<&u64>)
        requires
            self.wf(),
        ensures
            match r {
                Some(v) => self.spec_lookup(*k) == Some(*v),
                None => self.spec_lookup(*k) is None,
            },
    {
        match self.get_idx(k) {
            Some(idx) => Some(&self.value[idx]),
            None => None,
        }
    }

    /// Mutable access to the value live under `k`, valid until the borrow of
    /// the leaf ends; the keys cannot be reached this way, so the sorted run
    /// is preserved whatever the caller writes.
    pub fn get_mut_ref(&mut self, k: &u64) -> (r: Option<&mut u64>)
        requires
            old(self).wf(),
        ensures
            final(self).key@ == old(self).key@,
            match r {
                Some(v) => {
                    &&& old(self).spec_lookup(*k) == Some(*v)
                    &&& final(self).value@ == old(self).value@.update(
                        keys_below(old(self).key@, *k),
                        *final(v),
                    )
                },
                None => {
                    &&& old(self).spec_lookup(*k) is None
                    &&& final(self).value@ == old(self).value@
                },
            },
    {
        match self.get_idx(k) {
            Some(idx) => {
                proof {
                    assert(old(self).value@ =~= old(self).value@.update(
                        keys_below(old(self).key@, *k),
                        old(self).value@[keys_below(old(self).key@, *k)],
                    ));
                }
                Some(&mut self.value[idx])
            },
            None => None,
        }
    }

    /// The association the leaf currently holds for `k`.
    pub open spec fn spec_lookup(self, k: u64) -> Option<u64> {
        if self.key@.contains(k) {
            Some(self.value@[keys_below(self.key@, k)])
        } else {
            None
        }
    }

    /// Bounds-checked positional access into the live prefix, for ordered
    /// external iteration.
    pub fn get_kv_idx_checked(&self, idx: usize) -> (r: Option<(&u64, &u64)>)
        requires
            self.wf(),
        ensures
            match r {
                Some(p) => idx < self.key@.len() && *p.0 == self.key@[idx as int] && *p.1
                    == self.value@[idx as int],
                None => idx >= self.key@.len(),
            },
    {
        if idx < self.key.len() {
            Some((&self.key[idx], &self.value[idx]))
        } else {
            None
        }
    }

    /// Scans the live prefix and reports whether it is strictly ascending.
    /// Well-formedness makes the check provably always pass; it is kept as a
    /// runtime guard for unverified callers. As in `min`/`max`, an empty leaf
    /// is outside the contract.
    pub fn check_sorted(&self) -> (r: bool)
        requires
            self.wf(),
            self.key@.len() > 0,
        ensures
            r,
    {
        let mut lk: u64 = self.key[0];
        let mut work_idx: usize = 1;
        while work_idx < self.key.len()
            invariant
                self.wf(),
                1 <= work_idx,
                work_idx <= self.key@.len(),
                lk == self.key@[work_idx - 1],
            decreases self.key@.len() - work_idx,
        {
            let rk: u64 = self.key[work_idx];
            if lk >= rk {
                proof {
                    assert(self.key@[work_idx - 1] < self.key@[work_idx as int]);
                }
                return false;
            }
            lk = rk;
            work_idx = work_idx + 1;
        }
        true
    }

    /// Self-check used by the surrounding tree's consistency audit.
    pub fn verify(&self) -> (r: bool)
        requires
            self.wf(),
            self.key@.len() > 0,
        ensures
            r,
    {
        self.check_sorted()
    }

    /// Diagnostic pair for balance reporting: live count and capacity.
    pub fn tree_density(&self) -> (r: (usize, usize))
        ensures
            r.0 == self.key@.len(),
            r.1 == L_CAPACITY,
    {
        (self.key.len(), L_CAPACITY)
    }
}

/// Law: storing a new value under a key already live keeps the key run and
/// the count unchanged, a subsequent lookup of that key yields the new value,
/// and every other key's association is untouched. The relation between `pre`
/// and `post` required here is exactly what `insert_or_update` ensures when
/// it is given a key the leaf holds.
pub proof fn lemma_update_semantics(pre: Leaf, post: Leaf, k: u64, v: u64)
    requires
        pre.wf(),
        pre.key@.contains(k),
        post.key@ == pre.key@,
        post.value@ == pre.value@.update(keys_below(pre.key@, k), v),
    ensures
        post.wf(),
        post.key@.len() == pre.key@.len(),
        post.spec_lookup(k) == Some(v),
        forall|k2: u64| k2 != k ==> post.spec_lookup(k2) == pre.spec_lookup(k2),
{
    lemma_keys_below_bounds(pre.key@, k);
    lemma_found(pre.key@, k);
    assert forall|k2: u64| k2 != k implies post.spec_lookup(k2) == pre.spec_lookup(k2) by {
        lemma_keys_below_bounds(pre.key@, k2);
        lemma_found(pre.key@, k2);
    }
}

impl Clone for Leaf {
    /// Deep-copies exactly the live prefix into a new leaf with independent
    /// storage; mutating either copy afterwards leaves the other untouched.
    fn clone(&self) -> (r: Self)
        ensures
            r.key@ == self.key@,
            r.value@ == self.value@,
    {
        let mut nkey: Vec<u64> = Vec::new();
        let mut nvalue: Vec<u64> = Vec::new();
        let mut idx: usize = 0;
        while idx < self.key.len()
            invariant
                idx <= self.key@.len(),
                nkey@ == self.key@.subrange(0, idx as int),
            decreases self.key@.len() - idx,
        {
            nkey.push(self.key[idx]);
            proof {
                assert(nkey@ =~= self.key@.subrange(0, idx + 1));
            }
            idx = idx + 1;
        }
        let mut vdx: usize = 0;
        while vdx < self.value.len()
            invariant
                vdx <= self.value@.len(),
                nvalue@ == self.value@.subrange(0, vdx as int),
            decreases self.value@.len() - vdx,
        {
            nvalue.push(self.value[vdx]);
            proof {
                assert(nvalue@ =~= self.value@.subrange(0, vdx + 1));
            }
            vdx = vdx + 1;
        }
        proof {
            assert(nkey@ =~= self.key@);
            assert(nvalue@ =~= self.value@);
        }
        Leaf { key: nkey, value: nvalue }
    }
}

} // verus!
