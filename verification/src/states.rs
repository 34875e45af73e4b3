//! The outcome protocol of a leaf: the closed vocabulary through which a
//! parent branch learns of a child's structural change. These values are only
//! returned, never stored, and carry no ownership beyond the call that
//! produced them.

use vstd::prelude::*;

verus! {

/// Outcome of an insert into a leaf.
pub enum BLInsertState<K, V> {
    /// The pair was stored locally. Holds the previous value when an existing
    /// key was updated in place, `None` when a fresh key was inserted.
    Done(Option<V>),
    /// The leaf was full: the returned pair is the single overflow the parent
    /// must route into a new right sibling. It is either the rejected input
    /// pair itself (when the new key exceeds every key kept) or the evicted
    /// current maximum.
    Split(K, V),
}

/// Outcome of a remove from a leaf.
pub enum BLRemoveState<V> {
    /// The leaf still holds at least one pair. Holds the removed value, or
    /// `None` when the key was absent.
    Done(Option<V>),
    /// The leaf is now (or already was) empty and the parent must detach it.
    /// Holds the removed value, or `None` when the leaf was already empty.
    Shrink(Option<V>),
}

} // verus!
