//! Tree configuration: the fixed number of slots every leaf owns.

use vstd::prelude::*;

verus! {

/// Number of key/value slots in a leaf node. Every leaf of one tree instance
/// shares this capacity; it is a small fixed constant, not user-controlled.
pub const L_CAPACITY: usize = 10;

/// Index of the last slot of a full leaf.
pub const L_MAX_IDX: usize = L_CAPACITY - 1;

} // verus!
