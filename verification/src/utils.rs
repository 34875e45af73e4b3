//! Slot-array utilities: shift-insert and shift-remove over a fixed-capacity
//! arena whose live count the caller tracks. Both are pure relocation — no
//! allocation beyond the arena itself, and the caller alone updates the count
//! (here, the vector's length plays that role).

use vstd::prelude::*;
use vstd::pervasive::VecAdditionalExecFns;

verus! {

/// Moves the elements at `[idx, len)` one slot toward the tail, then places
/// `value` at `idx`. Ownership of `value` transfers into the arena.
pub fn shift_insert<T: Copy>(arena: &mut Vec<T>, value: T, idx: usize)
    requires
        idx <= old(arena).len(),
        old(arena).len() < usize::MAX,
    ensures
        final(arena)@ == old(arena)@.insert(idx as int, value),
{
    arena.push(value);
    let mut i: usize = arena.len() - 1;
    while i > idx
        invariant
            idx <= i < arena@.len(),
            arena@.len() == old(arena)@.len() + 1,
            forall|j: int| 0 <= j < i ==> arena@[j] == old(arena)@[j],
            forall|j: int| i < j < arena@.len() ==> arena@[j] == old(arena)@[j - 1],
        decreases i,
    {
        let tmp: T = arena[i - 1];
        arena.set(i, tmp);
        i = i - 1;
    }
    arena.set(idx, value);
    proof {
        old(arena)@.insert_ensures(idx as int, value);
        assert(arena@ =~= old(arena)@.insert(idx as int, value));
    }
}

/// Returns the element at `idx`, having shifted `[idx + 1, len)` one slot
/// toward the head to close the gap. Ownership of the returned element
/// transfers to the caller.
pub fn shift_remove<T: Copy>(arena: &mut Vec<T>, idx: usize) -> (r: T)
    requires
        idx < old(arena).len(),
    ensures
        r == old(arena)@[idx as int],
        final(arena)@ == old(arena)@.remove(idx as int),
{
    let r: T = arena[idx];
    let mut i: usize = idx;
    while i < arena.len() - 1
        invariant
            idx <= i < arena@.len(),
            arena@.len() == old(arena)@.len(),
            forall|j: int| 0 <= j < idx ==> arena@[j] == old(arena)@[j],
            forall|j: int| idx <= j < i ==> arena@[j] == old(arena)@[j + 1],
            forall|j: int| i <= j < arena@.len() ==> arena@[j] == old(arena)@[j],
        decreases arena@.len() - i,
    {
        let tmp: T = arena[i + 1];
        arena.set(i, tmp);
        i = i + 1;
    }
    let _ = arena.pop();
    proof {
        old(arena)@.remove_ensures(idx as int);
        assert(arena@ =~= old(arena)@.remove(idx as int));
    }
    r
}

} // verus!
