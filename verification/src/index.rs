//! Slot numbers, which the lists of this crate use in place of pointers.
use vstd::prelude::*;

verus! {

/// The number of a slot.
pub type Index = u32;

/// The number that no slot has.
pub const NULL_IDX: Index = 0xffff_ffff;

/// What stands at position `i` of a list, or the null index outside it.
pub open spec fn nth(list: Seq<Index>, i: int) -> Index {
    if 0 <= i < list.len() {
        list[i]
    } else {
        NULL_IDX
    }
}

} // verus!
