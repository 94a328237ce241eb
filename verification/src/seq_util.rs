//! Small sequence helpers shared by the allocators.
use vstd::prelude::*;

verus! {

/// Slot handed out by the `i`-th fresh allocation (counting from zero) when
/// slots are taken from the top of `free` first (LIFO) and then from the
/// high-water mark `hwm` upwards.
pub open spec fn lifo_slot(free: Seq<usize>, hwm: int, i: int) -> int {
    if i < free.len() {
        free[free.len() - 1 - i] as int
    } else {
        hwm + (i - free.len())
    }
}

/// The free list that remains after `k` fresh allocations.
pub open spec fn freelist_after(free: Seq<usize>, k: int) -> Seq<usize> {
    if k < free.len() {
        free.take(free.len() - k)
    } else {
        Seq::empty()
    }
}

/// The high-water mark after `k` fresh allocations from a free list of
/// length `free_len`.
pub open spec fn hwm_after(free_len: int, hwm: int, k: int) -> int {
    if k <= free_len {
        hwm
    } else {
        hwm + (k - free_len)
    }
}

/// Takes one slot off the top of `free`, or else the high-water mark (which
/// then advances). The caller checks the slot against its capacity.
pub fn take_slot(free: &mut Vec<usize>, hwm: &mut usize, capacity: usize) -> (r: Option<usize>)
    ensures
        old(free)@.len() > 0 ==> {
            &&& final(free)@ == old(free)@.drop_last()
            &&& *final(hwm) == *old(hwm)
            &&& r == (if old(free)@.last() < capacity { Some(old(free)@.last()) } else { None::<usize> })
        },
        old(free)@.len() == 0 ==> {
            &&& final(free)@ == old(free)@
            &&& (*old(hwm) < capacity ==> r == Some(*old(hwm)) && *final(hwm) == *old(hwm) + 1)
            &&& (*old(hwm) >= capacity ==> r is None && *final(hwm) == *old(hwm))
        },
{
    match free.pop() {
        Some(s) => {
            if s < capacity {
                Some(s)
            } else {
                None
            }
        },
        None => {
            if *hwm < capacity {
                let s = *hwm;
                *hwm = *hwm + 1;
                Some(s)
            } else {
                None
            }
        },
    }
}

} // verus!
