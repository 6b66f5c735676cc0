//! Read-modify-write steps on the shared indices and flags, each taken as
//! one indivisible step.
use vstd::prelude::*;

verus! {

/// Add `val` to `*atomic`, wrapping around on overflow; returns the previous value.
pub fn fetch_add(atomic: &mut usize, val: usize) -> (prev: usize)
    ensures
        prev == *old(atomic),
        *final(atomic) == vstd::wrapping::usize_specs::wrapping_add(prev, val),
{
    let prev = *atomic;
    *atomic = prev.wrapping_add(val);
    prev
}

/// Subtract `val` from `*atomic`, wrapping around on overflow; returns the previous value.
pub fn fetch_sub(atomic: &mut usize, val: usize) -> (prev: usize)
    ensures
        prev == *old(atomic),
        *final(atomic) == vstd::wrapping::usize_specs::wrapping_sub(prev, val),
{
    let prev = *atomic;
    *atomic = prev.wrapping_sub(val);
    prev
}

/// Store `val` in `*atomic`; returns the previous value.
pub fn swap(atomic: &mut bool, val: bool) -> (prev: bool)
    ensures
        prev == *old(atomic),
        *final(atomic) == val,
{
    let prev = *atomic;
    *atomic = val;
    prev
}

} // verus!
