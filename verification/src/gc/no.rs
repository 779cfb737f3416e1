//! Disabled GC, for benchmark measurements.
use vstd::prelude::*;
use crate::memory::Memory;

verus! {

/// Called where a collection would be scheduled: collects nothing.
pub fn schedule_no_gc<M: Memory>(mem: &mut M)
    ensures
        *final(mem) == *old(mem),
{
    no_gc(mem);
}

/// Collects nothing: the memory stays as it is.
pub fn no_gc<M: Memory>(mem: &mut M)
    ensures
        *final(mem) == *old(mem),
{
}

} // verus!
