//! The write barrier: what runs after every store of a pointer into a
//! field.
use vstd::prelude::*;
use crate::gc::generational::remembered_set::RememberedSet;
use crate::page_alloc::WordMemory;
use crate::types::Value;

verus! {

/// Whether the field at `field` is one that the remembered set has to know
/// of: it lies in the old generation, below `last_free`, and holds a pointer
/// whose raw word is `last_free` or more, into the young generation.
pub open spec fn spec_relevant_field(words: Map<int, u32>, field: int, last_free: int) -> bool {
    &&& field < last_free
    &&& words.dom().contains(field)
    &&& Value(words[field]).spec_is_ptr()
    &&& words[field] >= last_free
}

/// Decides `spec_relevant_field`.
pub fn relevant_field<M: WordMemory>(mem: &M, current_field: usize, last_free: usize) -> (b: bool)
    requires
        mem.wf(),
    ensures
        b == spec_relevant_field(mem.words(), current_field as int, last_free as int),
{
    if current_field < last_free && mem.contains(current_field) {
        let value = Value::from_raw(mem.read_word(current_field));
        value.is_ptr() && value.get_raw() as usize >= last_free
    } else {
        false
    }
}

/// Records the field at `field` after a pointer was stored into it, where
/// the field lies in the old generation and now points into the young one.
pub fn post_write_barrier<M: WordMemory>(
    remembered_set: &mut RememberedSet,
    mem: &M,
    field: usize,
    last_free: usize,
)
    requires
        mem.wf(),
        field <= 0xffff_ffff,
    ensures
        spec_relevant_field(mem.words(), field as int, last_free as int) ==> final(remembered_set).spec_contains(Value(field as u32)),
        !spec_relevant_field(mem.words(), field as int, last_free as int) ==> final(remembered_set)@
            == old(remembered_set)@,
        forall|v: Value| old(remembered_set).spec_contains(v) ==> final(remembered_set).spec_contains(v),
{
    if relevant_field(mem, field, last_free) {
        remembered_set.insert(Value::from_raw(field as u32));
    }
}

} // verus!
