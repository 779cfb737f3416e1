use vstd::prelude::*;
use crate::page_alloc::{same_config, PageAlloc, WordMemory};
use crate::space::Space;
use crate::types::Bytes;

pub mod copying;
pub mod experimental;
pub mod generational;
pub mod mark_compact;
pub mod no;

verus! {

/// What every step of a collection keeps of a space that it allocates in,
/// whether the step succeeds or traps: the space stays well formed, the pages
/// that were live stay live with their bitmaps, mapped addresses stay mapped,
/// the space keeps its pages and may add fresh ones, and every added page is
/// one that the allocator had left; and the counter of allocated bytes has
/// grown by the bytes that the allocation pointer has passed, the rests of
/// the pages that were closed included.
pub open spec fn gc_frame<P: PageAlloc>(before: &Space<P>, after: &Space<P>) -> bool {
    &&& after.wf()
    &&& same_config(&before.page_alloc, &after.page_alloc)
    &&& forall|p: P::Page| #[trigger]
        before.page_alloc.is_live(p) ==> after.page_alloc.is_live(p)
    &&& forall|s: int| #[trigger]
        before.page_alloc.live().contains(s) ==> after.page_alloc.live().contains(s)
            && after.page_alloc.bitmap(s) == before.page_alloc.bitmap(s)
    &&& forall|a: int| #[trigger]
        before.page_alloc.words().dom().contains(a) ==> after.page_alloc.words().dom().contains(a)
    &&& after.pages@.len() >= before.pages@.len()
    &&& after.pages@.take(before.pages@.len() as int) == before.pages@
    &&& forall|k: int|
        before.pages@.len() <= k < after.pages@.len() ==> !before.page_alloc.live().contains(
            P::start_of(#[trigger] after.pages@[k]),
        )
    &&& after.page_alloc.remaining() + after.pages@.len() == before.page_alloc.remaining()
        + before.pages@.len()
    &&& after.filled() >= before.filled()
    &&& after.total_alloc == crate::space::saturating_sum(
        before.total_alloc as int,
        after.filled() - before.filled(),
    )
}

/// A step that changes words of memory only keeps the frame.
pub proof fn lemma_gc_frame_refl<P: PageAlloc>(space: &Space<P>)
    requires
        space.wf(),
    ensures
        gc_frame(space, space),
{
    assert(space.pages@.take(space.pages@.len() as int) =~= space.pages@);
}

/// Steps compose.
pub proof fn lemma_gc_frame_trans<P: PageAlloc>(a: &Space<P>, b: &Space<P>, c: &Space<P>)
    requires
        gc_frame(a, b),
        gc_frame(b, c),
    ensures
        gc_frame(a, c),
{
    assert(c.pages@.take(a.pages@.len() as int) =~= a.pages@) by {
        assert forall|k: int| 0 <= k < a.pages@.len() implies c.pages@[k] == a.pages@[k] by {
            assert(c.pages@.take(b.pages@.len() as int)[k] == b.pages@[k]);
            assert(b.pages@.take(a.pages@.len() as int)[k] == a.pages@[k]);
        }
    }
    assert forall|k: int| a.pages@.len() <= k < c.pages@.len() implies !a.page_alloc.live().contains(
        P::start_of(#[trigger] c.pages@[k]),
    ) by {
        if k < b.pages@.len() {
            assert(c.pages@.take(b.pages@.len() as int)[k] == b.pages@[k]);
        }
    }
}

/// Whether a collection is due: the space has allocated `max_live` bytes or
/// more.
pub fn should_do_gc<P: PageAlloc>(space: &Space<P>, max_live: Bytes<u64>) -> (due: bool)
    ensures
        due == (space.total_alloc >= max_live.0),
{
    space.total_alloc() as u64 >= max_live.0
}

} // verus!
