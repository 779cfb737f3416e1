//! A mark stack in a single buffer, which is a blob of the heap.  When the
//! buffer is full it is grown in place to twice its size, by an allocation
//! that lands right behind it.
use vstd::prelude::*;
use crate::memory::{alloc_blob, blob_words, Memory};
use crate::object::Trap;
use crate::page_alloc::{preserved_on, WordMemory};
use crate::types::{Bytes, Value, Words, TAG_BLOB};

verus! {

/// Number of entries that the stack has room for when it is made.
pub const INIT_STACK_SIZE: u32 = 64;

/// The largest size of the buffer in bytes that can still be doubled.
pub const MAX_STACK_BYTES: u32 = 0x4000_0000;

pub struct MarkStack {
    /// The blob that holds the buffer
    pub stack_blob_ptr: Value,
    /// Bottom of the stack
    pub stack_base: usize,
    /// Where the buffer ends
    pub stack_top: usize,
    /// Where the next entry goes
    pub stack_ptr: usize,
    /// The entries, from the bottom of the stack up
    pub items: Ghost<Seq<usize>>,
}

impl MarkStack {
    /// The entries, from the bottom of the stack up.
    pub open spec fn view(&self) -> Seq<usize> {
        self.items@
    }

    /// Number of entries that the buffer has room for.
    pub open spec fn capacity(&self) -> int {
        (self.stack_top - self.stack_base) / 4
    }

    /// The buffer is the payload of a blob that was handed out by the
    /// memory, and holds the entries from its start on.
    pub open spec fn wf<M: Memory>(&self, mem: &M) -> bool {
        let blob = self.stack_blob_ptr.spec_get_ptr();
        let w = mem.words();
        &&& mem.wf()
        &&& self.stack_blob_ptr.spec_is_ptr()
        &&& blob % 4 == 0
        &&& 0 <= blob
        &&& self.stack_base == blob + 8
        &&& self.stack_base < self.stack_top <= 0xffff_ffff
        &&& self.stack_base <= self.stack_ptr <= self.stack_top
        &&& (self.stack_top - self.stack_base) % 4 == 0
        &&& self.stack_ptr == self.stack_base + 4 * self.items@.len()
        &&& forall|a: int| blob <= a < self.stack_top ==> #[trigger] mem.allocated().contains(a)
        &&& w[blob] == TAG_BLOB
        &&& w[blob + 4] == self.stack_top - self.stack_base
        &&& forall|j: int|
            0 <= j < self.items@.len() ==> #[trigger] w[self.stack_base + 4 * j] == self.items@[j]
    }

    /// The words of the buffer are mapped.
    pub proof fn lemma_buffer_mapped<M: Memory>(&self, mem: &M, a: int)
        requires
            self.wf(mem),
            self.stack_blob_ptr.spec_get_ptr() <= a < self.stack_top,
            a % 4 == 0,
        ensures
            mem.words().dom().contains(a),
    {
        assert(mem.allocated().contains(a));
        mem.lemma_allocated_mapped(a);
    }

    /// A stack that is well formed stays so when the memory changes without
    /// touching what it had handed out.
    pub proof fn lemma_frame<M: Memory>(&self, before: &M, after: &M)
        requires
            self.wf(before),
            after.wf(),
            before.allocated().subset_of(after.allocated()),
            preserved_on(before.words(), after.words(), before.allocated()),
        ensures
            self.wf(after),
    {
        let blob = self.stack_blob_ptr.spec_get_ptr();
        self.lemma_buffer_mapped(before, blob);
        self.lemma_buffer_mapped(before, blob + 4);
        assert(after.words().dom().contains(blob));
        assert(after.words().dom().contains(blob + 4));
        assert forall|j: int| 0 <= j < self.items@.len() implies #[trigger] after.words()[self.stack_base
            + 4 * j] == self.items@[j] by {
            self.lemma_buffer_mapped(before, self.stack_base + 4 * j);
            assert(after.words().dom().contains(self.stack_base + 4 * j));
        }
    }

    /// Allocates the buffer: an empty stack with room for `INIT_STACK_SIZE`
    /// entries.
    pub fn alloc_mark_stack<M: Memory>(mem: &mut M) -> (stack: MarkStack)
        requires
            old(mem).wf(),
            old(mem).can_alloc_words(blob_words(Bytes((INIT_STACK_SIZE * 4) as u32))),
        ensures
            stack.wf(final(mem)),
            stack@ == Seq::<usize>::empty(),
            stack.capacity() == INIT_STACK_SIZE,
            stack.stack_ptr == stack.stack_base,
            stack.stack_top == stack.stack_base + INIT_STACK_SIZE * 4,
            old(mem).fits_words(blob_words(Bytes((INIT_STACK_SIZE * 4) as u32)))
                ==> stack.stack_base == old(mem).heap_pointer() + 8,
            final(mem).heap_pointer() == stack.stack_top,
            old(mem).allocated().subset_of(final(mem).allocated()),
            preserved_on(old(mem).words(), final(mem).words(), old(mem).allocated()),
            crate::memory::room_kept(
                old(mem),
                final(mem),
                blob_words(Bytes((INIT_STACK_SIZE * 4) as u32)),
            ),
    {
        let stack_blob_ptr = alloc_blob(mem, Bytes(INIT_STACK_SIZE * 4));
        let blob: usize = stack_blob_ptr.get_ptr();
        proof {
            assert(mem.words().dom().contains(blob + 8 + INIT_STACK_SIZE * 4 - 4));
            mem.lemma_mapped(blob + 8 + INIT_STACK_SIZE * 4 - 4);
        }
        let stack_base: usize = blob + 8;
        let items: Ghost<Seq<usize>> = Ghost(Seq::empty());
        MarkStack {
            stack_blob_ptr,
            stack_base,
            stack_top: stack_base + (INIT_STACK_SIZE * 4) as usize,
            stack_ptr: stack_base,
            items,
        }
    }

    /// Releases the stack.  The buffer stays a blob of the heap, which the
    /// next collection reclaims.
    pub fn free_mark_stack(self) {
    }

    /// Whether the buffer can grow: it can still be doubled, nothing was
    /// allocated behind it, and the memory has room for as many words again
    /// right there.
    pub open spec fn can_grow<M: Memory>(&self, mem: &M) -> bool {
        let cap = Words(self.capacity() as u32);
        &&& self.stack_top - self.stack_base <= MAX_STACK_BYTES
        &&& mem.heap_pointer() == self.stack_top
        &&& mem.fits_words(cap)
        &&& mem.can_alloc_words(cap)
    }

    /// Doubles the size of the buffer in place.  The entries stay where they
    /// are.
    pub fn grow_stack<M: Memory>(&mut self, mem: &mut M) -> (r: Result<(), Trap>)
        requires
            old(self).wf(old(mem)),
        ensures
            final(self).wf(final(mem)),
            r is Ok <==> old(self).can_grow(old(mem)),
            r is Err ==> *final(self) == *old(self) && *final(mem) == *old(mem)
                && r == Err::<(), Trap>(Trap::OutOfMemory),
            r is Ok ==> {
                &&& final(self)@ == old(self)@
                &&& final(self).stack_blob_ptr == old(self).stack_blob_ptr
                &&& final(self).stack_base == old(self).stack_base
                &&& final(self).stack_ptr == old(self).stack_ptr
                &&& final(self).capacity() == 2 * old(self).capacity()
                &&& final(self).stack_top == old(self).stack_base + 2 * (old(self).stack_top - old(self).stack_base)
                &&& final(mem).heap_pointer() == final(self).stack_top
                &&& crate::memory::room_kept(
                    old(mem),
                    final(mem),
                    Words(old(self).capacity() as u32),
                )
                &&& !old(mem).allocated().contains(old(self).stack_top as int)
                &&& old(mem).allocated().subset_of(final(mem).allocated())
                &&& preserved_on(
                    old(mem).words(),
                    final(mem).words(),
                    old(mem).allocated().remove(old(self).stack_blob_ptr.spec_get_ptr() + 4),
                )
            },
    {
        let blob: usize = self.stack_blob_ptr.get_ptr();
        proof {
            self.lemma_buffer_mapped(mem, blob as int);
            self.lemma_buffer_mapped(mem, blob + 4);
        }
        let stack_cap: Words<u32> = Bytes(mem.read_word(blob + 4)).to_words();
        if stack_cap.0 > MAX_STACK_BYTES / 4 || mem.allocation_pointer() != self.stack_top
            || !mem.fits(stack_cap) || !mem.can_alloc(stack_cap) {
            return Err(Trap::OutOfMemory);
        }
        let p: usize = mem.alloc_words(stack_cap).get_ptr();
        // Nothing was allocated after the stack
        assert(self.stack_top == p);
        let ghost taken = *mem;
        proof {
            self.lemma_frame(old(mem), mem);
            self.lemma_buffer_mapped(mem, blob + 4);
            assert(mem.words().dom().contains(p + stack_cap.0 * 4 - 4));
            mem.lemma_mapped(p + stack_cap.0 * 4 - 4);
            assert(!old(mem).allocated().contains(p as int));
        }
        let new_cap: Bytes<u32> = Bytes(stack_cap.0 * 4 * 2);
        mem.store(blob + 4, new_cap.0);
        self.stack_top = self.stack_base + new_cap.0 as usize;
        proof {
            assert forall|a: int| blob <= a < self.stack_top implies #[trigger] mem.allocated().contains(
                a,
            ) by {
                if a < old(self).stack_top {
                    assert(old(mem).allocated().contains(a));
                } else {
                    assert(taken.allocated().contains(a));
                }
            }
        }
        Ok(())
    }

    /// Pushes the object at `obj`, after growing the buffer where it is
    /// full.
    pub fn push_mark_stack<M: Memory>(&mut self, mem: &mut M, obj: usize) -> (r: Result<(), Trap>)
        requires
            old(self).wf(old(mem)),
            obj <= 0xffff_ffff,
        ensures
            final(self).wf(final(mem)),
            r is Ok <==> old(self).stack_ptr < old(self).stack_top || old(self).can_grow(old(mem)),
            r is Ok ==> final(self)@ == old(self)@.push(obj),
            r is Err ==> *final(self) == *old(self) && *final(mem) == *old(mem)
                && r == Err::<(), Trap>(Trap::OutOfMemory),
            old(mem).allocated().subset_of(final(mem).allocated()),
            preserved_on(
                old(mem).words(),
                final(mem).words(),
                old(mem).allocated().difference(
                    crate::page_alloc::word_range(
                        old(self).stack_blob_ptr.spec_get_ptr(),
                        old(self).stack_top as int,
                    ),
                ),
            ),
    {
        if self.stack_ptr == self.stack_top {
            match self.grow_stack(mem) {
                Ok(()) => {},
                Err(trap) => {
                    return Err(trap);
                },
            }
        }
        let ghost ready = *mem;
        proof {
            self.lemma_buffer_mapped(mem, self.stack_ptr as int);
        }
        mem.store(self.stack_ptr, obj as u32);
        self.stack_ptr = self.stack_ptr + 4;
        let items: Ghost<Seq<usize>> = Ghost(self.items@.push(obj));
        self.items = items;
        proof {
            let blob = self.stack_blob_ptr.spec_get_ptr();
            assert forall|j: int| 0 <= j < self.items@.len() implies #[trigger] mem.words()[self.stack_base
                + 4 * j] == self.items@[j] by {
                if j < self.items@.len() - 1 {
                    assert(ready.words()[self.stack_base + 4 * j] == old(self).items@[j]);
                }
            }
            let region = old(mem).allocated().difference(
                crate::page_alloc::word_range(blob, old(self).stack_top as int),
            );
            assert forall|a: int|
                region.contains(a) && old(mem).words().dom().contains(
                    a,
                ) implies mem.words().dom().contains(a) && mem.words()[a] == old(mem).words()[a] by {
                old(mem).lemma_mapped(a);
                assert(old(mem).allocated().contains(a));
                assert(crate::page_alloc::word_range(blob, old(self).stack_top as int).contains(a)
                    == (blob <= a < old(self).stack_top && a % 4 == 0));
                if old(self).stack_ptr == old(self).stack_top {
                    assert(old(mem).allocated().remove(blob + 4).contains(a));
                    assert(ready.words().dom().contains(a));
                    assert(a != old(self).stack_top);
                }
            }
        }
        Ok(())
    }

    /// Takes the top entry off the stack; `None` when the stack is empty.
    pub fn pop_mark_stack<M: Memory>(&mut self, mem: &M) -> (r: Option<usize>)
        requires
            old(self).wf(mem),
        ensures
            final(self).wf(mem),
            r == (if old(self)@.len() == 0 {
                None::<usize>
            } else {
                Some(old(self)@.last())
            }),
            final(self)@ == (if old(self)@.len() == 0 {
                old(self)@
            } else {
                old(self)@.drop_last()
            }),
            final(self).stack_base == old(self).stack_base,
            final(self).stack_top == old(self).stack_top,
    {
        if self.stack_ptr == self.stack_base {
            return None;
        }
        proof {
            self.lemma_buffer_mapped(mem, self.stack_ptr - 4);
            assert(mem.words()[self.stack_base + 4 * (self.items@.len() - 1)] == self.items@.last());
        }
        self.stack_ptr = self.stack_ptr - 4;
        let obj: usize = mem.read_word(self.stack_ptr) as usize;
        let items: Ghost<Seq<usize>> = Ghost(self.items@.drop_last());
        self.items = items;
        Some(obj)
    }
}

/// What is popped is what was pushed last, and the stack is then what it was
/// before the push: entries pushed in a row come off in reverse order.
pub proof fn lemma_push_pop(stack: Seq<usize>, obj: usize)
    ensures
        stack.push(obj).last() == obj,
        stack.push(obj).drop_last() == stack,
{
    assert(stack.push(obj).drop_last() =~= stack);
}

} // verus!
