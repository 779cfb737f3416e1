use vstd::prelude::*;
use crate::constants::MAX_ARRAY_LEN;
use crate::page_alloc::{fresh_range, mapped_range, preserved_on, PageAlloc, WordMemory};
use crate::space::{lemma_alloc_fresh, Space};
use crate::types::{bytes_to_words, Bytes, Value, Words, TAG_ARRAY, TAG_BLOB};

verus! {

/// Heap allocation: a memory that hands out words at an allocation pointer,
/// which moves up with every allocation.  The functions of the runtime that
/// allocate do so through this trait.
pub trait Memory: WordMemory {
    /// The byte addresses that were handed out so far.
    spec fn allocated(&self) -> Set<int>;

    /// The address at which the next allocation lands unless it has to go
    /// elsewhere for want of room.
    spec fn heap_pointer(&self) -> int;

    /// Whether a request for `n` words finds room at the allocation pointer.
    spec fn fits_words(&self, n: Words<u32>) -> bool;

    /// Whether a request for `n` words can be met.
    spec fn can_alloc_words(&self, n: Words<u32>) -> bool;

    /// What was handed out is mapped.
    proof fn lemma_allocated_mapped(&self, a: int)
        requires
            self.wf(),
            self.allocated().contains(a),
            a % 4 == 0,
        ensures
            self.words().dom().contains(a),
    ;

    /// The allocation pointer.
    fn allocation_pointer(&self) -> (hp: usize)
        requires
            self.wf(),
        ensures
            hp == self.heap_pointer(),
    ;

    /// Whether a request for `n` words finds room at the allocation pointer.
    fn fits(&self, n: Words<u32>) -> (b: bool)
        requires
            self.wf(),
        ensures
            b == self.fits_words(n),
    ;

    /// Whether `alloc_words(n)` can be called.
    fn can_alloc(&self, n: Words<u32>) -> (b: bool)
        requires
            self.wf(),
        ensures
            b == self.can_alloc_words(n),
    ;

    /// Reserves `n` words and returns the pointer to the first of them.  The
    /// words are fresh: they were not handed out before.  What was handed
    /// out before stays as it is.  Room is used up by no more than the
    /// request: where `n + m` words found room and could be allocated
    /// before, `m` words find room and can be allocated afterwards.
    fn alloc_words(&mut self, n: Words<u32>) -> (v: Value)
        requires
            old(self).wf(),
            old(self).can_alloc_words(n),
        ensures
            final(self).wf(),
            v.spec_is_ptr(),
            v == Value::spec_from_ptr(v.spec_get_ptr()),
            v.spec_get_ptr() % 4 == 0,
            old(self).fits_words(n) ==> v.spec_get_ptr() == old(self).heap_pointer(),
            final(self).heap_pointer() == v.spec_get_ptr() + n.0 * 4,
            mapped_range(final(self).words(), v.spec_get_ptr(), v.spec_get_ptr() + n.0 * 4),
            fresh_range(
            old(self).allocated(),
            final(self).allocated(),
            v.spec_get_ptr(),
            v.spec_get_ptr() + n.0 * 4,
        ),
            old(self).allocated().subset_of(final(self).allocated()),
            preserved_on(old(self).words(), final(self).words(), old(self).allocated()),
            forall|m: Words<u32>|
                #![trigger final(self).fits_words(m)]
                #![trigger final(self).can_alloc_words(m)]
                n.0 + m.0 <= u32::MAX && old(self).fits_words(Words((n.0 + m.0) as u32)) && old(
                    self,
                ).can_alloc_words(Words((n.0 + m.0) as u32)) ==> final(self).fits_words(m)
                    && final(self).can_alloc_words(m),
    ;

    /// Stores `w` at the mapped address `addr`.  Nothing else changes.
    fn store(&mut self, addr: usize, w: u32)
        requires
            old(self).wf(),
            old(self).words().dom().contains(addr as int),
        ensures
            final(self).wf(),
            final(self).words() == old(self).words().insert(addr as int, w),
            final(self).allocated() == old(self).allocated(),
            final(self).heap_pointer() == old(self).heap_pointer(),
            forall|n: Words<u32>|
                #![trigger final(self).fits_words(n)]
                #![trigger old(self).fits_words(n)]
                final(self).fits_words(n) == old(self).fits_words(n),
            forall|n: Words<u32>|
                #![trigger final(self).can_alloc_words(n)]
                #![trigger old(self).can_alloc_words(n)]
                final(self).can_alloc_words(n) == old(self).can_alloc_words(n),
    ;
}

impl<P: PageAlloc> WordMemory for Space<P> {
    open spec fn wf(&self) -> bool {
        Space::wf(self)
    }

    open spec fn words(&self) -> Map<int, u32> {
        self.page_alloc.words()
    }

    proof fn lemma_mapped(&self, addr: int) {
        self.page_alloc.lemma_mapped(addr);
    }

    fn contains(&self, addr: usize) -> (b: bool) {
        self.page_alloc.contains(addr)
    }

    fn read_word(&self, addr: usize) -> (w: u32) {
        self.page_alloc.read_word(addr)
    }
}

impl<P: PageAlloc> Memory for Space<P> {
    open spec fn allocated(&self) -> Set<int> {
        self.used()
    }

    open spec fn heap_pointer(&self) -> int {
        self.hp as int
    }

    open spec fn fits_words(&self, n: Words<u32>) -> bool {
        Space::fits(self, n)
    }

    open spec fn can_alloc_words(&self, n: Words<u32>) -> bool {
        Space::can_alloc_words(self, n)
    }

    proof fn lemma_allocated_mapped(&self, a: int) {
        let i = choose|i: int| self.used_in(i, a);
        self.page_alloc.lemma_page_size();
        self.page_alloc.lemma_live_handle(self.pages@[i]);
        self.page_alloc.lemma_live_handle(self.pages@[self.current_page as int]);
        self.page_alloc.lemma_live_page(self.start(self.current_page as int));
        self.page_alloc.lemma_page_mapped(self.start(i), a);
    }

    fn allocation_pointer(&self) -> (hp: usize) {
        self.hp
    }

    fn fits(&self, n: Words<u32>) -> (b: bool) {
        proof {
            self.page_alloc.lemma_page_size();
            self.page_alloc.lemma_live_handle(self.pages@[self.current_page as int]);
            self.page_alloc.lemma_live_page(self.start(self.current_page as int));
        }
        let end: usize = self.page_alloc.page_end(&self.pages[self.current_page]);
        n.0 as usize <= (end - self.hp) / 4
    }

    fn can_alloc(&self, n: Words<u32>) -> (b: bool) {
        Space::can_alloc(self, n)
    }

    fn alloc_words(&mut self, n: Words<u32>) -> (v: Value) {
        let v = Space::alloc_words(self, n);
        proof {
            lemma_alloc_fresh(old(self), self, n, v);
            let addr = v.spec_get_ptr();
            assert forall|a: int| addr <= a < addr + n.0 * 4 && a % 4 == 0 implies 
                #[trigger] self.page_alloc.words().dom().contains(a) by {
                self.lemma_current_mapped_init(addr, n.0 as int, a);
            }
            assert forall|a: int|
                old(self).allocated().contains(a) && old(self).words().dom().contains(
                    a,
                ) implies #[trigger] self.words().dom().contains(a) && self.words()[a] == old(self).words()[a] by {
                old(self).lemma_used_not_slop(a);
                if !Space::fits(old(self), n) {
                    let hp = old(self).hp as int;
                    let slop = old(self).end(old(self).current_page as int) - hp;
                    let cur = old(self).current_page as int;
                    old(self).page_alloc.lemma_page_size();
                    old(self).page_alloc.lemma_live_handle(old(self).pages@[cur]);
                    old(self).page_alloc.lemma_live_page(old(self).start(cur));
                    let filled = crate::space::with_filler(old(self).page_alloc.words(), hp, slop);
                    assert(filled.dom().contains(a) && filled[a] == old(self).words()[a]);
                }
            }
        }
        v
    }

    fn store(&mut self, addr: usize, w: u32) {
        self.page_alloc.write_word(addr, w);
        proof {
            assert forall|a: int| self.used().contains(a) == old(self).used().contains(a) by {
                if self.used().contains(a) {
                    let i = choose|i: int| self.used_in(i, a);
                    assert(old(self).used_in(i, a));
                }
                if old(self).used().contains(a) {
                    let i = choose|i: int| old(self).used_in(i, a);
                    assert(self.used_in(i, a));
                }
            }
            assert(self.used() =~= old(self).used());
        }
    }
}

/// Number of words of the header of an array: the tag and the length.
pub const ARRAY_HEADER_WORDS: u32 = 2;

/// Number of words of the header of a blob: the tag and the length in bytes.
pub const BLOB_HEADER_WORDS: u32 = 2;

/// An allocation of `n` words between `before` and `after` has used up no
/// more room than it asked for: where `n + m` words found room and could be
/// allocated before, `m` words find room and can be allocated now.
pub open spec fn room_kept<M: Memory>(before: &M, after: &M, n: Words<u32>) -> bool {
    forall|m: Words<u32>|
        #![trigger after.fits_words(m)]
        #![trigger after.can_alloc_words(m)]
        n.0 + m.0 <= u32::MAX && before.fits_words(Words((n.0 + m.0) as u32))
            && before.can_alloc_words(Words((n.0 + m.0) as u32)) ==> after.fits_words(m)
            && after.can_alloc_words(m)
}

/// Number of words of a blob of `size` bytes.
pub open spec fn blob_words(size: Bytes<u32>) -> Words<u32> {
    Words((bytes_to_words(size.0 as int) + BLOB_HEADER_WORDS) as u32)
}

/// Allocate a new blob for the mutator: writes the tag and the length.
pub fn alloc_blob<M: Memory>(mem: &mut M, size: Bytes<u32>) -> (v: Value)
    requires
        old(mem).wf(),
        old(mem).can_alloc_words(blob_words(size)),
    ensures
        final(mem).wf(),
        v.spec_is_ptr(),
        v == Value::spec_from_ptr(v.spec_get_ptr()),
        v.spec_get_ptr() % 4 == 0,
        old(mem).fits_words(blob_words(size)) ==> v.spec_get_ptr() == old(mem).heap_pointer(),
        final(mem).heap_pointer() == v.spec_get_ptr() + blob_words(size).0 * 4,
        mapped_range(
            final(mem).words(),
            v.spec_get_ptr(),
            v.spec_get_ptr() + blob_words(size).0 * 4,
        ),
        final(mem).words()[v.spec_get_ptr()] == TAG_BLOB,
        final(mem).words()[v.spec_get_ptr() + 4] == size.0,
        fresh_range(
            old(mem).allocated(),
            final(mem).allocated(),
            v.spec_get_ptr(),
            v.spec_get_ptr() + blob_words(size).0 * 4,
        ),
        old(mem).allocated().subset_of(final(mem).allocated()),
        preserved_on(old(mem).words(), final(mem).words(), old(mem).allocated()),
        room_kept(old(mem), final(mem), blob_words(size)),
{
    let ptr = mem.alloc_words(Words(size.to_words().0 + BLOB_HEADER_WORDS));
    let ghost taken = *mem;
    // NB. Cannot read the object here as the header is not written yet
    let blob: usize = ptr.get_ptr();
    proof {
        assert(mem.words().dom().contains(blob as int));
        assert(mem.words().dom().contains(blob + 4));
        mem.lemma_mapped(blob + 4);
    }
    mem.store(blob, TAG_BLOB);
    mem.store(blob + 4, size.0);
    proof {
        assert forall|a: int|
            old(mem).allocated().contains(a) && old(mem).words().dom().contains(
                a,
            ) implies #[trigger] mem.words().dom().contains(a) && mem.words()[a] == old(mem).words()[a] by {
            assert(taken.words().dom().contains(a));
            assert(taken.allocated().contains(blob as int));
            assert(taken.allocated().contains(blob + 4));
        }
        assert forall|a: int| blob <= a < blob + blob_words(size).0 * 4 && a % 4 == 0 implies 
            #[trigger] mem.words().dom().contains(a) by {
            assert(taken.words().dom().contains(a));
        }
    }
    ptr
}

/// Allocation of blobs for the collector itself, which the next collection
/// may reclaim.
pub fn alloc_collectable_blob<M: Memory>(mem: &mut M, size: Bytes<u32>) -> (v: Value)
    requires
        old(mem).wf(),
        old(mem).can_alloc_words(blob_words(size)),
    ensures
        final(mem).wf(),
        v.spec_is_ptr(),
        v.spec_get_ptr() % 4 == 0,
        mapped_range(
            final(mem).words(),
            v.spec_get_ptr(),
            v.spec_get_ptr() + blob_words(size).0 * 4,
        ),
        final(mem).words()[v.spec_get_ptr()] == TAG_BLOB,
        final(mem).words()[v.spec_get_ptr() + 4] == size.0,
        fresh_range(
            old(mem).allocated(),
            final(mem).allocated(),
            v.spec_get_ptr(),
            v.spec_get_ptr() + blob_words(size).0 * 4,
        ),
        preserved_on(old(mem).words(), final(mem).words(), old(mem).allocated()),
{
    alloc_blob(mem, size)
}

/// Allocate an array for the mutator: writes the tag and the length.
pub fn alloc_array<M: Memory>(mem: &mut M, len: u32) -> (v: Value)
    requires
        old(mem).wf(),
        len <= MAX_ARRAY_LEN,
        old(mem).can_alloc_words(Words((len + ARRAY_HEADER_WORDS) as u32)),
    ensures
        final(mem).wf(),
        v.spec_is_ptr(),
        v == Value::spec_from_ptr(v.spec_get_ptr()),
        v.spec_get_ptr() % 4 == 0,
        mapped_range(
            final(mem).words(),
            v.spec_get_ptr(),
            v.spec_get_ptr() + (len + ARRAY_HEADER_WORDS) * 4,
        ),
        final(mem).words()[v.spec_get_ptr()] == TAG_ARRAY,
        final(mem).words()[v.spec_get_ptr() + 4] == len,
        fresh_range(
            old(mem).allocated(),
            final(mem).allocated(),
            v.spec_get_ptr(),
            v.spec_get_ptr() + (len + ARRAY_HEADER_WORDS) * 4,
        ),
        old(mem).allocated().subset_of(final(mem).allocated()),
        preserved_on(old(mem).words(), final(mem).words(), old(mem).allocated()),
{
    let skewed_ptr = mem.alloc_words(Words(len + ARRAY_HEADER_WORDS));
    let ghost taken = *mem;
    let ptr: usize = skewed_ptr.get_ptr();
    proof {
        assert(mem.words().dom().contains(ptr as int));
        assert(mem.words().dom().contains(ptr + 4));
        mem.lemma_mapped(ptr + 4);
    }
    mem.store(ptr, TAG_ARRAY);
    mem.store(ptr + 4, len);
    proof {
        assert forall|a: int|
            old(mem).allocated().contains(a) && old(mem).words().dom().contains(
                a,
            ) implies #[trigger] mem.words().dom().contains(a) && mem.words()[a] == old(mem).words()[a] by {
            assert(taken.words().dom().contains(a));
            assert(taken.allocated().contains(ptr as int));
            assert(taken.allocated().contains(ptr + 4));
        }
        assert forall|a: int|
            ptr <= a < ptr + (len + ARRAY_HEADER_WORDS) * 4 && a % 4 == 0 implies #[trigger] mem.words().dom().contains(
            a,
        ) by {
            assert(taken.words().dom().contains(a));
        }
    }
    skewed_ptr
}

} // verus!
