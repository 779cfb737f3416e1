//! Allocation in a linear memory that grows by pages at its end.
use vstd::prelude::*;
use crate::constants::WASM_PAGE_SIZE;
use crate::memory::Memory;
use crate::page_alloc::WordMemory;
use crate::types::{Bytes, Value, Words};

verus! {

/// The largest number of pages that the memory grows to.  The last page of
/// the address space is never mapped.
pub const MAX_MEMORY_PAGES: usize = 65535;

/// Number of words in a page of the memory.
pub const WORDS_PER_PAGE: usize = 16384;

/// A linear memory with a heap that is allocated by moving a pointer up.
/// Below `heap_base` lies static data; the heap is the range from there to
/// the heap pointer.
pub struct LinearMemory {
    /// The words of the memory, from address zero on
    words: Vec<u32>,
    /// Where the heap begins
    heap_base: u32,
    /// Heap pointer
    hp: u32,
    /// Number of bytes allocated so far
    allocated: Bytes<u64>,
}

impl LinearMemory {
    /// Number of pages of the memory.
    pub closed spec fn pages(&self) -> int {
        self.words@.len() as int / 16384
    }

    /// Where the heap begins.
    pub closed spec fn spec_heap_base(&self) -> int {
        self.heap_base as int
    }

    /// The heap pointer.
    pub closed spec fn spec_hp(&self) -> int {
        self.hp as int
    }

    /// Number of bytes allocated so far.
    pub closed spec fn spec_allocated(&self) -> int {
        self.allocated.0 as int
    }

    pub closed spec fn inv(&self) -> bool {
        &&& self.words@.len() % 16384 == 0
        &&& self.words@.len() <= MAX_MEMORY_PAGES * WORDS_PER_PAGE
        &&& self.heap_base <= self.hp
        &&& self.heap_base % 4 == 0
        &&& self.hp % 4 == 0
        &&& self.hp < self.words@.len() * 4
    }

    /// A memory that reaches up to `heap_base`, all zero, with an empty
    /// heap.
    pub fn new(heap_base: u32) -> (mem: LinearMemory)
        requires
            heap_base % 4 == 0,
            heap_base as int / 65536 + 1 <= MAX_MEMORY_PAGES,
        ensures
            mem.wf(),
            mem.spec_heap_base() == heap_base,
            mem.spec_hp() == heap_base,
            mem.spec_allocated() == 0,
            mem.pages() == heap_base as int / 65536 + 1,
            forall|a: int| #[trigger] mem.words().dom().contains(a) ==> mem.words()[a] == 0,
    {
        let mut mem = LinearMemory { words: Vec::new(), heap_base: 0, hp: 0, allocated: Bytes(0) };
        mem.grow(heap_base as usize);
        mem.heap_base = heap_base;
        mem.hp = heap_base;
        mem
    }

    /// Makes sure that the page that holds `ptr` is there.
    fn grow(&mut self, ptr: usize)
        requires
            old(self).words@.len() % 16384 == 0,
            old(self).words@.len() <= MAX_MEMORY_PAGES * WORDS_PER_PAGE,
            ptr as int / 65536 + 1 <= MAX_MEMORY_PAGES,
        ensures
            final(self).words@.len() % 16384 == 0,
            final(self).words@.len() <= MAX_MEMORY_PAGES * WORDS_PER_PAGE,
            final(self).heap_base == old(self).heap_base,
            final(self).hp == old(self).hp,
            final(self).allocated == old(self).allocated,
            final(self).pages() == (if old(self).pages() >= ptr as int / 65536 + 1 {
                old(self).pages()
            } else {
                ptr as int / 65536 + 1
            }),
            final(self).words@.len() >= old(self).words@.len(),
            forall|k: int|
                0 <= k < old(self).words@.len() ==> final(self).words@[k] == old(self).words@[k],
            forall|k: int|
                old(self).words@.len() <= k < final(self).words@.len() ==> final(self).words@[k]
                    == 0,
    {
        let total_pages_needed: usize = ptr / 65536 + 1;
        let current_pages: usize = self.words.len() / WORDS_PER_PAGE;
        if total_pages_needed > current_pages {
            let target: usize = total_pages_needed * WORDS_PER_PAGE;
            while self.words.len() < target
                invariant
                    old(self).words@.len() <= self.words@.len() <= target,
                    target == total_pages_needed * WORDS_PER_PAGE,
                    self.heap_base == old(self).heap_base,
                    self.hp == old(self).hp,
                    self.allocated == old(self).allocated,
                    forall|k: int|
                        0 <= k < old(self).words@.len() ==> self.words@[k] == old(self).words@[k],
                    forall|k: int|
                        old(self).words@.len() <= k < self.words@.len() ==> self.words@[k] == 0,
                decreases target - self.words@.len(),
            {
                self.words.push(0);
            }
        }
    }

    /// Page allocation.  Ensures that the memory up to the given pointer is
    /// there.  The words that are new hold zero.
    pub fn grow_memory(&mut self, ptr: usize)
        requires
            old(self).wf(),
            ptr as int / 65536 + 1 <= MAX_MEMORY_PAGES,
        ensures
            final(self).wf(),
            final(self).spec_heap_base() == old(self).spec_heap_base(),
            final(self).spec_hp() == old(self).spec_hp(),
            final(self).spec_allocated() == old(self).spec_allocated(),
            final(self).pages() == (if old(self).pages() >= ptr as int / 65536 + 1 {
                old(self).pages()
            } else {
                ptr as int / 65536 + 1
            }),
            final(self).words().dom().contains(ptr - ptr % 4),
            forall|a: int| #[trigger]
                old(self).words().dom().contains(a) ==> final(self).words().dom().contains(a)
                    && final(self).words()[a] == old(self).words()[a],
            forall|a: int|
                final(self).words().dom().contains(a) && !old(self).words().dom().contains(a)
                    ==> #[trigger] final(self).words()[a] == 0,
    {
        self.grow(ptr);
    }

    /// Allocates `n` words at the heap pointer, growing the memory where
    /// the heap pointer leaves it, and counts them as allocated.
    pub fn alloc_words(&mut self, n: Words<u32>) -> (v: Value)
        requires
            old(self).wf(),
            old(self).can_alloc_words(n),
        ensures
            final(self).wf(),
            v == Value::spec_from_ptr(old(self).spec_hp()),
            v.spec_is_ptr(),
            v.spec_get_ptr() == old(self).spec_hp(),
            final(self).spec_hp() == old(self).spec_hp() + n.0 * 4,
            final(self).spec_heap_base() == old(self).spec_heap_base(),
            final(self).spec_allocated() == old(self).spec_allocated() + n.0 * 4,
            final(self).pages() == (if old(self).pages() >= final(self).spec_hp() / 65536 + 1 {
                old(self).pages()
            } else {
                final(self).spec_hp() / 65536 + 1
            }),
            forall|a: int| #[trigger]
                old(self).words().dom().contains(a) ==> final(self).words().dom().contains(a)
                    && final(self).words()[a] == old(self).words()[a],
            forall|a: int|
                final(self).words().dom().contains(a) && !old(self).words().dom().contains(a)
                    ==> #[trigger] final(self).words()[a] == 0,
    {
        let bytes = n.to_bytes();
        // Update ALLOCATED
        self.allocated = Bytes(self.allocated.0 + bytes.0 as u64);

        // Update heap pointer
        let old_hp: u32 = self.hp;
        let new_hp: u32 = old_hp + bytes.0;
        self.hp = new_hp;

        // Grow memory if needed
        self.grow(new_hp as usize);

        Value::from_ptr(old_hp as usize)
    }

    /// Allocates `n` bytes, rounded up to whole words.
    pub fn alloc_bytes(&mut self, n: Bytes<u32>) -> (v: Value)
        requires
            old(self).wf(),
            old(self).can_alloc_words(
                Words(crate::types::bytes_to_words(n.0 as int) as u32),
            ),
        ensures
            final(self).wf(),
            v == Value::spec_from_ptr(old(self).spec_hp()),
            final(self).spec_hp() == old(self).spec_hp() + crate::types::bytes_to_words(
                n.0 as int,
            ) * 4,
            final(self).spec_allocated() == old(self).spec_allocated()
                + crate::types::bytes_to_words(n.0 as int) * 4,
            forall|a: int| #[trigger]
                old(self).words().dom().contains(a) ==> final(self).words().dom().contains(a)
                    && final(self).words()[a] == old(self).words()[a],
    {
        self.alloc_words(n.to_words())
    }

    /// Where the heap begins.
    pub fn heap_base(&self) -> (a: u32)
        ensures
            a == self.spec_heap_base(),
    {
        self.heap_base
    }

    /// The heap pointer.
    pub fn hp(&self) -> (a: u32)
        ensures
            a == self.spec_hp(),
    {
        self.hp
    }

    /// Number of bytes allocated so far.
    pub fn allocated_bytes(&self) -> (n: Bytes<u64>)
        ensures
            n.0 == self.spec_allocated(),
    {
        self.allocated
    }
}

impl WordMemory for LinearMemory {
    closed spec fn wf(&self) -> bool {
        self.inv()
    }

    closed spec fn words(&self) -> Map<int, u32> {
        Map::new(
            |a: int| a % 4 == 0 && 0 <= a < self.words@.len() * 4,
            |a: int| self.words@[a / 4],
        )
    }

    proof fn lemma_mapped(&self, addr: int) {
    }

    fn contains(&self, addr: usize) -> (b: bool) {
        addr % 4 == 0 && addr / 4 < self.words.len()
    }

    fn read_word(&self, addr: usize) -> (w: u32) {
        self.words[addr / 4]
    }
}

impl Memory for LinearMemory {
    closed spec fn allocated(&self) -> Set<int> {
        Set::new(|a: int| self.heap_base <= a < self.hp)
    }

    closed spec fn heap_pointer(&self) -> int {
        self.hp as int
    }

    closed spec fn fits_words(&self, n: Words<u32>) -> bool {
        true
    }

    closed spec fn can_alloc_words(&self, n: Words<u32>) -> bool {
        &&& (self.hp + n.0 * 4) / 65536 + 1 <= MAX_MEMORY_PAGES
        &&& self.allocated.0 + n.0 * 4 <= u64::MAX
    }

    proof fn lemma_allocated_mapped(&self, a: int) {
    }

    fn allocation_pointer(&self) -> (hp: usize) {
        self.hp as usize
    }

    fn fits(&self, n: Words<u32>) -> (b: bool) {
        true
    }

    fn can_alloc(&self, n: Words<u32>) -> (b: bool) {
        let new_hp: u64 = self.hp as u64 + n.0 as u64 * 4;
        new_hp / 65536 + 1 <= MAX_MEMORY_PAGES as u64 && n.0 as u64 * 4 <= u64::MAX
            - self.allocated.0
    }

    fn alloc_words(&mut self, n: Words<u32>) -> (v: Value) {
        LinearMemory::alloc_words(self, n)
    }

    fn store(&mut self, addr: usize, w: u32) {
        self.words.set(addr / 4, w);
        proof {
            assert(self.words() =~= old(self).words().insert(addr as int, w));
        }
    }
}

} // verus!
