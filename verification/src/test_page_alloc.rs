use vstd::prelude::*;
use crate::bitmap::Bitmap;
use crate::constants::MAX_ADDRESS;
use crate::page_alloc::{same_pages, PageAlloc, WordMemory, PAGE_HEADER_SIZE};

verus! {

/// The handle of a page of a `TestPageAlloc`: the number of the page, which
/// is never used again, and the address at which the page starts.
#[derive(Clone, Copy, Debug)]
pub struct TestPageRef {
    page_idx: usize,
    start: usize,
}

/// A page: a buffer of its own, and the bitmap slot of its header.
struct TestPage {
    start: usize,
    contents: Vec<u32>,
    bitmap: Option<Bitmap>,
}

/// A page allocator that backs every page with a buffer of its own.  Pages
/// are numbered in the order in which they are handed out, and neither a
/// number nor an address is used twice, so a freed page is never mistaken for
/// a live one.
pub struct TestPageAlloc {
    inner: TestPageAllocInner,
}

pub struct TestPageAllocInner {
    /// Size of a page, including headers.
    page_size_bytes: usize,
    /// The pages by their number; a freed page leaves its slot empty.
    pages: Vec<Option<TestPage>>,
    /// Start addresses of the live pages with their handles, sorted by
    /// address.
    page_addrs: Vec<(usize, TestPageRef)>,
    /// Total pages allocated so far.
    n_total_pages: usize,
    /// The address at which the next page will start.
    next_start: usize,
    /// The words of the static partition, which begins at
    /// `STATIC_HEAP_BASE` and lies below every page.
    static_heap: Vec<u32>,
}

/// The address at which the static partition of a `TestPageAlloc` begins.
pub const STATIC_HEAP_BASE: usize = 8;

impl TestPageRef {
    pub closed spec fn spec_start(self) -> int {
        self.start as int
    }

    /// The number of the page: how many pages the allocator had handed out
    /// before this one.
    pub closed spec fn spec_index(self) -> int {
        self.page_idx as int
    }

    /// The start address of a handle is the start of the page that it names
    /// to its allocator.
    pub proof fn lemma_start(self)
        ensures
            self.spec_start() == TestPageAlloc::start_of(self),
            self.spec_start() == TestPageAllocInner::start_of(self),
    {
    }

    /// Start address of the page.
    pub fn start(&self, page_alloc: &TestPageAlloc) -> (a: usize)
        requires
            page_alloc.wf(),
            page_alloc.is_live(*self),
        ensures
            a == self.spec_start(),
            a == TestPageAlloc::start_of(*self),
    {
        match &page_alloc.inner.pages[self.page_idx] {
            Some(page) => page.start,
            None => 0,
        }
    }

    /// Address of the first word after the page header.
    pub fn contents_start(&self, page_alloc: &TestPageAlloc) -> (a: usize)
        requires
            page_alloc.wf(),
            page_alloc.is_live(*self),
        ensures
            a == self.spec_start() + PAGE_HEADER_SIZE,
            a == TestPageAlloc::start_of(*self) + PAGE_HEADER_SIZE,
    {
        proof {
            assert(page_alloc.inner.slot_wf(self.page_idx as int));
        }
        match &page_alloc.inner.pages[self.page_idx] {
            Some(page) => page.start + PAGE_HEADER_SIZE,
            None => 0,
        }
    }

    /// Address one past the last byte of the page.
    pub fn end(&self, page_alloc: &TestPageAlloc) -> (a: usize)
        requires
            page_alloc.wf(),
            page_alloc.is_live(*self),
        ensures
            a == self.spec_start() + page_alloc.page_size(),
            a == TestPageAlloc::start_of(*self) + page_alloc.page_size(),
    {
        proof {
            assert(page_alloc.inner.slot_wf(self.page_idx as int));
        }
        match &page_alloc.inner.pages[self.page_idx] {
            Some(page) => page.start + page_alloc.inner.page_size_bytes,
            None => 0,
        }
    }

    /// The bitmap in the header of the page, if there is one.
    pub fn get_bitmap<'a>(&self, page_alloc: &'a TestPageAlloc) -> (bitmap: Option<&'a Bitmap>)
        requires
            page_alloc.wf(),
            page_alloc.is_live(*self),
        ensures
            match bitmap {
                Some(b) => page_alloc.bitmap(self.spec_start()) == Some(*b),
                None => page_alloc.bitmap(self.spec_start()) is None,
            },
    {
        proof {
            page_alloc.inner.lemma_slot_unique(self.page_idx as int, self.start as int);
        }
        match &page_alloc.inner.pages[self.page_idx] {
            Some(page) => page.bitmap.as_ref(),
            None => None,
        }
    }

    /// Puts `bitmap` into the header of the page.
    pub fn set_bitmap(&self, page_alloc: &mut TestPageAlloc, bitmap: Option<Bitmap>)
        requires
            old(page_alloc).wf(),
            old(page_alloc).is_live(*self),
        ensures
            final(page_alloc).wf(),
            final(page_alloc).words() == old(page_alloc).words(),
            same_pages(old(page_alloc), final(page_alloc)),
            final(page_alloc).bitmap(self.spec_start()) == bitmap,
            forall|s: int|
                s != self.spec_start() ==> #[trigger] final(page_alloc).bitmap(s) == old(
                    page_alloc,
                ).bitmap(s),
    {
        proof {
            page_alloc.lemma_live_handle(*self);
        }
        page_alloc.set_bitmap(self.start, bitmap)
    }

    /// Takes the bitmap out of the header of the page.
    pub fn take_bitmap(&self, page_alloc: &mut TestPageAlloc) -> (bitmap: Option<Bitmap>)
        requires
            old(page_alloc).wf(),
            old(page_alloc).is_live(*self),
        ensures
            final(page_alloc).wf(),
            final(page_alloc).words() == old(page_alloc).words(),
            same_pages(old(page_alloc), final(page_alloc)),
            bitmap == old(page_alloc).bitmap(self.spec_start()),
            final(page_alloc).bitmap(self.spec_start()) is None,
            forall|s: int|
                s != self.spec_start() ==> #[trigger] final(page_alloc).bitmap(s) == old(
                    page_alloc,
                ).bitmap(s),
    {
        proof {
            page_alloc.lemma_live_handle(*self);
        }
        page_alloc.take_bitmap(self.start)
    }
}

impl TestPage {
    closed spec fn spec_start(&self) -> int {
        self.start as int
    }

    /// Start address of the page.
    fn start(&self) -> (a: usize)
        ensures
            a == self.spec_start(),
    {
        self.start
    }

    /// Address of the first word after the page header.
    fn contents_start(&self) -> (a: usize)
        requires
            self.spec_start() + PAGE_HEADER_SIZE <= usize::MAX,
        ensures
            a == self.spec_start() + PAGE_HEADER_SIZE,
    {
        self.start + PAGE_HEADER_SIZE
    }

    /// Address one past the last byte of the page.
    fn end(&self, page_alloc: &TestPageAlloc) -> (a: usize)
        requires
            self.spec_start() + page_alloc.page_size() <= usize::MAX,
        ensures
            a == self.spec_start() + page_alloc.page_size(),
    {
        self.start + page_alloc.inner.page_size_bytes
    }

    /// The bitmap in the header, if there is one.
    fn get_bitmap(&self) -> (bitmap: Option<&Bitmap>)
        ensures
            match bitmap {
                Some(b) => self.bitmap == Some(*b),
                None => self.bitmap is None,
            },
    {
        self.bitmap.as_ref()
    }

    /// Puts `bitmap` into the header.
    fn set_bitmap(&mut self, bitmap: Option<Bitmap>)
        ensures
            final(self).bitmap == bitmap,
            final(self).start == old(self).start,
            final(self).contents == old(self).contents,
    {
        self.bitmap = bitmap;
    }

    /// Takes the bitmap out of the header.
    fn take_bitmap(&mut self) -> (bitmap: Option<Bitmap>)
        ensures
            bitmap == old(self).bitmap,
            final(self).bitmap is None,
            final(self).start == old(self).start,
            final(self).contents == old(self).contents,
    {
        self.bitmap.take()
    }
}

impl TestPageAllocInner {
    /// Slot `i` holds a page whose address range holds `a`.
    pub closed spec fn slot_holds(&self, i: int, a: int) -> bool {
        &&& 0 <= i < self.pages@.len()
        &&& self.pages@[i] is Some
        &&& self.pages@[i].unwrap().start <= a < self.pages@[i].unwrap().start
            + self.page_size_bytes
    }

    /// The slot of the page whose address range holds `a`.
    pub closed spec fn slot_of(&self, a: int) -> int {
        choose|i: int| self.slot_holds(i, a)
    }

    pub closed spec fn slot_wf(&self, i: int) -> bool {
        self.pages@[i] is Some ==> {
            let page = self.pages@[i].unwrap();
            &&& page.start % 4 == 0
            &&& self.page_size_bytes <= page.start
            &&& STATIC_HEAP_BASE + 4 * self.static_heap@.len() <= page.start
            &&& page.start + self.page_size_bytes <= self.next_start
            &&& page.contents@.len() * 4 == self.page_size_bytes
        }
    }

    pub closed spec fn entry_wf(&self, k: int) -> bool {
        let (start, page) = self.page_addrs@[k];
        &&& page.start == start
        &&& 0 <= page.page_idx < self.pages@.len()
        &&& self.pages@[page.page_idx as int] is Some
        &&& self.pages@[page.page_idx as int].unwrap().start == start
    }

    pub closed spec fn listed(&self, i: int) -> bool {
        exists|k: int| 0 <= k < self.page_addrs@.len() && (#[trigger] self.page_addrs@[k]).1.page_idx == i
    }

    pub closed spec fn inv(&self) -> bool {
        &&& PAGE_HEADER_SIZE < self.page_size_bytes
        &&& self.page_size_bytes % 4 == 0
        &&& self.pages@.len() == self.n_total_pages
        &&& self.n_total_pages <= self.next_start
        &&& self.page_size_bytes <= self.next_start <= MAX_ADDRESS
        &&& STATIC_HEAP_BASE + 4 * self.static_heap@.len() <= self.next_start
        &&& self.next_start % 4 == 0
        &&& forall|i: int| 0 <= i < self.pages@.len() ==> #[trigger] self.slot_wf(i)
        &&& forall|i: int, j: int|
            0 <= i < j < self.pages@.len() && (#[trigger] self.pages@[i]) is Some && (
            #[trigger] self.pages@[j]) is Some ==> self.pages@[i].unwrap().start
                + self.page_size_bytes <= self.pages@[j].unwrap().start
        &&& forall|k: int| 0 <= k < self.page_addrs@.len() ==> #[trigger] self.entry_wf(k)
        &&& self.sorted()
        &&& forall|i: int|
            0 <= i < self.pages@.len() && (#[trigger] self.pages@[i]) is Some ==> self.listed(i)
    }

    /// The entries of `page_addrs` stand in the order of their addresses.
    pub closed spec fn sorted(&self) -> bool {
        forall|k1: int, k2: int|
            0 <= k1 < k2 < self.page_addrs@.len() ==> (#[trigger] self.page_addrs@[k1]).0 < (
            #[trigger] self.page_addrs@[k2]).0
    }

    /// The slot that holds an address is the only one that does.
    pub proof fn lemma_slot_unique(&self, i: int, a: int)
        requires
            self.inv(),
            self.slot_holds(i, a),
        ensures
            self.slot_of(a) == i,
    {
        let j = self.slot_of(a);
        assert(self.slot_holds(j, a));
        if i < j {
            assert(self.pages@[i] is Some && self.pages@[j] is Some);
        } else if j < i {
            assert(self.pages@[j] is Some && self.pages@[i] is Some);
        }
    }

    /// Whether `a` lies in the static partition.
    pub closed spec fn in_static(&self, a: int) -> bool {
        STATIC_HEAP_BASE <= a < STATIC_HEAP_BASE + 4 * self.static_heap@.len()
    }

    /// An allocator without pages and without a static partition.
    pub fn new(page_size_bytes: usize) -> (inner: TestPageAllocInner)
        requires
            page_size_bytes > PAGE_HEADER_SIZE,
            page_size_bytes % 4 == 0,
            page_size_bytes <= MAX_ADDRESS,
        ensures
            inner.wf(),
            inner.page_size() == page_size_bytes,
            inner.live() == Set::<int>::empty(),
            inner.words() == Map::<int, u32>::empty(),
            inner.remaining() == (MAX_ADDRESS - page_size_bytes) / (page_size_bytes as int),
            forall|a: int| !inner.is_static(a),
    {
        let inner = TestPageAllocInner {
            page_size_bytes,
            pages: Vec::new(),
            page_addrs: Vec::new(),
            n_total_pages: 0,
            next_start: page_size_bytes,
            static_heap: Vec::new(),
        };
        assert(inner.live() =~= Set::<int>::empty());
        assert(inner.words() =~= Map::<int, u32>::empty());
        inner
    }

    /// An allocator without pages, with a zeroed static partition of
    /// `static_words` words.
    pub fn with_static_heap(page_size_bytes: usize, static_words: usize) -> (inner:
        TestPageAllocInner)
        requires
            page_size_bytes > PAGE_HEADER_SIZE,
            page_size_bytes % 4 == 0,
            page_size_bytes <= MAX_ADDRESS,
            STATIC_HEAP_BASE + 4 * static_words <= MAX_ADDRESS,
        ensures
            inner.wf(),
            inner.page_size() == page_size_bytes,
            inner.live() == Set::<int>::empty(),
            forall|a: int|
                inner.is_static(a) <==> STATIC_HEAP_BASE <= a < STATIC_HEAP_BASE + 4 * static_words,
            forall|a: int|
                #![trigger inner.words().dom().contains(a)]
                inner.words().dom().contains(a) <==> inner.is_static(a) && a % 4 == 0,
            forall|a: int| #[trigger]
                inner.words().dom().contains(a) ==> inner.words()[a] == 0,
    {
        let static_end: usize = STATIC_HEAP_BASE + 4 * static_words;
        let inner = TestPageAllocInner {
            page_size_bytes,
            pages: Vec::new(),
            page_addrs: Vec::new(),
            n_total_pages: 0,
            next_start: if static_end > page_size_bytes {
                static_end
            } else {
                page_size_bytes
            },
            static_heap: zeroed_words(static_words),
        };
        assert(inner.live() =~= Set::<int>::empty());
        inner
    }

    /// Whether `addr` lies in the static partition.
    fn static_contains(&self, addr: usize) -> (b: bool)
        requires
            self.inv(),
        ensures
            b == self.in_static(addr as int),
    {
        addr >= STATIC_HEAP_BASE && (addr - STATIC_HEAP_BASE) / 4 < self.static_heap.len()
    }

    /// The position in `page_addrs` of the first entry whose address is not
    /// below `key`.
    fn search(&self, key: usize) -> (idx: usize)
        requires
            self.sorted(),
        ensures
            idx <= self.page_addrs@.len(),
            forall|k: int| 0 <= k < idx ==> (#[trigger] self.page_addrs@[k]).0 < key,
            forall|k: int|
                idx <= k < self.page_addrs@.len() ==> (#[trigger] self.page_addrs@[k]).0 >= key,
    {
        let mut lo: usize = 0;
        let mut hi: usize = self.page_addrs.len();
        while lo < hi
            invariant
                self.sorted(),
                lo <= hi <= self.page_addrs@.len(),
                forall|k: int| 0 <= k < lo ==> (#[trigger] self.page_addrs@[k]).0 < key,
                forall|k: int|
                    hi <= k < self.page_addrs@.len() ==> (#[trigger] self.page_addrs@[k]).0 >= key,
            decreases hi - lo,
        {
            let mid: usize = lo + (hi - lo) / 2;
            if self.page_addrs[mid].0 < key {
                lo = mid + 1;
            } else {
                hi = mid;
            }
        }
        lo
    }

    /// The slot of the live page whose address range holds `addr`, if there
    /// is one.
    fn find(&self, addr: usize) -> (slot: Option<usize>)
        requires
            self.inv(),
        ensures
            match slot {
                Some(i) => self.slot_holds(i as int, addr as int),
                None => forall|i: int| !self.slot_holds(i, addr as int),
            },
    {
        if addr == usize::MAX {
            assert forall|i: int| !self.slot_holds(i, addr as int) by {
                if self.slot_holds(i, addr as int) {
                    assert(self.slot_wf(i));
                }
            }
            return None;
        }
        let idx: usize = self.search(addr + 1);
        if idx == 0 {
            assert forall|i: int| !self.slot_holds(i, addr as int) by {
                if self.slot_holds(i, addr as int) {
                    assert(self.pages@[i] is Some);
                    assert(self.listed(i));
                    let k = choose|k: int|
                        0 <= k < self.page_addrs@.len() && (#[trigger] self.page_addrs@[k]).1.page_idx
                            == i;
                    assert(self.entry_wf(k));
                }
            }
            return None;
        }
        let entry: (usize, TestPageRef) = self.page_addrs[idx - 1];
        assert(self.entry_wf(idx - 1));
        let slot: usize = entry.1.page_idx;
        assert(self.slot_wf(slot as int));
        if addr - entry.0 < self.page_size_bytes {
            Some(slot)
        } else {
            assert forall|i: int| !self.slot_holds(i, addr as int) by {
                if self.slot_holds(i, addr as int) {
                    assert(self.pages@[i] is Some);
                    assert(self.pages@[slot as int] is Some);
                    assert(self.listed(i));
                    let k = choose|k: int|
                        0 <= k < self.page_addrs@.len() && (#[trigger] self.page_addrs@[k]).1.page_idx
                            == i;
                    assert(self.entry_wf(k));
                    assert(self.page_addrs@[k].0 <= addr);
                    if k < idx - 1 {
                        assert(self.page_addrs@[k].0 < self.page_addrs@[idx - 1].0);
                    }
                }
            }
            None
        }
    }
}

impl WordMemory for TestPageAllocInner {
    closed spec fn wf(&self) -> bool {
        self.inv()
    }

    closed spec fn words(&self) -> Map<int, u32> {
        Map::new(
            |a: int| a % 4 == 0 && (self.in_static(a) || exists|i: int| self.slot_holds(i, a)),
            |a: int|
                if self.in_static(a) {
                    self.static_heap@[(a - STATIC_HEAP_BASE) / 4]
                } else {
                    let page = self.pages@[self.slot_of(a)].unwrap();
                    page.contents@[(a - page.start) / 4]
                },
        )
    }

    proof fn lemma_mapped(&self, addr: int) {
        if !self.in_static(addr) {
            let i = choose|i: int| self.slot_holds(i, addr);
            assert(self.slot_wf(i));
        }
    }

    fn contains(&self, addr: usize) -> (b: bool) {
        if self.static_contains(addr) {
            return addr % 4 == 0;
        }
        match self.find(addr) {
            Some(_) => addr % 4 == 0,
            None => false,
        }
    }

    fn read_word(&self, addr: usize) -> (w: u32) {
        if self.static_contains(addr) {
            return self.static_heap[(addr - STATIC_HEAP_BASE) / 4];
        }
        let slot = self.find(addr);
        match slot {
            Some(i) => {
                proof {
                    self.lemma_slot_unique(i as int, addr as int);
                    assert(self.slot_wf(i as int));
                }
                match &self.pages[i] {
                    Some(page) => page.contents[(addr - page.start) / 4],
                    None => 0,
                }
            },
            None => 0,
        }
    }
}

} // verus!

verus! {

/// A buffer of `n` zero words.
fn zeroed_words(n: usize) -> (words: Vec<u32>)
    ensures
        words@.len() == n,
        forall|k: int| 0 <= k < n ==> words@[k] == 0,
{
    let mut words: Vec<u32> = Vec::new();
    let mut i: usize = 0;
    while i < n
        invariant
            i <= n,
            words@.len() == i,
            forall|k: int| 0 <= k < i ==> words@[k] == 0,
        decreases n - i,
    {
        words.push(0);
        i = i + 1;
    }
    words
}

impl TestPageAllocInner {
    /// The number of pages that the allocator has handed out so far, the
    /// freed ones included.
    pub closed spec fn spec_handed_out(&self) -> int {
        self.n_total_pages as int
    }

    /// A live handle has a number below the count of pages handed out.
    pub proof fn lemma_live_index(&self, page: TestPageRef)
        requires
            self.wf(),
            self.is_live(page),
        ensures
            0 <= page.spec_index() < self.spec_handed_out(),
    {
    }

    /// The slot of a page that starts at `s`.
    pub closed spec fn starts_at(&self, i: int, s: int) -> bool {
        &&& 0 <= i < self.pages@.len()
        &&& self.pages@[i] is Some
        &&& self.pages@[i].unwrap().start == s
    }

    proof fn lemma_starts_at(&self, i: int, s: int)
        requires
            self.inv(),
            self.starts_at(i, s),
        ensures
            self.slot_holds(i, s),
            self.slot_of(s) == i,
            self.live().contains(s),
    {
        assert(self.slot_holds(i, s));
        self.lemma_slot_unique(i, s);
    }

    proof fn lemma_live_slot(&self, s: int) -> (i: int)
        requires
            self.inv(),
            self.live().contains(s),
        ensures
            self.starts_at(i, s),
            self.slot_holds(i, s),
            self.slot_of(s) == i,
    {
        let i = choose|i: int| self.starts_at(i, s);
        self.lemma_starts_at(i, s);
        i
    }

    /// Whether the state `after` differs from `self` in the contents and
    /// bitmaps of the pages at most.
    pub closed spec fn same_slots(&self, after: &Self) -> bool {
        &&& after.page_size_bytes == self.page_size_bytes
        &&& after.n_total_pages == self.n_total_pages
        &&& after.next_start == self.next_start
        &&& after.page_addrs@ == self.page_addrs@
        &&& after.static_heap@.len() == self.static_heap@.len()
        &&& after.pages@.len() == self.pages@.len()
        &&& forall|i: int|
            0 <= i < self.pages@.len() ==> ((#[trigger] after.pages@[i]) is Some) == (
            self.pages@[i] is Some)
        &&& forall|i: int|
            0 <= i < self.pages@.len() && self.pages@[i] is Some ==> (
            #[trigger] after.pages@[i]).unwrap().start == self.pages@[i].unwrap().start
                && after.pages@[i].unwrap().contents@.len()
                == self.pages@[i].unwrap().contents@.len()
    }

    proof fn lemma_same_slots(&self, after: &Self)
        requires
            self.inv(),
            self.same_slots(after),
        ensures
            after.inv(),
            after.page_size() == self.page_size(),
            after.live() == self.live(),
            after.remaining() == self.remaining(),
            forall|p: TestPageRef| #[trigger] after.is_live(p) == self.is_live(p),
            forall|i: int, a: int| self.slot_holds(i, a) == after.slot_holds(i, a),
            forall|i: int, a: int| #[trigger]
                self.slot_holds(i, a) ==> after.slot_of(a) == i && self.slot_of(a) == i,
            after.words().dom() == self.words().dom(),
    {
        assert forall|i: int, a: int| self.slot_holds(i, a) == after.slot_holds(i, a) by {}
        assert forall|i: int| 0 <= i < after.pages@.len() implies #[trigger] after.slot_wf(i) by {
            assert(self.slot_wf(i));
        }
        assert forall|k: int| 0 <= k < after.page_addrs@.len() implies #[trigger] after.entry_wf(
            k,
        ) by {
            assert(self.entry_wf(k));
        }
        assert forall|i: int|
            0 <= i < after.pages@.len() && (#[trigger] after.pages@[i]) is Some implies after.listed(
            i,
        ) by {
            assert(self.pages@[i] is Some);
            assert(self.listed(i));
        }
        assert forall|i: int, j: int|
            0 <= i < j < after.pages@.len() && (#[trigger] after.pages@[i]) is Some && (
            #[trigger] after.pages@[j]) is Some implies after.pages@[i].unwrap().start
            + after.page_size_bytes <= after.pages@[j].unwrap().start by {
            assert(self.pages@[i] is Some && self.pages@[j] is Some);
        }
        assert(after.inv());
        assert forall|i: int, a: int| #[trigger] self.slot_holds(i, a) implies after.slot_of(a)
            == i && self.slot_of(a) == i by {
            assert(after.slot_holds(i, a));
            after.lemma_slot_unique(i, a);
            self.lemma_slot_unique(i, a);
        }
        assert(after.words().dom() =~= self.words().dom());
        assert forall|s: int| self.live().contains(s) == after.live().contains(s) by {
            if self.live().contains(s) {
                let i = choose|i: int| self.starts_at(i, s);
                assert(after.starts_at(i, s));
            }
            if after.live().contains(s) {
                let i = choose|i: int| after.starts_at(i, s);
                assert(self.starts_at(i, s));
            }
        }
        assert(after.live() =~= self.live());
    }
}

impl PageAlloc for TestPageAllocInner {
    type Page = TestPageRef;

    closed spec fn page_size(&self) -> int {
        self.page_size_bytes as int
    }

    closed spec fn live(&self) -> Set<int> {
        Set::new(|s: int| exists|i: int| self.starts_at(i, s))
    }

    closed spec fn remaining(&self) -> nat {
        ((MAX_ADDRESS - self.next_start) / (self.page_size_bytes as int)) as nat
    }

    closed spec fn page_containing(&self, addr: int) -> int {
        self.pages@[self.slot_of(addr)].unwrap().start as int
    }

    closed spec fn is_static(&self, addr: int) -> bool {
        self.in_static(addr)
    }

    closed spec fn bitmap(&self, start: int) -> Option<Bitmap> {
        if self.starts_at(self.slot_of(start), start) {
            self.pages@[self.slot_of(start)].unwrap().bitmap
        } else {
            None
        }
    }

    closed spec fn start_of(page: TestPageRef) -> int {
        page.start as int
    }

    closed spec fn is_live(&self, page: TestPageRef) -> bool {
        self.starts_at(page.page_idx as int, page.start as int)
    }

    proof fn lemma_page_size(&self) {
    }

    proof fn lemma_live_page(&self, start: int) {
        let i = self.lemma_live_slot(start);
        assert(self.slot_wf(i));
    }

    proof fn lemma_live_handle(&self, page: TestPageRef) {
        self.lemma_starts_at(page.page_idx as int, page.start as int);
    }

    proof fn lemma_mapped_in_page(&self, addr: int) {
        let i = self.slot_of(addr);
        assert(self.slot_holds(i, addr));
        assert(self.starts_at(i, self.page_containing(addr)));
    }

    proof fn lemma_page_mapped_static(&self, start: int, addr: int) {
        let i = self.lemma_live_slot(start);
        assert(self.slot_wf(i));
    }

    proof fn lemma_page_mapped(&self, start: int, addr: int) {
        let i = self.lemma_live_slot(start);
        assert(self.slot_holds(i, addr));
        assert(self.slot_wf(i));
        self.lemma_slot_unique(i, addr);
    }

    fn page_size_bytes(&self) -> (n: usize) {
        self.page_size_bytes
    }

    fn can_alloc(&self) -> (b: bool) {
        proof {
            let x = (MAX_ADDRESS - self.next_start) as int;
            let d = self.page_size_bytes as int;
            if x >= d {
                vstd::arithmetic::div_mod::lemma_div_is_ordered(d, x, d);
            } else {
                vstd::arithmetic::div_mod::lemma_basic_div(x, d);
            }
        }
        self.page_size_bytes <= MAX_ADDRESS - self.next_start
    }

    fn alloc_page(&mut self) -> (page: TestPageRef)
        ensures
            page.spec_index() == old(self).spec_handed_out(),
            final(self).spec_handed_out() == old(self).spec_handed_out() + 1,
            forall|p: TestPageRef|
                p.spec_index() < old(self).spec_handed_out() && !old(self).is_live(p)
                    ==> !#[trigger] final(self).is_live(p),
    {
        self.alloc_pages(1)
    }

    /// Every block that this allocator hands out is one page, whatever the
    /// number of pages asked for.
    #[verifier::rlimit(50)]
    fn alloc_pages(&mut self, n_pages: u16) -> (page_ref: TestPageRef)
        ensures
            page_ref.spec_index() == old(self).spec_handed_out(),
            final(self).spec_handed_out() == old(self).spec_handed_out() + 1,
            forall|p: TestPageRef|
                p.spec_index() < old(self).spec_handed_out() && !old(self).is_live(p)
                    ==> !#[trigger] final(self).is_live(p),
    {
        proof {
            let x = (MAX_ADDRESS - self.next_start) as int;
            let d = self.page_size_bytes as int;
            if x < d {
                vstd::arithmetic::div_mod::lemma_basic_div(x, d);
            }
            vstd::arithmetic::div_mod::lemma_div_plus_one(x - d, d);
        }
        let page = TestPage {
            start: self.next_start,
            contents: zeroed_words(self.page_size_bytes / 4),
            bitmap: None,
        };

        let page_start: usize = page.start();

        let page_idx: usize = self.n_total_pages;
        self.n_total_pages = self.n_total_pages + 1;

        let page_ref = TestPageRef { page_idx, start: page_start };
        self.pages.push(Some(page));

        let idx: usize = self.search(page_start);
        proof {
            if idx < self.page_addrs@.len() {
                assert(old(self).entry_wf(idx as int));
                assert(old(self).slot_wf(self.page_addrs@[idx as int].1.page_idx as int));
            }
        }
        self.page_addrs.insert(idx, (page_start, page_ref));
        self.next_start = self.next_start + self.page_size_bytes;

        proof {
            let new = page_idx as int;
            let ps = self.page_size_bytes as int;
            assert forall|i: int| 0 <= i < self.pages@.len() implies #[trigger] self.slot_wf(i) by {
                if i < new {
                    assert(old(self).slot_wf(i));
                    assert(self.pages@[i] == old(self).pages@[i]);
                }
            }
            assert forall|i: int, j: int|
                0 <= i < j < self.pages@.len() && (#[trigger] self.pages@[i]) is Some && (
                #[trigger] self.pages@[j]) is Some implies self.pages@[i].unwrap().start + ps
                <= self.pages@[j].unwrap().start by {
                assert(self.pages@[i] == old(self).pages@[i]);
                assert(old(self).slot_wf(i));
                if j < new {
                    assert(self.pages@[j] == old(self).pages@[j]);
                }
            }
            assert forall|k: int| 0 <= k < self.page_addrs@.len() implies #[trigger] self.entry_wf(
                k,
            ) by {
                if k < idx {
                    assert(self.page_addrs@[k] == old(self).page_addrs@[k]);
                    assert(old(self).entry_wf(k));
                } else if k > idx {
                    assert(self.page_addrs@[k] == old(self).page_addrs@[k - 1]);
                    assert(old(self).entry_wf(k - 1));
                }
            }
            assert forall|k1: int, k2: int| 0 <= k1 < k2 < self.page_addrs@.len() implies (
            #[trigger] self.page_addrs@[k1]).0 < (#[trigger] self.page_addrs@[k2]).0 by {
                let o1 = if k1 < idx { k1 } else { k1 - 1 };
                let o2 = if k2 < idx { k2 } else { k2 - 1 };
                if k1 != idx {
                    assert(self.page_addrs@[k1] == old(self).page_addrs@[o1]);
                    assert(old(self).entry_wf(o1));
                    assert(old(self).slot_wf(old(self).page_addrs@[o1].1.page_idx as int));
                }
                if k2 != idx {
                    assert(self.page_addrs@[k2] == old(self).page_addrs@[o2]);
                    assert(old(self).entry_wf(o2));
                    assert(old(self).slot_wf(old(self).page_addrs@[o2].1.page_idx as int));
                }
            }
            assert forall|i: int|
                0 <= i < self.pages@.len() && (#[trigger] self.pages@[i]) is Some implies self.listed(
                i,
            ) by {
                if i < new {
                    assert(self.pages@[i] == old(self).pages@[i]);
                    assert(old(self).listed(i));
                    let k = choose|k: int|
                        0 <= k < old(self).page_addrs@.len() && (#[trigger] old(
                            self,
                        ).page_addrs@[k]).1.page_idx == i;
                    let k2 = if k < idx { k } else { k + 1 };
                    assert(self.page_addrs@[k2] == old(self).page_addrs@[k]);
                } else {
                    assert(self.page_addrs@[idx as int].1.page_idx == i);
                }
            }
            assert(self.inv());
            assert(self.starts_at(new, page_start as int));
            self.lemma_starts_at(new, page_start as int);
            assert forall|i: int, a: int| old(self).slot_holds(i, a) implies self.slot_holds(
                i,
                a,
            ) && self.slot_of(a) == i && old(self).slot_of(a) == i by {
                assert(self.pages@[i] == old(self).pages@[i]);
                assert(self.slot_holds(i, a));
                self.lemma_slot_unique(i, a);
                old(self).lemma_slot_unique(i, a);
            }
            assert forall|i: int, a: int| self.slot_holds(i, a) && i != new implies old(
                self,
            ).slot_holds(i, a) by {
                assert(self.pages@[i] == old(self).pages@[i]);
            }
            assert forall|a: int| #[trigger]
                old(self).words().dom().contains(a) implies self.words().dom().contains(a)
                && self.words()[a] == old(self).words()[a] by {
                if !old(self).in_static(a) {
                    let i = choose|i: int| old(self).slot_holds(i, a);
                    assert(self.slot_holds(i, a));
                    assert(self.pages@[i] == old(self).pages@[i]);
                }
            }
            assert forall|a: int| page_start <= a < page_start + ps && a % 4 == 0 implies (
            #[trigger] self.words().dom().contains(a)) && self.words()[a] == 0 by {
                assert(self.slot_holds(new, a));
                assert(self.slot_wf(new));
                self.lemma_slot_unique(new, a);
            }
            assert forall|a: int| #[trigger]
                self.words().dom().contains(a) implies old(self).words().dom().contains(a) || (
            page_start <= a < page_start + ps) by {
                if !self.in_static(a) {
                    let i = choose|i: int| self.slot_holds(i, a);
                    if i != new {
                        assert(old(self).slot_holds(i, a));
                    }
                }
            }
            assert forall|a: int| page_start <= a < page_start + ps implies !#[trigger] old(
                self,
            ).words().dom().contains(a) by {
                if old(self).words().dom().contains(a) && !old(self).in_static(a) {
                    let i = choose|i: int| old(self).slot_holds(i, a);
                    assert(old(self).slot_wf(i));
                }
            }
            assert forall|s: int| #[trigger] old(self).live().contains(s) implies self.bitmap(s)
                == old(self).bitmap(s) && self.live().contains(s) by {
                let i = old(self).lemma_live_slot(s);
                assert(old(self).slot_holds(i, s));
                assert(self.pages@[i] == old(self).pages@[i]);
                assert(self.starts_at(i, s));
            }
            assert(!old(self).live().contains(page_start as int)) by {
                if old(self).live().contains(page_start as int) {
                    let i = old(self).lemma_live_slot(page_start as int);
                    assert(old(self).slot_wf(i));
                }
            }
            assert forall|s: int| self.live().contains(s) implies old(self).live().insert(
                page_start as int,
            ).contains(s) by {
                let i = choose|i: int| self.starts_at(i, s);
                if i != new {
                    assert(self.pages@[i] == old(self).pages@[i]);
                    assert(old(self).starts_at(i, s));
                }
            }
            assert(self.live() =~= old(self).live().insert(page_start as int));
            assert forall|p: TestPageRef| #[trigger] old(self).is_live(p) implies self.is_live(
                p,
            ) by {
                assert(self.pages@[p.page_idx as int] == old(self).pages@[p.page_idx as int]);
            }
        }
        page_ref
    }

    #[verifier::rlimit(50)]
    fn free(&mut self, page: TestPageRef)
        ensures
            final(self).spec_handed_out() == old(self).spec_handed_out(),
            !final(self).is_live(page),
            forall|p: TestPageRef| !old(self).is_live(p) ==> !#[trigger] final(self).is_live(p),
    {
        let slot: usize = page.page_idx;
        let page_start: usize = page.start;
        proof {
            self.lemma_starts_at(slot as int, page_start as int);
            assert(self.listed(slot as int));
        }
        self.pages.set(slot, None);
        let idx: usize = self.search(page_start);
        proof {
            let k = choose|k: int|
                0 <= k < self.page_addrs@.len() && (#[trigger] self.page_addrs@[k]).1.page_idx
                    == slot;
            assert(old(self).entry_wf(k));
            assert(self.page_addrs@[k].0 == page_start);
            if idx < k {
                assert(self.page_addrs@[idx as int].0 < self.page_addrs@[k].0);
            }
            assert(idx == k);
        }
        self.page_addrs.remove(idx);
        proof {
            let ps = self.page_size_bytes as int;
            assert forall|i: int| 0 <= i < self.pages@.len() implies #[trigger] self.slot_wf(i) by {
                assert(old(self).slot_wf(i));
            }
            assert forall|i: int, j: int|
                0 <= i < j < self.pages@.len() && (#[trigger] self.pages@[i]) is Some && (
                #[trigger] self.pages@[j]) is Some implies self.pages@[i].unwrap().start + ps
                <= self.pages@[j].unwrap().start by {
                assert(old(self).pages@[i] is Some && old(self).pages@[j] is Some);
            }
            assert forall|k: int| 0 <= k < self.page_addrs@.len() implies #[trigger] self.entry_wf(
                k,
            ) by {
                let o = if k < idx { k } else { k + 1 };
                assert(self.page_addrs@[k] == old(self).page_addrs@[o]);
                assert(old(self).entry_wf(o));
                assert(old(self).entry_wf(idx as int));
                if old(self).page_addrs@[o].1.page_idx == slot {
                    if o < idx {
                        assert(old(self).page_addrs@[o].0 < old(self).page_addrs@[idx as int].0);
                    } else {
                        assert(old(self).page_addrs@[idx as int].0 < old(self).page_addrs@[o].0);
                    }
                }
            }
            assert forall|k1: int, k2: int| 0 <= k1 < k2 < self.page_addrs@.len() implies (
            #[trigger] self.page_addrs@[k1]).0 < (#[trigger] self.page_addrs@[k2]).0 by {
                let o1 = if k1 < idx { k1 } else { k1 + 1 };
                let o2 = if k2 < idx { k2 } else { k2 + 1 };
                assert(self.page_addrs@[k1] == old(self).page_addrs@[o1]);
                assert(self.page_addrs@[k2] == old(self).page_addrs@[o2]);
            }
            assert forall|i: int|
                0 <= i < self.pages@.len() && (#[trigger] self.pages@[i]) is Some implies self.listed(
                i,
            ) by {
                assert(old(self).pages@[i] is Some);
                assert(old(self).listed(i));
                let k = choose|k: int|
                    0 <= k < old(self).page_addrs@.len() && (#[trigger] old(
                        self,
                    ).page_addrs@[k]).1.page_idx == i;
                let k2 = if k < idx { k } else { k - 1 };
                assert(k != idx);
                assert(self.page_addrs@[k2] == old(self).page_addrs@[k]);
            }
            assert(self.inv());
            assert forall|i: int, a: int| self.slot_holds(i, a) implies old(self).slot_holds(i, a)
                && i != slot && self.slot_of(a) == i && old(self).slot_of(a) == i by {
                self.lemma_slot_unique(i, a);
                old(self).lemma_slot_unique(i, a);
            }
            assert forall|i: int, a: int| old(self).slot_holds(i, a) && i != slot implies self.slot_holds(
                i,
                a,
            ) by {}
            assert forall|a: int| #[trigger]
                self.words().dom().contains(a) implies old(self).words().dom().contains(a) && old(
                self,
            ).words()[a] == self.words()[a] by {
                if !self.in_static(a) {
                    let i = choose|i: int| self.slot_holds(i, a);
                    assert(old(self).slot_holds(i, a));
                }
            }
            assert forall|a: int| #[trigger]
                old(self).words().dom().contains(a) && !(page_start <= a < page_start + ps) implies self.words().dom().contains(
                a,
            ) by {
                if !old(self).in_static(a) {
                    let i = choose|i: int| old(self).slot_holds(i, a);
                    assert(self.slot_holds(i, a));
                }
            }
            assert forall|a: int| page_start <= a < page_start + ps implies !#[trigger] self.words().dom().contains(
                a,
            ) by {
                assert(old(self).slot_wf(slot as int));
                if self.words().dom().contains(a) {
                    let i = choose|i: int| self.slot_holds(i, a);
                    assert(old(self).slot_holds(slot as int, a));
                    old(self).lemma_slot_unique(slot as int, a);
                }
            }
            assert forall|s: int| #[trigger] self.live().contains(s) implies self.bitmap(s) == old(
                self,
            ).bitmap(s) && old(self).live().contains(s) && s != page_start by {
                let i = self.lemma_live_slot(s);
                assert(self.slot_holds(i, s));
                assert(old(self).starts_at(i, s));
            }
            assert forall|s: int| old(self).live().contains(s) && s != page_start implies self.live().contains(
                s,
            ) by {
                let i = old(self).lemma_live_slot(s);
                assert(self.starts_at(i, s));
            }
            assert(self.live() =~= old(self).live().remove(page_start as int));
        }
    }

    fn get_address_page_start(&self, addr: usize) -> (start: usize) {
        match self.find(addr) {
            Some(i) => {
                proof {
                    self.lemma_slot_unique(i as int, addr as int);
                }
                match &self.pages[i] {
                    Some(page) => page.start(),
                    None => 0,
                }
            },
            None => 0,
        }
    }

    fn in_static_heap(&self, addr: usize) -> (b: bool) {
        self.static_contains(addr)
    }

    #[verifier::rlimit(50)]
    fn write_word(&mut self, addr: usize, w: u32) {
        if self.static_contains(addr) {
            self.static_heap.set((addr - STATIC_HEAP_BASE) / 4, w);
            proof {
                old(self).lemma_static_write(self);
                assert(self.words() =~= old(self).words().insert(addr as int, w));
            }
            return ;
        }
        let slot = self.find(addr);
        match slot {
            Some(i) => {
                proof {
                    self.lemma_slot_unique(i as int, addr as int);
                    assert(self.slot_wf(i as int));
                }
                let ghost off: int = 0;
                match &mut self.pages[i] {
                    Some(page) => {
                        let k: usize = (addr - page.start) / 4;
                        page.contents.set(k, w);
                    },
                    None => {},
                }
                proof {
                    old(self).lemma_same_slots(self);
                    let page = old(self).pages@[i as int].unwrap();
                    let k = (addr - page.start) / 4;
                    assert(self.pages@[i as int].unwrap().contents@ == page.contents@.update(k, w));
                    assert forall|a: int| self.words().dom().contains(a) implies #[trigger] self.words()[a]
                        == old(self).words().insert(addr as int, w)[a] by {
                        if !self.in_static(a) {
                            let j = self.slot_of(a);
                            assert(self.slot_holds(j, a));
                            assert(old(self).slot_holds(j, a));
                            old(self).lemma_slot_unique(j, a);
                            if j != i {
                                assert(self.pages@[j] == old(self).pages@[j]);
                            } else {
                                assert(old(self).slot_wf(j));
                            }
                        }
                    }
                    assert(self.words() =~= old(self).words().insert(addr as int, w));
                    assert forall|s: int| #[trigger] self.bitmap(s) == old(self).bitmap(s) by {
                        let j = self.slot_of(s);
                        let k = old(self).slot_of(s);
                        if self.starts_at(j, s) {
                            assert(self.slot_holds(j, s));
                            assert(old(self).slot_holds(j, s));
                            old(self).lemma_slot_unique(j, s);
                            if j != i {
                                assert(self.pages@[j] == old(self).pages@[j]);
                            }
                        } else if old(self).starts_at(k, s) {
                            assert(old(self).slot_holds(k, s));
                            assert(self.slot_holds(k, s));
                            self.lemma_slot_unique(k, s);
                        }
                    }
                }
            },
            None => {},
        }
    }

    fn page_at(&self, start: usize) -> (page: TestPageRef) {
        proof {
            let i = self.lemma_live_slot(start as int);
        }
        match self.find(start) {
            Some(i) => {
                proof {
                    self.lemma_slot_unique(i as int, start as int);
                }
                TestPageRef { page_idx: i, start }
            },
            None => TestPageRef { page_idx: 0, start },
        }
    }

    fn page_start(&self, page: &TestPageRef) -> (a: usize) {
        page.start
    }

    fn page_contents_start(&self, page: &TestPageRef) -> (a: usize) {
        proof {
            assert(self.slot_wf(page.page_idx as int));
        }
        page.start + PAGE_HEADER_SIZE
    }

    fn page_end(&self, page: &TestPageRef) -> (a: usize) {
        proof {
            assert(self.slot_wf(page.page_idx as int));
        }
        page.start + self.page_size_bytes
    }

    fn get_bitmap(&self, start: usize) -> (bitmap: Option<&Bitmap>) {
        proof {
            let i = self.lemma_live_slot(start as int);
        }
        match self.find(start) {
            Some(i) => {
                proof {
                    self.lemma_slot_unique(i as int, start as int);
                }
                match &self.pages[i] {
                    Some(page) => page.get_bitmap(),
                    None => None,
                }
            },
            None => None,
        }
    }

    fn set_bitmap(&mut self, start: usize, bitmap: Option<Bitmap>) {
        proof {
            let i = self.lemma_live_slot(start as int);
        }
        match self.find(start) {
            Some(i) => {
                proof {
                    self.lemma_slot_unique(i as int, start as int);
                }
                match &mut self.pages[i] {
                    Some(page) => {
                        page.set_bitmap(bitmap);
                    },
                    None => {},
                }
                proof {
                    old(self).lemma_same_slots(self);
                    self.lemma_bitmap_frame(old(self), i as int);
                }
            },
            None => {},
        }
    }

    fn take_bitmap(&mut self, start: usize) -> (bitmap: Option<Bitmap>) {
        proof {
            let i = self.lemma_live_slot(start as int);
        }
        match self.find(start) {
            Some(i) => {
                proof {
                    self.lemma_slot_unique(i as int, start as int);
                }
                let taken = match &mut self.pages[i] {
                    Some(page) => page.take_bitmap(),
                    None => None,
                };
                proof {
                    old(self).lemma_same_slots(self);
                    self.lemma_bitmap_frame(old(self), i as int);
                }
                taken
            },
            None => None,
        }
    }
}

impl TestPageAllocInner {
    /// After a change of the static partition alone, the pages are what they
    /// were.
    proof fn lemma_static_write(&self, after: &Self)
        requires
            self.inv(),
            after.page_size_bytes == self.page_size_bytes,
            after.n_total_pages == self.n_total_pages,
            after.next_start == self.next_start,
            after.page_addrs == self.page_addrs,
            after.pages == self.pages,
            after.static_heap@.len() == self.static_heap@.len(),
        ensures
            after.inv(),
            after.page_size() == self.page_size(),
            after.live() == self.live(),
            after.remaining() == self.remaining(),
            forall|p: TestPageRef| #[trigger] after.is_live(p) == self.is_live(p),
            forall|a: int| #[trigger] after.is_static(a) == self.is_static(a),
            forall|s: int| #[trigger] after.bitmap(s) == self.bitmap(s),
            after.words().dom() == self.words().dom(),
            forall|a: int|
                self.words().dom().contains(a) && !self.in_static(a) ==> #[trigger] after.words()[a]
                    == self.words()[a],
    {
        self.lemma_same_slots(after);
        assert forall|s: int| #[trigger] after.bitmap(s) == self.bitmap(s) by {
            let j = after.slot_of(s);
            let k = self.slot_of(s);
            if after.starts_at(j, s) {
                assert(after.slot_holds(j, s));
                assert(self.slot_holds(j, s));
                self.lemma_slot_unique(j, s);
            } else if self.starts_at(k, s) {
                assert(self.slot_holds(k, s));
                assert(after.slot_holds(k, s));
                after.lemma_slot_unique(k, s);
            }
        }
        assert forall|a: int|
            self.words().dom().contains(a) && !self.in_static(a) implies #[trigger] after.words()[a]
            == self.words()[a] by {
            let j = choose|j: int| self.slot_holds(j, a);
            assert(after.slot_holds(j, a));
            self.lemma_slot_unique(j, a);
            after.lemma_slot_unique(j, a);
        }
    }

    /// After a change of the bitmap of slot `i` alone, the words and the other
    /// bitmaps are what they were.
    proof fn lemma_bitmap_frame(&self, before: &Self, i: int)
        requires
            before.inv(),
            self.inv(),
            before.same_slots(self),
            0 <= i < self.pages@.len(),
            forall|j: int|
                0 <= j < self.pages@.len() && j != i ==> #[trigger] self.pages@[j]
                    == before.pages@[j],
            before.pages@[i] is Some ==> self.pages@[i].unwrap().contents
                == before.pages@[i].unwrap().contents,
            self.static_heap == before.static_heap,
            forall|j: int, a: int| before.slot_holds(j, a) == self.slot_holds(j, a),
            self.words().dom() == before.words().dom(),
        ensures
            self.words() == before.words(),
            forall|s: int|
                !before.starts_at(i, s) ==> #[trigger] self.bitmap(s) == before.bitmap(s),
    {
        assert forall|a: int| self.words().dom().contains(a) implies #[trigger] self.words()[a]
            == before.words()[a] by {
            if !self.in_static(a) {
                let j = self.slot_of(a);
                assert(self.slot_holds(j, a));
                assert(before.slot_holds(j, a));
                before.lemma_slot_unique(j, a);
                if j != i {
                    assert(self.pages@[j] == before.pages@[j]);
                }
            }
        }
        assert(self.words() =~= before.words());
        assert forall|s: int| !before.starts_at(i, s) implies #[trigger] self.bitmap(s)
            == before.bitmap(s) by {
            let j = self.slot_of(s);
            let k = before.slot_of(s);
            if self.starts_at(j, s) {
                assert(self.slot_holds(j, s));
                assert(before.slot_holds(j, s));
                before.lemma_slot_unique(j, s);
                assert(self.pages@[j] == before.pages@[j]);
            } else if before.starts_at(k, s) {
                assert(before.slot_holds(k, s));
                assert(self.slot_holds(k, s));
                self.lemma_slot_unique(k, s);
                assert(self.pages@[k] == before.pages@[k]);
            }
        }
    }
}

} // verus!

verus! {

impl TestPageAlloc {
    /// The number of pages that the allocator has handed out so far, the
    /// freed ones included.
    pub closed spec fn spec_handed_out(&self) -> int {
        self.inner.spec_handed_out()
    }

    /// A live handle has a number below the count of pages handed out, so a
    /// handle that was freed is never live again: the numbers of the pages
    /// that are handed out later are higher.
    pub proof fn lemma_live_index(&self, page: TestPageRef)
        requires
            self.wf(),
            self.is_live(page),
        ensures
            0 <= page.spec_index() < self.spec_handed_out(),
    {
        self.inner.lemma_live_index(page);
    }

    /// An allocator without pages, for pages of `page_size_bytes` bytes.
    pub fn new(page_size_bytes: usize) -> (page_alloc: TestPageAlloc)
        requires
            page_size_bytes > PAGE_HEADER_SIZE,
            page_size_bytes % 4 == 0,
            page_size_bytes <= MAX_ADDRESS,
        ensures
            page_alloc.wf(),
            page_alloc.page_size() == page_size_bytes,
            page_alloc.live() == Set::<int>::empty(),
            page_alloc.words() == Map::<int, u32>::empty(),
            page_alloc.remaining() == (MAX_ADDRESS - page_size_bytes) / (page_size_bytes as int),
            forall|a: int| !page_alloc.is_static(a),
    {
        TestPageAlloc { inner: TestPageAllocInner::new(page_size_bytes) }
    }

    /// An allocator without pages, for pages of `page_size_bytes` bytes, with
    /// a zeroed static partition of `static_words` words that begins at
    /// `STATIC_HEAP_BASE`.
    pub fn with_static_heap(page_size_bytes: usize, static_words: usize) -> (page_alloc:
        TestPageAlloc)
        requires
            page_size_bytes > PAGE_HEADER_SIZE,
            page_size_bytes % 4 == 0,
            page_size_bytes <= MAX_ADDRESS,
            STATIC_HEAP_BASE + 4 * static_words <= MAX_ADDRESS,
        ensures
            page_alloc.wf(),
            page_alloc.page_size() == page_size_bytes,
            page_alloc.live() == Set::<int>::empty(),
            forall|a: int|
                page_alloc.is_static(a) <==> STATIC_HEAP_BASE <= a < STATIC_HEAP_BASE + 4
                    * static_words,
            forall|a: int|
                #![trigger page_alloc.words().dom().contains(a)]
                page_alloc.words().dom().contains(a) <==> page_alloc.is_static(a) && a % 4 == 0,
            forall|a: int| #[trigger]
                page_alloc.words().dom().contains(a) ==> page_alloc.words()[a] == 0,
    {
        TestPageAlloc { inner: TestPageAllocInner::with_static_heap(page_size_bytes, static_words) }
    }
}

impl WordMemory for TestPageAlloc {
    closed spec fn wf(&self) -> bool {
        self.inner.wf()
    }

    closed spec fn words(&self) -> Map<int, u32> {
        self.inner.words()
    }

    proof fn lemma_mapped(&self, addr: int) {
        self.inner.lemma_mapped(addr);
    }

    fn contains(&self, addr: usize) -> (b: bool) {
        self.inner.contains(addr)
    }

    fn read_word(&self, addr: usize) -> (w: u32) {
        self.inner.read_word(addr)
    }
}

impl PageAlloc for TestPageAlloc {
    type Page = TestPageRef;

    closed spec fn page_size(&self) -> int {
        self.inner.page_size()
    }

    closed spec fn live(&self) -> Set<int> {
        self.inner.live()
    }

    closed spec fn remaining(&self) -> nat {
        self.inner.remaining()
    }

    closed spec fn page_containing(&self, addr: int) -> int {
        self.inner.page_containing(addr)
    }

    closed spec fn is_static(&self, addr: int) -> bool {
        self.inner.is_static(addr)
    }

    closed spec fn bitmap(&self, start: int) -> Option<Bitmap> {
        self.inner.bitmap(start)
    }

    closed spec fn start_of(page: TestPageRef) -> int {
        TestPageAllocInner::start_of(page)
    }

    closed spec fn is_live(&self, page: TestPageRef) -> bool {
        self.inner.is_live(page)
    }

    proof fn lemma_page_size(&self) {
        self.inner.lemma_page_size();
    }

    proof fn lemma_live_page(&self, start: int) {
        self.inner.lemma_live_page(start);
    }

    proof fn lemma_live_handle(&self, page: TestPageRef) {
        self.inner.lemma_live_handle(page);
    }

    proof fn lemma_mapped_in_page(&self, addr: int) {
        self.inner.lemma_mapped_in_page(addr);
    }

    proof fn lemma_page_mapped_static(&self, start: int, addr: int) {
        self.inner.lemma_page_mapped_static(start, addr);
    }

    proof fn lemma_page_mapped(&self, start: int, addr: int) {
        self.inner.lemma_page_mapped(start, addr);
    }

    fn page_size_bytes(&self) -> (n: usize) {
        self.inner.page_size_bytes()
    }

    fn can_alloc(&self) -> (b: bool) {
        self.inner.can_alloc()
    }

    fn alloc_page(&mut self) -> (page: TestPageRef)
        ensures
            page.spec_index() == old(self).spec_handed_out(),
            final(self).spec_handed_out() == old(self).spec_handed_out() + 1,
            forall|p: TestPageRef|
                p.spec_index() < old(self).spec_handed_out() && !old(self).is_live(p)
                    ==> !#[trigger] final(self).is_live(p),
    {
        self.inner.alloc_pages(1)
    }

    fn alloc_pages(&mut self, n_pages: u16) -> (page: TestPageRef)
        ensures
            page.spec_index() == old(self).spec_handed_out(),
            final(self).spec_handed_out() == old(self).spec_handed_out() + 1,
            forall|p: TestPageRef|
                p.spec_index() < old(self).spec_handed_out() && !old(self).is_live(p)
                    ==> !#[trigger] final(self).is_live(p),
    {
        self.inner.alloc_pages(n_pages)
    }

    fn free(&mut self, page: TestPageRef)
        ensures
            final(self).spec_handed_out() == old(self).spec_handed_out(),
            !final(self).is_live(page),
            forall|p: TestPageRef| !old(self).is_live(p) ==> !#[trigger] final(self).is_live(p),
    {
        self.inner.free(page)
    }

    fn get_address_page_start(&self, addr: usize) -> (start: usize) {
        self.inner.get_address_page_start(addr)
    }

    fn in_static_heap(&self, addr: usize) -> (b: bool) {
        self.inner.in_static_heap(addr)
    }

    fn write_word(&mut self, addr: usize, w: u32) {
        self.inner.write_word(addr, w)
    }

    fn page_at(&self, start: usize) -> (page: TestPageRef) {
        self.inner.page_at(start)
    }

    fn page_start(&self, page: &TestPageRef) -> (a: usize) {
        page.start(self)
    }

    fn page_contents_start(&self, page: &TestPageRef) -> (a: usize) {
        page.contents_start(self)
    }

    fn page_end(&self, page: &TestPageRef) -> (a: usize) {
        page.end(self)
    }

    fn get_bitmap(&self, start: usize) -> (bitmap: Option<&Bitmap>) {
        self.inner.get_bitmap(start)
    }

    fn set_bitmap(&mut self, start: usize, bitmap: Option<Bitmap>) {
        self.inner.set_bitmap(start, bitmap)
    }

    fn take_bitmap(&mut self, start: usize) -> (bitmap: Option<Bitmap>) {
        self.inner.take_bitmap(start)
    }
}

} // verus!
