use vstd::prelude::*;
use crate::bitmap::Bitmap;

verus! {

/// Size of the header at the start of every page, in bytes.  The header is
/// reserved for the allocator; the contents area begins right after it.
pub const PAGE_HEADER_SIZE: usize = 8;

/// Read access to a word-addressed memory: a partial map from word-aligned
/// byte addresses to 32-bit words.
pub trait WordMemory {
    /// The memory is in a consistent state.
    spec fn wf(&self) -> bool;

    /// The mapped words, by byte address.
    spec fn words(&self) -> Map<int, u32>;

    /// Mapped addresses are word-aligned and lie in the 32-bit address space.
    proof fn lemma_mapped(&self, addr: int)
        requires
            self.wf(),
            self.words().dom().contains(addr),
        ensures
            addr % 4 == 0,
            0 <= addr,
            addr + 4 <= 0xffff_ffff,
    ;

    /// Whether `addr` is mapped.
    fn contains(&self, addr: usize) -> (b: bool)
        requires
            self.wf(),
        ensures
            b == self.words().dom().contains(addr as int),
    ;

    /// The word at `addr`.
    fn read_word(&self, addr: usize) -> (w: u32)
        requires
            self.wf(),
            self.words().dom().contains(addr as int),
        ensures
            w == self.words()[addr as int],
    ;
}

/// Every word of `before` is still there in `after`, unchanged.
pub open spec fn preserved(before: Map<int, u32>, after: Map<int, u32>) -> bool {
    forall|a: int| #[trigger]
        before.dom().contains(a) ==> after.dom().contains(a) && after[a] == before[a]
}

/// The two memories agree on every address that `region` holds.
pub open spec fn preserved_on(before: Map<int, u32>, after: Map<int, u32>, region: Set<int>) -> bool {
    forall|a: int|
        #![trigger region.contains(a)]
        #![trigger after.dom().contains(a)]
        #![trigger before.dom().contains(a)]
        region.contains(a) && before.dom().contains(a) ==> after.dom().contains(a) && after[a]
            == before[a]
}

/// The byte addresses `lo <= a < hi` are in `after` and were not in
/// `before`.
pub open spec fn fresh_range(before: Set<int>, after: Set<int>, lo: int, hi: int) -> bool {
    forall|a: int|
        #![trigger before.contains(a)]
        #![trigger after.contains(a)]
        lo <= a < hi ==> !before.contains(a) && after.contains(a)
}

/// The word-aligned addresses `lo <= a < hi` are all mapped.
pub open spec fn mapped_range(words: Map<int, u32>, lo: int, hi: int) -> bool {
    forall|a: int| lo <= a < hi && a % 4 == 0 ==> #[trigger] words.dom().contains(a)
}

/// The word-aligned addresses `lo <= a < hi` are all mapped and hold zero.
pub open spec fn zeroed_range(words: Map<int, u32>, lo: int, hi: int) -> bool {
    forall|a: int| lo <= a < hi && a % 4 == 0 ==> #[trigger] words.dom().contains(a) && words[a] == 0
}

/// The word-aligned addresses `lo <= a < hi`.
pub open spec fn word_range(lo: int, hi: int) -> Set<int> {
    Set::new(|a: int| lo <= a < hi && a % 4 == 0)
}

/// A page allocator together with the memory that its pages make up.
///
/// Pages have one size, never overlap, and are named by their start address.
/// Each live page may carry a mark bitmap in its header.
pub trait PageAlloc: WordMemory + Sized {
    /// The handle of a page.
    type Page: Copy;

    /// Size of a page in bytes, the header included.
    spec fn page_size(&self) -> int;

    /// Start addresses of the live pages.
    spec fn live(&self) -> Set<int>;

    /// The number of pages that can still be handed out.
    spec fn remaining(&self) -> nat;

    /// Start address of the live page that holds the mapped address `addr`.
    spec fn page_containing(&self, addr: int) -> int;

    /// Whether `addr` lies in the static partition, which holds no page.
    spec fn is_static(&self, addr: int) -> bool;

    /// The bitmap in the header of the live page that starts at `start`.
    spec fn bitmap(&self, start: int) -> Option<Bitmap>;

    /// Start address of the page that a handle names.
    spec fn start_of(page: Self::Page) -> int;

    /// Whether the handle names a live page of this allocator.
    spec fn is_live(&self, page: Self::Page) -> bool;

    /// The page size is a whole number of words and leaves room after the
    /// header.
    proof fn lemma_page_size(&self)
        requires
            self.wf(),
        ensures
            PAGE_HEADER_SIZE < self.page_size() < 0x1_0000_0000,
            self.page_size() % 4 == 0,
    ;

    /// A live page is word-aligned, lies in the address space above address
    /// zero, and holds no static address.
    proof fn lemma_live_page(&self, start: int)
        requires
            self.wf(),
            self.live().contains(start),
        ensures
            start % 4 == 0,
            0 < start,
            start + self.page_size() <= 0xffff_ffff,
    ;

    /// A live handle names a live page.
    proof fn lemma_live_handle(&self, page: Self::Page)
        requires
            self.wf(),
            self.is_live(page),
        ensures
            self.live().contains(Self::start_of(page)),
    ;

    /// A mapped address outside the static partition lies in the live page
    /// that `page_containing` names.
    proof fn lemma_mapped_in_page(&self, addr: int)
        requires
            self.wf(),
            self.words().dom().contains(addr),
            !self.is_static(addr),
        ensures
            self.live().contains(self.page_containing(addr)),
            self.page_containing(addr) <= addr < self.page_containing(addr) + self.page_size(),
    ;

    /// Every word-aligned address of a live page is mapped, is not static, and
    /// belongs to that page alone.
    proof fn lemma_page_mapped(&self, start: int, addr: int)
        requires
            self.wf(),
            self.live().contains(start),
            start <= addr < start + self.page_size(),
            addr % 4 == 0,
        ensures
            self.words().dom().contains(addr),
            !self.is_static(addr),
            self.page_containing(addr) == start,
    ;

    /// A static address lies in no live page.
    proof fn lemma_page_mapped_static(&self, start: int, addr: int)
        requires
            self.wf(),
            self.live().contains(start),
            self.is_static(addr),
        ensures
            !(start <= addr < start + self.page_size()),
    ;

    /// The page size in bytes.
    fn page_size_bytes(&self) -> (n: usize)
        requires
            self.wf(),
        ensures
            n == self.page_size(),
    ;

    /// Whether a page can still be handed out.
    fn can_alloc(&self) -> (b: bool)
        requires
            self.wf(),
        ensures
            b == (self.remaining() > 0),
    ;

    /// Hands out a fresh page, all zero and without a bitmap.  The pages that
    /// were live stay as they are.
    fn alloc_page(&mut self) -> (page: Self::Page)
        requires
            old(self).wf(),
            old(self).remaining() > 0,
        ensures
            final(self).wf(),
            final(self).page_size() == old(self).page_size(),
            forall|a: int|
                #![trigger final(self).is_static(a)]
                #![trigger old(self).is_static(a)]
                final(self).is_static(a) == old(self).is_static(a),
            final(self).is_live(page),
            !old(self).live().contains(Self::start_of(page)),
            final(self).live() == old(self).live().insert(Self::start_of(page)),
            final(self).remaining() == old(self).remaining() - 1,
            preserved(old(self).words(), final(self).words()),
            zeroed_range(
                final(self).words(),
                Self::start_of(page),
                Self::start_of(page) + old(self).page_size(),
            ),
            forall|a: int| #[trigger]
                final(self).words().dom().contains(a) ==> old(self).words().dom().contains(a) || (
                Self::start_of(page) <= a < Self::start_of(page) + old(self).page_size()),
            forall|a: int|
                Self::start_of(page) <= a < Self::start_of(page) + old(self).page_size()
                    ==> !#[trigger] old(self).words().dom().contains(a),
            final(self).bitmap(Self::start_of(page)) is None,
            forall|s: int| #[trigger]
                old(self).live().contains(s) ==> final(self).bitmap(s) == old(self).bitmap(s),
            forall|p: Self::Page| #[trigger] old(self).is_live(p) ==> final(self).is_live(p),
    ;

    /// Hands out a block for `n_pages` pages.  An allocator may fuse the
    /// pages into one; what it hands out is a fresh page as `alloc_page`
    /// gives it.
    fn alloc_pages(&mut self, n_pages: u16) -> (page: Self::Page)
        requires
            old(self).wf(),
            old(self).remaining() > 0,
        ensures
            final(self).wf(),
            final(self).page_size() == old(self).page_size(),
            forall|a: int|
                #![trigger final(self).is_static(a)]
                #![trigger old(self).is_static(a)]
                final(self).is_static(a) == old(self).is_static(a),
            final(self).is_live(page),
            !old(self).live().contains(Self::start_of(page)),
            final(self).live() == old(self).live().insert(Self::start_of(page)),
            final(self).remaining() == old(self).remaining() - 1,
            preserved(old(self).words(), final(self).words()),
            zeroed_range(
                final(self).words(),
                Self::start_of(page),
                Self::start_of(page) + old(self).page_size(),
            ),
            forall|a: int| #[trigger]
                final(self).words().dom().contains(a) ==> old(self).words().dom().contains(a) || (
                Self::start_of(page) <= a < Self::start_of(page) + old(self).page_size()),
            forall|a: int|
                Self::start_of(page) <= a < Self::start_of(page) + old(self).page_size()
                    ==> !#[trigger] old(self).words().dom().contains(a),
            final(self).bitmap(Self::start_of(page)) is None,
            forall|s: int| #[trigger]
                old(self).live().contains(s) ==> final(self).bitmap(s) == old(self).bitmap(s),
            forall|p: Self::Page| #[trigger] old(self).is_live(p) ==> final(self).is_live(p),
    ;

    /// Takes a page back.  Its addresses are unmapped; all other pages stay as
    /// they are.
    fn free(&mut self, page: Self::Page)
        requires
            old(self).wf(),
            old(self).is_live(page),
        ensures
            final(self).wf(),
            final(self).page_size() == old(self).page_size(),
            forall|a: int|
                #![trigger final(self).is_static(a)]
                #![trigger old(self).is_static(a)]
                final(self).is_static(a) == old(self).is_static(a),
            final(self).live() == old(self).live().remove(Self::start_of(page)),
            final(self).remaining() >= old(self).remaining(),
            preserved(final(self).words(), old(self).words()),
            forall|a: int| #[trigger]
                old(self).words().dom().contains(a) && !(Self::start_of(page) <= a
                    < Self::start_of(page) + old(self).page_size())
                    ==> final(self).words().dom().contains(a),
            forall|a: int|
                Self::start_of(page) <= a < Self::start_of(page) + old(self).page_size()
                    ==> !#[trigger] final(self).words().dom().contains(a),
            forall|s: int| #[trigger]
                final(self).live().contains(s) ==> final(self).bitmap(s) == old(self).bitmap(s),
            forall|p: Self::Page| #[trigger]
                old(self).is_live(p) && Self::start_of(p) != Self::start_of(page)
                    ==> final(self).is_live(p),
    ;

    /// Start of the live page that holds the mapped, non-static address
    /// `addr`.
    fn get_address_page_start(&self, addr: usize) -> (start: usize)
        requires
            self.wf(),
            self.words().dom().contains(addr as int),
            !self.is_static(addr as int),
        ensures
            start == self.page_containing(addr as int),
    ;

    /// Whether `addr` lies in the static partition.
    fn in_static_heap(&self, addr: usize) -> (b: bool)
        requires
            self.wf(),
        ensures
            b == self.is_static(addr as int),
    ;

    /// Stores `w` at `addr`.  Nothing else changes.
    fn write_word(&mut self, addr: usize, w: u32)
        requires
            old(self).wf(),
            old(self).words().dom().contains(addr as int),
        ensures
            final(self).wf(),
            final(self).words() == old(self).words().insert(addr as int, w),
            final(self).page_size() == old(self).page_size(),
            forall|a: int|
                #![trigger final(self).is_static(a)]
                #![trigger old(self).is_static(a)]
                final(self).is_static(a) == old(self).is_static(a),
            final(self).live() == old(self).live(),
            final(self).remaining() == old(self).remaining(),
            forall|p: Self::Page|
                #![trigger final(self).is_live(p)]
                #![trigger old(self).is_live(p)]
                final(self).is_live(p) == old(self).is_live(p),
            forall|s: int|
                #![trigger final(self).bitmap(s)]
                #![trigger old(self).bitmap(s)]
                final(self).bitmap(s) == old(self).bitmap(s),
    ;

    /// The handle of the live page that starts at `start`.
    fn page_at(&self, start: usize) -> (page: Self::Page)
        requires
            self.wf(),
            self.live().contains(start as int),
        ensures
            Self::start_of(page) == start,
            self.is_live(page),
    ;

    /// Start address of a live page.
    fn page_start(&self, page: &Self::Page) -> (a: usize)
        requires
            self.wf(),
            self.is_live(*page),
        ensures
            a == Self::start_of(*page),
    ;

    /// Address of the first word after the header of a live page.
    fn page_contents_start(&self, page: &Self::Page) -> (a: usize)
        requires
            self.wf(),
            self.is_live(*page),
        ensures
            a == Self::start_of(*page) + PAGE_HEADER_SIZE,
    ;

    /// Address one past the last byte of a live page.
    fn page_end(&self, page: &Self::Page) -> (a: usize)
        requires
            self.wf(),
            self.is_live(*page),
        ensures
            a == Self::start_of(*page) + self.page_size(),
    ;

    /// The bitmap of the live page that starts at `start`, if it has one.
    fn get_bitmap(&self, start: usize) -> (bitmap: Option<&Bitmap>)
        requires
            self.wf(),
            self.live().contains(start as int),
        ensures
            match bitmap {
                Some(b) => self.bitmap(start as int) == Some(*b),
                None => self.bitmap(start as int) is None,
            },
    ;

    /// Puts `bitmap` into the header of the live page that starts at
    /// `start`, in place of what was there.
    fn set_bitmap(&mut self, start: usize, bitmap: Option<Bitmap>)
        requires
            old(self).wf(),
            old(self).live().contains(start as int),
        ensures
            final(self).wf(),
            final(self).words() == old(self).words(),
            final(self).page_size() == old(self).page_size(),
            forall|a: int|
                #![trigger final(self).is_static(a)]
                #![trigger old(self).is_static(a)]
                final(self).is_static(a) == old(self).is_static(a),
            final(self).live() == old(self).live(),
            final(self).remaining() == old(self).remaining(),
            forall|p: Self::Page|
                #![trigger final(self).is_live(p)]
                #![trigger old(self).is_live(p)]
                final(self).is_live(p) == old(self).is_live(p),
            final(self).bitmap(start as int) == bitmap,
            forall|s: int|
                #![trigger final(self).bitmap(s)]
                #![trigger old(self).bitmap(s)]
                s != start ==> final(self).bitmap(s) == old(self).bitmap(s),
    ;

    /// Takes the bitmap out of the header of the live page that starts at
    /// `start`, and leaves the header without one.
    fn take_bitmap(&mut self, start: usize) -> (bitmap: Option<Bitmap>)
        requires
            old(self).wf(),
            old(self).live().contains(start as int),
        ensures
            final(self).wf(),
            final(self).words() == old(self).words(),
            final(self).page_size() == old(self).page_size(),
            forall|a: int|
                #![trigger final(self).is_static(a)]
                #![trigger old(self).is_static(a)]
                final(self).is_static(a) == old(self).is_static(a),
            final(self).live() == old(self).live(),
            final(self).remaining() == old(self).remaining(),
            forall|p: Self::Page|
                #![trigger final(self).is_live(p)]
                #![trigger old(self).is_live(p)]
                final(self).is_live(p) == old(self).is_live(p),
            bitmap == old(self).bitmap(start as int),
            final(self).bitmap(start as int) is None,
            forall|s: int|
                #![trigger final(self).bitmap(s)]
                #![trigger old(self).bitmap(s)]
                s != start ==> final(self).bitmap(s) == old(self).bitmap(s),
    ;
}

} // verus!

verus! {

/// The memory `words` with a zeroed page of `size` bytes added at `start`.
pub open spec fn with_zero_page(words: Map<int, u32>, start: int, size: int) -> Map<int, u32> {
    Map::new(
        |a: int| words.dom().contains(a) || (start <= a < start + size && a % 4 == 0),
        |a: int|
            if words.dom().contains(a) {
                words[a]
            } else {
                0u32
            },
    )
}

/// The pages of `after` are those of `before` and the fresh page `page`,
/// which has no bitmap; the pages of `before` keep their bitmaps.
pub open spec fn page_added<P: PageAlloc>(before: &P, after: &P, page: P::Page) -> bool {
    let start = P::start_of(page);
    &&& same_config(before, after)
    &&& after.is_live(page)
    &&& !before.live().contains(start)
    &&& after.live() == before.live().insert(start)
    &&& after.remaining() == before.remaining() - 1
    &&& after.bitmap(start) is None
    &&& forall|s: int| #[trigger] before.live().contains(s) ==> after.bitmap(s) == before.bitmap(s)
    &&& forall|p: P::Page| #[trigger] before.is_live(p) ==> after.is_live(p)
}

/// What `alloc_page` says of the words, as an equation: the memory after it
/// is the memory before it with a zeroed page added.
pub proof fn lemma_words_after_alloc_page<P: PageAlloc>(
    before: Map<int, u32>,
    after: Map<int, u32>,
    start: int,
    size: int,
)
    requires
        preserved(before, after),
        zeroed_range(after, start, start + size),
        forall|a: int| #[trigger]
            after.dom().contains(a) ==> before.dom().contains(a) || (start <= a < start + size),
        forall|a: int| after.dom().contains(a) ==> a % 4 == 0,
    ensures
        after == with_zero_page(before, start, size),
{
    assert(after =~= with_zero_page(before, start, size));
}

} // verus!

verus! {

/// The page size and the static partition are those of `before`.
pub open spec fn same_config<P: PageAlloc>(before: &P, after: &P) -> bool {
    &&& after.page_size() == before.page_size()
    &&& forall|a: int|
        #![trigger after.is_static(a)]
        #![trigger before.is_static(a)]
        after.is_static(a) == before.is_static(a)
}

/// The same pages are live, under the same handles, and as many can still be
/// handed out.
pub open spec fn same_pages<P: PageAlloc>(before: &P, after: &P) -> bool {
    &&& same_config(before, after)
    &&& after.live() == before.live()
    &&& after.remaining() == before.remaining()
    &&& forall|p: P::Page|
        #![trigger after.is_live(p)]
        #![trigger before.is_live(p)]
        after.is_live(p) == before.is_live(p)
}

/// Every page header holds the bitmap that it held.
pub open spec fn same_bitmaps<P: PageAlloc>(before: &P, after: &P) -> bool {
    forall|s: int|
        #![trigger after.bitmap(s)]
        #![trigger before.bitmap(s)]
        after.bitmap(s) == before.bitmap(s)
}

} // verus!
