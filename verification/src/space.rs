use vstd::prelude::*;
use crate::constants::MAX_ARRAY_LEN;
use crate::page_alloc::{
    lemma_words_after_alloc_page, page_added, preserved, same_bitmaps, same_pages, with_zero_page,
    PageAlloc, WordMemory, PAGE_HEADER_SIZE,
};
use crate::types::{
    bytes_to_words, Bytes, Value, Words, TAG_ARRAY, TAG_BLOB, TAG_FREE_SPACE, TAG_ONE_WORD_FILLER,
};

verus! {

/// An append-only allocation area: a list of pages of one allocator, the
/// last of which is the one that is being filled.
pub struct Space<P: PageAlloc> {
    /// Page allocator, with the memory of all its pages
    pub page_alloc: P,
    /// Pages in the space
    pub pages: Vec<P::Page>,
    /// Index of the current page
    pub current_page: usize,
    /// Allocation pointer in the current page
    pub hp: usize,
    /// Total amount allocated in this space so far, in bytes.  The rest of a
    /// page that is left behind counts as allocated.  The counter stops at
    /// the largest value that it can hold.
    pub total_alloc: usize,
}

/// The position of a page in a space.
#[derive(Debug, Clone, Copy, PartialEq, Eq, Structural)]
pub struct PageIdx(pub usize);

impl PageIdx {
    /// The position after this one.
    pub fn next(self) -> (idx: PageIdx)
        requires
            self.0 < usize::MAX,
        ensures
            idx.0 == self.0 + 1,
    {
        PageIdx(self.0 + 1)
    }
}

/// The words `words` after the rest of a page, `slop` bytes from `hp` on, was
/// closed with a filler: nothing for an empty rest, a one-word filler for a
/// rest of one word, and else a free-space object that spans the rest.
pub open spec fn with_filler(words: Map<int, u32>, hp: int, slop: int) -> Map<int, u32> {
    if slop == 0 {
        words
    } else if slop == 4 {
        words.insert(hp, TAG_ONE_WORD_FILLER)
    } else {
        words.insert(hp, TAG_FREE_SPACE).insert(hp + 4, (slop / 4) as u32)
    }
}

/// `a + b`, or the largest value where the sum does not fit.
pub open spec fn saturating_sum(a: int, b: int) -> int {
    if a + b <= usize::MAX {
        a + b
    } else {
        usize::MAX as int
    }
}

fn saturating_add(a: usize, b: usize) -> (c: usize)
    ensures
        c == saturating_sum(a as int, b as int),
{
    if b <= usize::MAX - a {
        a + b
    } else {
        usize::MAX
    }
}

impl<P: PageAlloc> Space<P> {
    /// Start address of the page at position `i`.
    pub open spec fn start(&self, i: int) -> int {
        P::start_of(self.pages@[i])
    }

    /// Address of the first word after the header of the page at position `i`.
    pub open spec fn contents_start(&self, i: int) -> int {
        self.start(i) + PAGE_HEADER_SIZE
    }

    /// Address one past the page at position `i`.
    pub open spec fn end(&self, i: int) -> int {
        self.start(i) + self.page_alloc.page_size()
    }

    /// The bytes of the space that lie before the allocation pointer: the
    /// contents areas of the pages before the current one, whole, and the
    /// contents area of the current page up to the allocation pointer.  This
    /// is what allocation has used up, the rests of the pages that it closed
    /// included.
    pub open spec fn filled(&self) -> int {
        (self.pages@.len() - 1) * (self.page_alloc.page_size() - PAGE_HEADER_SIZE) + (self.hp
            - self.contents_start(self.current_page as int))
    }

    /// The pages are live pages of the allocator, no page occurs twice, the
    /// last page is the current one, and the allocation pointer lies in its
    /// contents area.
    pub open spec fn wf(&self) -> bool {
        &&& self.page_alloc.wf()
        &&& self.pages@.len() > 0
        &&& self.current_page == self.pages@.len() - 1
        &&& forall|i: int|
            0 <= i < self.pages@.len() ==> self.page_alloc.is_live(#[trigger] self.pages@[i])
        &&& forall|i: int, j: int|
            0 <= i < j < self.pages@.len() ==> P::start_of(#[trigger] self.pages@[i])
                != P::start_of(#[trigger] self.pages@[j])
        &&& self.contents_start(self.current_page as int) <= self.hp <= self.end(
            self.current_page as int,
        )
        &&& self.hp % 4 == 0
    }

    /// Whether the byte address `a` lies in the used part of the page at
    /// position `i`: in its contents area, and for the current page below the
    /// allocation pointer.
    pub open spec fn used_in(&self, i: int, a: int) -> bool {
        &&& 0 <= i < self.pages@.len()
        &&& self.contents_start(i) <= a
        &&& a < (if i == self.current_page {
            self.hp as int
        } else {
            self.end(i)
        })
    }

    /// The used range of the space.
    pub open spec fn used(&self) -> Set<int> {
        Set::new(|a: int| exists|i: int| self.used_in(i, a))
    }

    /// Whether a request for `n` words can be met: it fits into an empty
    /// page, and where it does not fit into the current page the allocator
    /// has a page left.
    pub open spec fn can_alloc_words(&self, n: Words<u32>) -> bool {
        &&& n.0 * 4 + PAGE_HEADER_SIZE <= self.page_alloc.page_size()
        &&& self.hp + n.0 * 4 > self.end(self.current_page as int)
            ==> self.page_alloc.remaining() > 0
    }

    /// Whether a request for `n` words fits into the current page.
    pub open spec fn fits(&self, n: Words<u32>) -> bool {
        self.hp + n.0 * 4 <= self.end(self.current_page as int)
    }

    /// What an allocation of `n` words with the result `v` changes but for
    /// the words of memory: where the request fits, the allocation pointer
    /// moves on; where it does not, the rest of the page counts as allocated
    /// and a fresh page becomes the current one.
    pub open spec fn alloc_post(&self, after: &Self, n: Words<u32>, v: Value) -> bool {
        let addr = v.spec_get_ptr();
        &&& after.wf()
        &&& v.spec_is_ptr()
        &&& v == Value::spec_from_ptr(addr)
        &&& after.hp == addr + n.0 * 4
        &&& if self.fits(n) {
            &&& addr == self.hp
            &&& after.pages == self.pages
            &&& same_pages(&self.page_alloc, &after.page_alloc)
            &&& same_bitmaps(&self.page_alloc, &after.page_alloc)
            &&& after.total_alloc == saturating_sum(self.total_alloc as int, n.0 * 4)
        } else {
            let slop = self.end(self.current_page as int) - self.hp;
            let page = after.pages@[after.current_page as int];
            &&& after.pages@ == self.pages@.push(page)
            &&& addr == P::start_of(page) + PAGE_HEADER_SIZE
            &&& page_added(&self.page_alloc, &after.page_alloc, page)
            &&& after.total_alloc == saturating_sum(
                saturating_sum(self.total_alloc as int, slop),
                n.0 * 4,
            )
        }
    }

    /// The words of memory after an allocation of `n` words with the result
    /// `v`: unchanged where the request fits; else the rest of the current
    /// page is closed with a filler and the zeroed fresh page is added.
    pub open spec fn words_after_alloc(&self, n: Words<u32>, v: Value) -> Map<int, u32> {
        if self.fits(n) {
            self.page_alloc.words()
        } else {
            with_zero_page(
                with_filler(
                    self.page_alloc.words(),
                    self.hp as int,
                    self.end(self.current_page as int) - self.hp,
                ),
                v.spec_get_ptr() - PAGE_HEADER_SIZE,
                self.page_alloc.page_size(),
            )
        }
    }

    /// A space of one fresh page.
    pub fn new(page_alloc: P) -> (space: Space<P>)
        requires
            page_alloc.wf(),
            page_alloc.remaining() > 0,
        ensures
            space.wf(),
            space.pages@.len() == 1,
            space.hp == space.contents_start(0),
            space.total_alloc == 0,
            page_added(&page_alloc, &space.page_alloc, space.pages@[0]),
            space.page_alloc.words() == with_zero_page(
                page_alloc.words(),
                space.start(0),
                page_alloc.page_size(),
            ),
    {
        let mut page_alloc = page_alloc;
        let ghost before = page_alloc;
        let current_page = page_alloc.alloc_page();
        proof {
            page_alloc.lemma_live_handle(current_page);
            page_alloc.lemma_live_page(P::start_of(current_page));
            page_alloc.lemma_page_size();
            assert forall|a: int| page_alloc.words().dom().contains(a) implies a % 4 == 0 by {
                page_alloc.lemma_mapped(a);
            }
            lemma_words_after_alloc_page::<P>(
                before.words(),
                page_alloc.words(),
                P::start_of(current_page),
                before.page_size(),
            );
        }
        let hp: usize = page_alloc.page_contents_start(&current_page);
        let mut pages: Vec<P::Page> = Vec::new();
        pages.push(current_page);
        Space { page_alloc, pages, current_page: 0, hp, total_alloc: 0 }
    }

    /// Total number of bytes allocated so far.
    pub fn total_alloc(&self) -> (n: usize)
        ensures
            n == self.total_alloc,
    {
        self.total_alloc
    }

    /// The pages of the space, in the order in which they were added.
    pub fn iter_pages(&self) -> (pages: &Vec<P::Page>)
        ensures
            pages@ == self.pages@,
    {
        &self.pages
    }

    /// The page that is being filled.
    pub fn current_page(&self) -> (page: &P::Page)
        requires
            self.wf(),
        ensures
            *page == self.pages@[self.current_page as int],
    {
        &self.pages[self.current_page]
    }

    /// Position of the first page.
    pub fn first_page(&self) -> (idx: PageIdx)
        ensures
            idx.0 == 0,
    {
        PageIdx(0)
    }

    /// Position of the last page.
    pub fn last_page(&self) -> (idx: PageIdx)
        requires
            self.wf(),
        ensures
            idx.0 == self.pages@.len() - 1,
    {
        PageIdx(self.pages.len() - 1)
    }

    /// Position of the page that is being filled.
    pub fn current_page_idx(&self) -> (idx: PageIdx)
        ensures
            idx.0 == self.current_page,
    {
        PageIdx(self.current_page)
    }

    /// The page at position `idx`, if the space has so many pages.
    pub fn get_page(&self, idx: PageIdx) -> (page: Option<&P::Page>)
        ensures
            match page {
                Some(p) => idx.0 < self.pages@.len() && *p == self.pages@[idx.0 as int],
                None => idx.0 >= self.pages@.len(),
            },
    {
        if idx.0 < self.pages.len() {
            Some(&self.pages[idx.0])
        } else {
            None
        }
    }

    /// The allocation pointer.
    pub fn allocation_pointer(&self) -> (hp: usize)
        ensures
            hp == self.hp,
    {
        self.hp
    }

    /// The allocation pointer.
    pub fn hp(&self) -> (hp: usize)
        ensures
            hp == self.hp,
    {
        self.hp
    }

    /// The page allocator of the space.
    pub fn page_alloc(&self) -> (page_alloc: &P)
        ensures
            *page_alloc == self.page_alloc,
    {
        &self.page_alloc
    }

    /// Whether `alloc_words(n)` can be called.
    pub fn can_alloc(&self, n: Words<u32>) -> (b: bool)
        requires
            self.wf(),
        ensures
            b == self.can_alloc_words(n),
    {
        proof {
            self.page_alloc.lemma_page_size();
            self.page_alloc.lemma_live_handle(self.pages@[self.current_page as int]);
            self.page_alloc.lemma_live_page(self.start(self.current_page as int));
        }
        let page_size: usize = self.page_alloc.page_size_bytes();
        if n.0 as usize > (page_size - PAGE_HEADER_SIZE) / 4 {
            return false;
        }
        let bytes: usize = n.0 as usize * 4;
        let end: usize = self.page_alloc.page_end(&self.pages[self.current_page]);
        if bytes > end - self.hp {
            self.page_alloc.can_alloc()
        } else {
            true
        }
    }

    /// Reserves `n` words and returns the pointer to the first of them.
    ///
    /// Where the words fit into the current page they are taken there.
    /// Otherwise the rest of the current page is closed with a filler and
    /// counted as allocated, and the words are taken at the start of a fresh
    /// page, which becomes the current one.
    #[verifier::rlimit(50)]
    pub fn alloc_words(&mut self, n: Words<u32>) -> (v: Value)
        requires
            old(self).wf(),
            old(self).can_alloc_words(n),
        ensures
            old(self).alloc_post(final(self), n, v),
            final(self).page_alloc.words() == old(self).words_after_alloc(n, v),
    {
        proof {
            self.page_alloc.lemma_page_size();
            self.page_alloc.lemma_live_handle(self.pages@[self.current_page as int]);
            self.page_alloc.lemma_live_page(self.start(self.current_page as int));
        }
        let bytes: usize = n.to_bytes().as_usize();

        let current_page_end: usize = self.page_alloc.page_end(self.current_page());

        if bytes > current_page_end - self.hp {
            let slop: usize = current_page_end - self.hp;

            // Rest of the page is considered allocated
            self.total_alloc = saturating_add(self.total_alloc, slop);

            // Fill the slop with a filler object, so that the page can be
            // walked object by object
            proof {
                let start = self.start(self.current_page as int);
                if slop >= 4 {
                    self.page_alloc.lemma_page_mapped(start, self.hp as int);
                }
                if slop >= 8 {
                    self.page_alloc.lemma_page_mapped(start, self.hp + 4);
                }
            }
            if slop == 4 {
                self.page_alloc.write_word(self.hp, TAG_ONE_WORD_FILLER);
            } else if slop != 0 {
                self.page_alloc.write_word(self.hp, TAG_FREE_SPACE);
                self.page_alloc.write_word(self.hp + 4, (slop / 4) as u32);
            }
            let ghost filled = self.page_alloc;
            assert(same_pages(&old(self).page_alloc, &filled));
            assert(filled.words() == with_filler(
                old(self).page_alloc.words(),
                old(self).hp as int,
                slop as int,
            ));

            let new_page = self.page_alloc.alloc_page();
            proof {
                self.page_alloc.lemma_live_handle(new_page);
                self.page_alloc.lemma_live_page(P::start_of(new_page));
                assert forall|i: int| 0 <= i < self.pages@.len() implies P::start_of(
                    #[trigger] self.pages@[i],
                ) != P::start_of(new_page) by {
                    old(self).page_alloc.lemma_live_handle(self.pages@[i]);
                }
                assert forall|a: int| self.page_alloc.words().dom().contains(a) implies a % 4
                    == 0 by {
                    self.page_alloc.lemma_mapped(a);
                }
                lemma_words_after_alloc_page::<P>(
                    filled.words(),
                    self.page_alloc.words(),
                    P::start_of(new_page),
                    filled.page_size(),
                );
            }

            self.hp = self.page_alloc.page_contents_start(&new_page);
            self.pages.push(new_page);
            self.current_page = self.pages.len() - 1;
            proof {
                let n_old = old(self).pages@.len() as int;
                assert forall|i: int| 0 <= i < self.pages@.len() implies self.page_alloc.is_live(
                    #[trigger] self.pages@[i],
                ) by {
                    if i < n_old {
                        assert(self.pages@[i] == old(self).pages@[i]);
                    }
                }
                assert forall|i: int, j: int| 0 <= i < j < self.pages@.len() implies P::start_of(
                    #[trigger] self.pages@[i],
                ) != P::start_of(#[trigger] self.pages@[j]) by {
                    assert(self.pages@[i] == old(self).pages@[i]);
                    if j < n_old {
                        assert(self.pages@[j] == old(self).pages@[j]);
                    }
                }
                assert(self.pages@ =~= old(self).pages@.push(new_page));
                assert(page_added(&old(self).page_alloc, &self.page_alloc, new_page));
            }
        }
        let alloc: usize = self.hp;

        self.hp = self.hp + bytes;

        self.total_alloc = saturating_add(self.total_alloc, bytes);

        Value::from_ptr(alloc)
    }

    /// Allocates an array of `len` fields and writes its tag and length.  The
    /// fields hold what the fresh words hold.
    pub fn alloc_array(&mut self, len: u32) -> (v: Value)
        requires
            old(self).wf(),
            len <= MAX_ARRAY_LEN,
            old(self).can_alloc_words(Words((len + 2) as u32)),
        ensures
            old(self).alloc_post(final(self), Words((len + 2) as u32), v),
            final(self).page_alloc.words() == old(self).words_after_alloc(
                Words((len + 2) as u32),
                v,
            ).insert(v.spec_get_ptr(), TAG_ARRAY).insert(v.spec_get_ptr() + 4, len),
    {
        let skewed_ptr = self.alloc_words(Words(len + 2));
        let ptr: usize = skewed_ptr.get_ptr();
        proof {
            self.lemma_current_mapped(ptr as int);
            self.lemma_current_mapped(ptr + 4);
        }
        self.page_alloc.write_word(ptr, TAG_ARRAY);
        self.page_alloc.write_word(ptr + 4, len);
        skewed_ptr
    }

    /// Allocates a blob of `size` bytes and writes its tag and length.  The
    /// payload holds what the fresh words hold.
    pub fn alloc_blob(&mut self, size: Bytes<u32>) -> (v: Value)
        requires
            old(self).wf(),
            old(self).can_alloc_words(Words((bytes_to_words(size.0 as int) + 2) as u32)),
        ensures
            old(self).alloc_post(
                final(self),
                Words((bytes_to_words(size.0 as int) + 2) as u32),
                v,
            ),
            final(self).page_alloc.words() == old(self).words_after_alloc(
                Words((bytes_to_words(size.0 as int) + 2) as u32),
                v,
            ).insert(v.spec_get_ptr(), TAG_BLOB).insert(v.spec_get_ptr() + 4, size.0),
    {
        let ptr = self.alloc_words(Words(size.to_words().0 + 2));
        let blob: usize = ptr.get_ptr();
        proof {
            self.lemma_current_mapped(blob as int);
            self.lemma_current_mapped(blob + 4);
        }
        self.page_alloc.write_word(blob, TAG_BLOB);
        self.page_alloc.write_word(blob + 4, size.0);
        ptr
    }

    /// The word-aligned addresses of the contents area of the current page
    /// are mapped.
    pub proof fn lemma_current_mapped(&self, addr: int)
        requires
            self.wf(),
            self.contents_start(self.current_page as int) <= addr < self.end(
                self.current_page as int,
            ),
            addr % 4 == 0,
        ensures
            self.page_alloc.words().dom().contains(addr),
            addr + 4 <= 0xffff_ffff,
    {
        let page = self.pages@[self.current_page as int];
        self.page_alloc.lemma_live_handle(page);
        self.page_alloc.lemma_page_mapped(P::start_of(page), addr);
        self.page_alloc.lemma_mapped(addr);
    }

    /// Whether `q` is among the first `n` pages of `pages`.
    pub open spec fn among(pages: Seq<P::Page>, n: int, q: P::Page) -> bool {
        exists|m: int| 0 <= m < n && m < pages.len() && #[trigger] pages[m] == q
    }

    /// The pages stand in the strict order of their addresses.
    pub open spec fn ascending(pages: Seq<P::Page>) -> bool {
        forall|k1: int, k2: int|
            0 <= k1 < k2 < pages.len() ==> P::start_of(#[trigger] pages[k1]) < P::start_of(
                #[trigger] pages[k2],
            )
    }

    proof fn lemma_insert_ascending(
        pages: Seq<P::Page>,
        i: int,
        before: Seq<P::Page>,
        j: int,
        page: P::Page,
    )
        requires
            0 <= i < pages.len(),
            page == pages[i],
            forall|m1: int, m2: int|
                0 <= m1 < m2 < pages.len() ==> P::start_of(#[trigger] pages[m1]) != P::start_of(
                    #[trigger] pages[m2],
                ),
            before.len() == i,
            Self::ascending(before),
            forall|k: int| 0 <= k < before.len() ==> Self::among(pages, i, #[trigger] before[k]),
            forall|m: int| 0 <= m < i ==> Self::among(before, i, #[trigger] pages[m]),
            0 <= j <= i,
            forall|k: int| 0 <= k < j ==> P::start_of(#[trigger] before[k]) < P::start_of(page),
            j == i || P::start_of(before[j]) >= P::start_of(page),
        ensures
            Self::ascending(before.insert(j, page)),
            forall|k: int|
                0 <= k < i + 1 ==> Self::among(pages, i + 1, #[trigger] before.insert(j, page)[k]),
            forall|m: int|
                0 <= m < i + 1 ==> Self::among(before.insert(j, page), i + 1, #[trigger] pages[m]),
    {
        let after = before.insert(j, page);
        assert forall|k: int| j <= k < before.len() implies P::start_of(#[trigger] before[k])
            > P::start_of(page) by {
            assert(Self::among(pages, i, before[k]));
            let m = choose|m: int| 0 <= m < i && m < pages.len() && #[trigger] pages[m] == before[k];
            assert(P::start_of(pages[m]) != P::start_of(pages[i]));
            if k > j {
                assert(P::start_of(before[j]) < P::start_of(before[k]));
            }
        }
        assert forall|k1: int, k2: int| 0 <= k1 < k2 < after.len() implies P::start_of(
            #[trigger] after[k1],
        ) < P::start_of(#[trigger] after[k2]) by {
            let o1 = if k1 < j { k1 } else { k1 - 1 };
            let o2 = if k2 < j { k2 } else { k2 - 1 };
            if k1 != j {
                assert(after[k1] == before[o1]);
            }
            if k2 != j {
                assert(after[k2] == before[o2]);
            }
        }
        assert forall|k: int| 0 <= k < i + 1 implies Self::among(
            pages,
            i + 1,
            #[trigger] after[k],
        ) by {
            if k == j {
                assert(pages[i] == after[k]);
            } else {
                let o = if k < j { k } else { k - 1 };
                assert(after[k] == before[o]);
                assert(Self::among(pages, i, before[o]));
                let m = choose|m: int|
                    0 <= m < i && m < pages.len() && #[trigger] pages[m] == before[o];
                assert(pages[m] == after[k]);
            }
        }
        assert forall|m: int| 0 <= m < i + 1 implies Self::among(
            after,
            i + 1,
            #[trigger] pages[m],
        ) by {
            if m == i {
                assert(after[j] == pages[m]);
            } else {
                assert(Self::among(before, i, pages[m]));
                let o = choose|o: int|
                    0 <= o < i && o < before.len() && #[trigger] before[o] == pages[m];
                let k = if o < j { o } else { o + 1 };
                assert(after[k] == pages[m]);
            }
        }
    }

    /// The words of an allocation of `n` words at `addr`, the last one that
    /// was made, are mapped.
    pub proof fn lemma_current_mapped_init(&self, addr: int, n: int, a: int)
        requires
            self.wf(),
            self.contents_start(self.current_page as int) <= addr,
            addr + 4 * n == self.hp,
            addr <= a < addr + 4 * n,
            a % 4 == 0,
        ensures
            self.page_alloc.words().dom().contains(a),
    {
        self.lemma_current_mapped(a);
    }

    /// The rest of the current page is not in the used range.
    pub proof fn lemma_used_not_slop(&self, a: int)
        requires
            self.wf(),
            self.used().contains(a),
        ensures
            !(self.hp <= a < self.end(self.current_page as int)),
    {
        let i = choose|i: int| self.used_in(i, a);
        if self.hp <= a < self.end(self.current_page as int) {
            self.page_alloc.lemma_page_size();
            self.page_alloc.lemma_live_handle(self.pages@[self.current_page as int]);
            self.page_alloc.lemma_live_page(self.start(self.current_page as int));
            lemma_pages_disjoint(self, i, self.current_page as int, a);
        }
    }

    /// The pages of the space in the order of their addresses.
    #[verifier::rlimit(50)]
    pub fn sorted_pages(&self) -> (sorted: Vec<P::Page>)
        requires
            self.wf(),
        ensures
            sorted@.len() == self.pages@.len(),
            Self::ascending(sorted@),
            forall|k: int|
                0 <= k < sorted@.len() ==> Self::among(
                    self.pages@,
                    self.pages@.len() as int,
                    #[trigger] sorted@[k],
                ),
            forall|i: int|
                0 <= i < self.pages@.len() ==> Self::among(
                    sorted@,
                    sorted@.len() as int,
                    #[trigger] self.pages@[i],
                ),
    {
        let mut sorted: Vec<P::Page> = Vec::new();
        let mut i: usize = 0;
        while i < self.pages.len()
            invariant
                self.wf(),
                i <= self.pages@.len(),
                sorted@.len() == i,
                Self::ascending(sorted@),
                forall|k: int|
                    0 <= k < sorted@.len() ==> Self::among(self.pages@, i as int, #[trigger] sorted@[k]),
                forall|m: int| 0 <= m < i ==> Self::among(sorted@, i as int, #[trigger] self.pages@[m]),
            decreases self.pages@.len() - i,
        {
            let page = self.pages[i];
            let start: usize = self.page_alloc.page_start(&page);
            let mut j: usize = 0;
            while j < sorted.len()
                invariant
                    self.wf(),
                    i < self.pages@.len(),
                    j <= sorted@.len(),
                    sorted@.len() == i,
                    start == P::start_of(page),
                    forall|k: int|
                        0 <= k < sorted@.len() ==> Self::among(
                            self.pages@,
                            i as int,
                            #[trigger] sorted@[k],
                        ),
                    forall|k: int| 0 <= k < j ==> P::start_of(#[trigger] sorted@[k]) < start,
                ensures
                    j <= sorted@.len(),
                    j == sorted@.len() || P::start_of(sorted@[j as int]) >= start,
                decreases sorted@.len() - j,
            {
                proof {
                    let q = sorted@[j as int];
                    assert(Self::among(self.pages@, i as int, q));
                    let m = choose|m: int|
                        0 <= m < i && m < self.pages@.len() && #[trigger] self.pages@[m] == q;
                    assert(self.page_alloc.is_live(self.pages@[m]));
                }
                if self.page_alloc.page_start(&sorted[j]) >= start {
                    break ;
                }
                j = j + 1;
            }
            proof {
                Self::lemma_insert_ascending(self.pages@, i as int, sorted@, j as int, page);
            }
            sorted.insert(j, page);
            i = i + 1;
        }
        sorted
    }

    /// Position of the first page from `from` on whose contents area, its
    /// end included, holds `hp`; the number of pages where there is none.
    pub open spec fn page_holding(pages: Seq<P::Page>, page_size: int, hp: int, from: int) -> int
        decreases pages.len() - from,
    {
        if from < 0 || from >= pages.len() {
            pages.len() as int
        } else if P::start_of(pages[from]) + PAGE_HEADER_SIZE <= hp <= P::start_of(pages[from])
            + page_size {
            from
        } else {
            Self::page_holding(pages, page_size, hp, from + 1)
        }
    }

    /// Writes the outcome of a compaction back: the space keeps the pages of
    /// `pages` up to the one that holds `new_hp`, which becomes the current
    /// page, and gives the pages after it back to the allocator.
    #[verifier::rlimit(50)]
    pub fn set_pages(&mut self, pages: Vec<P::Page>, new_hp: usize)
        requires
            old(self).wf(),
            pages@.len() == old(self).pages@.len(),
            forall|k: int|
                0 <= k < pages@.len() ==> Self::among(
                    old(self).pages@,
                    old(self).pages@.len() as int,
                    #[trigger] pages@[k],
                ),
            forall|k1: int, k2: int|
                0 <= k1 < k2 < pages@.len() ==> P::start_of(#[trigger] pages@[k1]) != P::start_of(
                    #[trigger] pages@[k2],
                ),
            new_hp % 4 == 0,
            Self::page_holding(pages@, old(self).page_alloc.page_size(), new_hp as int, 0)
                < pages@.len(),
        ensures
            final(self).wf(),
            final(self).current_page == Self::page_holding(
                pages@,
                old(self).page_alloc.page_size(),
                new_hp as int,
                0,
            ),
            final(self).pages@ == pages@.take(final(self).current_page + 1),
            final(self).hp == new_hp,
            final(self).total_alloc == old(self).total_alloc,
            crate::page_alloc::same_config(&old(self).page_alloc, &final(self).page_alloc),
            forall|s: int|
                final(self).page_alloc.live().contains(s) <==> old(self).page_alloc.live().contains(
                    s,
                ) && !(exists|k: int|
                    final(self).current_page < k < pages@.len() && P::start_of(pages@[k]) == s),
            preserved(final(self).page_alloc.words(), old(self).page_alloc.words()),
            final(self).page_alloc.remaining() >= old(self).page_alloc.remaining(),
            forall|s: int| #[trigger]
                final(self).page_alloc.live().contains(s) ==> final(self).page_alloc.bitmap(s)
                    == old(self).page_alloc.bitmap(s),
            forall|a: int|
                old(self).page_alloc.is_static(a) && old(self).page_alloc.words().dom().contains(a)
                    ==> #[trigger] final(self).page_alloc.words().dom().contains(a),
    {
        let ghost given = pages@;
        let ghost page_size = self.page_alloc.page_size();
        let mut pages = pages;
        proof {
            assert forall|k: int| 0 <= k < pages@.len() implies self.page_alloc.is_live(
                #[trigger] pages@[k],
            ) by {
                assert(Self::among(old(self).pages@, old(self).pages@.len() as int, pages@[k]));
                let m = choose|m: int|
                    0 <= m < old(self).pages@.len() && #[trigger] old(self).pages@[m] == pages@[k];
                assert(self.page_alloc.is_live(old(self).pages@[m]));
            }
            self.page_alloc.lemma_page_size();
        }
        let mut current: usize = 0;
        while current < pages.len()
            invariant
                pages@ == given,
                self.page_alloc.wf(),
                page_size == self.page_alloc.page_size(),
                current <= pages@.len(),
                forall|k: int| 0 <= k < pages@.len() ==> self.page_alloc.is_live(#[trigger] pages@[k]),
                Self::page_holding(given, page_size, new_hp as int, 0) == Self::page_holding(
                    given,
                    page_size,
                    new_hp as int,
                    current as int,
                ),
                Self::page_holding(given, page_size, new_hp as int, 0) < given.len(),
            ensures
                current == Self::page_holding(given, page_size, new_hp as int, 0),
                current < given.len(),
                P::start_of(given[current as int]) + PAGE_HEADER_SIZE <= new_hp <= P::start_of(
                    given[current as int],
                ) + page_size,
            decreases pages@.len() - current,
        {
            proof {
                self.page_alloc.lemma_live_handle(pages@[current as int]);
                self.page_alloc.lemma_live_page(P::start_of(pages@[current as int]));
            }
            let contents_start: usize = self.page_alloc.page_contents_start(&pages[current]);
            let end: usize = self.page_alloc.page_end(&pages[current]);
            if contents_start <= new_hp && new_hp <= end {
                break ;
            }
            current = current + 1;
        }
        while pages.len() > current + 1
            invariant
                old(self).wf(),
                current < pages@.len() <= given.len(),
                pages@ == given.take(pages@.len() as int),
                self.page_alloc.wf(),
                self.total_alloc == old(self).total_alloc,
                page_size == self.page_alloc.page_size(),
                crate::page_alloc::same_config(&old(self).page_alloc, &self.page_alloc),
                forall|k1: int, k2: int|
                    0 <= k1 < k2 < given.len() ==> P::start_of(#[trigger] given[k1]) != P::start_of(
                        #[trigger] given[k2],
                    ),
                forall|k: int| 0 <= k < pages@.len() ==> self.page_alloc.is_live(#[trigger] pages@[k]),
                forall|s: int|
                    self.page_alloc.live().contains(s) <==> old(self).page_alloc.live().contains(s)
                        && !(exists|k: int|
                        pages@.len() <= k < given.len() && P::start_of(given[k]) == s),
                preserved(self.page_alloc.words(), old(self).page_alloc.words()),
                self.page_alloc.remaining() >= old(self).page_alloc.remaining(),
                forall|s: int| #[trigger]
                    self.page_alloc.live().contains(s) ==> self.page_alloc.bitmap(s) == old(
                        self,
                    ).page_alloc.bitmap(s),
                forall|a: int|
                    old(self).page_alloc.is_static(a) && old(self).page_alloc.words().dom().contains(
                        a,
                    ) ==> #[trigger] self.page_alloc.words().dom().contains(a),
            decreases pages@.len(),
        {
            let ghost prev = self.page_alloc;
            let ghost n = pages@.len() as int;
            let page = pages.pop().unwrap();
            assert(page == given[n - 1]);
            assert(self.page_alloc.is_live(page));
            self.page_alloc.free(page);
            proof {
                assert forall|a: int|
                    old(self).page_alloc.is_static(a) && old(self).page_alloc.words().dom().contains(
                        a,
                    ) implies #[trigger] self.page_alloc.words().dom().contains(a) by {
                    assert(prev.words().dom().contains(a));
                    prev.lemma_live_handle(page);
                    prev.lemma_page_mapped_static(P::start_of(page), a);
                }
                assert forall|k: int| 0 <= k < pages@.len() implies self.page_alloc.is_live(
                    #[trigger] pages@[k],
                ) by {
                    assert(pages@[k] == given[k]);
                    assert(prev.is_live(given[k]));
                }
                assert forall|s: int|
                    self.page_alloc.live().contains(s) <==> old(self).page_alloc.live().contains(s)
                        && !(exists|k: int|
                        pages@.len() <= k < given.len() && P::start_of(given[k]) == s) by {
                    if prev.live().contains(s) && s != P::start_of(page) {
                        if exists|k: int|
                            pages@.len() <= k < given.len() && P::start_of(given[k]) == s {
                            let k = choose|k: int|
                                pages@.len() <= k < given.len() && P::start_of(given[k]) == s;
                            assert(n <= k < given.len() && P::start_of(given[k]) == s);
                        }
                    }
                    if s == P::start_of(page) {
                        assert(P::start_of(given[n - 1]) == s);
                    }
                }
            }
        }
        proof {
            assert(pages@ =~= given.take(current + 1));
            self.page_alloc.lemma_live_handle(pages@[current as int]);
            self.page_alloc.lemma_live_page(P::start_of(pages@[current as int]));
            assert forall|i: int, j: int| 0 <= i < j < pages@.len() implies P::start_of(
                #[trigger] pages@[i],
            ) != P::start_of(#[trigger] pages@[j]) by {
                assert(pages@[i] == given[i] && pages@[j] == given[j]);
            }
        }
        self.pages = pages;
        self.current_page = current;
        self.hp = new_hp;
    }

    /// Frees all pages of the space and hands the allocator back.
    #[verifier::rlimit(50)]
    pub fn free(self) -> (page_alloc: P)
        requires
            self.wf(),
        ensures
            page_alloc.wf(),
            crate::page_alloc::same_config(&self.page_alloc, &page_alloc),
            forall|s: int|
                page_alloc.live().contains(s) <==> self.page_alloc.live().contains(s) && !(
                exists|i: int| 0 <= i < self.pages@.len() && self.start(i) == s),
            preserved(page_alloc.words(), self.page_alloc.words()),
            page_alloc.remaining() >= self.page_alloc.remaining(),
            forall|s: int| #[trigger]
                page_alloc.live().contains(s) ==> page_alloc.bitmap(s) == self.page_alloc.bitmap(s),
    {
        let ghost before = self;
        let mut space = self;
        while space.pages.len() > 0
            invariant
                space.page_alloc.wf(),
                space.pages@.len() <= before.pages@.len(),
                space.pages@ == before.pages@.take(space.pages@.len() as int),
                before.wf(),
                crate::page_alloc::same_config(&before.page_alloc, &space.page_alloc),
                forall|i: int|
                    0 <= i < space.pages@.len() ==> space.page_alloc.is_live(
                        #[trigger] space.pages@[i],
                    ),
                forall|s: int|
                    space.page_alloc.live().contains(s) <==> before.page_alloc.live().contains(s)
                        && !(exists|i: int|
                        space.pages@.len() <= i < before.pages@.len() && before.start(i) == s),
                preserved(space.page_alloc.words(), before.page_alloc.words()),
                space.page_alloc.remaining() >= before.page_alloc.remaining(),
                forall|s: int| #[trigger]
                    space.page_alloc.live().contains(s) ==> space.page_alloc.bitmap(s)
                        == before.page_alloc.bitmap(s),
            decreases space.pages@.len(),
        {
            let ghost prev = space.page_alloc;
            let ghost n = space.pages@.len() as int;
            let page = space.pages.pop().unwrap();
            assert(page == before.pages@[n - 1]);
            assert(space.page_alloc.is_live(page));
            space.page_alloc.free(page);
            proof {
                assert forall|i: int| 0 <= i < space.pages@.len() implies space.page_alloc.is_live(
                    #[trigger] space.pages@[i],
                ) by {
                    assert(space.pages@[i] == before.pages@[i]);
                    assert(prev.is_live(before.pages@[i]));
                }
                assert forall|s: int|
                    space.page_alloc.live().contains(s) <==> before.page_alloc.live().contains(s)
                        && !(exists|i: int|
                        space.pages@.len() <= i < before.pages@.len() && before.start(i)
                            == s) by {
                    if prev.live().contains(s) && s != P::start_of(page) {
                        if exists|i: int|
                            space.pages@.len() <= i < before.pages@.len() && before.start(i) == s {
                            let i = choose|i: int|
                                space.pages@.len() <= i < before.pages@.len() && before.start(i)
                                    == s;
                            assert(n <= i < before.pages@.len() && before.start(i) == s);
                        }
                    }
                    if s == P::start_of(page) {
                        assert(before.start(n - 1) == s);
                    }
                }
            }
        }
        space.page_alloc
    }
}

} // verus!

verus! {

/// What an allocation hands out is fresh: its words were not in the used
/// range before and are in it afterwards, the used range only grows, and the
/// address is word-aligned.
pub proof fn lemma_alloc_fresh<P: PageAlloc>(
    before: &Space<P>,
    after: &Space<P>,
    n: Words<u32>,
    v: Value,
)
    requires
        before.wf(),
        before.can_alloc_words(n),
        before.alloc_post(after, n, v),
    ensures
        v.spec_get_ptr() % 4 == 0,
        forall|a: int|
            v.spec_get_ptr() <= a < v.spec_get_ptr() + n.0 * 4 ==> !before.used().contains(a)
                && after.used().contains(a),
        forall|a: int| before.used().contains(a) ==> after.used().contains(a),
{
    let addr = v.spec_get_ptr();
    let cur = before.current_page as int;
    before.page_alloc.lemma_page_size();
    before.page_alloc.lemma_live_handle(before.pages@[cur]);
    before.page_alloc.lemma_live_page(before.start(cur));
    if before.fits(n) {
        assert forall|a: int| addr <= a < addr + n.0 * 4 implies !before.used().contains(a)
            && after.used().contains(a) by {
            assert(after.used_in(cur, a));
            if before.used().contains(a) {
                let i = choose|i: int| before.used_in(i, a);
                lemma_pages_disjoint(before, i, cur, a);
            }
        }
        assert forall|a: int| before.used().contains(a) implies after.used().contains(a) by {
            let i = choose|i: int| before.used_in(i, a);
            assert(after.used_in(i, a));
        }
    } else {
        let new = after.current_page as int;
        let page = after.pages@[new];
        after.page_alloc.lemma_live_handle(page);
        after.page_alloc.lemma_live_page(P::start_of(page));
        assert forall|a: int| addr <= a < addr + n.0 * 4 implies !before.used().contains(a)
            && after.used().contains(a) by {
            assert(after.used_in(new, a));
            if before.used().contains(a) {
                let i = choose|i: int| before.used_in(i, a);
                assert(after.pages@[i] == before.pages@[i]);
                assert(after.end(i) == before.end(i));
                lemma_pages_disjoint(after, i, new, a);
            }
        }
        assert forall|a: int| before.used().contains(a) implies after.used().contains(a) by {
            let i = choose|i: int| before.used_in(i, a);
            assert(after.pages@[i] == before.pages@[i]);
            assert(after.used_in(i, a));
        }
    }
}

/// No byte address lies in two pages of a space.
pub proof fn lemma_pages_disjoint<P: PageAlloc>(space: &Space<P>, i: int, j: int, a: int)
    requires
        space.wf(),
        0 <= i < space.pages@.len(),
        0 <= j < space.pages@.len(),
        space.start(i) <= a < space.end(i),
        space.start(j) <= a < space.end(j),
    ensures
        i == j,
{
    let w = a - a % 4;
    space.page_alloc.lemma_page_size();
    space.page_alloc.lemma_live_handle(space.pages@[i]);
    space.page_alloc.lemma_live_handle(space.pages@[j]);
    space.page_alloc.lemma_live_page(space.start(i));
    space.page_alloc.lemma_live_page(space.start(j));
    space.page_alloc.lemma_page_mapped(space.start(i), w);
    space.page_alloc.lemma_page_mapped(space.start(j), w);
}

/// Two allocations in a row never overlap, and what both handed out lies in
/// the used range of the space.
pub proof fn lemma_allocations_disjoint<P: PageAlloc>(
    s0: &Space<P>,
    s1: &Space<P>,
    s2: &Space<P>,
    n1: Words<u32>,
    v1: Value,
    n2: Words<u32>,
    v2: Value,
)
    requires
        s0.wf(),
        s0.can_alloc_words(n1),
        s0.alloc_post(s1, n1, v1),
        s1.can_alloc_words(n2),
        s1.alloc_post(s2, n2, v2),
    ensures
        v1.spec_get_ptr() % 4 == 0,
        v2.spec_get_ptr() % 4 == 0,
        v1.spec_get_ptr() + n1.0 * 4 <= v2.spec_get_ptr() || v2.spec_get_ptr() + n2.0 * 4
            <= v1.spec_get_ptr() || n1.0 == 0 || n2.0 == 0,
        forall|a: int|
            v1.spec_get_ptr() <= a < v1.spec_get_ptr() + n1.0 * 4 ==> s2.used().contains(a),
        forall|a: int|
            v2.spec_get_ptr() <= a < v2.spec_get_ptr() + n2.0 * 4 ==> s2.used().contains(a),
{
    lemma_alloc_fresh(s0, s1, n1, v1);
    lemma_alloc_fresh(s1, s2, n2, v2);
    let a1 = v1.spec_get_ptr();
    let a2 = v2.spec_get_ptr();
    if n1.0 > 0 && n2.0 > 0 {
        if a1 <= a2 < a1 + n1.0 * 4 {
            assert(s1.used().contains(a2));
        } else if a2 <= a1 < a2 + n2.0 * 4 {
            assert(s1.used().contains(a1));
        }
    }
    assert forall|a: int| a1 <= a < a1 + n1.0 * 4 implies s2.used().contains(a) by {
        assert(s1.used().contains(a));
    }
}

} // verus!
