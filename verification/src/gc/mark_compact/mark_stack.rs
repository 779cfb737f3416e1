use vstd::prelude::*;
use crate::page_alloc::{
    preserved, same_bitmaps, same_config, same_pages, PageAlloc, WordMemory, PAGE_HEADER_SIZE,
};
use crate::types::Tag;

verus! {

/// Size of the link at the start of a chunk, in bytes.
pub const LINK_SIZE: usize = 4;

/// Size of an entry of the stack, in bytes: the address of an object and its
/// tag.
pub const ENTRY_SIZE: usize = 8;

/// The smallest page that holds the header, the link and one entry.
pub const MIN_CHUNK_SIZE: usize = 20;

/// A stack of objects with their tags, kept in pages of the allocator.
///
/// Each page is a chunk.  The first word of its contents area links it to
/// the chunk below (zero for the first chunk); the entries follow.  The
/// stack grows by linking a fresh chunk, so growth never copies.
pub struct MarkStack<P: PageAlloc> {
    /// The chunk that holds the top of the stack
    pub current: P::Page,
    /// Address of the next free entry in the current chunk
    pub top: usize,
    /// The chunks, from the first one up to the current one
    pub chunks: Ghost<Seq<P::Page>>,
    /// For each chunk, the number of entries in the chunks below it
    pub base: Ghost<Seq<int>>,
    /// The entries, from the bottom of the stack up
    pub items: Ghost<Seq<(usize, Tag)>>,
}

impl<P: PageAlloc> MarkStack<P> {
    /// The entries, from the bottom of the stack up.
    pub open spec fn view(&self) -> Seq<(usize, Tag)> {
        self.items@
    }

    /// Address of the first entry of chunk `k`.
    pub open spec fn first_slot(&self, k: int) -> int {
        P::start_of(self.chunks@[k]) + PAGE_HEADER_SIZE + LINK_SIZE
    }

    /// Number of entries in chunk `k`.
    pub open spec fn count(&self, k: int) -> int {
        (if k + 1 < self.chunks@.len() {
            self.base@[k + 1]
        } else {
            self.items@.len() as int
        }) - self.base@[k]
    }

    /// Chunk `k` is a live page without a bitmap, its entries fit into it, it
    /// is full unless it is the last one, and its link names the chunk below.
    pub open spec fn chunk_ok(&self, page_alloc: &P, k: int) -> bool {
        let start = P::start_of(self.chunks@[k]);
        &&& page_alloc.is_live(self.chunks@[k])
        &&& page_alloc.bitmap(start) is None
        &&& 0 <= self.count(k)
        &&& self.first_slot(k) + 8 * self.count(k) <= start + page_alloc.page_size()
        &&& k < self.chunks@.len() - 1 ==> self.first_slot(k) + 8 * self.count(k) + 8 > start
            + page_alloc.page_size()
        &&& page_alloc.words()[start + PAGE_HEADER_SIZE] == (if k == 0 {
            0
        } else {
            P::start_of(self.chunks@[k - 1])
        })
    }

    /// Entry `j` of chunk `k` holds the item that belongs there.
    pub open spec fn entry_at(&self, w: Map<int, u32>, k: int, j: int) -> bool {
        let i = self.base@[k] + j;
        &&& 0 <= i < self.items@.len()
        &&& w[self.first_slot(k) + 8 * j] == self.items@[i].0
        &&& w[self.first_slot(k) + 8 * j + 4] == self.items@[i].1
    }

    /// The chunks are distinct live pages without bitmaps, each but the last
    /// is full, and the words of the chunks hold the links and the entries.
    pub open spec fn wf(&self, page_alloc: &P) -> bool {
        let n = self.chunks@.len() as int;
        &&& page_alloc.wf()
        &&& page_alloc.page_size() >= MIN_CHUNK_SIZE
        &&& n >= 1
        &&& self.base@.len() == n
        &&& self.base@[0] == 0
        &&& P::start_of(self.current) == self.start(n - 1)
        &&& page_alloc.is_live(self.current)
        &&& self.top == self.first_slot(n - 1) + 8 * self.count(n - 1)
        &&& forall|k: int| 0 <= k < n ==> #[trigger] self.chunk_ok(page_alloc, k)
        &&& forall|k1: int, k2: int|
            0 <= k1 < k2 < n ==> #[trigger] self.start(k1) != #[trigger] self.start(k2)
        &&& forall|k: int, j: int|
            0 <= k < n && 0 <= j < self.count(k) ==> #[trigger] self.entry_at(
                page_alloc.words(),
                k,
                j,
            )
        &&& forall|j: int| 0 <= j < self.items@.len() ==> (#[trigger] self.items@[j]).0 <= 0xffff_ffff
        &&& forall|k1: int, k2: int|
            0 <= k1 <= k2 < n ==> #[trigger] self.base@[k1] <= #[trigger] self.base@[k2]
    }

    /// Start address of chunk `k`.
    pub open spec fn start(&self, k: int) -> int {
        P::start_of(self.chunks@[k])
    }

    /// Whether the page that starts at `s` is a chunk of the stack.
    pub open spec fn is_chunk(&self, s: int) -> bool {
        exists|k: int| 0 <= k < self.chunks@.len() && #[trigger] self.start(k) == s
    }

    /// Whether the byte address `a` lies in chunk `k`.
    pub open spec fn in_chunk(&self, page_size: int, k: int, a: int) -> bool {
        0 <= k < self.chunks@.len() && self.start(k) <= a < self.start(k) + page_size
    }

    /// Whether the byte address `a` lies in a chunk of the stack.
    pub open spec fn owns_addr(&self, page_size: int, a: int) -> bool {
        exists|k: int| #[trigger] self.in_chunk(page_size, k, a)
    }

    /// The word-aligned addresses of a chunk are mapped.
    pub proof fn lemma_chunk_mapped(&self, page_alloc: &P, k: int, a: int)
        requires
            self.wf(page_alloc),
            self.in_chunk(page_alloc.page_size(), k, a),
        ensures
            a % 4 == 0 ==> page_alloc.words().dom().contains(a) && page_alloc.page_containing(a)
                == self.start(k) && !page_alloc.is_static(a),
            self.owns_addr(page_alloc.page_size(), a),
            0 < self.start(k),
            self.start(k) % 4 == 0,
            self.start(k) + page_alloc.page_size() <= 0xffff_ffff,
    {
        assert(self.chunk_ok(page_alloc, k));
        page_alloc.lemma_live_handle(self.chunks@[k]);
        page_alloc.lemma_live_page(self.start(k));
        if a % 4 == 0 {
            page_alloc.lemma_page_mapped(self.start(k), a);
        }
    }

    /// A stack that is well formed stays so when the allocator changes
    /// without touching the chunks.
    pub proof fn lemma_frame(&self, before: &P, after: &P)
        requires
            self.wf(before),
            after.wf(),
            same_config(before, after),
            after.is_live(self.current),
            forall|k: int|
                0 <= k < self.chunks@.len() ==> after.is_live(#[trigger] self.chunks@[k])
                    && after.bitmap(P::start_of(self.chunks@[k])) is None,
            forall|a: int|
                self.owns_addr(before.page_size(), a) && before.words().dom().contains(a)
                    ==> #[trigger] after.words()[a] == before.words()[a],
        ensures
            self.wf(after),
    {
        let n = self.chunks@.len() as int;
        let ps = before.page_size();
        assert forall|k: int| 0 <= k < n implies #[trigger] self.chunk_ok(after, k) by {
            assert(self.chunk_ok(before, k));
            let a = self.start(k) + PAGE_HEADER_SIZE;
            before.lemma_page_size();
            assert(self.in_chunk(ps, k, a));
            self.lemma_chunk_mapped(before, k, a);
            assert(self.chunks@[k] == self.chunks@[k]);
        }
        assert forall|k: int, j: int| 0 <= k < n && 0 <= j < self.count(k) implies 
            #[trigger] self.entry_at(after.words(), k, j) by {
            assert(self.entry_at(before.words(), k, j));
            assert(self.chunk_ok(before, k));
            let a = self.first_slot(k) + 8 * j;
            assert(self.in_chunk(ps, k, a));
            assert(self.in_chunk(ps, k, a + 4));
            self.lemma_chunk_mapped(before, k, a);
            self.lemma_chunk_mapped(before, k, a + 4);
        }
    }

    /// An address in a page that carries a bitmap, and a static address, lie
    /// in no chunk of the stack.
    pub proof fn lemma_not_owned(&self, page_alloc: &P, a: int)
        requires
            self.wf(page_alloc),
            page_alloc.words().dom().contains(a),
            page_alloc.is_static(a) || page_alloc.bitmap(page_alloc.page_containing(a)) is Some,
        ensures
            !self.owns_addr(page_alloc.page_size(), a),
    {
        page_alloc.lemma_mapped(a);
        if self.owns_addr(page_alloc.page_size(), a) {
            let k = choose|k: int| #[trigger] self.in_chunk(page_alloc.page_size(), k, a);
            self.lemma_chunk_mapped(page_alloc, k, a);
            assert(self.chunk_ok(page_alloc, k));
        }
    }

    /// Whether `new` can be called: the pages are large enough for a chunk
    /// and the allocator has one left.
    pub fn can_create(page_alloc: &P) -> (b: bool)
        requires
            page_alloc.wf(),
        ensures
            b == (page_alloc.page_size() >= MIN_CHUNK_SIZE && page_alloc.remaining() > 0),
    {
        page_alloc.page_size_bytes() >= MIN_CHUNK_SIZE && page_alloc.can_alloc()
    }

    /// An empty stack of one fresh chunk.
    pub fn new(page_alloc: &mut P) -> (stack: MarkStack<P>)
        requires
            old(page_alloc).wf(),
            old(page_alloc).page_size() >= MIN_CHUNK_SIZE,
            old(page_alloc).remaining() > 0,
        ensures
            stack.wf(final(page_alloc)),
            stack@ == Seq::<(usize, Tag)>::empty(),
            stack.chunks@.len() == 1,
            crate::page_alloc::page_added(old(page_alloc), final(page_alloc), stack.chunks@[0]),
            preserved(old(page_alloc).words(), final(page_alloc).words()),
            forall|a: int|
                stack.owns_addr(old(page_alloc).page_size(), a) ==> !#[trigger] old(
                    page_alloc,
                ).words().dom().contains(a),
    {
        let page = page_alloc.alloc_page();
        proof {
            page_alloc.lemma_live_handle(page);
            page_alloc.lemma_live_page(P::start_of(page));
            page_alloc.lemma_page_mapped(
                P::start_of(page),
                P::start_of(page) + PAGE_HEADER_SIZE,
            );
        }
        let contents_start: usize = page_alloc.page_contents_start(&page);
        proof {
            page_alloc.lemma_mapped(P::start_of(page) + PAGE_HEADER_SIZE);
        }
        let chunks: Ghost<Seq<P::Page>> = Ghost(Seq::empty().push(page));
        let base: Ghost<Seq<int>> = Ghost(Seq::empty().push(0int));
        let items: Ghost<Seq<(usize, Tag)>> = Ghost(Seq::empty());
        MarkStack { current: page, top: contents_start + LINK_SIZE, chunks, base, items }
    }

    /// Whether the current chunk has no room for another entry.
    pub open spec fn is_full(&self, page_alloc: &P) -> bool {
        self.top + ENTRY_SIZE > P::start_of(self.current) + page_alloc.page_size()
    }

    /// Whether `push` can be called: where the current chunk is full, the
    /// allocator has a page left.
    pub fn can_push(&self, page_alloc: &P) -> (b: bool)
        requires
            self.wf(page_alloc),
        ensures
            b == (self.is_full(page_alloc) ==> page_alloc.remaining() > 0),
    {
        proof {
            let n = self.chunks@.len() as int;
            assert(self.chunk_ok(page_alloc, n - 1));
            page_alloc.lemma_live_handle(self.current);
            page_alloc.lemma_live_page(P::start_of(self.current));
        }
        let end: usize = page_alloc.page_end(&self.current);
        if end - self.top < ENTRY_SIZE {
            page_alloc.can_alloc()
        } else {
            true
        }
    }

    /// What a step of the stack keeps of the allocator: outside the chunks,
    /// mapped addresses stay mapped with their words, and live pages stay
    /// live with their bitmaps; and a chunk is a page that was a chunk before
    /// or was not mapped before.
    pub open spec fn stepped_from(
        &self,
        page_alloc: &P,
        before: &MarkStack<P>,
        alloc_before: &P,
    ) -> bool {
        let ps = alloc_before.page_size();
        &&& same_config(alloc_before, page_alloc)
        &&& forall|a: int|
            #![trigger page_alloc.words().dom().contains(a)]
            #![trigger alloc_before.words().dom().contains(a)]
            alloc_before.words().dom().contains(a) && !before.owns_addr(ps, a)
                ==> page_alloc.words().dom().contains(a) && page_alloc.words()[a]
                == alloc_before.words()[a]
        &&& forall|a: int|
            self.owns_addr(ps, a) ==> before.owns_addr(ps, a)
                || !#[trigger] alloc_before.words().dom().contains(a)
        &&& forall|a: int|
            before.owns_addr(ps, a) && #[trigger] page_alloc.words().dom().contains(a)
                ==> self.owns_addr(ps, a)
        &&& forall|a: int| #[trigger]
            page_alloc.words().dom().contains(a) ==> alloc_before.words().dom().contains(a)
                || self.owns_addr(ps, a)
        &&& forall|s: int| #[trigger]
            page_alloc.live().contains(s) ==> alloc_before.live().contains(s) || self.is_chunk(s)
        &&& forall|s: int|
            before.is_chunk(s) && #[trigger] page_alloc.live().contains(s) ==> self.is_chunk(s)
        &&& forall|p: P::Page|
            #![trigger page_alloc.is_live(p)]
            #![trigger alloc_before.is_live(p)]
            alloc_before.is_live(p) && !before.owns_addr(ps, P::start_of(p)) ==> page_alloc.is_live(
                p,
            )
        &&& forall|s: int|
            #![trigger page_alloc.live().contains(s)]
            #![trigger alloc_before.live().contains(s)]
            alloc_before.live().contains(s) && !before.owns_addr(ps, s)
                ==> page_alloc.live().contains(s) && page_alloc.bitmap(s) == alloc_before.bitmap(
                s,
            )
    }

    /// Links a fresh chunk to the full current chunk.
    #[verifier::rlimit(50)]
    fn grow(&mut self, page_alloc: &mut P)
        requires
            old(self).wf(old(page_alloc)),
            old(self).is_full(old(page_alloc)),
            old(page_alloc).remaining() > 0,
        ensures
            final(self).wf(final(page_alloc)),
            final(self)@ == old(self)@,
            !final(self).is_full(final(page_alloc)),
            final(self).stepped_from(final(page_alloc), old(self), old(page_alloc)),
            final(page_alloc).remaining() == old(page_alloc).remaining() - 1,
    {
        let ghost n = self.chunks@.len() as int;
        let ghost ps = page_alloc.page_size();
        proof {
            page_alloc.lemma_page_size();
            assert(self.chunk_ok(page_alloc, n - 1));
            page_alloc.lemma_live_handle(self.current);
            page_alloc.lemma_live_page(P::start_of(self.current));
        }
        let below: usize = page_alloc.page_start(&self.current);
        let page = page_alloc.alloc_page();
        let ghost added = *page_alloc;
        proof {
            page_alloc.lemma_live_handle(page);
            page_alloc.lemma_live_page(P::start_of(page));
            page_alloc.lemma_page_mapped(P::start_of(page), P::start_of(page) + PAGE_HEADER_SIZE);
        }
        let contents_start: usize = page_alloc.page_contents_start(&page);
        page_alloc.write_word(contents_start, below as u32);
        let chunks: Ghost<Seq<P::Page>> = Ghost(self.chunks@.push(page));
        let base: Ghost<Seq<int>> = Ghost(self.base@.push(self.items@.len() as int));
        self.current = page;
        self.top = contents_start + LINK_SIZE;
        self.chunks = chunks;
        self.base = base;
        proof {
            let before = old(self);
            assert forall|k: int| 0 <= k < n implies before.start(k) != P::start_of(page) by {
                assert(before.chunk_ok(old(page_alloc), k));
                old(page_alloc).lemma_live_handle(before.chunks@[k]);
            }
            assert forall|a: int|
                before.owns_addr(ps, a) && old(page_alloc).words().dom().contains(a)
                    implies #[trigger] page_alloc.words()[a] == old(page_alloc).words()[a] by {
                assert(added.words().dom().contains(a));
            }
            assert forall|k: int| 0 <= k < n implies page_alloc.is_live(
                #[trigger] before.chunks@[k],
            ) && page_alloc.bitmap(P::start_of(before.chunks@[k])) is None by {
                assert(before.chunk_ok(old(page_alloc), k));
                old(page_alloc).lemma_live_handle(before.chunks@[k]);
            }
            before.lemma_frame(old(page_alloc), page_alloc);
            assert forall|k: int| 0 <= k < n + 1 implies #[trigger] self.chunk_ok(page_alloc, k) by {
                if k < n {
                    assert(before.chunk_ok(page_alloc, k));
                    assert(self.chunks@[k] == before.chunks@[k]);
                    assert(self.count(k) == before.count(k));
                    if k > 0 {
                        assert(self.chunks@[k - 1] == before.chunks@[k - 1]);
                    }
                } else {
                    assert(self.chunks@[n - 1] == before.chunks@[n - 1]);
                }
            }
            assert forall|k1: int, k2: int| 0 <= k1 < k2 < n + 1 implies 
                #[trigger] self.start(k1) != #[trigger] self.start(k2) by {
                assert(self.chunks@[k1] == before.chunks@[k1]);
                assert(before.start(k1) == self.start(k1));
                if k2 < n {
                    assert(self.chunks@[k2] == before.chunks@[k2]);
                    assert(before.start(k2) == self.start(k2));
                }
            }
            assert forall|k: int, j: int| 0 <= k < n + 1 && 0 <= j < self.count(k) implies 
                #[trigger] self.entry_at(page_alloc.words(), k, j) by {
                assert(self.count(k) == before.count(k));
                assert(self.chunks@[k] == before.chunks@[k]);
                assert(before.entry_at(page_alloc.words(), k, j));
            }
            assert forall|a: int| self.owns_addr(ps, a) implies before.owns_addr(ps, a)
                || !#[trigger] old(page_alloc).words().dom().contains(a) by {
                let k = choose|k: int| #[trigger] self.in_chunk(ps, k, a);
                if k < n {
                    assert(self.chunks@[k] == before.chunks@[k]);
                    assert(before.in_chunk(ps, k, a));
                }
            }
            assert forall|a: int| before.owns_addr(ps, a) implies self.owns_addr(ps, a) by {
                let k = choose|k: int| #[trigger] before.in_chunk(ps, k, a);
                assert(self.chunks@[k] == before.chunks@[k]);
                assert(self.in_chunk(ps, k, a));
            }
            assert forall|a: int| #[trigger]
                page_alloc.words().dom().contains(a) implies old(page_alloc).words().dom().contains(
                a,
            ) || self.owns_addr(ps, a) by {
                assert(added.words().dom().contains(a));
                if !old(page_alloc).words().dom().contains(a) {
                    assert(self.in_chunk(ps, n, a));
                }
            }
            assert forall|s: int| #[trigger]
                page_alloc.live().contains(s) implies old(page_alloc).live().contains(s)
                || self.is_chunk(s) by {
                if !old(page_alloc).live().contains(s) {
                    assert(self.start(n) == s);
                }
            }
            assert forall|s: int| before.is_chunk(s) implies self.is_chunk(s) by {
                let k = choose|k: int| 0 <= k < before.chunks@.len() && #[trigger] before.start(k) == s;
                assert(self.chunks@[k] == before.chunks@[k]);
                assert(self.start(k) == s);
            }
        }
    }

    /// Writes an entry into the current chunk, which has room for it.
    #[verifier::rlimit(50)]
    fn put(&mut self, page_alloc: &mut P, obj: usize, tag: Tag)
        requires
            old(self).wf(old(page_alloc)),
            obj <= 0xffff_ffff,
            !old(self).is_full(old(page_alloc)),
        ensures
            final(self).wf(final(page_alloc)),
            final(self)@ == old(self)@.push((obj, tag)),
            final(self).chunks@ == old(self).chunks@,
            same_pages(old(page_alloc), final(page_alloc)),
            same_bitmaps(old(page_alloc), final(page_alloc)),
            final(page_alloc).words().dom() == old(page_alloc).words().dom(),
            forall|a: int|
                old(page_alloc).words().dom().contains(a) && !old(self).owns_addr(
                    old(page_alloc).page_size(),
                    a,
                ) ==> #[trigger] final(page_alloc).words()[a] == old(page_alloc).words()[a],
    {
        let ghost ps = page_alloc.page_size();
        let ghost ready = *self;
        let ghost ready_alloc = *page_alloc;
        let ghost m = ready.chunks@.len() as int;
        proof {
            page_alloc.lemma_page_size();
            assert(ready.chunk_ok(&ready_alloc, m - 1));
            assert(ready.in_chunk(ps, m - 1, ready.top as int));
            assert(ready.in_chunk(ps, m - 1, ready.top + 4));
            ready.lemma_chunk_mapped(&ready_alloc, m - 1, ready.top as int);
            ready.lemma_chunk_mapped(&ready_alloc, m - 1, ready.top + 4);
        }
        page_alloc.write_word(self.top, obj as u32);
        page_alloc.write_word(self.top + 4, tag);
        self.top = self.top + ENTRY_SIZE;
        let items: Ghost<Seq<(usize, Tag)>> = Ghost(self.items@.push((obj, tag)));
        self.items = items;
        proof {
            let w = page_alloc.words();
            assert(w.dom() =~= ready_alloc.words().dom());
            assert forall|k: int| 0 <= k < m implies #[trigger] self.chunk_ok(page_alloc, k) by {
                assert(ready.chunk_ok(&ready_alloc, k));
                let a = ready.start(k) + PAGE_HEADER_SIZE;
                assert(ready.in_chunk(ps, k, a));
                ready.lemma_chunk_mapped(&ready_alloc, k, a);
                if k < m - 1 {
                    assert(ready.start(k) != ready.start(m - 1));
                }
            }
            assert forall|k1: int, k2: int| 0 <= k1 < k2 < m implies #[trigger] self.start(k1)
                != #[trigger] self.start(k2) by {
                assert(ready.start(k1) != ready.start(k2));
            }
            assert forall|k: int, j: int| 0 <= k < m && 0 <= j < self.count(k) implies 
                #[trigger] self.entry_at(w, k, j) by {
                assert(ready.chunk_ok(&ready_alloc, k));
                if k == m - 1 && j == ready.count(m - 1) {
                } else {
                    assert(ready.entry_at(ready_alloc.words(), k, j));
                    let a = ready.first_slot(k) + 8 * j;
                    assert(ready.in_chunk(ps, k, a));
                    assert(ready.in_chunk(ps, k, a + 4));
                    ready.lemma_chunk_mapped(&ready_alloc, k, a);
                    ready.lemma_chunk_mapped(&ready_alloc, k, a + 4);
                    if k < m - 1 {
                        assert(ready.start(k) != ready.start(m - 1));
                    }
                }
            }
            assert forall|a: int|
                old(page_alloc).words().dom().contains(a) && !old(self).owns_addr(
                    ps,
                    a,
                ) implies #[trigger] page_alloc.words()[a] == old(page_alloc).words()[a] by {
                if a == ready.top || a == ready.top + 4 {
                    assert(ready.owns_addr(ps, a));
                }
            }
        }
    }

    /// Pushes the object at `obj` with its tag.  Where the current chunk is
    /// full, a fresh chunk is linked to it first.
    #[verifier::rlimit(50)]
    pub fn push(&mut self, page_alloc: &mut P, obj: usize, tag: Tag)
        requires
            old(self).wf(old(page_alloc)),
            obj <= 0xffff_ffff,
            old(self).is_full(old(page_alloc)) ==> old(page_alloc).remaining() > 0,
        ensures
            final(self).wf(final(page_alloc)),
            final(self)@ == old(self)@.push((obj, tag)),
            final(self).stepped_from(final(page_alloc), old(self), old(page_alloc)),
            final(page_alloc).remaining() == old(page_alloc).remaining() - (if old(self).is_full(
                old(page_alloc),
            ) {
                1int
            } else {
                0int
            }),
    {
        let ghost ps = page_alloc.page_size();
        proof {
            let n = self.chunks@.len() as int;
            page_alloc.lemma_page_size();
            assert(self.chunk_ok(page_alloc, n - 1));
            page_alloc.lemma_live_handle(self.current);
            page_alloc.lemma_live_page(P::start_of(self.current));
        }
        let end: usize = page_alloc.page_end(&self.current);
        if end - self.top < ENTRY_SIZE {
            self.grow(page_alloc);
        }
        let ghost ready = *self;
        let ghost ready_alloc = *page_alloc;
        self.put(page_alloc, obj, tag);
        proof {
            assert forall|a: int| self.owns_addr(ps, a) == ready.owns_addr(ps, a) by {
                if self.owns_addr(ps, a) {
                    let k = choose|k: int| #[trigger] self.in_chunk(ps, k, a);
                    assert(ready.in_chunk(ps, k, a));
                }
                if ready.owns_addr(ps, a) {
                    let k = choose|k: int| #[trigger] ready.in_chunk(ps, k, a);
                    assert(self.in_chunk(ps, k, a));
                }
            }
            assert forall|s: int| self.is_chunk(s) == ready.is_chunk(s) by {
                if self.is_chunk(s) {
                    let k = choose|k: int| 0 <= k < self.chunks@.len() && #[trigger] self.start(k) == s;
                    assert(ready.start(k) == s);
                }
                if ready.is_chunk(s) {
                    let k = choose|k: int|
                        0 <= k < ready.chunks@.len() && #[trigger] ready.start(k) == s;
                    assert(self.start(k) == s);
                }
            }
            assert forall|a: int|
                #![trigger page_alloc.words().dom().contains(a)]
                #![trigger old(page_alloc).words().dom().contains(a)]
                old(page_alloc).words().dom().contains(a) && !old(self).owns_addr(
                    ps,
                    a,
                ) implies page_alloc.words().dom().contains(a) && page_alloc.words()[a] == old(
                page_alloc,
            ).words()[a] by {
                assert(ready_alloc.words().dom().contains(a));
                assert(!ready.owns_addr(ps, a));
            }
            assert forall|a: int|
                old(self).owns_addr(ps, a) && #[trigger] page_alloc.words().dom().contains(
                    a,
                ) implies self.owns_addr(ps, a) by {
                assert(ready_alloc.words().dom().contains(a));
            }
            assert forall|a: int| #[trigger]
                page_alloc.words().dom().contains(a) implies old(page_alloc).words().dom().contains(
                a,
            ) || self.owns_addr(ps, a) by {
                assert(ready_alloc.words().dom().contains(a));
            }
            assert forall|s: int| #[trigger]
                page_alloc.live().contains(s) implies old(page_alloc).live().contains(s)
                || self.is_chunk(s) by {
                assert(ready_alloc.live().contains(s));
            }
            assert forall|s: int|
                old(self).is_chunk(s) && #[trigger] page_alloc.live().contains(
                    s,
                ) implies self.is_chunk(s) by {
                assert(ready_alloc.live().contains(s));
            }
        }
    }

    /// Gives the current chunk back to the allocator and makes the chunk
    /// below, which is full, the current one.  Nothing happens where the
    /// current chunk is the first one.
    #[verifier::rlimit(50)]
    fn drop_chunk(&mut self, page_alloc: &mut P) -> (dropped: bool)
        requires
            old(self).wf(old(page_alloc)),
        ensures
            dropped == (old(self).chunks@.len() > 1),
            !dropped ==> *final(self) == *old(self) && *final(page_alloc) == *old(page_alloc),
            dropped ==> {
                &&& final(self).wf(final(page_alloc))
                &&& final(self).chunks@ == old(self).chunks@.drop_last()
                &&& final(self).items@ == old(self).items@.take(old(self).base@.last())
                &&& final(self).count(final(self).chunks@.len() - 1) > 0
                &&& final(self).stepped_from(final(page_alloc), old(self), old(page_alloc))
                &&& preserved(final(page_alloc).words(), old(page_alloc).words())
                &&& final(page_alloc).remaining() >= old(page_alloc).remaining()
                &&& !final(page_alloc).live().contains(old(self).start(old(self).chunks@.len() - 1))
                &&& forall|s: int| #[trigger]
                    final(page_alloc).live().contains(s) ==> old(page_alloc).live().contains(s)
            },
    {
        let ghost n = self.chunks@.len() as int;
        let ghost ps = page_alloc.page_size();
        let ghost before = *self;
        proof {
            page_alloc.lemma_page_size();
            assert(self.chunk_ok(page_alloc, n - 1));
            assert(self.in_chunk(ps, n - 1, self.start(n - 1) + PAGE_HEADER_SIZE));
            self.lemma_chunk_mapped(page_alloc, n - 1, self.start(n - 1) + PAGE_HEADER_SIZE);
        }
        let contents_start: usize = page_alloc.page_contents_start(&self.current);
        let link: u32 = page_alloc.read_word(contents_start);
        if link == 0 {
            proof {
                if n > 1 {
                    assert(self.in_chunk(ps, n - 2, self.start(n - 2)));
                    self.lemma_chunk_mapped(page_alloc, n - 2, self.start(n - 2));
                }
            }
            return false;
        }
        proof {
            assert(n > 1);
            assert(self.chunk_ok(page_alloc, n - 2));
            page_alloc.lemma_live_handle(self.chunks@[n - 2]);
            assert(self.start(n - 2) != self.start(n - 1));
        }
        let below = page_alloc.page_at(link as usize);
        page_alloc.free(self.current);
        proof {
            page_alloc.lemma_live_handle(below);
            page_alloc.lemma_live_page(P::start_of(below));
        }
        let first: usize = page_alloc.page_contents_start(&below) + LINK_SIZE;
        let end: usize = page_alloc.page_end(&below);
        let chunks: Ghost<Seq<P::Page>> = Ghost(self.chunks@.drop_last());
        let base: Ghost<Seq<int>> = Ghost(self.base@.drop_last());
        let items: Ghost<Seq<(usize, Tag)>> = Ghost(self.items@.take(self.base@.last()));
        self.current = below;
        self.top = first + ((end - first) / ENTRY_SIZE) * ENTRY_SIZE;
        self.chunks = chunks;
        self.base = base;
        self.items = items;
        proof {
            assert(before.count(n - 2) == self.count(n - 2));
            assert forall|k: int| 0 <= k < n - 1 implies #[trigger] self.chunk_ok(page_alloc, k) by {
                assert(before.chunk_ok(old(page_alloc), k));
                assert(before.start(k) != before.start(n - 1));
                assert(self.count(k) == before.count(k));
                let a = before.start(k) + PAGE_HEADER_SIZE;
                assert(before.in_chunk(ps, k, a));
                before.lemma_chunk_mapped(old(page_alloc), k, a);
                old(page_alloc).lemma_live_handle(before.chunks@[k]);
                page_alloc.lemma_live_handle(before.chunks@[k]);
                page_alloc.lemma_page_mapped(before.start(k), a);
            }
            assert forall|k1: int, k2: int| 0 <= k1 < k2 < n - 1 implies #[trigger] self.start(k1)
                != #[trigger] self.start(k2) by {
                assert(before.start(k1) != before.start(k2));
            }
            assert forall|k: int, j: int| 0 <= k < n - 1 && 0 <= j < self.count(k) implies 
                #[trigger] self.entry_at(page_alloc.words(), k, j) by {
                assert(before.chunk_ok(old(page_alloc), k));
                assert(before.chunk_ok(old(page_alloc), n - 1));
                assert(self.count(k) == before.count(k));
                assert(before.entry_at(old(page_alloc).words(), k, j));
                assert(before.start(k) != before.start(n - 1));
                let a = before.first_slot(k) + 8 * j;
                assert(before.in_chunk(ps, k, a));
                assert(before.in_chunk(ps, k, a + 4));
                before.lemma_chunk_mapped(old(page_alloc), k, a);
                before.lemma_chunk_mapped(old(page_alloc), k, a + 4);
                old(page_alloc).lemma_live_handle(before.chunks@[k]);
                page_alloc.lemma_live_handle(before.chunks@[k]);
                page_alloc.lemma_page_mapped(before.start(k), a);
                page_alloc.lemma_page_mapped(before.start(k), a + 4);
            }
            assert forall|a: int|
                old(page_alloc).words().dom().contains(a) && !before.owns_addr(ps, a)
                    implies #[trigger] page_alloc.words().dom().contains(a)
                && page_alloc.words()[a] == old(page_alloc).words()[a] by {
                if before.start(n - 1) <= a < before.start(n - 1) + ps {
                    assert(before.in_chunk(ps, n - 1, a));
                }
            }
            assert forall|a: int| self.owns_addr(ps, a) implies before.owns_addr(ps, a)
                || !#[trigger] old(page_alloc).words().dom().contains(a) by {
                let k = choose|k: int| #[trigger] self.in_chunk(ps, k, a);
                assert(before.in_chunk(ps, k, a));
            }
            assert forall|a: int|
                before.owns_addr(ps, a) && #[trigger] page_alloc.words().dom().contains(
                    a,
                ) implies self.owns_addr(ps, a) by {
                let k = choose|k: int| #[trigger] before.in_chunk(ps, k, a);
                if k < n - 1 {
                    assert(self.in_chunk(ps, k, a));
                }
            }
            assert forall|s: int|
                before.is_chunk(s) && #[trigger] page_alloc.live().contains(
                    s,
                ) implies self.is_chunk(s) by {
                let k = choose|k: int| 0 <= k < before.chunks@.len() && #[trigger] before.start(k) == s;
                if k < n - 1 {
                    assert(self.start(k) == s);
                }
            }
            assert forall|p: P::Page|
                old(page_alloc).is_live(p) && !before.owns_addr(
                    ps,
                    P::start_of(p),
                ) implies #[trigger] page_alloc.is_live(p) by {
                if P::start_of(p) == before.start(n - 1) {
                    assert(before.in_chunk(ps, n - 1, P::start_of(p)));
                }
            }
            assert forall|s: int|
                old(page_alloc).live().contains(s) && !before.owns_addr(
                    ps,
                    s,
                ) implies #[trigger] page_alloc.live().contains(s) && page_alloc.bitmap(s) == old(
                page_alloc,
            ).bitmap(s) by {
                if s == before.start(n - 1) {
                    assert(before.in_chunk(ps, n - 1, s));
                }
            }
        }
        true
    }

    /// Takes the top entry off the stack.  `None` comes back only when the
    /// stack is empty.  Where the current chunk has no entry left, it is
    /// given back to the allocator and the chunk below becomes the current
    /// one.
    #[verifier::rlimit(50)]
    pub fn pop(&mut self, page_alloc: &mut P) -> (r: Option<(usize, Tag)>)
        requires
            old(self).wf(old(page_alloc)),
        ensures
            final(self).wf(final(page_alloc)),
            r == (if old(self)@.len() == 0 {
                None::<(usize, Tag)>
            } else {
                Some(old(self)@.last())
            }),
            final(self)@ == (if old(self)@.len() == 0 {
                old(self)@
            } else {
                old(self)@.drop_last()
            }),
            final(self).stepped_from(final(page_alloc), old(self), old(page_alloc)),
            preserved(final(page_alloc).words(), old(page_alloc).words()),
            final(page_alloc).remaining() >= old(page_alloc).remaining(),
    {
        let ghost n = self.chunks@.len() as int;
        let ghost ps = page_alloc.page_size();
        proof {
            page_alloc.lemma_page_size();
            assert(self.chunk_ok(page_alloc, n - 1));
            page_alloc.lemma_live_handle(self.current);
            page_alloc.lemma_live_page(P::start_of(self.current));
        }
        let contents_start: usize = page_alloc.page_contents_start(&self.current);
        if self.top == contents_start + LINK_SIZE {
            if !self.drop_chunk(page_alloc) {
                proof {
                    assert forall|a: int|
                        self.owns_addr(ps, a) implies old(self).owns_addr(ps, a) || !#[trigger] old(
                        page_alloc,
                    ).words().dom().contains(a) by {}
                }
                return None;
            }
            proof {
                assert(self.items@ =~= old(self).items@);
            }
        }
        let ghost ready = *self;
        let ghost ready_alloc = *page_alloc;
        let ghost m = ready.chunks@.len() as int;
        proof {
            assert(ready.chunk_ok(&ready_alloc, m - 1));
            assert(ready.count(m - 1) > 0);
            assert(ready.entry_at(ready_alloc.words(), m - 1, ready.count(m - 1) - 1));
            assert(ready.in_chunk(ps, m - 1, ready.top - 8));
            assert(ready.in_chunk(ps, m - 1, ready.top - 4));
            ready.lemma_chunk_mapped(&ready_alloc, m - 1, ready.top - 8);
            ready.lemma_chunk_mapped(&ready_alloc, m - 1, ready.top - 4);
        }
        self.top = self.top - ENTRY_SIZE;
        let obj: usize = page_alloc.read_word(self.top) as usize;
        let tag: u32 = page_alloc.read_word(self.top + 4);
        let items: Ghost<Seq<(usize, Tag)>> = Ghost(self.items@.drop_last());
        self.items = items;
        proof {
            assert forall|k: int| 0 <= k < m implies #[trigger] self.chunk_ok(page_alloc, k) by {
                assert(ready.chunk_ok(&ready_alloc, k));
            }
            assert forall|k1: int, k2: int| 0 <= k1 < k2 < m implies #[trigger] self.start(k1)
                != #[trigger] self.start(k2) by {
                assert(ready.start(k1) != ready.start(k2));
            }
            assert forall|k: int, j: int| 0 <= k < m && 0 <= j < self.count(k) implies 
                #[trigger] self.entry_at(page_alloc.words(), k, j) by {
                assert(ready.chunk_ok(&ready_alloc, k));
                assert(ready.entry_at(ready_alloc.words(), k, j));
            }
            assert forall|a: int| self.owns_addr(ps, a) implies old(self).owns_addr(ps, a)
                || !#[trigger] old(page_alloc).words().dom().contains(a) by {
                let k = choose|k: int| #[trigger] self.in_chunk(ps, k, a);
                assert(ready.in_chunk(ps, k, a));
            }
            assert forall|a: int|
                old(self).owns_addr(ps, a) && #[trigger] page_alloc.words().dom().contains(
                    a,
                ) implies self.owns_addr(ps, a) by {
                assert(ready.owns_addr(ps, a));
                let k = choose|k: int| #[trigger] ready.in_chunk(ps, k, a);
                assert(self.in_chunk(ps, k, a));
            }
            assert forall|s: int| ready.is_chunk(s) implies self.is_chunk(s) by {
                let k = choose|k: int| 0 <= k < ready.chunks@.len() && #[trigger] ready.start(k) == s;
                assert(self.start(k) == s);
            }
        }
        Some((obj, tag))
    }

    /// Gives all chunks back to the allocator.
    #[verifier::rlimit(50)]
    pub fn free(self, page_alloc: &mut P)
        requires
            self.wf(old(page_alloc)),
        ensures
            final(page_alloc).wf(),
            same_config(old(page_alloc), final(page_alloc)),
            preserved(final(page_alloc).words(), old(page_alloc).words()),
            final(page_alloc).remaining() >= old(page_alloc).remaining(),
            forall|a: int|
                old(page_alloc).words().dom().contains(a) && !self.owns_addr(
                    old(page_alloc).page_size(),
                    a,
                ) ==> #[trigger] final(page_alloc).words().dom().contains(a),
            forall|p: P::Page|
                old(page_alloc).is_live(p) && !self.owns_addr(
                    old(page_alloc).page_size(),
                    P::start_of(p),
                ) ==> #[trigger] final(page_alloc).is_live(p),
            forall|s: int|
                old(page_alloc).live().contains(s) && !self.owns_addr(
                    old(page_alloc).page_size(),
                    s,
                ) ==> #[trigger] final(page_alloc).live().contains(s) && final(page_alloc).bitmap(s)
                    == old(page_alloc).bitmap(s),
            forall|k: int|
                0 <= k < self.chunks@.len() ==> !final(page_alloc).live().contains(
                    #[trigger] self.start(k),
                ),
            forall|s: int| #[trigger]
                final(page_alloc).live().contains(s) ==> old(page_alloc).live().contains(s),
    {
        let ghost ps = page_alloc.page_size();
        let ghost given = self;
        let mut stack = self;
        proof {
            assert(stack.chunks@ =~= given.chunks@.take(stack.chunks@.len() as int));
        }
        loop
            invariant_except_break
                stack.wf(page_alloc),
            invariant
                page_alloc.wf(),
                ps == page_alloc.page_size(),
                same_config(old(page_alloc), page_alloc),
                preserved(page_alloc.words(), old(page_alloc).words()),
                page_alloc.remaining() >= old(page_alloc).remaining(),
                1 <= stack.chunks@.len() <= given.chunks@.len(),
                stack.chunks@ == given.chunks@.take(stack.chunks@.len() as int),
                forall|a: int|
                    old(page_alloc).words().dom().contains(a) && !given.owns_addr(ps, a)
                        ==> #[trigger] page_alloc.words().dom().contains(a),
                forall|p: P::Page|
                    old(page_alloc).is_live(p) && !given.owns_addr(ps, P::start_of(p))
                        ==> #[trigger] page_alloc.is_live(p),
                forall|s: int|
                    old(page_alloc).live().contains(s) && !given.owns_addr(ps, s)
                        ==> #[trigger] page_alloc.live().contains(s) && page_alloc.bitmap(s) == old(
                        page_alloc,
                    ).bitmap(s),
                forall|k: int|
                    stack.chunks@.len() <= k < given.chunks@.len() ==> !page_alloc.live().contains(
                        #[trigger] given.start(k),
                    ),
                forall|s: int| #[trigger]
                    page_alloc.live().contains(s) ==> old(page_alloc).live().contains(s),
            ensures
                stack.chunks@.len() == 1,
                stack.wf(page_alloc),
            decreases stack.chunks@.len(),
        {
            let ghost prev = stack;
            let ghost prev_alloc = *page_alloc;
            let ghost n = stack.chunks@.len() as int;
            if !stack.drop_chunk(page_alloc) {
                break ;
            }
            proof {
                assert(stack.chunks@ =~= given.chunks@.take(n - 1));
                assert forall|a: int| prev.owns_addr(ps, a) implies given.owns_addr(ps, a) by {
                    let k = choose|k: int| #[trigger] prev.in_chunk(ps, k, a);
                    assert(given.in_chunk(ps, k, a));
                }
                assert forall|k: int|
                    stack.chunks@.len() <= k < given.chunks@.len()
                        implies !page_alloc.live().contains(#[trigger] given.start(k)) by {
                    if k == n - 1 {
                        assert(given.start(k) == prev.start(n - 1));
                    } else {
                        assert(!prev_alloc.live().contains(given.start(k)));
                    }
                }
            }
        }
        proof {
            assert(stack.chunk_ok(page_alloc, 0));
            assert(stack.chunks@[0] == given.chunks@[0]);
        }
        let ghost last_alloc = *page_alloc;
        page_alloc.free(stack.current);
        proof {
            assert(given.in_chunk(ps, 0, given.start(0)));
            assert forall|a: int|
                old(page_alloc).words().dom().contains(a) && !given.owns_addr(ps, a)
                    implies #[trigger] page_alloc.words().dom().contains(a) by {
                if given.start(0) <= a < given.start(0) + ps {
                    assert(given.in_chunk(ps, 0, a));
                }
                assert(last_alloc.words().dom().contains(a));
            }
            assert forall|p: P::Page|
                old(page_alloc).is_live(p) && !given.owns_addr(
                    ps,
                    P::start_of(p),
                ) implies #[trigger] page_alloc.is_live(p) by {
                assert(last_alloc.is_live(p));
            }
            assert forall|s: int|
                old(page_alloc).live().contains(s) && !given.owns_addr(
                    ps,
                    s,
                ) implies #[trigger] page_alloc.live().contains(s) && page_alloc.bitmap(s) == old(
                page_alloc,
            ).bitmap(s) by {
                assert(last_alloc.live().contains(s));
            }
            assert forall|k: int| 0 <= k < given.chunks@.len() implies !page_alloc.live().contains(
                #[trigger] given.start(k),
            ) by {
                if k > 0 {
                    assert(!last_alloc.live().contains(given.start(k)));
                }
            }
        }
    }
}

/// What `n` pops hand out of a stack with the entries `stack`, in the order
/// in which they come off.
pub open spec fn popped<T>(stack: Seq<T>, n: nat) -> Seq<T>
    decreases n,
{
    if n == 0 || stack.len() == 0 {
        Seq::empty()
    } else {
        Seq::empty().push(stack.last()) + popped(stack.drop_last(), (n - 1) as nat)
    }
}

/// The entries that are left of `stack` after `n` pops.
pub open spec fn left<T>(stack: Seq<T>, n: nat) -> Seq<T>
    decreases n,
{
    if n == 0 || stack.len() == 0 {
        stack
    } else {
        left(stack.drop_last(), (n - 1) as nat)
    }
}

/// Entries that were pushed in a row come off in reverse order, and leave
/// the stack as it was before them.
pub proof fn lemma_pops_reverse_pushes<T>(stack: Seq<T>, items: Seq<T>)
    ensures
        popped(stack + items, items.len()) == items.reverse(),
        left(stack + items, items.len()) == stack,
    decreases items.len(),
{
    if items.len() == 0 {
        assert(stack + items =~= stack);
        assert(items.reverse() =~= Seq::<T>::empty());
    } else {
        let x = items.last();
        let rest = items.drop_last();
        assert((stack + items).last() == x);
        assert((stack + items).drop_last() =~= stack + rest);
        lemma_pops_reverse_pushes(stack, rest);
        assert(Seq::empty().push(x) + rest.reverse() =~= items.reverse());
    }
}

} // verus!
