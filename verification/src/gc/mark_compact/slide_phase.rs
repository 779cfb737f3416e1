//! The second pass of a compaction on the pages of a space: where the
//! objects and their copies lie in the pages, and what a move does.
use vstd::prelude::*;
use crate::gc::copying::wellformed::{root_frame, size0};
use crate::gc::mark_compact::mark_phase::{bit_of, marked_bit, page_ready, placed, statics_in};
use crate::gc::mark_compact::marking::{
    frame_kept, heap_ok, marking, marks_reached, obj_ok, reachable, static_addr, static_count,
    static_ok, Heap, Marks,
};
use crate::gc::mark_compact::sliding::{
    after_move, clear, copy_words, fwd_done, fwd_mid, idle, lemma_idle_write, lemma_moved,
    lemma_next_move, lemma_places_apart, lemma_unthreaded, move_ok, moved, moves_of, next_move,
    place, sliding, unthread_words, Slide,
};
use crate::gc::mark_compact::threading::link;
use crate::gc::mark_compact::{spec_get_tag, unthread_outcome, unthreaded};
use crate::object::{spec_object_size_, Trap};
use crate::page_alloc::{same_config, same_pages, PageAlloc, WordMemory, PAGE_HEADER_SIZE};
use crate::space::Space;
use crate::types::Words;

verus! {

/// The pages stand in the order of their addresses and are live.
pub open spec fn pages_ok<P: PageAlloc>(page_alloc: &P, pages: Seq<P::Page>) -> bool {
    &&& Space::<P>::ascending(pages)
    &&& forall|k: int| 0 <= k < pages.len() ==> page_alloc.is_live(#[trigger] pages[k])
}

/// Whether the `n` words from `x` on lie in the contents area of page `i`.
pub open spec fn in_page_of<P: PageAlloc>(
    page_alloc: &P,
    pages: Seq<P::Page>,
    i: int,
    x: int,
    n: int,
) -> bool {
    &&& 0 <= i < pages.len()
    &&& P::start_of(pages[i]) + PAGE_HEADER_SIZE <= x
    &&& x + 4 * n <= P::start_of(pages[i]) + page_alloc.page_size()
}

/// Whether the `n` words from `x` on lie in the part of page `i` that the
/// moved objects fill: the contents area of a page before page `ti`, or
/// that of page `ti` below `to_addr`.
pub open spec fn used_of<P: PageAlloc>(
    page_alloc: &P,
    pages: Seq<P::Page>,
    ti: int,
    to_addr: int,
    i: int,
    x: int,
    n: int,
) -> bool {
    &&& 0 <= i <= ti
    &&& P::start_of(pages[i]) + PAGE_HEADER_SIZE <= x
    &&& x + 4 * n <= (if i == ti {
        to_addr
    } else {
        P::start_of(pages[i]) + page_alloc.page_size()
    })
}

/// The pages hold the heap in the state `u` of the second pass, with
/// `to_addr` in page `ti` as the address that the next object is moved to:
/// the objects lie in the pages, the moved objects below `to_addr`, and the
/// others at or above it.
pub open spec fn slid<P: PageAlloc>(
    h: Heap,
    page_alloc: &P,
    pages: Seq<P::Page>,
    ti: int,
    to_addr: int,
    u: Slide,
) -> bool {
    &&& page_alloc.wf()
    &&& pages_ok(page_alloc, pages)
    &&& 0 <= ti < pages.len()
    &&& P::start_of(pages[ti]) + PAGE_HEADER_SIZE <= to_addr <= P::start_of(pages[ti])
        + page_alloc.page_size()
    &&& to_addr % 4 == 0
    &&& u.free <= to_addr
    &&& forall|b: int| #[trigger] u.marked.contains(b) && b >= u.pos ==> to_addr <= b
    &&& forall|a: int|
        #[trigger] h.objs.contains(a) ==> exists|i: int| #[trigger]
            in_page_of(page_alloc, pages, i, a, size0(h.w0, a))
    &&& forall|a: int|
        #[trigger] u.marked.contains(a) && a < u.pos ==> exists|i: int| #[trigger]
            used_of(page_alloc, pages, ti, to_addr, i, u.new[a], size0(h.w0, a))
    &&& statics_in(h, page_alloc)
    &&& tail_ok::<P>(h, pages, page_alloc.page_size(), ti, to_addr, u)
    &&& packed::<P>(h, pages, page_alloc.page_size(), moved_map(u))
    &&& sealed::<P>(h, page_alloc.words(), pages, page_alloc.page_size(), moved_map(u), ti)
}

/// The moved objects, each with the address that it was moved to.
pub open spec fn moved_map(u: Slide) -> Map<int, int> {
    Map::new(|a: int| moved(u, a), |a: int| u.new[a])
}

/// Whether the object at `b` is the one before the object at `a` among the
/// objects that were kept: none of them lies between the two.
pub open spec fn pred(fwd: Map<int, int>, b: int, a: int) -> bool {
    &&& fwd.dom().contains(b)
    &&& b < a
    &&& forall|c: int| #[trigger] fwd.dom().contains(c) && c < a ==> c <= b
}

/// Whether the object at `a` went right behind the object before it.
pub open spec fn behind(h: Heap, fwd: Map<int, int>, b: int, a: int) -> bool {
    pred(fwd, b, a) && fwd[b] + 4 * size0(h.w0, b) == fwd[a]
}

/// Whether the object at `a` did not fit behind the object before it, the
/// one at `b`, which lies in page `i - 1`.
pub open spec fn shut<P: PageAlloc>(
    h: Heap,
    pages: Seq<P::Page>,
    ps: int,
    fwd: Map<int, int>,
    i: int,
    b: int,
    a: int,
) -> bool {
    &&& pred(fwd, b, a)
    &&& P::start_of(pages[i - 1]) + PAGE_HEADER_SIZE <= fwd[b]
    &&& fwd[b] + 4 * size0(h.w0, b) <= P::start_of(pages[i - 1]) + ps
    &&& 4 * size0(h.w0, a) > P::start_of(pages[i - 1]) + ps - (fwd[b] + 4 * size0(h.w0, b))
}

/// Whether the object at `a` went to the start of the contents area of
/// page `i`: as the first object of all into the first page, or into the
/// page behind the one into whose rest it did not fit.
pub open spec fn heads<P: PageAlloc>(
    h: Heap,
    pages: Seq<P::Page>,
    ps: int,
    fwd: Map<int, int>,
    i: int,
    a: int,
) -> bool {
    &&& 0 <= i < pages.len()
    &&& fwd[a] == P::start_of(pages[i]) + PAGE_HEADER_SIZE
    &&& if i == 0 {
        forall|c: int| #[trigger] fwd.dom().contains(c) ==> a <= c
    } else {
        exists|b: int| #[trigger] shut::<P>(h, pages, ps, fwd, i, b, a)
    }
}

/// The objects that were kept are packed: in the order of their addresses,
/// the first one lies at the start of the contents area of the first page,
/// and each other one right behind the one before it, or, where it did not
/// fit into the rest of that page, at the start of the contents area of the
/// next page.
#[verifier::opaque]
pub open spec fn packed<P: PageAlloc>(
    h: Heap,
    pages: Seq<P::Page>,
    ps: int,
    fwd: Map<int, int>,
) -> bool {
    forall|a: int|
        #[trigger] fwd.dom().contains(a) ==> (exists|b: int| #[trigger] behind(h, fwd, b, a)) || (
        exists|i: int| #[trigger] heads::<P>(h, pages, ps, fwd, i, a))
}

/// Whether the byte address `x` lies in page `i`.
pub open spec fn in_range<P: PageAlloc>(pages: Seq<P::Page>, ps: int, i: int, x: int) -> bool {
    0 <= i < pages.len() && P::start_of(pages[i]) <= x < P::start_of(pages[i]) + ps
}

/// Whether the byte address `x` lies in a page before page `ti`.
pub open spec fn in_closed<P: PageAlloc>(pages: Seq<P::Page>, ps: int, ti: int, x: int) -> bool {
    exists|i: int| i < ti && #[trigger] in_range::<P>(pages, ps, i, x)
}

/// Whether the object at `b` is the last of the kept objects in page `i`,
/// and a filler closes the page behind it.
pub open spec fn shuts<P: PageAlloc>(
    h: Heap,
    w: Map<int, u32>,
    pages: Seq<P::Page>,
    ps: int,
    fwd: Map<int, int>,
    i: int,
    b: int,
) -> bool {
    let f = fwd[b] + 4 * size0(h.w0, b);
    &&& fwd.dom().contains(b)
    &&& P::start_of(pages[i]) + PAGE_HEADER_SIZE <= fwd[b]
    &&& f <= P::start_of(pages[i]) + ps
    &&& forall|c: int|
        #[trigger] fwd.dom().contains(c) && in_range::<P>(pages, ps, i, fwd[c]) ==> fwd[c] + 4
            * size0(h.w0, c) <= f
    &&& crate::gc::copying::wellformed::is_filler(w, f, P::start_of(pages[i]) + ps)
}

/// Whether page `i` is closed: behind the last of the kept objects in it
/// stands a filler that spans the rest of the page.
pub open spec fn page_shut<P: PageAlloc>(
    h: Heap,
    w: Map<int, u32>,
    pages: Seq<P::Page>,
    ps: int,
    fwd: Map<int, int>,
    i: int,
) -> bool {
    exists|b: int| #[trigger] shuts::<P>(h, w, pages, ps, fwd, i, b)
}

/// Every page before page `ti` is closed.
pub open spec fn sealed<P: PageAlloc>(
    h: Heap,
    w: Map<int, u32>,
    pages: Seq<P::Page>,
    ps: int,
    fwd: Map<int, int>,
    ti: int,
) -> bool {
    forall|i: int| 0 <= i < ti ==> #[trigger] page_shut::<P>(h, w, pages, ps, fwd, i)
}

/// Whether page `ti` was opened for the next object, which did not fit
/// behind the object at `b`, the last one that was moved.
pub open spec fn pending<P: PageAlloc>(
    h: Heap,
    pages: Seq<P::Page>,
    ps: int,
    ti: int,
    u: Slide,
    b: int,
) -> bool {
    &&& moved(u, b)
    &&& forall|c: int| #[trigger] u.marked.contains(c) && c < u.pos ==> c <= b
    &&& P::start_of(pages[ti - 1]) + PAGE_HEADER_SIZE <= u.new[b]
    &&& u.new[b] + 4 * size0(h.w0, b) <= P::start_of(pages[ti - 1]) + ps
    &&& exists|nxt: int| #[trigger] u.marked.contains(nxt) && nxt >= u.pos
    &&& forall|nxt: int|
        #[trigger] next_obj(u.marked, u.pos, nxt) ==> 4 * size0(h.w0, nxt) > P::start_of(
            pages[ti - 1],
        ) + ps - (u.new[b] + 4 * size0(h.w0, b))
}

/// Whether the object at `last` is the moved object at the highest
/// address, and `to_addr` the address behind where it is now.
pub open spec fn is_last(h: Heap, u: Slide, last: int, to_addr: int) -> bool {
    &&& moved(u, last)
    &&& to_addr == u.new[last] + 4 * size0(h.w0, last)
    &&& forall|b: int| #[trigger] u.marked.contains(b) && b < u.pos ==> b <= last
}

/// Where the next object goes: behind the object that was moved last; or
/// to the start of the contents area of a page, which is the first page
/// where nothing was moved yet, and else a page that was opened for an
/// object that is still to be moved.
pub open spec fn tail_ok<P: PageAlloc>(
    h: Heap,
    pages: Seq<P::Page>,
    ps: int,
    ti: int,
    to_addr: int,
    u: Slide,
) -> bool {
    ||| to_addr == P::start_of(pages[ti]) + PAGE_HEADER_SIZE && (if ti == 0 {
        forall|a: int| #[trigger] u.marked.contains(a) ==> a >= u.pos
    } else {
        exists|b: int| #[trigger] pending::<P>(h, pages, ps, ti, u, b)
    })
    ||| exists|last: int| #[trigger] is_last(h, u, last, to_addr)
}

/// The state of the second pass on the pages: the marked objects below
/// `pos` were moved, and the next object goes to `to_addr` in page `ti`.
pub open spec fn slide_state<P: PageAlloc>(
    h: Heap,
    page_alloc: &P,
    pages: Seq<P::Page>,
    ti: int,
    to_addr: int,
    marked: Set<int>,
    pos: int,
) -> bool {
    exists|u: Slide| #[trigger]
        slid(h, page_alloc, pages, ti, to_addr, u) && sliding(h, page_alloc.words(), u) && u.cur
            is None && u.marked == marked && u.pos == pos
}

/// Whether the object at `p` is the marked object at the lowest address
/// that was not moved.
pub open spec fn next_obj(marked: Set<int>, pos: int, p: int) -> bool {
    &&& marked.contains(p)
    &&& p >= pos
    &&& forall|b: int| #[trigger] marked.contains(b) && b >= pos ==> p <= b
}

/// Pages that stand in the order of their addresses do not overlap, and
/// hold no static address.
pub proof fn lemma_pages_apart<P: PageAlloc>(page_alloc: &P, pages: Seq<P::Page>, k1: int, k2: int)
    requires
        page_alloc.wf(),
        pages_ok(page_alloc, pages),
        0 <= k1 < k2 < pages.len(),
    ensures
        P::start_of(pages[k1]) + page_alloc.page_size() <= P::start_of(pages[k2]),
        P::start_of(pages[k1]) % 4 == 0,
        P::start_of(pages[k2]) % 4 == 0,
        0 < P::start_of(pages[k1]),
        P::start_of(pages[k2]) + page_alloc.page_size() <= 0xffff_ffff,
        page_alloc.page_size() % 4 == 0,
        PAGE_HEADER_SIZE < page_alloc.page_size(),
{
    let s1 = P::start_of(pages[k1]);
    let s2 = P::start_of(pages[k2]);
    page_alloc.lemma_page_size();
    page_alloc.lemma_live_handle(pages[k1]);
    page_alloc.lemma_live_handle(pages[k2]);
    page_alloc.lemma_live_page(s1);
    page_alloc.lemma_live_page(s2);
    assert(s1 < s2);
    if s2 < s1 + page_alloc.page_size() {
        page_alloc.lemma_page_mapped(s1, s2);
        page_alloc.lemma_page_mapped(s2, s2);
    }
}

/// A word of a page is mapped and not static, and lies off the static
/// places, the array of roots and the headers of the root boxes.
pub proof fn lemma_page_word<P: PageAlloc>(
    h: Heap,
    page_alloc: &P,
    pages: Seq<P::Page>,
    w: Map<int, u32>,
    k: int,
    x: int,
)
    requires
        page_alloc.wf(),
        pages_ok(page_alloc, pages),
        statics_in(h, page_alloc),
        0 <= k < pages.len(),
        P::start_of(pages[k]) <= x < P::start_of(pages[k]) + page_alloc.page_size(),
    ensures
        x % 4 == 0 ==> page_alloc.words().dom().contains(x),
        !root_frame(h.w0, h.roots, x),
        forall|i: int| 0 <= i < static_count(h) ==> #[trigger] static_addr(h, i) != x,
        0 < x < 0xffff_ffff,
{
    let s = P::start_of(pages[k]);
    page_alloc.lemma_page_size();
    page_alloc.lemma_live_handle(pages[k]);
    page_alloc.lemma_live_page(s);
    if x % 4 == 0 {
        page_alloc.lemma_page_mapped(s, x);
    }
    if root_frame(h.w0, h.roots, x) {
        page_alloc.lemma_page_mapped_static(s, x);
    }
    assert forall|i: int| 0 <= i < static_count(h) implies #[trigger] static_addr(h, i) != x by {
        if static_addr(h, i) == x {
            page_alloc.lemma_page_mapped_static(s, x);
        }
    }
}

/// What the move of the next object reads and decides: the tag and the
/// size of the object are found though its header is threaded; the address
/// that it goes to lies at or below it; and where it does not fit into the
/// rest of page `ti`, there is a next page, which it fits into and whose
/// contents area starts at or below the object.
pub open spec fn move_plan<P: PageAlloc>(
    h: Heap,
    page_alloc: &P,
    pages: Seq<P::Page>,
    ti: int,
    to_addr: int,
    p: int,
) -> bool {
    let w = page_alloc.words();
    let n = size0(h.w0, p);
    let ps = page_alloc.page_size();
    &&& w.dom().contains(p)
    &&& spec_get_tag(w, p) == Ok::<u32, Trap>(h.w0[p])
    &&& spec_object_size_(w, p, h.w0[p]) == Ok::<Words<u32>, Trap>(Words(n as u32))
    &&& 0 < n <= 0x3fff_ffff
    &&& p % 4 == 0
    &&& to_addr <= p
    &&& 4 * n > P::start_of(pages[ti]) + ps - to_addr ==> {
        &&& ti + 1 < pages.len()
        &&& 4 * n <= ps - PAGE_HEADER_SIZE
        &&& P::start_of(pages[ti + 1]) + PAGE_HEADER_SIZE <= p
    }
}

/// The move of the next object can be planned.
#[verifier::rlimit(50)]
pub proof fn lemma_move_plan<P: PageAlloc>(
    h: Heap,
    page_alloc: &P,
    pages: Seq<P::Page>,
    ti: int,
    to_addr: int,
    marked: Set<int>,
    pos: int,
    p: int,
)
    requires
        slide_state(h, page_alloc, pages, ti, to_addr, marked, pos),
        next_obj(marked, pos, p),
    ensures
        move_plan(h, page_alloc, pages, ti, to_addr, p),
{
    let w = page_alloc.words();
    let u = choose|u: Slide| #[trigger]
        slid(h, page_alloc, pages, ti, to_addr, u) && sliding(h, page_alloc.words(), u) && u.cur
            is None && u.marked == marked && u.pos == pos;
    assert(h.objs.contains(p));
    assert(obj_ok(h, p));
    let n = size0(h.w0, p);
    let ji = choose|i: int| #[trigger] in_page_of(page_alloc, pages, i, p, n);
    page_alloc.lemma_page_size();
    if ji < ti {
        lemma_pages_apart(page_alloc, pages, ji, ti);
    }
    if 4 * n > P::start_of(pages[ti]) + page_alloc.page_size() - to_addr {
        assert(ti < ji);
        if ti + 1 < ji {
            lemma_pages_apart(page_alloc, pages, ti + 1, ji);
        }
    }
    crate::gc::mark_compact::sliding::lemma_read_unmoved(h, w, u, p);
}

/// A state of the model that the pages stand for.
pub open spec fn the_state<P: PageAlloc>(
    h: Heap,
    page_alloc: &P,
    pages: Seq<P::Page>,
    ti: int,
    to_addr: int,
    marked: Set<int>,
    pos: int,
) -> Slide {
    choose|u: Slide| #[trigger]
        slid(h, page_alloc, pages, ti, to_addr, u) && sliding(h, page_alloc.words(), u) && u.cur
            is None && u.marked == marked && u.pos == pos
}

/// Whether the next object does not fit into the rest of page `ti`.
pub open spec fn no_room<P: PageAlloc>(
    h: Heap,
    page_alloc: &P,
    pages: Seq<P::Page>,
    ti: int,
    to_addr: int,
    p: int,
) -> bool {
    4 * size0(h.w0, p) > P::start_of(pages[ti]) + page_alloc.page_size() - to_addr
}

/// Where the marked objects are to the rest of page `ti`, which the next
/// object does not fit into: not in it.
proof fn lemma_rest_idle<P: PageAlloc>(
    h: Heap,
    page_alloc: &P,
    pages: Seq<P::Page>,
    ti: int,
    to_addr: int,
    u: Slide,
    p: int,
    x: int,
)
    requires
        slid(h, page_alloc, pages, ti, to_addr, u),
        sliding(h, page_alloc.words(), u),
        u.cur is None,
        next_obj(u.marked, u.pos, p),
        no_room(h, page_alloc, pages, ti, to_addr, p),
    ensures
        to_addr <= x < P::start_of(pages[ti]) + page_alloc.page_size() ==> idle(h, u, x),
        ti + 1 < pages.len(),
        P::start_of(pages[ti + 1]) + PAGE_HEADER_SIZE <= p,
        P::start_of(pages[ti]) + page_alloc.page_size() <= P::start_of(pages[ti + 1]),
        forall|b: int|
            #[trigger] u.marked.contains(b) && b >= u.pos ==> P::start_of(pages[ti + 1])
                + PAGE_HEADER_SIZE <= b,
{
    let w = page_alloc.words();
    assert(h.objs.contains(p));
    assert(obj_ok(h, p));
    let n = size0(h.w0, p);
    let ji = choose|i: int| #[trigger] in_page_of(page_alloc, pages, i, p, n);
    page_alloc.lemma_page_size();
    if ji < ti {
        lemma_pages_apart(page_alloc, pages, ji, ti);
    }
    assert(ti < ji);
    if ti + 1 < ji {
        lemma_pages_apart(page_alloc, pages, ti + 1, ji);
    }
    lemma_pages_apart(page_alloc, pages, ti, ti + 1);
    lemma_pages_apart(page_alloc, pages, ti, ji);
    if to_addr <= x < P::start_of(pages[ti]) + page_alloc.page_size() {
        lemma_page_word(h, page_alloc, pages, w, ti, x);
        assert forall|c: int| #[trigger] u.marked.contains(c) implies !(place(u, c) <= x < place(
            u,
            c,
        ) + 4 * size0(h.w0, c)) by {
            if moved(u, c) {
                let i = choose|i: int| #[trigger]
                    used_of(page_alloc, pages, ti, to_addr, i, u.new[c], size0(h.w0, c));
                if i < ti {
                    lemma_pages_apart(page_alloc, pages, i, ti);
                }
            } else {
                assert(p <= c);
            }
        }
    }
}

/// A write into the rest of page `ti`, which the next object does not fit
/// into, leaves the state of the second pass alone.
pub proof fn lemma_fill_word<P: PageAlloc>(
    h: Heap,
    before: &P,
    after: &P,
    pages: Seq<P::Page>,
    ti: int,
    to_addr: int,
    marked: Set<int>,
    pos: int,
    p: int,
    x: int,
    v: u32,
)
    requires
        slide_state(h, before, pages, ti, to_addr, marked, pos),
        next_obj(marked, pos, p),
        no_room(h, before, pages, ti, to_addr, p),
        to_addr <= x < P::start_of(pages[ti]) + before.page_size(),
        after.wf(),
        same_pages(before, after),
        after.words() == before.words().insert(x, v),
    ensures
        slide_state(h, after, pages, ti, to_addr, marked, pos),
        no_room(h, after, pages, ti, to_addr, p),
{
    let u = the_state(h, before, pages, ti, to_addr, marked, pos);
    lemma_rest_idle(h, before, pages, ti, to_addr, u, p, x);
    lemma_idle_write(h, before.words(), u, x, v);
    assert forall|y: int|
        #[trigger] idle(h, u, y) && in_closed::<P>(
            pages,
            before.page_size(),
            ti,
            y,
        ) implies after.words()[y] == before.words()[y] by {
        let i = choose|i: int| i < ti && #[trigger] in_range::<P>(pages, before.page_size(), i, y);
        lemma_pages_apart(before, pages, i, ti);
    }
    lemma_slid_kept(h, before, after, pages, ti, to_addr, u);
    assert(slid(h, after, pages, ti, to_addr, u) && sliding(h, after.words(), u));
}

/// A word of the rest of a closed page, behind the last object in it, is
/// idle.
#[verifier::rlimit(50)]
pub proof fn lemma_rest_quiet<P: PageAlloc>(
    h: Heap,
    page_alloc: &P,
    pages: Seq<P::Page>,
    ti: int,
    to_addr: int,
    u: Slide,
    i: int,
    b: int,
    x: int,
)
    requires
        slid(h, page_alloc, pages, ti, to_addr, u),
        sliding(h, page_alloc.words(), u),
        0 <= i < ti,
        shuts::<P>(h, page_alloc.words(), pages, page_alloc.page_size(), moved_map(u), i, b),
    ensures
        u.new[b] + 4 * size0(h.w0, b) <= x < P::start_of(pages[i]) + page_alloc.page_size()
            ==> idle(h, u, x) && in_closed::<P>(pages, page_alloc.page_size(), ti, x),
{
    let ps = page_alloc.page_size();
    let w = page_alloc.words();
    let e = u.new[b] + 4 * size0(h.w0, b);
    if e <= x < P::start_of(pages[i]) + ps {
        lemma_pages_apart(page_alloc, pages, i, ti);
        lemma_page_word(h, page_alloc, pages, w, i, x);
        assert(in_range::<P>(pages, ps, i, x));
        assert forall|c: int| #[trigger] u.marked.contains(c) implies !(place(u, c) <= x < place(
            u,
            c,
        ) + 4 * size0(h.w0, c)) by {
            assert(obj_ok(h, c));
            if moved(u, c) {
                let j = choose|j: int| #[trigger]
                    used_of(page_alloc, pages, ti, to_addr, j, u.new[c], size0(h.w0, c));
                if j < i {
                    lemma_pages_apart(page_alloc, pages, j, i);
                } else if i < j {
                    lemma_pages_apart(page_alloc, pages, i, j);
                } else {
                    assert(moved_map(u).dom().contains(c));
                    assert(in_range::<P>(pages, ps, i, u.new[c]));
                }
            }
        }
    }
}

/// The pages hold the heap in the same state after a change of words.
pub proof fn lemma_slid_kept<P: PageAlloc>(
    h: Heap,
    before: &P,
    after: &P,
    pages: Seq<P::Page>,
    ti: int,
    to_addr: int,
    u: Slide,
)
    requires
        slid(h, before, pages, ti, to_addr, u),
        sliding(h, before.words(), u),
        after.wf(),
        same_pages(before, after),
        forall|x: int|
            #[trigger] idle(h, u, x) && in_closed::<P>(pages, before.page_size(), ti, x)
                ==> after.words()[x] == before.words()[x],
    ensures
        slid(h, after, pages, ti, to_addr, u),
{
    let ps = before.page_size();
    let f = moved_map(u);
    assert forall|i: int| 0 <= i < ti implies #[trigger] page_shut::<P>(
        h,
        after.words(),
        pages,
        ps,
        f,
        i,
    ) by {
        assert(page_shut::<P>(h, before.words(), pages, ps, f, i));
        let b = choose|b: int| #[trigger] shuts::<P>(h, before.words(), pages, ps, f, i, b);
        let e = f[b] + 4 * size0(h.w0, b);
        lemma_rest_quiet(h, before, pages, ti, to_addr, u, i, b, e);
        lemma_rest_quiet(h, before, pages, ti, to_addr, u, i, b, e + 4);
        assert(shuts::<P>(h, after.words(), pages, ps, f, i, b));
    }
    assert forall|a: int| #[trigger] h.objs.contains(a) implies exists|i: int| #[trigger]
        in_page_of(after, pages, i, a, size0(h.w0, a)) by {
        let i = choose|i: int| #[trigger] in_page_of(before, pages, i, a, size0(h.w0, a));
        assert(in_page_of(after, pages, i, a, size0(h.w0, a)));
    }
    assert forall|a: int| #[trigger] u.marked.contains(a) && a < u.pos implies exists|i: int| #[trigger]
        used_of(after, pages, ti, to_addr, i, u.new[a], size0(h.w0, a)) by {
        let i = choose|i: int| #[trigger]
            used_of(before, pages, ti, to_addr, i, u.new[a], size0(h.w0, a));
        assert(used_of(after, pages, ti, to_addr, i, u.new[a], size0(h.w0, a)));
    }
}

/// The object that was moved last lies in the page that the next object
/// goes to.
proof fn lemma_last_in_page<P: PageAlloc>(
    h: Heap,
    page_alloc: &P,
    pages: Seq<P::Page>,
    ti: int,
    to_addr: int,
    u: Slide,
    last: int,
)
    requires
        slid(h, page_alloc, pages, ti, to_addr, u),
        heap_ok(h),
        forall|a: int| #[trigger] u.marked.contains(a) ==> h.objs.contains(a),
        is_last(h, u, last, to_addr),
    ensures
        P::start_of(pages[ti]) + PAGE_HEADER_SIZE <= u.new[last],
        u.new[last] + 4 * size0(h.w0, last) <= P::start_of(pages[ti]) + page_alloc.page_size(),
        moved_map(u).dom().contains(last),
        moved_map(u)[last] == u.new[last],
{
    let i = choose|i: int| #[trigger]
        used_of(page_alloc, pages, ti, to_addr, i, u.new[last], size0(h.w0, last));
    assert(obj_ok(h, last));
    if i < ti {
        lemma_pages_apart(page_alloc, pages, i, ti);
    }
}

/// A moved object that lies in the page that the next object goes to ends
/// at or below the address that the next object goes to.
proof fn lemma_copy_below<P: PageAlloc>(
    h: Heap,
    page_alloc: &P,
    pages: Seq<P::Page>,
    ti: int,
    to_addr: int,
    u: Slide,
    c: int,
)
    requires
        slid(h, page_alloc, pages, ti, to_addr, u),
        heap_ok(h),
        forall|a: int| #[trigger] u.marked.contains(a) ==> h.objs.contains(a),
        moved(u, c),
        in_range::<P>(pages, page_alloc.page_size(), ti, u.new[c]),
    ensures
        u.new[c] + 4 * size0(h.w0, c) <= to_addr,
{
    let j = choose|j: int| #[trigger]
        used_of(page_alloc, pages, ti, to_addr, j, u.new[c], size0(h.w0, c));
    assert(obj_ok(h, c));
    if j < ti {
        lemma_pages_apart(page_alloc, pages, j, ti);
    }
}

/// The page that is left behind for the next object, which does not fit
/// into its rest, is closed, and the next page is opened for that object.
#[verifier::rlimit(50)]
proof fn lemma_switch_tail<P: PageAlloc>(
    h: Heap,
    page_alloc: &P,
    pages: Seq<P::Page>,
    ti: int,
    to_addr: int,
    u: Slide,
    p: int,
)
    requires
        slid(h, page_alloc, pages, ti, to_addr, u),
        heap_ok(h),
        forall|a: int| #[trigger] u.marked.contains(a) ==> h.objs.contains(a),
        next_obj(u.marked, u.pos, p),
        no_room(h, page_alloc, pages, ti, to_addr, p),
        ti + 1 < pages.len(),
        crate::gc::copying::wellformed::is_filler(
            page_alloc.words(),
            to_addr,
            P::start_of(pages[ti]) + page_alloc.page_size(),
        ),
    ensures
        tail_ok::<P>(
            h,
            pages,
            page_alloc.page_size(),
            ti + 1,
            P::start_of(pages[ti + 1]) + PAGE_HEADER_SIZE,
            u,
        ),
        sealed::<P>(
            h,
            page_alloc.words(),
            pages,
            page_alloc.page_size(),
            moved_map(u),
            ti + 1,
        ),
{
    let ps = page_alloc.page_size();
    let w = page_alloc.words();
    let f = moved_map(u);
    assert(h.objs.contains(p));
    assert(obj_ok(h, p));
    let ji = choose|i: int| #[trigger] in_page_of(page_alloc, pages, i, p, size0(h.w0, p));
    page_alloc.lemma_page_size();
    assert(tail_ok::<P>(h, pages, ps, ti, to_addr, u));
    assert(to_addr != P::start_of(pages[ti]) + PAGE_HEADER_SIZE);
    let last = choose|last: int| #[trigger] is_last(h, u, last, to_addr);
    assert(is_last(h, u, last, to_addr));
    lemma_last_in_page(h, page_alloc, pages, ti, to_addr, u, last);
    assert(next_obj(u.marked, u.pos, p));
    assert(pending::<P>(h, pages, ps, ti + 1, u, last)) by {
        assert forall|nxt: int| #[trigger] next_obj(u.marked, u.pos, nxt) implies 4 * size0(
            h.w0,
            nxt,
        ) > P::start_of(pages[ti]) + ps - (u.new[last] + 4 * size0(h.w0, last)) by {
            assert(nxt <= p && p <= nxt);
        }
        assert(u.marked.contains(p) && p >= u.pos);
    }
    assert(shuts::<P>(h, w, pages, ps, f, ti, last)) by {
        assert forall|c: int|
            #[trigger] f.dom().contains(c) && in_range::<P>(pages, ps, ti, f[c]) implies f[c] + 4
            * size0(h.w0, c) <= to_addr by {
            lemma_copy_below(h, page_alloc, pages, ti, to_addr, u, c);
        }
    }
    assert(page_shut::<P>(h, w, pages, ps, f, ti));
    assert forall|i: int| 0 <= i < ti + 1 implies #[trigger] page_shut::<P>(
        h,
        w,
        pages,
        ps,
        f,
        i,
    ) by {
        if i < ti {
            assert(page_shut::<P>(h, w, pages, ps, f, i));
        }
    }
}

/// Where the next object does not fit into the rest of page `ti`, it goes
/// to the start of the next page.
pub proof fn lemma_switch_page<P: PageAlloc>(
    h: Heap,
    page_alloc: &P,
    pages: Seq<P::Page>,
    ti: int,
    to_addr: int,
    marked: Set<int>,
    pos: int,
    p: int,
)
    requires
        slide_state(h, page_alloc, pages, ti, to_addr, marked, pos),
        next_obj(marked, pos, p),
        no_room(h, page_alloc, pages, ti, to_addr, p),
        crate::gc::copying::wellformed::is_filler(
            page_alloc.words(),
            to_addr,
            P::start_of(pages[ti]) + page_alloc.page_size(),
        ),
    ensures
        ti + 1 < pages.len(),
        slide_state(
            h,
            page_alloc,
            pages,
            ti + 1,
            P::start_of(pages[ti + 1]) + PAGE_HEADER_SIZE,
            marked,
            pos,
        ),
        !no_room(
            h,
            page_alloc,
            pages,
            ti + 1,
            P::start_of(pages[ti + 1]) + PAGE_HEADER_SIZE,
            p,
        ),
{
    let u = the_state(h, page_alloc, pages, ti, to_addr, marked, pos);
    let d = P::start_of(pages[ti + 1]) + PAGE_HEADER_SIZE;
    lemma_rest_idle(h, page_alloc, pages, ti, to_addr, u, p, to_addr);
    lemma_pages_apart(page_alloc, pages, ti, ti + 1);
    assert forall|a: int| #[trigger] u.marked.contains(a) && a < u.pos implies exists|i: int| #[trigger]
        used_of(page_alloc, pages, ti + 1, d, i, u.new[a], size0(h.w0, a)) by {
        let i = choose|i: int| #[trigger]
            used_of(page_alloc, pages, ti, to_addr, i, u.new[a], size0(h.w0, a));
        assert(used_of(page_alloc, pages, ti + 1, d, i, u.new[a], size0(h.w0, a)));
    }
    assert(h.objs.contains(p));
    assert(obj_ok(h, p));
    let ji = choose|i: int| #[trigger] in_page_of(page_alloc, pages, i, p, size0(h.w0, p));
    lemma_switch_tail(h, page_alloc, pages, ti, to_addr, u, p);
    assert(slid(h, page_alloc, pages, ti + 1, d, u) && sliding(h, page_alloc.words(), u));
}

/// What the move of the next object to `to_addr`, where it fits, can rely
/// on: the object can be unthreaded, and the words that it is copied from
/// and to are mapped.
pub open spec fn move_ready<P: PageAlloc>(h: Heap, page_alloc: &P, to_addr: int, p: int) -> bool {
    let w = page_alloc.words();
    let n = size0(h.w0, p);
    &&& unthread_outcome(w, p, to_addr) is Ok
    &&& to_addr % 4 == 0
    &&& p % 4 == 0
    &&& 0 < to_addr <= p
    &&& p + 4 * n <= 0xffff_ffff
    &&& crate::page_alloc::mapped_range(w, to_addr, to_addr + 4 * n)
    &&& crate::page_alloc::mapped_range(w, p, p + 4 * n)
}

/// The next object can be moved to `to_addr` where it fits into the rest
/// of page `ti`.
#[verifier::rlimit(50)]
pub proof fn lemma_move_ready<P: PageAlloc>(
    h: Heap,
    page_alloc: &P,
    pages: Seq<P::Page>,
    ti: int,
    to_addr: int,
    marked: Set<int>,
    pos: int,
    p: int,
)
    requires
        slide_state(h, page_alloc, pages, ti, to_addr, marked, pos),
        next_obj(marked, pos, p),
        !no_room(h, page_alloc, pages, ti, to_addr, p),
    ensures
        move_ready(h, page_alloc, to_addr, p),
        next_move(
            h,
            page_alloc.words(),
            the_state(h, page_alloc, pages, ti, to_addr, marked, pos),
            p,
            to_addr,
        ),
{
    let w = page_alloc.words();
    let u = the_state(h, page_alloc, pages, ti, to_addr, marked, pos);
    let n = size0(h.w0, p);
    assert(h.objs.contains(p));
    assert(obj_ok(h, p));
    let ji = choose|i: int| #[trigger] in_page_of(page_alloc, pages, i, p, n);
    page_alloc.lemma_page_size();
    page_alloc.lemma_live_handle(pages[ti]);
    page_alloc.lemma_live_page(P::start_of(pages[ti]));
    assert forall|k: int| 0 <= k < n implies #[trigger] w.dom().contains(to_addr + 4 * k) by {
        lemma_page_word(h, page_alloc, pages, w, ti, to_addr + 4 * k);
    }
    assert(clear(h, to_addr, n)) by {
        assert forall|i: int| 0 <= i < static_count(h) implies !(to_addr <= #[trigger] static_addr(
            h,
            i,
        ) < to_addr + 4 * n) by {
            if to_addr <= static_addr(h, i) < to_addr + 4 * n {
                lemma_page_word(h, page_alloc, pages, w, ti, static_addr(h, i));
            }
        }
        assert forall|x: int| #[trigger] root_frame(h.w0, h.roots, x) implies !(to_addr <= x
            < to_addr + 4 * n) by {
            if to_addr <= x < to_addr + 4 * n {
                lemma_page_word(h, page_alloc, pages, w, ti, x);
            }
        }
    }
    assert(next_move(h, w, u, p, to_addr));
    lemma_unthreaded(h, w, u, p, to_addr);
    assert(crate::page_alloc::mapped_range(w, to_addr, to_addr + 4 * n)) by {
        assert forall|x: int| to_addr <= x < to_addr + 4 * n && x % 4 == 0 implies 
            #[trigger] w.dom().contains(x) by {
            lemma_page_word(h, page_alloc, pages, w, ti, x);
        }
    }
    assert(crate::page_alloc::mapped_range(w, p, p + 4 * n)) by {
        assert forall|x: int| p <= x < p + 4 * n && x % 4 == 0 implies #[trigger] w.dom().contains(
            x,
        ) by {
            lemma_page_word(h, page_alloc, pages, w, ji, x);
        }
    }
}

/// The memory after the object at `p` was unthreaded to `d` and copied
/// there.
pub open spec fn moved_words(h: Heap, w: Map<int, u32>, p: int, d: int) -> Map<int, u32> {
    if d != p {
        crate::mem_utils::copy_region(unthreaded(w, p, d), d, p, size0(h.w0, p))
    } else {
        unthreaded(w, p, d)
    }
}

/// No object of the heap lies in static memory.
pub open spec fn dynamic_objs<P: PageAlloc>(h: Heap, page_alloc: &P) -> bool {
    forall|a: int| #[trigger] h.objs.contains(a) ==> !page_alloc.is_static(a)
}

/// What `thread_fwd_pointers` is called on in the second pass of a
/// compaction: the object that was moved from `old_addr` to `obj`, none of
/// whose pointer fields was visited.
pub open spec fn fwd_ready<P: PageAlloc>(
    h: Heap,
    page_alloc: &P,
    u: Slide,
    obj: int,
    old_addr: int,
) -> bool {
    &&& u.cur is Some
    &&& u.cur->Some_0.0 == old_addr
    &&& u.new[old_addr] == obj
    &&& fwd_mid(h, page_alloc.words(), u, 0)
    &&& dynamic_objs(h, page_alloc)
}

/// After the next object was unthreaded and copied to where it goes, its
/// forward pointers can be threaded.
#[verifier::rlimit(50)]
pub proof fn lemma_moved_state<P: PageAlloc>(
    h: Heap,
    before: &P,
    after: &P,
    pages: Seq<P::Page>,
    ti: int,
    d: int,
    marked: Set<int>,
    pos: int,
    p: int,
)
    requires
        slide_state(h, before, pages, ti, d, marked, pos),
        next_obj(marked, pos, p),
        !no_room(h, before, pages, ti, d, p),
        after.wf(),
        same_pages(before, after),
        after.words() == moved_words(h, before.words(), p, d),
    ensures
        fwd_ready(
            h,
            after,
            after_move(h, the_state(h, before, pages, ti, d, marked, pos), p, d),
            d,
            p,
        ),
{
    let w = before.words();
    let u = the_state(h, before, pages, ti, d, marked, pos);
    let u1 = after_move(h, u, p, d);
    let n = size0(h.w0, p);
    lemma_move_ready(h, before, pages, ti, d, marked, pos, p);
    lemma_unthreaded(h, w, u, p, d);
    let wu = unthreaded(w, p, d);
    assert(h.objs.contains(p));
    assert(obj_ok(h, p));
    if d != p {
        crate::gc::mark_compact::sliding::lemma_copied(wu, p, d, n);
    }
    assert(copy_words(wu, after.words(), p, d, n));
    lemma_moved(h, w, wu, after.words(), u, p, d);
    assert(sliding(h, after.words(), u1) && u1.cur == Some((p, 0int)) && moves_of(u1)
        == moves_of(u1));
    assert forall|a: int| #[trigger] h.objs.contains(a) implies !after.is_static(a) by {
        let i = choose|i: int| #[trigger] in_page_of(before, pages, i, a, size0(h.w0, a));
        assert(obj_ok(h, a));
        before.lemma_page_size();
        before.lemma_live_handle(pages[i]);
        before.lemma_live_page(P::start_of(pages[i]));
        before.lemma_page_mapped(P::start_of(pages[i]), a);
    }
}

/// The moved objects are packed still when the next object was moved to
/// where the next object goes.
#[verifier::rlimit(50)]
proof fn lemma_packed_moved<P: PageAlloc>(
    h: Heap,
    page_alloc: &P,
    pages: Seq<P::Page>,
    ti: int,
    d: int,
    u: Slide,
    u3: Slide,
    p: int,
)
    requires
        slid(h, page_alloc, pages, ti, d, u),
        next_obj(u.marked, u.pos, p),
        u3.marked == u.marked,
        u3.pos == p + 1,
        u3.new == u.new.insert(p, d),
    ensures
        packed::<P>(h, pages, page_alloc.page_size(), moved_map(u3)),
{
    reveal(packed);
    let ps = page_alloc.page_size();
    let f = moved_map(u);
    let f3 = moved_map(u3);
    assert forall|c: int| f3.dom().contains(c) <==> f.dom().contains(c) || c == p by {}
    assert forall|c: int| f.dom().contains(c) implies f3[c] == f[c] && c < p by {}
    assert forall|a: int| #[trigger] f3.dom().contains(a) implies (exists|b: int| #[trigger]
        behind(h, f3, b, a)) || (exists|i: int| #[trigger] heads::<P>(h, pages, ps, f3, i, a)) by {
        if a == p {
            if exists|last: int| #[trigger] is_last(h, u, last, d) {
                let last = choose|last: int| #[trigger] is_last(h, u, last, d);
                assert(f3.dom().contains(last));
                assert(behind(h, f3, last, p));
            } else if ti == 0 {
                assert(heads::<P>(h, pages, ps, f3, 0, p));
            } else {
                let b = choose|b: int| #[trigger] pending::<P>(h, pages, ps, ti, u, b);
                assert(f3.dom().contains(b));
                assert(next_obj(u.marked, u.pos, p));
                assert(shut::<P>(h, pages, ps, f3, ti, b, p));
                assert(heads::<P>(h, pages, ps, f3, ti, p));
            }
        } else {
            assert(f.dom().contains(a));
            if exists|b: int| #[trigger] behind(h, f, b, a) {
                let b = choose|b: int| #[trigger] behind(h, f, b, a);
                assert(f3.dom().contains(b));
                assert(behind(h, f3, b, a));
            } else {
                let i = choose|i: int| #[trigger] heads::<P>(h, pages, ps, f, i, a);
                if i > 0 {
                    let b = choose|b: int| #[trigger] shut::<P>(h, pages, ps, f, i, b, a);
                    assert(f3.dom().contains(b));
                    assert(shut::<P>(h, pages, ps, f3, i, b, a));
                }
                assert(heads::<P>(h, pages, ps, f3, i, a));
            }
        }
    }
}

/// The move of the object at `p` to `d` has left the words alone that
/// are idle before it and after it.
pub open spec fn move_frame<P: PageAlloc>(
    h: Heap,
    before: &P,
    after: &P,
    pages: Seq<P::Page>,
    ti: int,
    d: int,
    marked: Set<int>,
    pos: int,
    p: int,
) -> bool {
    let u = the_state(h, before, pages, ti, d, marked, pos);
    forall|x: int|
        #[trigger] idle(h, u, x) && idle(h, after_move(h, u, p, d), x) ==> after.words()[x]
            == before.words()[x]
}

/// The move of the next object leaves the words alone that are idle
/// before it and after it.
pub proof fn lemma_move_frame<P: PageAlloc>(
    h: Heap,
    before: &P,
    copied: &P,
    after: &P,
    pages: Seq<P::Page>,
    ti: int,
    d: int,
    marked: Set<int>,
    pos: int,
    p: int,
)
    requires
        slide_state(h, before, pages, ti, d, marked, pos),
        next_obj(marked, pos, p),
        !no_room(h, before, pages, ti, d, p),
        copied.words() == moved_words(h, before.words(), p, d),
        crate::gc::mark_compact::sliding::idle_kept(
            h,
            after_move(h, the_state(h, before, pages, ti, d, marked, pos), p, d),
            copied.words(),
            after.words(),
        ),
    ensures
        move_frame(h, before, after, pages, ti, d, marked, pos, p),
{
    let w = before.words();
    let u = the_state(h, before, pages, ti, d, marked, pos);
    let n = size0(h.w0, p);
    lemma_move_ready(h, before, pages, ti, d, marked, pos, p);
    lemma_unthreaded(h, w, u, p, d);
    let wu = unthreaded(w, p, d);
    assert(h.objs.contains(p));
    assert(obj_ok(h, p));
    if d != p {
        crate::gc::mark_compact::sliding::lemma_copied(wu, p, d, n);
    }
    assert(copy_words(wu, copied.words(), p, d, n));
    assert forall|x: int|
        #[trigger] idle(h, u, x) && idle(h, after_move(h, u, p, d), x) implies after.words()[x]
        == w[x] by {
        crate::gc::mark_compact::sliding::lemma_moved_keeps(h, w, wu, copied.words(), u, p, d, x);
    }
}

/// A word of a closed page that is idle before the next object is moved
/// into page `ti` is idle after the move.
proof fn lemma_closed_idle<P: PageAlloc>(
    h: Heap,
    page_alloc: &P,
    pages: Seq<P::Page>,
    ti: int,
    d: int,
    u: Slide,
    p: int,
    x: int,
)
    requires
        page_alloc.wf(),
        pages_ok(page_alloc, pages),
        0 <= ti < pages.len(),
        P::start_of(pages[ti]) + PAGE_HEADER_SIZE <= d,
        next_obj(u.marked, u.pos, p),
        idle(h, u, x),
        in_closed::<P>(pages, page_alloc.page_size(), ti, x),
    ensures
        idle(h, after_move(h, u, p, d), x),
{
    let u1 = after_move(h, u, p, d);
    let i = choose|i: int| i < ti && #[trigger] in_range::<P>(pages, page_alloc.page_size(), i, x);
    lemma_pages_apart(page_alloc, pages, i, ti);
    assert forall|c: int| #[trigger] u1.marked.contains(c) implies !(place(u1, c) <= x < place(
        u1,
        c,
    ) + 4 * size0(h.w0, c)) by {
        if c != p {
            assert(u.marked.contains(c));
            assert(place(u1, c) == place(u, c));
        }
    }
}

/// The closed pages are closed still when the next object was moved into
/// page `ti`.
#[verifier::rlimit(50)]
proof fn lemma_sealed_moved<P: PageAlloc>(
    h: Heap,
    after: &P,
    pages: Seq<P::Page>,
    ti: int,
    d: int,
    u: Slide,
    u3: Slide,
    p: int,
)
    requires
        after.wf(),
        pages_ok(after, pages),
        0 <= ti < pages.len(),
        P::start_of(pages[ti]) + PAGE_HEADER_SIZE <= d,
        sealed::<P>(h, after.words(), pages, after.page_size(), moved_map(u), ti),
        next_obj(u.marked, u.pos, p),
        u3.marked == u.marked,
        u3.pos == p + 1,
        u3.new == u.new.insert(p, d),
    ensures
        sealed::<P>(h, after.words(), pages, after.page_size(), moved_map(u3), ti),
{
    assert forall|i: int| 0 <= i < ti implies #[trigger] page_shut::<P>(
        h,
        after.words(),
        pages,
        after.page_size(),
        moved_map(u3),
        i,
    ) by {
        let ps = after.page_size();
        assert(page_shut::<P>(h, after.words(), pages, ps, moved_map(u), i));
        let b = choose|b: int| #[trigger]
            shuts::<P>(h, after.words(), pages, ps, moved_map(u), i, b);
        lemma_pages_apart(after, pages, i, ti);
        assert(moved_map(u3).dom().contains(b) && moved_map(u3)[b] == moved_map(u)[b]);
        assert forall|c: int|
            #[trigger] moved_map(u3).dom().contains(c) && in_range::<P>(
                pages,
                ps,
                i,
                moved_map(u3)[c],
            ) implies moved_map(u3)[c] + 4 * size0(h.w0, c) <= moved_map(u3)[b] + 4 * size0(
            h.w0,
            b,
        ) by {
            assert(c != p);
            assert(moved_map(u).dom().contains(c));
        }
        assert(shuts::<P>(h, after.words(), pages, ps, moved_map(u3), i, b));
    }
}

/// The state of the second pass after the next object was moved and its
/// forward pointers were threaded: the object after it is next, and goes
/// behind it.
#[verifier::rlimit(50)]
pub proof fn lemma_relocated<P: PageAlloc>(
    h: Heap,
    before: &P,
    after: &P,
    pages: Seq<P::Page>,
    ti: int,
    d: int,
    marked: Set<int>,
    pos: int,
    p: int,
)
    requires
        slide_state(h, before, pages, ti, d, marked, pos),
        next_obj(marked, pos, p),
        !no_room(h, before, pages, ti, d, p),
        after.wf(),
        same_pages(before, after),
        fwd_done(
            h,
            after.words(),
            after_move(h, the_state(h, before, pages, ti, d, marked, pos), p, d),
        ),
        move_frame(h, before, after, pages, ti, d, marked, pos, p),
    ensures
        slide_state(h, after, pages, ti, d + 4 * size0(h.w0, p), marked, p + 1),
{
    let u = the_state(h, before, pages, ti, d, marked, pos);
    let u1 = after_move(h, u, p, d);
    let n = size0(h.w0, p);
    let u3 = choose|u3: Slide| #[trigger]
        sliding(h, after.words(), u3) && u3.cur is None && moves_of(u3) == moves_of(u1);
    assert(h.objs.contains(p));
    assert(obj_ok(h, p));
    assert forall|x: int|
        #[trigger] idle(h, u, x) && in_closed::<P>(
            pages,
            before.page_size(),
            ti,
            x,
        ) implies after.words()[x] == before.words()[x] by {
        lemma_closed_idle(h, before, pages, ti, d, u, p, x);
    }
    lemma_slid_kept(h, before, after, pages, ti, d, u);
    assert forall|a: int| #[trigger] u3.marked.contains(a) && a < u3.pos implies exists|i: int| #[trigger]
        used_of(after, pages, ti, d + 4 * n, i, u3.new[a], size0(h.w0, a)) by {
        if a == p {
            assert(used_of(after, pages, ti, d + 4 * n, ti, d, n));
        } else {
            assert(u.marked.contains(a) && a < u.pos);
            let i = choose|i: int| #[trigger]
                used_of(after, pages, ti, d, i, u.new[a], size0(h.w0, a));
            assert(used_of(after, pages, ti, d + 4 * n, i, u3.new[a], size0(h.w0, a)));
        }
    }
    assert(is_last(h, u3, p, d + 4 * n));
    lemma_packed_moved(h, after, pages, ti, d, u, u3, p);
    lemma_sealed_moved(h, after, pages, ti, d, u, u3, p);
    assert(slid(h, after, pages, ti, d + 4 * n, u3) && sliding(h, after.words(), u3));
}

/// The marked objects of the heap: those whose bit is set in the bitmap of
/// their page.
pub open spec fn marks_of<P: PageAlloc>(h: Heap, page_alloc: &P) -> Set<int> {
    Set::new(|a: int| h.objs.contains(a) && marked_bit(page_alloc, a))
}

/// What the second pass starts from: the heap as the mark phase leaves it
/// when all static places were visited and the stack is empty, in a space
/// whose pages hold the objects and have the bitmaps with the marks.
pub open spec fn update_ready<P: PageAlloc>(h: Heap, space: &Space<P>) -> bool {
    let pa = &space.page_alloc;
    &&& space.wf()
    &&& exists|m: Marks| #[trigger]
        marking(h, pa.words(), m) && m.cur is None && m.stack.len() == 0 && m.nd == static_count(
            h,
        ) && m.marked == marks_of(h, pa)
    &&& forall|i: int| 0 <= i < space.pages@.len() ==> #[trigger] page_ready(space, i)
    &&& forall|a: int| #[trigger] h.objs.contains(a) ==> placed(h, space, a)
    &&& forall|i: int, k: int|
        0 <= i < space.pages@.len() && #[trigger] bit_of(space, i, k) ==> h.objs.contains(
            space.start(i) + PAGE_HEADER_SIZE + 4 * k,
        )
    &&& statics_in(h, pa)
}

/// The state of the second pass on the pages when the marked objects
/// below `scan` were moved.
pub open spec fn scan_state<P: PageAlloc>(
    h: Heap,
    page_alloc: &P,
    pages: Seq<P::Page>,
    ti: int,
    to_addr: int,
    marked: Set<int>,
    scan: int,
) -> bool {
    exists|pos: int| #[trigger]
        slide_state(h, page_alloc, pages, ti, to_addr, marked, pos) && reaches(marked, pos, scan)
}

/// Whether the marked objects below `scan` are those below `pos`.
pub open spec fn reaches(marked: Set<int>, pos: int, scan: int) -> bool {
    &&& pos <= scan
    &&& forall|b: int| #[trigger] marked.contains(b) && b >= pos ==> b >= scan
}

/// An address below which the marked objects were moved.
pub open spec fn the_pos<P: PageAlloc>(
    h: Heap,
    page_alloc: &P,
    pages: Seq<P::Page>,
    ti: int,
    to_addr: int,
    marked: Set<int>,
    scan: int,
) -> int {
    choose|pos: int| #[trigger]
        slide_state(h, page_alloc, pages, ti, to_addr, marked, pos) && reaches(marked, pos, scan)
}

/// Whether `pages` are the pages of the space in the order of their
/// addresses.
pub open spec fn sorted_of<P: PageAlloc>(space: &Space<P>, pages: Seq<P::Page>) -> bool {
    &&& pages.len() == space.pages@.len()
    &&& Space::<P>::ascending(pages)
    &&& forall|k: int|
        0 <= k < pages.len() ==> Space::<P>::among(
            space.pages@,
            space.pages@.len() as int,
            #[trigger] pages[k],
        )
    &&& forall|i: int|
        0 <= i < space.pages@.len() ==> Space::<P>::among(
            pages,
            pages.len() as int,
            #[trigger] space.pages@[i],
        )
}

/// The start of the contents area of page `k`, or the end of the address
/// space where there is no such page.
pub open spec fn page_scan<P: PageAlloc>(pages: Seq<P::Page>, k: int) -> int {
    if k < pages.len() {
        P::start_of(pages[k]) + PAGE_HEADER_SIZE
    } else {
        0x1_0000_0008
    }
}

/// The second pass starts with no object moved, at the start of the
/// contents area of the first page.
#[verifier::rlimit(50)]
pub proof fn lemma_update_start<P: PageAlloc>(h: Heap, space: &Space<P>, pages: Seq<P::Page>)
    requires
        update_ready(h, space),
        sorted_of(space, pages),
    ensures
        scan_state(
            h,
            &space.page_alloc,
            pages,
            0,
            P::start_of(pages[0]) + PAGE_HEADER_SIZE,
            marks_of(h, &space.page_alloc),
            page_scan::<P>(pages, 0),
        ),
{
    reveal(packed);
    let pa = &space.page_alloc;
    let w = pa.words();
    let m = choose|m: Marks| #[trigger]
        marking(h, pa.words(), m) && m.cur is None && m.stack.len() == 0 && m.nd == static_count(
            h,
        ) && m.marked == marks_of(h, pa);
    crate::gc::mark_compact::sliding::lemma_slide_start(h, w, m);
    let u = Slide {
        marked: m.marked,
        pos: 0,
        free: 0,
        new: Map::empty(),
        cur: None,
        chains: m.chains,
    };
    let d = P::start_of(pages[0]) + PAGE_HEADER_SIZE;
    pa.lemma_page_size();
    assert forall|k: int| 0 <= k < pages.len() implies pa.is_live(#[trigger] pages[k]) by {
        assert(Space::<P>::among(space.pages@, space.pages@.len() as int, pages[k]));
        let j = choose|j: int|
            0 <= j < space.pages@.len() && j < space.pages@.len() && #[trigger] space.pages@[j]
                == pages[k];
        assert(pa.is_live(space.pages@[j]));
    }
    pa.lemma_live_handle(pages[0]);
    pa.lemma_live_page(P::start_of(pages[0]));
    assert forall|a: int| #[trigger] h.objs.contains(a) implies (exists|i: int| #[trigger]
        in_page_of(pa, pages, i, a, size0(h.w0, a))) && d <= a by {
        assert(placed(h, space, a));
        let i = choose|i: int| #[trigger]
            crate::gc::mark_compact::mark_phase::in_contents(space, i, a, size0(h.w0, a));
        assert(Space::<P>::among(pages, pages.len() as int, space.pages@[i]));
        let k = choose|k: int|
            0 <= k < pages.len() && k < pages.len() && #[trigger] pages[k] == space.pages@[i];
        assert(in_page_of(pa, pages, k, a, size0(h.w0, a)));
        if 0 < k {
            assert(P::start_of(pages[0]) < P::start_of(pages[k]));
        }
    }
    assert(slid(h, pa, pages, 0, d, u) && sliding(h, pa.words(), u));
    assert(slide_state(h, pa, pages, 0, d, marks_of(h, pa), 0));
    assert(reaches(marks_of(h, pa), 0, page_scan::<P>(pages, 0)));
}

/// The scan reaches further where no marked object lies in between.
pub proof fn lemma_scan_advance<P: PageAlloc>(
    h: Heap,
    page_alloc: &P,
    pages: Seq<P::Page>,
    ti: int,
    to_addr: int,
    marked: Set<int>,
    lo: int,
    hi: int,
)
    requires
        scan_state(h, page_alloc, pages, ti, to_addr, marked, lo),
        lo <= hi,
        forall|b: int| #[trigger] marked.contains(b) ==> !(lo <= b < hi),
    ensures
        scan_state(h, page_alloc, pages, ti, to_addr, marked, hi),
{
    let pos = the_pos(h, page_alloc, pages, ti, to_addr, marked, lo);
    assert(slide_state(h, page_alloc, pages, ti, to_addr, marked, pos) && reaches(
        marked,
        pos,
        hi,
    ));
}

/// The state of the second pass after the object at `p` was moved: the
/// scan has reached the word behind its header.
pub proof fn lemma_scan_moved<P: PageAlloc>(
    h: Heap,
    page_alloc: &P,
    pages: Seq<P::Page>,
    ti: int,
    to_addr: int,
    marked: Set<int>,
    p: int,
)
    requires
        slide_state(h, page_alloc, pages, ti, to_addr, marked, p + 1),
        marked.contains(p),
    ensures
        scan_state(h, page_alloc, pages, ti, to_addr, marked, p + 4),
{
    let u = the_state(h, page_alloc, pages, ti, to_addr, marked, p + 1);
    assert(obj_ok(h, p));
    assert forall|b: int| #[trigger] marked.contains(b) && b >= p + 1 implies b >= p + 4 by {
        assert(obj_ok(h, b));
    }
    assert(slide_state(h, page_alloc, pages, ti, to_addr, marked, p + 1) && reaches(
        marked,
        p + 1,
        p + 4,
    ));
}

/// The page of `pages` that holds a given object of the heap.
pub proof fn lemma_object_page<P: PageAlloc>(
    h: Heap,
    space: &Space<P>,
    pages: Seq<P::Page>,
    b: int,
) -> (k: int)
    requires
        update_ready(h, space),
        sorted_of(space, pages),
        h.objs.contains(b),
    ensures
        in_page_of(&space.page_alloc, pages, k, b, size0(h.w0, b)),
        space.page_alloc.bitmap(P::start_of(pages[k])) is Some,
        space.page_alloc.bitmap(P::start_of(pages[k]))->Some_0@.len()
            == space.page_alloc.page_size() / 4,
        space.page_alloc.page_containing(b) == P::start_of(pages[k]),
        space.page_alloc.words().dom().contains(b),
        obj_ok(h, b),
        pages_ok(&space.page_alloc, pages),
        exists|i: int| 0 <= i < space.pages@.len() && #[trigger] space.pages@[i] == pages[k],
{
    let pa = &space.page_alloc;
    let m = choose|m: Marks| #[trigger]
        marking(h, pa.words(), m) && m.cur is None && m.stack.len() == 0 && m.nd == static_count(
            h,
        ) && m.marked == marks_of(h, pa);
    assert(obj_ok(h, b));
    assert(placed(h, space, b));
    let i = choose|i: int| #[trigger]
        crate::gc::mark_compact::mark_phase::in_contents(space, i, b, size0(h.w0, b));
    assert(Space::<P>::among(pages, pages.len() as int, space.pages@[i]));
    let k = choose|k: int|
        0 <= k < pages.len() && k < pages.len() && #[trigger] pages[k] == space.pages@[i];
    pa.lemma_page_size();
    pa.lemma_live_handle(space.pages@[i]);
    pa.lemma_live_page(space.start(i));
    pa.lemma_page_mapped(space.start(i), b);
    assert(page_ready(space, i));
    assert forall|j: int| 0 <= j < pages.len() implies pa.is_live(#[trigger] pages[j]) by {
        assert(Space::<P>::among(space.pages@, space.pages@.len() as int, pages[j]));
        let jj = choose|jj: int|
            0 <= jj < space.pages@.len() && jj < space.pages@.len() && #[trigger] space.pages@[jj]
                == pages[j];
        assert(pa.is_live(space.pages@[jj]));
    }
    k
}

/// Page `k` has a bitmap with a bit for each of its words.
pub proof fn lemma_page_bits<P: PageAlloc>(h: Heap, space: &Space<P>, pages: Seq<P::Page>, k: int)
    requires
        update_ready(h, space),
        sorted_of(space, pages),
        0 <= k < pages.len(),
    ensures
        space.page_alloc.bitmap(P::start_of(pages[k])) is Some,
        space.page_alloc.bitmap(P::start_of(pages[k]))->Some_0@.len()
            == space.page_alloc.page_size() / 4,
        space.page_alloc.page_size() % 4 == 0,
        PAGE_HEADER_SIZE < space.page_alloc.page_size(),
{
    assert(Space::<P>::among(space.pages@, space.pages@.len() as int, pages[k]));
    let i = choose|i: int|
        0 <= i < space.pages@.len() && i < space.pages@.len() && #[trigger] space.pages@[i]
            == pages[k];
    assert(page_ready(space, i));
    space.page_alloc.lemma_page_size();
}

/// No marked object lies where the bits of the bitmap of page `k` are
/// clear.
#[verifier::rlimit(50)]
pub proof fn lemma_no_marks<P: PageAlloc>(
    h: Heap,
    space: &Space<P>,
    pages: Seq<P::Page>,
    k: int,
    lo: int,
    hi: int,
    b: int,
)
    requires
        update_ready(h, space),
        sorted_of(space, pages),
        0 <= k < pages.len(),
        space.page_alloc.bitmap(P::start_of(pages[k])) is Some,
        0 <= lo <= hi <= space.page_alloc.bitmap(P::start_of(pages[k]))->Some_0@.len(),
        forall|j: int| lo <= j < hi ==> !space.page_alloc.bitmap(P::start_of(pages[k]))->Some_0@[j],
        marks_of(h, &space.page_alloc).contains(b),
    ensures
        !(P::start_of(pages[k]) + PAGE_HEADER_SIZE + 4 * lo <= b < P::start_of(pages[k])
            + PAGE_HEADER_SIZE + 4 * hi),
{
    let pa = &space.page_alloc;
    let cs = P::start_of(pages[k]) + PAGE_HEADER_SIZE;
    if cs + 4 * lo <= b < cs + 4 * hi {
        let kb = lemma_object_page(h, space, pages, b);
        lemma_page_bits(h, space, pages, k);
        if kb < k {
            lemma_pages_apart(pa, pages, kb, k);
        }
        if k < kb {
            lemma_pages_apart(pa, pages, k, kb);
        }
        if kb == k {
            let j = (b - cs) / 4;
            assert(b == cs + 4 * j);
            assert(crate::gc::mark_compact::bit_index(pa, b) == j);
            assert(marked_bit(pa, b));
        }
    }
}

/// No marked object lies between the end of the bitmap of page `k` and the
/// contents area of the next page.
pub proof fn lemma_no_marks_gap<P: PageAlloc>(
    h: Heap,
    space: &Space<P>,
    pages: Seq<P::Page>,
    k: int,
    b: int,
)
    requires
        update_ready(h, space),
        sorted_of(space, pages),
        0 <= k < pages.len(),
        marks_of(h, &space.page_alloc).contains(b),
    ensures
        !(P::start_of(pages[k]) + PAGE_HEADER_SIZE + 4 * (space.page_alloc.page_size() / 4) <= b
            < page_scan::<P>(pages, k + 1)),
        P::start_of(pages[k]) + PAGE_HEADER_SIZE + 4 * (space.page_alloc.page_size() / 4)
            <= page_scan::<P>(pages, k + 1),
{
    let pa = &space.page_alloc;
    let kb = lemma_object_page(h, space, pages, b);
    pa.lemma_page_size();
    pa.lemma_live_handle(pages[k]);
    pa.lemma_live_page(P::start_of(pages[k]));
    if kb < k {
        lemma_pages_apart(pa, pages, kb, k);
    }
    if k + 1 < pages.len() {
        lemma_pages_apart(pa, pages, k, k + 1);
        if k + 1 < kb {
            lemma_pages_apart(pa, pages, k + 1, kb);
        }
    }
}

/// A bit that is set in the bitmap of page `k` is the bit of a marked
/// object, which lies in the contents area of the page.
pub proof fn lemma_bit_object<P: PageAlloc>(
    h: Heap,
    space: &Space<P>,
    pages: Seq<P::Page>,
    k: int,
    bit: int,
)
    requires
        update_ready(h, space),
        sorted_of(space, pages),
        0 <= k < pages.len(),
        space.page_alloc.bitmap(P::start_of(pages[k])) is Some,
        0 <= bit < space.page_alloc.bitmap(P::start_of(pages[k]))->Some_0@.len(),
        space.page_alloc.bitmap(P::start_of(pages[k]))->Some_0@[bit],
    ensures
        marks_of(h, &space.page_alloc).contains(
            P::start_of(pages[k]) + PAGE_HEADER_SIZE + 4 * bit,
        ),
        bit < (space.page_alloc.page_size() - PAGE_HEADER_SIZE) / 4,
{
    let pa = &space.page_alloc;
    let p = P::start_of(pages[k]) + PAGE_HEADER_SIZE + 4 * bit;
    assert(Space::<P>::among(space.pages@, space.pages@.len() as int, pages[k]));
    let i = choose|i: int|
        0 <= i < space.pages@.len() && i < space.pages@.len() && #[trigger] space.pages@[i]
            == pages[k];
    assert(bit_of(space, i, bit));
    assert(h.objs.contains(p));
    let kb = lemma_object_page(h, space, pages, p);
    lemma_page_bits(h, space, pages, k);
    if kb < k {
        lemma_pages_apart(pa, pages, kb, k);
    }
    if k < kb {
        lemma_pages_apart(pa, pages, k, kb);
    }
    assert(kb == k);
    assert(crate::gc::mark_compact::bit_index(pa, p) == bit);
}

/// When the scan has reached the end of the address space, all marked
/// objects were moved.
pub proof fn lemma_scan_done<P: PageAlloc>(
    h: Heap,
    page_alloc: &P,
    pages: Seq<P::Page>,
    ti: int,
    to_addr: int,
    marked: Set<int>,
)
    requires
        scan_state(h, page_alloc, pages, ti, to_addr, marked, 0x1_0000_0008),
    ensures
        exists|u: Slide| #[trigger]
            slid(h, page_alloc, pages, ti, to_addr, u) && sliding(h, page_alloc.words(), u)
                && u.cur is None && u.marked == marked && forall|b: int| #[trigger]
                u.marked.contains(b) ==> b < u.pos,
{
    let pos = the_pos(h, page_alloc, pages, ti, to_addr, marked, 0x1_0000_0008);
    let u = the_state(h, page_alloc, pages, ti, to_addr, marked, pos);
    assert forall|b: int| #[trigger] u.marked.contains(b) implies b < u.pos by {
        assert(obj_ok(h, b));
    }
    assert(slid(h, page_alloc, pages, ti, to_addr, u) && sliding(h, page_alloc.words(), u));
}

/// The space `after` is what the second pass leaves of the pages: it has
/// the pages up to page `ti` and `to_addr` as its allocation pointer, and its
/// memory holds the words of these pages and the static words of the memory
/// of `before`.
pub open spec fn kept_pages<P: PageAlloc>(
    before: &P,
    pages: Seq<P::Page>,
    ti: int,
    to_addr: int,
    after: &Space<P>,
) -> bool {
    &&& after.wf()
    &&& after.pages@ == pages.take(ti + 1)
    &&& after.current_page == ti
    &&& after.hp == to_addr
    &&& same_config(before, &after.page_alloc)
    &&& crate::page_alloc::preserved(after.page_alloc.words(), before.words())
    &&& forall|a: int|
        before.is_static(a) && before.words().dom().contains(a)
            ==> #[trigger] after.page_alloc.words().dom().contains(a)
}

/// Where all marked objects were moved, a word of a moved object is a
/// word of the space that is left, with what the second pass left in it.
proof fn lemma_kept_word<P: PageAlloc>(
    h: Heap,
    before: &P,
    pages: Seq<P::Page>,
    ti: int,
    to_addr: int,
    u: Slide,
    after: &Space<P>,
    a: int,
    k: int,
)
    requires
        slid(h, before, pages, ti, to_addr, u),
        sliding(h, before.words(), u),
        kept_pages(before, pages, ti, to_addr, after),
        u.marked.contains(a),
        a < u.pos,
        0 <= k < size0(h.w0, a),
    ensures
        after.page_alloc.words().dom().contains(u.new[a] + 4 * k),
        before.words().dom().contains(u.new[a] + 4 * k),
        after.page_alloc.words()[u.new[a] + 4 * k] == before.words()[u.new[a] + 4 * k],
        exists|i: int| #[trigger]
            crate::gc::copying::wellformed::in_used(after, i, u.new[a], size0(h.w0, a)),
        u.new[a] % 4 == 0,
        0 < u.new[a],
        u.new[a] + 4 * size0(h.w0, a) <= 0xffff_ffff,
{
    let pa = &after.page_alloc;
    let d = u.new[a];
    let n = size0(h.w0, a);
    assert(move_ok(h, u, a));
    assert(obj_ok(h, a));
    let i = choose|i: int| #[trigger] used_of(before, pages, ti, to_addr, i, d, n);
    assert(after.pages@[i] == pages[i]);
    assert(crate::gc::copying::wellformed::in_used(after, i, d, n));
    pa.lemma_page_size();
    pa.lemma_live_handle(after.pages@[i]);
    pa.lemma_live_page(after.start(i));
    pa.lemma_page_mapped(after.start(i), d + 4 * k);
}

/// Where all marked objects were moved, a static word is a word of the
/// space that is left, with what the second pass left in it.
proof fn lemma_kept_static<P: PageAlloc>(
    h: Heap,
    before: &P,
    pages: Seq<P::Page>,
    ti: int,
    to_addr: int,
    u: Slide,
    after: &Space<P>,
    x: int,
)
    requires
        slid(h, before, pages, ti, to_addr, u),
        sliding(h, before.words(), u),
        kept_pages(before, pages, ti, to_addr, after),
        before.is_static(x),
        before.words().dom().contains(x),
    ensures
        after.page_alloc.words().dom().contains(x),
        after.page_alloc.words()[x] == before.words()[x],
{
    assert(after.page_alloc.words().dom().contains(x));
}

/// What a pointer that the second pass has updated holds: the pointer to
/// where the object is that it pointed to.
proof fn lemma_updated(h: Heap, w: Map<int, u32>, u: Slide, s: crate::gc::mark_compact::marking::Spot)
    requires
        sliding(h, w, u),
        forall|b: int| #[trigger] u.marked.contains(b) ==> b < u.pos,
        crate::gc::mark_compact::sliding::live(h, u, s),
    ensures
        crate::gc::copying::collection::moved(
            h.objs,
            fwd_of(u),
            crate::gc::mark_compact::marking::spot_value(h, s),
            w[crate::gc::mark_compact::sliding::slot(h, u, s)],
        ) || !(s matches crate::gc::mark_compact::marking::Spot::Field(b, k)
            ==> crate::gc::copying::wellformed::is_field_word(h.w0, b, k)),
        !crate::gc::mark_compact::marking::points(h, s) ==> w[crate::gc::mark_compact::sliding::slot(
            h,
            u,
            s,
        )] == crate::gc::mark_compact::marking::spot_value(h, s),
{
    crate::gc::mark_compact::sliding::lemma_slide_done(h, w, u, s);
    if crate::gc::mark_compact::marking::points(h, s) {
        let t = crate::gc::mark_compact::marking::spot_target(h, s);
        assert(u.marked.contains(t));
        assert(move_ok(h, u, t));
        assert(obj_ok(h, t));
        crate::types::lemma_ptr_round_trip(u.new[t]);
    }
}

/// The moved objects, each with the address that it was moved to.
pub open spec fn fwd_of(u: Slide) -> Map<int, int> {
    Map::new(|a: int| u.marked.contains(a), |a: int| u.new[a])
}

/// The copy of a marked object in the space that is left.
#[verifier::rlimit(50)]
proof fn lemma_kept_copy<P: PageAlloc>(
    h: Heap,
    before: &P,
    pages: Seq<P::Page>,
    ti: int,
    to_addr: int,
    u: Slide,
    after: &Space<P>,
    a: int,
)
    requires
        slid(h, before, pages, ti, to_addr, u),
        sliding(h, before.words(), u),
        u.cur is None,
        forall|b: int| #[trigger] u.marked.contains(b) ==> b < u.pos,
        kept_pages(before, pages, ti, to_addr, after),
        u.marked.contains(a),
    ensures
        crate::gc::copying::collection::copy_in(h.w0, h.objs, after, fwd_of(u), a),
{
    let w0 = h.w0;
    let wb = before.words();
    let w = after.page_alloc.words();
    let d = u.new[a];
    let n = size0(w0, a);
    assert(obj_ok(h, a));
    assert(crate::gc::mark_compact::sliding::header_state(h, wb, u, a));
    lemma_kept_word(h, before, pages, ti, to_addr, u, after, a, 0);
    assert(w[d] == w0[a]);
    let off = crate::object::length_offset(w0[a]);
    if off != 0 {
        let k = off / 4;
        let s = crate::gc::mark_compact::marking::Spot::Field(a, k);
        assert(crate::gc::mark_compact::sliding::live(h, u, s));
        lemma_updated(h, wb, u, s);
        lemma_kept_word(h, before, pages, ti, to_addr, u, after, a, k);
    }
    assert(crate::object::length_word(w, d, w0[a]) == crate::object::length_word(w0, a, w0[a]));
    assert(crate::object::spec_object_size(w, d) == crate::object::spec_object_size(w0, a));
    assert forall|k: int| 1 <= k < n implies #[trigger] w.dom().contains(d + 4 * k)
        && if crate::gc::copying::wellformed::is_field_word(w0, a, k) {
        crate::gc::copying::collection::moved(h.objs, fwd_of(u), w0[a + 4 * k], w[d + 4 * k])
    } else {
        w[d + 4 * k] == w0[a + 4 * k]
    } by {
        let s = crate::gc::mark_compact::marking::Spot::Field(a, k);
        assert(crate::gc::mark_compact::sliding::live(h, u, s));
        lemma_updated(h, wb, u, s);
        lemma_kept_word(h, before, pages, ti, to_addr, u, after, a, k);
    }
}

/// The pages that the space keeps are closed still, but for the current
/// one.
#[verifier::rlimit(50)]
proof fn lemma_sealed_kept<P: PageAlloc>(
    h: Heap,
    before: &P,
    pages: Seq<P::Page>,
    ti: int,
    to_addr: int,
    u: Slide,
    after: &Space<P>,
)
    requires
        slid(h, before, pages, ti, to_addr, u),
        sliding(h, before.words(), u),
        kept_pages(before, pages, ti, to_addr, after),
    ensures
        sealed::<P>(
            h,
            after.page_alloc.words(),
            after.pages@,
            after.page_alloc.page_size(),
            moved_map(u),
            ti,
        ),
{
    let ps = before.page_size();
    let f = moved_map(u);
    let w = before.words();
    let w2 = after.page_alloc.words();
    let pa = &after.page_alloc;
    pa.lemma_page_size();
    assert forall|i: int| 0 <= i < ti implies #[trigger] page_shut::<P>(
        h,
        w2,
        after.pages@,
        ps,
        f,
        i,
    ) by {
        assert(page_shut::<P>(h, w, pages, ps, f, i));
        let b = choose|b: int| #[trigger] shuts::<P>(h, w, pages, ps, f, i, b);
        let e = f[b] + 4 * size0(h.w0, b);
        assert(after.pages@[i] == pages[i]);
        assert(h.objs.contains(b)) by {
            assert(u.marked.contains(b));
        }
        assert(obj_ok(h, b));
        pa.lemma_live_handle(after.pages@[i]);
        pa.lemma_live_page(after.start(i));
        if e < after.start(i) + ps {
            pa.lemma_page_mapped(after.start(i), e);
            assert(w2[e] == w[e]);
        }
        if e + 4 < after.start(i) + ps {
            pa.lemma_page_mapped(after.start(i), e + 4);
            assert(w2[e + 4] == w[e + 4]);
        }
        assert forall|c: int|
            #[trigger] f.dom().contains(c) && in_range::<P>(after.pages@, ps, i, f[c]) implies f[c]
            + 4 * size0(h.w0, c) <= e by {
            assert(in_range::<P>(pages, ps, i, f[c]));
        }
        assert(shuts::<P>(h, w2, after.pages@, ps, f, i, b));
    }
}

/// The objects are packed into the pages that the space keeps.
#[verifier::rlimit(50)]
proof fn lemma_packed_kept<P: PageAlloc>(
    h: Heap,
    before: &P,
    pages: Seq<P::Page>,
    ti: int,
    to_addr: int,
    u: Slide,
    after: &Space<P>,
)
    requires
        slid(h, before, pages, ti, to_addr, u),
        sliding(h, before.words(), u),
        kept_pages(before, pages, ti, to_addr, after),
    ensures
        packed::<P>(h, after.pages@, after.page_alloc.page_size(), moved_map(u)),
{
    reveal(packed);
    let ps = before.page_size();
    let f = moved_map(u);
    assert forall|a: int| #[trigger] f.dom().contains(a) implies (exists|b: int| #[trigger]
        behind(h, f, b, a)) || (exists|i: int| #[trigger]
        heads::<P>(h, after.pages@, ps, f, i, a)) by {
        if !(exists|b: int| #[trigger] behind(h, f, b, a)) {
            let i = choose|i: int| #[trigger] heads::<P>(h, pages, ps, f, i, a);
            let j = choose|j: int| #[trigger]
                used_of(before, pages, ti, to_addr, j, u.new[a], size0(h.w0, a));
            assert(obj_ok(h, a));
            if j < i {
                lemma_pages_apart(before, pages, j, i);
            }
            if i < j {
                lemma_pages_apart(before, pages, i, j);
            }
            assert(i <= ti);
            assert(after.pages@[i] == pages[i]);
            if i > 0 {
                let b = choose|b: int| #[trigger] shut::<P>(h, pages, ps, f, i, b, a);
                assert(after.pages@[i - 1] == pages[i - 1]);
                assert(shut::<P>(h, after.pages@, ps, f, i, b, a));
            }
            assert(heads::<P>(h, after.pages@, ps, f, i, a));
        }
    }
}

/// Where all marked objects were moved, the objects that were kept are
/// the reachable ones, moved down in order and packed, and the allocation
/// pointer stands behind the last of them.
#[verifier::rlimit(50)]
proof fn lemma_slid_down<P: PageAlloc>(
    h: Heap,
    before: &P,
    pages: Seq<P::Page>,
    ti: int,
    to_addr: int,
    u: Slide,
    after: &Space<P>,
)
    requires
        slid(h, before, pages, ti, to_addr, u),
        sliding(h, before.words(), u),
        u.cur is None,
        forall|b: int| #[trigger] u.marked.contains(b) ==> b < u.pos,
        kept_pages(before, pages, ti, to_addr, after),
        marks_reached(h, u.marked),
    ensures
        slid_down(h, after, fwd_of(u)),
{
    let fwd = fwd_of(u);
    assert forall|a: int| #[trigger] fwd.dom().contains(a) <==> reachable(h, a) by {
        if reachable(h, a) {
            let n = choose|n: nat| crate::gc::mark_compact::marking::reach(h, a, n);
            crate::gc::mark_compact::sliding::lemma_reach_marked(h, before.words(), u, a, n);
        }
    }
    assert forall|a: int| #[trigger] fwd.dom().contains(a) implies fwd[a] <= a by {
        assert(move_ok(h, u, a));
    }
    assert(tail_ok::<P>(h, pages, before.page_size(), ti, to_addr, u));
    assert(moved_map(u) =~= fwd);
    lemma_packed_kept(h, before, pages, ti, to_addr, u, after);
    lemma_sealed_kept(h, before, pages, ti, to_addr, u, after);
    if exists|a: int| fwd.dom().contains(a) {
        let a = choose|a: int| fwd.dom().contains(a);
        assert(u.marked.contains(a) && a < u.pos);
        let last = choose|last: int| #[trigger] is_last(h, u, last, to_addr);
        assert(fwd.dom().contains(last) && after.hp == fwd[last] + 4 * size0(h.w0, last));
        assert forall|b: int| #[trigger] fwd.dom().contains(b) implies b <= last by {
            assert(u.marked.contains(b) && b < u.pos);
        }
    } else {
        assert forall|a: int| !fwd.dom().contains(a) by {}
        if !(to_addr == P::start_of(pages[ti]) + PAGE_HEADER_SIZE) || ti != 0 {
            if exists|last: int| #[trigger] is_last(h, u, last, to_addr) {
                let last = choose|last: int| #[trigger] is_last(h, u, last, to_addr);
                assert(fwd.dom().contains(last));
            } else {
                let b = choose|b: int| #[trigger]
                    pending::<P>(h, pages, before.page_size(), ti, u, b);
                assert(fwd.dom().contains(b));
            }
        }
        assert(after.pages@.len() == 1);
    }
    assert forall|a: int, b: int|
        #[trigger] fwd.dom().contains(a) && #[trigger] fwd.dom().contains(b) && a < b implies fwd[a]
        + 4 * size0(h.w0, a) <= fwd[b] by {
        lemma_places_apart(h, before.words(), u, a, b);
    }
}

/// What a compaction leaves is a copy of the part of the heap that the
/// roots reach: when the scan has reached the end of the address space,
/// every marked object was moved, and the root boxes, the continuation
/// table and the moved objects point to where the objects are.
#[verifier::rlimit(50)]
pub proof fn lemma_compacted<P: PageAlloc>(
    h: Heap,
    before: &P,
    pages: Seq<P::Page>,
    ti: int,
    to_addr: int,
    marked: Set<int>,
    after: &Space<P>,
)
    requires
        scan_state(h, before, pages, ti, to_addr, marked, 0x1_0000_0008),
        kept_pages(before, pages, ti, to_addr, after),
        marks_reached(h, marked),
    ensures
        compacted_heap(h, after),
{
    lemma_scan_done(h, before, pages, ti, to_addr, marked);
    let u = choose|u: Slide| #[trigger]
        slid(h, before, pages, ti, to_addr, u) && sliding(h, before.words(), u) && u.cur is None
            && u.marked == marked && forall|b: int| #[trigger] u.marked.contains(b) ==> b < u.pos;
    let fwd = fwd_of(u);
    let wb = before.words();
    let w = after.page_alloc.words();
    assert forall|a: int| #[trigger] fwd.dom().contains(a) implies crate::gc::copying::collection::copy_in(
        h.w0,
        h.objs,
        after,
        fwd,
        a,
    ) by {
        lemma_kept_copy(h, before, pages, ti, to_addr, u, after, a);
    }
    assert forall|a: int, b: int|
        #[trigger] fwd.dom().contains(a) && #[trigger] fwd.dom().contains(b) && a != b implies fwd[a]
        + 4 * size0(h.w0, a) <= fwd[b] || fwd[b] + 4 * size0(h.w0, b) <= fwd[a] by {
        if a < b {
            lemma_places_apart(h, wb, u, a, b);
        } else {
            lemma_places_apart(h, wb, u, b, a);
        }
    }
    assert forall|i: int| 0 <= i < static_count(h) implies crate::gc::copying::collection::moved(
        h.objs,
        fwd,
        h.w0[#[trigger] static_addr(h, i)],
        w[static_addr(h, i)],
    ) by {
        let s = crate::gc::mark_compact::marking::Spot::Static(i);
        assert(crate::gc::mark_compact::sliding::live(h, u, s));
        lemma_updated(h, wb, u, s);
        crate::gc::mark_compact::sliding::lemma_slide_done(h, wb, u, s);
        lemma_kept_static(h, before, pages, ti, to_addr, u, after, static_addr(h, i));
    }
    assert forall|i: int| 0 <= i < static_count(h) implies w.dom().contains(
        #[trigger] static_addr(h, i),
    ) by {
        let s = crate::gc::mark_compact::marking::Spot::Static(i);
        assert(crate::gc::mark_compact::sliding::live(h, u, s));
        crate::gc::mark_compact::sliding::lemma_slide_done(h, wb, u, s);
        lemma_kept_static(h, before, pages, ti, to_addr, u, after, static_addr(h, i));
    }
    assert forall|i: int| 0 <= i < h.w0[h.roots + 4] implies w.dom().contains(
        crate::gc::copying::wellformed::root_box(h.w0, h.roots, i) + 4,
    ) && crate::gc::copying::collection::moved(
        h.objs,
        fwd,
        h.w0[crate::gc::copying::wellformed::root_box(h.w0, h.roots, i) + 4],
        w[#[trigger] crate::gc::copying::wellformed::root_box(h.w0, h.roots, i) + 4],
    ) by {
        assert(static_addr(h, i) == crate::gc::copying::wellformed::root_box(h.w0, h.roots, i) + 4);
    }
    assert(static_addr(h, h.w0[h.roots + 4] as int) == h.table);
    assert forall|x: int| #[trigger] root_frame(h.w0, h.roots, x) implies w.dom().contains(x)
        && w[x] == h.w0[x] by {
        assert(frame_kept(h, wb));
        lemma_kept_static(h, before, pages, ti, to_addr, u, after, x);
    }
    assert(crate::gc::copying::collection::graph_copied(
        h.w0,
        h.objs,
        after,
        h.roots,
        h.table,
        fwd,
    ));
    lemma_slid_down(h, before, pages, ti, to_addr, u, after);
    assert(crate::gc::copying::collection::graph_copied(h.w0, h.objs, after, h.roots, h.table, fwd)
        && slid_down(h, after, fwd));
}

/// The space holds a copy of the part of the heap that the roots reach.
pub open spec fn compacted_heap<P: PageAlloc>(h: Heap, space: &Space<P>) -> bool {
    exists|fwd: Map<int, int>| #[trigger]
        crate::gc::copying::collection::graph_copied(h.w0, h.objs, space, h.roots, h.table, fwd)
            && slid_down(h, space, fwd)
}

/// The objects that were kept are the reachable objects; they were moved
/// down, in the order of their addresses, and are packed into the pages of
/// the space from the start of the first page on; behind the last object of
/// every page but the current one stands a filler that spans the rest of the
/// page; and the allocation pointer of the
/// space stands behind the one at the highest address, or, where no object
/// is reachable, at the start of the contents area of the one page that the
/// space keeps.
pub open spec fn slid_down<P: PageAlloc>(h: Heap, space: &Space<P>, fwd: Map<int, int>) -> bool {
    &&& forall|a: int| #[trigger] fwd.dom().contains(a) <==> reachable(h, a)
    &&& forall|a: int| #[trigger] fwd.dom().contains(a) ==> fwd[a] <= a
    &&& forall|a: int, b: int|
        #[trigger] fwd.dom().contains(a) && #[trigger] fwd.dom().contains(b) && a < b ==> fwd[a]
            + 4 * size0(h.w0, a) <= fwd[b]
    &&& packed::<P>(h, space.pages@, space.page_alloc.page_size(), fwd)
    &&& sealed::<P>(
        h,
        space.page_alloc.words(),
        space.pages@,
        space.page_alloc.page_size(),
        fwd,
        space.current_page as int,
    )
    &&& (forall|a: int| !fwd.dom().contains(a)) ==> space.pages@.len() == 1 && space.hp
        == space.contents_start(0)
    &&& (exists|a: int| fwd.dom().contains(a)) ==> exists|last: int| #[trigger]
        fwd.dom().contains(last) && space.hp == fwd[last] + 4 * size0(h.w0, last) && forall|
        a: int,
    | #[trigger] fwd.dom().contains(a) ==> a <= last
}

/// The page that holds the address to which the next object is moved is
/// the first page that holds that address.
pub proof fn lemma_holding_page<P: PageAlloc>(
    page_alloc: &P,
    pages: Seq<P::Page>,
    ti: int,
    to_addr: int,
    from: int,
)
    requires
        page_alloc.wf(),
        pages_ok(page_alloc, pages),
        0 <= from <= ti < pages.len(),
        P::start_of(pages[ti]) + PAGE_HEADER_SIZE <= to_addr <= P::start_of(pages[ti])
            + page_alloc.page_size(),
    ensures
        Space::<P>::page_holding(pages, page_alloc.page_size(), to_addr, from) == ti,
    decreases ti - from,
{
    if from < ti {
        lemma_pages_apart(page_alloc, pages, from, ti);
        lemma_holding_page(page_alloc, pages, ti, to_addr, from + 1);
    }
}

/// What the visit of a set bit of the bitmap of page `k` can rely on: the
/// bit is the bit of the marked object at the lowest address that was not
/// moved.
pub proof fn lemma_scan_bit<P: PageAlloc>(
    h: Heap,
    space: &Space<P>,
    page_alloc: &P,
    pages: Seq<P::Page>,
    ti: int,
    to_addr: int,
    k: int,
    bit: int,
)
    requires
        update_ready(h, space),
        sorted_of(space, pages),
        0 <= k < pages.len(),
        space.page_alloc.bitmap(P::start_of(pages[k])) is Some,
        0 <= bit < space.page_alloc.bitmap(P::start_of(pages[k]))->Some_0@.len(),
        space.page_alloc.bitmap(P::start_of(pages[k]))->Some_0@[bit],
        scan_state(
            h,
            page_alloc,
            pages,
            ti,
            to_addr,
            marks_of(h, &space.page_alloc),
            P::start_of(pages[k]) + PAGE_HEADER_SIZE + 4 * bit,
        ),
    ensures
        ({
            let p = P::start_of(pages[k]) + PAGE_HEADER_SIZE + 4 * bit;
            let marked = marks_of(h, &space.page_alloc);
            let pos = the_pos(h, page_alloc, pages, ti, to_addr, marked, p);
            &&& slide_state(h, page_alloc, pages, ti, to_addr, marked, pos)
            &&& next_obj(marked, pos, p)
            &&& bit < (space.page_alloc.page_size() - PAGE_HEADER_SIZE) / 4
        }),
{
    lemma_bit_object(h, space, pages, k, bit);
}

/// The state of the second pass is kept by a change that leaves the words
/// and the pages alone.
pub proof fn lemma_scan_kept<P: PageAlloc>(
    h: Heap,
    before: &P,
    after: &P,
    pages: Seq<P::Page>,
    ti: int,
    to_addr: int,
    marked: Set<int>,
    scan: int,
)
    requires
        scan_state(h, before, pages, ti, to_addr, marked, scan),
        after.wf(),
        same_pages(before, after),
        after.words() == before.words(),
    ensures
        scan_state(h, after, pages, ti, to_addr, marked, scan),
{
    let pos = the_pos(h, before, pages, ti, to_addr, marked, scan);
    let u = the_state(h, before, pages, ti, to_addr, marked, pos);
    lemma_slid_kept(h, before, after, pages, ti, to_addr, u);
    assert(slid(h, after, pages, ti, to_addr, u) && sliding(h, after.words(), u));
    assert(slide_state(h, after, pages, ti, to_addr, marked, pos) && reaches(marked, pos, scan));
}

/// The end of the bitmap of page `k` lies at or before the contents area
/// of the next page.
pub proof fn lemma_no_marks_top<P: PageAlloc>(
    h: Heap,
    space: &Space<P>,
    pages: Seq<P::Page>,
    k: int,
)
    requires
        update_ready(h, space),
        sorted_of(space, pages),
        0 <= k < pages.len(),
    ensures
        P::start_of(pages[k]) + PAGE_HEADER_SIZE + 4 * (space.page_alloc.page_size() / 4)
            <= page_scan::<P>(pages, k + 1),
        space.page_alloc.bitmap(P::start_of(pages[k])) is Some,
        space.page_alloc.bitmap(P::start_of(pages[k]))->Some_0@.len()
            == space.page_alloc.page_size() / 4,
{
    let pa = &space.page_alloc;
    lemma_page_bits(h, space, pages, k);
    assert forall|j: int| 0 <= j < pages.len() implies pa.is_live(#[trigger] pages[j]) by {
        assert(Space::<P>::among(space.pages@, space.pages@.len() as int, pages[j]));
        let jj = choose|jj: int|
            0 <= jj < space.pages@.len() && jj < space.pages@.len() && #[trigger] space.pages@[jj]
                == pages[j];
        assert(pa.is_live(space.pages@[jj]));
    }
    pa.lemma_live_handle(pages[k]);
    pa.lemma_live_page(P::start_of(pages[k]));
    if k + 1 < pages.len() {
        lemma_pages_apart(pa, pages, k, k + 1);
    }
}

/// A heap that can be compacted: the memory of the space holds the
/// well-formed objects `h.objs` in the pages of the space, and the array of
/// roots, the root boxes and the continuation table in static memory; the
/// pages are large enough for a chunk of the mark stack; and the allocator
/// can hand out one page more than there are objects, so that the mark
/// stack cannot run out of memory.
pub open spec fn compact_start<P: PageAlloc>(h: Heap, space: &Space<P>) -> bool {
    let pa = &space.page_alloc;
    &&& space.wf()
    &&& h.w0 == pa.words()
    &&& heap_ok(h)
    &&& forall|x: int| #[trigger] root_frame(h.w0, h.roots, x) ==> h.w0.dom().contains(x)
    &&& forall|a: int| #[trigger] h.objs.contains(a) ==> placed(h, space, a)
    &&& statics_in(h, pa)
    &&& pa.page_size() >= crate::gc::mark_compact::mark_stack::MIN_CHUNK_SIZE
    &&& pa.remaining() > h.objs.len()
}

/// The state in which the mark phase starts: nothing is marked, visited
/// or threaded.
pub open spec fn start_marks() -> Marks {
    Marks {
        marked: Set::empty(),
        stack: Seq::empty(),
        cur: None,
        nd: 0,
        chains: Map::new(|a: int| true, |a: int| Seq::empty()),
    }
}

/// Whether the pages of the space have fresh bitmaps.
pub open spec fn fresh_bitmaps<P: PageAlloc>(space: &Space<P>) -> bool {
    forall|i: int|
        0 <= i < space.pages@.len() ==> match space.page_alloc.bitmap(#[trigger] space.start(i)) {
            Some(b) => b@.len() == space.page_alloc.page_size() / 4 && forall|k: int|
                0 <= k < b@.len() ==> !b@[k],
            None => false,
        }
}

/// The mark phase starts on a heap that can be compacted, once the pages
/// have fresh bitmaps and the mark stack was made.
#[verifier::rlimit(50)]
pub proof fn lemma_mark_start<P: PageAlloc>(
    h: Heap,
    given: &Space<P>,
    space: &Space<P>,
    stack: &crate::gc::mark_compact::mark_stack::MarkStack<P>,
)
    requires
        compact_start(h, given),
        crate::gc::mark_compact::mark_inv(space, stack),
        space.pages == given.pages,
        same_config(&given.page_alloc, &space.page_alloc),
        crate::page_alloc::preserved(given.page_alloc.words(), space.page_alloc.words()),
        fresh_bitmaps(space),
        stack@.len() == 0,
        space.page_alloc.remaining() >= given.page_alloc.remaining() - 1,
    ensures
        crate::gc::mark_compact::mark_phase::marking_state(h, space, stack, None, 0),
{
    let pa = &space.page_alloc;
    let w = pa.words();
    let m = start_marks();
    assert forall|s: crate::gc::mark_compact::marking::Spot|
        #[trigger] crate::gc::mark_compact::marking::spot_ok(
            h,
            s,
        ) implies crate::gc::mark_compact::marking::spot_state(h, w, m, s) by {
        match s {
            crate::gc::mark_compact::marking::Spot::Static(i) => {
                assert(static_ok(h, i));
            },
            crate::gc::mark_compact::marking::Spot::Field(b, k) => {
                assert(obj_ok(h, b));
                assert(h.w0.dom().contains(b + 4 * k));
            },
        }
        assert(h.w0.dom().contains(crate::gc::mark_compact::marking::spot_addr(h, s)));
    }
    assert forall|a: int| #[trigger] h.objs.contains(
        a,
    ) implies crate::gc::mark_compact::marking::chain_state(h, w, m, a) by {
        assert(obj_ok(h, a));
        assert(h.w0.dom().contains(a + 4 * 0));
        reveal(link);
        assert(crate::gc::mark_compact::marking::addrs(h, m.chains[a]) =~= Seq::<int>::empty());
    }
    assert(crate::gc::mark_compact::marking::no_dups(m.stack)) by {
        reveal(crate::gc::mark_compact::marking::no_dups);
    }
    assert(marking(h, w, m));
    assert forall|i: int| 0 <= i < space.pages@.len() implies #[trigger] page_ready(space, i) by {
        assert(space.page_alloc.bitmap(space.start(i)) is Some);
    }
    assert forall|a: int| #[trigger] h.objs.contains(a) implies placed(h, space, a) && (
    m.marked.contains(a) == marked_bit(pa, a)) by {
        assert(placed(h, given, a));
        assert(obj_ok(h, a));
        let i = choose|i: int| #[trigger]
            crate::gc::mark_compact::mark_phase::in_contents(given, i, a, size0(h.w0, a));
        assert(crate::gc::mark_compact::mark_phase::in_contents(space, i, a, size0(h.w0, a)));
        pa.lemma_page_size();
        pa.lemma_live_handle(space.pages@[i]);
        pa.lemma_live_page(space.start(i));
        pa.lemma_page_mapped(space.start(i), a);
        assert(space.page_alloc.bitmap(space.start(i)) is Some);
    }
    assert forall|i: int, k: int|
        0 <= i < space.pages@.len() && #[trigger] bit_of(space, i, k) implies h.objs.contains(
        space.start(i) + PAGE_HEADER_SIZE + 4 * k,
    ) by {
        assert(space.page_alloc.bitmap(space.start(i)) is Some);
    }
    assert(h.objs.difference(m.marked) =~= h.objs);
    assert(crate::gc::mark_compact::mark_phase::linked(h, space, stack, m));
    assert(crate::gc::mark_compact::mark_phase::linked(h, space, stack, m) && marking(
        h,
        space.page_alloc.words(),
        m,
    ));
}

/// The second pass starts on what the mark phase leaves, once the mark
/// stack was freed.
#[verifier::rlimit(50)]
pub proof fn lemma_mark_finish<P: PageAlloc>(
    h: Heap,
    marked: &Space<P>,
    stack: &crate::gc::mark_compact::mark_stack::MarkStack<P>,
    freed: &Space<P>,
)
    requires
        crate::gc::mark_compact::mark_phase::marking_state(
            h,
            marked,
            stack,
            None,
            static_count(h),
        ),
        stack@.len() == 0,
        freed.wf(),
        freed.pages == marked.pages,
        same_config(&marked.page_alloc, &freed.page_alloc),
        crate::page_alloc::preserved(freed.page_alloc.words(), marked.page_alloc.words()),
        forall|a: int|
            marked.page_alloc.words().dom().contains(a) && !stack.owns_addr(
                marked.page_alloc.page_size(),
                a,
            ) ==> #[trigger] freed.page_alloc.words().dom().contains(a),
        forall|s: int|
            marked.page_alloc.live().contains(s) && !stack.owns_addr(
                marked.page_alloc.page_size(),
                s,
            ) ==> #[trigger] freed.page_alloc.live().contains(s) && freed.page_alloc.bitmap(s)
                == marked.page_alloc.bitmap(s),
    ensures
        update_ready(h, freed),
{
    let pa0 = &marked.page_alloc;
    let pa = &freed.page_alloc;
    let m = choose|m: Marks| #[trigger]
        crate::gc::mark_compact::mark_phase::linked(h, marked, stack, m) && marking(
            h,
            marked.page_alloc.words(),
            m,
        ) && m.cur == None::<(int, int)> && m.nd == static_count(h);
    assert forall|a: int|
        pa0.words().dom().contains(a) && !stack.owns_addr(
            pa0.page_size(),
            a,
        ) implies #[trigger] pa.words().dom().contains(a) && pa.words()[a] == pa0.words()[a] by {
        assert(pa.words().dom().contains(a));
    }
    crate::gc::mark_compact::mark_phase::lemma_heap_words_kept(h, marked, stack, m, pa.words());
    crate::gc::mark_compact::mark_phase::lemma_marking_frame(h, pa0.words(), pa.words(), m);
    assert forall|i: int| 0 <= i < freed.pages@.len() implies #[trigger] page_ready(freed, i)
        && pa.bitmap(freed.start(i)) == pa0.bitmap(marked.start(i)) by {
        assert(page_ready(marked, i));
        pa0.lemma_live_handle(marked.pages@[i]);
        pa.lemma_live_handle(freed.pages@[i]);
        assert(pa.live().contains(freed.start(i)));
        assert(!stack.owns_addr(pa0.page_size(), P::start_of(marked.pages@[i])));
    }
    assert forall|a: int| #[trigger] h.objs.contains(a) implies placed(h, freed, a) && (
    m.marked.contains(a) == marked_bit(pa, a)) by {
        crate::gc::mark_compact::mark_phase::lemma_placed(h, marked, stack, m, a, 0);
        assert(obj_ok(h, a));
        let i = choose|i: int| #[trigger]
            crate::gc::mark_compact::mark_phase::in_contents(marked, i, a, size0(h.w0, a));
        assert(crate::gc::mark_compact::mark_phase::in_contents(freed, i, a, size0(h.w0, a)));
        let j = choose|j: int| 0 <= j < marked.pages@.len() && #[trigger] marked.start(j)
            == pa0.page_containing(a);
        assert(page_ready(freed, j));
        pa.lemma_live_handle(freed.pages@[j]);
        crate::gc::mark_compact::lemma_page_containing_stable(pa0, pa, a);
    }
    assert forall|i: int, k: int|
        0 <= i < freed.pages@.len() && #[trigger] bit_of(freed, i, k) implies h.objs.contains(
        freed.start(i) + PAGE_HEADER_SIZE + 4 * k,
    ) by {
        assert(page_ready(freed, i));
        assert(bit_of(marked, i, k));
    }
    assert(m.marked =~= marks_of(h, pa));
    assert(marking(h, pa.words(), m) && m.cur is None && m.stack.len() == 0 && m.nd
        == static_count(h) && m.marked == marks_of(h, pa));
}

/// What a compaction has left of the heap stays when the bitmaps are
/// freed.
pub proof fn lemma_bitmaps_freed<P: PageAlloc>(h: Heap, space: &Space<P>, after: &Space<P>)
    requires
        compacted_heap(h, space),
        after.pages == space.pages,
        after.current_page == space.current_page,
        after.hp == space.hp,
        after.page_alloc.page_size() == space.page_alloc.page_size(),
        after.page_alloc.words() == space.page_alloc.words(),
    ensures
        compacted_heap(h, after),
{
    let fwd = choose|fwd: Map<int, int>| #[trigger]
        crate::gc::copying::collection::graph_copied(h.w0, h.objs, space, h.roots, h.table, fwd)
            && slid_down(h, space, fwd);
    assert forall|a: int| #[trigger] fwd.dom().contains(a) implies crate::gc::copying::collection::copy_in(
        h.w0,
        h.objs,
        after,
        fwd,
        a,
    ) by {
        assert(crate::gc::copying::collection::copy_in(h.w0, h.objs, space, fwd, a));
        let i = choose|i: int| #[trigger]
            crate::gc::copying::wellformed::in_used(space, i, fwd[a], size0(h.w0, a));
        assert(crate::gc::copying::wellformed::in_used(after, i, fwd[a], size0(h.w0, a)));
    }
    assert(crate::gc::copying::collection::graph_copied(h.w0, h.objs, after, h.roots, h.table, fwd)
        && slid_down(h, after, fwd));
}

/// The objects that the mark phase has marked are reachable.
pub proof fn lemma_ready_marks<P: PageAlloc>(h: Heap, space: &Space<P>)
    requires
        update_ready(h, space),
    ensures
        marks_reached(h, marks_of(h, &space.page_alloc)),
{
}

/// The scan of page `k` moves on over bits that are clear: from bit `lo`
/// to bit `hi`.
pub proof fn lemma_scan_to<P: PageAlloc>(
    h: Heap,
    space: &Space<P>,
    page_alloc: &P,
    pages: Seq<P::Page>,
    ti: int,
    to_addr: int,
    k: int,
    lo: int,
    hi: int,
)
    requires
        update_ready(h, space),
        sorted_of(space, pages),
        0 <= k < pages.len(),
        space.page_alloc.bitmap(P::start_of(pages[k])) is Some,
        0 <= lo <= hi <= space.page_alloc.bitmap(P::start_of(pages[k]))->Some_0@.len(),
        forall|j: int| lo <= j < hi ==> !space.page_alloc.bitmap(P::start_of(pages[k]))->Some_0@[j],
        scan_state(
            h,
            page_alloc,
            pages,
            ti,
            to_addr,
            marks_of(h, &space.page_alloc),
            P::start_of(pages[k]) + PAGE_HEADER_SIZE + 4 * lo,
        ),
    ensures
        scan_state(
            h,
            page_alloc,
            pages,
            ti,
            to_addr,
            marks_of(h, &space.page_alloc),
            P::start_of(pages[k]) + PAGE_HEADER_SIZE + 4 * hi,
        ),
{
    let marked = marks_of(h, &space.page_alloc);
    let cs = P::start_of(pages[k]) + PAGE_HEADER_SIZE;
    assert forall|b: int| #[trigger] marked.contains(b) implies !(cs + 4 * lo <= b < cs + 4
        * hi) by {
        lemma_no_marks(h, space, pages, k, lo, hi, b);
    }
    lemma_scan_advance(h, page_alloc, pages, ti, to_addr, marked, cs + 4 * lo, cs + 4 * hi);
}

/// The scan moves on from the end of the bitmap of page `k` to the next
/// page.
pub proof fn lemma_scan_gap<P: PageAlloc>(
    h: Heap,
    space: &Space<P>,
    page_alloc: &P,
    pages: Seq<P::Page>,
    ti: int,
    to_addr: int,
    k: int,
)
    requires
        update_ready(h, space),
        sorted_of(space, pages),
        0 <= k < pages.len(),
        scan_state(
            h,
            page_alloc,
            pages,
            ti,
            to_addr,
            marks_of(h, &space.page_alloc),
            P::start_of(pages[k]) + PAGE_HEADER_SIZE + 4 * (space.page_alloc.page_size() / 4),
        ),
    ensures
        scan_state(
            h,
            page_alloc,
            pages,
            ti,
            to_addr,
            marks_of(h, &space.page_alloc),
            page_scan::<P>(pages, k + 1),
        ),
{
    let marked = marks_of(h, &space.page_alloc);
    let lo = P::start_of(pages[k]) + PAGE_HEADER_SIZE + 4 * (space.page_alloc.page_size() / 4);
    assert forall|b: int| #[trigger] marked.contains(b) implies !(lo <= b < page_scan::<P>(
        pages,
        k + 1,
    )) by {
        lemma_no_marks_gap(h, space, pages, k, b);
    }
    lemma_no_marks_top(h, space, pages, k);
    lemma_scan_advance(h, page_alloc, pages, ti, to_addr, marked, lo, page_scan::<P>(pages, k + 1));
}

} // verus!
