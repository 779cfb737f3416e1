//! What a collection leaves is a heap that can be collected again: the
//! copies are well-formed objects, and the roots point to them.
use vstd::prelude::*;
use crate::gc::copying::collection::{
    collected, copy_in, graph_copied, heap_before, moved, object_before,
};
use crate::gc::copying::wellformed::{
    frame_of, in_used, is_field_word, root_box, root_frame, size0,
};
use crate::gc::mark_compact::mark_phase::{in_contents, placed, statics_in};
use crate::gc::mark_compact::mark_stack::MIN_CHUNK_SIZE;
use crate::gc::mark_compact::marking::{
    count, edge, first, frame_apart, heap_ok, obj_ok, reach, reachable, static_addr,
    static_count, static_ok, Heap, Spot,
};
use crate::gc::mark_compact::slide_phase::{
    behind, compact_start, heads, in_page_of, lemma_pages_apart, packed, pages_ok, pred, shut,
    slid_down, sorted_of,
};
use crate::gc::mark_compact::compacted;
use crate::page_alloc::PAGE_HEADER_SIZE;
use crate::object::{length_offset, length_word, spec_object_size};
use crate::page_alloc::{PageAlloc, WordMemory};
use crate::space::Space;

verus! {

/// The heap that a collection of the heap `h` leaves in the space, where
/// `fwd` gives for each object that was kept the address of its copy: the
/// memory of the space, with the copies as its objects.
pub open spec fn copied_heap<P: PageAlloc>(h: Heap, space: &Space<P>, fwd: Map<int, int>) -> Heap {
    Heap {
        w0: space.page_alloc.words(),
        objs: fwd.dom().map(|a: int| fwd[a]),
        roots: h.roots,
        table: h.table,
    }
}

/// The space holds a copy of the part of the well-formed heap `h` that
/// the roots reach, with `fwd` from the objects to their copies, and the
/// roots of the heap are static.
pub open spec fn collected_in<P: PageAlloc>(h: Heap, space: &Space<P>, fwd: Map<int, int>) -> bool {
    &&& heap_ok(h)
    &&& space.wf()
    &&& statics_in(h, &space.page_alloc)
    &&& graph_copied(h.w0, h.objs, space, h.roots, h.table, fwd)
}

/// The array of roots is in the memory of the space what it was in the
/// heap: the root boxes and the static places are the same.
proof fn lemma_same_statics<P: PageAlloc>(h: Heap, space: &Space<P>, fwd: Map<int, int>, i: int)
    requires
        collected_in(h, space, fwd),
    ensures
        ({
            let h2 = copied_heap(h, space, fwd);
            &&& static_count(h2) == static_count(h)
            &&& h2.w0[h.roots] == h.w0[h.roots]
            &&& 0 <= i < static_count(h) ==> static_addr(h2, i) == static_addr(h, i)
            &&& 0 <= i < h.w0[h.roots + 4] ==> root_box(h2.w0, h.roots, i) == root_box(
                h.w0,
                h.roots,
                i,
            ) && h2.w0[root_box(h.w0, h.roots, i)] == h.w0[root_box(h.w0, h.roots, i)]
        }),
{
    let w = space.page_alloc.words();
    assert(root_frame(h.w0, h.roots, h.roots));
    assert(root_frame(h.w0, h.roots, h.roots + 4));
    assert forall|j: int| 0 <= j < h.w0[h.roots + 4] implies root_box(w, h.roots, j) == root_box(
        h.w0,
        h.roots,
        j,
    ) && w[#[trigger] root_box(h.w0, h.roots, j)] == h.w0[root_box(h.w0, h.roots, j)] by {
        let b = root_box(h.w0, h.roots, j);
        assert(b == crate::types::Value(h.w0[h.roots + 8 + 4 * j]).spec_get_ptr());
        assert(frame_of(h.w0, h.roots, h.roots + 8 + 4 * j, j));
        assert(frame_of(h.w0, h.roots, b, j));
        assert(root_frame(h.w0, h.roots, h.roots + 8 + 4 * j));
        assert(root_frame(h.w0, h.roots, b));
    }
}

/// A word of the array of roots or of the header of a root box of the heap
/// that the collection leaves is one of the heap that was collected.
proof fn lemma_same_frame<P: PageAlloc>(h: Heap, space: &Space<P>, fwd: Map<int, int>, x: int)
    requires
        collected_in(h, space, fwd),
        root_frame(space.page_alloc.words(), h.roots, x),
    ensures
        root_frame(h.w0, h.roots, x),
{
    let w = space.page_alloc.words();
    lemma_same_statics(h, space, fwd, 0);
    if x != h.roots && x != h.roots + 4 {
        let j = choose|j: int| 0 <= j < w[h.roots + 4] && #[trigger] frame_of(w, h.roots, x, j);
        lemma_same_statics(h, space, fwd, j);
        assert(root_box(h.w0, h.roots, j) == root_box(w, h.roots, j));
        assert(frame_of(h.w0, h.roots, x, j));
    }
}

/// The copy of an object is a well-formed object of the heap that the
/// collection leaves, in a page of the space.
#[verifier::rlimit(50)]
proof fn lemma_copy_ok<P: PageAlloc>(h: Heap, space: &Space<P>, fwd: Map<int, int>, a: int)
    requires
        collected_in(h, space, fwd),
        fwd.dom().contains(a),
    ensures
        ({
            let h2 = copied_heap(h, space, fwd);
            &&& h2.objs.contains(fwd[a])
            &&& obj_ok(h2, fwd[a])
            &&& size0(h2.w0, fwd[a]) == size0(h.w0, a)
            &&& placed(h2, space, fwd[a])
            &&& !space.page_alloc.is_static(fwd[a])
            &&& forall|x: int|
                fwd[a] <= x < fwd[a] + 4 * size0(h.w0, a) ==> !space.page_alloc.is_static(x)
            &&& forall|k: int|
                1 <= k < size0(h.w0, a) ==> #[trigger] is_field_word(h2.w0, fwd[a], k)
                    == is_field_word(h.w0, a, k)
        }),
{
    let h2 = copied_heap(h, space, fwd);
    let pa = &space.page_alloc;
    let w = pa.words();
    let b = fwd[a];
    let s = size0(h.w0, a);
    assert(copy_in(h.w0, h.objs, space, fwd, a));
    assert(obj_ok(h, a));
    let i = choose|i: int| #[trigger] in_used(space, i, b, s);
    pa.lemma_page_size();
    pa.lemma_live_handle(space.pages@[i]);
    pa.lemma_live_page(space.start(i));
    assert(in_contents(space, i, b, s));
    let off = length_offset(h.w0[a]);
    if off != 0 {
        let k = off / 4;
        assert(w.dom().contains(b + 4 * k));
        assert(!is_field_word(h.w0, a, k));
    }
    assert(length_word(w, b, w[b]) == length_word(h.w0, a, h.w0[a]));
    assert(first(h2, b) == first(h, a));
    assert(count(h2, b) == count(h, a));
    assert forall|k: int| 0 <= k < s implies #[trigger] w.dom().contains(b + 4 * k) by {
        if k == 0 {
            assert(b + 4 * 0 == b);
        }
    }
    assert forall|k: int|
        0 <= k < s && is_field_word(w, b, k) implies crate::gc::copying::wellformed::target_ok(
        h2.objs,
        #[trigger] w[b + 4 * k],
    ) by {
        assert(is_field_word(h.w0, a, k));
        assert(w.dom().contains(b + 4 * k));
        let v0 = h.w0[a + 4 * k];
        let v = w[b + 4 * k];
        assert(moved(h.objs, fwd, v0, v));
        if crate::types::Value(v0).spec_is_ptr() {
            let t = crate::types::Value(v0).spec_get_ptr();
            assert(fwd.dom().contains(t));
            assert(h2.objs.contains(fwd[t]));
        }
    }
    assert forall|x: int| b <= x < b + 4 * s implies !pa.is_static(x) by {
        if pa.is_static(x) {
            pa.lemma_page_mapped_static(space.start(i), x);
        }
    }
}

/// What a collection leaves is a well-formed heap: the copies are
/// well-formed objects that lie apart in the pages of the space, each
/// pointer field of a copy, each root box and the continuation table holds a
/// scalar or points to a copy, and no copy lies where a root is.  No
/// forwarding pointer and no threaded header is left in it.
#[verifier::rlimit(100)]
pub proof fn lemma_copy_is_heap<P: PageAlloc>(h: Heap, space: &Space<P>, fwd: Map<int, int>)
    requires
        collected_in(h, space, fwd),
    ensures
        heap_ok(copied_heap(h, space, fwd)),
        forall|b: int|
            #[trigger] copied_heap(h, space, fwd).objs.contains(b) ==> placed(
                copied_heap(h, space, fwd),
                space,
                b,
            ),
        statics_in(copied_heap(h, space, fwd), &space.page_alloc),
        forall|x: int|
            #[trigger] root_frame(copied_heap(h, space, fwd).w0, h.roots, x) ==> copied_heap(
                h,
                space,
                fwd,
            ).w0.dom().contains(x),
        copied_heap(h, space, fwd).objs.len() <= h.objs.len(),
{
    let h2 = copied_heap(h, space, fwd);
    let pa = &space.page_alloc;
    let w = pa.words();
    let f = |a: int| fwd[a];
    assert(fwd.dom().subset_of(h.objs)) by {
        assert forall|a: int| fwd.dom().contains(a) implies h.objs.contains(a) by {
            assert(copy_in(h.w0, h.objs, space, fwd, a));
        }
    }
    vstd::set_lib::lemma_len_subset(fwd.dom(), h.objs);
    vstd::set_lib::lemma_map_size_bound(fwd.dom(), h2.objs, f);
    lemma_same_statics(h, space, fwd, 0);
    assert forall|b: int| #[trigger] h2.objs.contains(b) implies obj_ok(h2, b) && placed(
        h2,
        space,
        b,
    ) by {
        let a = choose|a: int| fwd.dom().contains(a) && b == f(a);
        lemma_copy_ok(h, space, fwd, a);
    }
    assert forall|b1: int, b2: int|
        #[trigger] h2.objs.contains(b1) && #[trigger] h2.objs.contains(b2) && b1 < b2 implies b1 + 4
        * size0(w, b1) <= b2 by {
        let a1 = choose|a: int| fwd.dom().contains(a) && b1 == f(a);
        let a2 = choose|a: int| fwd.dom().contains(a) && b2 == f(a);
        lemma_copy_ok(h, space, fwd, a1);
        lemma_copy_ok(h, space, fwd, a2);
        assert(obj_ok(h, a2));
    }
    assert forall|i: int| 0 <= i < static_count(h2) implies #[trigger] static_ok(h2, i) by {
        lemma_same_statics(h, space, fwd, i);
        assert(static_ok(h, i));
        let p = static_addr(h, i);
        assert(pa.is_static(p));
        if i < h.w0[h.roots + 4] {
            assert(moved(
                h.objs,
                fwd,
                h.w0[root_box(h.w0, h.roots, i) + 4],
                w[root_box(h.w0, h.roots, i) + 4],
            ));
        }
        let v0 = h.w0[p];
        let v = w[p];
        assert(moved(h.objs, fwd, v0, v));
        if crate::types::Value(v0).spec_is_ptr() {
            let t = crate::types::Value(v0).spec_get_ptr();
            assert(h2.objs.contains(fwd[t]));
        }
        assert forall|b: int| #[trigger] h2.objs.contains(b) implies !(b <= p < b + 4 * size0(
            w,
            b,
        )) by {
            let a = choose|a: int| fwd.dom().contains(a) && b == f(a);
            lemma_copy_ok(h, space, fwd, a);
        }
    }
    assert forall|i: int, j: int| 0 <= i < j < static_count(h2) implies #[trigger] static_addr(
        h2,
        i,
    ) != #[trigger] static_addr(h2, j) by {
        lemma_same_statics(h, space, fwd, i);
        lemma_same_statics(h, space, fwd, j);
        assert(static_addr(h, i) != static_addr(h, j));
    }
    assert forall|x: int| #[trigger] root_frame(w, h.roots, x) implies frame_apart(h2, x)
        && w.dom().contains(x) && pa.is_static(x) by {
        lemma_same_frame(h, space, fwd, x);
        assert(frame_apart(h, x));
        assert forall|i: int| 0 <= i < static_count(h2) implies #[trigger] static_addr(h2, i)
            != x by {
            lemma_same_statics(h, space, fwd, i);
            assert(static_addr(h, i) != x);
        }
        assert forall|b: int| #[trigger] h2.objs.contains(b) implies !(b <= x < b + 4 * size0(
            w,
            b,
        )) by {
            let a = choose|a: int| fwd.dom().contains(a) && b == f(a);
            lemma_copy_ok(h, space, fwd, a);
        }
    }
    assert forall|i: int| 0 <= i < w[h.roots + 4] implies w[#[trigger] root_box(w, h.roots, i)]
        == crate::types::TAG_MUTBOX by {
        lemma_same_statics(h, space, fwd, i);
        assert(h.w0[root_box(h.w0, h.roots, i)] == crate::types::TAG_MUTBOX);
    }
    assert forall|i: int| 0 <= i < static_count(h2) implies pa.is_static(
        #[trigger] static_addr(h2, i),
    ) by {
        lemma_same_statics(h, space, fwd, i);
        assert(pa.is_static(static_addr(h, i)));
    }
}

/// What a collection leaves can be compacted again, where the pages are
/// large enough for a chunk of the mark stack and the allocator has more
/// pages left than there were objects.
pub proof fn lemma_compact_again<P: PageAlloc>(h: Heap, space: &Space<P>, fwd: Map<int, int>)
    requires
        collected_in(h, space, fwd),
        space.page_alloc.page_size() >= MIN_CHUNK_SIZE,
        space.page_alloc.remaining() > h.objs.len(),
    ensures
        compact_start(copied_heap(h, space, fwd), space),
{
    lemma_copy_is_heap(h, space, fwd);
}

/// The memory of the space as a heap with the objects `objs`, the array
/// of roots at `roots` and the continuation table at `table`.
pub open spec fn heap_in<P: PageAlloc>(
    space: &Space<P>,
    objs: Set<int>,
    roots: int,
    table: int,
) -> Heap {
    Heap { w0: space.page_alloc.words(), objs, roots, table }
}

/// No word of an object of a heap that can be copied is static.
proof fn lemma_object_dynamic<P: PageAlloc>(
    space: &Space<P>,
    objs: Set<int>,
    roots: int,
    table: int,
    a: int,
    x: int,
)
    requires
        heap_before(space, objs, roots, table),
        objs.contains(a),
        a <= x < a + 4 * size0(space.page_alloc.words(), a),
    ensures
        !space.page_alloc.is_static(x),
        0 < a,
        a + 4 * size0(space.page_alloc.words(), a) <= 0xffff_ffff,
{
    let pa = &space.page_alloc;
    assert(object_before(pa.words(), objs, pa, a));
    pa.lemma_mapped_in_page(a);
    pa.lemma_page_size();
    pa.lemma_live_page(pa.page_containing(a));
    if pa.is_static(x) {
        pa.lemma_page_mapped_static(pa.page_containing(a), x);
    }
}

/// A heap that can be copied is a well-formed heap whose roots are
/// static.
#[verifier::rlimit(50)]
pub proof fn lemma_heap_before_ok<P: PageAlloc>(
    space: &Space<P>,
    objs: Set<int>,
    roots: int,
    table: int,
)
    requires
        heap_before(space, objs, roots, table),
    ensures
        heap_ok(heap_in(space, objs, roots, table)),
        statics_in(heap_in(space, objs, roots, table), &space.page_alloc),
{
    let h = heap_in(space, objs, roots, table);
    let pa = &space.page_alloc;
    let w0 = pa.words();
    assert forall|a: int| #[trigger] h.objs.contains(a) implies obj_ok(h, a) by {
        assert(object_before(w0, objs, pa, a));
        lemma_object_dynamic(space, objs, roots, table, a, a);
        crate::object::lemma_fields_in_object(w0[a], length_word(w0, a, w0[a]));
    }
    assert forall|i: int| 0 <= i < static_count(h) implies #[trigger] static_ok(h, i)
        && pa.is_static(static_addr(h, i)) && !root_frame(w0, roots, static_addr(h, i)) by {
        let p = static_addr(h, i);
        if i < w0[roots + 4] {
            assert(crate::gc::copying::wellformed::root_ok(w0, objs, space, roots, table, i));
        }
        pa.lemma_mapped(p);
        assert forall|a: int| #[trigger] h.objs.contains(a) implies !(a <= p < a + 4 * size0(
            w0,
            a,
        )) by {
            if a <= p < a + 4 * size0(w0, a) {
                lemma_object_dynamic(space, objs, roots, table, a, p);
            }
        }
    }
    assert forall|i: int, j: int| 0 <= i < j < static_count(h) implies #[trigger] static_addr(
        h,
        i,
    ) != #[trigger] static_addr(h, j) by {
        if j < w0[roots + 4] {
            assert(root_box(w0, roots, i) != root_box(w0, roots, j));
        } else {
            assert(crate::gc::copying::wellformed::root_ok(w0, objs, space, roots, table, i));
        }
    }
    assert forall|x: int| #[trigger] root_frame(w0, roots, x) implies frame_apart(h, x) by {
        assert forall|i: int| 0 <= i < static_count(h) implies #[trigger] static_addr(h, i)
            != x by {
            assert(static_ok(h, i));
        }
        assert forall|a: int| #[trigger] h.objs.contains(a) implies !(a <= x < a + 4 * size0(
            w0,
            a,
        )) by {
            if a <= x < a + 4 * size0(w0, a) {
                lemma_object_dynamic(space, objs, roots, table, a, x);
            }
        }
    }
    assert forall|i: int| 0 <= i < w0[roots + 4] implies w0[#[trigger] root_box(w0, roots, i)]
        == crate::types::TAG_MUTBOX by {
        assert(crate::gc::copying::wellformed::root_ok(w0, objs, space, roots, table, i));
    }
    assert forall|i: int| 0 <= i < static_count(h) implies pa.is_static(
        #[trigger] static_addr(h, i),
    ) by {
        assert(static_ok(h, i));
    }
}

/// What a copying collection hands back is a copy of the part of a
/// well-formed heap that the roots reach, and so, like what a compaction
/// leaves, a well-formed heap again.
pub proof fn lemma_collected_is_heap<P: PageAlloc>(
    from_space: &Space<P>,
    to_space: &Space<P>,
    objs: Set<int>,
    roots: int,
    table: int,
)
    requires
        heap_before(from_space, objs, roots, table),
        collected(from_space.page_alloc.words(), objs, to_space, roots, table),
    ensures
        exists|fwd: Map<int, int>| #[trigger]
            collected_in(heap_in(from_space, objs, roots, table), to_space, fwd),
{
    let h = heap_in(from_space, objs, roots, table);
    let w0 = from_space.page_alloc.words();
    lemma_heap_before_ok(from_space, objs, roots, table);
    crate::gc::copying::collection::lemma_collected_graph(w0, objs, to_space, roots, table);
    let fwd = choose|fwd: Map<int, int>| #[trigger]
        graph_copied(w0, objs, to_space, roots, table, fwd);
    let mid = choose|mid: Space<P>| #[trigger]
        crate::gc::copying::scan::copy_final(w0, objs, &mid, roots, table)
            && crate::gc::copying::collection::released(&mid, to_space);
    assert(crate::gc::copying::wellformed::roots_ok(w0, objs, &mid, roots, table));
    assert forall|i: int| 0 <= i < static_count(h) implies to_space.page_alloc.is_static(
        #[trigger] static_addr(h, i),
    ) by {
        if i < w0[roots + 4] {
            assert(crate::gc::copying::wellformed::root_ok(w0, objs, &mid, roots, table, i));
        }
    }
    assert(collected_in(h, to_space, fwd));
}

/// Every kept object lies, where it is now, in the contents area of one
/// of the pages.
pub open spec fn housed<P: PageAlloc>(
    h: Heap,
    page_alloc: &P,
    pages: Seq<P::Page>,
    fwd: Map<int, int>,
) -> bool {
    forall|a: int|
        #[trigger] fwd.dom().contains(a) ==> h.objs.contains(a) && exists|i: int| #[trigger]
            in_page_of(page_alloc, pages, i, fwd[a], size0(h.w0, a))
}

/// The object before a kept object is the same for two relocations of the
/// same objects.
proof fn lemma_pred_unique(f1: Map<int, int>, f2: Map<int, int>, b1: int, b2: int, a: int)
    requires
        f1.dom() == f2.dom(),
        pred(f1, b1, a),
        pred(f2, b2, a),
    ensures
        b1 == b2,
{
    assert(f2.dom().contains(b1));
    assert(f1.dom().contains(b2));
}

/// An address lies in the contents area of one page only, and behind the
/// end of a page lies no contents area that begins at or before it.
proof fn lemma_one_page<P: PageAlloc>(
    page_alloc: &P,
    pages: Seq<P::Page>,
    i: int,
    j: int,
    x: int,
    n: int,
    m: int,
)
    requires
        page_alloc.wf(),
        pages_ok(page_alloc, pages),
        in_page_of(page_alloc, pages, i, x, n),
        0 <= j < pages.len(),
        P::start_of(pages[j]) + PAGE_HEADER_SIZE <= x + m,
        x + m <= P::start_of(pages[j]) + page_alloc.page_size(),
        0 <= m,
        1 <= n,
    ensures
        m < 4 * n ==> i == j,
        i <= j,
{
    if i < j {
        lemma_pages_apart(page_alloc, pages, i, j);
    }
    if j < i {
        lemma_pages_apart(page_alloc, pages, j, i);
    }
}

/// Packing leaves no choice: two relocations of the same objects that are
/// both packed into the same pages send every object to the same address.
/// So what a compaction leaves is determined by the objects that it keeps,
/// their sizes and the pages; and a heap that is packed already is left
/// where it is.
#[verifier::rlimit(100)]
pub proof fn lemma_packed_unique<P: PageAlloc>(
    h: Heap,
    page_alloc: &P,
    pages: Seq<P::Page>,
    f1: Map<int, int>,
    f2: Map<int, int>,
    a: int,
)
    requires
        heap_ok(h),
        page_alloc.wf(),
        pages_ok(page_alloc, pages),
        f1.dom() == f2.dom(),
        packed::<P>(h, pages, page_alloc.page_size(), f1),
        packed::<P>(h, pages, page_alloc.page_size(), f2),
        housed(h, page_alloc, pages, f1),
        housed(h, page_alloc, pages, f2),
        f1.dom().contains(a),
    ensures
        f1[a] == f2[a],
    decreases a,
{
    reveal(packed);
    let ps = page_alloc.page_size();
    assert(obj_ok(h, a));
    let n = size0(h.w0, a);
    let j1 = choose|i: int| #[trigger] in_page_of(page_alloc, pages, i, f1[a], n);
    let j2 = choose|i: int| #[trigger] in_page_of(page_alloc, pages, i, f2[a], n);
    page_alloc.lemma_page_size();
    if exists|b: int| #[trigger] behind(h, f1, b, a) {
        let b = choose|b: int| #[trigger] behind(h, f1, b, a);
        assert(obj_ok(h, b));
        lemma_packed_unique(h, page_alloc, pages, f1, f2, b);
        if exists|b2: int| #[trigger] behind(h, f2, b2, a) {
            let b2 = choose|b2: int| #[trigger] behind(h, f2, b2, a);
            lemma_pred_unique(f1, f2, b, b2, a);
        } else {
            let i = choose|i: int| #[trigger] heads::<P>(h, pages, ps, f2, i, a);
            if i == 0 {
                assert(f2.dom().contains(b));
            } else {
                let b2 = choose|b2: int| #[trigger] shut::<P>(h, pages, ps, f2, i, b2, a);
                lemma_pred_unique(f1, f2, b, b2, a);
                lemma_one_page(page_alloc, pages, j1, i - 1, f1[a], n, 0);
            }
        }
    } else {
        let i = choose|i: int| #[trigger] heads::<P>(h, pages, ps, f1, i, a);
        if exists|b2: int| #[trigger] behind(h, f2, b2, a) {
            let b2 = choose|b2: int| #[trigger] behind(h, f2, b2, a);
            assert(obj_ok(h, b2));
            lemma_packed_unique(h, page_alloc, pages, f1, f2, b2);
            if i == 0 {
                assert(f1.dom().contains(b2));
            } else {
                let b = choose|b: int| #[trigger] shut::<P>(h, pages, ps, f1, i, b, a);
                lemma_pred_unique(f1, f2, b, b2, a);
                lemma_one_page(page_alloc, pages, j2, i - 1, f2[a], n, 0);
            }
        } else {
            let i2 = choose|i2: int| #[trigger] heads::<P>(h, pages, ps, f2, i2, a);
            if i == 0 && i2 > 0 {
                let b2 = choose|b2: int| #[trigger] shut::<P>(h, pages, ps, f2, i2, b2, a);
                assert(f1.dom().contains(b2));
            } else if i > 0 && i2 == 0 {
                let b = choose|b: int| #[trigger] shut::<P>(h, pages, ps, f1, i, b, a);
                assert(f2.dom().contains(b));
            } else if i > 0 && i2 > 0 {
                let b = choose|b: int| #[trigger] shut::<P>(h, pages, ps, f1, i, b, a);
                let b2 = choose|b2: int| #[trigger] shut::<P>(h, pages, ps, f2, i2, b2, a);
                lemma_pred_unique(f1, f2, b, b2, a);
                assert(obj_ok(h, b));
                lemma_packed_unique(h, page_alloc, pages, f1, f2, b);
                if i - 1 < i2 - 1 {
                    lemma_pages_apart(page_alloc, pages, i - 1, i2 - 1);
                }
                if i2 - 1 < i - 1 {
                    lemma_pages_apart(page_alloc, pages, i2 - 1, i - 1);
                }
            }
        }
    }
}

/// Where page `k` of the pages in address order stands among the pages
/// of the space.
pub open spec fn place_of<P: PageAlloc>(space: &Space<P>, sorted: Seq<P::Page>, k: int) -> int {
    choose|m: int| 0 <= m < space.pages@.len() && #[trigger] space.pages@[m] == sorted[k]
}

/// In a space whose pages stand in address order, page `k` of the pages
/// in address order stands at or behind position `k`, and at or before it.
proof fn lemma_place_of<P: PageAlloc>(space: &Space<P>, sorted: Seq<P::Page>, k: int, up: bool)
    requires
        Space::<P>::ascending(space.pages@),
        sorted_of(space, sorted),
        0 <= k < sorted.len(),
    ensures
        0 <= place_of(space, sorted, k) < space.pages@.len(),
        space.pages@[place_of(space, sorted, k)] == sorted[k],
        up ==> place_of(space, sorted, k) >= k,
        !up ==> place_of(space, sorted, k) <= k,
    decreases
        (if up {
            k
        } else {
            sorted.len() - k
        }),
{
    let n = sorted.len() as int;
    assert(Space::<P>::among(space.pages@, space.pages@.len() as int, sorted[k]));
    let m = place_of(space, sorted, k);
    if up && k > 0 {
        lemma_place_of(space, sorted, k - 1, true);
        let m0 = place_of(space, sorted, k - 1);
        assert(P::start_of(sorted[k - 1]) < P::start_of(sorted[k]));
        if m <= m0 {
            if m < m0 {
                assert(P::start_of(space.pages@[m]) < P::start_of(space.pages@[m0]));
            }
        }
    }
    if !up && k < n - 1 {
        lemma_place_of(space, sorted, k + 1, false);
        let m1 = place_of(space, sorted, k + 1);
        assert(P::start_of(sorted[k]) < P::start_of(sorted[k + 1]));
        if m1 <= m {
            if m1 < m {
                assert(P::start_of(space.pages@[m1]) < P::start_of(space.pages@[m]));
            }
        }
    }
}

/// The pages of a space that stand in address order are their own
/// arrangement in address order.
pub proof fn lemma_sorted_same<P: PageAlloc>(space: &Space<P>, sorted: Seq<P::Page>)
    requires
        Space::<P>::ascending(space.pages@),
        sorted_of(space, sorted),
    ensures
        sorted == space.pages@,
{
    assert forall|k: int| 0 <= k < sorted.len() implies sorted[k] == space.pages@[k] by {
        lemma_place_of(space, sorted, k, true);
        lemma_place_of(space, sorted, k, false);
    }
    assert(sorted =~= space.pages@);
}

/// The relocation that leaves every object where it is.
pub open spec fn stay(objs: Set<int>) -> Map<int, int> {
    Map::new(|a: int| objs.contains(a), |a: int| a)
}

/// What a compaction leaves, with the relocation that it has made: a copy
/// of the reachable part of the heap in the space, slid down and packed.
pub open spec fn compacted_by<P: PageAlloc>(h: Heap, space: &Space<P>, fwd: Map<int, int>) -> bool {
    &&& collected_in(h, space, fwd)
    &&& slid_down(h, space, fwd)
    &&& Space::<P>::ascending(space.pages@)
}

/// The relocation keeps the order of the objects.
proof fn lemma_fwd_order<P: PageAlloc>(
    h: Heap,
    space: &Space<P>,
    fwd: Map<int, int>,
    a: int,
    b: int,
)
    requires
        compacted_by(h, space, fwd),
        fwd.dom().contains(a),
        fwd.dom().contains(b),
    ensures
        a < b <==> fwd[a] < fwd[b],
        a == b <==> fwd[a] == fwd[b],
{
    assert(copy_in(h.w0, h.objs, space, fwd, a));
    assert(copy_in(h.w0, h.objs, space, fwd, b));
    assert(obj_ok(h, a));
    assert(obj_ok(h, b));
}

/// The object before a kept object is, where the two are now, the object
/// before it still.
proof fn lemma_pred_moved<P: PageAlloc>(
    h: Heap,
    space: &Space<P>,
    fwd: Map<int, int>,
    b: int,
    a: int,
)
    requires
        compacted_by(h, space, fwd),
        fwd.dom().contains(a),
        pred(fwd, b, a),
    ensures
        pred(stay(copied_heap(h, space, fwd).objs), fwd[b], fwd[a]),
        size0(copied_heap(h, space, fwd).w0, fwd[b]) == size0(h.w0, b),
        size0(copied_heap(h, space, fwd).w0, fwd[a]) == size0(h.w0, a),
{
    let h2 = copied_heap(h, space, fwd);
    let id = stay(h2.objs);
    lemma_copy_ok(h, space, fwd, a);
    lemma_copy_ok(h, space, fwd, b);
    lemma_fwd_order(h, space, fwd, b, a);
    assert forall|c2: int| #[trigger] id.dom().contains(c2) && c2 < fwd[a] implies c2
        <= fwd[b] by {
        let c = choose|c: int| fwd.dom().contains(c) && c2 == fwd[c];
        lemma_fwd_order(h, space, fwd, c, a);
        lemma_fwd_order(h, space, fwd, c, b);
    }
}

/// A kept object lies, where it is now, right behind the object before it
/// or at the start of a page, as packing has it of objects that stay where
/// they are.
#[verifier::rlimit(50)]
proof fn lemma_packed_moved_one<P: PageAlloc>(
    h: Heap,
    space: &Space<P>,
    fwd: Map<int, int>,
    a: int,
)
    requires
        compacted_by(h, space, fwd),
        fwd.dom().contains(a),
    ensures
        ({
            let h2 = copied_heap(h, space, fwd);
            let id = stay(h2.objs);
            let ps = space.page_alloc.page_size();
            (exists|b: int| #[trigger] behind(h2, id, b, fwd[a])) || (exists|i: int| #[trigger]
                heads::<P>(h2, space.pages@, ps, id, i, fwd[a]))
        }),
{
    reveal(packed);
    let h2 = copied_heap(h, space, fwd);
    let id = stay(h2.objs);
    let ps = space.page_alloc.page_size();
    let pages = space.pages@;
    lemma_copy_ok(h, space, fwd, a);
    if exists|b: int| #[trigger] behind(h, fwd, b, a) {
        let b = choose|b: int| #[trigger] behind(h, fwd, b, a);
        lemma_pred_moved(h, space, fwd, b, a);
        assert(behind(h2, id, fwd[b], fwd[a]));
    } else {
        let i = choose|i: int| #[trigger] heads::<P>(h, pages, ps, fwd, i, a);
        if i == 0 {
            assert forall|c2: int| #[trigger] id.dom().contains(c2) implies fwd[a] <= c2 by {
                let c = choose|c: int| fwd.dom().contains(c) && c2 == fwd[c];
                lemma_fwd_order(h, space, fwd, a, c);
            }
        } else {
            let b = choose|b: int| #[trigger] shut::<P>(h, pages, ps, fwd, i, b, a);
            lemma_pred_moved(h, space, fwd, b, a);
            assert(shut::<P>(h2, pages, ps, id, i, fwd[b], fwd[a]));
        }
        assert(heads::<P>(h2, pages, ps, id, i, fwd[a]));
    }
}

/// What is reachable in the heap is, where it is now, reachable in the
/// heap that the collection leaves.
proof fn lemma_reach_moved<P: PageAlloc>(
    h: Heap,
    space: &Space<P>,
    fwd: Map<int, int>,
    a: int,
    n: nat,
)
    requires
        compacted_by(h, space, fwd),
        reach(h, a, n),
    ensures
        fwd.dom().contains(a),
        reach(copied_heap(h, space, fwd), fwd[a], n),
    decreases n,
{
    let h2 = copied_heap(h, space, fwd);
    let w = space.page_alloc.words();
    assert(reachable(h, a));
    assert(fwd.dom().contains(a));
    if exists|i: int| #[trigger] edge(h, Spot::Static(i), a) {
        let i = choose|i: int| #[trigger] edge(h, Spot::Static(i), a);
        lemma_same_statics(h, space, fwd, i);
        let p = static_addr(h, i);
        if i < h.w0[h.roots + 4] {
            assert(moved(
                h.objs,
                fwd,
                h.w0[root_box(h.w0, h.roots, i) + 4],
                w[root_box(h.w0, h.roots, i) + 4],
            ));
        }
        assert(moved(h.objs, fwd, h.w0[p], w[p]));
        assert(edge(h2, Spot::Static(i), fwd[a]));
    } else {
        let (b, k) = choose|b: int, k: int|
            reach(h, b, (n - 1) as nat) && #[trigger] edge(h, Spot::Field(b, k), a);
        lemma_reach_moved(h, space, fwd, b, (n - 1) as nat);
        lemma_copy_ok(h, space, fwd, b);
        assert(copy_in(h.w0, h.objs, space, fwd, b));
        assert(w.dom().contains(fwd[b] + 4 * k));
        assert(is_field_word(h2.w0, fwd[b], k));
        assert(moved(h.objs, fwd, h.w0[b + 4 * k], w[fwd[b] + 4 * k]));
        assert(edge(h2, Spot::Field(fwd[b], k), fwd[a]));
    }
}

/// What a compaction leaves is a heap at rest: all its objects are
/// reachable, and they are packed into the pages of the space as they lie.
pub proof fn lemma_at_rest<P: PageAlloc>(h: Heap, space: &Space<P>, fwd: Map<int, int>)
    requires
        compacted_by(h, space, fwd),
    ensures
        ({
            let h2 = copied_heap(h, space, fwd);
            let ps = space.page_alloc.page_size();
            &&& forall|b: int| #[trigger] h2.objs.contains(b) <==> reachable(h2, b)
            &&& packed::<P>(h2, space.pages@, ps, stay(h2.objs))
            &&& housed(h2, &space.page_alloc, space.pages@, stay(h2.objs))
            &&& pages_ok(&space.page_alloc, space.pages@)
        }),
{
    reveal(packed);
    let h2 = copied_heap(h, space, fwd);
    let id = stay(h2.objs);
    let ps = space.page_alloc.page_size();
    lemma_copy_is_heap(h, space, fwd);
    assert forall|b: int| #[trigger] h2.objs.contains(b) implies reachable(h2, b) && ((exists|
        c: int,
    | #[trigger] behind(h2, id, c, b)) || (exists|i: int| #[trigger]
        heads::<P>(h2, space.pages@, ps, id, i, b))) && exists|i: int| #[trigger]
        in_page_of(&space.page_alloc, space.pages@, i, id[b], size0(h2.w0, b)) by {
        let a = choose|a: int| fwd.dom().contains(a) && b == fwd[a];
        assert(reachable(h, a));
        let n = choose|n: nat| reach(h, a, n);
        lemma_reach_moved(h, space, fwd, a, n);
        lemma_packed_moved_one(h, space, fwd, a);
        lemma_copy_ok(h, space, fwd, a);
        let i = choose|i: int| #[trigger] in_contents(space, i, b, size0(h2.w0, b));
        assert(in_page_of(&space.page_alloc, space.pages@, i, b, size0(h2.w0, b)));
    }
    assert forall|b: int| reachable(h2, b) implies h2.objs.contains(b) by {
        let n = choose|n: nat| reach(h2, b, n);
        lemma_reach_object(h2, b, n);
    }
}

/// What is reachable in a well-formed heap is an object of the heap.
pub proof fn lemma_reach_object(h: Heap, a: int, n: nat)
    requires
        heap_ok(h),
        reach(h, a, n),
    ensures
        h.objs.contains(a),
{
    if exists|i: int| #[trigger] edge(h, Spot::Static(i), a) {
        let i = choose|i: int| #[trigger] edge(h, Spot::Static(i), a);
        crate::gc::mark_compact::marking::lemma_target(h, Spot::Static(i));
    } else {
        let (b, k) = choose|b: int, k: int|
            reach(h, b, (n - 1) as nat) && #[trigger] edge(h, Spot::Field(b, k), a);
        crate::gc::mark_compact::marking::lemma_target(h, Spot::Field(b, k));
    }
}

/// Objects that are packed into the first of the pages are packed into
/// the pages.
proof fn lemma_packed_prefix<P: PageAlloc>(
    h: Heap,
    pages: Seq<P::Page>,
    k: int,
    ps: int,
    fwd: Map<int, int>,
)
    requires
        0 <= k <= pages.len(),
        packed::<P>(h, pages.take(k), ps, fwd),
    ensures
        packed::<P>(h, pages, ps, fwd),
{
    reveal(packed);
    let first = pages.take(k);
    assert forall|a: int| #[trigger] fwd.dom().contains(a) implies (exists|b: int| #[trigger]
        behind(h, fwd, b, a)) || (exists|i: int| #[trigger] heads::<P>(h, pages, ps, fwd, i, a)) by {
        if !(exists|b: int| #[trigger] behind(h, fwd, b, a)) {
            let i = choose|i: int| #[trigger] heads::<P>(h, first, ps, fwd, i, a);
            assert(first[i] == pages[i]);
            if i > 0 {
                let b = choose|b: int| #[trigger] shut::<P>(h, first, ps, fwd, i, b, a);
                assert(first[i - 1] == pages[i - 1]);
                assert(shut::<P>(h, pages, ps, fwd, i, b, a));
            }
            assert(heads::<P>(h, pages, ps, fwd, i, a));
        }
    }
}

/// A second compaction moves nothing: where a space holds what a
/// compaction has left, and is compacted again, every object stays where it
/// is, and the space keeps its pages and its allocation pointer.
#[verifier::rlimit(100)]
pub proof fn lemma_compact_twice<P: PageAlloc>(
    h: Heap,
    once: &Space<P>,
    fwd: Map<int, int>,
    twice: &Space<P>,
    again: Map<int, int>,
)
    requires
        compacted_by(h, once, fwd),
        compacted(once, twice),
        collected_in(copied_heap(h, once, fwd), twice, again),
        slid_down(copied_heap(h, once, fwd), twice, again),
    ensures
        again == stay(copied_heap(h, once, fwd).objs),
        twice.pages@ == once.pages@,
        twice.hp == once.hp,
        twice.current_page == once.current_page,
{
    let h2 = copied_heap(h, once, fwd);
    let id = stay(h2.objs);
    let pa = &once.page_alloc;
    let ps = pa.page_size();
    let pages = once.pages@;
    lemma_at_rest(h, once, fwd);
    let sorted = choose|sorted: Seq<P::Page>| #[trigger]
        sorted_of(once, sorted) && twice.pages@ == sorted.take(twice.pages@.len() as int);
    lemma_sorted_same(once, sorted);
    let k = twice.pages@.len() as int;
    lemma_packed_prefix::<P>(h2, pages, k, ps, again);
    assert(again.dom() =~= id.dom());
    assert forall|b: int| #[trigger] again.dom().contains(b) implies h2.objs.contains(b) && exists|
        i: int,
    | #[trigger] in_page_of(pa, pages, i, again[b], size0(h2.w0, b)) by {
        assert(copy_in(h2.w0, h2.objs, twice, again, b));
        let i = choose|i: int| #[trigger] in_used(twice, i, again[b], size0(h2.w0, b));
        assert(twice.pages@[i] == pages[i]);
        twice.page_alloc.lemma_page_size();
        twice.page_alloc.lemma_live_handle(twice.pages@[i]);
        twice.page_alloc.lemma_live_page(twice.start(i));
        assert(in_page_of(pa, pages, i, again[b], size0(h2.w0, b)));
    }
    assert forall|b: int| again.dom().contains(b) implies #[trigger] again[b] == id[b] by {
        lemma_packed_unique(h2, pa, pages, again, id, b);
    }
    assert(again =~= id);
    lemma_same_end(h, once, fwd, twice, again);
}

/// Where a second compaction has moved nothing, the space keeps its
/// allocation pointer and its pages.
#[verifier::rlimit(100)]
proof fn lemma_same_end<P: PageAlloc>(
    h: Heap,
    once: &Space<P>,
    fwd: Map<int, int>,
    twice: &Space<P>,
    again: Map<int, int>,
)
    requires
        compacted_by(h, once, fwd),
        compacted(once, twice),
        slid_down(copied_heap(h, once, fwd), twice, again),
        again == stay(copied_heap(h, once, fwd).objs),
        exists|sorted: Seq<P::Page>| #[trigger]
            sorted_of(once, sorted) && twice.pages@ == sorted.take(twice.pages@.len() as int)
                && sorted == once.pages@,
    ensures
        twice.pages@ == once.pages@,
        twice.hp == once.hp,
        twice.current_page == once.current_page,
{
    let h2 = copied_heap(h, once, fwd);
    let pa = &once.page_alloc;
    let ps = pa.page_size();
    let pages = once.pages@;
    let k = twice.pages@.len() as int;
    let n = pages.len() as int;
    pa.lemma_page_size();
    assert forall|j: int| 0 <= j < k implies twice.pages@[j] == pages[j] by {}
    if exists|a: int| fwd.dom().contains(a) {
        let a = choose|a: int| fwd.dom().contains(a);
        let last = choose|last: int| #[trigger]
            fwd.dom().contains(last) && once.hp == fwd[last] + 4 * size0(h.w0, last) && forall|
                c: int,
            | #[trigger] fwd.dom().contains(c) ==> c <= last;
        lemma_copy_ok(h, once, fwd, last);
        assert(again.dom().contains(fwd[last]));
        let last2 = choose|last2: int| #[trigger]
            again.dom().contains(last2) && twice.hp == again[last2] + 4 * size0(h2.w0, last2)
                && forall|c: int| #[trigger] again.dom().contains(c) ==> c <= last2;
        let l0 = choose|l0: int| fwd.dom().contains(l0) && last2 == fwd[l0];
        lemma_fwd_order(h, once, fwd, l0, last);
        assert(fwd[last] <= last2);
        assert(l0 == last);
        assert(twice.hp == once.hp);
        // the allocation pointer lies in the contents area of one page only
        let c1 = once.current_page as int;
        let c2 = twice.current_page as int;
        pa.lemma_live_handle(pages[c1]);
        pa.lemma_live_page(P::start_of(pages[c1]));
        if c2 < c1 {
            lemma_pages_apart(pa, pages, c2, c1);
        }
        assert(obj_ok(h, last));
    } else {
        assert forall|b: int| !again.dom().contains(b) by {
            if again.dom().contains(b) {
                let a = choose|a: int| fwd.dom().contains(a) && b == fwd[a];
            }
        }
    }
    assert(twice.pages@ =~= once.pages@);
}

/// A word that held a pointer to an object that has stayed where it is,
/// or no pointer, holds what it held.
proof fn lemma_stayed(objs: Set<int>, v0: u32, v: u32)
    requires
        moved(objs, stay(objs), v0, v),
    ensures
        v == v0,
{
    if crate::types::Value(v0).spec_is_ptr() {
        crate::types::lemma_ptr_round_trip_value(crate::types::Value(v0));
        crate::types::lemma_ptr_round_trip_value(crate::types::Value(v));
    }
}

/// A second compaction changes nothing: every word of every object, the
/// fields of the root boxes, the continuation table, the array of roots and
/// the headers of the root boxes hold after it what they held before it.
#[verifier::rlimit(100)]
pub proof fn lemma_twice_words<P: PageAlloc>(
    h: Heap,
    once: &Space<P>,
    fwd: Map<int, int>,
    twice: &Space<P>,
    again: Map<int, int>,
)
    requires
        compacted_by(h, once, fwd),
        compacted(once, twice),
        collected_in(copied_heap(h, once, fwd), twice, again),
        slid_down(copied_heap(h, once, fwd), twice, again),
    ensures
        forall|b: int, k: int|
            copied_heap(h, once, fwd).objs.contains(b) && 0 <= k < size0(
                once.page_alloc.words(),
                b,
            ) ==> #[trigger] twice.page_alloc.words()[b + 4 * k] == once.page_alloc.words()[b + 4
                * k],
        forall|i: int|
            0 <= i < static_count(h) ==> twice.page_alloc.words()[#[trigger] static_addr(h, i)]
                == once.page_alloc.words()[static_addr(h, i)],
        forall|x: int|
            #[trigger] root_frame(h.w0, h.roots, x) ==> twice.page_alloc.words()[x]
                == once.page_alloc.words()[x],
{
    let h2 = copied_heap(h, once, fwd);
    let w1 = once.page_alloc.words();
    let w2 = twice.page_alloc.words();
    lemma_compact_twice(h, once, fwd, twice, again);
    assert forall|b: int, k: int|
        h2.objs.contains(b) && 0 <= k < size0(w1, b) implies #[trigger] w2[b + 4 * k] == w1[b + 4
        * k] by {
        assert(again.dom().contains(b));
        assert(copy_in(h2.w0, h2.objs, twice, again, b));
        if k > 0 {
            assert(w2.dom().contains(b + 4 * k));
            if is_field_word(w1, b, k) {
                lemma_stayed(h2.objs, w1[b + 4 * k], w2[b + 4 * k]);
            }
        }
    }
    assert forall|i: int| 0 <= i < static_count(h) implies w2[#[trigger] static_addr(h, i)]
        == w1[static_addr(h, i)] by {
        lemma_same_statics(h, once, fwd, i);
        let p = static_addr(h, i);
        if i < h.w0[h.roots + 4] {
            assert(moved(
                h2.objs,
                again,
                w1[root_box(w1, h.roots, i) + 4],
                w2[root_box(w1, h.roots, i) + 4],
            ));
        }
        lemma_stayed(h2.objs, w1[p], w2[p]);
    }
    assert forall|x: int| #[trigger] root_frame(h.w0, h.roots, x) implies w2[x] == w1[x] by {
        lemma_same_frame_back(h, once, fwd, x);
    }
}

/// A word of the array of roots or of the header of a root box of the heap
/// that was collected is one of the heap that the collection leaves.
proof fn lemma_same_frame_back<P: PageAlloc>(h: Heap, space: &Space<P>, fwd: Map<int, int>, x: int)
    requires
        collected_in(h, space, fwd),
        root_frame(h.w0, h.roots, x),
    ensures
        root_frame(space.page_alloc.words(), h.roots, x),
{
    let w = space.page_alloc.words();
    lemma_same_statics(h, space, fwd, 0);
    if x != h.roots && x != h.roots + 4 {
        let j = choose|j: int| 0 <= j < h.w0[h.roots + 4] && #[trigger] frame_of(h.w0, h.roots, x, j);
        lemma_same_statics(h, space, fwd, j);
        assert(root_box(h.w0, h.roots, j) == root_box(w, h.roots, j));
        assert(frame_of(w, h.roots, x, j));
    }
}

} // verus!
