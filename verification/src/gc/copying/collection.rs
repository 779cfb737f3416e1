//! What a whole copying collection starts from and what it leaves, stated
//! of the space that is collected and of the space that is handed back.
use vstd::prelude::*;
use crate::gc::copying::scan::{copy_final, copy_start, root_state, roots_distinct};
use crate::gc::mark_compact::marking::{edge, reach, reachable, Spot};
use crate::gc::copying::wellformed::heap_of;
use crate::gc::copying::wellformed::{
    copy_inv, copy_of, copy_ok, field_state, fields_state, forwarded, in_used, is_field_word,
    lemma_target_shape, lemma_used_mapped, object_ok, objects_apart, page_covered, pages_covered, root_box,
    root_frame, root_ok, roots_ok, size0, target_count, target_ok, unforwarded, value_done,
    word_ok, Target,
};
use crate::object::{field_offset, spec_object_size};
use crate::page_alloc::{page_added, with_zero_page, PageAlloc, WordMemory, PAGE_HEADER_SIZE};
use crate::space::Space;
use crate::types::{is_object_tag, Value};

verus! {

/// What holds of the object at `a` of a heap `w0` before it is collected:
/// it is an object of at least two words that lies in one page, and its
/// pointer fields hold scalars and pointers to objects.
pub open spec fn object_before<P: PageAlloc>(
    w0: Map<int, u32>,
    objs: Set<int>,
    pa: &P,
    a: int,
) -> bool {
    let s = size0(w0, a);
    &&& a % 4 == 0
    &&& w0.dom().contains(a)
    &&& !pa.is_static(a)
    &&& is_object_tag(w0[a])
    &&& spec_object_size(w0, a) is Ok
    &&& 2 <= s
    &&& s * 4 + PAGE_HEADER_SIZE <= pa.page_size()
    &&& a + 4 * s <= pa.page_containing(a) + pa.page_size()
    &&& forall|k: int| 0 <= k < s ==> #[trigger] w0.dom().contains(a + 4 * k)
    &&& forall|k: int|
        0 <= k < s && is_field_word(w0, a, k) ==> target_ok(objs, #[trigger] w0[a + 4 * k])
}

/// A heap that can be collected: its dynamic objects are the well-formed
/// objects `objs`, which lie apart; the array of roots, the root boxes and
/// the continuation table are static and point to objects of `objs`; no
/// root box is in the array twice; and the allocator can hand out one page
/// more than there are objects, so that the collection cannot run out of
/// memory.
pub open spec fn heap_before<P: PageAlloc>(
    from_space: &Space<P>,
    objs: Set<int>,
    roots: int,
    table: int,
) -> bool {
    let pa = &from_space.page_alloc;
    let w0 = pa.words();
    &&& from_space.wf()
    &&& objs.finite()
    &&& pa.remaining() > objs.len()
    &&& forall|a: int| #[trigger] objs.contains(a) ==> object_before(w0, objs, pa, a)
    &&& objects_apart(w0, objs)
    &&& roots_ok(w0, objs, from_space, roots, table)
    &&& roots_distinct(w0, roots)
}

/// The space `to_space` is the space `mid` after pages that are none of its
/// own were released: it has the pages and the allocation pointer of `mid`,
/// its memory holds nothing but words of `mid`, and the static words are
/// all still there.
pub open spec fn released<P: PageAlloc>(mid: &Space<P>, to_space: &Space<P>) -> bool {
    let w = to_space.page_alloc.words();
    let wm = mid.page_alloc.words();
    &&& to_space.wf()
    &&& crate::page_alloc::same_config(&mid.page_alloc, &to_space.page_alloc)
    &&& to_space.pages@ == mid.pages@
    &&& to_space.current_page == mid.current_page
    &&& to_space.hp == mid.hp
    &&& to_space.total_alloc == mid.total_alloc
    &&& crate::page_alloc::preserved(w, wm)
    &&& forall|x: int|
        mid.page_alloc.is_static(x) && wm.dom().contains(x) ==> #[trigger] w.dom().contains(x)
}

/// What a collection of the heap `w0` with the objects `objs` hands back:
/// the space that the copies were made in, after the pages of the space
/// that was collected were released.
pub open spec fn collected<P: PageAlloc>(
    w0: Map<int, u32>,
    objs: Set<int>,
    to_space: &Space<P>,
    roots: int,
    table: int,
) -> bool {
    exists|mid: Space<P>| #[trigger]
        copy_final(w0, objs, &mid, roots, table) && released(&mid, to_space)
}

/// A heap that can be collected, and a fresh space of its allocator, are
/// what a collection into that space starts from.
pub proof fn lemma_collection_starts<P: PageAlloc>(
    from_space: &Space<P>,
    to_space: &Space<P>,
    objs: Set<int>,
    roots: int,
    table: int,
)
    requires
        heap_before(from_space, objs, roots, table),
        to_space.wf(),
        to_space.pages@.len() == 1,
        to_space.hp == to_space.contents_start(0),
        page_added(&from_space.page_alloc, &to_space.page_alloc, to_space.pages@[0]),
        to_space.page_alloc.words() == with_zero_page(
            from_space.page_alloc.words(),
            to_space.start(0),
            from_space.page_alloc.page_size(),
        ),
    ensures
        copy_start(from_space.page_alloc.words(), objs, to_space, roots, table),
{
    let pa0 = &from_space.page_alloc;
    let pa = &to_space.page_alloc;
    let w0 = pa0.words();
    let w = pa.words();
    let fresh = to_space.start(0);
    assert(crate::page_alloc::preserved(w0, w));
    assert forall|a: int| #[trigger] objs.contains(a) implies object_ok(w0, objs, to_space, a)
        && !forwarded(w, a) by {
        assert(object_before(w0, objs, pa0, a));
        pa0.lemma_mapped_in_page(a);
        let start = pa0.page_containing(a);
        assert(pa.live().contains(start));
        pa.lemma_page_mapped(start, a);
        assert(w[a] == w0[a]);
    }
    assert(unforwarded(w, objs).subset_of(objs));
    vstd::set_lib::lemma_len_subset(unforwarded(w, objs), objs);
    assert(pages_covered(w0, objs, to_space)) by {
        reveal(pages_covered);
        assert(page_covered(w0, objs, to_space, 0));
    }
    assert forall|i: int| 0 <= i < w0[roots + 4] implies #[trigger] root_ok(
        w0,
        objs,
        to_space,
        roots,
        table,
        i,
    ) by {
        assert(root_ok(w0, objs, from_space, roots, table, i));
    }
    assert(roots_ok(w0, objs, to_space, roots, table));
    assert(copy_inv(w0, objs, to_space, roots, table));
    assert forall|a: int| objs.contains(a) implies !#[trigger] forwarded(w, a) by {}
    assert forall|i: int| 0 <= i < w0[roots + 4] implies w[root_box(w0, roots, i) + 4]
        == w0[#[trigger] root_box(w0, roots, i) + 4] by {
        assert(root_ok(w0, objs, from_space, roots, table, i));
    }
}

/// Whether `v` is what a field that held `v0` holds after the objects were
/// moved as `fwd` says: a scalar is kept, and a pointer to an object has
/// become a pointer to the copy of that object.
pub open spec fn moved(objs: Set<int>, fwd: Map<int, int>, v0: u32, v: u32) -> bool {
    let t = Value(v0).spec_get_ptr();
    if Value(v0).spec_is_ptr() {
        &&& objs.contains(t)
        &&& fwd.dom().contains(t)
        &&& Value(v).spec_is_ptr()
        &&& Value(v).spec_get_ptr() == fwd[t]
    } else {
        v == v0
    }
}

/// The words at `fwd[a]` in the space are the copy of the object at `a` of
/// the heap `w0`: they lie in the used part of a page of the space, and
/// have the tag and the words of the object, but for the pointer fields,
/// which point to the copies of the objects that they pointed to.
pub open spec fn copy_in<P: PageAlloc>(
    w0: Map<int, u32>,
    objs: Set<int>,
    to_space: &Space<P>,
    fwd: Map<int, int>,
    a: int,
) -> bool {
    let w = to_space.page_alloc.words();
    let new = fwd[a];
    &&& objs.contains(a)
    &&& new % 4 == 0
    &&& exists|i: int| #[trigger] in_used(to_space, i, new, size0(w0, a))
    &&& w.dom().contains(new)
    &&& w[new] == w0[a]
    &&& is_object_tag(w[new])
    &&& spec_object_size(w, new) == spec_object_size(w0, a)
    &&& forall|k: int|
        1 <= k < size0(w0, a) ==> #[trigger] w.dom().contains(new + 4 * k) && if is_field_word(
            w0,
            a,
            k,
        ) {
            moved(objs, fwd, w0[a + 4 * k], w[new + 4 * k])
        } else {
            w[new + 4 * k] == w0[a + 4 * k]
        }
}

/// The space holds a copy of the part of the heap `w0` that the roots
/// reach, with `fwd` from the objects to their copies: every object that a
/// root box, the continuation table or a copy points to has a copy; the
/// copies lie apart; and the array of roots and the headers of the root
/// boxes are as they were.
pub open spec fn graph_copied<P: PageAlloc>(
    w0: Map<int, u32>,
    objs: Set<int>,
    to_space: &Space<P>,
    roots: int,
    table: int,
    fwd: Map<int, int>,
) -> bool {
    let w = to_space.page_alloc.words();
    &&& forall|a: int| #[trigger] fwd.dom().contains(a) ==> copy_in(w0, objs, to_space, fwd, a)
    &&& forall|a: int, b: int|
        #[trigger] fwd.dom().contains(a) && #[trigger] fwd.dom().contains(b) && a != b ==> fwd[a]
            + 4 * size0(w0, a) <= fwd[b] || fwd[b] + 4 * size0(w0, b) <= fwd[a]
    &&& forall|i: int|
        0 <= i < w0[roots + 4] ==> w.dom().contains(root_box(w0, roots, i) + 4) && moved(
            objs,
            fwd,
            w0[root_box(w0, roots, i) + 4],
            w[#[trigger] root_box(w0, roots, i) + 4],
        )
    &&& w.dom().contains(table)
    &&& moved(objs, fwd, w0[table], w[table])
    &&& forall|x: int| #[trigger] root_frame(w0, roots, x) ==> w.dom().contains(x) && w[x] == w0[x]
}

/// The objects that were moved, each with the address of its copy.
pub open spec fn relocation(objs: Set<int>, wm: Map<int, u32>) -> Map<int, int> {
    Map::new(|a: int| objs.contains(a) && forwarded(wm, a), |a: int| copy_of(wm, a))
}

/// A field that holds its final value in the memory `wm` holds what the
/// relocation of `wm` says.
proof fn lemma_moved<P: PageAlloc>(
    w0: Map<int, u32>,
    objs: Set<int>,
    mid: &Space<P>,
    roots: int,
    table: int,
    v0: u32,
    v: u32,
)
    requires
        copy_inv(w0, objs, mid, roots, table),
        value_done(mid.page_alloc.words(), objs, v0, v),
    ensures
        moved(objs, relocation(objs, mid.page_alloc.words()), v0, v),
{
    let wm = mid.page_alloc.words();
    if Value(v0).spec_is_ptr() {
        let t = Value(v0).spec_get_ptr();
        assert(objs.contains(t) && forwarded(wm, t));
        assert(Value(wm[t + 4]).spec_is_ptr());
    }
}

/// The header of the copy of a moved object, after the pages of the
/// collected space were released.
#[verifier::rlimit(50)]
proof fn lemma_copy_head<P: PageAlloc>(
    w0: Map<int, u32>,
    objs: Set<int>,
    mid: &Space<P>,
    to_space: &Space<P>,
    roots: int,
    table: int,
    a: int,
)
    requires
        copy_final(w0, objs, mid, roots, table),
        released(mid, to_space),
        objs.contains(a),
        forwarded(mid.page_alloc.words(), a),
    ensures
        ({
            let w = to_space.page_alloc.words();
            let new = copy_of(mid.page_alloc.words(), a);
            &&& new % 4 == 0
            &&& exists|i: int| #[trigger] in_used(to_space, i, new, size0(w0, a))
            &&& w.dom().contains(new)
            &&& w[new] == w0[a]
            &&& is_object_tag(w[new])
            &&& spec_object_size(w, new) == spec_object_size(w0, a)
        }),
{
    let wm = mid.page_alloc.words();
    let w = to_space.page_alloc.words();
    let new = copy_of(wm, a);
    let s = size0(w0, a);
    assert(copy_ok(w0, objs, mid, a, new));
    assert(object_ok(w0, objs, mid, a));
    let i = choose|i: int| #[trigger] in_used(mid, i, new, s);
    assert(in_used(to_space, i, new, s));
    lemma_used_mapped(to_space, i, new, s, 0);
    assert(new + 4 * 0 == new);
    lemma_target_shape(w0, objs, mid, roots, table, Target::Copy(a));
    assert(spec_object_size(w, new) == spec_object_size(wm, new)) by {
        let off = crate::object::length_offset(w0[a]);
        if off == 4 {
            lemma_used_mapped(to_space, i, new, s, 1);
            assert(w[new + 4 * 1] == wm[new + 4 * 1]);
        } else if off == 8 {
            lemma_used_mapped(to_space, i, new, s, 2);
            assert(w[new + 4 * 2] == wm[new + 4 * 2]);
        }
    }
}

/// Word `k` of the copy of a moved object, after the pages of the
/// collected space were released.
#[verifier::rlimit(50)]
proof fn lemma_copy_word<P: PageAlloc>(
    w0: Map<int, u32>,
    objs: Set<int>,
    mid: &Space<P>,
    to_space: &Space<P>,
    roots: int,
    table: int,
    a: int,
    k: int,
)
    requires
        copy_final(w0, objs, mid, roots, table),
        released(mid, to_space),
        objs.contains(a),
        forwarded(mid.page_alloc.words(), a),
        1 <= k < size0(w0, a),
    ensures
        ({
            let w = to_space.page_alloc.words();
            let new = copy_of(mid.page_alloc.words(), a);
            &&& w.dom().contains(new + 4 * k)
            &&& if is_field_word(w0, a, k) {
                moved(
                    objs,
                    relocation(objs, mid.page_alloc.words()),
                    w0[a + 4 * k],
                    w[new + 4 * k],
                )
            } else {
                w[new + 4 * k] == w0[a + 4 * k]
            }
        }),
{
    let wm = mid.page_alloc.words();
    let w = to_space.page_alloc.words();
    let new = copy_of(wm, a);
    let s = size0(w0, a);
    assert(copy_ok(w0, objs, mid, a, new));
    let i = choose|i: int| #[trigger] in_used(mid, i, new, s);
    assert(in_used(to_space, i, new, s));
    lemma_used_mapped(to_space, i, new, s, k);
    assert(w[new + 4 * k] == wm[new + 4 * k]);
    assert(word_ok(w0, objs, wm, a, new, k));
    if is_field_word(w0, a, k) {
        assert(fields_state(
            w0,
            objs,
            wm,
            roots,
            table,
            Target::Copy(a),
            target_count(w0, Target::Copy(a)),
        ));
        let m = k - field_offset(w0[a]);
        assert(field_state(
            w0,
            objs,
            wm,
            roots,
            table,
            Target::Copy(a),
            target_count(w0, Target::Copy(a)),
            m,
        ));
        lemma_moved(w0, objs, mid, roots, table, w0[a + 4 * k], wm[new + 4 * k]);
    }
}

/// The copy of a moved object is what `copy_in` asks for, also after the
/// pages of the collected space were released.
proof fn lemma_copy_in<P: PageAlloc>(
    w0: Map<int, u32>,
    objs: Set<int>,
    mid: &Space<P>,
    to_space: &Space<P>,
    roots: int,
    table: int,
    a: int,
)
    requires
        copy_final(w0, objs, mid, roots, table),
        released(mid, to_space),
        objs.contains(a),
        forwarded(mid.page_alloc.words(), a),
    ensures
        copy_in(w0, objs, to_space, relocation(objs, mid.page_alloc.words()), a),
{
    let w = to_space.page_alloc.words();
    let fwd = relocation(objs, mid.page_alloc.words());
    let new = fwd[a];
    lemma_copy_head(w0, objs, mid, to_space, roots, table, a);
    assert forall|k: int| 1 <= k < size0(w0, a) implies #[trigger] w.dom().contains(new + 4 * k)
        && if is_field_word(w0, a, k) {
        moved(objs, fwd, w0[a + 4 * k], w[new + 4 * k])
    } else {
        w[new + 4 * k] == w0[a + 4 * k]
    } by {
        lemma_copy_word(w0, objs, mid, to_space, roots, table, a, k);
    }
}

/// What a collection hands back is a copy of the part of the heap that the
/// roots reach: there is a relocation of objects to copies under which the
/// root boxes, the continuation table and the copies point to copies, each
/// copy being the object that it was made from but for where its pointers
/// point.  No pointer of them is left pointing into the collected space.
pub proof fn lemma_collected_graph<P: PageAlloc>(
    w0: Map<int, u32>,
    objs: Set<int>,
    to_space: &Space<P>,
    roots: int,
    table: int,
)
    requires
        collected(w0, objs, to_space, roots, table),
    ensures
        exists|fwd: Map<int, int>| #[trigger]
            graph_copied(w0, objs, to_space, roots, table, fwd) && copied_reach(
                w0,
                objs,
                to_space,
                roots,
                table,
                fwd,
            ),
{
    let mid = choose|mid: Space<P>| #[trigger]
        copy_final(w0, objs, &mid, roots, table) && released(&mid, to_space);
    let wm = mid.page_alloc.words();
    let w = to_space.page_alloc.words();
    let fwd = relocation(objs, wm);
    assert forall|a: int| #[trigger] fwd.dom().contains(a) implies copy_in(
        w0,
        objs,
        to_space,
        fwd,
        a,
    ) by {
        lemma_copy_in(w0, objs, &mid, to_space, roots, table, a);
    }
    assert forall|x: int| #[trigger] root_frame(w0, roots, x) implies w.dom().contains(x) && w[x]
        == w0[x] by {}
    assert forall|i: int| 0 <= i < w0[roots + 4] implies w.dom().contains(
        root_box(w0, roots, i) + 4,
    ) && moved(
        objs,
        fwd,
        w0[root_box(w0, roots, i) + 4],
        w[#[trigger] root_box(w0, roots, i) + 4],
    ) by {
        let b = root_box(w0, roots, i);
        assert(root_ok(w0, objs, &mid, roots, table, i));
        assert(root_state(w0, objs, wm, roots, table, w0[roots + 4] as int, i));
        assert(field_state(w0, objs, wm, roots, table, Target::Root(i), 1, 0));
        assert(w.dom().contains(b + 4));
        lemma_moved(w0, objs, &mid, roots, table, w0[b + 4], wm[b + 4]);
    }
    assert(moved(objs, fwd, w0[table], w[table])) by {
        assert(w.dom().contains(table));
        lemma_moved(w0, objs, &mid, roots, table, w0[table], wm[table]);
    }
    assert forall|a: int| #[trigger] fwd.dom().contains(a) <==> reachable(
        heap_of(w0, objs, roots, table),
        a,
    ) by {
        if reachable(heap_of(w0, objs, roots, table), a) {
            let n = choose|n: nat| reach(heap_of(w0, objs, roots, table), a, n);
            lemma_reach_forwarded(w0, objs, &mid, roots, table, a, n);
        }
        if fwd.dom().contains(a) {
            assert(forwarded(wm, a) && objs.contains(a));
        }
    }
    assert forall|x: int|
        #[trigger] crate::gc::copying::wellformed::quiet(
            w0,
            to_space,
            roots,
            table,
            x,
        ) implies w.dom().contains(x) && w[x] == w0[x] by {
        assert(crate::gc::copying::wellformed::quiet(w0, &mid, roots, table, x));
        assert(w.dom().contains(x));
    }
    if forall|a: int| !fwd.dom().contains(a) {
        assert forall|a: int| !(objs.contains(a) && forwarded(wm, a)) by {
            assert(!fwd.dom().contains(a));
        }
        lemma_no_copies(w0, objs, &mid, roots, table);
    }
    assert(graph_copied(w0, objs, to_space, roots, table, fwd) && copied_reach(
        w0,
        objs,
        to_space,
        roots,
        table,
        fwd,
    ));
}

/// The objects that have copies are the reachable objects; where no
/// object is reachable, the space has its one page still, with nothing
/// allocated in it; and the static words are what they were, but for the
/// fields of the root boxes and the continuation table.
pub open spec fn copied_reach<P: PageAlloc>(
    w0: Map<int, u32>,
    objs: Set<int>,
    to_space: &Space<P>,
    roots: int,
    table: int,
    fwd: Map<int, int>,
) -> bool {
    &&& forall|a: int|
        #[trigger] fwd.dom().contains(a) <==> reachable(heap_of(w0, objs, roots, table), a)
    &&& (forall|a: int| !fwd.dom().contains(a)) ==> to_space.pages@.len() == 1 && to_space.hp
        == to_space.contents_start(0) && to_space.filled() == 0
    &&& crate::gc::copying::wellformed::statics_kept(w0, to_space, roots, table)
}

/// After a collection every reachable object was moved; with the
/// invariant of the collection, by which every moved object is reachable,
/// the objects that have copies are the reachable ones.
pub proof fn lemma_reach_forwarded<P: PageAlloc>(
    w0: Map<int, u32>,
    objs: Set<int>,
    mid: &Space<P>,
    roots: int,
    table: int,
    a: int,
    n: nat,
)
    requires
        copy_final(w0, objs, mid, roots, table),
        reach(heap_of(w0, objs, roots, table), a, n),
    ensures
        objs.contains(a),
        forwarded(mid.page_alloc.words(), a),
    decreases n,
{
    let h = heap_of(w0, objs, roots, table);
    let wm = mid.page_alloc.words();
    if exists|i: int| #[trigger] edge(h, Spot::Static(i), a) {
        let i = choose|i: int| #[trigger] edge(h, Spot::Static(i), a);
        if i < w0[roots + 4] {
            assert(root_state(w0, objs, wm, roots, table, w0[roots + 4] as int, i));
            assert(field_state(w0, objs, wm, roots, table, Target::Root(i), 1, 0));
        }
    } else {
        let (b, k) = choose|b: int, k: int|
            reach(h, b, (n - 1) as nat) && #[trigger] edge(h, Spot::Field(b, k), a);
        lemma_reach_forwarded(w0, objs, mid, roots, table, b, (n - 1) as nat);
        assert(fields_state(
            w0,
            objs,
            wm,
            roots,
            table,
            Target::Copy(b),
            target_count(w0, Target::Copy(b)),
        ));
        let m = k - field_offset(w0[b]);
        assert(field_state(
            w0,
            objs,
            wm,
            roots,
            table,
            Target::Copy(b),
            target_count(w0, Target::Copy(b)),
            m,
        ));
    }
}

/// A space without copies has one page, with nothing allocated in it: so
/// where no object is reachable, a collection into a fresh space leaves the
/// space as it was, and its counter of allocated bytes at zero.
pub proof fn lemma_no_copies<P: PageAlloc>(
    w0: Map<int, u32>,
    objs: Set<int>,
    mid: &Space<P>,
    roots: int,
    table: int,
)
    requires
        copy_inv(w0, objs, mid, roots, table),
        forall|a: int| !(objs.contains(a) && forwarded(mid.page_alloc.words(), a)),
    ensures
        mid.pages@.len() == 1,
        mid.hp == mid.contents_start(0),
        mid.filled() == 0,
{
    reveal(pages_covered);
    let wm = mid.page_alloc.words();
    let cur = mid.current_page as int;
    mid.page_alloc.lemma_page_size();
    mid.page_alloc.lemma_live_handle(mid.pages@[cur]);
    mid.page_alloc.lemma_live_page(mid.start(cur));
    assert forall|x: int| !crate::gc::copying::wellformed::covered(w0, objs, wm, x) by {
        if crate::gc::copying::wellformed::covered(w0, objs, wm, x) {
            let a = choose|a: int| #[trigger]
                crate::gc::copying::wellformed::covers(w0, objs, wm, a, x);
            assert(objs.contains(a) && forwarded(wm, a));
        }
    }
    assert(page_covered(w0, objs, mid, cur));
    if mid.hp > mid.contents_start(cur) {
        assert(crate::gc::copying::wellformed::covered(w0, objs, wm, mid.contents_start(cur)));
    }
    if mid.pages@.len() > 1 {
        assert(page_covered(w0, objs, mid, 0));
        let f = choose|f: int| #[trigger]
            crate::gc::copying::wellformed::closed_at(w0, objs, mid, 0, f);
        mid.page_alloc.lemma_live_handle(mid.pages@[0]);
        mid.page_alloc.lemma_live_page(mid.start(0));
        assert(crate::gc::copying::wellformed::covered(w0, objs, wm, mid.contents_start(0)));
    }
    assert((mid.pages@.len() - 1) * (mid.page_alloc.page_size() - PAGE_HEADER_SIZE) == 0) by (nonlinear_arith)
        requires
            mid.pages@.len() == 1,
    ;
}

} // verus!
