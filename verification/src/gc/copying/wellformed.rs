//! What a copying collection keeps true of a heap of well-formed objects,
//! from which it follows that the collection succeeds and that the objects
//! it leaves are those that it found, with their pointers redirected.
//!
//! The heap before the collection is given by its memory `w0` and the set
//! `objs` of the addresses of its objects.  During the collection an object
//! of `objs` is either intact, with the words that it had, or forwarded: a
//! forwarding pointer names its copy.  A pointer field of a copy, of a root
//! or of the continuation table holds what it held, or, where that was a
//! pointer to an object that is forwarded by now, the address of the copy.
use vstd::prelude::*;
use crate::gc::copying::{evac_outcome, evac_post};
use crate::gc::mark_compact::marking::{reachable, Heap, Spot};
use crate::mem_utils::{copy_region, lemma_copy_region_content, lemma_copy_region_frame};
use crate::object::{
    field_count, field_offset, length_offset, length_word, spec_object_size, spec_object_size_,
    spec_pointer_fields, Trap,
};
use crate::page_alloc::{same_config, PageAlloc, WordMemory, PAGE_HEADER_SIZE};
use crate::space::{lemma_pages_disjoint, with_filler, Space};
use crate::types::{
    is_object_tag, Value, Words, TAG_ARRAY, TAG_FREE_SPACE, TAG_FWD_PTR, TAG_MUTBOX,
    TAG_ONE_WORD_FILLER,
};

verus! {

/// Size in words of the object at `a` in the memory `w0`.
pub open spec fn size0(w0: Map<int, u32>, a: int) -> int {
    match spec_object_size(w0, a) {
        Ok(size) => size.0 as int,
        Err(_) => 0,
    }
}

/// Whether word `k` of the object at `a` in the memory `w0` is a pointer
/// field.
pub open spec fn is_field_word(w0: Map<int, u32>, a: int, k: int) -> bool {
    field_offset(w0[a]) <= k < field_offset(w0[a]) + field_count(
        w0[a],
        length_word(w0, a, w0[a]),
    )
}

/// Whether the value `v` is a scalar or points to an object of `objs`.
pub open spec fn target_ok(objs: Set<int>, v: u32) -> bool {
    Value(v).spec_is_ptr() ==> objs.contains(Value(v).spec_get_ptr())
}

/// Whether the object at `a` has been moved: a forwarding pointer stands in
/// its place.
pub open spec fn forwarded(w: Map<int, u32>, a: int) -> bool {
    w[a] == TAG_FWD_PTR
}

/// The address of the copy of the forwarded object at `a`.
pub open spec fn copy_of(w: Map<int, u32>, a: int) -> int {
    Value(w[a + 4]).spec_get_ptr()
}

/// Whether `v` is what a field that held `v0` may hold by now: `v0` itself,
/// or, where `v0` points to an object that is forwarded, the address of its
/// copy.
pub open spec fn value_ok(w: Map<int, u32>, objs: Set<int>, v0: u32, v: u32) -> bool {
    let t = Value(v0).spec_get_ptr();
    if Value(v0).spec_is_ptr() {
        objs.contains(t) && (v == v0 || (forwarded(w, t) && v == w[t + 4]))
    } else {
        v == v0
    }
}

/// Whether the field that held `v0` holds the final value: where `v0`
/// points to an object, that object is forwarded and the field holds the
/// address of its copy.
pub open spec fn value_done(w: Map<int, u32>, objs: Set<int>, v0: u32, v: u32) -> bool {
    let t = Value(v0).spec_get_ptr();
    if Value(v0).spec_is_ptr() {
        objs.contains(t) && forwarded(w, t) && v == w[t + 4]
    } else {
        v == v0
    }
}

/// What holds of the object at `a` of the heap before the collection,
/// whatever has become of it: it is an object of at least two words that
/// lies in one page, which is no page of the space that is collected into,
/// and its pointer fields hold scalars and pointers to objects.
pub open spec fn object_ok<P: PageAlloc>(
    w0: Map<int, u32>,
    objs: Set<int>,
    space: &Space<P>,
    a: int,
) -> bool {
    let pa = &space.page_alloc;
    let s = size0(w0, a);
    &&& a % 4 == 0
    &&& w0.dom().contains(a)
    &&& pa.words().dom().contains(a)
    &&& !pa.is_static(a)
    &&& is_object_tag(w0[a])
    &&& spec_object_size(w0, a) is Ok
    &&& 2 <= s
    &&& s * 4 + PAGE_HEADER_SIZE <= pa.page_size()
    &&& a + 4 * s <= pa.page_containing(a) + pa.page_size()
    &&& forall|i: int|
        0 <= i < space.pages@.len() ==> P::start_of(#[trigger] space.pages@[i])
            != pa.page_containing(a)
    &&& forall|k: int| 0 <= k < s ==> #[trigger] w0.dom().contains(a + 4 * k)
    &&& forall|k: int|
        0 <= k < s && is_field_word(w0, a, k) ==> target_ok(objs, #[trigger] w0[a + 4 * k])
}

/// The object at `a` has the words that it had.
pub open spec fn intact(w0: Map<int, u32>, w: Map<int, u32>, a: int) -> bool {
    forall|k: int|
        0 <= k < size0(w0, a) ==> #[trigger] w.dom().contains(a + 4 * k) && w[a + 4 * k] == w0[a
            + 4 * k]
}

/// Whether the words from `new` on lie in the used part of the page at
/// position `i` of the space.
pub open spec fn in_used<P: PageAlloc>(space: &Space<P>, i: int, new: int, s: int) -> bool {
    &&& 0 <= i < space.pages@.len()
    &&& space.contents_start(i) <= new
    &&& new + 4 * s <= (if i == space.current_page {
        space.hp as int
    } else {
        space.end(i)
    })
}

/// The words at `new` are a copy of the object at `a`: the tag and the
/// words that are no pointer fields are those of the object, and the pointer
/// fields hold what they may hold by now.
pub open spec fn copy_ok<P: PageAlloc>(
    w0: Map<int, u32>,
    objs: Set<int>,
    space: &Space<P>,
    a: int,
    new: int,
) -> bool {
    let w = space.page_alloc.words();
    &&& new % 4 == 0
    &&& exists|i: int| #[trigger] in_used(space, i, new, size0(w0, a))
    &&& w[new] == w0[a]
    &&& forall|k: int|
        1 <= k < size0(w0, a) ==> #[trigger] word_ok(w0, objs, w, a, new, k)
}

/// Word `k` of the copy at `new` of the object at `a` is what it may be.
pub open spec fn word_ok(
    w0: Map<int, u32>,
    objs: Set<int>,
    w: Map<int, u32>,
    a: int,
    new: int,
    k: int,
) -> bool {
    if is_field_word(w0, a, k) {
        value_ok(w, objs, w0[a + 4 * k], w[new + 4 * k])
    } else {
        w[new + 4 * k] == w0[a + 4 * k]
    }
}

/// The objects of `objs` that were not moved yet.
pub open spec fn unforwarded(w: Map<int, u32>, objs: Set<int>) -> Set<int> {
    objs.filter(|a: int| !forwarded(w, a))
}

/// Address of the static root box that element `i` of the array of roots at
/// `roots` points to.
pub open spec fn root_box(w0: Map<int, u32>, roots: int, i: int) -> int {
    Value(w0[roots + 8 + 4 * i]).spec_get_ptr()
}

/// Whether `x` is a word of the array of roots or the header of a root
/// box: a static word that the collection reads and never writes.
pub open spec fn root_frame(w0: Map<int, u32>, roots: int, x: int) -> bool {
    ||| x == roots
    ||| x == roots + 4
    ||| exists|i: int| 0 <= i < w0[roots + 4] && #[trigger] frame_of(w0, roots, x, i)
}

/// Whether `x` is element `i` of the array of roots or the header of the
/// root box that the element points to.
pub open spec fn frame_of(w0: Map<int, u32>, roots: int, x: int, i: int) -> bool {
    x == roots + 8 + 4 * i || x == root_box(w0, roots, i)
}

/// What holds of the roots: the array of roots and the boxes that it points
/// to are static and as they were, but for the fields of the boxes, which
/// hold what they may hold by now.  No field of a box is a word of the array
/// or the header of a box.
pub open spec fn roots_ok<P: PageAlloc>(
    w0: Map<int, u32>,
    objs: Set<int>,
    space: &Space<P>,
    roots: int,
    table: int,
) -> bool {
    let pa = &space.page_alloc;
    let w = pa.words();
    &&& roots % 4 == 0
    &&& pa.is_static(roots) && pa.is_static(roots + 4)
    &&& w.dom().contains(roots) && w.dom().contains(roots + 4)
    &&& w0[roots] == TAG_ARRAY
    &&& forall|x: int| #[trigger]
        root_frame(w0, roots, x) ==> pa.is_static(x) && w.dom().contains(x) && w[x] == w0[x] && x
            != table
    &&& forall|i: int| 0 <= i < w0[roots + 4] ==> #[trigger] root_ok(w0, objs, space, roots, table, i)
    &&& pa.is_static(table) && w.dom().contains(table)
    &&& value_ok(w, objs, w0[table], w[table])
}

/// What holds of root box `i`.
pub open spec fn root_ok<P: PageAlloc>(
    w0: Map<int, u32>,
    objs: Set<int>,
    space: &Space<P>,
    roots: int,
    table: int,
    i: int,
) -> bool {
    let pa = &space.page_alloc;
    let w = pa.words();
    let b = root_box(w0, roots, i);
    &&& b % 4 == 0
    &&& w0[b] == TAG_MUTBOX
    &&& pa.is_static(b + 4) && w.dom().contains(b + 4)
    &&& !root_frame(w0, roots, b + 4)
    &&& b + 4 != table
    &&& value_ok(w, objs, w0[b + 4], w[b + 4])
}

/// The invariant of a copying collection of the heap `w0` with the objects
/// `objs` into `space`.
pub open spec fn copy_inv<P: PageAlloc>(
    w0: Map<int, u32>,
    objs: Set<int>,
    space: &Space<P>,
    roots: int,
    table: int,
) -> bool {
    let w = space.page_alloc.words();
    &&& space.wf()
    &&& objs.finite()
    &&& space.page_alloc.remaining() >= unforwarded(w, objs).len()
    &&& objects_ok(w0, objs, space)
    &&& objects_apart(w0, objs)
    &&& objects_intact(w0, objs, w)
    &&& copies_ok(w0, objs, space)
    &&& copies_apart(w0, objs, w)
    &&& pages_covered(w0, objs, space)
    &&& roots_ok(w0, objs, space, roots, table)
    &&& forwards_reached(w0, objs, w, roots, table)
    &&& statics_kept(w0, space, roots, table)
}

/// Whether `x` is a static word of the heap before the collection that is
/// neither the field of a root box nor the continuation table.
pub open spec fn quiet<P: PageAlloc>(
    w0: Map<int, u32>,
    space: &Space<P>,
    roots: int,
    table: int,
    x: int,
) -> bool {
    &&& space.page_alloc.is_static(x)
    &&& w0.dom().contains(x)
    &&& x != table
    &&& forall|i: int| 0 <= i < w0[roots + 4] ==> #[trigger] root_box(w0, roots, i) != x - 4
}

/// The static words are what they were, but for the fields of the root
/// boxes and the continuation table.
pub open spec fn statics_kept<P: PageAlloc>(
    w0: Map<int, u32>,
    space: &Space<P>,
    roots: int,
    table: int,
) -> bool {
    forall|x: int|
        #[trigger] quiet(w0, space, roots, table, x) ==> space.page_alloc.words().dom().contains(x)
            && space.page_alloc.words()[x] == w0[x]
}

/// A step of the collection that writes no static word but fields of root
/// boxes and the continuation table keeps the static words.
pub proof fn lemma_statics_stay<P: PageAlloc>(
    w0: Map<int, u32>,
    before: &Space<P>,
    after: &Space<P>,
    roots: int,
    table: int,
    x1: int,
    x2: int,
    x3: int,
)
    requires
        stepped(before, after, x1, x2, x3),
        statics_kept(w0, before, roots, table),
        !quiet(w0, before, roots, table, x1),
        !quiet(w0, before, roots, table, x2),
        !quiet(w0, before, roots, table, x3),
    ensures
        statics_kept(w0, after, roots, table),
{
    let pa = &before.page_alloc;
    let cur = before.current_page as int;
    pa.lemma_page_size();
    pa.lemma_live_handle(before.pages@[cur]);
    pa.lemma_live_page(before.start(cur));
    assert forall|x: int| #[trigger] quiet(w0, after, roots, table, x) implies after.page_alloc.words().dom().contains(
        x,
    ) && after.page_alloc.words()[x] == w0[x] by {
        assert(quiet(w0, before, roots, table, x));
        pa.lemma_page_mapped_static(before.start(cur), x);
        assert(after.page_alloc.words()[x] == pa.words()[x]);
    }
}

/// A place of the collection is no static word that is kept.
pub proof fn lemma_place_quiet<P: PageAlloc>(
    w0: Map<int, u32>,
    objs: Set<int>,
    space: &Space<P>,
    roots: int,
    table: int,
    place: Place,
)
    requires
        copy_inv(w0, objs, space, roots, table),
        place_ok(w0, objs, space.page_alloc.words(), roots, place),
    ensures
        !quiet(
            w0,
            space,
            roots,
            table,
            place_addr(w0, space.page_alloc.words(), roots, table, place),
        ),
{
    let w = space.page_alloc.words();
    match place {
        Place::Root(i) => {
            assert(root_box(w0, roots, i) == root_box(w0, roots, i) + 4 - 4);
        },
        Place::Table => {},
        Place::Field(a, k) => {
            let new = copy_of(w, a);
            assert(copy_ok(w0, objs, space, a, new));
            let i = choose|i: int| #[trigger] in_used(space, i, new, size0(w0, a));
            lemma_used_mapped(space, i, new, size0(w0, a), k);
        },
    }
}

/// The heap before the collection, with its objects and roots.
pub open spec fn heap_of(w0: Map<int, u32>, objs: Set<int>, roots: int, table: int) -> Heap {
    Heap { w0, objs, roots, table }
}

/// Every object that was moved is reachable.
pub open spec fn forwards_reached(
    w0: Map<int, u32>,
    objs: Set<int>,
    w: Map<int, u32>,
    roots: int,
    table: int,
) -> bool {
    forall|a: int|
        #[trigger] forwarded(w, a) && objs.contains(a) ==> reachable(
            heap_of(w0, objs, roots, table),
            a,
        )
}

/// The place as a place of the heap before the collection.
pub open spec fn place_spot(w0: Map<int, u32>, roots: int, place: Place) -> Spot {
    match place {
        Place::Root(i) => Spot::Static(i),
        Place::Table => Spot::Static(w0[roots + 4] as int),
        Place::Field(a, k) => Spot::Field(a, k),
    }
}

/// What a place of the collection points to is reachable.
pub proof fn lemma_place_reach(
    w0: Map<int, u32>,
    objs: Set<int>,
    w: Map<int, u32>,
    roots: int,
    table: int,
    place: Place,
)
    requires
        place_ok(w0, objs, w, roots, place),
        forwards_reached(w0, objs, w, roots, table),
        Value(place_orig(w0, roots, table, place)).spec_is_ptr(),
    ensures
        reachable(
            heap_of(w0, objs, roots, table),
            Value(place_orig(w0, roots, table, place)).spec_get_ptr(),
        ),
{
    let h = heap_of(w0, objs, roots, table);
    let s = place_spot(w0, roots, place);
    match place {
        Place::Field(a, k) => {
            assert(forwarded(w, a) && objs.contains(a));
        },
        _ => {},
    }
    crate::gc::mark_compact::marking::lemma_reach_step(h, s);
}

/// Whether the copy of the object at `a` holds the byte address `x`.
pub open spec fn covers(w0: Map<int, u32>, objs: Set<int>, w: Map<int, u32>, a: int, x: int) -> bool {
    objs.contains(a) && forwarded(w, a) && copy_of(w, a) <= x < copy_of(w, a) + 4 * size0(w0, a)
}

/// Whether a copy holds the byte address `x`.
pub open spec fn covered(w0: Map<int, u32>, objs: Set<int>, w: Map<int, u32>, x: int) -> bool {
    exists|a: int| #[trigger] covers(w0, objs, w, a, x)
}

/// Whether every word from `lo` up to `hi` is a word of a copy.
pub open spec fn covered_upto(
    w0: Map<int, u32>,
    objs: Set<int>,
    w: Map<int, u32>,
    lo: int,
    hi: int,
) -> bool {
    forall|x: int| lo <= x < hi && x % 4 == 0 ==> #[trigger] covered(w0, objs, w, x)
}

/// Whether the words from `f` up to `end` are a filler, or none.
pub open spec fn is_filler(w: Map<int, u32>, f: int, end: int) -> bool {
    ||| f == end
    ||| w[f] == TAG_ONE_WORD_FILLER && f + 4 == end
    ||| w[f] == TAG_FREE_SPACE && f + 8 <= end && f + 4 * w[f + 4] == end
}

/// Whether the page at position `i` of the space is closed at `f`: up to
/// there it is filled with copies, at least one, and from there on with a
/// filler.
pub open spec fn closed_at<P: PageAlloc>(
    w0: Map<int, u32>,
    objs: Set<int>,
    space: &Space<P>,
    i: int,
    f: int,
) -> bool {
    let w = space.page_alloc.words();
    &&& space.contents_start(i) < f <= space.end(i)
    &&& f % 4 == 0
    &&& covered_upto(w0, objs, w, space.contents_start(i), f)
    &&& is_filler(w, f, space.end(i))
    &&& forall|a: int, x: int|
        #[trigger] covers(w0, objs, w, a, x) && space.start(i) <= x < space.end(i) ==> x < f
}

/// Whether the page at position `i` of the space is filled with copies: the
/// current page up to the allocation pointer, an earlier page up to the
/// filler that closes it.
pub open spec fn page_covered<P: PageAlloc>(
    w0: Map<int, u32>,
    objs: Set<int>,
    space: &Space<P>,
    i: int,
) -> bool {
    if i == space.current_page {
        covered_upto(w0, objs, space.page_alloc.words(), space.contents_start(i), space.hp as int)
    } else {
        exists|f: int| #[trigger] closed_at(w0, objs, space, i, f)
    }
}

/// Every page of the space is filled with copies.
#[verifier::opaque]
pub open spec fn pages_covered<P: PageAlloc>(
    w0: Map<int, u32>,
    objs: Set<int>,
    space: &Space<P>,
) -> bool {
    forall|i: int| 0 <= i < space.pages@.len() ==> #[trigger] page_covered(w0, objs, space, i)
}

/// Every object of the heap is what it was.
pub open spec fn objects_ok<P: PageAlloc>(
    w0: Map<int, u32>,
    objs: Set<int>,
    space: &Space<P>,
) -> bool {
    forall|a: int| #[trigger] objs.contains(a) ==> object_ok(w0, objs, space, a)
}

/// The objects of the heap lie apart.
pub open spec fn objects_apart(w0: Map<int, u32>, objs: Set<int>) -> bool {
    forall|a: int, b: int|
        #[trigger] objs.contains(a) && #[trigger] objs.contains(b) && a < b ==> a + 4 * size0(
            w0,
            a,
        ) <= b
}

/// Every object that was not moved is intact.
pub open spec fn objects_intact(w0: Map<int, u32>, objs: Set<int>, w: Map<int, u32>) -> bool {
    forall|a: int| #[trigger] objs.contains(a) && !forwarded(w, a) ==> intact(w0, w, a)
}

/// Every object that was moved has its copy.
pub open spec fn copies_ok<P: PageAlloc>(
    w0: Map<int, u32>,
    objs: Set<int>,
    space: &Space<P>,
) -> bool {
    let w = space.page_alloc.words();
    forall|a: int|
        #[trigger] objs.contains(a) && forwarded(w, a) ==> Value(w[a + 4]).spec_is_ptr()
            && copy_ok(w0, objs, space, a, copy_of(w, a))
}

/// The copies lie apart.
pub open spec fn copies_apart(w0: Map<int, u32>, objs: Set<int>, w: Map<int, u32>) -> bool {
    forall|a: int, b: int|
        #[trigger] objs.contains(a) && #[trigger] objs.contains(b) && forwarded(w, a)
            && forwarded(w, b) && a != b ==> copy_of(w, a) + 4 * size0(w0, a) <= copy_of(w, b)
            || copy_of(w, b) + 4 * size0(w0, b) <= copy_of(w, a)
}

/// A place that the collection visits: the field of a root box, the
/// continuation table, or a pointer field of a copy.
pub enum Place {
    /// The field of root box `i`
    Root(int),
    /// The continuation table
    Table,
    /// Word `k` of the copy of the object at `a`
    Field(int, int),
}

/// Whether `place` is a place of the heap.
pub open spec fn place_ok(
    w0: Map<int, u32>,
    objs: Set<int>,
    w: Map<int, u32>,
    roots: int,
    place: Place,
) -> bool {
    match place {
        Place::Root(i) => 0 <= i < w0[roots + 4],
        Place::Table => true,
        Place::Field(a, k) => objs.contains(a) && forwarded(w, a) && 1 <= k < size0(w0, a)
            && is_field_word(w0, a, k),
    }
}

/// The address of a place.
pub open spec fn place_addr(
    w0: Map<int, u32>,
    w: Map<int, u32>,
    roots: int,
    table: int,
    place: Place,
) -> int {
    match place {
        Place::Root(i) => root_box(w0, roots, i) + 4,
        Place::Table => table,
        Place::Field(a, k) => copy_of(w, a) + 4 * k,
    }
}

/// What a place held before the collection.
pub open spec fn place_orig(w0: Map<int, u32>, roots: int, table: int, place: Place) -> u32 {
    match place {
        Place::Root(i) => w0[root_box(w0, roots, i) + 4],
        Place::Table => w0[table],
        Place::Field(a, k) => w0[a + 4 * k],
    }
}

/// Whether the byte address `x` lies in the rest of the current page of
/// the space, from the allocation pointer on.
pub open spec fn in_free_area<P: PageAlloc>(space: &Space<P>, x: int) -> bool {
    space.hp <= x < space.end(space.current_page as int)
}

/// The words of the used part of a page of the space are mapped words of
/// that page, outside of static memory and outside of the free area.
pub proof fn lemma_used_mapped<P: PageAlloc>(space: &Space<P>, i: int, new: int, s: int, k: int)
    requires
        space.wf(),
        in_used(space, i, new, s),
        new % 4 == 0,
        0 <= k < s,
    ensures
        space.page_alloc.words().dom().contains(new + 4 * k),
        space.page_alloc.page_containing(new + 4 * k) == space.start(i),
        !space.page_alloc.is_static(new + 4 * k),
        !in_free_area(space, new + 4 * k),
        new + 4 * k + 4 <= 0xffff_ffff,
{
    let pa = &space.page_alloc;
    let x = new + 4 * k;
    pa.lemma_page_size();
    pa.lemma_live_handle(space.pages@[i]);
    pa.lemma_live_page(space.start(i));
    let cur = space.current_page as int;
    pa.lemma_live_handle(space.pages@[cur]);
    pa.lemma_live_page(space.start(cur));
    pa.lemma_page_mapped(space.start(i), x);
    pa.lemma_mapped(x);
    if in_free_area(space, x) {
        lemma_pages_disjoint(space, i, cur, x);
    }
}

/// The words of an object of the heap are mapped words of its page, which
/// is no page of the space, outside of static memory.
pub proof fn lemma_object_mapped<P: PageAlloc>(
    w0: Map<int, u32>,
    objs: Set<int>,
    space: &Space<P>,
    a: int,
    k: int,
)
    requires
        space.wf(),
        objs.contains(a),
        object_ok(w0, objs, space, a),
        0 <= k < size0(w0, a),
    ensures
        space.page_alloc.words().dom().contains(a + 4 * k),
        space.page_alloc.page_containing(a + 4 * k) == space.page_alloc.page_containing(a),
        space.page_alloc.live().contains(space.page_alloc.page_containing(a)),
        !space.page_alloc.is_static(a + 4 * k),
        !in_free_area(space, a + 4 * k),
        forall|i: int|
            0 <= i < space.pages@.len() ==> !(#[trigger] space.start(i) <= a + 4 * k < space.end(
                i,
            )),
        a + 4 * k + 4 <= 0xffff_ffff,
{
    let pa = &space.page_alloc;
    let x = a + 4 * k;
    let page = pa.page_containing(a);
    pa.lemma_page_size();
    pa.lemma_mapped_in_page(a);
    pa.lemma_live_page(page);
    pa.lemma_page_mapped(page, x);
    pa.lemma_mapped(x);
    assert forall|i: int| 0 <= i < space.pages@.len() implies !(#[trigger] space.start(i) <= x
        < space.end(i)) by {
        if space.start(i) <= x < space.end(i) {
            pa.lemma_live_handle(space.pages@[i]);
            pa.lemma_page_mapped(space.start(i), x);
            assert(P::start_of(space.pages@[i]) != page);
        }
    }
}

/// What holds of a place of the heap: it is a mapped word, static or in
/// the used part of the space, that is no word of an object of the heap and
/// no word of the array of roots or header of a root box, and it holds what
/// it may hold by now.
pub proof fn lemma_place<P: PageAlloc>(
    w0: Map<int, u32>,
    objs: Set<int>,
    space: &Space<P>,
    roots: int,
    table: int,
    place: Place,
)
    requires
        copy_inv(w0, objs, space, roots, table),
        place_ok(w0, objs, space.page_alloc.words(), roots, place),
    ensures
        ({
            let w = space.page_alloc.words();
            let loc = place_addr(w0, w, roots, table, place);
            &&& loc % 4 == 0
            &&& w.dom().contains(loc)
            &&& loc + 4 <= 0xffff_ffff
            &&& value_ok(w, objs, place_orig(w0, roots, table, place), w[loc])
            &&& target_ok(objs, place_orig(w0, roots, table, place))
            &&& !root_frame(w0, roots, loc)
            &&& !in_free_area(space, loc)
            &&& forall|b: int|
                objs.contains(b) ==> !(b <= loc < b + 4 * #[trigger] size0(w0, b))
        }),
{
    let pa = &space.page_alloc;
    let w = pa.words();
    let loc = place_addr(w0, w, roots, table, place);
    let cur = space.current_page as int;
    pa.lemma_page_size();
    pa.lemma_live_handle(space.pages@[cur]);
    pa.lemma_live_page(space.start(cur));
    match place {
        Place::Root(i) => {
            assert(root_ok(w0, objs, space, roots, table, i));
            pa.lemma_mapped(loc);
            pa.lemma_page_mapped_static(space.start(cur), loc);
            assert forall|b: int| objs.contains(b) implies !(b <= loc < b + 4 * #[trigger] size0(
                w0,
                b,
            )) by {
                if b <= loc < b + 4 * size0(w0, b) {
                    assert(object_ok(w0, objs, space, b));
                    lemma_object_mapped(w0, objs, space, b, (loc - b) / 4);
                }
            }
        },
        Place::Table => {
            pa.lemma_mapped(loc);
            pa.lemma_page_mapped_static(space.start(cur), loc);
            assert(!root_frame(w0, roots, loc)) by {
                if root_frame(w0, roots, loc) {
                    assert(loc != table);
                }
            }
            assert forall|b: int| objs.contains(b) implies !(b <= loc < b + 4 * #[trigger] size0(
                w0,
                b,
            )) by {
                if b <= loc < b + 4 * size0(w0, b) {
                    assert(object_ok(w0, objs, space, b));
                    lemma_object_mapped(w0, objs, space, b, (loc - b) / 4);
                }
            }
        },
        Place::Field(a, k) => {
            let new = copy_of(w, a);
            let s = size0(w0, a);
            assert(copy_ok(w0, objs, space, a, new));
            let i = choose|i: int| #[trigger] in_used(space, i, new, s);
            lemma_used_mapped(space, i, new, s, k);
            assert(word_ok(w0, objs, w, a, new, k));
            assert(object_ok(w0, objs, space, a));
            assert(w0.dom().contains(a + 4 * k));
            assert(!root_frame(w0, roots, loc)) by {
                if root_frame(w0, roots, loc) {
                    assert(pa.is_static(loc));
                }
            }
            assert forall|b: int| objs.contains(b) implies !(b <= loc < b + 4 * #[trigger] size0(
                w0,
                b,
            )) by {
                if b <= loc < b + 4 * size0(w0, b) {
                    assert(object_ok(w0, objs, space, b));
                    lemma_object_mapped(w0, objs, space, b, (loc - b) / 4);
                    pa.lemma_live_handle(space.pages@[i]);
                    assert(space.start(i) <= loc < space.end(i));
                }
            }
        },
    }
}

/// An intact object has the size and the pointer fields that it had.
pub proof fn lemma_size_intact(w0: Map<int, u32>, w: Map<int, u32>, a: int)
    requires
        intact(w0, w, a),
        w0.dom().contains(a),
        is_object_tag(w0[a]),
        spec_object_size(w0, a) is Ok,
        2 <= size0(w0, a),
        forall|k: int| 0 <= k < size0(w0, a) ==> #[trigger] w0.dom().contains(a + 4 * k),
    ensures
        w.dom().contains(a),
        w[a] == w0[a],
        spec_object_size(w, a) == spec_object_size(w0, a),
        spec_pointer_fields(w, a, w[a]) == spec_pointer_fields(w0, a, w0[a]),
        length_word(w, a, w[a]) == length_word(w0, a, w0[a]),
{
    let tag = w0[a];
    assert(w.dom().contains(a + 4 * 0) && w[a + 4 * 0] == w0[a + 4 * 0]);
    assert(w.dom().contains(a + 4 * 1) && w[a + 4 * 1] == w0[a + 4 * 1]);
    assert(w0.dom().contains(a + 4 * 1));
    if length_offset(tag) == 8 {
        assert(3 <= size0(w0, a));
        assert(w.dom().contains(a + 4 * 2) && w[a + 4 * 2] == w0[a + 4 * 2]);
        assert(w0.dom().contains(a + 4 * 2));
    }
}

/// What an allocation does to the words of memory and to the used part of
/// the space: the words outside of the free area stay as they are, and the
/// words that are handed out come from the free area or from a fresh page.
pub proof fn lemma_alloc_frame<P: PageAlloc>(
    before: &Space<P>,
    after: &Space<P>,
    n: Words<u32>,
    v: Value,
)
    requires
        before.wf(),
        before.can_alloc_words(n),
        before.alloc_post(after, n, v),
        after.page_alloc.words().dom() == before.words_after_alloc(n, v).dom(),
    ensures
        ({
            let w = before.page_alloc.words();
            let w1 = before.words_after_alloc(n, v);
            let new = v.spec_get_ptr();
            &&& new % 4 == 0
            &&& in_used(after, after.current_page as int, new, n.0 as int)
            &&& forall|x: int|
                w.dom().contains(x) && !in_free_area(before, x) ==> #[trigger] w1.dom().contains(x)
                    && w1[x] == w[x]
            &&& forall|x: int|
                new <= x < new + 4 * n.0 && x % 4 == 0 ==> #[trigger] w1.dom().contains(x) && (
                in_free_area(before, x) || !w.dom().contains(x))
            &&& forall|x: int|
                #![trigger after.page_alloc.page_containing(x)]
                w.dom().contains(x) && !before.page_alloc.is_static(x)
                    ==> after.page_alloc.page_containing(x) == before.page_alloc.page_containing(x)
            &&& forall|i: int|
                0 <= i < before.pages@.len() ==> #[trigger] after.pages@[i] == before.pages@[i]
            &&& forall|i: int|
                before.pages@.len() <= i < after.pages@.len()
                    ==> !before.page_alloc.live().contains(P::start_of(#[trigger] after.pages@[i]))
            &&& after.page_alloc.remaining() >= before.page_alloc.remaining() - 1
            &&& before.fits(n) ==> after.page_alloc.remaining() == before.page_alloc.remaining()
        }),
{
    let w = before.page_alloc.words();
    let w1 = before.words_after_alloc(n, v);
    let new = v.spec_get_ptr();
    let cur = before.current_page as int;
    let pa = &before.page_alloc;
    pa.lemma_page_size();
    pa.lemma_live_handle(before.pages@[cur]);
    pa.lemma_live_page(before.start(cur));
    let acur = after.current_page as int;
    after.page_alloc.lemma_live_handle(after.pages@[acur]);
    after.page_alloc.lemma_live_page(after.start(acur));
    assert(in_used(after, acur, new, n.0 as int));
    assert forall|x: int|
        #![trigger after.page_alloc.page_containing(x)]
        w.dom().contains(x) && !pa.is_static(x) implies after.page_alloc.page_containing(x)
        == pa.page_containing(x) by {
        pa.lemma_mapped_in_page(x);
        pa.lemma_mapped(x);
        after.page_alloc.lemma_page_mapped(pa.page_containing(x), x);
    }
    if before.fits(n) {
        assert forall|x: int| new <= x < new + 4 * n.0 && x % 4 == 0 implies 
            #[trigger] w1.dom().contains(x) && (in_free_area(before, x) || !w.dom().contains(
            x,
        )) by {
            pa.lemma_page_mapped(before.start(cur), x);
        }
    } else {
        let hp = before.hp as int;
        let slop = before.end(cur) - hp;
        let filled = with_filler(w, hp, slop);
        let page = after.pages@[acur];
        assert forall|x: int|
            w.dom().contains(x) && !in_free_area(before, x) implies #[trigger] w1.dom().contains(
            x,
        ) && w1[x] == w[x] by {
            assert(filled.dom().contains(x) && filled[x] == w[x]);
        }
        assert forall|x: int| new <= x < new + 4 * n.0 && x % 4 == 0 implies 
            #[trigger] w1.dom().contains(x) && (in_free_area(before, x) || !w.dom().contains(
            x,
        )) by {
            if w.dom().contains(x) {
                pa.lemma_mapped(x);
                if pa.is_static(x) {
                    after.page_alloc.lemma_page_mapped_static(P::start_of(page), x);
                } else {
                    pa.lemma_mapped_in_page(x);
                    let t = pa.page_containing(x);
                    after.page_alloc.lemma_page_mapped(t, x);
                    after.page_alloc.lemma_page_mapped(P::start_of(page), x);
                }
            }
        }
        assert forall|i: int| 0 <= i < before.pages@.len() implies #[trigger] after.pages@[i]
            == before.pages@[i] by {}
    }
}

/// A word outside of the free area is after an allocation what it was.
pub proof fn lemma_alloc_keeps_word<P: PageAlloc>(
    before: &Space<P>,
    after: &Space<P>,
    n: Words<u32>,
    v: Value,
    x: int,
)
    requires
        before.wf(),
        before.can_alloc_words(n),
        before.alloc_post(after, n, v),
        before.page_alloc.words().dom().contains(x),
        !in_free_area(before, x),
    ensures
        before.words_after_alloc(n, v).dom().contains(x),
        before.words_after_alloc(n, v)[x] == before.page_alloc.words()[x],
{
    let w = before.page_alloc.words();
    let cur = before.current_page as int;
    before.page_alloc.lemma_page_size();
    before.page_alloc.lemma_live_handle(before.pages@[cur]);
    before.page_alloc.lemma_live_page(before.start(cur));
    if !before.fits(n) {
        let hp = before.hp as int;
        let slop = before.end(cur) - hp;
        let filled = with_filler(w, hp, slop);
        assert(slop % 4 == 0);
        assert(filled.dom().contains(x) && filled[x] == w[x]);
    }
}

/// The evacuation of a place that holds a pointer, as it was before the
/// collection, succeeds.
pub proof fn lemma_evac_succeeds<P: PageAlloc>(
    w0: Map<int, u32>,
    objs: Set<int>,
    space: &Space<P>,
    roots: int,
    table: int,
    place: Place,
)
    requires
        copy_inv(w0, objs, space, roots, table),
        place_ok(w0, objs, space.page_alloc.words(), roots, place),
        space.page_alloc.words()[place_addr(w0, space.page_alloc.words(), roots, table, place)]
            == place_orig(w0, roots, table, place),
        Value(place_orig(w0, roots, table, place)).spec_is_ptr(),
    ensures
        evac_outcome(
            space,
            place_addr(w0, space.page_alloc.words(), roots, table, place),
        ) is Ok,
{
    let w = space.page_alloc.words();
    let loc = place_addr(w0, w, roots, table, place);
    let v0 = place_orig(w0, roots, table, place);
    let t = Value(v0).spec_get_ptr();
    lemma_place(w0, objs, space, roots, table, place);
    assert(objs.contains(t));
    assert(object_ok(w0, objs, space, t));
    lemma_object_mapped(w0, objs, space, t, 0);
    lemma_object_mapped(w0, objs, space, t, 1);
    if !forwarded(w, t) {
        assert(intact(w0, w, t));
        lemma_size_intact(w0, w, t);
        objs.lemma_len_filter(|a: int| !forwarded(w, a));
        assert(unforwarded(w, objs).contains(t));
        assert(unforwarded(w, objs).len() == unforwarded(w, objs).remove(t).len() + 1);
    }
}

/// What a step of the collection keeps of the space and of the memory: the
/// pages of the space and what lies in their used parts stay, mapped words
/// stay mapped, and the words outside of the free area stay as they are but
/// for the words at `x1`, `x2` and `x3`.
pub open spec fn stepped<P: PageAlloc>(
    before: &Space<P>,
    after: &Space<P>,
    x1: int,
    x2: int,
    x3: int,
) -> bool {
    let w = before.page_alloc.words();
    let w2 = after.page_alloc.words();
    &&& before.wf()
    &&& after.wf()
    &&& same_config(&before.page_alloc, &after.page_alloc)
    &&& forall|x: int| w.dom().contains(x) ==> #[trigger] w2.dom().contains(x)
    &&& forall|x: int|
        w.dom().contains(x) && !in_free_area(before, x) && x != x1 && x != x2 && x != x3
            ==> #[trigger] w2[x] == w[x]
    &&& forall|x: int|
        #![trigger after.page_alloc.page_containing(x)]
        w.dom().contains(x) && !before.page_alloc.is_static(x)
            ==> after.page_alloc.page_containing(x) == before.page_alloc.page_containing(x)
    &&& after.pages@.len() >= before.pages@.len()
    &&& forall|i: int| 0 <= i < before.pages@.len() ==> #[trigger] after.pages@[i] == before.pages@[i]
    &&& forall|i: int|
        before.pages@.len() <= i < after.pages@.len() ==> !before.page_alloc.live().contains(
            P::start_of(#[trigger] after.pages@[i]),
        )
    &&& after.pages@.len() == before.pages@.len() ==> after.hp >= before.hp
}

/// What lay in the used part of the space before a step lies there after
/// it.
pub proof fn lemma_used_stays<P: PageAlloc>(
    before: &Space<P>,
    after: &Space<P>,
    x1: int,
    x2: int,
    x3: int,
    i: int,
    new: int,
    s: int,
)
    requires
        stepped(before, after, x1, x2, x3),
        in_used(before, i, new, s),
    ensures
        in_used(after, i, new, s),
{
    assert(after.pages@[i] == before.pages@[i]);
    let cur = before.current_page as int;
    before.page_alloc.lemma_page_size();
    before.page_alloc.lemma_live_handle(before.pages@[cur]);
    before.page_alloc.lemma_live_page(before.start(cur));
}

/// The objects of the heap are what they were after a step.
pub proof fn lemma_object_stays<P: PageAlloc>(
    w0: Map<int, u32>,
    objs: Set<int>,
    before: &Space<P>,
    after: &Space<P>,
    x1: int,
    x2: int,
    x3: int,
    a: int,
)
    requires
        stepped(before, after, x1, x2, x3),
        objs.contains(a),
        object_ok(w0, objs, before, a),
    ensures
        object_ok(w0, objs, after, a),
{
    let pa = &before.page_alloc;
    lemma_object_mapped(w0, objs, before, a, 0);
    assert(after.page_alloc.page_containing(a) == pa.page_containing(a));
    assert forall|i: int| 0 <= i < after.pages@.len() implies P::start_of(
        #[trigger] after.pages@[i],
    ) != after.page_alloc.page_containing(a) by {
        if i < before.pages@.len() {
            assert(after.pages@[i] == before.pages@[i]);
        }
    }
}

/// An object that was intact before a step that did not touch it is intact
/// after it.
pub proof fn lemma_intact_stays<P: PageAlloc>(
    w0: Map<int, u32>,
    objs: Set<int>,
    before: &Space<P>,
    after: &Space<P>,
    x1: int,
    x2: int,
    x3: int,
    a: int,
)
    requires
        stepped(before, after, x1, x2, x3),
        objs.contains(a),
        object_ok(w0, objs, before, a),
        intact(w0, before.page_alloc.words(), a),
        !(a <= x1 < a + 4 * size0(w0, a)),
        !(a <= x2 < a + 4 * size0(w0, a)),
        !(a <= x3 < a + 4 * size0(w0, a)),
    ensures
        intact(w0, after.page_alloc.words(), a),
{
    let w = before.page_alloc.words();
    let w2 = after.page_alloc.words();
    assert forall|k: int| 0 <= k < size0(w0, a) implies #[trigger] w2.dom().contains(a + 4 * k)
        && w2[a + 4 * k] == w0[a + 4 * k] by {
        lemma_object_mapped(w0, objs, before, a, k);
        assert(w.dom().contains(a + 4 * k) && w[a + 4 * k] == w0[a + 4 * k]);
    }
}

/// A value that was what it may be stays so after a step that forwards
/// objects only and leaves forwarding pointers alone.
pub open spec fn forwards_only(w: Map<int, u32>, w2: Map<int, u32>, objs: Set<int>) -> bool {
    forall|a: int|
        #[trigger] objs.contains(a) && forwarded(w, a) ==> forwarded(w2, a) && w2[a + 4] == w[a
            + 4]
}

/// Where word `k` of the copy at `new` of the object at `a` is one of the
/// words at `x1`, `x2` and `x3`, it is a pointer field that holds what it may
/// hold.
pub open spec fn touched_ok(
    w0: Map<int, u32>,
    objs: Set<int>,
    w2: Map<int, u32>,
    a: int,
    new: int,
    x1: int,
    x2: int,
    x3: int,
    k: int,
) -> bool {
    new + 4 * k == x1 || new + 4 * k == x2 || new + 4 * k == x3 ==> k >= 1 && word_ok(
        w0,
        objs,
        w2,
        a,
        new,
        k,
    )
}

/// A copy that was a copy before a step that touched none of its words but
/// a pointer field, which holds what it may hold, is a copy after it.
pub proof fn lemma_copy_stays<P: PageAlloc>(
    w0: Map<int, u32>,
    objs: Set<int>,
    before: &Space<P>,
    after: &Space<P>,
    x1: int,
    x2: int,
    x3: int,
    a: int,
)
    requires
        stepped(before, after, x1, x2, x3),
        forwards_only(before.page_alloc.words(), after.page_alloc.words(), objs),
        objs.contains(a),
        object_ok(w0, objs, before, a),
        forwarded(before.page_alloc.words(), a),
        copy_ok(w0, objs, before, a, copy_of(before.page_alloc.words(), a)),
        forall|k: int|
            0 <= k < size0(w0, a) ==> #[trigger] touched_ok(
                w0,
                objs,
                after.page_alloc.words(),
                a,
                copy_of(before.page_alloc.words(), a),
                x1,
                x2,
                x3,
                k,
            ),
    ensures
        copy_of(after.page_alloc.words(), a) == copy_of(before.page_alloc.words(), a),
        copy_ok(w0, objs, after, a, copy_of(after.page_alloc.words(), a)),
{
    let w = before.page_alloc.words();
    let w2 = after.page_alloc.words();
    let new = copy_of(w, a);
    let s = size0(w0, a);
    let i = choose|i: int| #[trigger] in_used(before, i, new, s);
    lemma_used_stays(before, after, x1, x2, x3, i, new, s);
    lemma_used_mapped(before, i, new, s, 0);
    assert(touched_ok(w0, objs, w2, a, new, x1, x2, x3, 0));
    assert(w2[new] == w[new]);
    assert forall|k: int| 1 <= k < s implies #[trigger] word_ok(w0, objs, w2, a, new, k) by {
        lemma_used_mapped(before, i, new, s, k);
        assert(touched_ok(w0, objs, w2, a, new, x1, x2, x3, k));
        if new + 4 * k == x1 || new + 4 * k == x2 || new + 4 * k == x3 {
        } else {
            assert(w2[new + 4 * k] == w[new + 4 * k]);
            assert(word_ok(w0, objs, w, a, new, k));
            if is_field_word(w0, a, k) {
                lemma_value_stays(w, w2, objs, w0[a + 4 * k], w[new + 4 * k]);
            }
        }
    }
}

/// A value that was what it may be is so after objects were forwarded.
pub proof fn lemma_value_stays(
    w: Map<int, u32>,
    w2: Map<int, u32>,
    objs: Set<int>,
    v0: u32,
    v: u32,
)
    requires
        forwards_only(w, w2, objs),
        value_ok(w, objs, v0, v),
    ensures
        value_ok(w2, objs, v0, v),
        value_done(w, objs, v0, v) ==> value_done(w2, objs, v0, v),
{
}

/// The roots are what they may be after a step that touched no word of the
/// array of roots and no header of a root box, and left in the fields of the
/// boxes and in the continuation table what they may hold.
pub proof fn lemma_roots_stay<P: PageAlloc>(
    w0: Map<int, u32>,
    objs: Set<int>,
    before: &Space<P>,
    after: &Space<P>,
    roots: int,
    table: int,
    x1: int,
    x2: int,
    x3: int,
)
    requires
        stepped(before, after, x1, x2, x3),
        forwards_only(before.page_alloc.words(), after.page_alloc.words(), objs),
        roots_ok(w0, objs, before, roots, table),
        !root_frame(w0, roots, x1),
        !root_frame(w0, roots, x2),
        !root_frame(w0, roots, x3),
        forall|i: int|
            #![trigger root_box(w0, roots, i)]
            0 <= i < w0[roots + 4] && (root_box(w0, roots, i) + 4 == x1 || root_box(w0, roots, i)
                + 4 == x2 || root_box(w0, roots, i) + 4 == x3) ==> value_ok(
                after.page_alloc.words(),
                objs,
                w0[root_box(w0, roots, i) + 4],
                after.page_alloc.words()[root_box(w0, roots, i) + 4],
            ),
        table == x1 || table == x2 || table == x3 ==> value_ok(
            after.page_alloc.words(),
            objs,
            w0[table],
            after.page_alloc.words()[table],
        ),
    ensures
        roots_ok(w0, objs, after, roots, table),
{
    let pa = &before.page_alloc;
    let w = pa.words();
    let w2 = after.page_alloc.words();
    let cur = before.current_page as int;
    pa.lemma_page_size();
    pa.lemma_live_handle(before.pages@[cur]);
    pa.lemma_live_page(before.start(cur));
    assert(root_frame(w0, roots, roots));
    assert(root_frame(w0, roots, roots + 4));
    assert forall|x: int| #[trigger] root_frame(w0, roots, x) implies after.page_alloc.is_static(
        x,
    ) && w2.dom().contains(x) && w2[x] == w0[x] && x != table by {
        pa.lemma_page_mapped_static(before.start(cur), x);
        assert(w2[x] == w[x]);
    }
    assert forall|i: int| 0 <= i < w0[roots + 4] implies #[trigger] root_ok(
        w0,
        objs,
        after,
        roots,
        table,
        i,
    ) by {
        assert(root_ok(w0, objs, before, roots, table, i));
        let b = root_box(w0, roots, i);
        pa.lemma_page_mapped_static(before.start(cur), b + 4);
        if b + 4 == x1 || b + 4 == x2 || b + 4 == x3 {
        } else {
            assert(w2[b + 4] == w[b + 4]);
            lemma_value_stays(w, w2, objs, w0[b + 4], w[b + 4]);
        }
    }
    pa.lemma_page_mapped_static(before.start(cur), table);
    if table == x1 || table == x2 || table == x3 {
    } else {
        assert(w2[table] == w[table]);
        lemma_value_stays(w, w2, objs, w0[table], w[table]);
    }
}

/// Whether `x` is the address of one of the `n` words from `lo` on.
pub open spec fn word_of(lo: int, n: int, x: int) -> bool {
    lo <= x < lo + 4 * n && x % 4 == 0
}

/// Two ranges of words that share no word lie one behind the other.
pub proof fn lemma_ranges_apart(a: int, n: int, b: int, m: int)
    requires
        a % 4 == 0,
        b % 4 == 0,
        0 < n,
        0 < m,
        forall|x: int| #[trigger] word_of(a, n, x) ==> !word_of(b, m, x),
    ensures
        a + 4 * n <= b || b + 4 * m <= a,
{
    if a <= b {
        if b < a + 4 * n {
            assert(word_of(a, n, b));
        }
    } else {
        if a < b + 4 * m {
            assert(word_of(a, n, a));
        }
    }
}

/// The evacuation of a place whose object was moved before keeps the
/// invariant, and leaves in the place the address of the copy.
pub proof fn lemma_evac_forward<P: PageAlloc>(
    w0: Map<int, u32>,
    objs: Set<int>,
    before: &Space<P>,
    after: &Space<P>,
    roots: int,
    table: int,
    place: Place,
)
    requires
        copy_inv(w0, objs, before, roots, table),
        place_ok(w0, objs, before.page_alloc.words(), roots, place),
        before.page_alloc.words()[place_addr(w0, before.page_alloc.words(), roots, table, place)]
            == place_orig(w0, roots, table, place),
        Value(place_orig(w0, roots, table, place)).spec_is_ptr(),
        forwarded(
            before.page_alloc.words(),
            Value(place_orig(w0, roots, table, place)).spec_get_ptr(),
        ),
        evac_post(
            before,
            after,
            place_addr(w0, before.page_alloc.words(), roots, table, place),
        ),
        after.page_alloc.wf(),
    ensures
        copy_inv(w0, objs, after, roots, table),
        forwards_only(before.page_alloc.words(), after.page_alloc.words(), objs),
        stepped(
            before,
            after,
            place_addr(w0, before.page_alloc.words(), roots, table, place),
            place_addr(w0, before.page_alloc.words(), roots, table, place),
            place_addr(w0, before.page_alloc.words(), roots, table, place),
        ),
        place_ok(w0, objs, after.page_alloc.words(), roots, place),
        place_addr(w0, after.page_alloc.words(), roots, table, place) == place_addr(
            w0,
            before.page_alloc.words(),
            roots,
            table,
            place,
        ),
        value_done(
            after.page_alloc.words(),
            objs,
            place_orig(w0, roots, table, place),
            after.page_alloc.words()[place_addr(
                w0,
                before.page_alloc.words(),
                roots,
                table,
                place,
            )],
        ),
        after.pages == before.pages,
        after.hp == before.hp,
{
    let w = before.page_alloc.words();
    let w2 = after.page_alloc.words();
    let loc = place_addr(w0, w, roots, table, place);
    let v0 = place_orig(w0, roots, table, place);
    let t = Value(v0).spec_get_ptr();
    lemma_place(w0, objs, before, roots, table, place);
    assert(objs.contains(t));
    assert(object_ok(w0, objs, before, t));
    lemma_object_mapped(w0, objs, before, t, 1);
    assert(w2 == w.insert(loc, w[t + 4]));
    assert(after.wf());
    assert forall|x: int|
        #![trigger after.page_alloc.page_containing(x)]
        w.dom().contains(x) && !before.page_alloc.is_static(x)
            implies after.page_alloc.page_containing(x) == before.page_alloc.page_containing(
        x,
    ) by {
        before.page_alloc.lemma_mapped_in_page(x);
        before.page_alloc.lemma_mapped(x);
        after.page_alloc.lemma_page_mapped(before.page_alloc.page_containing(x), x);
    }
    assert(stepped(before, after, loc, loc, loc));
    assert forall|a: int| #[trigger] objs.contains(a) && forwarded(w, a) implies forwarded(w2, a)
        && w2[a + 4] == w[a + 4] by {
        assert(object_ok(w0, objs, before, a));
        assert(size0(w0, a) >= 2);
    }
    assert forall|a: int| #[trigger] objs.contains(a) implies forwarded(w2, a) == forwarded(
        w,
        a,
    ) && w2[a + 4] == w[a + 4] by {
        assert(object_ok(w0, objs, before, a));
        assert(size0(w0, a) >= 2);
    }
    assert(unforwarded(w2, objs) =~= unforwarded(w, objs));
    assert forall|a: int| #[trigger] objs.contains(a) implies object_ok(w0, objs, after, a) by {
        lemma_object_stays(w0, objs, before, after, loc, loc, loc, a);
    }
    assert forall|a: int| #[trigger] objs.contains(a) && !forwarded(w2, a) implies intact(
        w0,
        w2,
        a,
    ) by {
        assert(object_ok(w0, objs, before, a));
        assert(size0(w0, a) >= 2);
        lemma_intact_stays(w0, objs, before, after, loc, loc, loc, a);
    }
    assert forall|a: int| #[trigger] objs.contains(a) && forwarded(w2, a) implies Value(
        w2[a + 4],
    ).spec_is_ptr() && copy_ok(w0, objs, after, a, copy_of(w2, a)) by {
        assert(object_ok(w0, objs, before, a));
        let new = copy_of(w, a);
        assert(copy_ok(w0, objs, before, a, new));
        assert forall|k: int| 0 <= k < size0(w0, a) implies #[trigger] touched_ok(
            w0,
            objs,
            w2,
            a,
            new,
            loc,
            loc,
            loc,
            k,
        ) by {
            if new + 4 * k == loc {
                lemma_touched_word(w0, objs, before, roots, table, place, a, k);
                assert(v0 == w0[a + 4 * k]);
                assert(forwarded(w2, t));
                assert(w2[new + 4 * k] == w2[t + 4]);
                assert(value_ok(w2, objs, w0[a + 4 * k], w2[new + 4 * k]));
            }
        }
        lemma_copy_stays(w0, objs, before, after, loc, loc, loc, a);
    }
    lemma_place_is_root(w0, objs, before, roots, table, place);
    lemma_roots_stay(w0, objs, before, after, roots, table, loc, loc, loc);
    lemma_place_quiet(w0, objs, before, roots, table, place);
    lemma_statics_stay(w0, before, after, roots, table, loc, loc, loc);
    lemma_covered_forward(w0, objs, before, after, roots, table, place);
}

/// Where the place that is evacuated is the field of a root box or the
/// continuation table, it is that root or the table.
pub proof fn lemma_place_is_root<P: PageAlloc>(
    w0: Map<int, u32>,
    objs: Set<int>,
    space: &Space<P>,
    roots: int,
    table: int,
    place: Place,
)
    requires
        copy_inv(w0, objs, space, roots, table),
        place_ok(w0, objs, space.page_alloc.words(), roots, place),
    ensures
        forall|i: int|
            #![trigger root_box(w0, roots, i)]
            0 <= i < w0[roots + 4] && root_box(w0, roots, i) + 4 == place_addr(
                w0,
                space.page_alloc.words(),
                roots,
                table,
                place,
            ) ==> place_orig(w0, roots, table, place) == w0[root_box(w0, roots, i) + 4],
        table == place_addr(w0, space.page_alloc.words(), roots, table, place) ==> place_orig(
            w0,
            roots,
            table,
            place,
        ) == w0[table],
{
    let w = space.page_alloc.words();
    let loc = place_addr(w0, w, roots, table, place);
    lemma_place(w0, objs, space, roots, table, place);
    assert forall|i: int|
        #![trigger root_box(w0, roots, i)]
        0 <= i < w0[roots + 4] && root_box(w0, roots, i) + 4 == loc implies place_orig(
        w0,
        roots,
        table,
        place,
    ) == w0[root_box(w0, roots, i) + 4] by {
        assert(root_ok(w0, objs, space, roots, table, i));
        match place {
            Place::Root(j) => {},
            Place::Table => {},
            Place::Field(a, k) => {
                let new = copy_of(w, a);
                assert(copy_ok(w0, objs, space, a, new));
                let p = choose|p: int| #[trigger] in_used(space, p, new, size0(w0, a));
                lemma_used_mapped(space, p, new, size0(w0, a), k);
            },
        }
    }
    if table == loc {
        match place {
            Place::Root(j) => {
                assert(root_ok(w0, objs, space, roots, table, j));
            },
            Place::Table => {},
            Place::Field(a, k) => {
                let new = copy_of(w, a);
                assert(copy_ok(w0, objs, space, a, new));
                let p = choose|p: int| #[trigger] in_used(space, p, new, size0(w0, a));
                lemma_used_mapped(space, p, new, size0(w0, a), k);
            },
        }
    }
}

/// A word of a copy that is the place that is evacuated is the pointer
/// field that the place names.
pub proof fn lemma_touched_word<P: PageAlloc>(
    w0: Map<int, u32>,
    objs: Set<int>,
    space: &Space<P>,
    roots: int,
    table: int,
    place: Place,
    a: int,
    k: int,
)
    requires
        copy_inv(w0, objs, space, roots, table),
        place_ok(w0, objs, space.page_alloc.words(), roots, place),
        objs.contains(a),
        forwarded(space.page_alloc.words(), a),
        0 <= k < size0(w0, a),
        copy_of(space.page_alloc.words(), a) + 4 * k == place_addr(
            w0,
            space.page_alloc.words(),
            roots,
            table,
            place,
        ),
    ensures
        place == Place::Field(a, k),
        k >= 1,
        is_field_word(w0, a, k),
{
    let w = space.page_alloc.words();
    let new = copy_of(w, a);
    let s = size0(w0, a);
    let loc = new + 4 * k;
    assert(copy_ok(w0, objs, space, a, new));
    let i = choose|i: int| #[trigger] in_used(space, i, new, s);
    lemma_used_mapped(space, i, new, s, k);
    match place {
        Place::Root(r) => {
            assert(root_ok(w0, objs, space, roots, table, r));
        },
        Place::Table => {},
        Place::Field(b, j) => {
            if a != b {
                let other = copy_of(w, b);
                assert(copy_of(w, a) + 4 * size0(w0, a) <= copy_of(w, b) || copy_of(w, b) + 4
                    * size0(w0, b) <= copy_of(w, a));
            }
        },
    }
}

/// What the evacuation of a place at `loc` does where the object at `t`
/// that the place points to was not moved yet: the object is copied to the
/// fresh words at `new` and forwarded, and the place is left with the address
/// of the copy.
pub open spec fn copied_step<P: PageAlloc>(
    w0: Map<int, u32>,
    objs: Set<int>,
    before: &Space<P>,
    after: &Space<P>,
    t: int,
    loc: int,
    new: int,
) -> bool {
    let w = before.page_alloc.words();
    let w2 = after.page_alloc.words();
    let s = size0(w0, t);
    &&& stepped(before, after, t, t + 4, loc)
    &&& forwards_only(w, w2, objs)
    &&& forwarded(w2, t)
    &&& Value(w2[t + 4]).spec_is_ptr()
    &&& copy_of(w2, t) == new
    &&& w2[loc] == w2[t + 4]
    &&& new % 4 == 0
    &&& in_used(after, after.current_page as int, new, s)
    &&& forall|k: int| 0 <= k < s ==> #[trigger] copied_word(w0, w2, t, new, k)
    &&& forall|x: int|
        #[trigger] word_of(new, s, x) ==> !w.dom().contains(x) || in_free_area(before, x)
    &&& forall|a: int|
        #[trigger] objs.contains(a) && a != t ==> forwarded(w2, a) == forwarded(w, a)
    &&& after.page_alloc.remaining() >= before.page_alloc.remaining() - 1
    &&& copied_shape(before, after, new, s)
}

/// Where the copy of `s` words at `new` went: to the allocation pointer, or
/// to the start of a fresh page, after the rest of the page that was the
/// current one was closed with a filler.
pub open spec fn copied_shape<P: PageAlloc>(
    before: &Space<P>,
    after: &Space<P>,
    new: int,
    s: int,
) -> bool {
    let w2 = after.page_alloc.words();
    &&& after.hp == new + 4 * s
    &&& if after.pages@.len() == before.pages@.len() {
        new == before.hp
    } else {
        &&& after.pages@.len() == before.pages@.len() + 1
        &&& new == after.contents_start(after.current_page as int)
        &&& is_filler(w2, before.hp as int, before.end(before.current_page as int))
    }
}

/// An allocation that does not fit into the current page closes the page
/// with a filler, which stays where no word of the free area is written
/// afterwards.
#[verifier::rlimit(50)]
pub proof fn lemma_copied_shape<P: PageAlloc>(
    before: &Space<P>,
    after: &Space<P>,
    size: Words<u32>,
    copy: Value,
    t: int,
    loc: int,
)
    requires
        before.wf(),
        before.can_alloc_words(size),
        before.alloc_post(after, size, copy),
        size.0 >= 1,
        after.page_alloc.words().dom() == before.words_after_alloc(size, copy).dom(),
        !in_free_area(before, t),
        !in_free_area(before, t + 4),
        !in_free_area(before, loc),
        forall|x: int|
            #![trigger after.page_alloc.words()[x]]
            before.words_after_alloc(size, copy).dom().contains(x) && !word_of(
                copy.spec_get_ptr(),
                size.0 as int,
                x,
            ) && x != t && x != t + 4 && x != loc ==> after.page_alloc.words()[x]
                == before.words_after_alloc(size, copy)[x],
    ensures
        copied_shape(before, after, copy.spec_get_ptr(), size.0 as int),
{
    let w = before.page_alloc.words();
    let w2 = after.page_alloc.words();
    let w1 = before.words_after_alloc(size, copy);
    let new = copy.spec_get_ptr();
    let s = size.0 as int;
    let hp = before.hp as int;
    let cur = before.current_page as int;
    let acur = after.current_page as int;
    before.page_alloc.lemma_page_size();
    before.page_alloc.lemma_live_handle(before.pages@[cur]);
    before.page_alloc.lemma_live_page(before.start(cur));
    after.page_alloc.lemma_live_handle(after.pages@[acur]);
    after.page_alloc.lemma_live_page(after.start(acur));
    if !before.fits(size) {
        let slop = before.end(cur) - hp;
        let filled = with_filler(w, hp, slop);
        assert(after.pages@[cur] == before.pages@[cur]);
        if slop >= 4 {
            before.page_alloc.lemma_page_mapped(before.start(cur), hp);
            assert(w1[hp] == filled[hp]);
            if word_of(new, s, hp) {
                lemma_pages_disjoint(after, cur, acur, hp);
            }
            assert(w2[hp] == w1[hp]);
        }
        if slop >= 8 {
            before.page_alloc.lemma_page_mapped(before.start(cur), hp + 4);
            assert(w1[hp + 4] == filled[hp + 4]);
            if word_of(new, s, hp + 4) {
                lemma_pages_disjoint(after, cur, acur, hp + 4);
            }
            assert(w2[hp + 4] == w1[hp + 4]);
        }
        assert(is_filler(w2, hp, before.end(cur)));
    }
}

/// The evacuation of a place whose object was not moved yet copies and
/// forwards the object.
#[verifier::rlimit(100)]
pub proof fn lemma_copy_transition<P: PageAlloc>(
    w0: Map<int, u32>,
    objs: Set<int>,
    before: &Space<P>,
    after: &Space<P>,
    roots: int,
    table: int,
    place: Place,
)
    requires
        copy_inv(w0, objs, before, roots, table),
        place_ok(w0, objs, before.page_alloc.words(), roots, place),
        before.page_alloc.words()[place_addr(w0, before.page_alloc.words(), roots, table, place)]
            == place_orig(w0, roots, table, place),
        Value(place_orig(w0, roots, table, place)).spec_is_ptr(),
        !forwarded(
            before.page_alloc.words(),
            Value(place_orig(w0, roots, table, place)).spec_get_ptr(),
        ),
        evac_post(
            before,
            after,
            place_addr(w0, before.page_alloc.words(), roots, table, place),
        ),
    ensures
        copied_step(
            w0,
            objs,
            before,
            after,
            Value(place_orig(w0, roots, table, place)).spec_get_ptr(),
            place_addr(w0, before.page_alloc.words(), roots, table, place),
            Value(
                after.page_alloc.words()[place_addr(
                    w0,
                    before.page_alloc.words(),
                    roots,
                    table,
                    place,
                )],
            ).spec_get_ptr(),
        ),
{
    let w = before.page_alloc.words();
    let w2 = after.page_alloc.words();
    let loc = place_addr(w0, w, roots, table, place);
    let v0 = place_orig(w0, roots, table, place);
    let t = Value(v0).spec_get_ptr();
    let s = size0(w0, t);
    lemma_place(w0, objs, before, roots, table, place);
    lemma_evac_succeeds(w0, objs, before, roots, table, place);
    assert(objs.contains(t));
    assert(object_ok(w0, objs, before, t));
    assert(intact(w0, w, t));
    lemma_size_intact(w0, w, t);
    lemma_object_mapped(w0, objs, before, t, 0);
    lemma_object_mapped(w0, objs, before, t, 1);
    let size = spec_object_size(w, t)->Ok_0;
    assert(size.0 == s);
    let copy = Value(w2[loc]);
    let new = copy.spec_get_ptr();
    let w1 = before.words_after_alloc(size, copy);
    let copied = copy_region(w1, new, t, s);
    assert(before.alloc_post(after, size, copy));
    assert(w2 == copied.insert(t, TAG_FWD_PTR).insert(t + 4, copy.0).insert(loc, copy.0));
    lemma_alloc_words_mapped(before, after, size, copy);
    lemma_copy_region_frame(w1, new, t, s);
    assert(w2.dom() =~= w1.dom());
    lemma_alloc_frame(before, after, size, copy);
    lemma_alloc_keeps_word(before, after, size, copy, t);
    lemma_alloc_keeps_word(before, after, size, copy, t + 4);
    lemma_alloc_keeps_word(before, after, size, copy, loc);
    assert forall|x: int| #[trigger] word_of(new, s, x) implies !word_of(t, s, x) && x != loc && (
    !w.dom().contains(x) || in_free_area(before, x)) by {
        assert(w1.dom().contains(x));
        if word_of(t, s, x) {
            lemma_object_mapped(w0, objs, before, t, (x - t) / 4);
        }
    }
    lemma_ranges_apart(new, s, t, s);
    assert forall|x: int|
        w.dom().contains(x) && !in_free_area(before, x) && x != t && x != t + 4 && x
            != loc implies #[trigger] w2[x] == w[x] by {
        lemma_alloc_keeps_word(before, after, size, copy, x);
        before.page_alloc.lemma_mapped(x);
        assert(!word_of(new, s, x));
        assert(copied[x] == w1[x]);
    }
    assert forall|x: int| w.dom().contains(x) implies #[trigger] w2.dom().contains(x) by {
        before.page_alloc.lemma_mapped(x);
        if before.fits(size) {
        } else {
            let hp = before.hp as int;
            let slop = before.end(before.current_page as int) - hp;
            let filled = with_filler(w, hp, slop);
            assert(filled.dom().contains(x));
        }
    }
    assert(stepped(before, after, t, t + 4, loc));
    assert forall|k: int| 0 <= k < s implies #[trigger] copied_word(w0, w2, t, new, k) by {
        lemma_copy_region_content(w1, new, t, s, k);
        lemma_object_mapped(w0, objs, before, t, k);
        assert(word_of(new, s, new + 4 * k));
        assert(w.dom().contains(t + 4 * k) && w[t + 4 * k] == w0[t + 4 * k]);
        lemma_alloc_keeps_word(before, after, size, copy, t + 4 * k);
    }
    lemma_others_stay(w0, objs, before, after, t, loc);
    assert forall|x: int|
        #![trigger w2[x]]
        w1.dom().contains(x) && !word_of(new, s, x) && x != t && x != t + 4 && x != loc implies w2[x]
        == w1[x] by {
        assert(w2.dom().contains(x));
        after.page_alloc.lemma_mapped(x);
        assert(copied[x] == w1[x]);
    }
    lemma_copied_shape(before, after, size, copy, t, loc);
}

/// The forwarding pointers of the objects other than the one at `t` are
/// what they were after a step that touched the first two words of that
/// object and a word at `loc` that is no word of an object.
pub proof fn lemma_others_stay<P: PageAlloc>(
    w0: Map<int, u32>,
    objs: Set<int>,
    before: &Space<P>,
    after: &Space<P>,
    t: int,
    loc: int,
)
    requires
        stepped(before, after, t, t + 4, loc),
        objs.contains(t),
        objects_ok(w0, objs, before),
        objects_apart(w0, objs),
        forall|b: int| objs.contains(b) ==> !(b <= loc < b + 4 * #[trigger] size0(w0, b)),
    ensures
        forall|a: int|
            #[trigger] objs.contains(a) && a != t ==> forwarded(after.page_alloc.words(), a)
                == forwarded(before.page_alloc.words(), a) && after.page_alloc.words()[a + 4]
                == before.page_alloc.words()[a + 4],
{
    let w = before.page_alloc.words();
    let w2 = after.page_alloc.words();
    assert forall|a: int| #[trigger] objs.contains(a) && a != t implies forwarded(w2, a)
        == forwarded(w, a) && w2[a + 4] == w[a + 4] by {
        assert(object_ok(w0, objs, before, a));
        assert(object_ok(w0, objs, before, t));
        lemma_object_mapped(w0, objs, before, a, 0);
        lemma_object_mapped(w0, objs, before, a, 1);
        assert(a < t ==> a + 4 * size0(w0, a) <= t);
        assert(t < a ==> t + 4 * size0(w0, t) <= a);
        assert(!(a <= loc < a + 4 * size0(w0, a)));
    }
}

/// A page that an allocation has left behind is not empty: the
/// allocation would have fitted into an empty page.
pub open spec fn page_left<P: PageAlloc>(before: &Space<P>, after: &Space<P>) -> bool {
    after.pages@.len() != before.pages@.len() ==> before.contents_start(
        before.current_page as int,
    ) < before.hp
}

/// The evacuation of an object leaves no empty page behind.
pub proof fn lemma_page_left<P: PageAlloc>(
    w0: Map<int, u32>,
    objs: Set<int>,
    before: &Space<P>,
    after: &Space<P>,
    roots: int,
    table: int,
    place: Place,
)
    requires
        copy_inv(w0, objs, before, roots, table),
        place_ok(w0, objs, before.page_alloc.words(), roots, place),
        before.page_alloc.words()[place_addr(w0, before.page_alloc.words(), roots, table, place)]
            == place_orig(w0, roots, table, place),
        Value(place_orig(w0, roots, table, place)).spec_is_ptr(),
        !forwarded(
            before.page_alloc.words(),
            Value(place_orig(w0, roots, table, place)).spec_get_ptr(),
        ),
        evac_post(
            before,
            after,
            place_addr(w0, before.page_alloc.words(), roots, table, place),
        ),
    ensures
        page_left(before, after),
{
    let w = before.page_alloc.words();
    let t = Value(place_orig(w0, roots, table, place)).spec_get_ptr();
    lemma_place(w0, objs, before, roots, table, place);
    lemma_evac_succeeds(w0, objs, before, roots, table, place);
    assert(object_ok(w0, objs, before, t));
    assert(intact(w0, w, t));
    lemma_size_intact(w0, w, t);
    before.page_alloc.lemma_page_size();
}

/// A step that copies and forwards an object keeps the invariant.
#[verifier::rlimit(100)]
pub proof fn lemma_copy_keeps_inv<P: PageAlloc>(
    w0: Map<int, u32>,
    objs: Set<int>,
    before: &Space<P>,
    after: &Space<P>,
    roots: int,
    table: int,
    place: Place,
    new: int,
)
    requires
        copy_inv(w0, objs, before, roots, table),
        place_ok(w0, objs, before.page_alloc.words(), roots, place),
        before.page_alloc.words()[place_addr(w0, before.page_alloc.words(), roots, table, place)]
            == place_orig(w0, roots, table, place),
        Value(place_orig(w0, roots, table, place)).spec_is_ptr(),
        !forwarded(
            before.page_alloc.words(),
            Value(place_orig(w0, roots, table, place)).spec_get_ptr(),
        ),
        copied_step(
            w0,
            objs,
            before,
            after,
            Value(place_orig(w0, roots, table, place)).spec_get_ptr(),
            place_addr(w0, before.page_alloc.words(), roots, table, place),
            new,
        ),
        page_left(before, after),
    ensures
        copy_inv(w0, objs, after, roots, table),
        unforwarded(after.page_alloc.words(), objs).len() < unforwarded(
            before.page_alloc.words(),
            objs,
        ).len(),
{
    let w = before.page_alloc.words();
    let w2 = after.page_alloc.words();
    let loc = place_addr(w0, w, roots, table, place);
    let v0 = place_orig(w0, roots, table, place);
    let t = Value(v0).spec_get_ptr();
    let s = size0(w0, t);
    lemma_place(w0, objs, before, roots, table, place);
    assert(objs.contains(t));
    assert(object_ok(w0, objs, before, t));
    // one object less is left to be moved
    assert(unforwarded(w2, objs) =~= unforwarded(w, objs).remove(t));
    objs.lemma_len_filter(|a: int| !forwarded(w, a));
    assert(unforwarded(w, objs).contains(t));
    assert forall|a: int| #[trigger] objs.contains(a) implies object_ok(w0, objs, after, a) by {
        lemma_object_stays(w0, objs, before, after, t, t + 4, loc, a);
    }
    assert forall|a: int| #[trigger] objs.contains(a) && !forwarded(w2, a) implies intact(
        w0,
        w2,
        a,
    ) by {
        assert(object_ok(w0, objs, before, a));
        assert(a < t ==> a + 4 * size0(w0, a) <= t);
        assert(t < a ==> t + 4 * s <= a);
        lemma_intact_stays(w0, objs, before, after, t, t + 4, loc, a);
    }
    lemma_copies_stay(w0, objs, before, after, roots, table, place, new);
    lemma_copies_apart(w0, objs, before, after, t, loc, new);
    lemma_place_is_root(w0, objs, before, roots, table, place);
    lemma_object_mapped(w0, objs, before, t, 0);
    lemma_object_mapped(w0, objs, before, t, 1);
    assert(!root_frame(w0, roots, t) && !root_frame(w0, roots, t + 4));
    assert forall|i: int|
        #![trigger root_box(w0, roots, i)]
        0 <= i < w0[roots + 4] && (root_box(w0, roots, i) + 4 == t || root_box(w0, roots, i) + 4
            == t + 4 || root_box(w0, roots, i) + 4 == loc) implies value_ok(
        w2,
        objs,
        w0[root_box(w0, roots, i) + 4],
        w2[root_box(w0, roots, i) + 4],
    ) by {
        assert(root_ok(w0, objs, before, roots, table, i));
    }
    lemma_roots_stay(w0, objs, before, after, roots, table, t, t + 4, loc);
    lemma_place_quiet(w0, objs, before, roots, table, place);
    lemma_statics_stay(w0, before, after, roots, table, t, t + 4, loc);
    lemma_covered_copy(w0, objs, before, after, roots, table, place, t, new);
    lemma_place_reach(w0, objs, w, roots, table, place);
    assert forall|a: int| #[trigger] forwarded(w2, a) && objs.contains(a) implies reachable(
        heap_of(w0, objs, roots, table),
        a,
    ) by {
        if a != t {
            assert(forwarded(w, a));
        }
    }
}

/// After a step that copies and forwards an object, every forwarded object
/// has its copy.
#[verifier::rlimit(100)]
pub proof fn lemma_copies_stay<P: PageAlloc>(
    w0: Map<int, u32>,
    objs: Set<int>,
    before: &Space<P>,
    after: &Space<P>,
    roots: int,
    table: int,
    place: Place,
    new: int,
)
    requires
        copy_inv(w0, objs, before, roots, table),
        place_ok(w0, objs, before.page_alloc.words(), roots, place),
        before.page_alloc.words()[place_addr(w0, before.page_alloc.words(), roots, table, place)]
            == place_orig(w0, roots, table, place),
        Value(place_orig(w0, roots, table, place)).spec_is_ptr(),
        !forwarded(
            before.page_alloc.words(),
            Value(place_orig(w0, roots, table, place)).spec_get_ptr(),
        ),
        copied_step(
            w0,
            objs,
            before,
            after,
            Value(place_orig(w0, roots, table, place)).spec_get_ptr(),
            place_addr(w0, before.page_alloc.words(), roots, table, place),
            new,
        ),
    ensures
        forall|a: int|
            #[trigger] objs.contains(a) && forwarded(after.page_alloc.words(), a) ==> Value(
                after.page_alloc.words()[a + 4],
            ).spec_is_ptr() && copy_ok(
                w0,
                objs,
                after,
                a,
                copy_of(after.page_alloc.words(), a),
            ),
{
    let w = before.page_alloc.words();
    let w2 = after.page_alloc.words();
    let loc = place_addr(w0, w, roots, table, place);
    let v0 = place_orig(w0, roots, table, place);
    let t = Value(v0).spec_get_ptr();
    let s = size0(w0, t);
    lemma_place(w0, objs, before, roots, table, place);
    assert(objs.contains(t));
    assert(object_ok(w0, objs, before, t));
    assert(copy_ok(w0, objs, after, t, new)) by {
        assert(in_used(after, after.current_page as int, new, s));
        assert(copied_word(w0, w2, t, new, 0));
        assert forall|k: int| 1 <= k < s implies #[trigger] word_ok(w0, objs, w2, t, new, k) by {
            assert(copied_word(w0, w2, t, new, k));
            if is_field_word(w0, t, k) {
                assert(target_ok(objs, w0[t + 4 * k]));
            }
        }
    }
    assert forall|a: int| #[trigger] objs.contains(a) && forwarded(w2, a) implies Value(
        w2[a + 4],
    ).spec_is_ptr() && copy_ok(w0, objs, after, a, copy_of(w2, a)) by {
        if a != t {
            assert(object_ok(w0, objs, before, a));
            let other = copy_of(w, a);
            assert(forwarded(w, a));
            assert(copy_ok(w0, objs, before, a, other));
            assert forall|k: int| 0 <= k < size0(w0, a) implies #[trigger] touched_ok(
                w0,
                objs,
                w2,
                a,
                other,
                t,
                t + 4,
                loc,
                k,
            ) by {
                let i = choose|i: int| #[trigger] in_used(before, i, other, size0(w0, a));
                lemma_used_mapped(before, i, other, size0(w0, a), k);
                lemma_object_mapped(w0, objs, before, t, 0);
                lemma_object_mapped(w0, objs, before, t, 1);
                before.page_alloc.lemma_live_handle(before.pages@[i]);
                assert(before.start(i) <= other + 4 * k < before.end(i));
                assert(other + 4 * k != t && other + 4 * k != t + 4);
                if other + 4 * k == loc {
                    lemma_touched_word(w0, objs, before, roots, table, place, a, k);
                    assert(v0 == w0[a + 4 * k]);
                    assert(forwarded(w2, t));
                    assert(w2[other + 4 * k] == w2[t + 4]);
                    assert(value_ok(w2, objs, w0[a + 4 * k], w2[other + 4 * k]));
                }
            }
            lemma_copy_stays(w0, objs, before, after, t, t + 4, loc, a);
        }
    }
}

/// After a step that copies and forwards an object, the copies lie apart.
#[verifier::rlimit(50)]
pub proof fn lemma_copies_apart<P: PageAlloc>(
    w0: Map<int, u32>,
    objs: Set<int>,
    before: &Space<P>,
    after: &Space<P>,
    t: int,
    loc: int,
    new: int,
)
    requires
        objs.contains(t),
        !forwarded(before.page_alloc.words(), t),
        2 <= size0(w0, t),
        objects_ok(w0, objs, before),
        copies_ok(w0, objs, before),
        copies_apart(w0, objs, before.page_alloc.words()),
        copied_step(w0, objs, before, after, t, loc, new),
    ensures
        copies_apart(w0, objs, after.page_alloc.words()),
{
    let w = before.page_alloc.words();
    let w2 = after.page_alloc.words();
    let s = size0(w0, t);
    assert forall|a: int, b: int|
        #[trigger] objs.contains(a) && #[trigger] objs.contains(b) && forwarded(w2, a)
            && forwarded(w2, b) && a != b implies copy_of(w2, a) + 4 * size0(w0, a) <= copy_of(
        w2,
        b,
    ) || copy_of(w2, b) + 4 * size0(w0, b) <= copy_of(w2, a) by {
        if a == t || b == t {
            let c = if a == t { b } else { a };
            assert(object_ok(w0, objs, before, c));
            assert(forwarded(w, c));
            let other = copy_of(w, c);
            assert(copy_of(w2, c) == other);
            assert(copy_ok(w0, objs, before, c, other));
            let i = choose|i: int| #[trigger] in_used(before, i, other, size0(w0, c));
            assert forall|x: int| #[trigger] word_of(new, s, x) implies !word_of(
                other,
                size0(w0, c),
                x,
            ) by {
                if word_of(other, size0(w0, c), x) {
                    lemma_used_mapped(before, i, other, size0(w0, c), (x - other) / 4);
                }
            }
            lemma_ranges_apart(new, s, other, size0(w0, c));
        } else {
            assert(forwarded(w, a) && forwarded(w, b));
            assert(copy_of(w2, a) == copy_of(w, a));
            assert(copy_of(w2, b) == copy_of(w, b));
        }
    }
}

/// Word `k` of the copy at `new` is word `k` of the object at `a`.
pub open spec fn copied_word(w0: Map<int, u32>, w: Map<int, u32>, a: int, new: int, k: int) -> bool {
    w[new + 4 * k] == w0[a + 4 * k]
}

/// The words that an allocation hands out are mapped in the memory that it
/// leaves.
pub proof fn lemma_alloc_words_mapped<P: PageAlloc>(
    before: &Space<P>,
    after: &Space<P>,
    n: Words<u32>,
    v: Value,
)
    requires
        before.wf(),
        before.can_alloc_words(n),
        before.alloc_post(after, n, v),
    ensures
        crate::page_alloc::mapped_range(
            before.words_after_alloc(n, v),
            v.spec_get_ptr(),
            v.spec_get_ptr() + 4 * n.0,
        ),
        v.spec_get_ptr() % 4 == 0,
{
    let w = before.page_alloc.words();
    let w1 = before.words_after_alloc(n, v);
    let new = v.spec_get_ptr();
    let cur = before.current_page as int;
    let pa = &before.page_alloc;
    pa.lemma_page_size();
    pa.lemma_live_handle(before.pages@[cur]);
    pa.lemma_live_page(before.start(cur));
    let acur = after.current_page as int;
    after.page_alloc.lemma_live_handle(after.pages@[acur]);
    after.page_alloc.lemma_live_page(after.start(acur));
    assert forall|x: int| new <= x < new + 4 * n.0 && x % 4 == 0 implies #[trigger] w1.dom().contains(
        x,
    ) by {
        if before.fits(n) {
            pa.lemma_page_mapped(before.start(cur), x);
        }
    }
}

/// The copies are where they were after a step that forwards objects only.
pub proof fn lemma_covers_stays(
    w0: Map<int, u32>,
    objs: Set<int>,
    w: Map<int, u32>,
    w2: Map<int, u32>,
    lo: int,
    hi: int,
)
    requires
        forwards_only(w, w2, objs),
        covered_upto(w0, objs, w, lo, hi),
    ensures
        covered_upto(w0, objs, w2, lo, hi),
{
    assert forall|x: int| lo <= x < hi && x % 4 == 0 implies #[trigger] covered(w0, objs, w2, x) by {
        assert(covered(w0, objs, w, x));
        let a = choose|a: int| #[trigger] covers(w0, objs, w, a, x);
        assert(covers(w0, objs, w2, a, x));
    }
}

/// A page that was closed before a step is closed after it, where the step
/// touched neither the filler of the page nor brought a copy to the page.
pub proof fn lemma_closed_stays<P: PageAlloc>(
    w0: Map<int, u32>,
    objs: Set<int>,
    before: &Space<P>,
    after: &Space<P>,
    x1: int,
    x2: int,
    x3: int,
    i: int,
    f: int,
)
    requires
        stepped(before, after, x1, x2, x3),
        forwards_only(before.page_alloc.words(), after.page_alloc.words(), objs),
        0 <= i < before.pages@.len(),
        i != before.current_page,
        closed_at(w0, objs, before, i, f),
        f < before.end(i) ==> x1 != f && x2 != f && x3 != f,
        f + 4 < before.end(i) ==> x1 != f + 4 && x2 != f + 4 && x3 != f + 4,
        forall|a: int, x: int|
            #[trigger] covers(w0, objs, after.page_alloc.words(), a, x) && !covers(
                w0,
                objs,
                before.page_alloc.words(),
                a,
                x,
            ) ==> !(before.start(i) <= x < before.end(i)),
    ensures
        closed_at(w0, objs, after, i, f),
{
    let w = before.page_alloc.words();
    let w2 = after.page_alloc.words();
    let pa = &before.page_alloc;
    assert(after.pages@[i] == before.pages@[i]);
    lemma_covers_stays(w0, objs, w, w2, before.contents_start(i), f);
    pa.lemma_page_size();
    pa.lemma_live_handle(before.pages@[i]);
    pa.lemma_live_page(before.start(i));
    let cur = before.current_page as int;
    pa.lemma_live_handle(before.pages@[cur]);
    pa.lemma_live_page(before.start(cur));
    if f < before.end(i) {
        pa.lemma_page_mapped(before.start(i), f);
        if in_free_area(before, f) {
            lemma_pages_disjoint(before, i, cur, f);
        }
        assert(w2[f] == w[f]);
        if f + 4 < before.end(i) {
            pa.lemma_page_mapped(before.start(i), f + 4);
            if in_free_area(before, f + 4) {
                lemma_pages_disjoint(before, i, cur, f + 4);
            }
            assert(w2[f + 4] == w[f + 4]);
        }
    }
    assert forall|a: int, x: int|
        #[trigger] covers(w0, objs, w2, a, x) && after.start(i) <= x < after.end(i) implies x
        < f by {
        assert(covers(w0, objs, w, a, x));
    }
}

/// A word of a filler of a closed page is no place and no word of an
/// object of the heap.
pub proof fn lemma_filler_apart<P: PageAlloc>(
    w0: Map<int, u32>,
    objs: Set<int>,
    space: &Space<P>,
    roots: int,
    table: int,
    place: Place,
    i: int,
    f: int,
    x: int,
)
    requires
        copy_inv(w0, objs, space, roots, table),
        place_ok(w0, objs, space.page_alloc.words(), roots, place),
        0 <= i < space.pages@.len(),
        closed_at(w0, objs, space, i, f),
        f <= x < space.end(i),
    ensures
        x != place_addr(w0, space.page_alloc.words(), roots, table, place),
        forall|b: int| objs.contains(b) ==> !(b <= x < b + 4 * #[trigger] size0(w0, b)),
{
    let pa = &space.page_alloc;
    let w = pa.words();
    let loc = place_addr(w0, w, roots, table, place);
    pa.lemma_page_size();
    pa.lemma_live_handle(space.pages@[i]);
    pa.lemma_live_page(space.start(i));
    assert forall|b: int| objs.contains(b) implies !(b <= x < b + 4 * #[trigger] size0(w0, b)) by {
        if b <= x < b + 4 * size0(w0, b) {
            assert(object_ok(w0, objs, space, b));
            let k = (x - b) / 4;
            lemma_object_mapped(w0, objs, space, b, k);
            assert(space.start(i) <= b + 4 * k < space.end(i));
        }
    }
    if x == loc {
        match place {
            Place::Root(r) => {
                assert(root_ok(w0, objs, space, roots, table, r));
                pa.lemma_page_mapped_static(space.start(i), loc);
            },
            Place::Table => {
                pa.lemma_page_mapped_static(space.start(i), loc);
            },
            Place::Field(a, k) => {
                assert(covers(w0, objs, w, a, loc));
            },
        }
    }
}

/// The pages stay filled with copies over the evacuation of a place whose
/// object was moved before.
pub proof fn lemma_covered_forward<P: PageAlloc>(
    w0: Map<int, u32>,
    objs: Set<int>,
    before: &Space<P>,
    after: &Space<P>,
    roots: int,
    table: int,
    place: Place,
)
    requires
        copy_inv(w0, objs, before, roots, table),
        place_ok(w0, objs, before.page_alloc.words(), roots, place),
        stepped(
            before,
            after,
            place_addr(w0, before.page_alloc.words(), roots, table, place),
            place_addr(w0, before.page_alloc.words(), roots, table, place),
            place_addr(w0, before.page_alloc.words(), roots, table, place),
        ),
        forwards_only(before.page_alloc.words(), after.page_alloc.words(), objs),
        forall|a: int|
            #[trigger] objs.contains(a) ==> forwarded(after.page_alloc.words(), a) == forwarded(
                before.page_alloc.words(),
                a,
            ),
        after.pages == before.pages,
        after.hp == before.hp,
        after.current_page == before.current_page,
    ensures
        pages_covered(w0, objs, after),
{
    reveal(pages_covered);
    let w = before.page_alloc.words();
    let w2 = after.page_alloc.words();
    let loc = place_addr(w0, w, roots, table, place);
    assert forall|a: int, x: int| #[trigger] covers(w0, objs, w2, a, x) implies covers(
        w0,
        objs,
        w,
        a,
        x,
    ) by {}
    assert forall|i: int| 0 <= i < after.pages@.len() implies #[trigger] page_covered(
        w0,
        objs,
        after,
        i,
    ) by {
        assert(page_covered(w0, objs, before, i));
        if i == before.current_page {
            lemma_covers_stays(w0, objs, w, w2, before.contents_start(i), before.hp as int);
        } else {
            let f = choose|f: int| #[trigger] closed_at(w0, objs, before, i, f);
            if f < before.end(i) {
                lemma_filler_apart(w0, objs, before, roots, table, place, i, f, f);
            }
            if f + 4 < before.end(i) {
                lemma_filler_apart(w0, objs, before, roots, table, place, i, f, f + 4);
            }
            lemma_closed_stays(w0, objs, before, after, loc, loc, loc, i, f);
        }
    }
}

/// The pages stay filled with copies over a step that copies and forwards
/// an object.
#[verifier::rlimit(100)]
pub proof fn lemma_covered_copy<P: PageAlloc>(
    w0: Map<int, u32>,
    objs: Set<int>,
    before: &Space<P>,
    after: &Space<P>,
    roots: int,
    table: int,
    place: Place,
    t: int,
    new: int,
)
    requires
        copy_inv(w0, objs, before, roots, table),
        place_ok(w0, objs, before.page_alloc.words(), roots, place),
        objs.contains(t),
        !forwarded(before.page_alloc.words(), t),
        copied_step(
            w0,
            objs,
            before,
            after,
            t,
            place_addr(w0, before.page_alloc.words(), roots, table, place),
            new,
        ),
        page_left(before, after),
    ensures
        pages_covered(w0, objs, after),
{
    reveal(pages_covered);
    let w = before.page_alloc.words();
    let w2 = after.page_alloc.words();
    let loc = place_addr(w0, w, roots, table, place);
    let s = size0(w0, t);
    let cur = before.current_page as int;
    let acur = after.current_page as int;
    let pa = &before.page_alloc;
    assert(object_ok(w0, objs, before, t));
    pa.lemma_page_size();
    pa.lemma_live_handle(before.pages@[cur]);
    pa.lemma_live_page(before.start(cur));
    after.page_alloc.lemma_live_handle(after.pages@[acur]);
    after.page_alloc.lemma_live_page(after.start(acur));
    // the copies are the copies that were there, and the new one
    assert forall|a: int, x: int| #[trigger] covers(w0, objs, w2, a, x) implies covers(
        w0,
        objs,
        w,
        a,
        x,
    ) || (a == t && new <= x < new + 4 * s) by {}
    assert forall|i: int| 0 <= i < after.pages@.len() implies #[trigger] page_covered(
        w0,
        objs,
        after,
        i,
    ) by {
        if i < before.pages@.len() {
            assert(after.pages@[i] == before.pages@[i]);
            assert(page_covered(w0, objs, before, i));
        }
        if i == acur {
            // the current page
            assert forall|x: int|
                after.contents_start(i) <= x < after.hp && x % 4 == 0 implies #[trigger] covered(
                w0,
                objs,
                w2,
                x,
            ) by {
                if new <= x {
                    assert(covers(w0, objs, w2, t, x));
                } else {
                    assert(covered(w0, objs, w, x));
                    let a = choose|a: int| #[trigger] covers(w0, objs, w, a, x);
                    assert(covers(w0, objs, w2, a, x));
                }
            }
        } else if i == cur {
            // the page that was left behind
            let f = before.hp as int;
            lemma_covers_stays(w0, objs, w, w2, before.contents_start(i), f);
            assert forall|a: int, x: int|
                #[trigger] covers(w0, objs, w2, a, x) && after.start(i) <= x < after.end(
                    i,
                ) implies x < f by {
                if a == t && new <= x < new + 4 * s {
                    lemma_pages_disjoint(after, i, acur, x);
                } else {
                    assert(copy_ok(w0, objs, before, a, copy_of(w, a)));
                    let j = choose|j: int| #[trigger] in_used(before, j, copy_of(w, a), size0(w0, a));
                    pa.lemma_live_handle(before.pages@[j]);
                    pa.lemma_live_page(before.start(j));
                    lemma_pages_disjoint(before, i, j, x);
                }
            }
            assert(closed_at(w0, objs, after, i, f));
        } else {
            let f = choose|f: int| #[trigger] closed_at(w0, objs, before, i, f);
            if f < before.end(i) {
                lemma_filler_apart(w0, objs, before, roots, table, place, i, f, f);
            }
            if f + 4 < before.end(i) {
                lemma_filler_apart(w0, objs, before, roots, table, place, i, f, f + 4);
            }
            assert forall|a: int, x: int|
                #[trigger] covers(w0, objs, w2, a, x) && !covers(w0, objs, w, a, x) implies !(
            before.start(i) <= x < before.end(i)) by {
                if before.start(i) <= x < before.end(i) {
                    assert(a == t && new <= x < new + 4 * s);
                    lemma_pages_disjoint(after, i, acur, x);
                }
            }
            lemma_object_mapped(w0, objs, before, t, 0);
            lemma_object_mapped(w0, objs, before, t, 1);
            lemma_closed_stays(w0, objs, before, after, t, t + 4, loc, i, f);
        }
    }
}

/// Whether the word at `ptr_loc` is a place of the heap that holds a
/// pointer, as it was before the collection: a place that is to be
/// evacuated.
pub open spec fn evac_ready<P: PageAlloc>(
    w0: Map<int, u32>,
    objs: Set<int>,
    space: &Space<P>,
    roots: int,
    table: int,
    place: Place,
    ptr_loc: int,
) -> bool {
    let w = space.page_alloc.words();
    &&& copy_inv(w0, objs, space, roots, table)
    &&& place_ok(w0, objs, w, roots, place)
    &&& place_addr(w0, w, roots, table, place) == ptr_loc
    &&& w[ptr_loc] == place_orig(w0, roots, table, place)
    &&& Value(place_orig(w0, roots, table, place)).spec_is_ptr()
}

/// What the evacuation of a place leaves: the invariant holds, the place
/// holds the address of the copy of the object that it pointed to, and
/// nothing was touched but the place, the first two words of that object and
/// words of the free area.
pub open spec fn evac_done<P: PageAlloc>(
    w0: Map<int, u32>,
    objs: Set<int>,
    before: &Space<P>,
    after: &Space<P>,
    roots: int,
    table: int,
    place: Place,
) -> bool {
    let w = before.page_alloc.words();
    let w2 = after.page_alloc.words();
    let loc = place_addr(w0, w, roots, table, place);
    let t = Value(place_orig(w0, roots, table, place)).spec_get_ptr();
    &&& copy_inv(w0, objs, after, roots, table)
    &&& forwards_only(w, w2, objs)
    &&& stepped(before, after, t, t + 4, loc)
    &&& place_ok(w0, objs, w2, roots, place)
    &&& place_addr(w0, w2, roots, table, place) == loc
    &&& value_done(w2, objs, place_orig(w0, roots, table, place), w2[loc])
    &&& forall|a: int|
        #[trigger] objs.contains(a) && a != t ==> forwarded(w2, a) == forwarded(w, a)
    &&& !forwarded(w, t) ==> fresh(w0, w2, t) && !used_word(before, copy_of(w2, t))
}

/// The evacuation of a place of a well-formed heap succeeds, and leaves
/// the heap well formed and the place with the address of the copy of the
/// object that it pointed to.
pub proof fn lemma_evac<P: PageAlloc>(
    w0: Map<int, u32>,
    objs: Set<int>,
    before: &Space<P>,
    after: &Space<P>,
    roots: int,
    table: int,
    place: Place,
    ptr_loc: int,
)
    requires
        evac_ready(w0, objs, before, roots, table, place, ptr_loc),
        evac_outcome(before, ptr_loc) is Ok ==> evac_post(before, after, ptr_loc),
        after.page_alloc.wf(),
    ensures
        evac_outcome(before, ptr_loc) is Ok,
        evac_done(w0, objs, before, after, roots, table, place),
{
    let w = before.page_alloc.words();
    let w2 = after.page_alloc.words();
    let t = Value(place_orig(w0, roots, table, place)).spec_get_ptr();
    lemma_evac_succeeds(w0, objs, before, roots, table, place);
    lemma_place(w0, objs, before, roots, table, place);
    if forwarded(w, t) {
        lemma_evac_forward(w0, objs, before, after, roots, table, place);
    } else {
        lemma_copy_transition(w0, objs, before, after, roots, table, place);
        lemma_page_left(w0, objs, before, after, roots, table, place);
        let new = Value(w2[ptr_loc]).spec_get_ptr();
        lemma_copy_keeps_inv(w0, objs, before, after, roots, table, place, new);
        match place {
            Place::Field(a, k) => {
                assert(a != t);
            },
            _ => {},
        }
        assert(fresh(w0, w2, t));
        lemma_new_copy_unused(before, after, new, size0(w0, t));
    }
}

/// A copy that was made lies where no word was in use.
pub proof fn lemma_new_copy_unused<P: PageAlloc>(
    before: &Space<P>,
    after: &Space<P>,
    new: int,
    s: int,
)
    requires
        before.wf(),
        after.wf(),
        s >= 1,
        new % 4 == 0,
        in_used(after, after.current_page as int, new, s),
        forall|i: int| 0 <= i < before.pages@.len() ==> #[trigger] after.pages@[i] == before.pages@[i],
        after.pages@.len() >= before.pages@.len(),
        same_config(&before.page_alloc, &after.page_alloc),
        copied_shape(before, after, new, s),
    ensures
        !used_word(before, new),
{
    if used_word(before, new) {
        let i = choose|i: int| #[trigger] in_used(before, i, new, 1);
        let acur = after.current_page as int;
        assert(after.pages@[i] == before.pages@[i]);
        lemma_pages_disjoint(after, i, acur, new);
    }
}

/// An object whose fields the collection visits: a root box, or the copy
/// of an object.
pub enum Target {
    /// Root box `i`
    Root(int),
    /// The copy of the object at the given address
    Copy(int),
}

/// Whether `target` is an object of the heap whose fields can be visited.
pub open spec fn visit_ok(
    w0: Map<int, u32>,
    objs: Set<int>,
    w: Map<int, u32>,
    roots: int,
    target: Target,
) -> bool {
    match target {
        Target::Root(i) => 0 <= i < w0[roots + 4],
        Target::Copy(a) => objs.contains(a) && forwarded(w, a),
    }
}

/// The address of a target.
pub open spec fn target_addr(w0: Map<int, u32>, w: Map<int, u32>, roots: int, target: Target) -> int {
    match target {
        Target::Root(i) => root_box(w0, roots, i),
        Target::Copy(a) => copy_of(w, a),
    }
}

/// The index of the word of a target that is its first pointer field.
pub open spec fn target_first(w0: Map<int, u32>, target: Target) -> int {
    match target {
        Target::Root(_) => 1,
        Target::Copy(a) => field_offset(w0[a]),
    }
}

/// The number of pointer fields of a target.
pub open spec fn target_count(w0: Map<int, u32>, target: Target) -> int {
    match target {
        Target::Root(_) => 1,
        Target::Copy(a) => field_count(w0[a], length_word(w0, a, w0[a])),
    }
}

/// The place that is pointer field `m` of a target.
pub open spec fn target_place(w0: Map<int, u32>, target: Target, m: int) -> Place {
    match target {
        Target::Root(i) => Place::Root(i),
        Target::Copy(a) => Place::Field(a, field_offset(w0[a]) + m),
    }
}

/// Pointer field `m` of a target holds the final value where it is one of
/// the first `j` fields, and else what it held before the collection.
pub open spec fn field_state(
    w0: Map<int, u32>,
    objs: Set<int>,
    w: Map<int, u32>,
    roots: int,
    table: int,
    target: Target,
    j: int,
    m: int,
) -> bool {
    let place = target_place(w0, target, m);
    let loc = place_addr(w0, w, roots, table, place);
    let v0 = place_orig(w0, roots, table, place);
    if m < j {
        value_done(w, objs, v0, w[loc])
    } else {
        w[loc] == v0
    }
}

/// The first `j` pointer fields of a target hold their final values, and
/// the others what they held before the collection.
pub open spec fn fields_state(
    w0: Map<int, u32>,
    objs: Set<int>,
    w: Map<int, u32>,
    roots: int,
    table: int,
    target: Target,
    j: int,
) -> bool {
    forall|m: int|
        0 <= m < target_count(w0, target) ==> #[trigger] field_state(
            w0,
            objs,
            w,
            roots,
            table,
            target,
            j,
            m,
        )
}

/// Whether the byte address `x` lies below the allocation pointer in a
/// page of the space, or in a page that is closed.
pub open spec fn used_word<P: PageAlloc>(space: &Space<P>, x: int) -> bool {
    exists|i: int| #[trigger] in_used(space, i, x, 1)
}

/// The words of the copy of the object at `b` are in `w2` what they are in
/// `w`.
pub open spec fn copy_same(w0: Map<int, u32>, w: Map<int, u32>, w2: Map<int, u32>, b: int) -> bool {
    forall|k: int|
        0 <= k < size0(w0, b) ==> #[trigger] w2[copy_of(w, b) + 4 * k] == w[copy_of(w, b) + 4 * k]
}

/// The copy of the object at `b` is as it was made: its words are those of
/// the object.
pub open spec fn fresh(w0: Map<int, u32>, w: Map<int, u32>, b: int) -> bool {
    forall|k: int| 0 <= k < size0(w0, b) ==> #[trigger] copied_word(w0, w, b, copy_of(w, b), k)
}

/// What has become of the copy of the object at `b` while a target was
/// visited: a copy that was there is as it was, and a copy that was made
/// since is as it was made and lies where no copy lay.
pub open spec fn other_ok<P: PageAlloc>(
    w0: Map<int, u32>,
    before: &Space<P>,
    after: &Space<P>,
    b: int,
) -> bool {
    let w = before.page_alloc.words();
    let w2 = after.page_alloc.words();
    if forwarded(w, b) {
        copy_same(w0, w, w2, b)
    } else {
        fresh(w0, w2, b) && !used_word(before, copy_of(w2, b))
    }
}

/// What the visit of a target keeps: forwarded objects stay forwarded, the
/// copies other than the target are as they were or as they were made, the
/// used part of the space stays used, and the fields of the root boxes other
/// than the target and the continuation table are as they were.
pub open spec fn scav_kept<P: PageAlloc>(
    w0: Map<int, u32>,
    objs: Set<int>,
    before: &Space<P>,
    after: &Space<P>,
    roots: int,
    table: int,
    target: Target,
) -> bool {
    let w = before.page_alloc.words();
    let w2 = after.page_alloc.words();
    &&& forwards_only(w, w2, objs)
    &&& forall|b: int|
        #[trigger] objs.contains(b) && forwarded(w2, b) && Target::Copy(b) != target ==> other_ok(
            w0,
            before,
            after,
            b,
        )
    &&& forall|x: int| #[trigger] used_word(before, x) ==> used_word(after, x)
    &&& forall|i: int|
        #![trigger root_box(w0, roots, i)]
        0 <= i < w0[roots + 4] && root_box(w0, roots, i) != target_addr(w0, w, roots, target)
            ==> w2[root_box(w0, roots, i) + 4] == w[root_box(w0, roots, i) + 4]
    &&& w2[table] == w[table]
}

/// The state of the visit of a target after `j` of its fields: the
/// invariant holds, and the fields of the target are in their states.
pub open spec fn scav_mid<P: PageAlloc>(
    w0: Map<int, u32>,
    objs: Set<int>,
    space: &Space<P>,
    roots: int,
    table: int,
    target: Target,
    j: int,
) -> bool {
    let w = space.page_alloc.words();
    &&& copy_inv(w0, objs, space, roots, table)
    &&& visit_ok(w0, objs, w, roots, target)
    &&& 0 <= j <= target_count(w0, target)
    &&& fields_state(w0, objs, w, roots, table, target, j)
}

/// Whether the object at `obj` is a target none of whose fields was
/// visited.
pub open spec fn scav_ready<P: PageAlloc>(
    w0: Map<int, u32>,
    objs: Set<int>,
    space: &Space<P>,
    roots: int,
    table: int,
    target: Target,
    obj: int,
) -> bool {
    &&& scav_mid(w0, objs, space, roots, table, target, 0)
    &&& obj == target_addr(w0, space.page_alloc.words(), roots, target)
}

/// What the collection reads of a target: its tag and its pointer fields,
/// which are those of the object that it is a copy of.
pub proof fn lemma_target_shape<P: PageAlloc>(
    w0: Map<int, u32>,
    objs: Set<int>,
    space: &Space<P>,
    roots: int,
    table: int,
    target: Target,
)
    requires
        copy_inv(w0, objs, space, roots, table),
        visit_ok(w0, objs, space.page_alloc.words(), roots, target),
    ensures
        ({
            let w = space.page_alloc.words();
            let obj = target_addr(w0, w, roots, target);
            &&& w.dom().contains(obj)
            &&& 0 <= obj
            &&& 0 <= target_count(w0, target)
            &&& obj + 4 * target_first(w0, target) + 4 * target_count(w0, target) <= 0xffff_ffff
            &&& spec_pointer_fields(w, obj, w[obj]) == Ok::<(usize, u32), Trap>(
                (
                    (obj + 4 * target_first(w0, target)) as usize,
                    target_count(w0, target) as u32,
                ),
            )
            &&& forall|m: int|
                0 <= m < target_count(w0, target) ==> #[trigger] place_ok(
                    w0,
                    objs,
                    w,
                    roots,
                    target_place(w0, target, m),
                ) && place_addr(w0, w, roots, table, target_place(w0, target, m)) == obj + 4
                    * target_first(w0, target) + 4 * m
            &&& match target {
                Target::Copy(a) => spec_object_size(w, obj) == spec_object_size(w0, a),
                Target::Root(_) => true,
            }
        }),
{
    let pa = &space.page_alloc;
    let w = pa.words();
    let obj = target_addr(w0, w, roots, target);
    match target {
        Target::Root(i) => {
            assert(root_ok(w0, objs, space, roots, table, i));
            assert(frame_of(w0, roots, obj, i));
            assert(root_frame(w0, roots, obj));
            pa.lemma_mapped(obj);
            pa.lemma_mapped(obj + 4);
        },
        Target::Copy(a) => {
            let s = size0(w0, a);
            assert(object_ok(w0, objs, space, a));
            assert(copy_ok(w0, objs, space, a, obj));
            let i = choose|i: int| #[trigger] in_used(space, i, obj, s);
            lemma_used_mapped(space, i, obj, s, 0);
            lemma_used_mapped(space, i, obj, s, 1);
            lemma_used_mapped(space, i, obj, s, s - 1);
            let tag = w0[a];
            crate::object::lemma_fields_in_object(tag, length_word(w0, a, tag));
            assert(w0.dom().contains(a + 4 * 1));
            assert(word_ok(w0, objs, w, a, obj, 1));
            if length_offset(tag) == 4 {
                assert(!is_field_word(w0, a, 1));
                assert(w[obj + 4] == w0[a + 4]);
            }
            if length_offset(tag) == 8 {
                assert(3 <= s);
                lemma_used_mapped(space, i, obj, s, 2);
                assert(w0.dom().contains(a + 4 * 2));
                assert(word_ok(w0, objs, w, a, obj, 2));
                assert(!is_field_word(w0, a, 2));
                assert(w[obj + 8] == w0[a + 8]);
            }
            assert(length_word(w, obj, tag) == length_word(w0, a, tag));
            assert(spec_object_size_(w, obj, tag) == spec_object_size_(w0, a, tag));
        },
    }
}

/// A word of a copy or of a root that is no word of the place that is
/// evacuated stays as it is over the evacuation.
pub proof fn lemma_evac_keeps_word<P: PageAlloc>(
    w0: Map<int, u32>,
    objs: Set<int>,
    before: &Space<P>,
    after: &Space<P>,
    roots: int,
    table: int,
    place: Place,
    x: int,
)
    requires
        copy_inv(w0, objs, before, roots, table),
        place_ok(w0, objs, before.page_alloc.words(), roots, place),
        Value(place_orig(w0, roots, table, place)).spec_is_ptr(),
        evac_done(w0, objs, before, after, roots, table, place),
        x != place_addr(w0, before.page_alloc.words(), roots, table, place),
        before.page_alloc.words().dom().contains(x),
        before.page_alloc.is_static(x) || used_word(before, x),
    ensures
        after.page_alloc.words()[x] == before.page_alloc.words()[x],
{
    let pa = &before.page_alloc;
    let w = pa.words();
    let t = Value(place_orig(w0, roots, table, place)).spec_get_ptr();
    let cur = before.current_page as int;
    lemma_place(w0, objs, before, roots, table, place);
    assert(objs.contains(t));
    assert(object_ok(w0, objs, before, t));
    lemma_object_mapped(w0, objs, before, t, 0);
    lemma_object_mapped(w0, objs, before, t, 1);
    pa.lemma_page_size();
    pa.lemma_live_handle(before.pages@[cur]);
    pa.lemma_live_page(before.start(cur));
    pa.lemma_mapped(x);
    if pa.is_static(x) {
        pa.lemma_page_mapped_static(before.start(cur), x);
    } else {
        let i = choose|i: int| #[trigger] in_used(before, i, x, 1);
        lemma_used_mapped(before, i, x, 1, 0);
        pa.lemma_live_handle(before.pages@[i]);
        assert(before.start(i) <= x < before.end(i));
    }
}

/// One step of the visit of a target: the next field is evacuated where
/// it holds a pointer, and left alone where it does not.
#[verifier::rlimit(100)]
pub proof fn lemma_scav_step<P: PageAlloc>(
    w0: Map<int, u32>,
    objs: Set<int>,
    start: &Space<P>,
    before: &Space<P>,
    after: &Space<P>,
    roots: int,
    table: int,
    target: Target,
    j: int,
)
    requires
        visit_ok(w0, objs, start.page_alloc.words(), roots, target),
        scav_mid(w0, objs, before, roots, table, target, j),
        j < target_count(w0, target),
        scav_kept(w0, objs, start, before, roots, table, target),
        ({
            let w = before.page_alloc.words();
            let place = target_place(w0, target, j);
            let loc = place_addr(w0, w, roots, table, place);
            if Value(w[loc]).spec_is_ptr() {
                evac_done(w0, objs, before, after, roots, table, place)
            } else {
                after == before
            }
        }),
    ensures
        scav_mid(w0, objs, after, roots, table, target, j + 1),
        scav_kept(w0, objs, start, after, roots, table, target),
{
    let w = before.page_alloc.words();
    let w2 = after.page_alloc.words();
    let ws = start.page_alloc.words();
    let place = target_place(w0, target, j);
    let loc = place_addr(w0, w, roots, table, place);
    let v0 = place_orig(w0, roots, table, place);
    lemma_target_shape(w0, objs, before, roots, table, target);
    assert(place_ok(w0, objs, w, roots, place));
    assert(field_state(w0, objs, w, roots, table, target, j, j));
    assert(w[loc] == v0);
    if !Value(w[loc]).spec_is_ptr() {
        assert forall|m: int| 0 <= m < target_count(w0, target) implies #[trigger] field_state(
            w0,
            objs,
            w2,
            roots,
            table,
            target,
            j + 1,
            m,
        ) by {
            assert(field_state(w0, objs, w, roots, table, target, j, m));
        }
    } else {
        let t = Value(v0).spec_get_ptr();
        lemma_place(w0, objs, before, roots, table, place);
        assert forall|m: int| 0 <= m < target_count(w0, target) implies #[trigger] field_state(
            w0,
            objs,
            w2,
            roots,
            table,
            target,
            j + 1,
            m,
        ) by {
            assert(field_state(w0, objs, w, roots, table, target, j, m));
            let pm = target_place(w0, target, m);
            let lm = place_addr(w0, w, roots, table, pm);
            assert(place_ok(w0, objs, w, roots, pm));
            assert(place_addr(w0, w2, roots, table, pm) == lm);
            if m != j {
                lemma_place(w0, objs, before, roots, table, pm);
                lemma_place_used(w0, objs, before, roots, table, pm);
                lemma_evac_keeps_word(w0, objs, before, after, roots, table, place, lm);
                lemma_value_stays(w, w2, objs, place_orig(w0, roots, table, pm), w[lm]);
            }
        }
        lemma_scav_kept_step(w0, objs, start, before, after, roots, table, target, j);
    }
}

/// A place is a static word or a word in the used part of the space.
pub proof fn lemma_place_used<P: PageAlloc>(
    w0: Map<int, u32>,
    objs: Set<int>,
    space: &Space<P>,
    roots: int,
    table: int,
    place: Place,
)
    requires
        copy_inv(w0, objs, space, roots, table),
        place_ok(w0, objs, space.page_alloc.words(), roots, place),
    ensures
        space.page_alloc.is_static(place_addr(w0, space.page_alloc.words(), roots, table, place))
            || used_word(
            space,
            place_addr(w0, space.page_alloc.words(), roots, table, place),
        ),
{
    let w = space.page_alloc.words();
    match place {
        Place::Root(i) => {
            assert(root_ok(w0, objs, space, roots, table, i));
        },
        Place::Table => {},
        Place::Field(a, k) => {
            let new = copy_of(w, a);
            assert(copy_ok(w0, objs, space, a, new));
            let i = choose|i: int| #[trigger] in_used(space, i, new, size0(w0, a));
            assert(in_used(space, i, new + 4 * k, 1));
        },
    }
}

/// Word `k` from `c` on is in `w2` what it is in `w`.
pub open spec fn same_word(w: Map<int, u32>, w2: Map<int, u32>, c: int, k: int) -> bool {
    w2[c + 4 * k] == w[c + 4 * k]
}

/// What the visit of a target keeps is kept over the evacuation of its
/// next field.
#[verifier::rlimit(100)]
pub proof fn lemma_scav_kept_step<P: PageAlloc>(
    w0: Map<int, u32>,
    objs: Set<int>,
    start: &Space<P>,
    before: &Space<P>,
    after: &Space<P>,
    roots: int,
    table: int,
    target: Target,
    j: int,
)
    requires
        visit_ok(w0, objs, start.page_alloc.words(), roots, target),
        scav_mid(w0, objs, before, roots, table, target, j),
        j < target_count(w0, target),
        scav_kept(w0, objs, start, before, roots, table, target),
        Value(place_orig(w0, roots, table, target_place(w0, target, j))).spec_is_ptr(),
        evac_done(w0, objs, before, after, roots, table, target_place(w0, target, j)),
    ensures
        scav_kept(w0, objs, start, after, roots, table, target),
{
    let w = before.page_alloc.words();
    let w2 = after.page_alloc.words();
    let ws = start.page_alloc.words();
    let place = target_place(w0, target, j);
    let loc = place_addr(w0, w, roots, table, place);
    let v0 = place_orig(w0, roots, table, place);
    let t = Value(v0).spec_get_ptr();
    lemma_target_shape(w0, objs, before, roots, table, target);
    assert(place_ok(w0, objs, w, roots, place));
    lemma_place(w0, objs, before, roots, table, place);
    assert(forwards_only(ws, w2, objs));
    assert forall|x: int| #[trigger] used_word(start, x) implies used_word(after, x) by {
        assert(used_word(before, x));
        let i = choose|i: int| #[trigger] in_used(before, i, x, 1);
        lemma_used_stays(before, after, t, t + 4, loc, i, x, 1);
    }
    assert forall|b: int|
        #[trigger] objs.contains(b) && forwarded(w2, b) && Target::Copy(b) != target implies other_ok(
        w0,
        start,
        after,
        b,
    ) by {
        if forwarded(w, b) {
            assert(other_ok(w0, start, before, b));
            let c = copy_of(w, b);
            assert(copy_ok(w0, objs, before, b, c));
            let i = choose|i: int| #[trigger] in_used(before, i, c, size0(w0, b));
            assert forall|k: int| 0 <= k < size0(w0, b) implies #[trigger] same_word(
                w,
                w2,
                c,
                k,
            ) by {
                lemma_used_mapped(before, i, c, size0(w0, b), k);
                assert(in_used(before, i, c + 4 * k, 1));
                if c + 4 * k == loc {
                    lemma_touched_word(w0, objs, before, roots, table, place, b, k);
                }
                lemma_evac_keeps_word(w0, objs, before, after, roots, table, place, c + 4 * k);
            }
            if forwarded(ws, b) {
                assert forall|k: int| 0 <= k < size0(w0, b) implies #[trigger] w2[copy_of(ws, b)
                    + 4 * k] == ws[copy_of(ws, b) + 4 * k] by {
                    assert(w[copy_of(ws, b) + 4 * k] == ws[copy_of(ws, b) + 4 * k]);
                    assert(same_word(w, w2, c, k));
                }
            } else {
                assert forall|k: int| 0 <= k < size0(w0, b) implies #[trigger] copied_word(
                    w0,
                    w2,
                    b,
                    copy_of(w2, b),
                    k,
                ) by {
                    assert(copied_word(w0, w, b, c, k));
                    assert(same_word(w, w2, c, k));
                }
            }
        } else {
            assert(b == t);
            if used_word(start, copy_of(w2, b)) {
                assert(used_word(before, copy_of(w2, b)));
            }
        }
    }
    assert forall|i: int|
        #![trigger root_box(w0, roots, i)]
        0 <= i < w0[roots + 4] && root_box(w0, roots, i) != target_addr(
            w0,
            ws,
            roots,
            target,
        ) implies w2[root_box(w0, roots, i) + 4] == ws[root_box(w0, roots, i) + 4] by {
        let b = root_box(w0, roots, i);
        assert(root_ok(w0, objs, before, roots, table, i));
        assert(w[b + 4] == ws[b + 4]);
        if b + 4 == loc {
            lemma_place_is_root(w0, objs, before, roots, table, place);
            match target {
                Target::Root(r) => {},
                Target::Copy(a) => {
                    lemma_place_used(w0, objs, before, roots, table, place);
                    let c = copy_of(w, a);
                    assert(copy_ok(w0, objs, before, a, c));
                    let p = choose|p: int| #[trigger] in_used(before, p, c, size0(w0, a));
                    lemma_used_mapped(before, p, c, size0(w0, a), field_offset(w0[a]) + j);
                },
            }
        } else {
            lemma_evac_keeps_word(w0, objs, before, after, roots, table, place, b + 4);
        }
    }
    assert(w2[table] == ws[table]) by {
        if table == loc {
            match target {
                Target::Root(r) => {
                    assert(root_ok(w0, objs, before, roots, table, r));
                },
                Target::Copy(a) => {
                    let c = copy_of(w, a);
                    assert(copy_ok(w0, objs, before, a, c));
                    let p = choose|p: int| #[trigger] in_used(before, p, c, size0(w0, a));
                    lemma_used_mapped(before, p, c, size0(w0, a), field_offset(w0[a]) + j);
                },
            }
        } else {
            lemma_evac_keeps_word(w0, objs, before, after, roots, table, place, table);
        }
    }
}

/// Whether the object at `obj` has no pointer fields.
pub open spec fn no_fields(w: Map<int, u32>, obj: int) -> bool {
    w.dom().contains(obj) && spec_pointer_fields(w, obj, w[obj]) is Ok && spec_pointer_fields(
        w,
        obj,
        w[obj],
    )->Ok_0.1 == 0
}

/// The state of the visit of the target at `obj` after `j` of its fields.
pub open spec fn scav_at<P: PageAlloc>(
    w0: Map<int, u32>,
    objs: Set<int>,
    start: &Space<P>,
    space: &Space<P>,
    roots: int,
    table: int,
    target: Target,
    obj: int,
    j: int,
) -> bool {
    let ws = start.page_alloc.words();
    &&& visit_ok(w0, objs, ws, roots, target)
    &&& obj == target_addr(w0, ws, roots, target)
    &&& ws.dom().contains(obj)
    &&& spec_pointer_fields(ws, obj, ws[obj]) == Ok::<(usize, u32), Trap>(
        ((obj + 4 * target_first(w0, target)) as usize, target_count(w0, target) as u32),
    )
    &&& 0 <= obj
    &&& obj + 4 * target_first(w0, target) + 4 * target_count(w0, target) <= 0xffff_ffff
    &&& scav_mid(w0, objs, space, roots, table, target, j)
    &&& scav_kept(w0, objs, start, space, roots, table, target)
}

/// Nothing was touched where nothing was done.
pub proof fn lemma_scav_kept_refl<P: PageAlloc>(
    w0: Map<int, u32>,
    objs: Set<int>,
    space: &Space<P>,
    roots: int,
    table: int,
    target: Target,
)
    requires
        copy_inv(w0, objs, space, roots, table),
    ensures
        scav_kept(w0, objs, space, space, roots, table, target),
{
}

/// The next field of a target that is visited is a place of the heap, which
/// is mapped and holds what it held before the collection.
pub proof fn lemma_scav_field<P: PageAlloc>(
    w0: Map<int, u32>,
    objs: Set<int>,
    start: &Space<P>,
    space: &Space<P>,
    roots: int,
    table: int,
    target: Target,
    obj: int,
    j: int,
)
    requires
        scav_at(w0, objs, start, space, roots, table, target, obj, j),
        j < target_count(w0, target),
    ensures
        ({
            let w = space.page_alloc.words();
            let place = target_place(w0, target, j);
            let loc = obj + 4 * target_first(w0, target) + 4 * j;
            &&& place_ok(w0, objs, w, roots, place)
            &&& place_addr(w0, w, roots, table, place) == loc
            &&& w.dom().contains(loc)
            &&& w[loc] == place_orig(w0, roots, table, place)
            &&& copy_inv(w0, objs, space, roots, table)
        }),
{
    let w = space.page_alloc.words();
    let place = target_place(w0, target, j);
    lemma_target_shape(w0, objs, space, roots, table, target);
    assert(place_ok(w0, objs, w, roots, place));
    lemma_place(w0, objs, space, roots, table, place);
    assert(field_state(w0, objs, w, roots, table, target, j, j));
}

} // verus!
