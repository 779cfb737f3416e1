//! The state of a copying collection between the visits of two objects, and
//! what follows from the invariant once every copy was visited.
//!
//! The collection visits the root boxes, the continuation table, and then
//! the copies in the order in which they were made, page by page.  A copy
//! that lies before the position of the scan has its final fields; a copy
//! that lies behind it has the fields of the object that it was made from.
use vstd::prelude::*;
use crate::gc::copying::wellformed::{
    frame_of, closed_at, copy_inv, copy_of, copy_ok, covered, covers, evac_done, fields_state, field_state,
    forwarded, forwards_only, fresh, in_used, lemma_evac_keeps_word, lemma_place,
    lemma_place_used, lemma_target_shape, lemma_used_mapped, lemma_value_stays, object_ok,
    other_ok, page_covered, pages_covered, place_addr, place_ok, place_orig, root_box, root_ok,
    scav_kept, scav_mid, scav_ready, size0, target_addr, target_count, target_first, target_place,
    used_word, value_done, visit_ok, copied_word, copy_same, Place, Target,
};
use crate::gc::gc_frame;
use crate::object::{field_offset, spec_object_size, spec_pointer_fields, Trap};
use crate::page_alloc::{PageAlloc, WordMemory, PAGE_HEADER_SIZE};
use crate::space::{lemma_pages_disjoint, Space};
use crate::types::{Value, Words, TAG_FREE_SPACE, TAG_ONE_WORD_FILLER};

verus! {

/// Whether the byte address `x` lies in the page at position `j` of the
/// space.
pub open spec fn in_page<P: PageAlloc>(space: &Space<P>, j: int, x: int) -> bool {
    0 <= j < space.pages@.len() && space.start(j) <= x < space.end(j)
}

/// Whether the address `c` lies before the position of the scan: in a page
/// before the page at position `si`, or in that page below `sp`.
pub open spec fn before_scan<P: PageAlloc>(space: &Space<P>, si: int, sp: int, c: int) -> bool {
    exists|j: int| #[trigger] in_page(space, j, c) && (j < si || (j == si && c < sp))
}

/// The copy of the object at `a` has its final fields where it lies before
/// the position of the scan, and else the fields of the object.
pub open spec fn copy_state<P: PageAlloc>(
    w0: Map<int, u32>,
    objs: Set<int>,
    space: &Space<P>,
    roots: int,
    table: int,
    si: int,
    sp: int,
    a: int,
) -> bool {
    let w = space.page_alloc.words();
    fields_state(
        w0,
        objs,
        w,
        roots,
        table,
        Target::Copy(a),
        if before_scan(space, si, sp, copy_of(w, a)) {
            target_count(w0, Target::Copy(a))
        } else {
            0
        },
    )
}

/// Root box `i` has its final field where it is one of the first `nd`, and
/// else the field that it had.
pub open spec fn root_state(
    w0: Map<int, u32>,
    objs: Set<int>,
    w: Map<int, u32>,
    roots: int,
    table: int,
    nd: int,
    i: int,
) -> bool {
    fields_state(
        w0,
        objs,
        w,
        roots,
        table,
        Target::Root(i),
        if i < nd {
            1
        } else {
            0
        },
    )
}

/// The first `nd` root boxes have their final fields, and the others the
/// fields that they had.
pub open spec fn roots_state(
    w0: Map<int, u32>,
    objs: Set<int>,
    w: Map<int, u32>,
    roots: int,
    table: int,
    nd: int,
) -> bool {
    forall|i: int|
        0 <= i < w0[roots + 4] ==> #[trigger] root_state(w0, objs, w, roots, table, nd, i)
}

/// No root box is in the array of roots twice.
pub open spec fn roots_distinct(w0: Map<int, u32>, roots: int) -> bool {
    forall|i: int, j: int|
        0 <= i < j < w0[roots + 4] ==> #[trigger] root_box(w0, roots, i) != #[trigger] root_box(
            w0,
            roots,
            j,
        )
}

/// Whether every copy has the state that its position calls for.
pub open spec fn copies_state<P: PageAlloc>(
    w0: Map<int, u32>,
    objs: Set<int>,
    space: &Space<P>,
    roots: int,
    table: int,
    si: int,
    sp: int,
) -> bool {
    forall|a: int|
        #[trigger] objs.contains(a) && forwarded(space.page_alloc.words(), a) ==> copy_state(
            w0,
            objs,
            space,
            roots,
            table,
            si,
            sp,
            a,
        )
}

/// The state of the collection: the invariant holds, `nd` root boxes were
/// visited, the continuation table was visited or not, and the copies before
/// the position of the scan were visited.
pub open spec fn scan_state<P: PageAlloc>(
    w0: Map<int, u32>,
    objs: Set<int>,
    space: &Space<P>,
    roots: int,
    table: int,
    nd: int,
    td: bool,
    si: int,
    sp: int,
) -> bool {
    let w = space.page_alloc.words();
    &&& copy_inv(w0, objs, space, roots, table)
    &&& roots_distinct(w0, roots)
    &&& 0 <= nd <= w0[roots + 4]
    &&& roots_state(w0, objs, w, roots, table, nd)
    &&& if td {
        value_done(w, objs, w0[table], w[table])
    } else {
        w[table] == w0[table]
    }
    &&& copies_state(w0, objs, space, roots, table, si, sp)
}

/// The fields of a target are in the same state where the words of the
/// target are the same, after objects were forwarded.
pub proof fn lemma_fields_state_stays(
    w0: Map<int, u32>,
    objs: Set<int>,
    w: Map<int, u32>,
    w2: Map<int, u32>,
    roots: int,
    table: int,
    target: Target,
    j: int,
)
    requires
        forwards_only(w, w2, objs),
        fields_state(w0, objs, w, roots, table, target, j),
        visit_ok(w0, objs, w, roots, target),
        forall|m: int|
            #![trigger target_place(w0, target, m)]
            0 <= m < target_count(w0, target) ==> w2[place_addr(
                w0,
                w,
                roots,
                table,
                target_place(w0, target, m),
            )] == w[place_addr(w0, w, roots, table, target_place(w0, target, m))],
    ensures
        fields_state(w0, objs, w2, roots, table, target, j),
{
    assert forall|m: int| 0 <= m < target_count(w0, target) implies #[trigger] field_state(
        w0,
        objs,
        w2,
        roots,
        table,
        target,
        j,
        m,
    ) by {
        assert(field_state(w0, objs, w, roots, table, target, j, m));
        let place = target_place(w0, target, m);
        let loc = place_addr(w0, w, roots, table, place);
        assert(place_addr(w0, w2, roots, table, place) == loc);
        if m < j {
            let v0 = place_orig(w0, roots, table, place);
            if Value(v0).spec_is_ptr() {
                assert(objs.contains(Value(v0).spec_get_ptr()));
            }
        }
    }
}

/// No copy was visited: every copy has the fields of the object that it
/// was made from.
pub open spec fn copies_unvisited(
    w0: Map<int, u32>,
    objs: Set<int>,
    w: Map<int, u32>,
    roots: int,
    table: int,
) -> bool {
    forall|a: int|
        #[trigger] objs.contains(a) && forwarded(w, a) ==> fields_state(
            w0,
            objs,
            w,
            roots,
            table,
            Target::Copy(a),
            0,
        )
}

/// The state of the collection while it visits the roots: the invariant
/// holds, `nd` root boxes were visited, the continuation table was visited
/// or not, and no copy was visited.
pub open spec fn roots_phase<P: PageAlloc>(
    w0: Map<int, u32>,
    objs: Set<int>,
    space: &Space<P>,
    roots: int,
    table: int,
    nd: int,
    td: bool,
) -> bool {
    let w = space.page_alloc.words();
    &&& copy_inv(w0, objs, space, roots, table)
    &&& roots_distinct(w0, roots)
    &&& 0 <= nd <= w0[roots + 4]
    &&& roots_state(w0, objs, w, roots, table, nd)
    &&& if td {
        value_done(w, objs, w0[table], w[table])
    } else {
        w[table] == w0[table]
    }
    &&& copies_unvisited(w0, objs, w, roots, table)
}

/// A copy that is as it was made has the fields of the object that it was
/// made from.
pub proof fn lemma_fresh_unvisited<P: PageAlloc>(
    w0: Map<int, u32>,
    objs: Set<int>,
    space: &Space<P>,
    roots: int,
    table: int,
    b: int,
)
    requires
        copy_inv(w0, objs, space, roots, table),
        objs.contains(b),
        forwarded(space.page_alloc.words(), b),
        fresh(w0, space.page_alloc.words(), b),
    ensures
        fields_state(w0, objs, space.page_alloc.words(), roots, table, Target::Copy(b), 0),
{
    let w = space.page_alloc.words();
    let target = Target::Copy(b);
    assert(object_ok(w0, objs, space, b));
    crate::object::lemma_fields_in_object(
        w0[b],
        crate::object::length_word(w0, b, w0[b]),
    );
    assert forall|m: int| 0 <= m < target_count(w0, target) implies #[trigger] field_state(
        w0,
        objs,
        w,
        roots,
        table,
        target,
        0,
        m,
    ) by {
        let k = field_offset(w0[b]) + m;
        assert(copied_word(w0, w, b, copy_of(w, b), k));
    }
}

/// The words of the fields of a copy are the same where the copy is the
/// same.
pub proof fn lemma_copy_same_fields<P: PageAlloc>(
    w0: Map<int, u32>,
    objs: Set<int>,
    space: &Space<P>,
    w2: Map<int, u32>,
    roots: int,
    table: int,
    b: int,
    j: int,
)
    requires
        copy_inv(w0, objs, space, roots, table),
        objs.contains(b),
        forwarded(space.page_alloc.words(), b),
        forwards_only(space.page_alloc.words(), w2, objs),
        copy_same(w0, space.page_alloc.words(), w2, b),
        fields_state(w0, objs, space.page_alloc.words(), roots, table, Target::Copy(b), j),
    ensures
        fields_state(w0, objs, w2, roots, table, Target::Copy(b), j),
{
    let w = space.page_alloc.words();
    let target = Target::Copy(b);
    assert(object_ok(w0, objs, space, b));
    crate::object::lemma_fields_in_object(
        w0[b],
        crate::object::length_word(w0, b, w0[b]),
    );
    assert forall|m: int|
        #![trigger target_place(w0, target, m)]
        0 <= m < target_count(w0, target) implies w2[place_addr(
        w0,
        w,
        roots,
        table,
        target_place(w0, target, m),
    )] == w[place_addr(w0, w, roots, table, target_place(w0, target, m))] by {
        let k = field_offset(w0[b]) + m;
        assert(w2[copy_of(w, b) + 4 * k] == w[copy_of(w, b) + 4 * k]);
    }
    lemma_fields_state_stays(w0, objs, w, w2, roots, table, target, j);
}

/// The visit of the next root box leaves the collection in the state with
/// one more root box visited.
#[verifier::rlimit(100)]
pub proof fn lemma_after_root<P: PageAlloc>(
    w0: Map<int, u32>,
    objs: Set<int>,
    before: &Space<P>,
    after: &Space<P>,
    roots: int,
    table: int,
    nd: int,
)
    requires
        roots_phase(w0, objs, before, roots, table, nd, false),
        nd < w0[roots + 4],
        scav_mid(w0, objs, after, roots, table, Target::Root(nd), 1),
        scav_kept(w0, objs, before, after, roots, table, Target::Root(nd)),
    ensures
        roots_phase(w0, objs, after, roots, table, nd + 1, false),
{
    let w = before.page_alloc.words();
    let w2 = after.page_alloc.words();
    let target = Target::Root(nd);
    assert forall|i: int| 0 <= i < w0[roots + 4] implies #[trigger] root_state(
        w0,
        objs,
        w2,
        roots,
        table,
        nd + 1,
        i,
    ) by {
        assert(root_state(w0, objs, w, roots, table, nd, i));
        if i != nd {
            let ti = Target::Root(i);
            assert(root_box(w0, roots, i) != root_box(w0, roots, nd));
            assert forall|m: int|
                #![trigger target_place(w0, ti, m)]
                0 <= m < target_count(w0, ti) implies w2[place_addr(
                w0,
                w,
                roots,
                table,
                target_place(w0, ti, m),
            )] == w[place_addr(w0, w, roots, table, target_place(w0, ti, m))] by {}
            lemma_fields_state_stays(
                w0,
                objs,
                w,
                w2,
                roots,
                table,
                ti,
                if i < nd {
                    1
                } else {
                    0
                },
            );
        }
    }
    assert forall|b: int| #[trigger] objs.contains(b) && forwarded(w2, b) implies fields_state(
        w0,
        objs,
        w2,
        roots,
        table,
        Target::Copy(b),
        0,
    ) by {
        assert(other_ok(w0, before, after, b));
        if forwarded(w, b) {
            lemma_copy_same_fields(w0, objs, before, w2, roots, table, b, 0);
        } else {
            lemma_fresh_unvisited(w0, objs, after, roots, table, b);
        }
    }
}

/// The visit of the continuation table leaves the collection in the state
/// with the table visited.
#[verifier::rlimit(100)]
pub proof fn lemma_after_table<P: PageAlloc>(
    w0: Map<int, u32>,
    objs: Set<int>,
    before: &Space<P>,
    after: &Space<P>,
    roots: int,
    table: int,
    nd: int,
)
    requires
        roots_phase(w0, objs, before, roots, table, nd, false),
        if Value(before.page_alloc.words()[table]).spec_is_ptr() {
            evac_done(w0, objs, before, after, roots, table, Place::Table)
        } else {
            after == before
        },
    ensures
        roots_phase(w0, objs, after, roots, table, nd, true),
{
    let w = before.page_alloc.words();
    let w2 = after.page_alloc.words();
    if Value(w[table]).spec_is_ptr() {
        let place = Place::Table;
        lemma_place(w0, objs, before, roots, table, place);
        assert forall|i: int| 0 <= i < w0[roots + 4] implies #[trigger] root_state(
            w0,
            objs,
            w2,
            roots,
            table,
            nd,
            i,
        ) by {
            assert(root_state(w0, objs, w, roots, table, nd, i));
            let ti = Target::Root(i);
            assert(root_ok(w0, objs, before, roots, table, i));
            assert forall|m: int|
                #![trigger target_place(w0, ti, m)]
                0 <= m < target_count(w0, ti) implies w2[place_addr(
                w0,
                w,
                roots,
                table,
                target_place(w0, ti, m),
            )] == w[place_addr(w0, w, roots, table, target_place(w0, ti, m))] by {
                lemma_evac_keeps_word(
                    w0,
                    objs,
                    before,
                    after,
                    roots,
                    table,
                    place,
                    root_box(w0, roots, i) + 4,
                );
            }
            lemma_fields_state_stays(
                w0,
                objs,
                w,
                w2,
                roots,
                table,
                ti,
                if i < nd {
                    1
                } else {
                    0
                },
            );
        }
        let t = Value(w0[table]).spec_get_ptr();
        assert forall|b: int| #[trigger] objs.contains(b) && forwarded(w2, b) implies fields_state(
            w0,
            objs,
            w2,
            roots,
            table,
            Target::Copy(b),
            0,
        ) by {
            if forwarded(w, b) {
                let c = copy_of(w, b);
                assert(copy_ok(w0, objs, before, b, c));
                let i = choose|i: int| #[trigger] in_used(before, i, c, size0(w0, b));
                assert forall|k: int| 0 <= k < size0(w0, b) implies #[trigger] w2[copy_of(w, b) + 4
                    * k] == w[copy_of(w, b) + 4 * k] by {
                    lemma_used_mapped(before, i, c, size0(w0, b), k);
                    assert(in_used(before, i, c + 4 * k, 1));
                    lemma_evac_keeps_word(w0, objs, before, after, roots, table, place, c + 4 * k);
                }
                lemma_copy_same_fields(w0, objs, before, w2, roots, table, b, 0);
            } else {
                assert(b == t);
                lemma_fresh_unvisited(w0, objs, after, roots, table, b);
            }
        }
    } else {
    }
}

/// Whether `sp` is a position of the scan in the page at position `si`: it
/// lies between the copies of the page, not behind the filler that closes
/// the page, and not behind the allocation pointer.
pub open spec fn boundary<P: PageAlloc>(
    w0: Map<int, u32>,
    objs: Set<int>,
    space: &Space<P>,
    si: int,
    sp: int,
) -> bool {
    let w = space.page_alloc.words();
    &&& 0 <= si < space.pages@.len()
    &&& space.contents_start(si) <= sp <= space.end(si)
    &&& sp % 4 == 0
    &&& si == space.current_page ==> sp <= space.hp
    &&& forall|f: int|
        #[trigger] closed_at(w0, objs, space, si, f) && si != space.current_page ==> sp <= f || sp
            == space.end(si)
    &&& forall|a: int, x: int|
        #[trigger] covers(w0, objs, w, a, x) && in_page(space, si, x) && copy_of(w, a) < sp
            ==> copy_of(w, a) + 4 * size0(w0, a) <= sp
}

/// A copy lies in one page of the space.
pub proof fn lemma_copy_page<P: PageAlloc>(
    w0: Map<int, u32>,
    objs: Set<int>,
    space: &Space<P>,
    roots: int,
    table: int,
    a: int,
    j: int,
    x: int,
)
    requires
        copy_inv(w0, objs, space, roots, table),
        covers(w0, objs, space.page_alloc.words(), a, x),
        in_page(space, j, x),
    ensures
        in_used(space, j, copy_of(space.page_alloc.words(), a), size0(w0, a)),
        in_page(space, j, copy_of(space.page_alloc.words(), a)),
        space.contents_start(j) <= x,
{
    let w = space.page_alloc.words();
    let c = copy_of(w, a);
    let s = size0(w0, a);
    assert(object_ok(w0, objs, space, a));
    assert(copy_ok(w0, objs, space, a, c));
    let i = choose|i: int| #[trigger] in_used(space, i, c, s);
    let pa = &space.page_alloc;
    pa.lemma_page_size();
    pa.lemma_live_handle(space.pages@[i]);
    pa.lemma_live_page(space.start(i));
    let cur = space.current_page as int;
    pa.lemma_live_handle(space.pages@[cur]);
    pa.lemma_live_page(space.start(cur));
    lemma_pages_disjoint(space, i, j, x);
}

/// What lies at the position of the scan, where the scan has not reached
/// the end of the page or the allocation pointer: a copy that was not
/// visited, or the filler that closes the page.
pub open spec fn scan_object<P: PageAlloc>(
    w0: Map<int, u32>,
    objs: Set<int>,
    space: &Space<P>,
    roots: int,
    table: int,
    si: int,
    sp: int,
) -> bool {
    let w = space.page_alloc.words();
    ||| exists|a: int| #[trigger] copy_at(w0, objs, space, roots, table, si, sp, a)
    ||| filler_at(w0, objs, space, si, sp)
}

/// The copy of the object at `a` lies at the position of the scan and was
/// not visited.
pub open spec fn copy_at<P: PageAlloc>(
    w0: Map<int, u32>,
    objs: Set<int>,
    space: &Space<P>,
    roots: int,
    table: int,
    si: int,
    sp: int,
    a: int,
) -> bool {
    let w = space.page_alloc.words();
    &&& objs.contains(a)
    &&& forwarded(w, a)
    &&& copy_of(w, a) == sp
    &&& in_used(space, si, sp, size0(w0, a))
    &&& w.dom().contains(sp)
    &&& spec_object_size(w, sp) == Ok::<Words<u32>, Trap>(Words(size0(w0, a) as u32))
    &&& 2 <= size0(w0, a) <= 0x3fff_ffff
    &&& fields_state(w0, objs, w, roots, table, Target::Copy(a), 0)
}

/// The filler that closes the page lies at the position of the scan.
pub open spec fn filler_at<P: PageAlloc>(
    w0: Map<int, u32>,
    objs: Set<int>,
    space: &Space<P>,
    si: int,
    sp: int,
) -> bool {
    let w = space.page_alloc.words();
    &&& si != space.current_page
    &&& closed_at(w0, objs, space, si, sp)
    &&& w.dom().contains(sp)
    &&& spec_object_size(w, sp) is Ok
    &&& spec_object_size(w, sp)->Ok_0.0 >= 1
    &&& sp + 4 * spec_object_size(w, sp)->Ok_0.0 == space.end(si)
    &&& crate::gc::copying::wellformed::no_fields(w, sp)
}

/// What lies at the position of the scan.
#[verifier::rlimit(100)]
pub proof fn lemma_scan_object<P: PageAlloc>(
    w0: Map<int, u32>,
    objs: Set<int>,
    space: &Space<P>,
    roots: int,
    table: int,
    nd: int,
    si: int,
    sp: int,
)
    requires
        scan_state(w0, objs, space, roots, table, nd, true, si, sp),
        boundary(w0, objs, space, si, sp),
        sp != space.end(si),
        si == space.current_page ==> sp != space.hp,
    ensures
        scan_object(w0, objs, space, roots, table, si, sp),
{
    reveal(pages_covered);
    let pa = &space.page_alloc;
    let w = pa.words();
    let cur = space.current_page as int;
    pa.lemma_page_size();
    pa.lemma_live_handle(space.pages@[si]);
    pa.lemma_live_page(space.start(si));
    pa.lemma_page_mapped(space.start(si), sp);
    assert(page_covered(w0, objs, space, si));
    let f = if si == cur {
        space.hp as int
    } else {
        choose|f: int| #[trigger] closed_at(w0, objs, space, si, f)
    };
    if sp < f {
        assert(covered(w0, objs, w, sp));
        let a = choose|a: int| #[trigger] covers(w0, objs, w, a, sp);
        assert(in_page(space, si, sp));
        lemma_copy_page(w0, objs, space, roots, table, a, si, sp);
        assert(copy_of(w, a) == sp);
        assert(object_ok(w0, objs, space, a));
        lemma_target_shape(w0, objs, space, roots, table, Target::Copy(a));
        assert(copy_state(w0, objs, space, roots, table, si, sp, a));
        assert(!before_scan(space, si, sp, sp)) by {
            if before_scan(space, si, sp, sp) {
                let j = choose|j: int| #[trigger] in_page(space, j, sp) && (j < si || (j == si && sp
                    < sp));
                lemma_pages_disjoint(space, j, si, sp);
            }
        }
        assert(copy_at(w0, objs, space, roots, table, si, sp, a));
    } else {
        assert(sp == f);
        assert(si != cur);
        if w[f] == TAG_FREE_SPACE {
            pa.lemma_page_mapped(space.start(si), f + 4);
        }
        assert(filler_at(w0, objs, space, si, sp));
    }
}

/// No copy lies before the start of the first page.
pub proof fn lemma_scan_begins<P: PageAlloc>(
    w0: Map<int, u32>,
    objs: Set<int>,
    space: &Space<P>,
    roots: int,
    table: int,
    nd: int,
)
    requires
        roots_phase(w0, objs, space, roots, table, nd, true),
    ensures
        scan_state(w0, objs, space, roots, table, nd, true, 0, space.contents_start(0)),
        boundary(w0, objs, space, 0, space.contents_start(0)),
{
    let w = space.page_alloc.words();
    let sp = space.contents_start(0);
    let pa = &space.page_alloc;
    pa.lemma_page_size();
    pa.lemma_live_handle(space.pages@[0]);
    pa.lemma_live_page(space.start(0));
    assert forall|a: int| #[trigger] objs.contains(a) && forwarded(w, a) implies copy_state(
        w0,
        objs,
        space,
        roots,
        table,
        0,
        sp,
        a,
    ) by {
        let c = copy_of(w, a);
        if before_scan(space, 0, sp, c) {
            let j = choose|j: int| #[trigger] in_page(space, j, c) && (j < 0 || (j == 0 && c < sp));
            assert(covers(w0, objs, w, a, c)) by {
                assert(object_ok(w0, objs, space, a));
            }
            lemma_copy_page(w0, objs, space, roots, table, a, j, c);
        }
    }
    assert forall|a: int, x: int|
        #[trigger] covers(w0, objs, w, a, x) && in_page(space, 0, x) && copy_of(w, a)
            < sp implies copy_of(w, a) + 4 * size0(w0, a) <= sp by {
        lemma_copy_page(w0, objs, space, roots, table, a, 0, x);
    }
    assert forall|f: int|
        #[trigger] closed_at(w0, objs, space, 0, f) && 0 != space.current_page implies sp <= f || sp
        == space.end(0) by {}
}

/// What holds when the copy of the object at `a`, which lies at the
/// position of the scan, was visited.
pub open spec fn copy_visited<P: PageAlloc>(
    w0: Map<int, u32>,
    objs: Set<int>,
    before: &Space<P>,
    after: &Space<P>,
    roots: int,
    table: int,
    nd: int,
    si: int,
    sp: int,
    a: int,
) -> bool {
    &&& scan_state(w0, objs, before, roots, table, nd, true, si, sp)
    &&& boundary(w0, objs, before, si, sp)
    &&& copy_at(w0, objs, before, roots, table, si, sp, a)
    &&& gc_frame(before, after)
    &&& scav_mid(
        w0,
        objs,
        after,
        roots,
        table,
        Target::Copy(a),
        target_count(w0, Target::Copy(a)),
    )
    &&& scav_kept(w0, objs, before, after, roots, table, Target::Copy(a))
}

/// The pages of the space are where they were after a step of the
/// collection.
pub proof fn lemma_page_stays<P: PageAlloc>(before: &Space<P>, after: &Space<P>, j: int, x: int)
    requires
        gc_frame(before, after),
        0 <= j < before.pages@.len(),
    ensures
        in_page(after, j, x) == in_page(before, j, x),
        after.start(j) == before.start(j),
        after.end(j) == before.end(j),
{
    assert(after.pages@.take(before.pages@.len() as int)[j] == before.pages@[j]);
}

/// A copy that was there before the visit lies before the position of the
/// scan after the visit if and only if it lay before it before the visit.
#[verifier::rlimit(100)]
pub proof fn lemma_position_stays<P: PageAlloc>(
    w0: Map<int, u32>,
    objs: Set<int>,
    before: &Space<P>,
    after: &Space<P>,
    roots: int,
    table: int,
    nd: int,
    si: int,
    sp: int,
    a: int,
    b: int,
)
    requires
        copy_visited(w0, objs, before, after, roots, table, nd, si, sp, a),
        objs.contains(b),
        forwarded(before.page_alloc.words(), b),
        b != a,
    ensures
        before_scan(
            after,
            si,
            sp + 4 * size0(w0, a),
            copy_of(before.page_alloc.words(), b),
        ) == before_scan(before, si, sp, copy_of(before.page_alloc.words(), b)),
{
    let w = before.page_alloc.words();
    let c = copy_of(w, b);
    let s = size0(w0, a);
    assert(object_ok(w0, objs, before, b));
    assert(covers(w0, objs, w, b, c));
    assert(copy_ok(w0, objs, before, b, c));
    let i = choose|i: int| #[trigger] in_used(before, i, c, size0(w0, b));
    let pa = &before.page_alloc;
    pa.lemma_page_size();
    pa.lemma_live_handle(before.pages@[i]);
    pa.lemma_live_page(before.start(i));
    assert(in_page(before, i, c));
    lemma_page_stays(before, after, i, c);
    if before_scan(before, si, sp, c) {
        let j = choose|j: int| #[trigger] in_page(before, j, c) && (j < si || (j == si && c < sp));
        lemma_page_stays(before, after, j, c);
        assert(in_page(after, j, c));
    }
    if before_scan(after, si, sp + 4 * s, c) {
        let j = choose|j: int| #[trigger] in_page(after, j, c) && (j < si || (j == si && c < sp + 4
            * s));
        lemma_pages_disjoint(after, i, j, c);
        assert(in_page(before, i, c));
        if i == si && !(c < sp) {
            assert(copy_of(w, a) + 4 * size0(w0, a) <= copy_of(w, b) || copy_of(w, b) + 4 * size0(
                w0,
                b,
            ) <= copy_of(w, a));
        }
    }
}

/// A copy that was made during the visit lies behind the position of the
/// scan.
#[verifier::rlimit(100)]
pub proof fn lemma_position_new<P: PageAlloc>(
    w0: Map<int, u32>,
    objs: Set<int>,
    before: &Space<P>,
    after: &Space<P>,
    roots: int,
    table: int,
    nd: int,
    si: int,
    sp: int,
    a: int,
    c: int,
)
    requires
        copy_visited(w0, objs, before, after, roots, table, nd, si, sp, a),
        !used_word(before, c),
        c % 4 == 0,
        exists|j: int| #[trigger] in_page(after, j, c) && after.contents_start(j) <= c,
    ensures
        !before_scan(after, si, sp + 4 * size0(w0, a), c),
{
    let s = size0(w0, a);
    if before_scan(after, si, sp + 4 * s, c) {
        let j = choose|j: int| #[trigger] in_page(after, j, c) && (j < si || (j == si && c < sp + 4
            * s));
        let j2 = choose|j: int| #[trigger] in_page(after, j, c) && after.contents_start(j) <= c;
        lemma_pages_disjoint(after, j, j2, c);
        lemma_page_stays(before, after, j, c);
        let pa = &before.page_alloc;
        pa.lemma_page_size();
        pa.lemma_live_handle(before.pages@[j]);
        pa.lemma_live_page(before.start(j));
        assert(in_used(before, j, c, 1));
    }
}

/// The visit of the copy at the position of the scan leaves the collection
/// in the state with the position behind the copy.
#[verifier::rlimit(100)]
pub proof fn lemma_after_copy<P: PageAlloc>(
    w0: Map<int, u32>,
    objs: Set<int>,
    before: &Space<P>,
    after: &Space<P>,
    roots: int,
    table: int,
    nd: int,
    si: int,
    sp: int,
    a: int,
)
    requires
        copy_visited(w0, objs, before, after, roots, table, nd, si, sp, a),
    ensures
        scan_state(w0, objs, after, roots, table, nd, true, si, sp + 4 * size0(w0, a)),
{
    let w = before.page_alloc.words();
    let w2 = after.page_alloc.words();
    let s = size0(w0, a);
    let sp2 = sp + 4 * s;
    let target = Target::Copy(a);
    assert(object_ok(w0, objs, before, a));
    let pa = &before.page_alloc;
    pa.lemma_page_size();
    pa.lemma_live_handle(before.pages@[si]);
    pa.lemma_live_page(before.start(si));
    lemma_used_mapped(before, si, sp, s, 0);
    assert forall|i: int| 0 <= i < w0[roots + 4] implies #[trigger] root_state(
        w0,
        objs,
        w2,
        roots,
        table,
        nd,
        i,
    ) by {
        assert(root_state(w0, objs, w, roots, table, nd, i));
        let ti = Target::Root(i);
        assert(root_ok(w0, objs, before, roots, table, i));
        assert(frame_of(w0, roots, root_box(w0, roots, i), i));
        assert(crate::gc::copying::wellformed::root_frame(w0, roots, root_box(w0, roots, i)));
        assert(root_box(w0, roots, i) != sp);
        assert forall|m: int|
            #![trigger target_place(w0, ti, m)]
            0 <= m < target_count(w0, ti) implies w2[place_addr(
            w0,
            w,
            roots,
            table,
            target_place(w0, ti, m),
        )] == w[place_addr(w0, w, roots, table, target_place(w0, ti, m))] by {}
        lemma_fields_state_stays(
            w0,
            objs,
            w,
            w2,
            roots,
            table,
            ti,
            if i < nd {
                1
            } else {
                0
            },
        );
    }
    lemma_value_stays(w, w2, objs, w0[table], w[table]);
    assert forall|b: int| #[trigger] objs.contains(b) && forwarded(w2, b) implies copy_state(
        w0,
        objs,
        after,
        roots,
        table,
        si,
        sp2,
        b,
    ) by {
        if b == a {
            lemma_page_stays(before, after, si, sp);
            assert(in_page(after, si, sp));
            assert(before_scan(after, si, sp2, sp));
        } else {
            assert(other_ok(w0, before, after, b));
            if forwarded(w, b) {
                assert(copy_state(w0, objs, before, roots, table, si, sp, b));
                lemma_position_stays(w0, objs, before, after, roots, table, nd, si, sp, a, b);
                let j = if before_scan(before, si, sp, copy_of(w, b)) {
                    target_count(w0, Target::Copy(b))
                } else {
                    0
                };
                lemma_copy_same_fields(w0, objs, before, w2, roots, table, b, j);
            } else {
                lemma_fresh_unvisited(w0, objs, after, roots, table, b);
                let c = copy_of(w2, b);
                assert(object_ok(w0, objs, after, b));
                assert(copy_ok(w0, objs, after, b, c));
                let i = choose|i: int| #[trigger] in_used(after, i, c, size0(w0, b));
                after.page_alloc.lemma_page_size();
                after.page_alloc.lemma_live_handle(after.pages@[i]);
                after.page_alloc.lemma_live_page(after.start(i));
                assert(in_page(after, i, c) && after.contents_start(i) <= c);
                lemma_position_new(w0, objs, before, after, roots, table, nd, si, sp, a, c);
            }
        }
    }
}

/// What the proof that the position behind a visited copy is a position
/// of the scan needs of the visit.
pub open spec fn copy_passed<P: PageAlloc>(
    w0: Map<int, u32>,
    objs: Set<int>,
    before: &Space<P>,
    after: &Space<P>,
    roots: int,
    table: int,
    si: int,
    sp: int,
    a: int,
) -> bool {
    &&& copy_inv(w0, objs, before, roots, table)
    &&& copy_inv(w0, objs, after, roots, table)
    &&& boundary(w0, objs, before, si, sp)
    &&& copy_at(w0, objs, before, roots, table, si, sp, a)
    &&& gc_frame(before, after)
    &&& scav_kept(w0, objs, before, after, roots, table, Target::Copy(a))
}

/// The last word of a visited copy lies in the used part of its page.
pub proof fn lemma_last_word<P: PageAlloc>(
    w0: Map<int, u32>,
    objs: Set<int>,
    before: &Space<P>,
    after: &Space<P>,
    roots: int,
    table: int,
    si: int,
    sp: int,
    a: int,
)
    requires
        copy_passed(w0, objs, before, after, roots, table, si, sp, a),
    ensures
        in_used(after, si, sp + 4 * size0(w0, a) - 4, 1),
        covers(w0, objs, after.page_alloc.words(), a, sp + 4 * size0(w0, a) - 4),
        in_page(after, si, sp + 4 * size0(w0, a) - 4),
        in_page(after, si, sp),
        after.start(si) == before.start(si),
        after.end(si) == before.end(si),
        sp + 4 * size0(w0, a) <= after.end(si),
        forwarded(after.page_alloc.words(), a),
        copy_of(after.page_alloc.words(), a) == sp,
{
    let s = size0(w0, a);
    let sp2 = sp + 4 * s;
    let last = sp2 - 4;
    let pa = &before.page_alloc;
    pa.lemma_page_size();
    pa.lemma_live_handle(before.pages@[si]);
    pa.lemma_live_page(before.start(si));
    lemma_page_stays(before, after, si, sp);
    lemma_page_stays(before, after, si, last);
    assert(in_used(before, si, last, 1));
    assert(used_word(before, last));
    assert(used_word(after, last));
    let i2 = choose|i: int| #[trigger] in_used(after, i, last, 1);
    after.page_alloc.lemma_page_size();
    after.page_alloc.lemma_live_handle(after.pages@[i2]);
    after.page_alloc.lemma_live_page(after.start(i2));
    lemma_pages_disjoint(after, i2, si, last);
}

/// No copy lies across the position behind a visited copy.
#[verifier::rlimit(100)]
pub proof fn lemma_no_straddle<P: PageAlloc>(
    w0: Map<int, u32>,
    objs: Set<int>,
    before: &Space<P>,
    after: &Space<P>,
    roots: int,
    table: int,
    si: int,
    sp: int,
    a: int,
    b: int,
    x: int,
)
    requires
        copy_passed(w0, objs, before, after, roots, table, si, sp, a),
        covers(w0, objs, after.page_alloc.words(), b, x),
        in_page(after, si, x),
        copy_of(after.page_alloc.words(), b) < sp + 4 * size0(w0, a),
    ensures
        copy_of(after.page_alloc.words(), b) + 4 * size0(w0, b) <= sp + 4 * size0(w0, a),
{
    let w = before.page_alloc.words();
    let w2 = after.page_alloc.words();
    let s = size0(w0, a);
    let sp2 = sp + 4 * s;
    let c = copy_of(w2, b);
    lemma_last_word(w0, objs, before, after, roots, table, si, sp, a);
    lemma_copy_page(w0, objs, after, roots, table, b, si, x);
    lemma_page_stays(before, after, si, c);
    if b != a {
        if forwarded(w, b) {
            assert(object_ok(w0, objs, before, b));
            assert(covers(w0, objs, w, b, c));
            assert(in_page(before, si, c));
            if c < sp {
            } else {
                assert(copy_of(w, a) + 4 * size0(w0, a) <= copy_of(w, b) || copy_of(w, b) + 4
                    * size0(w0, b) <= copy_of(w, a));
            }
        } else {
            assert(other_ok(w0, before, after, b));
            let pa = &before.page_alloc;
            pa.lemma_page_size();
            pa.lemma_live_handle(before.pages@[si]);
            pa.lemma_live_page(before.start(si));
            assert(c % 4 == 0) by {
                assert(object_ok(w0, objs, after, b));
                assert(copy_ok(w0, objs, after, b, c));
            }
            assert(in_used(before, si, c, 1));
        }
    }
}

/// After the visit of the copy at the position of the scan, the position
/// behind the copy is a position of the scan.
pub proof fn lemma_boundary_after<P: PageAlloc>(
    w0: Map<int, u32>,
    objs: Set<int>,
    before: &Space<P>,
    after: &Space<P>,
    roots: int,
    table: int,
    si: int,
    sp: int,
    a: int,
)
    requires
        copy_passed(w0, objs, before, after, roots, table, si, sp, a),
    ensures
        boundary(w0, objs, after, si, sp + 4 * size0(w0, a)),
{
    let w2 = after.page_alloc.words();
    let s = size0(w0, a);
    let sp2 = sp + 4 * s;
    lemma_last_word(w0, objs, before, after, roots, table, si, sp, a);
    assert forall|f: int|
        #[trigger] closed_at(w0, objs, after, si, f) && si != after.current_page implies sp2 <= f
        || sp2 == after.end(si) by {
        assert(sp2 - 4 < f);
    }
    assert forall|b: int, x: int|
        #[trigger] covers(w0, objs, w2, b, x) && in_page(after, si, x) && copy_of(w2, b)
            < sp2 implies copy_of(w2, b) + 4 * size0(w0, b) <= sp2 by {
        lemma_no_straddle(w0, objs, before, after, roots, table, si, sp, a, b, x);
    }
}

/// Behind the filler that closes a page lies the end of the page.
pub proof fn lemma_after_filler<P: PageAlloc>(
    w0: Map<int, u32>,
    objs: Set<int>,
    space: &Space<P>,
    roots: int,
    table: int,
    nd: int,
    si: int,
    sp: int,
)
    requires
        scan_state(w0, objs, space, roots, table, nd, true, si, sp),
        boundary(w0, objs, space, si, sp),
        filler_at(w0, objs, space, si, sp),
    ensures
        scan_state(w0, objs, space, roots, table, nd, true, si, space.end(si)),
        boundary(w0, objs, space, si, space.end(si)),
{
    let w = space.page_alloc.words();
    let end = space.end(si);
    assert forall|a: int| #[trigger] objs.contains(a) && forwarded(w, a) implies copy_state(
        w0,
        objs,
        space,
        roots,
        table,
        si,
        end,
        a,
    ) by {
        assert(copy_state(w0, objs, space, roots, table, si, sp, a));
        let c = copy_of(w, a);
        assert(object_ok(w0, objs, space, a));
        assert(covers(w0, objs, w, a, c));
        if before_scan(space, si, end, c) && !before_scan(space, si, sp, c) {
            let j = choose|j: int| #[trigger] in_page(space, j, c) && (j < si || (j == si && c
                < end));
            assert(in_page(space, si, c));
        }
        if before_scan(space, si, sp, c) {
            let j = choose|j: int| #[trigger] in_page(space, j, c) && (j < si || (j == si && c < sp));
            assert(in_page(space, j, c) && (j < si || (j == si && c < end)));
        }
    }
}

/// A heap that a collection can start from: the memory holds the
/// well-formed objects `objs` and the roots of the memory `w0`, none of
/// which was moved or written to, and no root box is in the array of roots
/// twice.
pub open spec fn copy_start<P: PageAlloc>(
    w0: Map<int, u32>,
    objs: Set<int>,
    space: &Space<P>,
    roots: int,
    table: int,
) -> bool {
    let w = space.page_alloc.words();
    &&& copy_inv(w0, objs, space, roots, table)
    &&& roots_distinct(w0, roots)
    &&& forall|a: int| objs.contains(a) ==> !#[trigger] forwarded(w, a)
    &&& forall|i: int|
        0 <= i < w0[roots + 4] ==> w[root_box(w0, roots, i) + 4] == w0[#[trigger] root_box(
            w0,
            roots,
            i,
        ) + 4]
    &&& w[table] == w0[table]
}

/// What a collection leaves: the invariant holds, and every field of a root
/// box, the continuation table and every pointer field of a copy holds what
/// it held before the collection, or, where that was a pointer to an
/// object, the address of the copy of that object.
pub open spec fn copy_final<P: PageAlloc>(
    w0: Map<int, u32>,
    objs: Set<int>,
    space: &Space<P>,
    roots: int,
    table: int,
) -> bool {
    let w = space.page_alloc.words();
    &&& copy_inv(w0, objs, space, roots, table)
    &&& roots_state(w0, objs, w, roots, table, w0[roots + 4] as int)
    &&& value_done(w, objs, w0[table], w[table])
    &&& forall|a: int|
        #[trigger] objs.contains(a) && forwarded(w, a) ==> fields_state(
            w0,
            objs,
            w,
            roots,
            table,
            Target::Copy(a),
            target_count(w0, Target::Copy(a)),
        )
}

/// A collection starts in the state in which nothing was visited.
pub proof fn lemma_start<P: PageAlloc>(
    w0: Map<int, u32>,
    objs: Set<int>,
    space: &Space<P>,
    roots: int,
    table: int,
)
    requires
        copy_start(w0, objs, space, roots, table),
    ensures
        roots_phase(w0, objs, space, roots, table, 0, false),
{
    let w = space.page_alloc.words();
    assert forall|i: int| 0 <= i < w0[roots + 4] implies #[trigger] root_state(
        w0,
        objs,
        w,
        roots,
        table,
        0,
        i,
    ) by {
        assert forall|m: int| 0 <= m < target_count(w0, Target::Root(i)) implies 
            #[trigger] field_state(w0, objs, w, roots, table, Target::Root(i), 0, m) by {}
    }
    assert forall|a: int| #[trigger] objs.contains(a) && forwarded(w, a) implies fields_state(
        w0,
        objs,
        w,
        roots,
        table,
        Target::Copy(a),
        0,
    ) by {
        assert(object_ok(w0, objs, space, a));
    }
}

/// The allocation pointer lies in the current page alone.
pub proof fn lemma_hp_in_current<P: PageAlloc>(
    w0: Map<int, u32>,
    objs: Set<int>,
    space: &Space<P>,
    si: int,
    sp: int,
)
    requires
        space.wf(),
        boundary(w0, objs, space, si, sp),
        sp == space.hp,
    ensures
        si == space.current_page,
{
    let pa = &space.page_alloc;
    let cur = space.current_page as int;
    pa.lemma_page_size();
    pa.lemma_live_handle(space.pages@[si]);
    pa.lemma_live_page(space.start(si));
    pa.lemma_live_handle(space.pages@[cur]);
    pa.lemma_live_page(space.start(cur));
    if si != cur {
        lemma_pages_disjoint(space, si, cur, sp - 4);
    }
}

/// Behind the end of a page lies the start of the next page.
#[verifier::rlimit(100)]
pub proof fn lemma_next_page<P: PageAlloc>(
    w0: Map<int, u32>,
    objs: Set<int>,
    space: &Space<P>,
    roots: int,
    table: int,
    nd: int,
    si: int,
    sp: int,
)
    requires
        scan_state(w0, objs, space, roots, table, nd, true, si, sp),
        boundary(w0, objs, space, si, sp),
        sp == space.end(si) || (si == space.current_page && sp == space.hp),
        si + 1 < space.pages@.len(),
    ensures
        scan_state(w0, objs, space, roots, table, nd, true, si + 1, space.contents_start(si + 1)),
        boundary(w0, objs, space, si + 1, space.contents_start(si + 1)),
{
    let w = space.page_alloc.words();
    let sp2 = space.contents_start(si + 1);
    let pa = &space.page_alloc;
    pa.lemma_page_size();
    pa.lemma_live_handle(space.pages@[si + 1]);
    pa.lemma_live_page(space.start(si + 1));
    assert forall|a: int| #[trigger] objs.contains(a) && forwarded(w, a) implies copy_state(
        w0,
        objs,
        space,
        roots,
        table,
        si + 1,
        sp2,
        a,
    ) by {
        assert(copy_state(w0, objs, space, roots, table, si, sp, a));
        let c = copy_of(w, a);
        assert(object_ok(w0, objs, space, a));
        assert(covers(w0, objs, w, a, c));
        if before_scan(space, si, sp, c) {
            let j = choose|j: int| #[trigger] in_page(space, j, c) && (j < si || (j == si && c < sp));
            assert(in_page(space, j, c) && (j < si + 1 || (j == si + 1 && c < sp2)));
        }
        if before_scan(space, si + 1, sp2, c) {
            let j = choose|j: int| #[trigger] in_page(space, j, c) && (j < si + 1 || (j == si + 1
                && c < sp2));
            lemma_copy_page(w0, objs, space, roots, table, a, j, c);
            assert(in_page(space, j, c) && (j < si || (j == si && c < sp)));
        }
    }
    assert forall|a: int, x: int|
        #[trigger] covers(w0, objs, w, a, x) && in_page(space, si + 1, x) && copy_of(w, a)
            < sp2 implies copy_of(w, a) + 4 * size0(w0, a) <= sp2 by {
        lemma_copy_page(w0, objs, space, roots, table, a, si + 1, x);
    }
    assert forall|f: int|
        #[trigger] closed_at(w0, objs, space, si + 1, f) && si + 1
            != space.current_page implies sp2 <= f || sp2 == space.end(si + 1) by {}
}

/// When the scan has reached the end of the last page or the allocation
/// pointer, every copy was visited.
#[verifier::rlimit(100)]
pub proof fn lemma_scan_done<P: PageAlloc>(
    w0: Map<int, u32>,
    objs: Set<int>,
    space: &Space<P>,
    roots: int,
    table: int,
    si: int,
    sp: int,
)
    requires
        scan_state(w0, objs, space, roots, table, w0[roots + 4] as int, true, si, sp),
        boundary(w0, objs, space, si, sp),
        sp == space.end(si) || (si == space.current_page && sp == space.hp),
        si + 1 == space.pages@.len(),
    ensures
        copy_final(w0, objs, space, roots, table),
{
    let w = space.page_alloc.words();
    assert forall|a: int| #[trigger] objs.contains(a) && forwarded(w, a) implies fields_state(
        w0,
        objs,
        w,
        roots,
        table,
        Target::Copy(a),
        target_count(w0, Target::Copy(a)),
    ) by {
        assert(copy_state(w0, objs, space, roots, table, si, sp, a));
        let c = copy_of(w, a);
        assert(object_ok(w0, objs, space, a));
        assert(copy_ok(w0, objs, space, a, c));
        let j = choose|j: int| #[trigger] in_used(space, j, c, size0(w0, a));
        let pa = &space.page_alloc;
        pa.lemma_page_size();
        pa.lemma_live_handle(space.pages@[j]);
        pa.lemma_live_page(space.start(j));
        assert(in_page(space, j, c) && (j < si || (j == si && c < sp)));
    }
}

/// The state of the scan at the position `sp` in the page at position
/// `si`, after the roots and the continuation table were visited.
pub open spec fn scan_at<P: PageAlloc>(
    w0: Map<int, u32>,
    objs: Set<int>,
    space: &Space<P>,
    roots: int,
    table: int,
    si: int,
    sp: int,
) -> bool {
    &&& scan_state(w0, objs, space, roots, table, w0[roots + 4] as int, true, si, sp)
    &&& boundary(w0, objs, space, si, sp)
}

/// What the collection reads of the array of roots.
pub proof fn lemma_roots_read<P: PageAlloc>(
    w0: Map<int, u32>,
    objs: Set<int>,
    space: &Space<P>,
    roots: int,
    table: int,
    nd: int,
)
    requires
        roots_phase(w0, objs, space, roots, table, nd, false),
    ensures
        ({
            let w = space.page_alloc.words();
            &&& w.dom().contains(roots)
            &&& w[roots] == crate::types::TAG_ARRAY
            &&& w.dom().contains(roots + 4)
            &&& w[roots + 4] == w0[roots + 4]
            &&& 0 <= roots
            &&& nd < w0[roots + 4] ==> {
                &&& w.dom().contains(roots + 8 + 4 * nd)
                &&& Value(w[roots + 8 + 4 * nd]).spec_get_ptr() == root_box(w0, roots, nd)
                &&& scav_ready(
                    w0,
                    objs,
                    space,
                    roots,
                    table,
                    Target::Root(nd),
                    root_box(w0, roots, nd),
                )
            }
        }),
{
    let w = space.page_alloc.words();
    assert(crate::gc::copying::wellformed::root_frame(w0, roots, roots));
    assert(crate::gc::copying::wellformed::root_frame(w0, roots, roots + 4));
    space.page_alloc.lemma_mapped(roots);
    if nd < w0[roots + 4] {
        let b = root_box(w0, roots, nd);
        assert(b == Value(w0[roots + 8 + 4 * nd]).spec_get_ptr());
        assert(frame_of(w0, roots, roots + 8 + 4 * nd, nd));
        assert(crate::gc::copying::wellformed::root_frame(w0, roots, roots + 8 + 4 * nd));
        assert(root_state(w0, objs, w, roots, table, nd, nd));
    }
}

/// What the collection reads of the array of roots before it visits root
/// box `nd`.
pub open spec fn roots_read<P: PageAlloc>(
    w0: Map<int, u32>,
    objs: Set<int>,
    space: &Space<P>,
    roots: int,
    table: int,
    nd: int,
) -> bool {
    let w = space.page_alloc.words();
    &&& w.dom().contains(roots)
    &&& w[roots] == crate::types::TAG_ARRAY
    &&& w.dom().contains(roots + 4)
    &&& w[roots + 4] == w0[roots + 4]
    &&& 0 <= roots
    &&& nd < w0[roots + 4] ==> {
        &&& w.dom().contains(roots + 8 + 4 * nd)
        &&& Value(w[roots + 8 + 4 * nd]).spec_get_ptr() == root_box(w0, roots, nd)
        &&& scav_ready(w0, objs, space, roots, table, Target::Root(nd), root_box(w0, roots, nd))
    }
}

/// The object at the position of the scan has a size and ends in the page.
pub proof fn lemma_object_fits<P: PageAlloc>(
    w0: Map<int, u32>,
    objs: Set<int>,
    space: &Space<P>,
    roots: int,
    table: int,
    si: int,
    sp: int,
)
    requires
        scan_at(w0, objs, space, roots, table, si, sp),
        scan_object(w0, objs, space, roots, table, si, sp),
    ensures
        ({
            let w = space.page_alloc.words();
            &&& spec_object_size(w, sp) is Ok
            &&& spec_object_size(w, sp)->Ok_0.0 >= 1
            &&& sp + 4 * spec_object_size(w, sp)->Ok_0.0 <= space.end(si)
        }),
{
    let w = space.page_alloc.words();
    if exists|a: int| #[trigger] copy_at(w0, objs, space, roots, table, si, sp, a) {
        let a = choose|a: int| #[trigger] copy_at(w0, objs, space, roots, table, si, sp, a);
        space.page_alloc.lemma_page_size();
    }
}

/// The visit of the object at the position of the scan succeeds, and leaves
/// the scan at the position behind the object.
#[verifier::rlimit(100)]
pub proof fn lemma_scan_step<P: PageAlloc>(
    w0: Map<int, u32>,
    objs: Set<int>,
    before: &Space<P>,
    after: &Space<P>,
    roots: int,
    table: int,
    si: int,
    sp: int,
    size: int,
    scavenged: Result<(), Trap>,
)
    requires
        scan_at(w0, objs, before, roots, table, si, sp),
        scan_object(w0, objs, before, roots, table, si, sp),
        spec_object_size(before.page_alloc.words(), sp) == Ok::<Words<u32>, Trap>(
            Words(size as u32),
        ),
        0 <= size <= 0x3fff_ffff,
        gc_frame(before, after),
        crate::gc::copying::wellformed::no_fields(before.page_alloc.words(), sp) ==> after
            == before && scavenged is Ok,
        forall|target: Target|
            #![trigger scav_ready(w0, objs, before, roots, table, target, sp)]
            scav_ready(w0, objs, before, roots, table, target, sp) ==> scavenged is Ok && scav_mid(
                w0,
                objs,
                after,
                roots,
                table,
                target,
                target_count(w0, target),
            ) && scav_kept(w0, objs, before, after, roots, table, target),
    ensures
        scavenged is Ok,
        scan_at(w0, objs, after, roots, table, si, sp + 4 * size),
{
    let w = before.page_alloc.words();
    let n = w0[roots + 4] as int;
    if exists|a: int| #[trigger] copy_at(w0, objs, before, roots, table, si, sp, a) {
        let a = choose|a: int| #[trigger] copy_at(w0, objs, before, roots, table, si, sp, a);
        let target = Target::Copy(a);
        assert(scav_ready(w0, objs, before, roots, table, target, sp));
        assert(copy_visited(w0, objs, before, after, roots, table, n, si, sp, a));
        lemma_after_copy(w0, objs, before, after, roots, table, n, si, sp, a);
        lemma_boundary_after(w0, objs, before, after, roots, table, si, sp, a);
    } else {
        assert(filler_at(w0, objs, before, si, sp));
        lemma_after_filler(w0, objs, before, roots, table, n, si, sp);
    }
}

} // verus!
