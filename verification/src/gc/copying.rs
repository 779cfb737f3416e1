use vstd::prelude::*;
use crate::gc::copying::wellformed::{
    evac_done, evac_ready, lemma_evac, lemma_scav_field, lemma_scav_kept_refl, lemma_scav_step,
    lemma_target_shape, no_fields, scav_at, scav_kept, scav_mid, scav_ready, target_count,
    target_place, Place, Target,
};
use crate::gc::copying::collection::{collected, heap_before, lemma_collection_starts, released};
use crate::gc::copying::scan::{
    copy_final, copy_start, lemma_after_root, lemma_after_table, lemma_hp_in_current,
    lemma_next_page, lemma_object_fits, lemma_page_stays, lemma_roots_read, lemma_scan_begins,
    lemma_scan_done, lemma_scan_object, lemma_scan_step, lemma_start, roots_phase, roots_read,
    scan_at, scan_object,
};
use crate::gc::{gc_frame, lemma_gc_frame_refl, lemma_gc_frame_trans, should_do_gc};
use crate::mem_utils::{copy_region, memcpy_words};
use crate::object::{
    load, object_size, object_size_, pointer_fields, spec_object_size, spec_pointer_fields, Trap,
};
use crate::page_alloc::{
    mapped_range, page_added, same_bitmaps, same_pages, PageAlloc, WordMemory, PAGE_HEADER_SIZE,
};
use crate::space::Space;
use crate::types::{
    Bytes, Value, Words, TAG_ARRAY, TAG_FREE_SPACE, TAG_FWD_PTR, TAG_ONE_WORD_FILLER,
};

pub mod collection;
pub mod scan;
pub mod wellformed;

verus! {

/// Whether the evacuation of the field at `ptr_loc` succeeds, and the trap
/// with which it fails.
pub open spec fn evac_outcome<P: PageAlloc>(space: &Space<P>, ptr_loc: int) -> Result<(), Trap> {
    let w = space.page_alloc.words();
    if !w.dom().contains(ptr_loc) {
        Err(Trap::OutOfBounds)
    } else {
        let v = Value(w[ptr_loc]);
        let obj = v.spec_get_ptr();
        if !v.spec_is_ptr() {
            Err(Trap::InvalidObject)
        } else if !w.dom().contains(obj) {
            Err(Trap::OutOfBounds)
        } else if w[obj] == TAG_FWD_PTR {
            if w.dom().contains(obj + 4) {
                Ok(())
            } else {
                Err(Trap::OutOfBounds)
            }
        } else if w[obj] == TAG_ONE_WORD_FILLER || w[obj] == TAG_FREE_SPACE
            || space.page_alloc.is_static(obj) {
            Ok(())
        } else {
            match spec_object_size(w, obj) {
                Err(trap) => Err(trap),
                Ok(size) => {
                    if size.0 < 2 {
                        Err(Trap::InvalidObject)
                    } else if size.0 * 4 + PAGE_HEADER_SIZE > space.page_alloc.page_size() {
                        Err(Trap::LargeObject)
                    } else if obj + size.0 * 4 > space.page_alloc.page_containing(obj)
                        + space.page_alloc.page_size() {
                        Err(Trap::InvalidObject)
                    } else if !space.fits(size) && space.page_alloc.remaining() == 0 {
                        Err(Trap::OutOfMemory)
                    } else {
                        Ok(())
                    }
                },
            }
        }
    }
}

/// What a successful evacuation of the field at `ptr_loc` does.
///
/// Where the object that the field points to was moved before, the field
/// gets the address that the forwarding pointer holds.  A filler and a static
/// object are left alone.  Any other object is copied to fresh words of the
/// space, a forwarding pointer to the copy takes the place of its first two
/// words, and the field gets the address of the copy.
pub open spec fn evac_post<P: PageAlloc>(before: &Space<P>, after: &Space<P>, ptr_loc: int) -> bool {
    let w = before.page_alloc.words();
    let obj = Value(w[ptr_loc]).spec_get_ptr();
    if w[obj] == TAG_FWD_PTR {
        &&& after.pages == before.pages
        &&& after.current_page == before.current_page
        &&& after.hp == before.hp
        &&& after.total_alloc == before.total_alloc
        &&& same_pages(&before.page_alloc, &after.page_alloc)
        &&& same_bitmaps(&before.page_alloc, &after.page_alloc)
        &&& after.page_alloc.words() == w.insert(ptr_loc, w[obj + 4])
    } else if w[obj] == TAG_ONE_WORD_FILLER || w[obj] == TAG_FREE_SPACE
        || before.page_alloc.is_static(obj) {
        after == before
    } else {
        let size = spec_object_size(w, obj)->Ok_0;
        let copy = Value(after.page_alloc.words()[ptr_loc]);
        &&& before.alloc_post(after, size, copy)
        &&& after.page_alloc.words() == copy_region(
            before.words_after_alloc(size, copy),
            copy.spec_get_ptr(),
            obj,
            size.0 as int,
        ).insert(obj, TAG_FWD_PTR).insert(obj + 4, copy.0).insert(ptr_loc, copy.0)
    }
}

/// An allocation keeps the frame of a collection.
pub proof fn lemma_alloc_keeps_frame<P: PageAlloc>(
    before: &Space<P>,
    after: &Space<P>,
    n: Words<u32>,
    v: Value,
)
    requires
        before.wf(),
        before.alloc_post(after, n, v),
        after.page_alloc.words() == before.words_after_alloc(n, v),
    ensures
        gc_frame(before, after),
{
    before.page_alloc.lemma_page_size();
    if before.fits(n) {
        assert(after.pages@.take(before.pages@.len() as int) =~= before.pages@);
    } else {
        let page = after.pages@[after.current_page as int];
        let c = before.page_alloc.page_size() - PAGE_HEADER_SIZE;
        let len = before.pages@.len() as int;
        assert(len * c == (len - 1) * c + c) by (nonlinear_arith);
        assert(after.pages@.len() == len + 1);
        assert(after.pages@.take(before.pages@.len() as int) =~= before.pages@);
        assert forall|a: int| #[trigger]
            before.page_alloc.words().dom().contains(a) implies after.page_alloc.words().dom().contains(
            a,
        ) by {}
    }
}

/// A change of words of memory keeps the frame of a collection.
pub proof fn lemma_write_keeps_frame<P: PageAlloc>(
    first: &Space<P>,
    before: &Space<P>,
    after: &Space<P>,
)
    requires
        gc_frame(first, before),
        after.pages == before.pages,
        after.current_page == before.current_page,
        after.hp == before.hp,
        after.total_alloc == before.total_alloc,
        after.page_alloc.wf(),
        same_pages(&before.page_alloc, &after.page_alloc),
        same_bitmaps(&before.page_alloc, &after.page_alloc),
        after.page_alloc.words().dom() == before.page_alloc.words().dom(),
    ensures
        gc_frame(first, after),
{
    assert(after.wf());
}

/// Large objects are not moved: an attempt traps.
fn evac_large(obj: usize) -> (r: Result<(), Trap>)
    ensures
        r == Err::<(), Trap>(Trap::LargeObject),
{
    Err(Trap::LargeObject)
}

/// Evacuates the object that the field at `ptr_loc` points to, and updates
/// the field.
///
/// Where the field is a place of a well-formed heap that holds a pointer as
/// it was before the collection, the evacuation succeeds, and leaves the
/// heap well formed and the field with the address of the copy.
pub fn evac<P: PageAlloc>(to_space: &mut Space<P>, ptr_loc: usize) -> (r: Result<(), Trap>)
    requires
        old(to_space).wf(),
    ensures
        gc_frame(old(to_space), final(to_space)),
        r == evac_outcome(old(to_space), ptr_loc as int),
        r is Ok ==> evac_post(old(to_space), final(to_space), ptr_loc as int),
        forall|w0: Map<int, u32>, objs: Set<int>, roots: int, table: int, place: Place|
            #![trigger evac_ready(w0, objs, old(to_space), roots, table, place, ptr_loc as int)]
            evac_ready(w0, objs, old(to_space), roots, table, place, ptr_loc as int) ==> r is Ok
                && evac_done(w0, objs, old(to_space), final(to_space), roots, table, place),
{
    let r = evac_object(to_space, ptr_loc);
    proof {
        assert forall|w0: Map<int, u32>, objs: Set<int>, roots: int, table: int, place: Place|
            #![trigger evac_ready(w0, objs, old(to_space), roots, table, place, ptr_loc as int)]
            evac_ready(w0, objs, old(to_space), roots, table, place, ptr_loc as int) implies r is Ok
            && evac_done(w0, objs, old(to_space), to_space, roots, table, place) by {
            lemma_evac(w0, objs, old(to_space), to_space, roots, table, place, ptr_loc as int);
        }
    }
    r
}

/// The work of `evac`.
#[verifier::rlimit(50)]
fn evac_object<P: PageAlloc>(to_space: &mut Space<P>, ptr_loc: usize) -> (r: Result<(), Trap>)
    requires
        old(to_space).wf(),
    ensures
        gc_frame(old(to_space), final(to_space)),
        r == evac_outcome(old(to_space), ptr_loc as int),
        r is Ok ==> evac_post(old(to_space), final(to_space), ptr_loc as int),
{
    proof {
        lemma_gc_frame_refl(to_space);
        to_space.page_alloc.lemma_page_size();
    }
    // Field holds a skewed pointer to the object to evacuate
    let raw: u32 = match load(&to_space.page_alloc, ptr_loc) {
        Ok(raw) => raw,
        Err(trap) => {
            return Err(trap);
        },
    };
    let field = Value::from_raw(raw);
    if !field.is_ptr() {
        return Err(Trap::InvalidObject);
    }
    let obj: usize = field.get_ptr();

    let tag: u32 = match load(&to_space.page_alloc, obj) {
        Ok(tag) => tag,
        Err(trap) => {
            return Err(trap);
        },
    };
    proof {
        to_space.page_alloc.lemma_mapped(obj as int);
        to_space.page_alloc.lemma_mapped(ptr_loc as int);
    }

    // Update the field if the object is already evacuated
    if tag == TAG_FWD_PTR {
        let fwd: u32 = match load(&to_space.page_alloc, obj + 4) {
            Ok(fwd) => fwd,
            Err(trap) => {
                return Err(trap);
            },
        };
        to_space.page_alloc.write_word(ptr_loc, fwd);
        proof {
            assert(to_space.page_alloc.words().dom() =~= old(to_space).page_alloc.words().dom());
            lemma_write_keeps_frame(old(to_space), old(to_space), to_space);
        }
        return Ok(());
    } else if tag == TAG_ONE_WORD_FILLER || tag == TAG_FREE_SPACE {
        return Ok(());
    }
    if to_space.page_alloc.in_static_heap(obj) {
        return Ok(());
    }
    let obj_size: Words<u32> = match object_size_(&to_space.page_alloc, obj, tag) {
        Ok(size) => size,
        Err(trap) => {
            return Err(trap);
        },
    };
    if obj_size.0 < 2 {
        return Err(Trap::InvalidObject);
    }
    let page_size: usize = to_space.page_alloc.page_size_bytes();
    if obj_size.0 as usize > (page_size - PAGE_HEADER_SIZE) / 4 {
        return evac_large(obj);
    }
    let page_start: usize = to_space.page_alloc.get_address_page_start(obj);
    proof {
        to_space.page_alloc.lemma_mapped_in_page(obj as int);
        to_space.page_alloc.lemma_live_page(page_start as int);
    }
    if obj_size.0 as usize * 4 > page_start + page_size - obj {
        return Err(Trap::InvalidObject);
    }
    if !to_space.can_alloc(obj_size) {
        return Err(Trap::OutOfMemory);
    }
    proof {
        assert forall|a: int| obj <= a < obj + 4 * obj_size.0 && a % 4 == 0 implies 
            #[trigger] to_space.page_alloc.words().dom().contains(a) by {
            to_space.page_alloc.lemma_page_mapped(page_start as int, a);
        }
    }

    // Allocate space in to-space for the object
    let copy = to_space.alloc_words(obj_size);
    let obj_addr: usize = copy.get_ptr();
    let ghost allocated = *to_space;
    proof {
        lemma_alloc_keeps_frame(old(to_space), to_space, obj_size, copy);
        let cur = to_space.current_page as int;
        if old(to_space).fits(obj_size) {
            assert(to_space.pages@[cur] == old(to_space).pages@[cur]);
        }
        to_space.page_alloc.lemma_live_handle(to_space.pages@[cur]);
        to_space.page_alloc.lemma_live_page(to_space.start(cur));
        assert forall|a: int| obj_addr <= a < obj_addr + 4 * obj_size.0 && a % 4 == 0 implies 
            #[trigger] to_space.page_alloc.words().dom().contains(a) by {
            to_space.lemma_current_mapped(a);
        }
        assert(mapped_range(
            to_space.page_alloc.words(),
            obj as int,
            obj + 4 * obj_size.0,
        ));
    }

    // Copy object to to-space
    match memcpy_words(&mut to_space.page_alloc, obj_addr, obj, obj_size) {
        Ok(()) => {},
        Err(trap) => {
            return Err(trap);
        },
    }

    // Set forwarding pointer
    proof {
        assert(to_space.page_alloc.words().dom().contains(obj as int));
        assert(to_space.page_alloc.words().dom().contains(obj + 4));
        assert(to_space.page_alloc.words().dom().contains(ptr_loc as int));
    }
    to_space.page_alloc.write_word(obj, TAG_FWD_PTR);
    to_space.page_alloc.write_word(obj + 4, copy.get_raw());

    // Update evacuated field
    to_space.page_alloc.write_word(ptr_loc, copy.get_raw());
    proof {
        assert(to_space.page_alloc.words().dom() =~= allocated.page_alloc.words().dom());
        lemma_write_keeps_frame(old(to_space), &allocated, to_space);
        assert(old(to_space).alloc_post(to_space, obj_size, copy));
    }
    Ok(())
}

/// Evacuates what the pointer fields of the object at `obj` point to.
///
/// Where the object is a root box or a copy of a well-formed heap whose
/// fields are as they were before the collection, the fields end up with the
/// addresses of the copies of what they pointed to.
#[verifier::rlimit(100)]
pub fn scav<P: PageAlloc>(to_space: &mut Space<P>, obj: usize) -> (r: Result<(), Trap>)
    requires
        old(to_space).wf(),
    ensures
        gc_frame(old(to_space), final(to_space)),
        no_fields(old(to_space).page_alloc.words(), obj as int) ==> *final(to_space) == *old(
            to_space,
        ) && r is Ok,
        forall|w0: Map<int, u32>, objs: Set<int>, roots: int, table: int, target: Target|
            #![trigger scav_ready(w0, objs, old(to_space), roots, table, target, obj as int)]
            scav_ready(w0, objs, old(to_space), roots, table, target, obj as int) ==> r is Ok
                && scav_mid(
                w0,
                objs,
                final(to_space),
                roots,
                table,
                target,
                target_count(w0, target),
            ) && scav_kept(w0, objs, old(to_space), final(to_space), roots, table, target),
{
    proof {
        lemma_gc_frame_refl(to_space);
        assert forall|w0: Map<int, u32>, objs: Set<int>, roots: int, table: int, target: Target|
            #![trigger scav_ready(w0, objs, old(to_space), roots, table, target, obj as int)]
            scav_ready(
                w0,
                objs,
                old(to_space),
                roots,
                table,
                target,
                obj as int,
            ) implies scav_at(
            w0,
            objs,
            old(to_space),
            to_space,
            roots,
            table,
            target,
            obj as int,
            0,
        ) by {
            lemma_target_shape(w0, objs, old(to_space), roots, table, target);
            lemma_scav_kept_refl(w0, objs, old(to_space), roots, table, target);
        }
    }
    let tag: u32 = match load(&to_space.page_alloc, obj) {
        Ok(tag) => tag,
        Err(trap) => {
            return Err(trap);
        },
    };
    let (first, n_fields) = match pointer_fields(&to_space.page_alloc, obj, tag) {
        Ok(fields) => fields,
        Err(trap) => {
            return Err(trap);
        },
    };
    let mut field_addr: usize = first;
    let mut i: u32 = 0;
    while i < n_fields
        invariant
            gc_frame(old(to_space), to_space),
            i <= n_fields,
            field_addr == first + 4 * i,
            field_addr <= 0xffff_ffff,
            i == 0 ==> *to_space == *old(to_space),
            spec_pointer_fields(
                old(to_space).page_alloc.words(),
                obj as int,
                old(to_space).page_alloc.words()[obj as int],
            ) == Ok::<(usize, u32), Trap>((first, n_fields)),
            forall|w0: Map<int, u32>, objs: Set<int>, roots: int, table: int, target: Target|
                #![trigger scav_ready(w0, objs, old(to_space), roots, table, target, obj as int)]
                scav_ready(w0, objs, old(to_space), roots, table, target, obj as int) ==> scav_at(
                    w0,
                    objs,
                    old(to_space),
                    to_space,
                    roots,
                    table,
                    target,
                    obj as int,
                    i as int,
                ),
        decreases n_fields - i,
    {
        let ghost before = *to_space;
        let loaded = load(&to_space.page_alloc, field_addr);
        proof {
            assert forall|w0: Map<int, u32>, objs: Set<int>, roots: int, table: int, target: Target|
                #![trigger scav_ready(w0, objs, old(to_space), roots, table, target, obj as int)]
                scav_ready(
                    w0,
                    objs,
                    old(to_space),
                    roots,
                    table,
                    target,
                    obj as int,
                ) implies loaded is Ok by {
                lemma_scav_field(
                    w0,
                    objs,
                    old(to_space),
                    &before,
                    roots,
                    table,
                    target,
                    obj as int,
                    i as int,
                );
            }
        }
        let raw: u32 = match loaded {
            Ok(raw) => raw,
            Err(trap) => {
                return Err(trap);
            },
        };
        proof {
            to_space.page_alloc.lemma_mapped(field_addr as int);
        }
        let mut moved: Result<(), Trap> = Ok(());
        if Value::from_raw(raw).is_ptr() {
            moved = evac(to_space, field_addr);
            proof {
                lemma_gc_frame_trans(old(to_space), &before, to_space);
            }
        }
        proof {
            assert forall|w0: Map<int, u32>, objs: Set<int>, roots: int, table: int, target: Target|
                #![trigger scav_ready(w0, objs, old(to_space), roots, table, target, obj as int)]
                scav_ready(
                    w0,
                    objs,
                    old(to_space),
                    roots,
                    table,
                    target,
                    obj as int,
                ) implies moved is Ok && scav_at(
                w0,
                objs,
                old(to_space),
                to_space,
                roots,
                table,
                target,
                obj as int,
                i + 1,
            ) by {
                lemma_scav_field(
                    w0,
                    objs,
                    old(to_space),
                    &before,
                    roots,
                    table,
                    target,
                    obj as int,
                    i as int,
                );
                let place = target_place(w0, target, i as int);
                if Value(raw).spec_is_ptr() {
                    assert(evac_ready(w0, objs, &before, roots, table, place, field_addr as int));
                }
                lemma_scav_step(
                    w0,
                    objs,
                    old(to_space),
                    &before,
                    to_space,
                    roots,
                    table,
                    target,
                    i as int,
                );
            }
        }
        match moved {
            Ok(()) => {},
            Err(trap) => {
                return Err(trap);
            },
        }
        field_addr = field_addr + 4;
        i = i + 1;
    }
    Ok(())
}

/// Scavenges the elements of the array of static roots at `roots`.  The
/// array and the objects that it points to are static and stay where they
/// are; only what their fields point to is evacuated.
///
/// On a well-formed heap none of whose roots was visited this succeeds, and
/// leaves the heap with all root boxes visited.
#[verifier::rlimit(100)]
pub fn evac_static_roots<P: PageAlloc>(to_space: &mut Space<P>, roots: usize) -> (r: Result<
    (),
    Trap,
>)
    requires
        old(to_space).wf(),
    ensures
        gc_frame(old(to_space), final(to_space)),
        forall|w0: Map<int, u32>, objs: Set<int>, table: int|
            #![trigger roots_phase(w0, objs, old(to_space), roots as int, table, 0, false)]
            roots_phase(w0, objs, old(to_space), roots as int, table, 0, false) ==> r is Ok
                && roots_phase(
                w0,
                objs,
                final(to_space),
                roots as int,
                table,
                w0[roots as int + 4] as int,
                false,
            ),
{
    proof {
        lemma_gc_frame_refl(to_space);
        assert forall|w0: Map<int, u32>, objs: Set<int>, table: int|
            #![trigger roots_phase(w0, objs, old(to_space), roots as int, table, 0, false)]
            roots_phase(
                w0,
                objs,
                old(to_space),
                roots as int,
                table,
                0,
                false,
            ) implies roots_read(w0, objs, to_space, roots as int, table, 0) by {
            lemma_roots_read(w0, objs, old(to_space), roots as int, table, 0);
        }
    }
    let tag: u32 = match load(&to_space.page_alloc, roots) {
        Ok(tag) => tag,
        Err(trap) => {
            return Err(trap);
        },
    };
    if tag != TAG_ARRAY {
        return Err(Trap::InvalidTag);
    }
    proof {
        to_space.page_alloc.lemma_mapped(roots as int);
    }
    let len: u32 = match load(&to_space.page_alloc, roots + 4) {
        Ok(len) => len,
        Err(trap) => {
            return Err(trap);
        },
    };
    proof {
        to_space.page_alloc.lemma_mapped(roots + 4);
    }
    let mut elem_addr: usize = roots + 8;
    let mut i: u32 = 0;
    while i < len
        invariant
            gc_frame(old(to_space), to_space),
            i <= len,
            elem_addr == roots + 8 + 4 * i,
            elem_addr <= 0xffff_ffff,
            forall|w0: Map<int, u32>, objs: Set<int>, table: int|
                #![trigger roots_phase(w0, objs, old(to_space), roots as int, table, 0, false)]
                roots_phase(w0, objs, old(to_space), roots as int, table, 0, false) ==> len
                    == w0[roots as int + 4] && roots_phase(
                    w0,
                    objs,
                    to_space,
                    roots as int,
                    table,
                    i as int,
                    false,
                ),
        decreases len - i,
    {
        let ghost before = *to_space;
        proof {
            assert forall|w0: Map<int, u32>, objs: Set<int>, table: int|
                #![trigger roots_phase(w0, objs, old(to_space), roots as int, table, 0, false)]
                roots_phase(
                    w0,
                    objs,
                    old(to_space),
                    roots as int,
                    table,
                    0,
                    false,
                ) implies roots_read(w0, objs, &before, roots as int, table, i as int) by {
                lemma_roots_read(w0, objs, &before, roots as int, table, i as int);
            }
        }
        let raw: u32 = match load(&to_space.page_alloc, elem_addr) {
            Ok(raw) => raw,
            Err(trap) => {
                return Err(trap);
            },
        };
        proof {
            to_space.page_alloc.lemma_mapped(elem_addr as int);
        }
        let obj = Value::from_raw(raw);
        let scavenged = scav(to_space, obj.get_ptr());
        proof {
            lemma_gc_frame_trans(old(to_space), &before, to_space);
            assert forall|w0: Map<int, u32>, objs: Set<int>, table: int|
                #![trigger roots_phase(w0, objs, old(to_space), roots as int, table, 0, false)]
                roots_phase(
                    w0,
                    objs,
                    old(to_space),
                    roots as int,
                    table,
                    0,
                    false,
                ) implies scavenged is Ok && roots_phase(
                w0,
                objs,
                to_space,
                roots as int,
                table,
                i + 1,
                false,
            ) by {
                assert(roots_read(w0, objs, &before, roots as int, table, i as int));
                assert(scav_ready(
                    w0,
                    objs,
                    &before,
                    roots as int,
                    table,
                    Target::Root(i as int),
                    obj.spec_get_ptr(),
                ));
                lemma_after_root(w0, objs, &before, to_space, roots as int, table, i as int);
            }
        }
        match scavenged {
            Ok(()) => {},
            Err(trap) => {
                return Err(trap);
            },
        }
        elem_addr = elem_addr + 4;
        i = i + 1;
    }
    Ok(())
}

/// Collects into `to_space`: evacuates what the static roots and the
/// continuation table point to, then scavenges the objects of `to_space` in
/// the order in which they were allocated, until none is left that was not
/// scavenged.
///
/// Whatever the heap, the counter of allocated bytes grows by the bytes
/// that the allocation pointer has passed, the rests of the pages that were
/// closed included.
///
/// On a heap of well-formed objects and roots the collection succeeds.
/// The objects that have copies are the reachable ones; the static words
/// but the fields of the root boxes and the continuation table are kept.
/// Every object that a root, the continuation table or a copy points to has
/// a copy then, which has the tag, the size and the words of the object, but
/// for the pointer fields: they, the fields of the root boxes and the
/// continuation table hold the addresses of the copies of the objects that
/// they pointed to.
#[verifier::rlimit(100)]
pub fn copying_gc_internal<P: PageAlloc>(
    to_space: &mut Space<P>,
    static_roots: Value,
    continuation_table_loc: usize,
) -> (r: Result<(), Trap>)
    requires
        old(to_space).wf(),
    ensures
        gc_frame(old(to_space), final(to_space)),
        forall|w0: Map<int, u32>, objs: Set<int>|
            #![trigger copy_start(w0, objs, old(to_space), static_roots.spec_get_ptr(), continuation_table_loc as int)]
            copy_start(
                w0,
                objs,
                old(to_space),
                static_roots.spec_get_ptr(),
                continuation_table_loc as int,
            ) ==> r is Ok && copy_final(
                w0,
                objs,
                final(to_space),
                static_roots.spec_get_ptr(),
                continuation_table_loc as int,
            ),
{
    let ghost roots = static_roots.spec_get_ptr();
    let ghost table = continuation_table_loc as int;
    proof {
        assert forall|w0: Map<int, u32>, objs: Set<int>|
            #![trigger copy_start(w0, objs, old(to_space), roots, table)]
            copy_start(w0, objs, old(to_space), roots, table) implies roots_phase(
            w0,
            objs,
            old(to_space),
            roots,
            table,
            0,
            false,
        ) by {
            lemma_start(w0, objs, old(to_space), roots, table);
        }
    }
    // Evacuate roots
    match evac_static_roots(to_space, static_roots.get_ptr()) {
        Ok(()) => {},
        Err(trap) => {
            return Err(trap);
        },
    }
    let ghost rooted = *to_space;
    let loaded = load(&to_space.page_alloc, continuation_table_loc);
    let table_value: u32 = match loaded {
        Ok(table_value) => table_value,
        Err(trap) => {
            return Err(trap);
        },
    };
    let mut moved: Result<(), Trap> = Ok(());
    if Value::from_raw(table_value).is_ptr() {
        moved = evac(to_space, continuation_table_loc);
        proof {
            lemma_gc_frame_trans(old(to_space), &rooted, to_space);
        }
    }
    proof {
        assert forall|w0: Map<int, u32>, objs: Set<int>|
            #![trigger copy_start(w0, objs, old(to_space), roots, table)]
            copy_start(w0, objs, old(to_space), roots, table) implies moved is Ok && scan_at(
            w0,
            objs,
            to_space,
            roots,
            table,
            0,
            to_space.contents_start(0),
        ) by {
            let n = w0[roots + 4] as int;
            assert(roots_phase(w0, objs, &rooted, roots, table, n, false));
            if Value(table_value).spec_is_ptr() {
                assert(evac_ready(w0, objs, &rooted, roots, table, Place::Table, table));
            }
            lemma_after_table(w0, objs, &rooted, to_space, roots, table, n);
            lemma_scan_begins(w0, objs, to_space, roots, table, n);
        }
    }
    match moved {
        Ok(()) => {},
        Err(trap) => {
            return Err(trap);
        },
    }
    // Scavenge to-space
    let mut to_space_page_idx = to_space.first_page();
    while to_space_page_idx.0 < to_space.pages.len()
        invariant
            gc_frame(old(to_space), to_space),
            roots == static_roots.spec_get_ptr(),
            table == continuation_table_loc as int,
            forall|w0: Map<int, u32>, objs: Set<int>|
                #![trigger copy_start(w0, objs, old(to_space), roots, table)]
                copy_start(w0, objs, old(to_space), roots, table) ==> if to_space_page_idx.0
                    < to_space.pages@.len() {
                    scan_at(
                        w0,
                        objs,
                        to_space,
                        roots,
                        table,
                        to_space_page_idx.0 as int,
                        to_space.contents_start(to_space_page_idx.0 as int),
                    )
                } else {
                    copy_final(w0, objs, to_space, roots, table)
                },
        decreases
            to_space.page_alloc.remaining() + to_space.pages@.len() - to_space_page_idx.0,
    {
        let page = to_space.pages[to_space_page_idx.0];
        proof {
            to_space.page_alloc.lemma_page_size();
            to_space.page_alloc.lemma_live_handle(page);
            to_space.page_alloc.lemma_live_page(P::start_of(page));
        }
        let mut p: usize = to_space.page_alloc.page_contents_start(&page);

        let page_end: usize = to_space.page_alloc.page_end(&page);
        let ghost outer = *to_space;
        let ghost si = to_space_page_idx.0 as int;
        proof {
            lemma_gc_frame_refl(to_space);
        }

        while p != to_space.allocation_pointer() && p != page_end
            invariant
                gc_frame(old(to_space), to_space),
                gc_frame(&outer, to_space),
                p <= page_end <= 0xffff_ffff,
                si == to_space_page_idx.0,
                si < outer.pages@.len(),
                roots == static_roots.spec_get_ptr(),
                table == continuation_table_loc as int,
                page_end == outer.end(si),
                forall|w0: Map<int, u32>, objs: Set<int>|
                    #![trigger copy_start(w0, objs, old(to_space), roots, table)]
                    copy_start(w0, objs, old(to_space), roots, table) ==> scan_at(
                        w0,
                        objs,
                        to_space,
                        roots,
                        table,
                        si,
                        p as int,
                    ),
            decreases to_space.page_alloc.remaining(), page_end - p,
        {
            let ghost before = *to_space;
            proof {
                lemma_page_stays(&outer, &before, si, p as int);
                assert forall|w0: Map<int, u32>, objs: Set<int>|
                    #![trigger copy_start(w0, objs, old(to_space), roots, table)]
                    copy_start(w0, objs, old(to_space), roots, table) implies scan_object(
                    w0,
                    objs,
                    &before,
                    roots,
                    table,
                    si,
                    p as int,
                ) by {
                    lemma_scan_object(
                        w0,
                        objs,
                        &before,
                        roots,
                        table,
                        w0[roots + 4] as int,
                        si,
                        p as int,
                    );
                }
            }
            let sized = object_size(&to_space.page_alloc, p);
            proof {
                assert forall|w0: Map<int, u32>, objs: Set<int>|
                    #![trigger copy_start(w0, objs, old(to_space), roots, table)]
                    copy_start(w0, objs, old(to_space), roots, table) implies sized is Ok
                    && sized->Ok_0.0 >= 1 && p + 4 * sized->Ok_0.0 <= page_end by {
                    lemma_object_fits(w0, objs, &before, roots, table, si, p as int);
                }
            }
            let size: Words<u32> = match sized {
                Ok(size) => size,
                Err(trap) => {
                    return Err(trap);
                },
            };
            if size.0 == 0 || size.0 as usize > (page_end - p) / 4 {
                return Err(Trap::InvalidObject);
            }
            let scavenged = scav(to_space, p);
            proof {
                lemma_gc_frame_trans(old(to_space), &before, to_space);
                lemma_gc_frame_trans(&outer, &before, to_space);
                assert forall|w0: Map<int, u32>, objs: Set<int>|
                    #![trigger copy_start(w0, objs, old(to_space), roots, table)]
                    copy_start(w0, objs, old(to_space), roots, table) implies scavenged is Ok
                    && scan_at(w0, objs, to_space, roots, table, si, p + 4 * size.0) by {
                    lemma_scan_step(
                        w0,
                        objs,
                        &before,
                        to_space,
                        roots,
                        table,
                        si,
                        p as int,
                        size.0 as int,
                        scavenged,
                    );
                }
            }
            match scavenged {
                Ok(()) => {},
                Err(trap) => {
                    return Err(trap);
                },
            }
            p = p + size.0 as usize * 4;
        }
        to_space_page_idx = to_space_page_idx.next();
        proof {
            lemma_page_stays(&outer, to_space, si, p as int);
            assert forall|w0: Map<int, u32>, objs: Set<int>|
                #![trigger copy_start(w0, objs, old(to_space), roots, table)]
                copy_start(w0, objs, old(to_space), roots, table) implies if to_space_page_idx.0
                < to_space.pages@.len() {
                scan_at(
                    w0,
                    objs,
                    to_space,
                    roots,
                    table,
                    to_space_page_idx.0 as int,
                    to_space.contents_start(to_space_page_idx.0 as int),
                )
            } else {
                copy_final(w0, objs, to_space, roots, table)
            } by {
                assert(scan_at(w0, objs, to_space, roots, table, si, p as int));
                if p == to_space.hp {
                    lemma_hp_in_current(w0, objs, to_space, si, p as int);
                }
                if si + 1 < to_space.pages@.len() {
                    lemma_next_page(
                        w0,
                        objs,
                        to_space,
                        roots,
                        table,
                        w0[roots + 4] as int,
                        si,
                        p as int,
                    );
                } else {
                    lemma_scan_done(w0, objs, to_space, roots, table, si, p as int);
                }
            }
        }
    }
    Ok(())
}

/// The bound on the allocation of a space from which on a copying
/// collection is due: half of the address space, the most that the other
/// half can take over.
pub const COPYING_MAX_LIVE: u64 = 0x8000_0000;

/// Collects the space `from_space`: what is reachable from the static roots
/// and from the continuation table is copied into a space of fresh pages,
/// which is handed back, and the pages of `from_space` are freed.
///
/// On a heap of well-formed objects and roots the collection succeeds, and
/// hands back the space that holds the copies, with the fields of the root
/// boxes, the continuation table and the pointer fields of the copies
/// pointing to the copies.
#[verifier::rlimit(50)]
pub fn copying_gc<P: PageAlloc>(
    from_space: Space<P>,
    static_roots: Value,
    continuation_table_loc: usize,
) -> (r: Result<Space<P>, Trap>)
    requires
        from_space.wf(),
    ensures
        match r {
            Ok(to_space) => {
                &&& to_space.wf()
                &&& to_space.total_alloc == crate::space::saturating_sum(0, to_space.filled())
                &&& crate::page_alloc::same_config(&from_space.page_alloc, &to_space.page_alloc)
                &&& forall|i: int|
                    0 <= i < from_space.pages@.len() ==> !to_space.page_alloc.live().contains(
                        #[trigger] from_space.start(i),
                    )
                &&& forall|k: int|
                    0 <= k < to_space.pages@.len() ==> !from_space.page_alloc.live().contains(
                        #[trigger] to_space.start(k),
                    )
            },
            Err(_) => true,
        },
        forall|objs: Set<int>|
            #![trigger heap_before(&from_space, objs, static_roots.spec_get_ptr(), continuation_table_loc as int)]
            heap_before(
                &from_space,
                objs,
                static_roots.spec_get_ptr(),
                continuation_table_loc as int,
            ) ==> r is Ok && collected(
                from_space.page_alloc.words(),
                objs,
                &r->Ok_0,
                static_roots.spec_get_ptr(),
                continuation_table_loc as int,
            ),
{
    let ghost w0 = from_space.page_alloc.words();
    let ghost roots = static_roots.spec_get_ptr();
    let ghost table = continuation_table_loc as int;
    let Space { page_alloc, pages: from_pages, current_page: _, hp: _, total_alloc: _ } =
        from_space;
    if !page_alloc.can_alloc() {
        return Err(Trap::OutOfMemory);
    }
    let mut to_space = Space::new(page_alloc);
    let ghost fresh = to_space;
    proof {
        assert forall|objs: Set<int>|
            #![trigger heap_before(&from_space, objs, roots, table)]
            heap_before(&from_space, objs, roots, table) implies copy_start(
            w0,
            objs,
            &fresh,
            roots,
            table,
        ) by {
            lemma_collection_starts(&from_space, &fresh, objs, roots, table);
        }
    }

    match copying_gc_internal(&mut to_space, static_roots, continuation_table_loc) {
        Ok(()) => {},
        Err(trap) => {
            return Err(trap);
        },
    }
    proof {
        assert forall|k: int| 0 <= k < to_space.pages@.len() implies !from_space.page_alloc.live().contains(
            #[trigger] to_space.start(k),
        ) by {
            if k == 0 {
                assert(to_space.pages@.take(1)[0] == fresh.pages@[0]);
            } else {
                assert(!fresh.page_alloc.live().contains(P::start_of(to_space.pages@[k])));
            }
        }
        assert forall|i: int| 0 <= i < from_pages@.len() implies to_space.page_alloc.is_live(
            #[trigger] from_pages@[i],
        ) by {
            assert(from_space.page_alloc.is_live(from_pages@[i]));
            assert(fresh.page_alloc.is_live(from_pages@[i]));
        }
    }

    // Release from-space
    let ghost mid = to_space;
    let mut from_pages = from_pages;
    while from_pages.len() > 0
        invariant
            to_space.wf(),
            mid.wf(),
            released(&mid, &to_space),
            crate::page_alloc::same_config(&mid.page_alloc, &to_space.page_alloc),
            from_space.wf(),
            crate::page_alloc::same_config(&from_space.page_alloc, &to_space.page_alloc),
            from_pages@ == from_space.pages@.take(from_pages@.len() as int),
            from_pages@.len() <= from_space.pages@.len(),
            forall|i: int|
                0 <= i < from_pages@.len() ==> to_space.page_alloc.is_live(#[trigger] from_pages@[i]),
            forall|i: int|
                from_pages@.len() <= i < from_space.pages@.len()
                    ==> !to_space.page_alloc.live().contains(#[trigger] from_space.start(i)),
            forall|k: int|
                0 <= k < to_space.pages@.len() ==> !from_space.page_alloc.live().contains(
                    P::start_of(#[trigger] to_space.pages@[k]),
                ),
        decreases from_pages@.len(),
    {
        let ghost prev = to_space;
        let ghost n = from_pages@.len() as int;
        let page = from_pages.pop().unwrap();
        proof {
            assert(page == from_space.pages@[n - 1]);
            assert(to_space.page_alloc.is_live(page));
            from_space.page_alloc.lemma_live_handle(page);
        }
        to_space.page_alloc.free(page);
        proof {
            assert forall|k: int| 0 <= k < to_space.pages@.len() implies to_space.page_alloc.is_live(
                #[trigger] to_space.pages@[k],
            ) by {
                assert(prev.pages@[k] == to_space.pages@[k]);
                assert(!from_space.page_alloc.live().contains(P::start_of(to_space.pages@[k])));
                assert(prev.page_alloc.is_live(to_space.pages@[k]));
            }
            assert forall|i: int| 0 <= i < from_pages@.len() implies to_space.page_alloc.is_live(
                #[trigger] from_pages@[i],
            ) by {
                assert(from_pages@[i] == from_space.pages@[i]);
                assert(prev.page_alloc.is_live(from_space.pages@[i]));
                assert(P::start_of(from_space.pages@[i]) != P::start_of(from_space.pages@[n - 1]));
            }
            assert forall|i: int|
                from_pages@.len() <= i < from_space.pages@.len()
                    implies !to_space.page_alloc.live().contains(#[trigger] from_space.start(i)) by {
                if i > n - 1 {
                    assert(!prev.page_alloc.live().contains(from_space.start(i)));
                }
            }
            let cur = to_space.current_page as int;
            to_space.page_alloc.lemma_live_handle(to_space.pages@[cur]);
            assert forall|x: int|
                mid.page_alloc.is_static(x) && mid.page_alloc.words().dom().contains(
                    x,
                ) implies #[trigger] to_space.page_alloc.words().dom().contains(x) by {
                assert(prev.page_alloc.words().dom().contains(x));
                prev.page_alloc.lemma_live_handle(page);
                prev.page_alloc.lemma_page_mapped_static(P::start_of(page), x);
            }
        }
    }
    proof {
        assert forall|objs: Set<int>|
            #![trigger heap_before(&from_space, objs, roots, table)]
            heap_before(&from_space, objs, roots, table) implies collected(
            w0,
            objs,
            &to_space,
            roots,
            table,
        ) by {
            assert(copy_final(w0, objs, &mid, roots, table) && released(&mid, &to_space));
        }
    }
    Ok(to_space)
}

/// Runs a copying collection if one is due, and hands back the space to
/// allocate in from now on.
pub fn schedule_copying_gc<P: PageAlloc>(
    space: Space<P>,
    static_roots: Value,
    continuation_table_loc: usize,
) -> (r: Result<Space<P>, Trap>)
    requires
        space.wf(),
    ensures
        space.total_alloc < COPYING_MAX_LIVE ==> r == Ok::<Space<P>, Trap>(space),
        r matches Ok(after) ==> after.wf() && crate::page_alloc::same_config(
            &space.page_alloc,
            &after.page_alloc,
        ),
        forall|objs: Set<int>|
            #![trigger heap_before(&space, objs, static_roots.spec_get_ptr(), continuation_table_loc as int)]
            space.total_alloc >= COPYING_MAX_LIVE && heap_before(
                &space,
                objs,
                static_roots.spec_get_ptr(),
                continuation_table_loc as int,
            ) ==> r is Ok && collected(
                space.page_alloc.words(),
                objs,
                &r->Ok_0,
                static_roots.spec_get_ptr(),
                continuation_table_loc as int,
            ),
{
    if should_do_gc(&space, Bytes(COPYING_MAX_LIVE)) {
        copying_gc(space, static_roots, continuation_table_loc)
    } else {
        Ok(space)
    }
}

} // verus!
