use motoko_rts::gc::mark_compact::{
    compacting_gc, compacting_gc_internal, compacting_max_live, get_tag, mark_compact,
    schedule_compacting_gc, thread, unthread,
};
use motoko_rts::object::{object_size, Trap};
use motoko_rts::page_alloc::{PageAlloc, WordMemory};
use motoko_rts::space::Space;
use motoko_rts::test_page_alloc::{TestPageAlloc, STATIC_HEAP_BASE};
use motoko_rts::types::{
    Bytes, Value, Words, TAG_ARRAY, TAG_BLOB, TAG_FREE_SPACE, TAG_FWD_PTR, TAG_MUTBOX,
    TAG_ONE_WORD_FILLER,
};

const TABLE: usize = STATIC_HEAP_BASE;
const ROOT_ARRAY: usize = STATIC_HEAP_BASE + 4;

/// A heap with `n_roots` static roots, all scalar zero, and an empty
/// continuation table.
fn new_heap(page_size: usize, n_roots: usize) -> Space<TestPageAlloc> {
    let mut page_alloc = TestPageAlloc::with_static_heap(page_size, 3 + 3 * n_roots);
    page_alloc.write_word(ROOT_ARRAY, TAG_ARRAY);
    page_alloc.write_word(ROOT_ARRAY + 4, n_roots as u32);
    for i in 0..n_roots {
        let mutbox = root_box(n_roots, i);
        page_alloc.write_word(ROOT_ARRAY + 8 + 4 * i, Value::from_ptr(mutbox).get_raw());
        page_alloc.write_word(mutbox, TAG_MUTBOX);
    }
    Space::new(page_alloc)
}

fn roots() -> Value {
    Value::from_ptr(ROOT_ARRAY)
}

fn root_box(n_roots: usize, i: usize) -> usize {
    ROOT_ARRAY + 8 + 4 * n_roots + 8 * i
}

fn set_root(space: &mut Space<TestPageAlloc>, n_roots: usize, i: usize, v: Value) {
    space.page_alloc.write_word(root_box(n_roots, i) + 4, v.get_raw());
}

fn get_root(space: &Space<TestPageAlloc>, n_roots: usize, i: usize) -> Value {
    Value::from_raw(space.page_alloc.read_word(root_box(n_roots, i) + 4))
}

fn alloc_mutbox(space: &mut Space<TestPageAlloc>, field: Value) -> Value {
    let v = space.alloc_words(Words(2));
    space.page_alloc.write_word(v.get_ptr(), TAG_MUTBOX);
    space.page_alloc.write_word(v.get_ptr() + 4, field.get_raw());
    v
}

fn alloc_array(space: &mut Space<TestPageAlloc>, fields: &[Value]) -> Value {
    let v = space.alloc_array(fields.len() as u32);
    for (i, f) in fields.iter().enumerate() {
        space.page_alloc.write_word(v.get_ptr() + 8 + 4 * i, f.get_raw());
    }
    v
}

fn alloc_blob(space: &mut Space<TestPageAlloc>, words: &[u32], len: u32) -> Value {
    let v = space.alloc_blob(Bytes(len));
    for (i, w) in words.iter().enumerate() {
        space.page_alloc.write_word(v.get_ptr() + 8 + 4 * i, *w);
    }
    v
}

fn read(space: &Space<TestPageAlloc>, addr: usize) -> u32 {
    space.page_alloc.read_word(addr)
}

fn field(space: &Space<TestPageAlloc>, obj: Value, i: usize) -> Value {
    Value::from_raw(read(space, obj.get_ptr() + 4 * i))
}

fn in_space(space: &Space<TestPageAlloc>, addr: usize) -> bool {
    if !space.page_alloc.contains(addr) || space.page_alloc.in_static_heap(addr) {
        return false;
    }
    let page = space.page_alloc.get_address_page_start(addr);
    space.iter_pages().iter().any(|p| space.page_alloc.page_start(p) == page)
}

/// Walks the pages of the space object by object and checks that no
/// forwarding pointer is left and that every pointer field points to the
/// start of an object of the space, or to static memory.
fn check_space(space: &Space<TestPageAlloc>) -> usize {
    let mut starts = Vec::new();
    let mut objects = Vec::new();
    let n_pages = space.iter_pages().len();
    for (i, page) in space.iter_pages().iter().enumerate() {
        let mut p = space.page_alloc.page_contents_start(page);
        let end = if i + 1 == n_pages { space.hp() } else { space.page_alloc.page_end(page) };
        while p < end {
            let tag = read(space, p);
            assert_ne!(tag, TAG_FWD_PTR);
            assert_eq!(tag % 2, 1);
            let size = object_size(&space.page_alloc, p).unwrap();
            if tag != TAG_ONE_WORD_FILLER && tag != TAG_FREE_SPACE {
                starts.push(p);
                objects.push((p, tag));
            }
            p += 4 * size.0 as usize;
        }
        assert_eq!(p, end);
    }
    for (p, tag) in &objects {
        let (first, n) = motoko_rts::object::pointer_fields(&space.page_alloc, *p, *tag).unwrap();
        for i in 0..n as usize {
            let v = Value::from_raw(read(space, first + 4 * i));
            if v.is_ptr() {
                let target = v.get_ptr();
                assert!(space.page_alloc.in_static_heap(target) || starts.contains(&target));
            }
        }
    }
    objects.len()
}

/// What is reachable from `v`, as the tags, sizes and scalar words in the
/// order of a walk; pointers are named by the order in which their targets
/// are first met.
fn shape(space: &Space<TestPageAlloc>, v: Value, seen: &mut Vec<usize>, out: &mut Vec<u32>) {
    if !v.is_ptr() {
        out.push(v.get_raw());
        return;
    }
    let p = v.get_ptr();
    if let Some(i) = seen.iter().position(|q| *q == p) {
        out.push(0x8000_0000 + i as u32);
        return;
    }
    seen.push(p);
    let tag = read(space, p);
    let size = object_size(&space.page_alloc, p).unwrap().0 as usize;
    let (first, n) = motoko_rts::object::pointer_fields(&space.page_alloc, p, tag).unwrap();
    out.push(tag);
    out.push(size as u32);
    let mut a = p + 4;
    while a < p + 4 * size {
        if n > 0 && a >= first && a < first + 4 * n as usize {
            shape(space, Value::from_raw(read(space, a)), seen, out);
        } else {
            out.push(read(space, a));
        }
        a += 4;
    }
}

fn build_graph(space: &mut Space<TestPageAlloc>) -> Value {
    let blob = alloc_blob(space, &[0x0102_0304, 0x0506_0708, 9], 9);
    let a = alloc_mutbox(space, blob);
    let _garbage = alloc_array(space, &[a, blob]);
    let b = alloc_array(space, &[a, Value::from_scalar(1), blob, a]);
    let object = space.alloc_words(Words(5));
    for (i, w) in [1u32, 2, 0xabcd, b.get_raw(), a.get_raw()].iter().enumerate() {
        space.page_alloc.write_word(object.get_ptr() + 4 * i, *w);
    }
    space.page_alloc.write_word(a.get_ptr() + 4, object.get_raw());
    let _more_garbage = alloc_blob(space, &[5], 4);
    object
}


fn used_words(space: &Space<TestPageAlloc>) -> Vec<(usize, u32)> {
    let mut words = Vec::new();
    let n_pages = space.iter_pages().len();
    for (i, page) in space.iter_pages().iter().enumerate() {
        let mut a = space.page_alloc.page_contents_start(page);
        let end = if i + 1 == n_pages { space.hp() } else { space.page_alloc.page_end(page) };
        while a < end {
            words.push((a, read(space, a)));
            a += 4;
        }
    }
    words
}

fn no_bitmaps_left(space: &Space<TestPageAlloc>) {
    for page in space.iter_pages() {
        assert!(space.page_alloc.get_bitmap(space.page_alloc.page_start(page)).is_none());
    }
}

#[test]
fn shared_blob_of_an_array_survives() {
    let mut space = new_heap(1024, 1);
    let _garbage = alloc_blob(&mut space, &[1, 2, 3], 12);
    let blob = alloc_blob(&mut space, &[0xefbe_adde], 4);
    let mut fields = vec![Value::from_scalar(0); 10];
    fields[0] = blob;
    fields[9] = blob;
    let array = alloc_array(&mut space, &fields);
    set_root(&mut space, 1, 0, array);

    assert_eq!(mark_compact(&mut space, roots(), TABLE), Ok(()));

    let array = get_root(&space, 1, 0);
    assert_eq!(read(&space, array.get_ptr()), TAG_ARRAY);
    assert_eq!(read(&space, array.get_ptr() + 4), 10);
    let first = field(&space, array, 2);
    let last = field(&space, array, 11);
    assert_eq!(first, last);
    assert!(first.is_ptr());
    assert_eq!(read(&space, first.get_ptr()), TAG_BLOB);
    assert_eq!(read(&space, first.get_ptr() + 4), 4);
    // the bytes DE AD BE EF, the lowest byte first
    assert_eq!(read(&space, first.get_ptr() + 8).to_le_bytes(), [0xde, 0xad, 0xbe, 0xef]);
    for i in 3..11 {
        assert_eq!(field(&space, array, i), Value::from_scalar(0));
    }
    // the garbage is gone: the blob moved to the start of the page
    let page = *space.iter_pages().first().unwrap();
    assert_eq!(first.get_ptr(), space.page_alloc.page_contents_start(&page));
    assert_eq!(array.get_ptr(), first.get_ptr() + 12);
    assert_eq!(space.hp(), array.get_ptr() + 48);
    assert_eq!(check_space(&space), 2);
    no_bitmaps_left(&space);
}

#[test]
fn cycle_survives_two_collections() {
    let mut space = new_heap(1024, 1);
    let _garbage = alloc_mutbox(&mut space, Value::from_scalar(0));
    let a = alloc_mutbox(&mut space, Value::from_scalar(0));
    let _more_garbage = alloc_mutbox(&mut space, a);
    let b = alloc_mutbox(&mut space, a);
    space.page_alloc.write_word(a.get_ptr() + 4, b.get_raw());
    set_root(&mut space, 1, 0, a);

    assert_eq!(mark_compact(&mut space, roots(), TABLE), Ok(()));
    let a1 = get_root(&space, 1, 0);
    let b1 = field(&space, a1, 1);
    assert_ne!(a1, b1);
    assert_eq!(read(&space, a1.get_ptr()), TAG_MUTBOX);
    assert_eq!(read(&space, b1.get_ptr()), TAG_MUTBOX);
    assert_eq!(field(&space, b1, 1), a1);
    assert_eq!(check_space(&space), 2);
    let words = used_words(&space);

    assert_eq!(mark_compact(&mut space, roots(), TABLE), Ok(()));
    let a2 = get_root(&space, 1, 0);
    let b2 = field(&space, a2, 1);
    assert_eq!(a2, a1);
    assert_eq!(b2, b1);
    assert_eq!(field(&space, b2, 1), a2);
    // the second collection leaves the heap as it is
    assert_eq!(used_words(&space), words);
    no_bitmaps_left(&space);
}

#[test]
fn self_pointers_are_updated() {
    let mut space = new_heap(1024, 1);
    let _garbage = alloc_array(&mut space, &[Value::from_scalar(0); 5]);
    let own = alloc_array(&mut space, &[Value::from_scalar(1), Value::from_scalar(2)]);
    space.page_alloc.write_word(own.get_ptr() + 8, own.get_raw());
    space.page_alloc.write_word(own.get_ptr() + 12, own.get_raw());
    set_root(&mut space, 1, 0, own);
    assert_eq!(compacting_gc(&mut space, roots(), TABLE), Ok(()));
    let moved = get_root(&space, 1, 0);
    assert_ne!(moved, own);
    assert_eq!(read(&space, moved.get_ptr()), TAG_ARRAY);
    assert_eq!(field(&space, moved, 2), moved);
    assert_eq!(field(&space, moved, 3), moved);
    assert_eq!(space.hp(), moved.get_ptr() + 16);
}

#[test]
fn nothing_reachable_leaves_an_empty_space() {
    let mut space = new_heap(64, 2);
    for _ in 0..40 {
        alloc_mutbox(&mut space, Value::from_scalar(5));
    }
    assert!(space.iter_pages().len() > 3);
    let first = space.sorted_pages()[0];
    assert_eq!(mark_compact(&mut space, roots(), TABLE), Ok(()));
    assert_eq!(space.iter_pages().len(), 1);
    assert_eq!(space.hp(), space.page_alloc.page_contents_start(&first));
    assert_eq!(check_space(&space), 0);
}

#[test]
fn reachable_objects_keep_their_contents_over_many_pages() {
    let mut space = new_heap(64, 3);
    // a long list with garbage in between, over many pages
    let mut next = Value::from_scalar(77);
    let mut all = Vec::new();
    for i in 0..60u32 {
        let blob = alloc_blob(&mut space, &[i, i + 1], 8);
        alloc_array(&mut space, &[next, blob]);
        next = alloc_array(&mut space, &[next, blob, Value::from_scalar(i)]);
        all.push(next);
    }
    // an array that points forwards and backwards into the list
    let cross = alloc_array(&mut space, &[all[3], all[40], all[59], all[0]]);
    space.page_alloc.write_word(all[20].get_ptr() + 16, cross.get_raw());
    set_root(&mut space, 3, 0, next);
    set_root(&mut space, 3, 1, all[30]);
    set_root(&mut space, 3, 2, Value::from_scalar(9));
    space.page_alloc.write_word(TABLE, cross.get_raw());
    let n_pages = space.iter_pages().len();

    let mut seen = Vec::new();
    let mut before = Vec::new();
    shape(&space, next, &mut seen, &mut before);
    shape(&space, all[30], &mut seen, &mut before);
    shape(&space, cross, &mut seen, &mut before);

    assert_eq!(compacting_gc_internal(&mut space, roots(), TABLE), Ok(()));

    let mut seen = Vec::new();
    let mut after = Vec::new();
    shape(&space, get_root(&space, 3, 0), &mut seen, &mut after);
    shape(&space, get_root(&space, 3, 1), &mut seen, &mut after);
    shape(&space, Value::from_raw(read(&space, TABLE)), &mut seen, &mut after);
    assert_eq!(before, after);
    assert_eq!(get_root(&space, 3, 2), Value::from_scalar(9));
    assert_eq!(check_space(&space), 121);
    assert!(space.iter_pages().len() < n_pages);
    no_bitmaps_left(&space);

    // a second collection leaves the heap byte for byte as it is
    let words = used_words(&space);
    let hp = space.hp();
    assert_eq!(compacting_gc_internal(&mut space, roots(), TABLE), Ok(()));
    assert_eq!(space.hp(), hp);
    assert_eq!(used_words(&space), words);
}

#[test]
fn objects_move_down_in_address_order() {
    let mut space = new_heap(1024, 3);
    let _g1 = alloc_mutbox(&mut space, Value::from_scalar(0));
    let a = alloc_mutbox(&mut space, Value::from_scalar(1));
    let _g2 = alloc_blob(&mut space, &[0; 4], 16);
    let b = alloc_mutbox(&mut space, Value::from_scalar(2));
    let c = alloc_mutbox(&mut space, Value::from_scalar(3));
    set_root(&mut space, 3, 0, c);
    set_root(&mut space, 3, 1, a);
    set_root(&mut space, 3, 2, b);
    let start = space.page_alloc.page_contents_start(&space.iter_pages()[0]);
    assert_eq!(compacting_gc(&mut space, roots(), TABLE), Ok(()));
    assert_eq!(get_root(&space, 3, 1), Value::from_ptr(start));
    assert_eq!(get_root(&space, 3, 2), Value::from_ptr(start + 8));
    assert_eq!(get_root(&space, 3, 0), Value::from_ptr(start + 16));
    assert_eq!(space.hp(), start + 24);
    assert_eq!(read(&space, start + 4), Value::from_scalar(1).get_raw());
    assert_eq!(read(&space, start + 12), Value::from_scalar(2).get_raw());
    assert_eq!(read(&space, start + 20), Value::from_scalar(3).get_raw());
    // allocation goes on behind the moved objects
    let d = alloc_mutbox(&mut space, Value::from_scalar(4));
    assert_eq!(d.get_ptr(), start + 24);
}

#[test]
fn rest_of_a_page_is_closed_with_a_filler() {
    // contents area of 56 bytes
    let mut space = new_heap(64, 2);
    let _garbage = alloc_mutbox(&mut space, Value::from_scalar(0));
    let a = alloc_array(&mut space, &[Value::from_scalar(1); 9]); // 44 bytes
    let b = alloc_array(&mut space, &[Value::from_scalar(2); 4]); // 24 bytes, next page
    assert_eq!(space.iter_pages().len(), 2);
    set_root(&mut space, 2, 0, a);
    set_root(&mut space, 2, 1, b);
    assert_eq!(mark_compact(&mut space, roots(), TABLE), Ok(()));
    assert_eq!(space.iter_pages().len(), 2);
    let a = get_root(&space, 2, 0);
    let b = get_root(&space, 2, 1);
    let first = space.iter_pages()[0];
    let second = space.iter_pages()[1];
    assert_eq!(a.get_ptr(), space.page_alloc.page_contents_start(&first));
    assert_eq!(b.get_ptr(), space.page_alloc.page_contents_start(&second));
    // 12 bytes are left behind the first array: a free-space object
    assert_eq!(read(&space, a.get_ptr() + 44), TAG_FREE_SPACE);
    assert_eq!(read(&space, a.get_ptr() + 48), 3);
    assert_eq!(check_space(&space), 2);
}

#[test]
fn threading_and_unthreading_a_field() {
    let mut space = new_heap(1024, 1);
    let target = alloc_mutbox(&mut space, Value::from_scalar(5));
    let f1 = alloc_mutbox(&mut space, target);
    let f2 = alloc_mutbox(&mut space, target);
    let t = target.get_ptr();
    let pa = &mut space.page_alloc;
    assert_eq!(get_tag(pa, t), Ok(TAG_MUTBOX));
    assert_eq!(thread(pa, f1.get_ptr() + 4), Ok(()));
    // the field holds the header, the header the address of the field
    assert_eq!(pa.read_word(f1.get_ptr() + 4), TAG_MUTBOX);
    assert_eq!(pa.read_word(t), (f1.get_ptr() + 4) as u32);
    assert_eq!(thread(pa, f2.get_ptr() + 4), Ok(()));
    assert_eq!(pa.read_word(f2.get_ptr() + 4), (f1.get_ptr() + 4) as u32);
    assert_eq!(pa.read_word(t), (f2.get_ptr() + 4) as u32);
    assert_eq!(get_tag(pa, t), Ok(TAG_MUTBOX));
    assert_eq!(unthread(pa, t, 0x100), Ok(()));
    assert_eq!(pa.read_word(t), TAG_MUTBOX);
    assert_eq!(pa.read_word(f1.get_ptr() + 4), Value::from_ptr(0x100).get_raw());
    assert_eq!(pa.read_word(f2.get_ptr() + 4), Value::from_ptr(0x100).get_raw());
}

#[test]
fn threading_traps() {
    let mut space = new_heap(1024, 1);
    let a = alloc_mutbox(&mut space, Value::from_scalar(5));
    let pa = &mut space.page_alloc;
    assert_eq!(thread(pa, 4), Err(Trap::OutOfBounds));
    assert_eq!(thread(pa, a.get_ptr() + 4), Err(Trap::InvalidObject));
    pa.write_word(a.get_ptr() + 4, Value::from_ptr(0x7000_0000).get_raw());
    assert_eq!(thread(pa, a.get_ptr() + 4), Err(Trap::OutOfBounds));
    assert_eq!(get_tag(pa, 4), Err(Trap::OutOfBounds));
    // a chain that leaves the memory
    pa.write_word(a.get_ptr(), 0x7000_0000);
    assert_eq!(get_tag(pa, a.get_ptr()), Err(Trap::OutOfBounds));
    assert_eq!(unthread(pa, a.get_ptr(), 0x100), Err(Trap::OutOfBounds));
    // a header that is no tag of an object
    pa.write_word(a.get_ptr(), TAG_FWD_PTR);
    assert_eq!(get_tag(pa, a.get_ptr()), Err(Trap::InvalidTag));
    pa.write_word(a.get_ptr(), TAG_ONE_WORD_FILLER);
    assert_eq!(get_tag(pa, a.get_ptr()), Err(Trap::InvalidTag));
}

#[test]
fn collection_traps_on_bad_heaps() {
    // the roots are no array
    let mut space = new_heap(256, 1);
    assert_eq!(mark_compact(&mut space, Value::from_ptr(TABLE), TABLE), Err(Trap::InvalidTag));
    // a root outside of static memory
    let mut space = new_heap(256, 1);
    let a = alloc_mutbox(&mut space, Value::from_scalar(0));
    space.page_alloc.write_word(ROOT_ARRAY + 8, a.get_raw());
    assert_eq!(mark_compact(&mut space, roots(), TABLE), Err(Trap::InvalidObject));
    // a dangling pointer
    let mut space = new_heap(256, 1);
    set_root(&mut space, 1, 0, Value::from_ptr(0x7000_0000));
    assert_eq!(mark_compact(&mut space, roots(), TABLE), Err(Trap::OutOfBounds));
    // a pointer into a page that is not of the space
    let mut space = new_heap(256, 1);
    let other = space.page_alloc.alloc_page();
    let start = space.page_alloc.page_contents_start(&other);
    space.page_alloc.write_word(start, TAG_MUTBOX);
    set_root(&mut space, 1, 0, Value::from_ptr(start));
    assert_eq!(mark_compact(&mut space, roots(), TABLE), Err(Trap::InvalidObject));
    // an object without a tag
    let mut space = new_heap(256, 1);
    let junk = space.alloc_words(Words(2));
    set_root(&mut space, 1, 0, junk);
    assert_eq!(mark_compact(&mut space, roots(), TABLE), Err(Trap::InvalidTag));
    // a continuation table that is not static
    let mut space = new_heap(256, 1);
    let a = alloc_mutbox(&mut space, Value::from_scalar(0));
    let cell = alloc_mutbox(&mut space, a);
    assert_eq!(mark_compact(&mut space, roots(), cell.get_ptr() + 4), Err(Trap::InvalidObject));
}

#[test]
fn pages_with_room_for_no_stack_entry_cannot_be_collected() {
    let mut space = new_heap(16, 1);
    assert_eq!(mark_compact(&mut space, roots(), TABLE), Err(Trap::OutOfMemory));
}

#[test]
fn compaction_is_scheduled_by_allocation() {
    assert_eq!(compacting_max_live(), Bytes(3623878656u64));
    let mut space = new_heap(256, 1);
    let _garbage = alloc_mutbox(&mut space, Value::from_scalar(0));
    let a = alloc_mutbox(&mut space, Value::from_scalar(1));
    set_root(&mut space, 1, 0, a);
    let hp = space.hp();
    assert_eq!(schedule_compacting_gc(&mut space, roots(), TABLE), Ok(()));
    assert_eq!(space.hp(), hp);
    assert_eq!(get_root(&space, 1, 0), a);
    space.total_alloc = 3623878656;
    assert_eq!(schedule_compacting_gc(&mut space, roots(), TABLE), Ok(()));
    assert_eq!(space.hp(), hp - 8);
    assert_eq!(get_root(&space, 1, 0), Value::from_ptr(a.get_ptr() - 8));
}

#[test]
fn mark_stack_pages_go_back_to_the_allocator() {
    let mut space = new_heap(64, 1);
    let mut fields = Vec::new();
    for i in 0..30 {
        fields.push(alloc_mutbox(&mut space, Value::from_scalar(i)));
    }
    // many arrays that point to all boxes: the stack grows over several chunks
    let mut arrays = Vec::new();
    for chunk in fields.chunks(10) {
        arrays.push(alloc_array(&mut space, chunk));
    }
    let top = alloc_array(&mut space, &arrays);
    set_root(&mut space, 1, 0, top);
    let pages: Vec<usize> =
        space.iter_pages().iter().map(|p| space.page_alloc.page_start(p)).collect();
    assert_eq!(mark_compact(&mut space, roots(), TABLE), Ok(()));
    assert_eq!(check_space(&space), 34);
    // every page that is mapped now was a page of the space before
    let mut fresh = TestPageAlloc::new(64);
    let probe = fresh.alloc_page();
    let _ = probe;
    for page in space.iter_pages() {
        assert!(pages.contains(&space.page_alloc.page_start(page)));
    }
    let next = space.page_alloc.alloc_page();
    let next_start = space.page_alloc.page_start(&next);
    let mut a = *pages.iter().max().unwrap() + 64;
    while a < next_start {
        assert!(!space.page_alloc.contains(a));
        a += 4;
    }
}
