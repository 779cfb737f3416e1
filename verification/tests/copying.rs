use motoko_rts::gc::copying::{copying_gc, copying_gc_internal, evac, scav, schedule_copying_gc};
use motoko_rts::object::{object_size, Trap};
use motoko_rts::page_alloc::{PageAlloc, WordMemory};
use motoko_rts::space::Space;
use motoko_rts::test_page_alloc::{TestPageAlloc, STATIC_HEAP_BASE};
use motoko_rts::types::{
    Bytes, Value, Words, TAG_ARRAY, TAG_BLOB, TAG_FREE_SPACE, TAG_FWD_PTR, TAG_MUTBOX,
    TAG_ONE_WORD_FILLER,
};

const TABLE: usize = STATIC_HEAP_BASE;
const ROOT_ARRAY: usize = STATIC_HEAP_BASE + 4;

/// A heap with `n_roots` static roots, all scalar zero, and an empty
/// continuation table.
fn new_heap(page_size: usize, n_roots: usize) -> Space<TestPageAlloc> {
    let mut page_alloc = TestPageAlloc::with_static_heap(page_size, 3 + 3 * n_roots);
    page_alloc.write_word(ROOT_ARRAY, TAG_ARRAY);
    page_alloc.write_word(ROOT_ARRAY + 4, n_roots as u32);
    for i in 0..n_roots {
        let mutbox = root_box(n_roots, i);
        page_alloc.write_word(ROOT_ARRAY + 8 + 4 * i, Value::from_ptr(mutbox).get_raw());
        page_alloc.write_word(mutbox, TAG_MUTBOX);
    }
    Space::new(page_alloc)
}

fn roots() -> Value {
    Value::from_ptr(ROOT_ARRAY)
}

fn root_box(n_roots: usize, i: usize) -> usize {
    ROOT_ARRAY + 8 + 4 * n_roots + 8 * i
}

fn set_root(space: &mut Space<TestPageAlloc>, n_roots: usize, i: usize, v: Value) {
    space.page_alloc.write_word(root_box(n_roots, i) + 4, v.get_raw());
}

fn get_root(space: &Space<TestPageAlloc>, n_roots: usize, i: usize) -> Value {
    Value::from_raw(space.page_alloc.read_word(root_box(n_roots, i) + 4))
}

fn alloc_mutbox(space: &mut Space<TestPageAlloc>, field: Value) -> Value {
    let v = space.alloc_words(Words(2));
    space.page_alloc.write_word(v.get_ptr(), TAG_MUTBOX);
    space.page_alloc.write_word(v.get_ptr() + 4, field.get_raw());
    v
}

fn alloc_array(space: &mut Space<TestPageAlloc>, fields: &[Value]) -> Value {
    let v = space.alloc_array(fields.len() as u32);
    for (i, f) in fields.iter().enumerate() {
        space.page_alloc.write_word(v.get_ptr() + 8 + 4 * i, f.get_raw());
    }
    v
}

fn alloc_blob(space: &mut Space<TestPageAlloc>, words: &[u32], len: u32) -> Value {
    let v = space.alloc_blob(Bytes(len));
    for (i, w) in words.iter().enumerate() {
        space.page_alloc.write_word(v.get_ptr() + 8 + 4 * i, *w);
    }
    v
}

fn read(space: &Space<TestPageAlloc>, addr: usize) -> u32 {
    space.page_alloc.read_word(addr)
}

fn field(space: &Space<TestPageAlloc>, obj: Value, i: usize) -> Value {
    Value::from_raw(read(space, obj.get_ptr() + 4 * i))
}

fn in_space(space: &Space<TestPageAlloc>, addr: usize) -> bool {
    if !space.page_alloc.contains(addr) || space.page_alloc.in_static_heap(addr) {
        return false;
    }
    let page = space.page_alloc.get_address_page_start(addr);
    space.iter_pages().iter().any(|p| space.page_alloc.page_start(p) == page)
}

/// Walks the pages of the space object by object and checks that no
/// forwarding pointer is left and that every pointer field points to the
/// start of an object of the space, or to static memory.
fn check_space(space: &Space<TestPageAlloc>) -> usize {
    let mut starts = Vec::new();
    let mut objects = Vec::new();
    let n_pages = space.iter_pages().len();
    for (i, page) in space.iter_pages().iter().enumerate() {
        let mut p = space.page_alloc.page_contents_start(page);
        let end = if i + 1 == n_pages { space.hp() } else { space.page_alloc.page_end(page) };
        while p < end {
            let tag = read(space, p);
            assert_ne!(tag, TAG_FWD_PTR);
            assert_eq!(tag % 2, 1);
            let size = object_size(&space.page_alloc, p).unwrap();
            if tag != TAG_ONE_WORD_FILLER && tag != TAG_FREE_SPACE {
                starts.push(p);
                objects.push((p, tag));
            }
            p += 4 * size.0 as usize;
        }
        assert_eq!(p, end);
    }
    for (p, tag) in &objects {
        let (first, n) = motoko_rts::object::pointer_fields(&space.page_alloc, *p, *tag).unwrap();
        for i in 0..n as usize {
            let v = Value::from_raw(read(space, first + 4 * i));
            if v.is_ptr() {
                let target = v.get_ptr();
                assert!(space.page_alloc.in_static_heap(target) || starts.contains(&target));
            }
        }
    }
    objects.len()
}

#[test]
fn chain_of_boxes_survives_in_order() {
    let mut space = new_heap(256, 1);
    // A0 -> A1 -> ... -> A99, built from the end
    let mut next = Value::from_scalar(99);
    let mut from_addrs = Vec::new();
    for _ in 0..100 {
        next = alloc_mutbox(&mut space, next);
        from_addrs.push(next.get_ptr());
        // garbage between the boxes
        alloc_array(&mut space, &[Value::from_scalar(1)]);
    }
    set_root(&mut space, 1, 0, next);
    let from_pages: Vec<usize> =
        space.iter_pages().iter().map(|p| space.page_alloc.page_start(p)).collect();

    let space = copying_gc(space, roots(), TABLE).unwrap();

    let mut v = get_root(&space, 1, 0);
    let mut n = 0;
    while v.is_ptr() {
        assert!(in_space(&space, v.get_ptr()));
        assert!(!from_addrs.contains(&v.get_ptr()));
        assert_eq!(read(&space, v.get_ptr()), TAG_MUTBOX);
        v = field(&space, v, 1);
        n += 1;
    }
    assert_eq!(n, 100);
    assert_eq!(v, Value::from_scalar(99));
    assert_eq!(space.total_alloc(), 100 * 8 + slop_of(&space, 256, 8));
    assert_eq!(check_space(&space), 100);
    // from-space is gone
    for start in from_pages {
        assert!(!space.page_alloc.contains(start));
    }
}

/// The bytes that were counted for the rests of the pages of a space that
/// holds objects of one size only.
fn slop_of(space: &Space<TestPageAlloc>, page_size: usize, object_bytes: usize) -> usize {
    let per_page = (page_size - 8) / object_bytes * object_bytes;
    (space.iter_pages().len() - 1) * (page_size - 8 - per_page)
}

#[test]
fn unreachable_chain_is_dropped() {
    let mut space = new_heap(256, 1);
    let mut next = Value::from_scalar(0);
    for _ in 0..100 {
        next = alloc_mutbox(&mut space, next);
    }
    assert_eq!(space.total_alloc() >= 800, true);
    let space = copying_gc(space, roots(), TABLE).unwrap();
    assert_eq!(space.total_alloc(), 0);
    assert_eq!(space.iter_pages().len(), 1);
    assert_eq!(get_root(&space, 1, 0), Value::from_scalar(0));
    assert_eq!(check_space(&space), 0);
}

#[test]
fn shared_objects_are_copied_once() {
    let mut space = new_heap(1024, 2);
    let blob = alloc_blob(&mut space, &[0xefbe_adde], 4);
    let array = alloc_array(
        &mut space,
        &[blob, Value::from_scalar(7), blob, Value::from_scalar(8), blob],
    );
    set_root(&mut space, 2, 0, array);
    set_root(&mut space, 2, 1, blob);
    let space = copying_gc(space, roots(), TABLE).unwrap();
    let array = get_root(&space, 2, 0);
    let blob = get_root(&space, 2, 1);
    assert_eq!(read(&space, array.get_ptr()), TAG_ARRAY);
    assert_eq!(read(&space, array.get_ptr() + 4), 5);
    assert_eq!(field(&space, array, 2), blob);
    assert_eq!(field(&space, array, 3), Value::from_scalar(7));
    assert_eq!(field(&space, array, 4), blob);
    assert_eq!(field(&space, array, 5), Value::from_scalar(8));
    assert_eq!(field(&space, array, 6), blob);
    assert_eq!(read(&space, blob.get_ptr()), TAG_BLOB);
    assert_eq!(read(&space, blob.get_ptr() + 4), 4);
    assert_eq!(read(&space, blob.get_ptr() + 8), 0xefbe_adde);
    assert_eq!(space.total_alloc(), 28 + 12);
    assert_eq!(check_space(&space), 2);
}

#[test]
fn cycles_are_copied() {
    let mut space = new_heap(1024, 1);
    let a = alloc_mutbox(&mut space, Value::from_scalar(0));
    let b = alloc_mutbox(&mut space, a);
    space.page_alloc.write_word(a.get_ptr() + 4, b.get_raw());
    let own = alloc_mutbox(&mut space, Value::from_scalar(0));
    space.page_alloc.write_word(own.get_ptr() + 4, own.get_raw());
    let pair = alloc_array(&mut space, &[a, own]);
    set_root(&mut space, 1, 0, pair);
    let space = copying_gc(space, roots(), TABLE).unwrap();
    let pair = get_root(&space, 1, 0);
    let a = field(&space, pair, 2);
    let own = field(&space, pair, 3);
    let b = field(&space, a, 1);
    assert_ne!(a, b);
    assert_eq!(field(&space, b, 1), a);
    assert_eq!(field(&space, own, 1), own);
    assert_eq!(check_space(&space), 4);
    assert_eq!(space.total_alloc(), 16 + 8 + 8 + 8);
}

#[test]
fn continuation_table_is_evacuated() {
    let mut space = new_heap(1024, 1);
    let blob = alloc_blob(&mut space, &[1, 2], 8);
    let table = alloc_array(&mut space, &[blob, Value::from_scalar(3)]);
    space.page_alloc.write_word(TABLE, table.get_raw());
    let space = copying_gc(space, roots(), TABLE).unwrap();
    let table = Value::from_raw(read(&space, TABLE));
    assert!(in_space(&space, table.get_ptr()));
    assert_eq!(read(&space, table.get_ptr()), TAG_ARRAY);
    let blob = field(&space, table, 2);
    assert_eq!(read(&space, blob.get_ptr() + 8), 1);
    assert_eq!(read(&space, blob.get_ptr() + 12), 2);
    assert_eq!(field(&space, table, 3), Value::from_scalar(3));
    assert_eq!(check_space(&space), 2);
}

#[test]
fn static_objects_stay_where_they_are() {
    let mut space = new_heap(1024, 2);
    // the heap points to the second static root box
    let to_static = Value::from_ptr(root_box(2, 1));
    let a = alloc_mutbox(&mut space, to_static);
    set_root(&mut space, 2, 0, a);
    set_root(&mut space, 2, 1, Value::from_scalar(5));
    let space = copying_gc(space, roots(), TABLE).unwrap();
    let a = get_root(&space, 2, 0);
    assert_eq!(field(&space, a, 1), to_static);
    assert_eq!(read(&space, root_box(2, 1)), TAG_MUTBOX);
    assert_eq!(get_root(&space, 2, 1), Value::from_scalar(5));
    assert_eq!(space.total_alloc(), 8);
}

/// What is reachable from `v`, as the tags, sizes and scalar words in the
/// order of a walk; pointers are named by the order in which their targets
/// are first met.
fn shape(space: &Space<TestPageAlloc>, v: Value, seen: &mut Vec<usize>, out: &mut Vec<u32>) {
    if !v.is_ptr() {
        out.push(v.get_raw());
        return;
    }
    let p = v.get_ptr();
    if let Some(i) = seen.iter().position(|q| *q == p) {
        out.push(0x8000_0000 + i as u32);
        return;
    }
    seen.push(p);
    let tag = read(space, p);
    let size = object_size(&space.page_alloc, p).unwrap().0 as usize;
    let (first, n) = motoko_rts::object::pointer_fields(&space.page_alloc, p, tag).unwrap();
    out.push(tag);
    out.push(size as u32);
    let mut a = p + 4;
    while a < p + 4 * size {
        if n > 0 && a >= first && a < first + 4 * n as usize {
            shape(space, Value::from_raw(read(space, a)), seen, out);
        } else {
            out.push(read(space, a));
        }
        a += 4;
    }
}

fn build_graph(space: &mut Space<TestPageAlloc>) -> Value {
    let blob = alloc_blob(space, &[0x0102_0304, 0x0506_0708, 9], 9);
    let a = alloc_mutbox(space, blob);
    let _garbage = alloc_array(space, &[a, blob]);
    let b = alloc_array(space, &[a, Value::from_scalar(1), blob, a]);
    let object = space.alloc_words(Words(5));
    for (i, w) in [1u32, 2, 0xabcd, b.get_raw(), a.get_raw()].iter().enumerate() {
        space.page_alloc.write_word(object.get_ptr() + 4 * i, *w);
    }
    space.page_alloc.write_word(a.get_ptr() + 4, object.get_raw());
    let _more_garbage = alloc_blob(space, &[5], 4);
    object
}

#[test]
fn reachable_objects_keep_their_contents() {
    let mut space = new_heap(128, 1);
    let object = build_graph(&mut space);
    set_root(&mut space, 1, 0, object);
    let mut before = Vec::new();
    shape(&space, object, &mut Vec::new(), &mut before);
    let space = copying_gc(space, roots(), TABLE).unwrap();
    let mut after = Vec::new();
    shape(&space, get_root(&space, 1, 0), &mut Vec::new(), &mut after);
    assert_eq!(before, after);
    assert_eq!(check_space(&space), 4);
}

#[test]
fn second_collection_changes_nothing_but_the_addresses() {
    let mut space = new_heap(128, 1);
    let object = build_graph(&mut space);
    set_root(&mut space, 1, 0, object);
    let space = copying_gc(space, roots(), TABLE).unwrap();
    let total = space.total_alloc();
    let n_pages = space.iter_pages().len();
    let offsets = |space: &Space<TestPageAlloc>| -> Vec<Vec<u32>> {
        let mut pages = Vec::new();
        for page in space.iter_pages() {
            let start = space.page_alloc.page_contents_start(page);
            let end = space.page_alloc.page_end(page);
            let mut words = Vec::new();
            let mut a = start;
            while a < end {
                let w = read(space, a);
                let v = Value::from_raw(w);
                if v.is_ptr() && in_space(space, v.get_ptr()) {
                    let target = space.page_alloc.get_address_page_start(v.get_ptr());
                    let index = space
                        .iter_pages()
                        .iter()
                        .position(|p| space.page_alloc.page_start(p) == target)
                        .unwrap();
                    words.push(0x8000_0000 + ((index as u32) << 16) + (v.get_ptr() - target) as u32);
                } else {
                    words.push(w);
                }
                a += 4;
            }
            pages.push(words);
        }
        pages
    };
    let first = offsets(&space);
    let space = copying_gc(space, roots(), TABLE).unwrap();
    assert_eq!(space.total_alloc(), total);
    assert_eq!(space.iter_pages().len(), n_pages);
    assert_eq!(offsets(&space), first);
}

#[test]
fn evac_follows_a_forwarding_pointer() {
    let mut space = new_heap(1024, 1);
    let a = alloc_mutbox(&mut space, Value::from_scalar(4));
    let holder1 = alloc_mutbox(&mut space, a);
    let holder2 = alloc_mutbox(&mut space, a);
    let hp = space.hp();
    assert_eq!(evac(&mut space, holder1.get_ptr() + 4), Ok(()));
    // the object was copied to the allocation pointer
    let copy = field(&space, holder1, 1);
    assert_eq!(copy, Value::from_ptr(hp));
    assert_eq!(read(&space, hp), TAG_MUTBOX);
    assert_eq!(read(&space, hp + 4), Value::from_scalar(4).get_raw());
    assert_eq!(space.hp(), hp + 8);
    // and a forwarding pointer was left behind
    assert_eq!(read(&space, a.get_ptr()), TAG_FWD_PTR);
    assert_eq!(read(&space, a.get_ptr() + 4), copy.get_raw());
    // the second field gets the same address and nothing is copied
    assert_eq!(evac(&mut space, holder2.get_ptr() + 4), Ok(()));
    assert_eq!(field(&space, holder2, 1), copy);
    assert_eq!(space.hp(), hp + 8);
}

#[test]
fn evac_leaves_fillers_alone() {
    let mut space = new_heap(1024, 1);
    let filler = space.alloc_words(Words(1));
    space.page_alloc.write_word(filler.get_ptr(), TAG_ONE_WORD_FILLER);
    let free = space.alloc_words(Words(3));
    space.page_alloc.write_word(free.get_ptr(), TAG_FREE_SPACE);
    space.page_alloc.write_word(free.get_ptr() + 4, 3);
    let holder = alloc_array(&mut space, &[filler, free]);
    let hp = space.hp();
    assert_eq!(scav(&mut space, holder.get_ptr()), Ok(()));
    assert_eq!(field(&space, holder, 2), filler);
    assert_eq!(field(&space, holder, 3), free);
    assert_eq!(space.hp(), hp);
}

#[test]
fn evac_traps() {
    let mut space = new_heap(64, 1);
    // not mapped
    assert_eq!(evac(&mut space, 4), Err(Trap::OutOfBounds));
    // a scalar
    let holder = alloc_mutbox(&mut space, Value::from_scalar(3));
    assert_eq!(evac(&mut space, holder.get_ptr() + 4), Err(Trap::InvalidObject));
    // a dangling pointer
    space.page_alloc.write_word(holder.get_ptr() + 4, Value::from_ptr(0x7000_0000).get_raw());
    assert_eq!(evac(&mut space, holder.get_ptr() + 4), Err(Trap::OutOfBounds));
    // no tag
    let junk = space.alloc_words(Words(2));
    space.page_alloc.write_word(holder.get_ptr() + 4, junk.get_raw());
    assert_eq!(evac(&mut space, holder.get_ptr() + 4), Err(Trap::InvalidTag));
    // an object of one word has no room for a forwarding pointer
    space.page_alloc.write_word(junk.get_ptr(), 27);
    assert_eq!(evac(&mut space, holder.get_ptr() + 4), Err(Trap::InvalidObject));
    // an object that does not fit into a page
    space.page_alloc.write_word(junk.get_ptr(), TAG_ARRAY);
    space.page_alloc.write_word(junk.get_ptr() + 4, 100);
    assert_eq!(evac(&mut space, holder.get_ptr() + 4), Err(Trap::LargeObject));
    // an object that runs over the end of its page
    space.page_alloc.write_word(junk.get_ptr() + 4, 12);
    assert_eq!(evac(&mut space, holder.get_ptr() + 4), Err(Trap::InvalidObject));
}

#[test]
fn collection_traps_on_bad_roots() {
    let mut space = new_heap(256, 1);
    assert_eq!(
        copying_gc_internal(&mut space, Value::from_ptr(TABLE), TABLE),
        Err(Trap::InvalidTag)
    );
    assert_eq!(copying_gc_internal(&mut space, roots(), 4), Err(Trap::OutOfBounds));
    set_root(&mut space, 1, 0, Value::from_ptr(0x7000_0000));
    assert_eq!(copying_gc_internal(&mut space, roots(), TABLE), Err(Trap::OutOfBounds));
}

#[test]
fn collection_is_scheduled_by_allocation() {
    let mut space = new_heap(256, 1);
    let a = alloc_mutbox(&mut space, Value::from_scalar(1));
    set_root(&mut space, 1, 0, a);
    let hp = space.hp();
    // little was allocated: nothing happens
    let mut space = schedule_copying_gc(space, roots(), TABLE).unwrap();
    assert_eq!(space.hp(), hp);
    assert_eq!(get_root(&space, 1, 0), a);
    // much was allocated: the space is collected
    space.total_alloc = 0x8000_0000;
    let space = schedule_copying_gc(space, roots(), TABLE).unwrap();
    assert_ne!(get_root(&space, 1, 0), a);
    assert_eq!(space.total_alloc(), 8);
    assert!(!space.page_alloc.contains(a.get_ptr()));
}
