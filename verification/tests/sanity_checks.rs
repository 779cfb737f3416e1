use motoko_rts::gc::experimental::sanity_checks::{
    take_snapshot, SanityChecks, SanityError, Snapshot,
};
use motoko_rts::gc::generational::remembered_set::RememberedSet;
use motoko_rts::gc::generational::write_barrier::{post_write_barrier, relevant_field};
use motoko_rts::linear_memory::LinearMemory;
use motoko_rts::memory::{alloc_blob, Memory};
use motoko_rts::object::Trap;
use motoko_rts::page_alloc::WordMemory;
use motoko_rts::space::Space;
use motoko_rts::test_page_alloc::TestPageAlloc;
use motoko_rts::types::{Bytes, Value, Words, TAG_ARRAY, TAG_BLOB, TAG_MUTBOX};

const ROOTS: usize = 12;
const BOX: usize = 24;
const HEAP_BASE: u32 = 64;

struct Heap {
    mem: LinearMemory,
    old_box: Value,
    last_free: u32,
    checks: SanityChecks,
}

fn alloc_mutbox(mem: &mut LinearMemory, field: Value) -> Value {
    let v = mem.alloc_words(Words(2));
    mem.store(v.get_ptr(), TAG_MUTBOX);
    mem.store(v.get_ptr() + 4, field.get_raw());
    v
}

/// An old generation of two boxes and a static root, with a snapshot of
/// it, and an empty remembered set.
fn new_heap() -> Heap {
    let mut mem = LinearMemory::new(HEAP_BASE);
    mem.store(ROOTS, TAG_ARRAY);
    mem.store(ROOTS + 4, 1);
    mem.store(ROOTS + 8, Value::from_ptr(BOX).get_raw());
    mem.store(BOX, TAG_MUTBOX);
    let old_box = alloc_mutbox(&mut mem, Value::from_scalar(1));
    let other = alloc_mutbox(&mut mem, old_box);
    mem.store(BOX + 4, other.get_raw());
    let last_free = mem.hp();
    let snapshot = take_snapshot(&mut mem, last_free).unwrap();
    Heap {
        mem,
        old_box,
        last_free,
        checks: SanityChecks { snapshot: Some(snapshot), remembered_set: Some(RememberedSet::new()) },
    }
}

fn verify(heap: &Heap, verify_roots: bool) -> Result<(), SanityError> {
    heap.checks.verify_snapshot(
        &heap.mem,
        HEAP_BASE,
        heap.last_free,
        heap.mem.hp(),
        Value::from_ptr(ROOTS),
        verify_roots,
    )
}

#[test]
fn snapshot_is_a_copy_of_the_memory() {
    let heap = new_heap();
    let snapshot = heap.checks.snapshot.unwrap();
    assert_eq!(snapshot.blob, heap.last_free as usize);
    assert_eq!(heap.mem.read_word(snapshot.blob), TAG_BLOB);
    assert_eq!(heap.mem.read_word(snapshot.blob + 4), heap.last_free);
    let mut a = 0;
    while a < heap.last_free as usize {
        assert_eq!(heap.mem.read_word(snapshot.blob + 8 + a), heap.mem.read_word(a));
        a += 4;
    }
    assert_eq!(heap.mem.hp(), 2 * heap.last_free + 8);
}

#[test]
fn snapshot_of_unmapped_memory_fails() {
    let mut space = Space::new(TestPageAlloc::new(1024));
    assert_eq!(take_snapshot(&mut space, 0).map(|_| ()), Ok(()));
    assert_eq!(take_snapshot(&mut space, 16).map(|_| ()), Err(Trap::OutOfBounds));
}

#[test]
fn unchanged_memory_verifies() {
    let heap = new_heap();
    assert_eq!(verify(&heap, true), Ok(()));
    assert_eq!(verify(&heap, false), Ok(()));
}

#[test]
fn store_with_barrier_verifies() {
    let mut heap = new_heap();
    let young = alloc_blob(&mut heap.mem, Bytes(4));
    let field = heap.old_box.get_ptr() + 4;
    heap.mem.store(field, young.get_raw());
    assert!(relevant_field(&heap.mem, field, heap.last_free as usize));
    post_write_barrier(
        heap.checks.remembered_set.as_mut().unwrap(),
        &heap.mem,
        field,
        heap.last_free as usize,
    );
    assert!(heap.checks.remembered_set.as_ref().unwrap().contains(Value::from_raw(field as u32)));
    assert_eq!(heap.checks.recorded(field as u32), Ok(true));
    assert_eq!(verify(&heap, true), Ok(()));
}

#[test]
fn store_without_barrier_is_found() {
    let mut heap = new_heap();
    let young = alloc_blob(&mut heap.mem, Bytes(4));
    let field = heap.old_box.get_ptr() + 4;
    heap.mem.store(field, young.get_raw());
    assert_eq!(heap.checks.recorded(field as u32), Ok(false));
    assert_eq!(verify(&heap, true), Err(SanityError::MissingWriteBarrier(field)));
    assert_eq!(
        heap.checks.verify_field(&heap.mem, heap.checks.snapshot.unwrap(), field),
        Err(SanityError::MissingWriteBarrier(field))
    );
    heap.checks.remembered_set = None;
    assert_eq!(verify(&heap, true), Err(SanityError::NoRememberedSet));
    assert_eq!(heap.checks.recorded(field as u32), Err(SanityError::NoRememberedSet));
}

#[test]
fn store_into_a_root_without_barrier_is_found() {
    let mut heap = new_heap();
    let young = alloc_blob(&mut heap.mem, Bytes(4));
    heap.mem.store(BOX + 4, young.get_raw());
    assert_eq!(verify(&heap, false), Ok(()));
    assert_eq!(verify(&heap, true), Err(SanityError::MissingWriteBarrier(BOX + 4)));
    post_write_barrier(
        heap.checks.remembered_set.as_mut().unwrap(),
        &heap.mem,
        BOX + 4,
        heap.last_free as usize,
    );
    assert_eq!(verify(&heap, true), Ok(()));
}

#[test]
fn stores_of_scalars_and_of_old_pointers_need_no_barrier() {
    let mut heap = new_heap();
    let field = heap.old_box.get_ptr() + 4;
    heap.mem.store(field, Value::from_scalar(77).get_raw());
    assert!(!relevant_field(&heap.mem, field, heap.last_free as usize));
    assert_eq!(verify(&heap, true), Ok(()));
    heap.mem.store(field, heap.old_box.get_raw());
    assert!(!relevant_field(&heap.mem, field, heap.last_free as usize));
    post_write_barrier(
        heap.checks.remembered_set.as_mut().unwrap(),
        &heap.mem,
        field,
        heap.last_free as usize,
    );
    assert_eq!(heap.checks.remembered_set.as_ref().unwrap().count(), 0);
    assert_eq!(verify(&heap, true), Ok(()));
}

#[test]
fn changed_tags_are_found() {
    let mut heap = new_heap();
    heap.mem.store(heap.old_box.get_ptr(), 13);
    assert_eq!(verify(&heap, true), Err(SanityError::TagChanged(heap.old_box.get_ptr())));
}

#[test]
fn roots_that_are_no_boxes_are_found() {
    let mut heap = new_heap();
    heap.mem.store(BOX, TAG_ARRAY);
    assert_eq!(verify(&heap, true), Err(SanityError::NotABox(BOX)));
    assert_eq!(verify(&heap, false), Ok(()));
}

#[test]
fn nothing_is_verified_without_a_snapshot() {
    let mut heap = new_heap();
    heap.checks.snapshot = None;
    heap.mem.store(heap.old_box.get_ptr(), 13);
    assert_eq!(verify(&heap, true), Ok(()));
}

#[test]
fn bounds_are_checked_first() {
    let heap = new_heap();
    assert_eq!(
        heap.checks.verify_snapshot(&heap.mem, 100, 80, 96, Value::from_ptr(ROOTS), true),
        Err(SanityError::HeapBaseAboveHp)
    );
    assert_eq!(
        heap.checks.verify_snapshot(&heap.mem, HEAP_BASE, 80, 72, Value::from_ptr(ROOTS), false),
        Err(SanityError::SnapshotTooLong)
    );
    let lost = SanityChecks {
        snapshot: Some(Snapshot { blob: 0x7000_0000 }),
        remembered_set: None,
    };
    assert_eq!(
        lost.verify_snapshot(&heap.mem, HEAP_BASE, 80, 96, Value::from_ptr(ROOTS), false),
        Err(SanityError::Trapped(Trap::OutOfBounds))
    );
}

#[test]
fn remembered_set_keeps_each_value_once() {
    let mut set = RememberedSet::new();
    assert_eq!(set.count(), 0);
    assert!(!set.contains(Value::from_raw(8)));
    set.insert(Value::from_raw(8));
    set.insert(Value::from_raw(16));
    set.insert(Value::from_raw(8));
    assert_eq!(set.count(), 2);
    assert!(set.contains(Value::from_raw(8)));
    assert!(set.contains(Value::from_raw(16)));
    assert!(!set.contains(Value::from_raw(12)));
    let mut iterator = set.iterate();
    let mut values = Vec::new();
    while iterator.has_next() {
        values.push(iterator.current().get_raw());
        iterator.next();
    }
    assert_eq!(values, vec![8, 16]);
}
