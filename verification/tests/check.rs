use motoko_rts::check::{check_array_pointer, check_memory, MemoryChecker, COERCION_FAILURE};
use motoko_rts::linear_memory::LinearMemory;
use motoko_rts::memory::{alloc_array, alloc_blob, Memory};
use motoko_rts::page_alloc::WordMemory;
use motoko_rts::types::{
    Bytes, Value, Words, TAG_ARRAY, TAG_FREE_SPACE, TAG_MUTBOX, TAG_ONE_WORD_FILLER,
};

const TABLE: usize = 8;
const ROOTS: usize = 12;
const BOX: usize = 24;
const HEAP_BASE: u32 = 64;

/// A memory with one static root and an empty continuation table.
fn new_memory() -> LinearMemory {
    let mut mem = LinearMemory::new(HEAP_BASE);
    mem.store(ROOTS, TAG_ARRAY);
    mem.store(ROOTS + 4, 1);
    mem.store(ROOTS + 8, Value::from_ptr(BOX).get_raw());
    mem.store(BOX, TAG_MUTBOX);
    mem
}

fn alloc_mutbox(mem: &mut LinearMemory, field: Value) -> Value {
    let v = mem.alloc_words(Words(2));
    mem.store(v.get_ptr(), TAG_MUTBOX);
    mem.store(v.get_ptr() + 4, field.get_raw());
    v
}

fn check(mem: &LinearMemory) -> bool {
    check_memory(mem, Value::from_ptr(ROOTS), TABLE)
}

#[test]
fn empty_heap_is_fine() {
    let mem = new_memory();
    assert!(check(&mem));
}

#[test]
fn well_formed_heap_is_fine() {
    let mut mem = new_memory();
    let blob = alloc_blob(&mut mem, Bytes(7));
    let a = alloc_mutbox(&mut mem, blob);
    let array = alloc_array(&mut mem, 3);
    mem.store(array.get_ptr() + 8, a.get_raw());
    mem.store(array.get_ptr() + 12, Value::from_scalar(4).get_raw());
    mem.store(array.get_ptr() + 16, array.get_raw());
    let filler = mem.alloc_words(Words(1));
    mem.store(filler.get_ptr(), TAG_ONE_WORD_FILLER);
    mem.store(BOX + 4, array.get_raw());
    mem.store(TABLE, array.get_raw());
    assert!(check(&mem));
    let checker = MemoryChecker {
        heap_base: HEAP_BASE as usize,
        heap_end: mem.hp() as usize,
        static_roots: Value::from_ptr(ROOTS),
        continuation_table_ptr_loc: TABLE,
    };
    assert!(checker.check_static_roots(&mem));
    assert!(checker.check_heap(&mem));
    assert!(checker.check_object(&mem, array));
    assert!(checker.check_object_header(&mem, blob));
    assert!(!checker.check_object_header(&mem, Value::from_scalar(3)));
    assert!(checker.check_memory(&mem));
}

#[test]
fn pointer_beyond_the_heap_is_found() {
    let mut mem = new_memory();
    let a = alloc_mutbox(&mut mem, Value::from_scalar(0));
    assert!(check(&mem));
    mem.store(a.get_ptr() + 4, Value::from_ptr(mem.hp() as usize).get_raw());
    assert!(!check(&mem));
    mem.store(a.get_ptr() + 4, Value::from_ptr(0x7000_0000).get_raw());
    assert!(!check(&mem));
}

#[test]
fn pointer_into_an_object_is_found() {
    let mut mem = new_memory();
    let blob = alloc_blob(&mut mem, Bytes(8));
    let a = alloc_mutbox(&mut mem, blob);
    assert!(check(&mem));
    // the payload of the blob holds no tag
    mem.store(a.get_ptr() + 4, Value::from_ptr(blob.get_ptr() + 8).get_raw());
    assert!(!check(&mem));
    // a word that stands for a failed coercion passes
    mem.store(blob.get_ptr() + 8, COERCION_FAILURE);
    assert!(check(&mem));
}

#[test]
fn the_value_true_is_no_pointer() {
    let mut mem = new_memory();
    let a = alloc_mutbox(&mut mem, Value::from_raw(1));
    assert!(MemoryChecker::is_ptr(a));
    assert!(!MemoryChecker::is_ptr(Value::from_raw(1)));
    assert!(!MemoryChecker::is_ptr(Value::from_scalar(1)));
    assert!(check(&mem));
}

#[test]
fn bad_tags_in_the_heap_are_found() {
    let mut mem = new_memory();
    let a = mem.alloc_words(Words(2));
    assert!(!check(&mem));
    mem.store(a.get_ptr(), TAG_MUTBOX);
    assert!(check(&mem));
    // free space is no object of the heap
    let free = mem.alloc_words(Words(2));
    mem.store(free.get_ptr(), TAG_FREE_SPACE);
    mem.store(free.get_ptr() + 4, 2);
    assert!(!check(&mem));
}

#[test]
fn bad_roots_are_found() {
    let mut mem = new_memory();
    let a = alloc_mutbox(&mut mem, Value::from_scalar(0));
    mem.store(BOX + 4, a.get_raw());
    assert!(check(&mem));
    // a root that is no box
    mem.store(BOX, TAG_ARRAY);
    assert!(!check(&mem));
    mem.store(BOX, TAG_MUTBOX);
    // a root in the heap
    mem.store(ROOTS + 8, a.get_raw());
    assert!(!check(&mem));
    mem.store(ROOTS + 8, Value::from_ptr(BOX).get_raw());
    assert!(check(&mem));
    // a root field that points to no object
    mem.store(BOX + 4, Value::from_ptr(a.get_ptr() + 4).get_raw());
    assert!(!check(&mem));
    // a pointer below the heap base is not followed
    mem.store(BOX + 4, Value::from_ptr(40).get_raw());
    assert!(check(&mem));
    // a continuation table that points to no object
    mem.store(TABLE, Value::from_ptr(40).get_raw());
    assert!(!check(&mem));
}

#[test]
fn objects_that_run_over_the_heap_end_are_accepted_by_the_walk() {
    let mut mem = new_memory();
    let array = alloc_array(&mut mem, 0);
    mem.store(array.get_ptr() + 4, 1000);
    // the fields lie behind the heap pointer, where memory is zero
    assert!(check(&mem));
}

#[test]
fn array_pointers() {
    let mut mem = new_memory();
    let array = alloc_array(&mut mem, 3);
    let payload = array.get_ptr() + 8;
    assert!(check_array_pointer(&mem, array, Value::from_ptr(payload)));
    assert!(check_array_pointer(&mem, array, Value::from_ptr(payload + 8)));
    assert!(!check_array_pointer(&mem, array, Value::from_ptr(payload + 12)));
    assert!(!check_array_pointer(&mem, array, Value::from_ptr(payload - 4)));
    assert!(!check_array_pointer(&mem, array, Value::from_scalar(5)));
    assert!(!check_array_pointer(&mem, Value::from_scalar(5), Value::from_ptr(payload)));
    assert!(!check_array_pointer(&mem, Value::from_ptr(0x7000_0000), Value::from_ptr(payload)));
}
