use motoko_rts::blob_iter::{blob_iter, blob_iter_done, blob_iter_next};
use motoko_rts::gc::no::{no_gc, schedule_no_gc};
use motoko_rts::linear_memory::LinearMemory;
use motoko_rts::memory::{alloc_array, alloc_blob, alloc_collectable_blob, Memory};
use motoko_rts::page_alloc::WordMemory;
use motoko_rts::types::{Bytes, Value, Words, TAG_ARRAY, TAG_BLOB};

#[test]
fn new_memory_reaches_up_to_the_heap_base() {
    let mem = LinearMemory::new(1024);
    assert_eq!(mem.heap_base(), 1024);
    assert_eq!(mem.hp(), 1024);
    assert_eq!(mem.allocated_bytes(), Bytes(0));
    assert!(mem.contains(0));
    assert!(mem.contains(65532));
    assert!(!mem.contains(65536));
    assert!(!mem.contains(2));
    assert_eq!(mem.read_word(1024), 0);
    let mem = LinearMemory::new(65536);
    assert!(mem.contains(65536));
    assert!(mem.contains(131068));
    assert!(!mem.contains(131072));
}

#[test]
fn allocation_moves_the_heap_pointer() {
    let mut mem = LinearMemory::new(1024);
    let a = mem.alloc_words(Words(3));
    assert_eq!(a, Value::from_ptr(1024));
    assert_eq!(mem.hp(), 1036);
    assert_eq!(mem.allocated_bytes(), Bytes(12));
    let b = mem.alloc_bytes(Bytes(5));
    assert_eq!(b, Value::from_ptr(1036));
    assert_eq!(mem.hp(), 1044);
    assert_eq!(mem.allocated_bytes(), Bytes(20));
    let c = mem.alloc_bytes(Bytes(0));
    assert_eq!(c.get_ptr(), 1044);
    assert_eq!(mem.hp(), 1044);
}

#[test]
fn memory_grows_by_pages() {
    let mut mem = LinearMemory::new(0);
    assert!(!mem.contains(65536));
    mem.store(100, 7);
    // up to the end of the first page nothing grows
    let a = mem.alloc_words(Words(16383));
    assert_eq!(a.get_ptr(), 0);
    assert_eq!(mem.hp(), 65532);
    assert!(!mem.contains(65536));
    // the heap pointer reaches the second page
    let b = mem.alloc_words(Words(1));
    assert_eq!(b.get_ptr(), 65532);
    assert_eq!(mem.hp(), 65536);
    assert!(mem.contains(65536));
    assert!(mem.contains(131068));
    assert!(!mem.contains(131072));
    assert_eq!(mem.read_word(65536), 0);
    assert_eq!(mem.read_word(100), 7);
    mem.grow_memory(3 * 65536 + 5);
    assert!(mem.contains(4 * 65536 - 4));
    assert!(!mem.contains(4 * 65536));
    assert_eq!(mem.read_word(100), 7);
    assert_eq!(mem.hp(), 65536);
    mem.grow_memory(10);
    assert!(!mem.contains(4 * 65536));
}

#[test]
fn allocation_has_its_limits() {
    let mem = LinearMemory::new(0);
    assert!(Memory::can_alloc(&mem, Words(0x3fff_8000)));
    assert!(Memory::can_alloc(&mem, Words(0x3fff_bfff)));
    assert!(!Memory::can_alloc(&mem, Words(0x3fff_c000)));
    assert!(!Memory::can_alloc(&mem, Words(0xffff_ffff)));
    assert!(Memory::fits(&mem, Words(0xffff_ffff)));
    assert_eq!(Memory::allocation_pointer(&mem), 0);
}

#[test]
fn blobs_and_arrays_in_linear_memory() {
    let mut mem = LinearMemory::new(64);
    let blob = alloc_blob(&mut mem, Bytes(6));
    assert_eq!(blob.get_ptr(), 64);
    assert_eq!(mem.read_word(64), TAG_BLOB);
    assert_eq!(mem.read_word(68), 6);
    assert_eq!(mem.hp(), 64 + 16);
    let array = alloc_array(&mut mem, 3);
    assert_eq!(array.get_ptr(), 80);
    assert_eq!(mem.read_word(80), TAG_ARRAY);
    assert_eq!(mem.read_word(84), 3);
    assert_eq!(mem.hp(), 100);
    let other = alloc_collectable_blob(&mut mem, Bytes(0));
    assert_eq!(other.get_ptr(), 100);
    assert_eq!(mem.read_word(100), TAG_BLOB);
    assert_eq!(mem.read_word(104), 0);
    assert_eq!(mem.hp(), 108);
    // what was there is still there
    assert_eq!(mem.read_word(68), 6);
    assert_eq!(mem.read_word(84), 3);
}

#[test]
fn blob_iterator_yields_the_bytes() {
    let mut mem = LinearMemory::new(64);
    let blob = alloc_blob(&mut mem, Bytes(6));
    mem.store(blob.get_ptr() + 8, 0x0403_0201);
    mem.store(blob.get_ptr() + 12, 0xffff_0605);
    let iter = blob_iter(&mut mem, blob);
    assert_eq!(mem.read_word(iter.get_ptr()), TAG_ARRAY);
    assert_eq!(mem.read_word(iter.get_ptr() + 4), 2);
    assert_eq!(mem.read_word(iter.get_ptr() + 8), blob.get_raw());
    assert_eq!(mem.read_word(iter.get_ptr() + 12), 0);
    let mut bytes = Vec::new();
    while blob_iter_done(&mem, iter) == 0 {
        bytes.push(blob_iter_next(&mut mem, iter));
    }
    assert_eq!(bytes, vec![1, 2, 3, 4, 5, 6]);
    assert_eq!(blob_iter_done(&mem, iter), 1);
    assert_eq!(mem.read_word(iter.get_ptr() + 12), Value::from_scalar(6).get_raw());
}

#[test]
fn blob_iterator_of_an_empty_blob_is_done() {
    let mut mem = LinearMemory::new(64);
    let blob = alloc_blob(&mut mem, Bytes(0));
    let iter = blob_iter(&mut mem, blob);
    assert_eq!(blob_iter_done(&mem, iter), 1);
}

#[test]
fn disabled_collector_changes_nothing() {
    let mut mem = LinearMemory::new(64);
    let blob = alloc_blob(&mut mem, Bytes(6));
    mem.store(blob.get_ptr() + 8, 5);
    no_gc(&mut mem);
    schedule_no_gc(&mut mem);
    assert_eq!(mem.hp(), 80);
    assert_eq!(mem.read_word(blob.get_ptr() + 8), 5);
    assert_eq!(mem.read_word(64), TAG_BLOB);
}
