use motoko_rts::bitmap::Bitmap;
use motoko_rts::page_alloc::{PageAlloc, WordMemory, PAGE_HEADER_SIZE};
use motoko_rts::test_page_alloc::{TestPageAlloc, STATIC_HEAP_BASE};

#[test]
fn fresh_pages_are_zeroed_and_disjoint() {
    let mut page_alloc = TestPageAlloc::new(1024);
    let a = page_alloc.alloc_page();
    let b = page_alloc.alloc_page();
    let a_start = page_alloc.page_start(&a);
    let b_start = page_alloc.page_start(&b);
    assert_ne!(a_start, b_start);
    assert_eq!(a_start % 4, 0);
    assert_eq!(page_alloc.page_contents_start(&a), a_start + PAGE_HEADER_SIZE);
    assert_eq!(page_alloc.page_end(&a), a_start + 1024);
    assert!(page_alloc.page_end(&a) <= b_start || page_alloc.page_end(&b) <= a_start);
    let mut addr = a_start;
    while addr < a_start + 1024 {
        assert!(page_alloc.contains(addr));
        assert_eq!(page_alloc.read_word(addr), 0);
        addr += 4;
    }
    assert!(!page_alloc.contains(a_start + 1));
    assert_eq!(page_alloc.page_size_bytes(), 1024);
}

#[test]
fn written_words_are_read_back() {
    let mut page_alloc = TestPageAlloc::new(64);
    let a = page_alloc.alloc_page();
    let b = page_alloc.alloc_page();
    let a_start = page_alloc.page_start(&a);
    let b_start = page_alloc.page_start(&b);
    page_alloc.write_word(a_start + 8, 0xdead_beef);
    page_alloc.write_word(b_start + 60, 17);
    assert_eq!(page_alloc.read_word(a_start + 8), 0xdead_beef);
    assert_eq!(page_alloc.read_word(b_start + 60), 17);
    assert_eq!(page_alloc.read_word(a_start + 12), 0);
    assert_eq!(page_alloc.read_word(b_start + 8), 0);
}

#[test]
fn address_lookup_finds_the_page() {
    let mut page_alloc = TestPageAlloc::new(128);
    let mut starts = Vec::new();
    for _ in 0..10 {
        let page = page_alloc.alloc_page();
        starts.push(page_alloc.page_start(&page));
    }
    for start in &starts {
        assert_eq!(page_alloc.get_address_page_start(*start), *start);
        assert_eq!(page_alloc.get_address_page_start(*start + 64), *start);
        assert_eq!(page_alloc.get_address_page_start(*start + 124), *start);
        let page = page_alloc.page_at(*start);
        assert_eq!(page_alloc.page_start(&page), *start);
    }
}

#[test]
fn freed_pages_are_unmapped_and_never_handed_out_again() {
    let mut page_alloc = TestPageAlloc::new(128);
    let a = page_alloc.alloc_page();
    let b = page_alloc.alloc_page();
    let c = page_alloc.alloc_page();
    let a_start = page_alloc.page_start(&a);
    let b_start = page_alloc.page_start(&b);
    let c_start = page_alloc.page_start(&c);
    page_alloc.write_word(c_start + 8, 5);
    page_alloc.free(b);
    assert!(!page_alloc.contains(b_start));
    assert!(!page_alloc.contains(b_start + 124));
    assert!(page_alloc.contains(a_start));
    assert!(page_alloc.contains(c_start));
    assert_eq!(page_alloc.read_word(c_start + 8), 5);
    assert_eq!(page_alloc.get_address_page_start(c_start + 8), c_start);
    let d = page_alloc.alloc_page();
    let d_start = page_alloc.page_start(&d);
    assert_ne!(d_start, a_start);
    assert_ne!(d_start, b_start);
    assert_ne!(d_start, c_start);
    page_alloc.free(a);
    page_alloc.free(c);
    page_alloc.free(d);
    assert!(!page_alloc.contains(a_start));
    assert!(!page_alloc.contains(c_start));
    assert!(!page_alloc.contains(d_start));
}

#[test]
fn alloc_pages_hands_out_one_page() {
    let mut page_alloc = TestPageAlloc::new(128);
    let a = page_alloc.alloc_pages(3);
    let b = page_alloc.alloc_page();
    assert_eq!(page_alloc.page_end(&a), page_alloc.page_start(&a) + 128);
    assert_ne!(page_alloc.page_start(&a), page_alloc.page_start(&b));
}

#[test]
fn nothing_is_static_without_a_static_partition() {
    let mut page_alloc = TestPageAlloc::new(128);
    let a = page_alloc.alloc_page();
    let start = page_alloc.page_start(&a);
    assert!(!page_alloc.in_static_heap(start));
    assert!(!page_alloc.in_static_heap(0));
    assert!(!page_alloc.in_static_heap(STATIC_HEAP_BASE));
    assert!(!page_alloc.contains(STATIC_HEAP_BASE));
}

#[test]
fn static_partition_is_mapped_and_static() {
    let mut page_alloc = TestPageAlloc::with_static_heap(128, 100);
    assert!(page_alloc.in_static_heap(STATIC_HEAP_BASE));
    assert!(page_alloc.in_static_heap(STATIC_HEAP_BASE + 396));
    assert!(!page_alloc.in_static_heap(STATIC_HEAP_BASE + 400));
    assert!(!page_alloc.in_static_heap(STATIC_HEAP_BASE - 4));
    assert!(page_alloc.contains(STATIC_HEAP_BASE + 396));
    assert!(!page_alloc.contains(STATIC_HEAP_BASE + 400));
    assert_eq!(page_alloc.read_word(STATIC_HEAP_BASE + 40), 0);
    page_alloc.write_word(STATIC_HEAP_BASE + 40, 77);
    assert_eq!(page_alloc.read_word(STATIC_HEAP_BASE + 40), 77);
    let a = page_alloc.alloc_page();
    let start = page_alloc.page_start(&a);
    assert!(start >= STATIC_HEAP_BASE + 400);
    assert!(!page_alloc.in_static_heap(start));
    assert_eq!(page_alloc.read_word(STATIC_HEAP_BASE + 40), 77);
}

#[test]
fn bitmaps_live_in_page_headers() {
    let mut page_alloc = TestPageAlloc::new(128);
    let a = page_alloc.alloc_page();
    let b = page_alloc.alloc_page();
    let a_start = page_alloc.page_start(&a);
    let b_start = page_alloc.page_start(&b);
    assert!(page_alloc.get_bitmap(a_start).is_none());
    let mut bitmap = Bitmap::new(32);
    bitmap.set(7);
    page_alloc.set_bitmap(a_start, Some(bitmap));
    assert!(page_alloc.get_bitmap(b_start).is_none());
    assert!(page_alloc.get_bitmap(a_start).unwrap().get(7));
    assert!(!page_alloc.get_bitmap(a_start).unwrap().get(8));
    assert!(a.get_bitmap(&page_alloc).is_some());
    let taken = page_alloc.take_bitmap(a_start).unwrap();
    assert!(taken.get(7));
    assert!(page_alloc.get_bitmap(a_start).is_none());
    assert!(page_alloc.take_bitmap(a_start).is_none());
    b.set_bitmap(&mut page_alloc, Some(taken));
    assert!(b.take_bitmap(&mut page_alloc).unwrap().get(7));
}

#[test]
fn handles_tell_their_page() {
    let mut page_alloc = TestPageAlloc::new(128);
    let a = page_alloc.alloc_page();
    assert_eq!(a.start(&page_alloc), page_alloc.page_start(&a));
    assert_eq!(a.contents_start(&page_alloc), a.start(&page_alloc) + PAGE_HEADER_SIZE);
    assert_eq!(a.end(&page_alloc), a.start(&page_alloc) + 128);
}

#[test]
fn allocator_runs_out_of_address_space() {
    let mut page_alloc = TestPageAlloc::new(0x4000_0000);
    assert!(page_alloc.can_alloc());
    let _a = page_alloc.alloc_page();
    assert!(page_alloc.can_alloc());
    let _b = page_alloc.alloc_page();
    assert!(!page_alloc.can_alloc());
}
