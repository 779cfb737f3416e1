use motoko_rts::memory::{alloc_array, alloc_blob, Memory};
use motoko_rts::object::object_size;
use motoko_rts::page_alloc::{PageAlloc, WordMemory, PAGE_HEADER_SIZE};
use motoko_rts::space::{PageIdx, Space};
use motoko_rts::test_page_alloc::TestPageAlloc;
use motoko_rts::types::{
    Bytes, Value, Words, TAG_ARRAY, TAG_BLOB, TAG_FREE_SPACE, TAG_ONE_WORD_FILLER,
};

fn new_space(page_size: usize) -> Space<TestPageAlloc> {
    Space::new(TestPageAlloc::new(page_size))
}

#[test]
fn new_space_has_one_empty_page() {
    let space = new_space(256);
    assert_eq!(space.total_alloc(), 0);
    assert_eq!(space.iter_pages().len(), 1);
    assert_eq!(space.first_page(), PageIdx(0));
    assert_eq!(space.last_page(), PageIdx(0));
    assert_eq!(space.current_page_idx(), PageIdx(0));
    let page = space.get_page(PageIdx(0)).unwrap();
    assert_eq!(space.page_alloc().page_contents_start(page), space.hp());
    assert_eq!(space.hp(), space.allocation_pointer());
    assert!(space.get_page(PageIdx(1)).is_none());
    assert_eq!(PageIdx(3).next(), PageIdx(4));
}

#[test]
fn allocations_are_aligned_and_do_not_overlap() {
    let mut space = new_space(256);
    let sizes: [u32; 12] = [1, 2, 3, 10, 4, 30, 62, 1, 1, 17, 5, 40];
    let mut ranges: Vec<(usize, usize)> = Vec::new();
    for n in sizes {
        assert!(space.can_alloc(Words(n)));
        let v = space.alloc_words(Words(n));
        assert!(v.is_ptr());
        let addr = v.get_ptr();
        assert_eq!(addr % 4, 0);
        let end = addr + 4 * n as usize;
        assert_eq!(space.hp(), end);
        for (a, e) in &ranges {
            assert!(end <= *a || *e <= addr);
        }
        // the words lie in the contents area of a page of the space
        let page = space.page_alloc().get_address_page_start(addr);
        assert!(addr >= page + PAGE_HEADER_SIZE);
        assert!(end <= page + 256);
        assert!(space
            .iter_pages()
            .iter()
            .any(|p| space.page_alloc().page_start(p) == page));
        ranges.push((addr, end));
    }
}

#[test]
fn allocation_in_the_current_page_bumps_the_pointer() {
    let mut space = new_space(256);
    let hp = space.hp();
    let v = space.alloc_words(Words(5));
    assert_eq!(v, Value::from_ptr(hp));
    assert_eq!(space.hp(), hp + 20);
    assert_eq!(space.total_alloc(), 20);
    assert_eq!(space.iter_pages().len(), 1);
    let w = space.alloc_words(Words(0));
    assert_eq!(w.get_ptr(), hp + 20);
    assert_eq!(space.total_alloc(), 20);
}

#[test]
fn one_word_of_slop_is_closed_with_a_one_word_filler() {
    // contents area of 248 bytes: 61 words and one word of slop
    let mut space = new_space(256);
    let first = space.hp();
    space.alloc_words(Words(61));
    assert_eq!(space.total_alloc(), 244);
    let old_hp = space.hp();
    let v = space.alloc_words(Words(4));
    // the old page ends in a one-word filler
    assert_eq!(space.page_alloc().read_word(old_hp), TAG_ONE_WORD_FILLER);
    assert_eq!(old_hp + 4, first - PAGE_HEADER_SIZE + 256);
    // the new object begins on a new page
    assert_eq!(space.iter_pages().len(), 2);
    assert_eq!(space.current_page_idx(), PageIdx(1));
    assert_eq!(space.last_page(), PageIdx(1));
    let new_page = *space.get_page(PageIdx(1)).unwrap();
    assert_eq!(v.get_ptr(), space.page_alloc().page_contents_start(&new_page));
    assert_eq!(space.hp(), v.get_ptr() + 16);
    // the slop counts as allocated
    assert_eq!(space.total_alloc(), 244 + 4 + 16);
}

#[test]
fn pages_can_be_walked_object_by_object() {
    let mut space = new_space(256);
    // 61 words in objects of their own, one word of slop
    for _ in 0..30 {
        let v = space.alloc_array(0);
        assert_eq!(space.page_alloc().read_word(v.get_ptr()), TAG_ARRAY);
    }
    let v = space.alloc_words(Words(1));
    space.page_alloc.write_word(v.get_ptr(), TAG_ONE_WORD_FILLER);
    let big = space.alloc_array(2);
    assert_eq!(space.iter_pages().len(), 2);
    let first_page = *space.get_page(PageIdx(0)).unwrap();
    let mut p = space.page_alloc().page_contents_start(&first_page);
    let end = space.page_alloc().page_end(&first_page);
    let mut n_objects = 0;
    while p < end {
        let size = object_size(space.page_alloc(), p).unwrap();
        p += 4 * size.0 as usize;
        n_objects += 1;
    }
    assert_eq!(p, end);
    assert_eq!(n_objects, 32);
    let second_page = *space.get_page(PageIdx(1)).unwrap();
    let mut p = space.page_alloc().page_contents_start(&second_page);
    assert_eq!(p, big.get_ptr());
    let size = object_size(space.page_alloc(), p).unwrap();
    p += 4 * size.0 as usize;
    assert_eq!(p, space.hp());
}

#[test]
fn larger_slop_is_closed_with_free_space() {
    let mut space = new_space(256);
    space.alloc_words(Words(50));
    let old_hp = space.hp();
    let v = space.alloc_words(Words(20));
    assert_eq!(space.page_alloc().read_word(old_hp), TAG_FREE_SPACE);
    assert_eq!(space.page_alloc().read_word(old_hp + 4), 12);
    assert_eq!(object_size(space.page_alloc(), old_hp), Ok(Words(12)));
    assert_eq!(space.total_alloc(), 200 + 48 + 80);
    assert_eq!(space.iter_pages().len(), 2);
    assert_eq!(space.hp(), v.get_ptr() + 80);
}

#[test]
fn a_full_page_gets_no_filler() {
    let mut space = new_space(256);
    let a = space.alloc_words(Words(62));
    let end = space.hp();
    assert_eq!(end, a.get_ptr() + 248);
    let b = space.alloc_words(Words(1));
    assert_eq!(space.iter_pages().len(), 2);
    assert_eq!(space.total_alloc(), 252);
    assert_ne!(b.get_ptr(), end);
    for i in 0..62 {
        assert_eq!(space.page_alloc().read_word(a.get_ptr() + 4 * i), 0);
    }
}

#[test]
fn requests_that_fit_no_page_cannot_be_met() {
    let space = new_space(256);
    assert!(space.can_alloc(Words(62)));
    assert!(!space.can_alloc(Words(63)));
    assert!(!space.can_alloc(Words(0xffff_ffff)));
}

#[test]
fn arrays_and_blobs_get_their_headers() {
    let mut space = new_space(1024);
    let array = space.alloc_array(10);
    assert_eq!(space.page_alloc().read_word(array.get_ptr()), TAG_ARRAY);
    assert_eq!(space.page_alloc().read_word(array.get_ptr() + 4), 10);
    assert_eq!(object_size(space.page_alloc(), array.get_ptr()), Ok(Words(12)));
    assert_eq!(space.hp(), array.get_ptr() + 48);
    let blob = space.alloc_blob(Bytes(5));
    assert_eq!(blob.get_ptr(), array.get_ptr() + 48);
    assert_eq!(space.page_alloc().read_word(blob.get_ptr()), TAG_BLOB);
    assert_eq!(space.page_alloc().read_word(blob.get_ptr() + 4), 5);
    assert_eq!(space.hp(), blob.get_ptr() + 16);
    assert_eq!(space.total_alloc(), 48 + 16);
}

#[test]
fn memory_interface_of_a_space() {
    let mut space = new_space(1024);
    assert!(Memory::can_alloc(&space, Words(10)));
    assert!(Memory::fits(&space, Words(254)));
    assert!(!Memory::fits(&space, Words(255)));
    assert_eq!(Memory::allocation_pointer(&space), space.hp());
    let array = alloc_array(&mut space, 3);
    assert_eq!(space.read_word(array.get_ptr()), TAG_ARRAY);
    assert_eq!(space.read_word(array.get_ptr() + 4), 3);
    let blob = alloc_blob(&mut space, Bytes(9));
    assert_eq!(space.read_word(blob.get_ptr()), TAG_BLOB);
    assert_eq!(space.read_word(blob.get_ptr() + 4), 9);
    assert_eq!(blob.get_ptr(), array.get_ptr() + 20);
    assert_eq!(space.hp(), blob.get_ptr() + 20);
    space.store(array.get_ptr() + 8, 123);
    assert_eq!(space.read_word(array.get_ptr() + 8), 123);
    assert!(space.contains(array.get_ptr()));
}

#[test]
fn sorted_pages_are_in_address_order() {
    let mut space = new_space(64);
    for _ in 0..20 {
        space.alloc_words(Words(10));
    }
    let sorted = space.sorted_pages();
    assert_eq!(sorted.len(), space.iter_pages().len());
    assert!(sorted.len() > 5);
    for i in 1..sorted.len() {
        assert!(
            space.page_alloc().page_start(&sorted[i - 1]) < space.page_alloc().page_start(&sorted[i])
        );
    }
}

#[test]
fn set_pages_keeps_the_pages_up_to_the_allocation_pointer() {
    let mut space = new_space(64);
    for _ in 0..5 {
        space.alloc_words(Words(10));
    }
    assert_eq!(space.iter_pages().len(), 5);
    let total = space.total_alloc();
    let sorted = space.sorted_pages();
    let starts: Vec<usize> = sorted.iter().map(|p| space.page_alloc().page_start(p)).collect();
    let new_hp = starts[1] + PAGE_HEADER_SIZE + 12;
    space.set_pages(sorted, new_hp);
    assert_eq!(space.iter_pages().len(), 2);
    assert_eq!(space.current_page_idx(), PageIdx(1));
    assert_eq!(space.hp(), new_hp);
    assert_eq!(space.total_alloc(), total);
    assert!(space.page_alloc().contains(starts[0]));
    assert!(space.page_alloc().contains(starts[1]));
    assert!(!space.page_alloc().contains(starts[2]));
    assert!(!space.page_alloc().contains(starts[3]));
    assert!(!space.page_alloc().contains(starts[4]));
    let v = space.alloc_words(Words(2));
    assert_eq!(v.get_ptr(), new_hp);
}

#[test]
fn free_gives_the_pages_back() {
    let mut space = new_space(64);
    for _ in 0..5 {
        space.alloc_words(Words(10));
    }
    let starts: Vec<usize> =
        space.iter_pages().iter().map(|p| space.page_alloc().page_start(p)).collect();
    let page_alloc = space.free();
    for start in starts {
        assert!(!page_alloc.contains(start));
    }
}
