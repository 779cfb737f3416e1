use motoko_rts::object::{object_size, pointer_fields, Trap};
use motoko_rts::page_alloc::{PageAlloc, WordMemory};
use motoko_rts::test_page_alloc::TestPageAlloc;
use motoko_rts::types::{
    tag_is_object, Bytes, Value, Words, TAG_ARRAY, TAG_BLOB, TAG_CONCAT, TAG_FREE_SPACE,
    TAG_FWD_PTR, TAG_MUTBOX, TAG_NULL, TAG_OBJECT, TAG_ONE_WORD_FILLER,
};

#[test]
fn pointer_round_trip() {
    let v = Value::from_ptr(0x1000);
    assert!(v.is_ptr());
    assert!(!v.is_scalar());
    assert_eq!(v.get_raw(), 0x1001);
    assert_eq!(v.get_ptr(), 0x1000);
}

#[test]
fn pointer_round_trip_for_many_addresses() {
    let mut addr: usize = 0;
    while addr < 0x10000 {
        let v = Value::from_ptr(addr);
        assert!(v.is_ptr());
        assert!(!v.is_scalar());
        assert_eq!(v.get_ptr(), addr);
        assert_eq!(Value::from_ptr(v.get_ptr()), v);
        addr += 4;
    }
    let top = Value::from_ptr(0xffff_fffc);
    assert_eq!(top.get_raw(), 0xffff_fffd);
    assert_eq!(top.get_ptr(), 0xffff_fffc);
}

#[test]
fn scalars_and_pointers_never_collide() {
    let mut n: u32 = 0;
    while n < 5000 {
        let s = Value::from_scalar(n);
        assert!(s.is_scalar());
        assert!(!s.is_ptr());
        assert_eq!(s.get_scalar(), n);
        assert_eq!(s.get_raw(), n * 4);
        let p = Value::from_ptr((n as usize) * 4);
        assert_ne!(s, p);
        n += 1;
    }
}

#[test]
fn zero_word_is_the_scalar_zero() {
    let zero = Value::from_raw(0);
    assert!(zero.is_scalar());
    assert!(!zero.is_ptr());
    assert_eq!(zero.get_scalar(), 0);
    assert_eq!(zero, Value::from_scalar(0));
}

#[test]
fn scalar_keeps_thirty_bits() {
    assert_eq!(Value::from_scalar(0x3fff_ffff).get_scalar(), 0x3fff_ffff);
    assert_eq!(Value::from_scalar(0x4000_0001).get_scalar(), 1);
}

#[test]
fn words_and_bytes_convert() {
    assert_eq!(Words(3u32).to_bytes(), Bytes(12u32));
    assert_eq!(Bytes(12u32).to_words(), Words(3u32));
    assert_eq!(Bytes(13u32).to_words(), Words(4u32));
    assert_eq!(Bytes(0u32).to_words(), Words(0u32));
    assert_eq!(Bytes(0xffff_ffffu32).to_words(), Words(0x4000_0000u32));
    assert_eq!(Words(7u32).as_usize(), 7);
    assert_eq!(Bytes(7u32).as_u32(), 7);
}

#[test]
fn tags_are_odd_and_ordered() {
    let tags = [
        TAG_OBJECT, 3, TAG_ARRAY, 7, TAG_MUTBOX, 11, 13, 15, TAG_BLOB, 19, 21, 23, TAG_CONCAT,
        TAG_NULL,
    ];
    for tag in tags {
        assert_eq!(tag % 2, 1);
        assert!(tag_is_object(tag));
    }
    assert!(!tag_is_object(TAG_FWD_PTR));
    assert!(!tag_is_object(TAG_ONE_WORD_FILLER));
    assert!(!tag_is_object(TAG_FREE_SPACE));
    assert!(!tag_is_object(0));
    assert!(!tag_is_object(4));
}

fn memory_with(words: &[u32]) -> (TestPageAlloc, usize) {
    let mut page_alloc = TestPageAlloc::new(256);
    let page = page_alloc.alloc_page();
    let start = page_alloc.page_contents_start(&page);
    let mut addr = start;
    for w in words {
        page_alloc.write_word(addr, *w);
        addr += 4;
    }
    (page_alloc, start)
}

#[test]
fn object_sizes_follow_the_layouts() {
    let (mem, a) = memory_with(&[TAG_MUTBOX, 0]);
    assert_eq!(object_size(&mem, a), Ok(Words(2)));
    let (mem, a) = memory_with(&[TAG_ARRAY, 5]);
    assert_eq!(object_size(&mem, a), Ok(Words(7)));
    let (mem, a) = memory_with(&[TAG_BLOB, 5]);
    assert_eq!(object_size(&mem, a), Ok(Words(4)));
    let (mem, a) = memory_with(&[TAG_BLOB, 8]);
    assert_eq!(object_size(&mem, a), Ok(Words(4)));
    let (mem, a) = memory_with(&[TAG_OBJECT, 2, 0]);
    assert_eq!(object_size(&mem, a), Ok(Words(5)));
    let (mem, a) = memory_with(&[11, 0, 3]);
    assert_eq!(object_size(&mem, a), Ok(Words(6)));
    let (mem, a) = memory_with(&[7]);
    assert_eq!(object_size(&mem, a), Ok(Words(3)));
    let (mem, a) = memory_with(&[21]);
    assert_eq!(object_size(&mem, a), Ok(Words(2)));
    let (mem, a) = memory_with(&[TAG_CONCAT]);
    assert_eq!(object_size(&mem, a), Ok(Words(4)));
    let (mem, a) = memory_with(&[TAG_NULL]);
    assert_eq!(object_size(&mem, a), Ok(Words(1)));
    let (mem, a) = memory_with(&[TAG_FWD_PTR]);
    assert_eq!(object_size(&mem, a), Ok(Words(2)));
    let (mem, a) = memory_with(&[TAG_ONE_WORD_FILLER]);
    assert_eq!(object_size(&mem, a), Ok(Words(1)));
    let (mem, a) = memory_with(&[TAG_FREE_SPACE, 9]);
    assert_eq!(object_size(&mem, a), Ok(Words(9)));
}

#[test]
fn object_size_traps() {
    let (mem, a) = memory_with(&[0]);
    assert_eq!(object_size(&mem, a), Err(Trap::InvalidTag));
    let (mem, a) = memory_with(&[35]);
    assert_eq!(object_size(&mem, a), Err(Trap::InvalidTag));
    let (mem, a) = memory_with(&[TAG_FREE_SPACE, 1]);
    assert_eq!(object_size(&mem, a), Err(Trap::InvalidObject));
    let (mem, a) = memory_with(&[TAG_ARRAY, 0x3fff_fffe]);
    assert_eq!(object_size(&mem, a), Err(Trap::LargeObject));
    let (mem, _) = memory_with(&[TAG_ARRAY, 1]);
    assert_eq!(object_size(&mem, 4), Err(Trap::OutOfBounds));
    assert!(!mem.contains(4));
}

#[test]
fn pointer_fields_follow_the_layouts() {
    let (mem, a) = memory_with(&[TAG_MUTBOX, 0]);
    assert_eq!(pointer_fields(&mem, a, TAG_MUTBOX), Ok((a + 4, 1)));
    let (mem, a) = memory_with(&[TAG_ARRAY, 5]);
    assert_eq!(pointer_fields(&mem, a, TAG_ARRAY), Ok((a + 8, 5)));
    let (mem, a) = memory_with(&[TAG_OBJECT, 2, 0]);
    assert_eq!(pointer_fields(&mem, a, TAG_OBJECT), Ok((a + 12, 2)));
    let (mem, a) = memory_with(&[11, 0, 3]);
    assert_eq!(pointer_fields(&mem, a, 11), Ok((a + 12, 3)));
    let (mem, a) = memory_with(&[TAG_CONCAT]);
    assert_eq!(pointer_fields(&mem, a, TAG_CONCAT), Ok((a + 8, 2)));
    let (mem, a) = memory_with(&[15]);
    assert_eq!(pointer_fields(&mem, a, 15), Ok((a + 8, 1)));
    let (mem, a) = memory_with(&[TAG_BLOB, 16]);
    assert_eq!(pointer_fields(&mem, a, TAG_BLOB).map(|f| f.1), Ok(0));
    let (mem, a) = memory_with(&[7]);
    assert_eq!(pointer_fields(&mem, a, 7).map(|f| f.1), Ok(0));
    let (mem, a) = memory_with(&[2]);
    assert_eq!(pointer_fields(&mem, a, 2), Err(Trap::InvalidTag));
}
