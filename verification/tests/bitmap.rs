use motoko_rts::bitmap::{Bitmap, BITMAP_ITER_END};

#[test]
fn fresh_bitmap_is_clear() {
    let bitmap = Bitmap::new(100);
    assert_eq!(bitmap.len(), 100);
    for i in 0..100 {
        assert!(!bitmap.get(i));
    }
    let mut iter = bitmap.iter();
    assert_eq!(iter.next(), BITMAP_ITER_END);
    assert_eq!(iter.next(), BITMAP_ITER_END);
}

#[test]
fn set_bits_are_iterated_in_ascending_order() {
    let picks: [u32; 9] = [77, 3, 64, 0, 31, 32, 199, 63, 128];
    let mut bitmap = Bitmap::new(200);
    for i in picks {
        bitmap.set(i);
    }
    let mut sorted = picks.to_vec();
    sorted.sort();
    let mut iter = bitmap.iter();
    for expected in sorted {
        assert_eq!(iter.next(), expected);
    }
    assert_eq!(iter.next(), BITMAP_ITER_END);
    for j in 0..200 {
        assert_eq!(bitmap.get(j), picks.contains(&j));
    }
}

#[test]
fn set_is_idempotent() {
    let mut bitmap = Bitmap::new(40);
    bitmap.set(39);
    bitmap.set(39);
    bitmap.set(5);
    let mut iter = bitmap.iter();
    assert_eq!(iter.next(), 5);
    assert_eq!(iter.next(), 39);
    assert_eq!(iter.next(), BITMAP_ITER_END);
}

#[test]
fn every_single_bit_is_found() {
    for n in [1u32, 31, 32, 33, 95, 96] {
        for i in 0..n {
            let mut bitmap = Bitmap::new(n);
            bitmap.set(i);
            let mut iter = bitmap.iter();
            assert_eq!(iter.next(), i);
            assert_eq!(iter.next(), BITMAP_ITER_END);
        }
    }
}

#[test]
fn all_bits_set() {
    let mut bitmap = Bitmap::new(70);
    for i in 0..70 {
        bitmap.set(i);
    }
    let mut iter = bitmap.iter();
    for i in 0..70 {
        assert_eq!(iter.next(), i);
    }
    assert_eq!(iter.next(), BITMAP_ITER_END);
    bitmap.free();
}

#[test]
fn empty_bitmap() {
    let bitmap = Bitmap::new(0);
    assert_eq!(bitmap.len(), 0);
    assert_eq!(bitmap.iter().next(), BITMAP_ITER_END);
}
