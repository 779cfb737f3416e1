use motoko_rts::bitset::{BitRel, BitSet};
use motoko_rts::object::Trap;

#[test]
fn bit_set_sets_and_gets() {
    let mut set = BitSet::new(4);
    for n in 0..32 {
        assert_eq!(set.get(n), Ok(false));
    }
    assert_eq!(set.set(0), Ok(()));
    assert_eq!(set.set(9), Ok(()));
    assert_eq!(set.set(31), Ok(()));
    assert_eq!(set.set(9), Ok(()));
    for n in 0..32 {
        assert_eq!(set.get(n), Ok(n == 0 || n == 9 || n == 31));
    }
    assert_eq!(set.bits, vec![1, 2, 0, 128]);
}

#[test]
fn bit_set_traps_out_of_bounds() {
    let mut set = BitSet::new(4);
    assert_eq!(set.set(32), Err(Trap::OutOfBounds));
    assert_eq!(set.get(32), Err(Trap::OutOfBounds));
    assert_eq!(set.get(0xffff_ffff), Err(Trap::OutOfBounds));
    assert_eq!(set.bits, vec![0, 0, 0, 0]);
    let mut empty = BitSet::new(0);
    assert_eq!(empty.set(0), Err(Trap::OutOfBounds));
}

#[test]
fn bit_rel_sets_and_gets_in_both_halves() {
    let mut rel = BitRel { bits: vec![0xff; 8], n: 3, m: 5 };
    rel.clear();
    assert_eq!(rel.bits, vec![0; 8]);
    assert_eq!(rel.get(true, 2, 4), Ok(false));
    assert_eq!(rel.set(true, 2, 4), Ok(()));
    assert_eq!(rel.get(true, 2, 4), Ok(true));
    assert_eq!(rel.bits, vec![0, 64, 0, 0, 0, 0, 0, 0]);
    // the second half begins behind the n * m bits of the first
    assert_eq!(rel.get(false, 4, 2), Ok(false));
    assert_eq!(rel.set(false, 4, 2), Ok(()));
    assert_eq!(rel.get(false, 4, 2), Ok(true));
    assert_eq!(rel.get(true, 2, 4), Ok(true));
    assert_eq!(rel.bits, vec![0, 64, 0, 32, 0, 0, 0, 0]);
    // the first pair of the second half
    assert_eq!(rel.set(false, 0, 0), Ok(()));
    assert_eq!(rel.bits, vec![0, 64 + 128, 0, 32, 0, 0, 0, 0]);
}

#[test]
fn bit_rel_keeps_pairs_apart() {
    let mut rel = BitRel { bits: vec![0; 8], n: 3, m: 5 };
    assert_eq!(rel.set(true, 0, 1), Ok(()));
    assert_eq!(rel.get(true, 0, 1), Ok(true));
    assert_eq!(rel.get(true, 1, 0), Ok(false));
    assert_eq!(rel.get(false, 1, 0), Ok(false));
    assert_eq!(rel.get(false, 0, 1), Ok(false));
    assert_eq!(rel.bits, vec![2, 0, 0, 0, 0, 0, 0, 0]);
}

#[test]
fn bit_rel_traps_out_of_bounds() {
    let mut rel = BitRel { bits: vec![0; 8], n: 3, m: 5 };
    assert_eq!(rel.set(true, 3, 0), Err(Trap::OutOfBounds));
    assert_eq!(rel.get(true, 3, 0), Err(Trap::OutOfBounds));
    assert_eq!(rel.set(true, 0, 5), Err(Trap::OutOfBounds));
    assert_eq!(rel.set(false, 5, 0), Err(Trap::OutOfBounds));
    assert_eq!(rel.get(false, 0, 3), Err(Trap::OutOfBounds));
    assert_eq!(rel.bits, vec![0; 8]);
    // a buffer that is too short for the second half
    let mut short = BitRel { bits: vec![0; 3], n: 3, m: 5 };
    assert_eq!(short.set(true, 2, 4), Ok(()));
    assert_eq!(short.set(false, 4, 2), Err(Trap::OutOfBounds));
    assert_eq!(short.get(false, 4, 2), Err(Trap::OutOfBounds));
    assert_eq!(short.set(false, 3, 1), Ok(()));
    let mut none = BitRel { bits: vec![0; 8], n: 0, m: 5 };
    assert_eq!(none.set(true, 0, 0), Err(Trap::OutOfBounds));
}
