//! A simple bit set and a bit relation, for use by generated code.
use vstd::prelude::*;
use crate::object::Trap;

verus! {

/// Bit `k` of the byte `w`.
pub open spec fn byte_bit(w: u8, k: u8) -> bool {
    (w >> k) & 1 == 1
}

/// Bit `n` of the bytes `bytes`: bit `n % 8` of byte `n / 8`.
pub open spec fn bit_at(bytes: Seq<u8>, n: int) -> bool {
    byte_bit(bytes[n / 8], (n % 8) as u8)
}

/// Whether bit `bit` of `w` is set.
fn test_bit(w: u8, bit: u8) -> (b: bool)
    requires
        bit < 8,
    ensures
        b == byte_bit(w, bit),
{
    let mask: u8 = 1u8 << bit;
    assert((w & (1u8 << bit) == (1u8 << bit)) == ((w >> bit) & 1 == 1)) by (bit_vector)
        requires
            bit < 8,
    ;
    w & mask == mask
}

/// The byte `w` with bit `bit` set.
fn with_bit(w: u8, bit: u8) -> (r: u8)
    requires
        bit < 8,
    ensures
        forall|k: u8| k < 8 ==> #[trigger] byte_bit(r, k) == (k == bit || byte_bit(w, k)),
{
    let r: u8 = w | (1u8 << bit);
    assert forall|k: u8| k < 8 implies #[trigger] byte_bit(r, k) == (k == bit || byte_bit(
        w,
        k,
    )) by {
        assert((((w | (1u8 << bit)) >> k) & 1 == 1) == (k == bit || ((w >> k) & 1 == 1)))
            by (bit_vector)
            requires
                bit < 8,
                k < 8,
        ;
    }
    r
}

/// No bit of the byte zero is set.
proof fn lemma_zero_byte(k: u8)
    requires
        k < 8,
    ensures
        !byte_bit(0, k),
{
    assert((0u8 >> k) & 1 == 0) by (bit_vector)
        requires
            k < 8,
    ;
}

/// A set of small numbers: bit `n` of its bytes says whether `n` is in the
/// set.
pub struct BitSet {
    /// The bytes of the bit set
    pub bits: Vec<u8>,
}

impl BitSet {
    /// An empty set with room for the numbers below `8 * n_bytes`.
    pub fn new(n_bytes: usize) -> (set: BitSet)
        ensures
            set.bits@.len() == n_bytes,
            forall|n: int| 0 <= n < 8 * n_bytes ==> !bit_at(set.bits@, n),
    {
        let mut bits: Vec<u8> = Vec::new();
        let mut i: usize = 0;
        while i < n_bytes
            invariant
                i <= n_bytes,
                bits@.len() == i,
                forall|k: int| 0 <= k < i ==> bits@[k] == 0,
            decreases n_bytes - i,
        {
            bits.push(0);
            i = i + 1;
        }
        let set = BitSet { bits };
        proof {
            assert forall|n: int| 0 <= n < 8 * n_bytes implies !bit_at(set.bits@, n) by {
                lemma_zero_byte((n % 8) as u8);
            }
        }
        set
    }

    /// Puts `n` into the set.  Fails where the set has no bit for `n`.
    pub fn set(&mut self, n: u32) -> (r: Result<(), Trap>)
        ensures
            final(self).bits@.len() == old(self).bits@.len(),
            r is Ok <==> n / 8 < old(self).bits@.len(),
            r is Err ==> r == Err::<(), Trap>(Trap::OutOfBounds) && final(self).bits@ == old(self).bits@,
            r is Ok ==> forall|k: int|
                0 <= k < 8 * old(self).bits@.len() ==> bit_at(final(self).bits@, k) == (k == n
                    || bit_at(old(self).bits@, k)),
    {
        let byte: usize = (n / 8) as usize;
        let bit: u8 = (n % 8) as u8;
        if byte >= self.bits.len() {
            return Err(Trap::OutOfBounds);
        }
        let w: u8 = self.bits[byte];
        let r: u8 = with_bit(w, bit);
        self.bits.set(byte, r);
        proof {
            assert forall|k: int| 0 <= k < 8 * old(self).bits@.len() implies bit_at(
                self.bits@,
                k,
            ) == (k == n || bit_at(old(self).bits@, k)) by {
                if k / 8 == byte {
                    assert(byte_bit(r, (k % 8) as u8) == ((k % 8) as u8 == bit || byte_bit(
                        w,
                        (k % 8) as u8,
                    )));
                }
            }
        }
        Ok(())
    }

    /// Whether `n` is in the set.  Fails where the set has no bit for `n`.
    pub fn get(&self, n: u32) -> (r: Result<bool, Trap>)
        ensures
            r == (if n / 8 < self.bits@.len() {
                Ok::<bool, Trap>(bit_at(self.bits@, n as int))
            } else {
                Err::<bool, Trap>(Trap::OutOfBounds)
            }),
    {
        let byte: usize = (n / 8) as usize;
        let bit: u8 = (n % 8) as u8;
        if byte >= self.bits.len() {
            return Err(Trap::OutOfBounds);
        }
        Ok(test_bit(self.bits[byte], bit))
    }
}

/// A relation between small numbers, kept as bits.
pub struct BitRel {
    /// The bytes of the bits
    pub bits: Vec<u8>,
    pub n: u32,
    pub m: u32,
}

/// The bit that stands for a pair, or nothing where the pair is out of
/// bounds.  The relation has two halves of `n * m` bits each.  With `p` the
/// pair `(i_j, j_i)` stands in row `i_j` and column `j_i` of the first half;
/// without `p` it stands in row `j_i` and column `i_j` of the second half.
pub open spec fn bit_rel_index(n: int, m: int, p: bool, i_j: int, j_i: int) -> Option<int> {
    let i = if p {
        i_j
    } else {
        j_i
    };
    let j = if p {
        j_i
    } else {
        i_j
    };
    let base = if p {
        0
    } else {
        n * m
    };
    if i >= n || j >= m {
        None
    } else {
        Some(base + i * m + j)
    }
}

impl BitRel {
    /// The bit that stands for a pair, where the pair is in bounds and the
    /// bits reach so far.
    pub open spec fn locate(&self, p: bool, i_j: u32, j_i: u32) -> Option<int> {
        match bit_rel_index(self.n as int, self.m as int, p, i_j as int, j_i as int) {
            Some(k) => if k / 8 < self.bits@.len() {
                Some(k)
            } else {
                None
            },
            None => None,
        }
    }

    /// Decides `locate`.
    fn locate_bit(&self, p: bool, i_j: u32, j_i: u32) -> (r: Option<(usize, u8)>)
        ensures
            match r {
                Some((byte, bit)) => self.locate(p, i_j, j_i) == Some(byte * 8 + bit) && bit < 8
                    && byte < self.bits@.len(),
                None => self.locate(p, i_j, j_i) is None,
            },
    {
        let n: u128 = self.n as u128;
        let m: u128 = self.m as u128;
        let i: u128 = if p {
            i_j as u128
        } else {
            j_i as u128
        };
        let j: u128 = if p {
            j_i as u128
        } else {
            i_j as u128
        };
        if i >= n {
            return None;
        }
        if j >= m {
            return None;
        }
        assert(n * m <= 0xffff_ffff * 0xffff_ffff && i * m <= 0xffff_ffff * 0xffff_ffff) by (nonlinear_arith)
            requires
                n <= 0xffff_ffff,
                m <= 0xffff_ffff,
                i <= 0xffff_ffff,
        ;
        let base: u128 = if p {
            0
        } else {
            n * m
        };
        let k: u128 = base + i * m + j;
        let byte: u128 = k / 8;
        let bit: u8 = (k % 8) as u8;
        if byte >= self.bits.len() as u128 {
            return None;
        }
        Some((byte as usize, bit))
    }

    /// Clears all bits.
    pub fn clear(&mut self)
        ensures
            final(self).bits@.len() == old(self).bits@.len(),
            final(self).n == old(self).n,
            final(self).m == old(self).m,
            forall|k: int| 0 <= k < final(self).bits@.len() ==> final(self).bits@[k] == 0,
    {
        let mut ptr: usize = 0;
        while ptr < self.bits.len()
            invariant
                self.bits@.len() == old(self).bits@.len(),
                self.n == old(self).n,
                self.m == old(self).m,
                forall|k: int| 0 <= k < ptr ==> self.bits@[k] == 0,
            decreases self.bits@.len() - ptr,
        {
            self.bits.set(ptr, 0);
            ptr = ptr + 1;
        }
    }

    /// Sets the bit of a pair.  Fails where the pair is out of bounds or the
    /// bits do not reach so far.
    pub fn set(&mut self, p: bool, i_j: u32, j_i: u32) -> (r: Result<(), Trap>)
        ensures
            final(self).bits@.len() == old(self).bits@.len(),
            final(self).n == old(self).n,
            final(self).m == old(self).m,
            r is Ok <==> old(self).locate(p, i_j, j_i) is Some,
            r is Err ==> r == Err::<(), Trap>(Trap::OutOfBounds) && final(self).bits@ == old(self).bits@,
            r is Ok ==> forall|k: int|
                0 <= k < 8 * old(self).bits@.len() ==> bit_at(final(self).bits@, k) == (Some(k)
                    == old(self).locate(p, i_j, j_i) || bit_at(old(self).bits@, k)),
    {
        let (byte, bit) = match self.locate_bit(p, i_j, j_i) {
            Some(place) => place,
            None => {
                return Err(Trap::OutOfBounds);
            },
        };
        let w: u8 = self.bits[byte];
        let r: u8 = with_bit(w, bit);
        self.bits.set(byte, r);
        proof {
            assert forall|k: int| 0 <= k < 8 * old(self).bits@.len() implies bit_at(
                self.bits@,
                k,
            ) == (Some(k) == old(self).locate(p, i_j, j_i) || bit_at(old(self).bits@, k)) by {
                if k / 8 == byte {
                    assert(byte_bit(r, (k % 8) as u8) == ((k % 8) as u8 == bit || byte_bit(
                        w,
                        (k % 8) as u8,
                    )));
                }
            }
        }
        Ok(())
    }

    /// Reads the bit of a pair.  Fails where the pair is out of bounds or
    /// the bits do not reach so far.
    pub fn get(&self, p: bool, i_j: u32, j_i: u32) -> (r: Result<bool, Trap>)
        ensures
            r == (match self.locate(p, i_j, j_i) {
                Some(k) => Ok::<bool, Trap>(bit_at(self.bits@, k)),
                None => Err::<bool, Trap>(Trap::OutOfBounds),
            }),
    {
        match self.locate_bit(p, i_j, j_i) {
            Some((byte, bit)) => Ok(test_bit(self.bits[byte], bit)),
            None => Err(Trap::OutOfBounds),
        }
    }
}

/// A pair that is in bounds has its bit among the first `2 * n * m` bits,
/// and no two pairs share a bit: so `set` and `get` succeed on every pair
/// in bounds where the buffer holds that many bits, and a bit that was set
/// is found for the pair that it was set for alone.
pub proof fn lemma_bit_rel_index(n: int, m: int, p: bool, i_j: int, j_i: int, q: bool, k_l: int, l_k: int)
    requires
        0 <= n,
        0 <= m,
        0 <= i_j,
        0 <= j_i,
        0 <= k_l,
        0 <= l_k,
    ensures
        bit_rel_index(n, m, p, i_j, j_i) is Some <==> (if p {
            i_j < n && j_i < m
        } else {
            j_i < n && i_j < m
        }),
        bit_rel_index(n, m, p, i_j, j_i) matches Some(k) ==> 0 <= k < 2 * n * m,
        bit_rel_index(n, m, p, i_j, j_i) is Some && bit_rel_index(n, m, p, i_j, j_i)
            == bit_rel_index(n, m, q, k_l, l_k) ==> p == q && i_j == k_l && j_i == l_k,
{
    let i = if p { i_j } else { j_i };
    let j = if p { j_i } else { i_j };
    let i2 = if q { k_l } else { l_k };
    let j2 = if q { l_k } else { k_l };
    assert(2 * n * m == n * m + n * m && 0 <= n * m) by (nonlinear_arith)
        requires
            0 <= n,
            0 <= m,
    ;
    if i < n && j < m {
        assert(0 <= i * m + j < n * m) by (nonlinear_arith)
            requires
                0 <= i < n,
                0 <= j < m,
        ;
        if i2 < n && j2 < m {
            assert(0 <= i2 * m + j2 < n * m) by (nonlinear_arith)
                requires
                    0 <= i2 < n,
                    0 <= j2 < m,
            ;
            if i * m + j == i2 * m + j2 {
                assert(i == i2 && j == j2) by (nonlinear_arith)
                    requires
                        0 <= j < m,
                        0 <= j2 < m,
                        0 <= i,
                        0 <= i2,
                        i * m + j == i2 * m + j2,
                ;
            }
        }
    }
}

} // verus!
