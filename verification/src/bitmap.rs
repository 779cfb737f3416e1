use vstd::prelude::*;

verus! {

/// What a bitmap iterator yields once no set bit is left.  No bitmap holds a
/// bit with this index.
pub const BITMAP_ITER_END: u32 = 0xffff_ffff;

/// Bit `k` of the word `w`.
pub open spec fn bit_of(w: u32, k: u32) -> bool {
    (w >> k) & 1 == 1
}

proof fn lemma_zero_word(k: u32)
    requires
        k < 32,
    ensures
        !bit_of(0, k),
{
    assert((0u32 >> k) & 1 == 0) by (bit_vector)
        requires
            k < 32,
    ;
}

proof fn lemma_set_bit(w: u32, k: u32, j: u32)
    requires
        k < 32,
        j < 32,
    ensures
        bit_of(w | (1u32 << k), j) == (j == k || bit_of(w, j)),
{
    assert((((w | (1u32 << k)) >> j) & 1 == 1) == (j == k || ((w >> j) & 1 == 1))) by (bit_vector)
        requires
            k < 32,
            j < 32,
    ;
}

/// A mark bitmap: one bit for each word of a page, packed into 32-bit words.
pub struct Bitmap {
    words: Vec<u32>,
    n_bits: u32,
}

impl View for Bitmap {
    type V = Seq<bool>;

    /// The bits, by index.
    closed spec fn view(&self) -> Seq<bool> {
        Seq::new(self.n_bits as nat, |i: int| bit_of(self.words@[i / 32], (i % 32) as u32))
    }
}

impl Bitmap {
    /// The number of words matches the number of bits.
    #[verifier::type_invariant]
    pub closed spec fn wf(&self) -> bool {
        &&& self.n_bits < BITMAP_ITER_END
        &&& self.words@.len() == (self.n_bits + 31) / 32
    }

    /// A bitmap of `n_bits` clear bits.
    pub fn new(n_bits: u32) -> (bitmap: Bitmap)
        requires
            n_bits < BITMAP_ITER_END,
        ensures
            bitmap@.len() == n_bits,
            forall|i: int| 0 <= i < n_bits ==> !bitmap@[i],
    {
        let n_words: u32 = n_bits / 32 + (if n_bits % 32 == 0 { 0u32 } else { 1u32 });
        let mut words: Vec<u32> = Vec::new();
        let mut i: u32 = 0;
        while i < n_words
            invariant
                i <= n_words,
                words@.len() == i,
                forall|k: int| 0 <= k < i ==> words@[k] == 0,
            decreases n_words - i,
        {
            words.push(0);
            i = i + 1;
        }
        let bitmap = Bitmap { words, n_bits };
        assert forall|i: int| 0 <= i < n_bits implies !bitmap@[i] by {
            lemma_zero_word((i % 32) as u32);
        }
        bitmap
    }

    /// The number of bits.
    pub fn len(&self) -> (n: u32)
        ensures
            n == self@.len(),
            n < BITMAP_ITER_END,
    {
        proof {
            use_type_invariant(self);
        }
        self.n_bits
    }

    /// Sets bit `idx`.  Setting a set bit changes nothing.
    pub fn set(&mut self, idx: u32)
        requires
            idx < old(self)@.len(),
        ensures
            final(self)@ == old(self)@.update(idx as int, true),
    {
        proof {
            use_type_invariant(&*self);
        }
        let word_idx: usize = (idx / 32) as usize;
        let bit: u32 = idx % 32;
        let w: u32 = self.words[word_idx];
        self.words[word_idx] = w | (1u32 << bit);
        proof {
            assert forall|i: int| 0 <= i < self.n_bits implies self@[i] == old(self)@.update(
                idx as int,
                true,
            )[i] by {
                if i / 32 == idx / 32 {
                    lemma_set_bit(w, bit, (i % 32) as u32);
                }
            }
            assert(self@ =~= old(self)@.update(idx as int, true));
        }
    }

    /// Reads bit `idx`.
    pub fn get(&self, idx: u32) -> (b: bool)
        requires
            idx < self@.len(),
        ensures
            b == self@[idx as int],
    {
        proof {
            use_type_invariant(self);
        }
        let w: u32 = self.words[(idx / 32) as usize];
        (w >> (idx % 32)) & 1 == 1
    }

    /// A single-pass iterator over the indices of the set bits.
    pub fn iter(&self) -> (it: BitmapIter<'_>)
        ensures
            it.bits() == self@,
            it.pos() == 0,
    {
        proof {
            use_type_invariant(self);
        }
        BitmapIter { bitmap: self, pos: 0 }
    }

    /// Releases the bitmap.
    pub fn free(self) {
    }
}

/// The iterator of a bitmap: it walks the indices upwards and stops at each
/// set bit.
pub struct BitmapIter<'a> {
    bitmap: &'a Bitmap,
    pos: u32,
}

impl<'a> BitmapIter<'a> {
    #[verifier::type_invariant]
    pub closed spec fn wf(&self) -> bool {
        &&& self.bitmap.wf()
        &&& self.pos <= self.bitmap.n_bits
    }

    /// The bits of the bitmap that is walked.
    pub closed spec fn bits(&self) -> Seq<bool> {
        self.bitmap@
    }

    /// The index from which the next set bit is looked for.
    pub closed spec fn pos(&self) -> int {
        self.pos as int
    }

    /// The index of the lowest set bit that was not yet yielded, or
    /// `BITMAP_ITER_END` when none is left.
    pub fn next(&mut self) -> (bit: u32)
        ensures
            final(self).bits() == old(self).bits(),
            final(self).pos() <= old(self).bits().len(),
            bit != BITMAP_ITER_END ==> {
                &&& old(self).pos() <= bit < old(self).bits().len()
                &&& old(self).bits()[bit as int]
                &&& final(self).pos() == bit + 1
            },
            bit == BITMAP_ITER_END ==> final(self).pos() == old(self).bits().len(),
            forall|j: int|
                old(self).pos() <= j < old(self).bits().len() && (bit == BITMAP_ITER_END || j < bit)
                    ==> !old(self).bits()[j],
    {
        proof {
            use_type_invariant(&*self);
        }
        let n_bits: u32 = self.bitmap.n_bits;
        while self.pos < n_bits
            invariant
                self.wf(),
                n_bits == self.bitmap.n_bits,
                self.bitmap == old(self).bitmap,
                old(self).pos <= self.pos,
                forall|j: int| old(self).pos <= j < self.pos ==> !old(self).bits()[j],
            decreases n_bits - self.pos,
        {
            let w: u32 = self.bitmap.words[(self.pos / 32) as usize];
            if w == 0 {
                let next_word: u32 = (self.pos / 32) * 32;
                let skip_to: u32 = if n_bits - next_word <= 32 {
                    n_bits
                } else {
                    next_word + 32
                };
                proof {
                    assert forall|j: int| self.pos <= j < skip_to implies !old(self).bits()[j] by {
                        assert(j / 32 == self.pos / 32);
                        lemma_zero_word((j % 32) as u32);
                    }
                }
                self.pos = skip_to;
            } else if (w >> (self.pos % 32)) & 1 == 1 {
                let found: u32 = self.pos;
                self.pos = self.pos + 1;
                return found;
            } else {
                self.pos = self.pos + 1;
            }
        }
        BITMAP_ITER_END
    }
}

} // verus!
