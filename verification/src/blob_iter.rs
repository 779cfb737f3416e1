//! Iterators over the bytes of a blob.  An iterator is an array of two
//! fields: the blob, and the position of the next byte as a scalar.
use vstd::prelude::*;
use crate::memory::{Memory, ARRAY_HEADER_WORDS};
use crate::page_alloc::{fresh_range, preserved_on, WordMemory};
use crate::types::{Value, Words, TAG_ARRAY};

verus! {

/// Index of the field of an iterator that holds the blob.
pub const ITER_BLOB_IDX: u32 = 0;

/// Index of the field of an iterator that holds the position.
pub const ITER_POS_IDX: u32 = 1;

/// The largest position that an iterator can be at: a scalar holds it.
pub const MAX_ITER_POS: u32 = 0x3fff_ffff;

/// The blob of the iterator that `iter` points to.
pub open spec fn iter_blob(words: Map<int, u32>, iter: Value) -> Value {
    Value(words[iter.spec_get_ptr() + 8])
}

/// The position of the iterator that `iter` points to.
pub open spec fn iter_pos(words: Map<int, u32>, iter: Value) -> int {
    Value(words[iter.spec_get_ptr() + 12]).spec_get_scalar()
}

/// The length in bytes of the blob of the iterator that `iter` points to.
pub open spec fn iter_len(words: Map<int, u32>, iter: Value) -> int {
    words[iter_blob(words, iter).spec_get_ptr() + 4] as int
}

/// Whether `iter` points to an iterator: its two fields and the length of
/// its blob can be read.
pub open spec fn is_blob_iter(words: Map<int, u32>, iter: Value) -> bool {
    &&& words.dom().contains(iter.spec_get_ptr() + 8)
    &&& words.dom().contains(iter.spec_get_ptr() + 12)
    &&& words.dom().contains(iter_blob(words, iter).spec_get_ptr() + 4)
}

/// Byte `k` of the word `w`, the lowest byte first.
pub open spec fn byte_of_word(w: u32, k: int) -> int {
    if k == 0 {
        w as int % 256
    } else if k == 1 {
        (w as int / 256) % 256
    } else if k == 2 {
        (w as int / 65536) % 256
    } else {
        w as int / 16777216
    }
}

/// Byte `pos` of the payload of the blob at `blob`.
pub open spec fn blob_byte(words: Map<int, u32>, blob: int, pos: int) -> int {
    byte_of_word(words[blob + 8 + (pos / 4) * 4], pos % 4)
}

/// Returns iterator for the given blob, at the first byte.
pub fn blob_iter<M: Memory>(mem: &mut M, blob: Value) -> (iter: Value)
    requires
        old(mem).wf(),
        old(mem).can_alloc_words(Words(4)),
    ensures
        final(mem).wf(),
        iter.spec_is_ptr(),
        final(mem).words().dom().contains(iter.spec_get_ptr()),
        final(mem).words().dom().contains(iter.spec_get_ptr() + 4),
        final(mem).words().dom().contains(iter.spec_get_ptr() + 8),
        final(mem).words().dom().contains(iter.spec_get_ptr() + 12),
        final(mem).words()[iter.spec_get_ptr()] == TAG_ARRAY,
        final(mem).words()[iter.spec_get_ptr() + 4] == 2,
        iter_blob(final(mem).words(), iter) == blob,
        iter_pos(final(mem).words(), iter) == 0,
        fresh_range(
            old(mem).allocated(),
            final(mem).allocated(),
            iter.spec_get_ptr(),
            iter.spec_get_ptr() + 16,
        ),
        old(mem).allocated().subset_of(final(mem).allocated()),
        preserved_on(old(mem).words(), final(mem).words(), old(mem).allocated()),
{
    let iter_ptr = mem.alloc_words(Words(ARRAY_HEADER_WORDS + 2));
    let ghost taken = *mem;

    // NB. cannot read the array here as we didn't write the header yet
    let iter_array: usize = iter_ptr.get_ptr();
    proof {
        assert(mem.words().dom().contains(iter_array as int));
        assert(mem.words().dom().contains(iter_array + 4));
        assert(mem.words().dom().contains(iter_array + 8));
        assert(mem.words().dom().contains(iter_array + 12));
        mem.lemma_mapped(iter_array + 12);
        assert(!old(mem).allocated().contains(iter_array as int));
        assert(!old(mem).allocated().contains(iter_array + 4));
        assert(!old(mem).allocated().contains(iter_array + 8));
        assert(!old(mem).allocated().contains(iter_array + 12));
    }
    mem.store(iter_array, TAG_ARRAY);
    mem.store(iter_array + 4, 2);

    mem.store(iter_array + 8 + ITER_BLOB_IDX as usize * 4, blob.get_raw());
    mem.store(iter_array + 8 + ITER_POS_IDX as usize * 4, Value::from_scalar(0).get_raw());

    iter_ptr
}

/// Returns whether the iterator is finished: 1 where its position is at or
/// behind the end of the blob, else 0.
pub fn blob_iter_done<M: WordMemory>(mem: &M, iter: Value) -> (done: u32)
    requires
        mem.wf(),
        is_blob_iter(mem.words(), iter),
    ensures
        done == (if iter_pos(mem.words(), iter) >= iter_len(mem.words(), iter) {
            1u32
        } else {
            0u32
        }),
{
    let iter_array: usize = iter.get_ptr();
    proof {
        mem.lemma_mapped(iter_array + 12);
    }
    let blob = Value::from_raw(mem.read_word(iter_array + 8));
    let pos: u32 = Value::from_raw(mem.read_word(iter_array + 12)).get_scalar();
    proof {
        mem.lemma_mapped(blob.spec_get_ptr() + 4);
    }
    let len: u32 = mem.read_word(blob.get_ptr() + 4);
    if pos >= len {
        1
    } else {
        0
    }
}

/// Reads next byte, advances the iterator.
pub fn blob_iter_next<M: Memory>(mem: &mut M, iter: Value) -> (byte: u32)
    requires
        old(mem).wf(),
        is_blob_iter(old(mem).words(), iter),
        iter_pos(old(mem).words(), iter) < MAX_ITER_POS,
        old(mem).words().dom().contains(
            iter_blob(old(mem).words(), iter).spec_get_ptr() + 8 + (iter_pos(
                old(mem).words(),
                iter,
            ) / 4) * 4,
        ),
    ensures
        final(mem).wf(),
        byte == blob_byte(
            old(mem).words(),
            iter_blob(old(mem).words(), iter).spec_get_ptr(),
            iter_pos(old(mem).words(), iter),
        ),
        byte < 256,
        final(mem).words() == old(mem).words().insert(
            iter.spec_get_ptr() + 12,
            ((iter_pos(old(mem).words(), iter) + 1) * 4) as u32,
        ),
        final(mem).allocated() == old(mem).allocated(),
{
    let iter_array: usize = iter.get_ptr();
    proof {
        mem.lemma_mapped(iter_array + 12);
    }
    let blob = Value::from_raw(mem.read_word(iter_array + 8));
    let pos: u32 = Value::from_raw(mem.read_word(iter_array + 12)).get_scalar();
    proof {
        mem.lemma_mapped(blob.spec_get_ptr() + 8 + (pos / 4) * 4);
    }
    let word: u32 = mem.read_word(blob.get_ptr() + 8 + (pos / 4) as usize * 4);

    mem.store(iter_array + 12, Value::from_scalar(pos + 1).get_raw());

    let k: u32 = pos % 4;
    if k == 0 {
        word % 256
    } else if k == 1 {
        (word / 256) % 256
    } else if k == 2 {
        (word / 65536) % 256
    } else {
        word / 16777216
    }
}

} // verus!
