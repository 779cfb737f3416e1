use vstd::prelude::*;
use crate::object::Trap;
use crate::page_alloc::{mapped_range, same_bitmaps, same_pages, PageAlloc, WordMemory};
use crate::types::Words;

verus! {

/// The memory after `n` words were copied from `from` to `to`, one by one in
/// the order of their addresses.
pub open spec fn copy_region(words: Map<int, u32>, to: int, from: int, n: int) -> Map<int, u32>
    decreases n,
{
    if n <= 0 {
        words
    } else {
        copy_region(words.insert(to, words[from]), to + 4, from + 4, n - 1)
    }
}

/// A copy changes the words of the target range only and maps no address.
pub proof fn lemma_copy_region_frame(words: Map<int, u32>, to: int, from: int, n: int)
    requires
        mapped_range(words, to, to + 4 * n),
        to % 4 == 0,
    ensures
        copy_region(words, to, from, n).dom() == words.dom(),
        forall|a: int|
            !(to <= a < to + 4 * n) ==> #[trigger] copy_region(words, to, from, n)[a] == words[a],
    decreases n,
{
    if n > 0 {
        let next = words.insert(to, words[from]);
        assert(words.dom().contains(to));
        assert(next.dom() =~= words.dom());
        assert forall|a: int| to + 4 <= a < to + 4 + 4 * (n - 1) && a % 4 == 0 implies 
            #[trigger] next.dom().contains(a) by {
            assert(words.dom().contains(a));
        }
        lemma_copy_region_frame(next, to + 4, from + 4, n - 1);
    }
}

/// Where the target does not lie above the source inside the source range,
/// the target range ends up with the words that the source range held.
pub proof fn lemma_copy_region_content(words: Map<int, u32>, to: int, from: int, n: int, i: int)
    requires
        mapped_range(words, to, to + 4 * n),
        to % 4 == 0,
        from % 4 == 0,
        to <= from || from + 4 * n <= to,
        0 <= i < n,
    ensures
        copy_region(words, to, from, n)[to + 4 * i] == words[from + 4 * i],
    decreases n,
{
    let next = words.insert(to, words[from]);
    assert(words.dom().contains(to));
    assert(next.dom() =~= words.dom());
    assert forall|a: int| to + 4 <= a < to + 4 + 4 * (n - 1) && a % 4 == 0 implies 
        #[trigger] next.dom().contains(a) by {
        assert(words.dom().contains(a));
    }
    if i == 0 {
        lemma_copy_region_frame(next, to + 4, from + 4, n - 1);
    } else {
        lemma_copy_region_content(next, to + 4, from + 4, n - 1, i - 1);
    }
}

/// Copies `n` words from `from` to `to`, one by one in the order of their
/// addresses.  Succeeds if and only if both ranges are mapped.
pub fn memcpy_words<P: PageAlloc>(page_alloc: &mut P, to: usize, from: usize, n: Words<u32>) -> (r:
    Result<(), Trap>)
    requires
        old(page_alloc).wf(),
        to % 4 == 0,
        from % 4 == 0,
    ensures
        final(page_alloc).wf(),
        same_pages(old(page_alloc), final(page_alloc)),
        same_bitmaps(old(page_alloc), final(page_alloc)),
        final(page_alloc).words().dom() == old(page_alloc).words().dom(),
        r is Ok <==> mapped_range(old(page_alloc).words(), to as int, to + 4 * n.0)
            && mapped_range(old(page_alloc).words(), from as int, from + 4 * n.0),
        r is Ok ==> final(page_alloc).words() == copy_region(
            old(page_alloc).words(),
            to as int,
            from as int,
            n.0 as int,
        ),
        r is Err ==> r == Err::<(), Trap>(Trap::OutOfBounds),
{
    let mut src: usize = from;
    let mut dst: usize = to;
    let mut i: u32 = 0;
    while i < n.0
        invariant
            page_alloc.wf(),
            same_pages(old(page_alloc), page_alloc),
            same_bitmaps(old(page_alloc), page_alloc),
            page_alloc.words().dom() == old(page_alloc).words().dom(),
            i <= n.0,
            src == from + 4 * i,
            dst == to + 4 * i,
            src % 4 == 0,
            dst % 4 == 0,
            mapped_range(old(page_alloc).words(), to as int, to + 4 * i),
            mapped_range(old(page_alloc).words(), from as int, from + 4 * i),
            copy_region(old(page_alloc).words(), to as int, from as int, n.0 as int) == copy_region(
                page_alloc.words(),
                dst as int,
                src as int,
                n.0 - i,
            ),
        decreases n.0 - i,
    {
        if !page_alloc.contains(src) || !page_alloc.contains(dst) {
            proof {
                let w = old(page_alloc).words();
                if mapped_range(w, to as int, to + 4 * n.0) && mapped_range(
                    w,
                    from as int,
                    from + 4 * n.0,
                ) {
                    assert(w.dom().contains(src as int));
                    assert(w.dom().contains(dst as int));
                }
            }
            return Err(Trap::OutOfBounds);
        }
        proof {
            page_alloc.lemma_mapped(src as int);
            page_alloc.lemma_mapped(dst as int);
        }
        let w: u32 = page_alloc.read_word(src);
        page_alloc.write_word(dst, w);
        proof {
            assert(page_alloc.words().dom() =~= old(page_alloc).words().dom());
        }
        src = src + 4;
        dst = dst + 4;
        i = i + 1;
    }
    Ok(())
}

} // verus!
