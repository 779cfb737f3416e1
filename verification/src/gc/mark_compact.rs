//! Threaded compaction: the live objects of a space are marked in the
//! bitmaps of their pages and then slid towards the start of the space in
//! one pass, during which every pointer to an object is found through a
//! list that is threaded through the fields that point to it.
use vstd::prelude::*;
use crate::bitmap::{Bitmap, BITMAP_ITER_END};
use crate::constants::{WASM_HEAP_SIZE, WORD_SIZE};
use crate::gc::should_do_gc;
use crate::mem_utils::memcpy_words;
use crate::gc::mark_compact::mark_phase::{
    field_visit, lemma_mark_ready, lemma_roots_read, lemma_spot_read, lemma_state_begin,
    lemma_state_plain,
    lemma_state_end, lemma_state_mark, lemma_state_object, lemma_state_step, lemma_visited,
    mark_effect,
    mark_ready, marked_bit, marking_state, object_read, roots_read,
};
use crate::gc::mark_compact::mark_stack::MarkStack;
use crate::gc::mark_compact::slide_phase::{
    compact_start, compacted_heap, fresh_bitmaps, fwd_ready, lemma_bitmaps_freed,
    lemma_ready_marks,
    lemma_mark_finish, lemma_mark_start, lemma_compacted, lemma_fill_word, lemma_holding_page,
    lemma_move_frame, lemma_move_plan, lemma_move_ready, lemma_moved_state, lemma_no_marks, lemma_no_marks_gap,
    lemma_no_marks_top, lemma_page_bits, lemma_relocated, lemma_scan_advance, lemma_scan_bit,
    lemma_scan_gap, lemma_scan_kept, lemma_scan_moved, lemma_scan_to, lemma_switch_page, lemma_update_start, marks_of,
    move_plan, move_ready, moved_words, next_obj, no_room, page_scan, pages_ok, scan_state,
    slide_state, sorted_of, the_pos, the_state, update_ready,
};
use crate::gc::mark_compact::sliding::{
    after_move, fwd_done, fwd_mid, idle_kept, lemma_fwd_finish, lemma_fwd_step, lemma_moved_object,
    moved_read, Slide,
};
use crate::gc::copying::wellformed::{root_box, size0};
use crate::gc::mark_compact::marking::{
    reachable, points, spot_target, static_addr, static_count, Heap, Spot,
};
use crate::object::{
    lemma_fields_in_object, length_word, load, object_size_, pointer_fields, Trap,
};
use crate::page_alloc::{
    same_bitmaps, same_config, same_pages, PageAlloc, WordMemory, PAGE_HEADER_SIZE,
};
use crate::space::Space;
use crate::types::{
    is_object_tag, tag_is_object, Bytes, Tag, Value, Words, TAG_ARRAY, TAG_FREE_SPACE, TAG_MUTBOX,
    TAG_ONE_WORD_FILLER,
};

pub mod again;
pub mod mark_phase;
pub mod mark_stack;
pub mod marking;
pub mod slide_phase;
pub mod sliding;
pub mod threading;

verus! {

/// The largest number of links that a header chain can have: the number of
/// words of the address space.  A longer walk has come by a link twice.
pub const MAX_CHAIN: u32 = 0x4000_0000;

/// Whether the field at `field` can be threaded, and the trap with which
/// the attempt fails.
pub open spec fn thread_outcome(words: Map<int, u32>, field: int) -> Result<(), Trap> {
    if !words.dom().contains(field) {
        Err(Trap::OutOfBounds)
    } else if !Value(words[field]).spec_is_ptr() {
        Err(Trap::InvalidObject)
    } else if !words.dom().contains(Value(words[field]).spec_get_ptr()) {
        Err(Trap::OutOfBounds)
    } else {
        Ok(())
    }
}

/// The memory after the field at `field` was threaded: the field holds the
/// header word of the object that it pointed to, and the header of that
/// object holds the address of the field.
pub open spec fn threaded(words: Map<int, u32>, field: int) -> Map<int, u32> {
    let pointed = Value(words[field]).spec_get_ptr();
    words.insert(field, words[pointed]).insert(pointed, field as u32)
}

/// Threads a pointer field: stores the header of the object that the field
/// points to in the field, and the address of the field in that header.
pub fn thread<P: PageAlloc>(page_alloc: &mut P, field: usize) -> (r: Result<(), Trap>)
    requires
        old(page_alloc).wf(),
    ensures
        final(page_alloc).wf(),
        same_pages(old(page_alloc), final(page_alloc)),
        same_bitmaps(old(page_alloc), final(page_alloc)),
        final(page_alloc).words().dom() == old(page_alloc).words().dom(),
        r == thread_outcome(old(page_alloc).words(), field as int),
        final(page_alloc).words() == (if r is Ok {
            threaded(old(page_alloc).words(), field as int)
        } else {
            old(page_alloc).words()
        }),
{
    let raw: u32 = match load(page_alloc, field) {
        Ok(raw) => raw,
        Err(trap) => {
            return Err(trap);
        },
    };
    let value = Value::from_raw(raw);
    if !value.is_ptr() {
        return Err(Trap::InvalidObject);
    }
    let pointed: usize = value.get_ptr();
    let pointed_header: u32 = match load(page_alloc, pointed) {
        Ok(header) => header,
        Err(trap) => {
            return Err(trap);
        },
    };
    proof {
        page_alloc.lemma_mapped(field as int);
    }
    page_alloc.write_word(field, pointed_header);
    page_alloc.write_word(pointed, field as u32);
    proof {
        assert(page_alloc.words().dom() =~= old(page_alloc).words().dom());
    }
    Ok(())
}

/// The header word at the end of the chain that starts with `header`: the
/// first odd word on it.  An even word is the address of a field, which
/// holds the next word of the chain.
pub open spec fn chain_end(words: Map<int, u32>, header: u32, fuel: nat) -> Result<u32, Trap>
    decreases fuel,
{
    if header % 2 == 1 {
        Ok(header)
    } else if fuel == 0 {
        Err(Trap::InvalidObject)
    } else if !words.dom().contains(header as int) {
        Err(Trap::OutOfBounds)
    } else {
        chain_end(words, words[header as int], (fuel - 1) as nat)
    }
}

/// The outcome of writing `value` into every field on the chain that starts
/// with `header`, each after the next word of the chain was read from it:
/// the header word at the end of the chain, or a trap, and the memory that
/// the walk leaves.
pub open spec fn unthread_links(words: Map<int, u32>, header: u32, value: u32, fuel: nat) -> (
    Result<u32, Trap>,
    Map<int, u32>,
)
    decreases fuel,
{
    if header % 2 == 1 {
        (Ok(header), words)
    } else if fuel == 0 {
        (Err(Trap::InvalidObject), words)
    } else if !words.dom().contains(header as int) {
        (Err(Trap::OutOfBounds), words)
    } else {
        unthread_links(
            words.insert(header as int, value),
            words[header as int],
            value,
            (fuel - 1) as nat,
        )
    }
}

/// Whether the object at `obj` can be unthreaded, and the trap with which
/// the attempt fails.
pub open spec fn unthread_outcome(words: Map<int, u32>, obj: int, new_loc: int) -> Result<(), Trap> {
    if !words.dom().contains(obj) {
        Err(Trap::OutOfBounds)
    } else {
        match unthread_links(
            words,
            words[obj],
            Value::spec_from_ptr(new_loc).0,
            MAX_CHAIN as nat,
        ).0 {
            Ok(_) => Ok(()),
            Err(trap) => Err(trap),
        }
    }
}

/// The memory after the object at `obj` was unthreaded: every field on its
/// chain points to `new_loc`, and the object has its header back.
pub open spec fn unthreaded(words: Map<int, u32>, obj: int, new_loc: int) -> Map<int, u32> {
    let walk = unthread_links(words, words[obj], Value::spec_from_ptr(new_loc).0, MAX_CHAIN as nat);
    walk.1.insert(obj, walk.0->Ok_0)
}

/// Unthreads all references at the header of the object at `obj`, replacing
/// them with pointers to `new_loc`, and restores the header.
pub fn unthread<P: PageAlloc>(page_alloc: &mut P, obj: usize, new_loc: usize) -> (r: Result<
    (),
    Trap,
>)
    requires
        old(page_alloc).wf(),
        new_loc <= 0xffff_ffff,
    ensures
        final(page_alloc).wf(),
        same_pages(old(page_alloc), final(page_alloc)),
        same_bitmaps(old(page_alloc), final(page_alloc)),
        final(page_alloc).words().dom() == old(page_alloc).words().dom(),
        r == unthread_outcome(old(page_alloc).words(), obj as int, new_loc as int),
        r is Ok ==> final(page_alloc).words() == unthreaded(
            old(page_alloc).words(),
            obj as int,
            new_loc as int,
        ),
{
    let mut header: u32 = match load(page_alloc, obj) {
        Ok(header) => header,
        Err(trap) => {
            return Err(trap);
        },
    };
    let value: u32 = Value::from_ptr(new_loc).get_raw();
    let ghost first = header;
    let mut steps: u32 = 0;

    // All objects and fields are word-aligned, and tags have the lowest bit
    // set, so the lowest bit tells a header from a field address.
    while header % 2 == 0
        invariant
            page_alloc.wf(),
            same_pages(old(page_alloc), page_alloc),
            same_bitmaps(old(page_alloc), page_alloc),
            page_alloc.words().dom() == old(page_alloc).words().dom(),
            steps <= MAX_CHAIN,
            old(page_alloc).words().dom().contains(obj as int),
            first == old(page_alloc).words()[obj as int],
            value == Value::spec_from_ptr(new_loc as int).0,
            unthread_links(old(page_alloc).words(), first, value, MAX_CHAIN as nat)
                == unthread_links(page_alloc.words(), header, value, (MAX_CHAIN - steps) as nat),
        decreases MAX_CHAIN - steps,
    {
        if steps == MAX_CHAIN {
            proof {
                assert(unthread_links(page_alloc.words(), header, value, 0).0 == Err::<u32, Trap>(
                    Trap::InvalidObject,
                ));
            }
            return Err(Trap::InvalidObject);
        }
        let ghost fuel = (MAX_CHAIN - steps) as nat;
        let tmp: u32 = match load(page_alloc, header as usize) {
            Ok(next) => next,
            Err(trap) => {
                proof {
                    assert(unthread_links(page_alloc.words(), header, value, fuel).0 == Err::<
                        u32,
                        Trap,
                    >(Trap::OutOfBounds));
                }
                return Err(trap);
            },
        };
        proof {
            assert(unthread_links(page_alloc.words(), header, value, fuel) == unthread_links(
                page_alloc.words().insert(header as int, value),
                tmp,
                value,
                (fuel - 1) as nat,
            ));
        }
        page_alloc.write_word(header as usize, value);
        proof {
            assert(page_alloc.words().dom() =~= old(page_alloc).words().dom());
        }
        header = tmp;
        steps = steps + 1;
    }
    page_alloc.write_word(obj, header);
    proof {
        assert(page_alloc.words().dom() =~= old(page_alloc).words().dom());
    }
    Ok(())
}

/// The tag of the object at `obj`, whose header may be threaded: the word at
/// the end of its chain, which must be the tag of a live object.
pub open spec fn spec_get_tag(words: Map<int, u32>, obj: int) -> Result<Tag, Trap> {
    if !words.dom().contains(obj) {
        Err(Trap::OutOfBounds)
    } else {
        match chain_end(words, words[obj], MAX_CHAIN as nat) {
            Err(trap) => Err(trap),
            Ok(tag) => if is_object_tag(tag) {
                Ok(tag)
            } else {
                Err(Trap::InvalidTag)
            },
        }
    }
}

/// Follows the chain at the header of the object at `obj` and returns the
/// header word at its end.  Does not unthread.
pub fn get_tag<P: PageAlloc>(page_alloc: &P, obj: usize) -> (r: Result<Tag, Trap>)
    requires
        page_alloc.wf(),
    ensures
        r == spec_get_tag(page_alloc.words(), obj as int),
{
    let mut header: u32 = match load(page_alloc, obj) {
        Ok(header) => header,
        Err(trap) => {
            return Err(trap);
        },
    };
    let ghost first = header;
    let mut steps: u32 = 0;
    while header % 2 == 0
        invariant
            page_alloc.wf(),
            steps <= MAX_CHAIN,
            page_alloc.words().dom().contains(obj as int),
            first == page_alloc.words()[obj as int],
            chain_end(page_alloc.words(), first, MAX_CHAIN as nat) == chain_end(
                page_alloc.words(),
                header,
                (MAX_CHAIN - steps) as nat,
            ),
        decreases MAX_CHAIN - steps,
    {
        if steps == MAX_CHAIN {
            proof {
                assert(chain_end(page_alloc.words(), header, 0) == Err::<u32, Trap>(
                    Trap::InvalidObject,
                ));
            }
            return Err(Trap::InvalidObject);
        }
        let ghost fuel = (MAX_CHAIN - steps) as nat;
        let ghost link = header;
        header = match load(page_alloc, header as usize) {
            Ok(next) => next,
            Err(trap) => {
                proof {
                    assert(chain_end(page_alloc.words(), header, fuel) == Err::<u32, Trap>(
                        Trap::OutOfBounds,
                    ));
                }
                return Err(trap);
            },
        };
        proof {
            assert(chain_end(page_alloc.words(), link, fuel) == chain_end(
                page_alloc.words(),
                header,
                (fuel - 1) as nat,
            ));
        }
        steps = steps + 1;
    }
    // At the end of the chain is the original header for the object
    if tag_is_object(header) {
        Ok(header)
    } else {
        Err(Trap::InvalidTag)
    }
}

} // verus!

verus! {

/// Index of the bit that stands for the word at `a` in the bitmap of its
/// page.
pub open spec fn bit_index<P: PageAlloc>(page_alloc: &P, a: int) -> int {
    (a - page_alloc.page_containing(a) - PAGE_HEADER_SIZE) / 4
}

/// Whether the word at `a` can still be marked: it lies in the contents area
/// of a page with a bitmap, and its bit is clear.
pub open spec fn unmarked<P: PageAlloc>(page_alloc: &P, a: int) -> bool {
    &&& 0 <= a < 0x1_0000_0000
    &&& page_alloc.words().dom().contains(a)
    &&& !page_alloc.is_static(a)
    &&& a >= page_alloc.page_containing(a) + PAGE_HEADER_SIZE
    &&& match page_alloc.bitmap(page_alloc.page_containing(a)) {
        Some(b) => bit_index(page_alloc, a) < b@.len() && !b@[bit_index(page_alloc, a)],
        None => false,
    }
}

/// The words that can still be marked.  Marking ends because this set
/// shrinks with every object that is marked.
pub open spec fn unmarked_set<P: PageAlloc>(page_alloc: &P) -> Set<int> {
    Set::new(|a: int| unmarked(page_alloc, a))
}

pub proof fn lemma_unmarked_finite<P: PageAlloc>(page_alloc: &P)
    ensures
        unmarked_set(page_alloc).finite(),
{
    vstd::set_lib::lemma_int_range(0, 0x1_0000_0000);
    vstd::set_lib::lemma_len_subset(
        unmarked_set(page_alloc),
        vstd::set_lib::set_int_range(0, 0x1_0000_0000),
    );
}

/// A mapped address lies in the page that held it before, where that page
/// is still live.
pub proof fn lemma_page_containing_stable<P: PageAlloc>(before: &P, after: &P, a: int)
    requires
        before.wf(),
        after.wf(),
        same_config(before, after),
        before.words().dom().contains(a),
        !before.is_static(a),
        after.live().contains(before.page_containing(a)),
    ensures
        after.words().dom().contains(a),
        after.page_containing(a) == before.page_containing(a),
{
    before.lemma_mapped_in_page(a);
    before.lemma_mapped(a);
    after.lemma_page_mapped(before.page_containing(a), a);
}

/// A change of words of memory leaves the set of unmarked words as it is.
pub proof fn lemma_unmarked_after_write<P: PageAlloc>(before: &P, after: &P)
    requires
        before.wf(),
        after.wf(),
        same_pages(before, after),
        same_bitmaps(before, after),
        after.words().dom() == before.words().dom(),
    ensures
        unmarked_set(after) == unmarked_set(before),
{
    assert forall|a: int| unmarked(before, a) == unmarked(after, a) by {
        if before.words().dom().contains(a) && !before.is_static(a) {
            before.lemma_mapped_in_page(a);
            lemma_page_containing_stable(before, after, a);
        }
    }
    assert(unmarked_set(after) =~= unmarked_set(before));
}

/// A step of the mark stack leaves the set of unmarked words as it is: the
/// chunks of the stack have no bitmaps.
#[verifier::rlimit(50)]
pub proof fn lemma_unmarked_after_stack_step<P: PageAlloc>(
    stack_before: &MarkStack<P>,
    before: &P,
    stack_after: &MarkStack<P>,
    after: &P,
)
    requires
        stack_before.wf(before),
        stack_after.wf(after),
        stack_after.stepped_from(after, stack_before, before),
    ensures
        unmarked_set(after) == unmarked_set(before),
{
    let ps = before.page_size();
    assert forall|a: int| unmarked(before, a) == unmarked(after, a) by {
        if unmarked(before, a) {
            let s = before.page_containing(a);
            before.lemma_mapped_in_page(a);
            before.lemma_live_page(s);
            before.lemma_page_mapped(s, s);
            stack_before.lemma_not_owned(before, a);
            stack_before.lemma_not_owned(before, s);
            assert(after.live().contains(s));
            lemma_page_containing_stable(before, after, a);
        }
        if unmarked(after, a) {
            let s = after.page_containing(a);
            after.lemma_mapped_in_page(a);
            stack_after.lemma_not_owned(after, a);
            assert(before.words().dom().contains(a));
            assert(!stack_before.owns_addr(ps, a));
            let t = before.page_containing(a);
            before.lemma_mapped_in_page(a);
            before.lemma_mapped(a);
            before.lemma_live_page(t);
            before.lemma_page_mapped(t, t);
            if stack_before.owns_addr(ps, t) {
                let k = choose|k: int| #[trigger] stack_before.in_chunk(ps, k, t);
                stack_before.lemma_chunk_mapped(before, k, t);
                assert(stack_before.in_chunk(ps, k, a));
            }
            assert(after.live().contains(t));
            lemma_page_containing_stable(before, after, a);
        }
    }
    assert(unmarked_set(after) =~= unmarked_set(before));
}

/// Setting a clear bit takes the word that it stands for out of the set of
/// unmarked words, and nothing else.
pub proof fn lemma_unmarked_after_mark<P: PageAlloc>(
    before: &P,
    after: &P,
    s: int,
    i: int,
    b: Bitmap,
    b2: Bitmap,
)
    requires
        before.wf(),
        after.wf(),
        same_pages(before, after),
        after.words() == before.words(),
        before.live().contains(s),
        before.bitmap(s) == Some(b),
        after.bitmap(s) == Some(b2),
        0 <= i < b@.len(),
        !b@[i],
        b2@ == b@.update(i, true),
        s + PAGE_HEADER_SIZE + 4 * i < s + before.page_size(),
        forall|t: int| t != s ==> #[trigger] after.bitmap(t) == before.bitmap(t),
    ensures
        unmarked_set(before).contains(s + PAGE_HEADER_SIZE + 4 * i),
        unmarked_set(after) == unmarked_set(before).remove(s + PAGE_HEADER_SIZE + 4 * i),
{
    let m = s + PAGE_HEADER_SIZE + 4 * i;
    before.lemma_live_page(s);
    before.lemma_page_mapped(s, m);
    assert(unmarked(before, m));
    assert forall|a: int| unmarked(after, a) == (unmarked(before, a) && a != m) by {
        if before.words().dom().contains(a) && !before.is_static(a) {
            before.lemma_mapped(a);
            before.lemma_mapped_in_page(a);
            lemma_page_containing_stable(before, after, a);
        }
    }
    assert(unmarked_set(after) =~= unmarked_set(before).remove(m));
}

/// What holds between the steps of the mark phase: the space and the stack
/// are well formed, and no page of the space is a chunk of the stack.
pub open spec fn mark_inv<P: PageAlloc>(space: &Space<P>, stack: &MarkStack<P>) -> bool {
    &&& space.wf()
    &&& stack.wf(&space.page_alloc)
    &&& forall|i: int|
        0 <= i < space.pages@.len() ==> !stack.owns_addr(
            space.page_alloc.page_size(),
            P::start_of(#[trigger] space.pages@[i]),
        )
}

/// What a step of the mark phase keeps and how far it gets: the space keeps
/// its pages and its allocation pointer, and either nothing was marked and the
/// stack is as long as it was, or the set of unmarked words has shrunk.
pub open spec fn mark_step<P: PageAlloc>(
    space_before: &Space<P>,
    stack_before: &MarkStack<P>,
    space: &Space<P>,
    stack: &MarkStack<P>,
) -> bool {
    &&& mark_inv(space, stack)
    &&& space.pages == space_before.pages
    &&& space.current_page == space_before.current_page
    &&& space.hp == space_before.hp
    &&& space.total_alloc == space_before.total_alloc
    &&& same_config(&space_before.page_alloc, &space.page_alloc)
    &&& unmarked_set(&space.page_alloc).len() <= unmarked_set(&space_before.page_alloc).len()
    &&& unmarked_set(&space.page_alloc).len() == unmarked_set(&space_before.page_alloc).len()
        ==> stack@.len() == stack_before@.len()
    &&& chunks_only(&space_before.page_alloc, stack_before, &space.page_alloc, stack)
}

/// The pages that came to the allocator are chunks of the stack, and what
/// was a chunk is one still unless it went back to the allocator.
pub open spec fn chunks_only<P: PageAlloc>(
    before: &P,
    stack_before: &MarkStack<P>,
    after: &P,
    stack: &MarkStack<P>,
) -> bool {
    &&& forall|s: int| #[trigger]
        after.live().contains(s) ==> before.live().contains(s) || stack.is_chunk(s)
    &&& forall|s: int|
        stack_before.is_chunk(s) && #[trigger] after.live().contains(s) ==> stack.is_chunk(s)
}

/// The invariant of the mark phase holds again after a change that left the
/// pages and the chunks of the stack alone: a change of words outside the
/// chunks, or of the bitmap of the page at `s`, which is no chunk.
pub proof fn lemma_mark_inv_frame<P: PageAlloc>(
    space_before: &Space<P>,
    space: &Space<P>,
    stack: &MarkStack<P>,
    s: int,
)
    requires
        mark_inv(space_before, stack),
        space.page_alloc.wf(),
        space.pages == space_before.pages,
        space.current_page == space_before.current_page,
        space.hp == space_before.hp,
        same_pages(&space_before.page_alloc, &space.page_alloc),
        !stack.owns_addr(space_before.page_alloc.page_size(), s),
        forall|t: int|
            t != s ==> #[trigger] space.page_alloc.bitmap(t) == space_before.page_alloc.bitmap(t),
        forall|a: int|
            stack.owns_addr(space_before.page_alloc.page_size(), a)
                && space_before.page_alloc.words().dom().contains(a)
                ==> #[trigger] space.page_alloc.words()[a] == space_before.page_alloc.words()[a],
    ensures
        mark_inv(space, stack),
{
    let ps = space_before.page_alloc.page_size();
    assert forall|k: int| 0 <= k < stack.chunks@.len() implies space.page_alloc.is_live(
        #[trigger] stack.chunks@[k],
    ) && space.page_alloc.bitmap(P::start_of(stack.chunks@[k])) is None by {
        assert(stack.chunk_ok(&space_before.page_alloc, k));
        space_before.page_alloc.lemma_page_size();
        assert(stack.in_chunk(ps, k, stack.start(k)));
    }
    stack.lemma_frame(&space_before.page_alloc, &space.page_alloc);
}

/// The invariant of the mark phase holds again after a step of the stack.
pub proof fn lemma_mark_inv_stack_step<P: PageAlloc>(
    space_before: &Space<P>,
    stack_before: &MarkStack<P>,
    space: &Space<P>,
    stack: &MarkStack<P>,
)
    requires
        mark_inv(space_before, stack_before),
        stack.wf(&space.page_alloc),
        stack.stepped_from(&space.page_alloc, stack_before, &space_before.page_alloc),
        space.pages == space_before.pages,
        space.current_page == space_before.current_page,
        space.hp == space_before.hp,
    ensures
        mark_inv(space, stack),
{
    let ps = space_before.page_alloc.page_size();
    assert forall|i: int| 0 <= i < space.pages@.len() implies space.page_alloc.is_live(
        #[trigger] space.pages@[i],
    ) && !stack.owns_addr(ps, P::start_of(space.pages@[i])) by {
        let p = space.pages@[i];
        assert(space_before.page_alloc.is_live(p));
        assert(!stack_before.owns_addr(ps, P::start_of(p)));
        space_before.page_alloc.lemma_live_handle(p);
        space_before.page_alloc.lemma_live_page(P::start_of(p));
        space_before.page_alloc.lemma_page_mapped(P::start_of(p), P::start_of(p));
    }
}

/// Marks the object that `obj` points to, which lies in a page with a
/// bitmap: where its bit is clear, sets the bit and pushes the object with
/// its tag.
///
/// In the mark phase of a well-formed heap, marking an object of the heap
/// succeeds and leaves the object marked.
pub fn mark_object<P: PageAlloc>(space: &mut Space<P>, stack: &mut MarkStack<P>, obj: Value) -> (r:
    Result<(), Trap>)
    requires
        mark_inv(old(space), old(stack)),
    ensures
        mark_step(old(space), old(stack), final(space), final(stack)),
        forall|a: int|
            old(space).page_alloc.words().dom().contains(a) && !old(stack).owns_addr(
                old(space).page_alloc.page_size(),
                a,
            ) ==> #[trigger] final(space).page_alloc.words().dom().contains(a) && final(space).page_alloc.words()[a] == old(space).page_alloc.words()[a],
        forall|a: int|
            final(stack).owns_addr(old(space).page_alloc.page_size(), a) ==> old(stack).owns_addr(
                old(space).page_alloc.page_size(),
                a,
            ) || !#[trigger] old(space).page_alloc.words().dom().contains(a),
        r is Ok ==> {
            let ptr = obj.spec_get_ptr();
            &&& old(space).page_alloc.words().dom().contains(ptr)
            &&& !old(space).page_alloc.is_static(ptr)
            &&& !old(stack).owns_addr(old(space).page_alloc.page_size(), ptr)
        },
        mark_ready(old(space), old(stack), obj.spec_get_ptr()) ==> r is Ok,
        r is Ok ==> mark_effect(
            old(space),
            old(stack),
            final(space),
            final(stack),
            obj.spec_get_ptr(),
        ),
        forall|h: Heap, cur: Option<(int, int)>, nd: int|
            #![trigger marking_state(h, old(space), old(stack), cur, nd)]
            marking_state(h, old(space), old(stack), cur, nd) && h.objs.contains(
                obj.spec_get_ptr(),
            ) && reachable(h, obj.spec_get_ptr()) ==> r is Ok && marking_state(h, final(space), final(stack), cur, nd) && marked_bit(
                &final(space).page_alloc,
                obj.spec_get_ptr(),
            ),
{
    let r = mark_object_step(space, stack, obj);
    proof {
        assert forall|h: Heap, cur: Option<(int, int)>, nd: int|
            #![trigger marking_state(h, old(space), old(stack), cur, nd)]
            marking_state(h, old(space), old(stack), cur, nd) && h.objs.contains(
                obj.spec_get_ptr(),
            ) && reachable(h, obj.spec_get_ptr()) implies r is Ok && marking_state(h, space, stack, cur, nd) && marked_bit(
            &space.page_alloc,
            obj.spec_get_ptr(),
        ) by {
            lemma_mark_ready(h, old(space), old(stack), cur, nd, obj.spec_get_ptr());
            lemma_state_mark(
                h,
                old(space),
                old(stack),
                space,
                stack,
                cur,
                nd,
                obj.spec_get_ptr(),
            );
        }
    }
    r
}

/// Marks the object that `obj` points to.
#[verifier::rlimit(100)]
fn mark_object_step<P: PageAlloc>(space: &mut Space<P>, stack: &mut MarkStack<P>, obj: Value) -> (r:
    Result<(), Trap>)
    requires
        mark_inv(old(space), old(stack)),
    ensures
        mark_step(old(space), old(stack), final(space), final(stack)),
        forall|a: int|
            old(space).page_alloc.words().dom().contains(a) && !old(stack).owns_addr(
                old(space).page_alloc.page_size(),
                a,
            ) ==> #[trigger] final(space).page_alloc.words().dom().contains(a) && final(space).page_alloc.words()[a] == old(space).page_alloc.words()[a],
        forall|a: int|
            final(stack).owns_addr(old(space).page_alloc.page_size(), a) ==> old(stack).owns_addr(
                old(space).page_alloc.page_size(),
                a,
            ) || !#[trigger] old(space).page_alloc.words().dom().contains(a),
        r is Ok ==> {
            let ptr = obj.spec_get_ptr();
            &&& old(space).page_alloc.words().dom().contains(ptr)
            &&& !old(space).page_alloc.is_static(ptr)
            &&& !old(stack).owns_addr(old(space).page_alloc.page_size(), ptr)
        },
        mark_ready(old(space), old(stack), obj.spec_get_ptr()) ==> r is Ok,
        r is Ok ==> mark_effect(
            old(space),
            old(stack),
            final(space),
            final(stack),
            obj.spec_get_ptr(),
        ),
{
    let ghost ps = space.page_alloc.page_size();
    let ptr: usize = obj.get_ptr();
    let obj_tag: u32 = match load(&space.page_alloc, ptr) {
        Ok(tag) => tag,
        Err(trap) => {
            return Err(trap);
        },
    };
    if space.page_alloc.in_static_heap(ptr) {
        return Err(Trap::InvalidObject);
    }
    let obj_page: usize = space.page_alloc.get_address_page_start(ptr);
    proof {
        space.page_alloc.lemma_mapped(ptr as int);
        space.page_alloc.lemma_mapped_in_page(ptr as int);
        space.page_alloc.lemma_live_page(obj_page as int);
        space.page_alloc.lemma_page_size();
    }
    if ptr - obj_page < PAGE_HEADER_SIZE {
        return Err(Trap::InvalidObject);
    }
    let obj_bit_idx: u32 = ((ptr - obj_page - PAGE_HEADER_SIZE) / 4) as u32;

    let mut obj_bitmap = match space.page_alloc.take_bitmap(obj_page) {
        Some(bitmap) => bitmap,
        None => {
            proof {
                assert(same_bitmaps(&old(space).page_alloc, &space.page_alloc));
                lemma_no_chunk_at_zero(old(space), old(stack));
                lemma_mark_inv_frame(old(space), space, old(stack), 0);
                lemma_unmarked_after_write(&old(space).page_alloc, &space.page_alloc);
            }
            return Err(Trap::InvalidObject);
        },
    };
    let ghost given = obj_bitmap;
    proof {
        old(space).page_alloc.lemma_page_mapped(obj_page as int, obj_page as int);
        stack.lemma_not_owned(&old(space).page_alloc, ptr as int);
        stack.lemma_not_owned(&old(space).page_alloc, obj_page as int);
    }
    if obj_bit_idx >= obj_bitmap.len() || obj_bitmap.get(obj_bit_idx) {
        // Out of range, or already marked
        let in_range: bool = obj_bit_idx < obj_bitmap.len();
        space.page_alloc.set_bitmap(obj_page, Some(obj_bitmap));
        proof {
            lemma_mark_inv_frame(old(space), space, old(stack), obj_page as int);
            assert(same_bitmaps(&old(space).page_alloc, &space.page_alloc));
            lemma_unmarked_after_write(&old(space).page_alloc, &space.page_alloc);
        }
        if in_range {
            return Ok(());
        } else {
            return Err(Trap::InvalidObject);
        }
    }
    obj_bitmap.set(obj_bit_idx);
    let ghost marked = obj_bitmap;
    space.page_alloc.set_bitmap(obj_page, Some(obj_bitmap));
    let ghost with_mark = *space;
    proof {
        lemma_mark_inv_frame(old(space), space, old(stack), obj_page as int);
        lemma_unmarked_after_mark(
            &old(space).page_alloc,
            &space.page_alloc,
            obj_page as int,
            obj_bit_idx as int,
            given,
            marked,
        );
        lemma_unmarked_finite(&old(space).page_alloc);
    }
    if !stack.can_push(&space.page_alloc) {
        return Err(Trap::OutOfMemory);
    }
    stack.push(&mut space.page_alloc, ptr, obj_tag);
    proof {
        lemma_mark_inv_stack_step(&with_mark, old(stack), space, stack);
        lemma_unmarked_after_stack_step(old(stack), &with_mark.page_alloc, stack, &space.page_alloc);
        assert(with_mark.page_alloc.live().contains(obj_page as int));
        assert(space.page_alloc.bitmap(obj_page as int) == with_mark.page_alloc.bitmap(
            obj_page as int,
        ));
        assert(bit_index(&old(space).page_alloc, ptr as int) == obj_bit_idx);
        assert forall|i: int|
            0 <= i < old(space).pages@.len() && old(space).start(i)
                != obj_page implies space.page_alloc.bitmap(#[trigger] old(space).start(i)) == old(
            space,
        ).page_alloc.bitmap(old(space).start(i)) by {
            old(space).page_alloc.lemma_live_handle(old(space).pages@[i]);
            assert(with_mark.page_alloc.live().contains(old(space).start(i)));
            assert(!old(stack).owns_addr(ps, P::start_of(old(space).pages@[i])));
        }
    }
    Ok(())
}

/// No chunk of the stack holds address zero.
proof fn lemma_no_chunk_at_zero<P: PageAlloc>(space: &Space<P>, stack: &MarkStack<P>)
    requires
        mark_inv(space, stack),
    ensures
        !stack.owns_addr(space.page_alloc.page_size(), 0),
{
    let ps = space.page_alloc.page_size();
    if stack.owns_addr(ps, 0) {
        let k = choose|k: int| #[trigger] stack.in_chunk(ps, k, 0);
        stack.lemma_chunk_mapped(&space.page_alloc, k, 0);
    }
}

/// Steps of the mark phase compose.
pub proof fn lemma_mark_step_trans<P: PageAlloc>(
    s0: &Space<P>,
    k0: &MarkStack<P>,
    s1: &Space<P>,
    k1: &MarkStack<P>,
    s2: &Space<P>,
    k2: &MarkStack<P>,
)
    requires
        mark_step(s0, k0, s1, k1),
        mark_step(s1, k1, s2, k2),
    ensures
        mark_step(s0, k0, s2, k2),
{
}

/// Nothing is a step of the mark phase, too.
pub proof fn lemma_mark_step_refl<P: PageAlloc>(space: &Space<P>, stack: &MarkStack<P>)
    requires
        mark_inv(space, stack),
    ensures
        mark_step(space, stack, space, stack),
{
}

/// Threads the field at `field` during the mark phase.  Neither the field
/// nor the object that it points to lies in a chunk of the stack.
fn thread_marked<P: PageAlloc>(space: &mut Space<P>, stack: &MarkStack<P>, field: usize) -> (r:
    Result<(), Trap>)
    requires
        mark_inv(old(space), stack),
        !stack.owns_addr(old(space).page_alloc.page_size(), field as int),
        old(space).page_alloc.words().dom().contains(field as int) ==> !stack.owns_addr(
            old(space).page_alloc.page_size(),
            Value(old(space).page_alloc.words()[field as int]).spec_get_ptr(),
        ),
    ensures
        mark_step(old(space), stack, final(space), stack),
        same_pages(&old(space).page_alloc, &final(space).page_alloc),
        same_bitmaps(&old(space).page_alloc, &final(space).page_alloc),
        final(space).page_alloc.words().dom() == old(space).page_alloc.words().dom(),
        r == thread_outcome(old(space).page_alloc.words(), field as int),
        final(space).page_alloc.words() == (if r is Ok {
            threaded(old(space).page_alloc.words(), field as int)
        } else {
            old(space).page_alloc.words()
        }),
{
    let r = thread(&mut space.page_alloc, field);
    proof {
        lemma_no_chunk_at_zero(old(space), stack);
        assert(same_bitmaps(&old(space).page_alloc, &space.page_alloc));
        lemma_mark_inv_frame(old(space), space, stack, 0);
        lemma_unmarked_after_write(&old(space).page_alloc, &space.page_alloc);
    }
    r
}

/// The words of the object of `size` words at `obj` are mapped and lie in
/// no chunk of the stack.
pub open spec fn object_free<P: PageAlloc>(
    page_alloc: &P,
    stack: &MarkStack<P>,
    obj: int,
    size: int,
) -> bool {
    forall|a: int|
        obj <= a < obj + 4 * size && a % 4 == 0 ==> #[trigger] page_alloc.words().dom().contains(a)
            && !stack.owns_addr(page_alloc.page_size(), a)
}

/// The words of an object stay mapped and outside of the chunks of the
/// stack when the words outside of the chunks stay mapped and every new
/// chunk is a page that was not mapped.
proof fn lemma_object_free_kept<P: PageAlloc>(
    before: &P,
    stack_before: &MarkStack<P>,
    after: &P,
    stack: &MarkStack<P>,
    obj: int,
    size: int,
)
    requires
        object_free(before, stack_before, obj, size),
        after.page_size() == before.page_size(),
        forall|a: int|
            before.words().dom().contains(a) && !stack_before.owns_addr(before.page_size(), a)
                ==> #[trigger] after.words().dom().contains(a),
        forall|a: int|
            stack.owns_addr(before.page_size(), a) ==> stack_before.owns_addr(
                before.page_size(),
                a,
            ) || !#[trigger] before.words().dom().contains(a),
    ensures
        object_free(after, stack, obj, size),
{
    assert forall|a: int| obj <= a < obj + 4 * size && a % 4 == 0 implies #[trigger] after.words().dom().contains(
        a,
    ) && !stack.owns_addr(after.page_size(), a) by {
        assert(before.words().dom().contains(a));
    }
}

/// Marks what the pointer fields of the object at `obj` point to, and
/// threads the fields that point backwards or to the object itself.  The
/// object lies in a page with a bitmap and has the tag `obj_tag`; its header
/// may be threaded.
///
/// In the mark phase of a well-formed heap, the visit of the fields of an
/// object that was popped succeeds, and leaves every object that a field
/// points to marked and every field that points backwards threaded.
#[verifier::rlimit(100)]
pub fn mark_fields<P: PageAlloc>(
    space: &mut Space<P>,
    stack: &mut MarkStack<P>,
    obj: usize,
    obj_tag: Tag,
) -> (r: Result<(), Trap>)
    requires
        mark_inv(old(space), old(stack)),
    ensures
        mark_step(old(space), old(stack), final(space), final(stack)),
        forall|h: Heap, nd: int|
            #![trigger marking_state(h, old(space), old(stack), Some((obj as int, 0int)), nd)]
            marking_state(h, old(space), old(stack), Some((obj as int, 0int)), nd) && obj_tag
                == h.w0[obj as int] ==> r is Ok && marking_state(
                h,
                final(space),
                final(stack),
                None,
                nd,
            ),
{
    let ghost ps = space.page_alloc.page_size();
    proof {
        lemma_mark_step_refl(space, stack);
        space.page_alloc.lemma_page_size();
        assert forall|h: Heap, nd: int|
            #![trigger marking_state(h, old(space), old(stack), Some((obj as int, 0int)), nd)]
            marking_state(
                h,
                old(space),
                old(stack),
                Some((obj as int, 0int)),
                nd,
            ) implies object_read(h, old(space), obj as int) by {
            lemma_state_object(h, old(space), old(stack), obj as int, 0, nd);
        }
    }
    if !space.page_alloc.contains(obj) {
        return Err(Trap::OutOfBounds);
    }
    if space.page_alloc.in_static_heap(obj) {
        return Err(Trap::InvalidObject);
    }
    let obj_page: usize = space.page_alloc.get_address_page_start(obj);
    proof {
        space.page_alloc.lemma_mapped(obj as int);
        space.page_alloc.lemma_mapped_in_page(obj as int);
        space.page_alloc.lemma_live_page(obj_page as int);
    }
    match space.page_alloc.get_bitmap(obj_page) {
        Some(_) => {},
        None => {
            return Err(Trap::InvalidObject);
        },
    }
    let size: Words<u32> = match object_size_(&space.page_alloc, obj, obj_tag) {
        Ok(size) => size,
        Err(trap) => {
            return Err(trap);
        },
    };
    let (first, n_fields) = match pointer_fields(&space.page_alloc, obj, obj_tag) {
        Ok(fields) => fields,
        Err(trap) => {
            return Err(trap);
        },
    };
    let page_size: usize = space.page_alloc.page_size_bytes();
    if size.0 as usize > (obj_page + page_size - obj) / 4 {
        return Err(Trap::InvalidObject);
    }
    proof {
        lemma_fields_in_object(obj_tag, length_word(space.page_alloc.words(), obj as int, obj_tag));
        assert forall|a: int| obj <= a < obj + 4 * size.0 && a % 4 == 0 implies 
            #[trigger] space.page_alloc.words().dom().contains(a) && !stack.owns_addr(ps, a) by {
            space.page_alloc.lemma_page_mapped(obj_page as int, a);
            stack.lemma_not_owned(&space.page_alloc, a);
        }
        assert(object_free(&space.page_alloc, stack, obj as int, size.0 as int));
    }
    let mut field_addr: usize = first;
    let mut i: u32 = 0;
    while i < n_fields
        invariant
            mark_step(old(space), old(stack), space, stack),
            ps == old(space).page_alloc.page_size(),
            i <= n_fields,
            field_addr == first + 4 * i,
            first % 4 == 0,
            n_fields > 0 ==> obj < first && first + 4 * n_fields <= obj + 4 * size.0,
            obj + 4 * size.0 <= 0xffff_ffff,
            object_free(&space.page_alloc, stack, obj as int, size.0 as int),
            forall|h: Heap, nd: int|
                #![trigger marking_state(h, old(space), old(stack), Some((obj as int, 0int)), nd)]
                marking_state(h, old(space), old(stack), Some((obj as int, 0int)), nd) && obj_tag
                    == h.w0[obj as int] ==> marking_state(
                    h,
                    space,
                    stack,
                    Some((obj as int, i as int)),
                    nd,
                ) && first == obj + 4 * marking::first(h, obj as int) && n_fields
                    == marking::count(h, obj as int),
        decreases n_fields - i,
    {
        assert(space.page_alloc.words().dom().contains(field_addr as int));
        let ghost s = Spot::Field(obj as int, (field_addr - obj) / 4);
        let ghost before = *space;
        let ghost stack_before = *stack;
        let ghost mut did_mark = false;
        let ghost mut did_thread = false;
        let ghost mut marked_space = *space;
        proof {
            assert forall|h: Heap, nd: int|
                #![trigger marking_state(h, old(space), old(stack), Some((obj as int, 0int)), nd)]
                marking_state(h, old(space), old(stack), Some((obj as int, 0int)), nd) && obj_tag
                    == h.w0[obj as int] implies field_visit(
                h,
                &before,
                &stack_before,
                Some((obj as int, i as int)),
                nd,
                s,
                field_addr as int,
            ) by {
                lemma_state_object(h, &before, &stack_before, obj as int, i as int, nd);
                lemma_spot_read(h, &before, &stack_before, Some((obj as int, i as int)), nd, s);
            }
        }
        let field_value = Value::from_raw(space.page_alloc.read_word(field_addr));
        if field_value.is_ptr() && !space.page_alloc.in_static_heap(field_value.get_ptr()) {
            let marked = mark_object(space, stack, field_value);
            proof {
                lemma_mark_step_trans(old(space), old(stack), &before, &stack_before, space, stack);
                lemma_object_free_kept(
                    &before.page_alloc,
                    &stack_before,
                    &space.page_alloc,
                    stack,
                    obj as int,
                    size.0 as int,
                );
                did_mark = true;
                marked_space = *space;
                assert forall|h: Heap, nd: int|
                    #![trigger marking_state(h, old(space), old(stack), Some((obj as int, 0int)), nd)]
                    marking_state(h, old(space), old(stack), Some((obj as int, 0int)), nd)
                        && obj_tag == h.w0[obj as int] implies marked is Ok && marking_state(
                    h,
                    &marked_space,
                    stack,
                    Some((obj as int, i as int)),
                    nd,
                ) && marked_bit(&marked_space.page_alloc, spot_target(h, s)) by {
                    assert(field_visit(
                        h,
                        &before,
                        &stack_before,
                        Some((obj as int, i as int)),
                        nd,
                        s,
                        field_addr as int,
                    ));
                    assert(points(h, s));
                }
            }
            match marked {
                Ok(()) => {},
                Err(trap) => {
                    return Err(trap);
                },
            }

            // Thread if backwards or self pointer
            if field_value.get_ptr() <= obj {
                proof {
                    let target = field_value.spec_get_ptr();
                    assert(before.page_alloc.words().dom().contains(field_addr as int));
                    assert(!stack_before.owns_addr(ps, field_addr as int));
                    assert(space.page_alloc.words().dom().contains(field_addr as int));
                    assert(space.page_alloc.words()[field_addr as int]
                        == before.page_alloc.words()[field_addr as int]);
                    assert(before.page_alloc.words().dom().contains(target));
                    assert(!stack.owns_addr(ps, target));
                }
                let threading = thread_marked(space, stack, field_addr);
                proof {
                    lemma_mark_step_trans(
                        old(space),
                        old(stack),
                        &marked_space,
                        stack,
                        space,
                        stack,
                    );
                    lemma_object_free_kept(
                        &marked_space.page_alloc,
                        stack,
                        &space.page_alloc,
                        stack,
                        obj as int,
                        size.0 as int,
                    );
                    did_thread = true;
                }
                match threading {
                    Ok(()) => {},
                    Err(trap) => {
                        return Err(trap);
                    },
                }
            }
        }
        proof {
            assert forall|h: Heap, nd: int|
                #![trigger marking_state(h, old(space), old(stack), Some((obj as int, 0int)), nd)]
                marking_state(h, old(space), old(stack), Some((obj as int, 0int)), nd) && obj_tag
                    == h.w0[obj as int] implies marking_state(
                h,
                space,
                stack,
                Some((obj as int, i + 1)),
                nd,
            ) by {
                assert(field_visit(
                    h,
                    &before,
                    &stack_before,
                    Some((obj as int, i as int)),
                    nd,
                    s,
                    field_addr as int,
                ));
                lemma_visited(
                    h,
                    &before,
                    &stack_before,
                    &marked_space,
                    stack,
                    space,
                    Some((obj as int, i as int)),
                    nd,
                    s,
                    did_mark,
                    did_thread,
                );
            }
        }
        field_addr = field_addr + 4;
        i = i + 1;
    }
    proof {
        assert forall|h: Heap, nd: int|
            #![trigger marking_state(h, old(space), old(stack), Some((obj as int, 0int)), nd)]
            marking_state(h, old(space), old(stack), Some((obj as int, 0int)), nd) && obj_tag
                == h.w0[obj as int] implies marking_state(h, space, stack, None, nd) by {
            lemma_state_end(h, space, stack, obj as int, nd);
        }
    }
    Ok(())
}

/// Marks what the field of the static root at `mutbox` points to, and
/// threads the field.
///
/// In the mark phase of a well-formed heap this succeeds for the root box
/// that is visited next.
pub fn mark_root_mutbox_fields<P: PageAlloc>(
    space: &mut Space<P>,
    stack: &mut MarkStack<P>,
    mutbox: usize,
) -> (r: Result<(), Trap>)
    requires
        mark_inv(old(space), old(stack)),
    ensures
        mark_step(old(space), old(stack), final(space), final(stack)),
        forall|h: Heap, nd: int|
            #![trigger marking_state(h, old(space), old(stack), None, nd)]
            marking_state(h, old(space), old(stack), None, nd) && 0 <= nd < h.w0[h.roots + 4]
                && mutbox == root_box(h.w0, h.roots, nd) ==> r is Ok && marking_state(
                h,
                final(space),
                final(stack),
                None,
                nd + 1,
            ),
{
    proof {
        lemma_mark_step_refl(space, stack);
        assert forall|h: Heap, nd: int|
            #![trigger marking_state(h, old(space), old(stack), None, nd)]
            marking_state(h, old(space), old(stack), None, nd) implies roots_read(
            h,
            old(space),
            nd,
        ) by {
            lemma_roots_read(h, old(space), old(stack), None, nd, nd);
        }
    }
    if mutbox > 0xffff_ffff - 4 {
        return Err(Trap::OutOfBounds);
    }
    mark_root_field(space, stack, mutbox + 4)
}

/// Marks what the word at the static address `field_addr` points to, where
/// it points into the dynamic heap, and threads the word: static memory does
/// not move, so the thread can be walked later.
#[verifier::rlimit(100)]
fn mark_root_field<P: PageAlloc>(
    space: &mut Space<P>,
    stack: &mut MarkStack<P>,
    field_addr: usize,
) -> (r: Result<(), Trap>)
    requires
        mark_inv(old(space), old(stack)),
    ensures
        mark_step(old(space), old(stack), final(space), final(stack)),
        forall|h: Heap, nd: int|
            #![trigger marking_state(h, old(space), old(stack), None, nd)]
            marking_state(h, old(space), old(stack), None, nd) && 0 <= nd < static_count(h)
                && field_addr == static_addr(h, nd) ==> r is Ok && marking_state(
                h,
                final(space),
                final(stack),
                None,
                nd + 1,
            ),
{
    let ghost ps = space.page_alloc.page_size();
    let ghost before = *space;
    let ghost stack_before = *stack;
    let ghost mut did_mark = false;
    let ghost mut marked_space = *space;
    proof {
        lemma_mark_step_refl(space, stack);
        assert forall|h: Heap, nd: int|
            #![trigger marking_state(h, old(space), old(stack), None, nd)]
            marking_state(h, old(space), old(stack), None, nd) && 0 <= nd < static_count(h)
                && field_addr == static_addr(h, nd) implies field_visit(
            h,
            &before,
            &stack_before,
            None,
            nd,
            Spot::Static(nd),
            field_addr as int,
        ) by {
            lemma_spot_read(h, &before, &stack_before, None, nd, Spot::Static(nd));
        }
    }
    let raw: u32 = match load(&space.page_alloc, field_addr) {
        Ok(raw) => raw,
        Err(trap) => {
            return Err(trap);
        },
    };
    if !space.page_alloc.in_static_heap(field_addr) {
        return Err(Trap::InvalidObject);
    }
    let field_value = Value::from_raw(raw);
    if field_value.is_ptr() && !space.page_alloc.in_static_heap(field_value.get_ptr()) {
        proof {
            stack.lemma_not_owned(&space.page_alloc, field_addr as int);
        }
        let marked = mark_object(space, stack, field_value);
        proof {
            did_mark = true;
            marked_space = *space;
            assert forall|h: Heap, nd: int|
                #![trigger marking_state(h, old(space), old(stack), None, nd)]
                marking_state(h, old(space), old(stack), None, nd) && 0 <= nd < static_count(h)
                    && field_addr == static_addr(h, nd) implies marked is Ok && marking_state(
                h,
                &marked_space,
                stack,
                None,
                nd,
            ) && marked_bit(&marked_space.page_alloc, spot_target(h, Spot::Static(nd))) by {
                assert(field_visit(
                    h,
                    &before,
                    &stack_before,
                    None,
                    nd,
                    Spot::Static(nd),
                    field_addr as int,
                ));
                assert(points(h, Spot::Static(nd)));
            }
        }
        match marked {
            Ok(()) => {},
            Err(trap) => {
                return Err(trap);
            },
        }
        proof {
            let target = field_value.spec_get_ptr();
            assert(space.page_alloc.words().dom().contains(field_addr as int));
            assert(space.page_alloc.words()[field_addr as int]
                == before.page_alloc.words()[field_addr as int]);
            assert(before.page_alloc.words().dom().contains(target));
            assert(!stack.owns_addr(ps, target));
            assert(!stack.owns_addr(ps, field_addr as int));
        }
        let threading = thread_marked(space, stack, field_addr);
        proof {
            lemma_mark_step_trans(&before, &stack_before, &marked_space, stack, space, stack);
        }
        match threading {
            Ok(()) => {},
            Err(trap) => {
                return Err(trap);
            },
        }
    }
    proof {
        assert forall|h: Heap, nd: int|
            #![trigger marking_state(h, old(space), old(stack), None, nd)]
            marking_state(h, old(space), old(stack), None, nd) && 0 <= nd < static_count(h)
                && field_addr == static_addr(h, nd) implies marking_state(
            h,
            space,
            stack,
            None,
            nd + 1,
        ) by {
            assert(field_visit(
                h,
                &before,
                &stack_before,
                None,
                nd,
                Spot::Static(nd),
                field_addr as int,
            ));
            lemma_visited(
                h,
                &before,
                &stack_before,
                &marked_space,
                stack,
                space,
                None,
                nd,
                Spot::Static(nd),
                did_mark,
                did_mark,
            );
        }
    }
    Ok(())
}

/// Marks what the static roots point to.  The array of roots and the boxes
/// that it points to are static: they need no mark, and their fields are
/// threaded.
///
/// In the mark phase of a well-formed heap this succeeds, and leaves the
/// fields of all root boxes visited.
pub fn mark_static_roots<P: PageAlloc>(
    space: &mut Space<P>,
    stack: &mut MarkStack<P>,
    static_roots: Value,
) -> (r: Result<(), Trap>)
    requires
        mark_inv(old(space), old(stack)),
    ensures
        mark_step(old(space), old(stack), final(space), final(stack)),
        forall|h: Heap|
            #![trigger marking_state(h, old(space), old(stack), None, 0int)]
            marking_state(h, old(space), old(stack), None, 0int) && static_roots.spec_get_ptr()
                == h.roots ==> r is Ok && marking_state(
                h,
                final(space),
                final(stack),
                None,
                h.w0[h.roots + 4] as int,
            ),
{
    proof {
        lemma_mark_step_refl(space, stack);
        assert forall|h: Heap|
            #![trigger marking_state(h, old(space), old(stack), None, 0int)]
            marking_state(h, old(space), old(stack), None, 0int) implies roots_read(
            h,
            old(space),
            0,
        ) by {
            lemma_roots_read(h, old(space), old(stack), None, 0, 0);
        }
    }
    let root_array: usize = static_roots.get_ptr();
    let tag: u32 = match load(&space.page_alloc, root_array) {
        Ok(tag) => tag,
        Err(trap) => {
            return Err(trap);
        },
    };
    if tag != TAG_ARRAY {
        return Err(Trap::InvalidTag);
    }
    proof {
        space.page_alloc.lemma_mapped(root_array as int);
    }
    let len: u32 = match load(&space.page_alloc, root_array + 4) {
        Ok(len) => len,
        Err(trap) => {
            return Err(trap);
        },
    };
    proof {
        space.page_alloc.lemma_mapped(root_array + 4);
    }
    let mut elem_addr: usize = root_array + 8;
    let mut i: u32 = 0;
    while i < len
        invariant
            mark_step(old(space), old(stack), space, stack),
            elem_addr <= 0xffff_ffff,
            elem_addr == root_array + 8 + 4 * i,
            i <= len,
            root_array == static_roots.spec_get_ptr(),
            forall|h: Heap|
                #![trigger marking_state(h, old(space), old(stack), None, 0int)]
                marking_state(h, old(space), old(stack), None, 0int)
                    && static_roots.spec_get_ptr() == h.roots ==> len == h.w0[h.roots + 4]
                    && marking_state(h, space, stack, None, i as int),
        decreases len - i,
    {
        proof {
            assert forall|h: Heap|
                #![trigger marking_state(h, old(space), old(stack), None, 0int)]
                marking_state(h, old(space), old(stack), None, 0int)
                    && static_roots.spec_get_ptr() == h.roots implies roots_read(
                h,
                space,
                i as int,
            ) by {
                lemma_roots_read(h, space, stack, None, i as int, i as int);
            }
        }
        let raw: u32 = match load(&space.page_alloc, elem_addr) {
            Ok(raw) => raw,
            Err(trap) => {
                return Err(trap);
            },
        };
        proof {
            space.page_alloc.lemma_mapped(elem_addr as int);
        }
        let obj: usize = Value::from_raw(raw).get_ptr();
        // Root array should only have pointers to static MutBoxes
        let obj_tag: u32 = match load(&space.page_alloc, obj) {
            Ok(tag) => tag,
            Err(trap) => {
                return Err(trap);
            },
        };
        if obj_tag != TAG_MUTBOX {
            return Err(Trap::InvalidTag);
        }
        if !space.page_alloc.in_static_heap(obj) {
            return Err(Trap::InvalidObject);
        }
        let ghost before = *space;
        let ghost stack_before = *stack;
        let marked = mark_root_mutbox_fields(space, stack, obj);
        proof {
            lemma_mark_step_trans(old(space), old(stack), &before, &stack_before, space, stack);
            assert forall|h: Heap|
                #![trigger marking_state(h, old(space), old(stack), None, 0int)]
                marking_state(h, old(space), old(stack), None, 0int)
                    && static_roots.spec_get_ptr() == h.roots implies marked is Ok
                && marking_state(h, space, stack, None, i + 1) by {
                assert(roots_read(h, &before, i as int));
                assert(marking_state(h, &before, &stack_before, None, i as int));
            }
        }
        match marked {
            Ok(()) => {},
            Err(trap) => {
                return Err(trap);
            },
        }
        elem_addr = elem_addr + 4;
        i = i + 1;
    }
    Ok(())
}

/// Marks the fields of the objects on the stack until the stack is empty.
///
/// In the mark phase of a well-formed heap this succeeds, and leaves every
/// object marked that a marked object points to.
#[verifier::rlimit(100)]
pub fn mark_stack<P: PageAlloc>(space: &mut Space<P>, stack: &mut MarkStack<P>) -> (r: Result<
    (),
    Trap,
>)
    requires
        mark_inv(old(space), old(stack)),
    ensures
        mark_inv(final(space), final(stack)),
        final(space).pages == old(space).pages,
        final(space).current_page == old(space).current_page,
        final(space).hp == old(space).hp,
        final(space).total_alloc == old(space).total_alloc,
        same_config(&old(space).page_alloc, &final(space).page_alloc),
        chunks_only(&old(space).page_alloc, old(stack), &final(space).page_alloc, final(stack)),
        r is Ok ==> final(stack)@.len() == 0,
        forall|h: Heap, nd: int|
            #![trigger marking_state(h, old(space), old(stack), None, nd)]
            marking_state(h, old(space), old(stack), None, nd) ==> r is Ok && marking_state(
                h,
                final(space),
                final(stack),
                None,
                nd,
            ),
{
    loop
        invariant
            mark_inv(space, stack),
            space.pages == old(space).pages,
            space.current_page == old(space).current_page,
            space.hp == old(space).hp,
            space.total_alloc == old(space).total_alloc,
            same_config(&old(space).page_alloc, &space.page_alloc),
            chunks_only(&old(space).page_alloc, old(stack), &space.page_alloc, stack),
            forall|h: Heap, nd: int|
                #![trigger marking_state(h, old(space), old(stack), None, nd)]
                marking_state(h, old(space), old(stack), None, nd) ==> marking_state(
                    h,
                    space,
                    stack,
                    None,
                    nd,
                ),
        ensures
            stack@.len() == 0,
            forall|h: Heap, nd: int|
                #![trigger marking_state(h, old(space), old(stack), None, nd)]
                marking_state(h, old(space), old(stack), None, nd) ==> marking_state(
                    h,
                    space,
                    stack,
                    None,
                    nd,
                ),
        decreases unmarked_set(&space.page_alloc).len(), stack@.len(),
    {
        let ghost before = *space;
        let ghost stack_before = *stack;
        let popped = stack.pop(&mut space.page_alloc);
        proof {
            lemma_mark_inv_stack_step(&before, &stack_before, space, stack);
            lemma_unmarked_after_stack_step(
                &stack_before,
                &before.page_alloc,
                stack,
                &space.page_alloc,
            );
        }
        match popped {
            Some((obj, tag)) => {
                let ghost popped_space = *space;
                let ghost popped_stack = *stack;
                proof {
                    assert forall|h: Heap, nd: int|
                        #![trigger marking_state(h, old(space), old(stack), None, nd)]
                        marking_state(h, old(space), old(stack), None, nd) implies marking_state(
                        h,
                        &popped_space,
                        &popped_stack,
                        Some((obj as int, 0int)),
                        nd,
                    ) && tag == h.w0[obj as int] by {
                        lemma_state_begin(
                            h,
                            &before,
                            &stack_before,
                            &popped_space,
                            &popped_stack,
                            nd,
                        );
                    }
                }
                let marked = mark_fields(space, stack, obj, tag);
                proof {
                    assert(chunks_only(
                        &before.page_alloc,
                        &stack_before,
                        &popped_space.page_alloc,
                        &popped_stack,
                    ));
                    assert(chunks_only(
                        &old(space).page_alloc,
                        old(stack),
                        &popped_space.page_alloc,
                        &popped_stack,
                    ));
                    assert forall|h: Heap, nd: int|
                        #![trigger marking_state(h, old(space), old(stack), None, nd)]
                        marking_state(h, old(space), old(stack), None, nd) implies marked is Ok
                        && marking_state(h, space, stack, None, nd) by {
                        assert(marking_state(
                            h,
                            &popped_space,
                            &popped_stack,
                            Some((obj as int, 0int)),
                            nd,
                        ));
                    }
                }
                match marked {
                    Ok(()) => {},
                    Err(trap) => {
                        return Err(trap);
                    },
                }
            },
            None => {
                proof {
                    assert forall|h: Heap, nd: int|
                        #![trigger marking_state(h, old(space), old(stack), None, nd)]
                        marking_state(h, old(space), old(stack), None, nd) implies marking_state(
                        h,
                        space,
                        stack,
                        None,
                        nd,
                    ) by {
                        lemma_state_step(h, &before, &stack_before, space, stack, None, nd);
                    }
                }
                break ;
            },
        }
    }
    Ok(())
}

/// Threads the pointer fields of the object at `obj` that point forwards:
/// to objects of the dynamic heap above `old_addr`, the address from which
/// the object was moved.  Those objects were not moved yet.
///
/// In the second pass of a compaction of a well-formed heap this succeeds
/// for the object that was moved, and leaves its pointers to the objects
/// that were not moved yet on the chains of those objects.
#[verifier::rlimit(100)]
pub fn thread_fwd_pointers<P: PageAlloc>(page_alloc: &mut P, obj: usize, old_addr: usize) -> (r:
    Result<(), Trap>)
    requires
        old(page_alloc).wf(),
    ensures
        final(page_alloc).wf(),
        same_pages(old(page_alloc), final(page_alloc)),
        same_bitmaps(old(page_alloc), final(page_alloc)),
        final(page_alloc).words().dom() == old(page_alloc).words().dom(),
        forall|h: Heap, u: Slide|
            #![trigger fwd_ready(h, old(page_alloc), u, obj as int, old_addr as int)]
            fwd_ready(h, old(page_alloc), u, obj as int, old_addr as int) ==> r is Ok && fwd_done(
                h,
                final(page_alloc).words(),
                u,
            ) && idle_kept(h, u, old(page_alloc).words(), final(page_alloc).words()),
{
    proof {
        assert forall|h: Heap, u: Slide|
            #![trigger fwd_ready(h, old(page_alloc), u, obj as int, old_addr as int)]
            fwd_ready(h, old(page_alloc), u, obj as int, old_addr as int) implies moved_read(
            h,
            old(page_alloc).words(),
            u,
        ) by {
            lemma_moved_object(h, old(page_alloc).words(), u, 0);
        }
    }
    let tag: u32 = match load(page_alloc, obj) {
        Ok(tag) => tag,
        Err(trap) => {
            return Err(trap);
        },
    };
    let (first, n_fields) = match pointer_fields(page_alloc, obj, tag) {
        Ok(fields) => fields,
        Err(trap) => {
            return Err(trap);
        },
    };
    let mut field_addr: usize = first;
    let mut i: u32 = 0;
    while i < n_fields
        invariant
            page_alloc.wf(),
            same_pages(old(page_alloc), page_alloc),
            same_bitmaps(old(page_alloc), page_alloc),
            page_alloc.words().dom() == old(page_alloc).words().dom(),
            field_addr <= 0xffff_ffff,
            field_addr == first + 4 * i,
            i <= n_fields,
            forall|h: Heap, u: Slide|
                #![trigger fwd_ready(h, old(page_alloc), u, obj as int, old_addr as int)]
                fwd_ready(h, old(page_alloc), u, obj as int, old_addr as int) ==> fwd_mid(
                    h,
                    page_alloc.words(),
                    u,
                    i as int,
                ) && first == obj + 4 * marking::first(h, old_addr as int) && n_fields
                    == marking::count(h, old_addr as int) && idle_kept(
                    h,
                    u,
                    old(page_alloc).words(),
                    page_alloc.words(),
                ),
        decreases n_fields - i,
    {
        let ghost before = *page_alloc;
        let ghost mut did_thread = false;
        proof {
            assert forall|h: Heap, u: Slide|
                #![trigger fwd_ready(h, old(page_alloc), u, obj as int, old_addr as int)]
                fwd_ready(h, old(page_alloc), u, obj as int, old_addr as int) implies moved_read(
                h,
                before.words(),
                u,
            ) && before.words().dom().contains(field_addr as int) by {
                lemma_moved_object(h, before.words(), u, i as int);
                let k = marking::first(h, old_addr as int) + i;
                assert(before.words().dom().contains(obj + 4 * k));
            }
        }
        let raw: u32 = match load(page_alloc, field_addr) {
            Ok(raw) => raw,
            Err(trap) => {
                return Err(trap);
            },
        };
        proof {
            page_alloc.lemma_mapped(field_addr as int);
        }
        let field_value = Value::from_raw(raw);
        let ghost dynamic = !page_alloc.is_static(field_value.spec_get_ptr());
        if field_value.is_ptr() && field_value.get_ptr() > old_addr && !page_alloc.in_static_heap(
            field_value.get_ptr(),
        ) {
            let threading = thread(page_alloc, field_addr);
            proof {
                did_thread = true;
                assert forall|h: Heap, u: Slide|
                    #![trigger fwd_ready(h, old(page_alloc), u, obj as int, old_addr as int)]
                    fwd_ready(
                        h,
                        old(page_alloc),
                        u,
                        obj as int,
                        old_addr as int,
                    ) implies threading is Ok by {
                    lemma_fwd_step(
                        h,
                        before.words(),
                        threaded(before.words(), field_addr as int),
                        u,
                        i as int,
                        dynamic,
                        true,
                    );
                }
            }
            match threading {
                Ok(()) => {},
                Err(trap) => {
                    return Err(trap);
                },
            }
        }
        proof {
            assert forall|h: Heap, u: Slide|
                #![trigger fwd_ready(h, old(page_alloc), u, obj as int, old_addr as int)]
                fwd_ready(h, old(page_alloc), u, obj as int, old_addr as int) implies fwd_mid(
                h,
                page_alloc.words(),
                u,
                i + 1,
            ) && idle_kept(h, u, old(page_alloc).words(), page_alloc.words()) by {
                lemma_fwd_step(
                    h,
                    before.words(),
                    page_alloc.words(),
                    u,
                    i as int,
                    dynamic,
                    did_thread,
                );
            }
        }
        field_addr = field_addr + 4;
        i = i + 1;
    }
    proof {
        assert forall|h: Heap, u: Slide|
            #![trigger fwd_ready(h, old(page_alloc), u, obj as int, old_addr as int)]
            fwd_ready(h, old(page_alloc), u, obj as int, old_addr as int) implies fwd_done(
            h,
            page_alloc.words(),
            u,
        ) by {
            lemma_fwd_finish(h, page_alloc.words(), u);
        }
    }
    Ok(())
}

/// A page whose contents area holds `hp` is found at or before the position
/// of any such page.
proof fn lemma_page_holding<P: PageAlloc>(
    pages: Seq<P::Page>,
    page_size: int,
    hp: int,
    from: int,
    k: int,
)
    requires
        0 <= from <= k < pages.len(),
        P::start_of(pages[k]) + PAGE_HEADER_SIZE <= hp <= P::start_of(pages[k]) + page_size,
    ensures
        from <= Space::<P>::page_holding(pages, page_size, hp, from) <= k,
    decreases k - from,
{
    if from < k {
        lemma_page_holding::<P>(pages, page_size, hp, from + 1, k);
    }
}

/// What the second pass keeps of the space while it runs: the space, its
/// pages and all pages of the allocator are as they were; only words of
/// memory and bitmaps change.
pub open spec fn update_frame<P: PageAlloc>(before: &Space<P>, after: &Space<P>) -> bool {
    &&& after.wf()
    &&& after.pages == before.pages
    &&& after.current_page == before.current_page
    &&& after.hp == before.hp
    &&& after.total_alloc == before.total_alloc
    &&& same_pages(&before.page_alloc, &after.page_alloc)
    &&& after.page_alloc.words().dom() == before.page_alloc.words().dom()
}

/// Closes the rest of the page at position `to_page_idx`, into which the
/// object at `p` of `bytes` bytes does not fit, with a filler, so that the
/// page can still be walked object by object, and hands back the next page
/// and the start of its contents area.
#[verifier::rlimit(100)]
fn close_page<P: PageAlloc>(
    space: &mut Space<P>,
    pages: &Vec<P::Page>,
    to_page_idx: usize,
    to_addr: usize,
    bytes: usize,
    p: usize,
) -> (r: Result<(usize, usize), Trap>)
    requires
        old(space).wf(),
        forall|k: int| 0 <= k < pages@.len() ==> old(space).page_alloc.is_live(#[trigger] pages@[k]),
        to_page_idx < pages@.len(),
        P::start_of(pages@[to_page_idx as int]) + PAGE_HEADER_SIZE <= to_addr <= P::start_of(
            pages@[to_page_idx as int],
        ) + old(space).page_alloc.page_size(),
        to_addr % 4 == 0,
        bytes > P::start_of(pages@[to_page_idx as int]) + old(space).page_alloc.page_size()
            - to_addr,
    ensures
        update_frame(old(space), final(space)),
        same_bitmaps(&old(space).page_alloc, &final(space).page_alloc),
        match r {
            Ok((idx, addr)) => {
                &&& idx == to_page_idx + 1
                &&& idx < pages@.len()
                &&& addr == P::start_of(pages@[idx as int]) + PAGE_HEADER_SIZE
                &&& bytes <= old(space).page_alloc.page_size() - PAGE_HEADER_SIZE
            },
            Err(_) => true,
        },
        forall|h: Heap, marked: Set<int>, pos: int|
            #![trigger slide_state(h, &old(space).page_alloc, pages@, to_page_idx as int, to_addr as int, marked, pos)]
            slide_state(
                h,
                &old(space).page_alloc,
                pages@,
                to_page_idx as int,
                to_addr as int,
                marked,
                pos,
            ) && next_obj(marked, pos, p as int) && bytes == 4 * size0(h.w0, p as int) ==> r is Ok
                && slide_state(
                h,
                &final(space).page_alloc,
                pages@,
                to_page_idx + 1,
                P::start_of(pages@[to_page_idx + 1]) + PAGE_HEADER_SIZE,
                marked,
                pos,
            ) && !no_room(
                h,
                &final(space).page_alloc,
                pages@,
                to_page_idx + 1,
                P::start_of(pages@[to_page_idx + 1]) + PAGE_HEADER_SIZE,
                p as int,
            ),
{
    let ghost ti0 = to_page_idx as int;
    let ghost ta0 = to_addr as int;
    let page_size: usize = space.page_alloc.page_size_bytes();
    proof {
        space.page_alloc.lemma_page_size();
        space.page_alloc.lemma_live_handle(pages@[to_page_idx as int]);
        space.page_alloc.lemma_live_page(P::start_of(pages@[to_page_idx as int]));
    }
    let to_page_end: usize = space.page_alloc.page_end(&pages[to_page_idx]);
    let slop: usize = to_page_end - to_addr;
    proof {
        let start = P::start_of(pages@[to_page_idx as int]);
        if slop >= 4 {
            space.page_alloc.lemma_page_mapped(start, to_addr as int);
        }
        if slop >= 8 {
            space.page_alloc.lemma_page_mapped(start, to_addr + 4);
        }
    }
    if slop == 4 {
        space.page_alloc.write_word(to_addr, TAG_ONE_WORD_FILLER);
        proof {
            assert forall|h: Heap, marked: Set<int>, pos: int|
                #![trigger slide_state(h, &old(space).page_alloc, pages@, ti0, ta0, marked, pos)]
                slide_state(h, &old(space).page_alloc, pages@, ti0, ta0, marked, pos) && next_obj(
                    marked,
                    pos,
                    p as int,
                ) && bytes == 4 * size0(h.w0, p as int) implies slide_state(
                h,
                &space.page_alloc,
                pages@,
                ti0,
                ta0,
                marked,
                pos,
            ) by {
                lemma_fill_word(
                    h,
                    &old(space).page_alloc,
                    &space.page_alloc,
                    pages@,
                    ti0,
                    ta0,
                    marked,
                    pos,
                    p as int,
                    ta0,
                    TAG_ONE_WORD_FILLER,
                );
            }
        }
    } else if slop != 0 {
        space.page_alloc.write_word(to_addr, TAG_FREE_SPACE);
        let ghost tagged = *space;
        space.page_alloc.write_word(to_addr + 4, (slop / 4) as u32);
        proof {
            assert forall|h: Heap, marked: Set<int>, pos: int|
                #![trigger slide_state(h, &old(space).page_alloc, pages@, ti0, ta0, marked, pos)]
                slide_state(h, &old(space).page_alloc, pages@, ti0, ta0, marked, pos) && next_obj(
                    marked,
                    pos,
                    p as int,
                ) && bytes == 4 * size0(h.w0, p as int) implies slide_state(
                h,
                &space.page_alloc,
                pages@,
                ti0,
                ta0,
                marked,
                pos,
            ) by {
                lemma_fill_word(
                    h,
                    &old(space).page_alloc,
                    &tagged.page_alloc,
                    pages@,
                    ti0,
                    ta0,
                    marked,
                    pos,
                    p as int,
                    ta0,
                    TAG_FREE_SPACE,
                );
                lemma_fill_word(
                    h,
                    &tagged.page_alloc,
                    &space.page_alloc,
                    pages@,
                    ti0,
                    ta0,
                    marked,
                    pos,
                    p as int,
                    ta0 + 4,
                    (slop / 4) as u32,
                );
            }
        }
    }
    proof {
        assert(space.page_alloc.words().dom() =~= old(space).page_alloc.words().dom());
        assert(crate::gc::copying::wellformed::is_filler(
            space.page_alloc.words(),
            ta0,
            to_page_end as int,
        ));
        assert forall|h: Heap, marked: Set<int>, pos: int|
            #![trigger slide_state(h, &old(space).page_alloc, pages@, ti0, ta0, marked, pos)]
            slide_state(h, &old(space).page_alloc, pages@, ti0, ta0, marked, pos) && next_obj(
                marked,
                pos,
                p as int,
            ) && bytes == 4 * size0(h.w0, p as int) implies closed(
            h,
            &space.page_alloc,
            pages@,
            ti0,
            p as int,
        ) && slide_state(
            h,
            &space.page_alloc,
            pages@,
            ti0 + 1,
            P::start_of(pages@[ti0 + 1]) + PAGE_HEADER_SIZE,
            marked,
            pos,
        ) by {
            lemma_switch_page(h, &space.page_alloc, pages@, ti0, ta0, marked, pos, p as int);
        }
    }
    if to_page_idx >= pages.len() - 1 {
        return Err(Trap::InvalidObject);
    }
    if bytes > page_size - PAGE_HEADER_SIZE {
        return Err(Trap::LargeObject);
    }
    proof {
        space.page_alloc.lemma_live_handle(pages@[to_page_idx + 1]);
        space.page_alloc.lemma_live_page(P::start_of(pages@[to_page_idx + 1]));
    }
    let next: usize = space.page_alloc.page_contents_start(&pages[to_page_idx + 1]);
    Ok((to_page_idx + 1, next))
}

/// What holds when page `ti` was closed: there is a next page, and the
/// object at `p` fits into it.
pub open spec fn closed<P: PageAlloc>(
    h: Heap,
    page_alloc: &P,
    pages: Seq<P::Page>,
    ti: int,
    p: int,
) -> bool {
    &&& ti + 1 < pages.len()
    &&& !no_room(
        h,
        page_alloc,
        pages,
        ti + 1,
        P::start_of(pages[ti + 1]) + PAGE_HEADER_SIZE,
        p,
    )
}

/// Moves the marked object at `p`, of `obj_size` words, to `to_addr` in
/// the page at position `to_page_idx`, into which it fits: unthreads it to
/// that address, copies it there unless it stays where it is, and threads
/// the pointers in it that point forwards.  Hands back the address behind
/// the moved object.
#[verifier::rlimit(100)]
fn move_object<P: PageAlloc>(
    space: &mut Space<P>,
    pages: &Vec<P::Page>,
    to_page_idx: usize,
    to_addr: usize,
    p: usize,
    obj_size: Words<u32>,
) -> (r: Result<usize, Trap>)
    requires
        old(space).wf(),
        forall|k: int| 0 <= k < pages@.len() ==> old(space).page_alloc.is_live(#[trigger] pages@[k]),
        to_page_idx < pages@.len(),
        P::start_of(pages@[to_page_idx as int]) + PAGE_HEADER_SIZE <= to_addr,
        to_addr + 4 * obj_size.0 <= P::start_of(pages@[to_page_idx as int]) + old(
            space,
        ).page_alloc.page_size(),
        to_addr % 4 == 0,
        old(space).page_alloc.words().dom().contains(p as int),
    ensures
        update_frame(old(space), final(space)),
        same_bitmaps(&old(space).page_alloc, &final(space).page_alloc),
        r is Ok ==> r->Ok_0 == to_addr + 4 * obj_size.0,
        forall|h: Heap, marked: Set<int>, pos: int|
            #![trigger slide_state(h, &old(space).page_alloc, pages@, to_page_idx as int, to_addr as int, marked, pos)]
            slide_state(
                h,
                &old(space).page_alloc,
                pages@,
                to_page_idx as int,
                to_addr as int,
                marked,
                pos,
            ) && next_obj(marked, pos, p as int) && obj_size.0 == size0(h.w0, p as int) ==> r
                is Ok && slide_state(
                h,
                &final(space).page_alloc,
                pages@,
                to_page_idx as int,
                to_addr + 4 * obj_size.0,
                marked,
                p + 1,
            ),
{
    let ghost td = to_page_idx as int;
    let ghost d = to_addr as int;
    proof {
        space.page_alloc.lemma_page_size();
        space.page_alloc.lemma_mapped(p as int);
        space.page_alloc.lemma_live_handle(pages@[to_page_idx as int]);
        space.page_alloc.lemma_live_page(P::start_of(pages@[to_page_idx as int]));
        assert forall|h: Heap, marked: Set<int>, pos: int|
            #![trigger slide_state(h, &old(space).page_alloc, pages@, td, d, marked, pos)]
            slide_state(h, &old(space).page_alloc, pages@, td, d, marked, pos) && next_obj(
                marked,
                pos,
                p as int,
            ) && obj_size.0 == size0(h.w0, p as int) implies relocating(
            h,
            &old(space).page_alloc,
            pages@,
            td,
            d,
            marked,
            pos,
            p as int,
        ) by {
            lemma_move_ready(h, &old(space).page_alloc, pages@, td, d, marked, pos, p as int);
        }
    }
    // Update backwards references to the object's new location and restore
    // object header
    match unthread(&mut space.page_alloc, p, to_addr) {
        Ok(()) => {},
        Err(trap) => {
            return Err(trap);
        },
    }

    // Move the object
    if to_addr != p {
        match memcpy_words(&mut space.page_alloc, to_addr, p, obj_size) {
            Ok(()) => {},
            Err(trap) => {
                return Err(trap);
            },
        }
    }
    let ghost copied = *space;
    proof {
        assert forall|h: Heap, marked: Set<int>, pos: int|
            #![trigger slide_state(h, &old(space).page_alloc, pages@, td, d, marked, pos)]
            slide_state(h, &old(space).page_alloc, pages@, td, d, marked, pos) && next_obj(
                marked,
                pos,
                p as int,
            ) && obj_size.0 == size0(h.w0, p as int) implies fwd_ready(
            h,
            &copied.page_alloc,
            after_move(
                h,
                the_state(h, &old(space).page_alloc, pages@, td, d, marked, pos),
                p as int,
                d,
            ),
            d,
            p as int,
        ) by {
            assert(relocating(h, &old(space).page_alloc, pages@, td, d, marked, pos, p as int));
            lemma_moved_state(
                h,
                &old(space).page_alloc,
                &copied.page_alloc,
                pages@,
                td,
                d,
                marked,
                pos,
                p as int,
            );
        }
    }
    // Thread forward pointers of the object
    let threading = thread_fwd_pointers(&mut space.page_alloc, to_addr, p);
    proof {
        assert forall|h: Heap, marked: Set<int>, pos: int|
            #![trigger slide_state(h, &old(space).page_alloc, pages@, td, d, marked, pos)]
            slide_state(h, &old(space).page_alloc, pages@, td, d, marked, pos) && next_obj(
                marked,
                pos,
                p as int,
            ) && obj_size.0 == size0(h.w0, p as int) implies threading is Ok && slide_state(
            h,
            &space.page_alloc,
            pages@,
            td,
            d + 4 * obj_size.0,
            marked,
            p + 1,
        ) by {
            assert(relocating(h, &old(space).page_alloc, pages@, td, d, marked, pos, p as int));
            let u1 = after_move(
                h,
                the_state(h, &old(space).page_alloc, pages@, td, d, marked, pos),
                p as int,
                d,
            );
            assert(fwd_ready(h, &copied.page_alloc, u1, d, p as int));
            lemma_move_frame(
                h,
                &old(space).page_alloc,
                &copied.page_alloc,
                &space.page_alloc,
                pages@,
                td,
                d,
                marked,
                pos,
                p as int,
            );
            lemma_relocated(
                h,
                &old(space).page_alloc,
                &space.page_alloc,
                pages@,
                td,
                d,
                marked,
                pos,
                p as int,
            );
        }
    }
    match threading {
        Ok(()) => {},
        Err(trap) => {
            return Err(trap);
        },
    }
    Ok(to_addr + obj_size.0 as usize * 4)
}

/// Moves the marked object at `p`: recovers its tag and its size, unthreads
/// it to the address to which it goes, copies it there unless it stays
/// where it is, and threads the pointers in it that point forwards.  The
/// object goes to `to_addr` in the page at position `to_page_idx` of
/// `pages`, or, where it does not fit there, to the start of the next page,
/// after the rest of the page was closed with a filler so that the page can
/// still be walked object by object.  Hands back the position and the
/// address behind the moved object.
#[verifier::rlimit(100)]
fn relocate<P: PageAlloc>(
    space: &mut Space<P>,
    pages: &Vec<P::Page>,
    to_page_idx: usize,
    to_addr: usize,
    p: usize,
) -> (r: Result<(usize, usize), Trap>)
    requires
        old(space).wf(),
        forall|k: int| 0 <= k < pages@.len() ==> old(space).page_alloc.is_live(#[trigger] pages@[k]),
        to_page_idx < pages@.len(),
        P::start_of(pages@[to_page_idx as int]) + PAGE_HEADER_SIZE <= to_addr <= P::start_of(
            pages@[to_page_idx as int],
        ) + old(space).page_alloc.page_size(),
        to_addr % 4 == 0,
        old(space).page_alloc.words().dom().contains(p as int),
    ensures
        update_frame(old(space), final(space)),
        same_bitmaps(&old(space).page_alloc, &final(space).page_alloc),
        match r {
            Ok((idx, addr)) => {
                &&& to_page_idx <= idx < pages@.len()
                &&& P::start_of(pages@[idx as int]) + PAGE_HEADER_SIZE <= addr <= P::start_of(
                    pages@[idx as int],
                ) + old(space).page_alloc.page_size()
                &&& addr % 4 == 0
            },
            Err(_) => true,
        },
        forall|h: Heap, marked: Set<int>, pos: int|
            #![trigger slide_state(h, &old(space).page_alloc, pages@, to_page_idx as int, to_addr as int, marked, pos)]
            slide_state(
                h,
                &old(space).page_alloc,
                pages@,
                to_page_idx as int,
                to_addr as int,
                marked,
                pos,
            ) && next_obj(marked, pos, p as int) ==> r is Ok && slide_state(
                h,
                &final(space).page_alloc,
                pages@,
                r->Ok_0.0 as int,
                r->Ok_0.1 as int,
                marked,
                p + 1,
            ),
{
    let ghost ti0 = to_page_idx as int;
    let ghost ta0 = to_addr as int;
    let mut to_page_idx = to_page_idx;
    let mut to_addr = to_addr;
    proof {
        space.page_alloc.lemma_page_size();
        space.page_alloc.lemma_mapped(p as int);
        assert forall|h: Heap, marked: Set<int>, pos: int|
            #![trigger slide_state(h, &old(space).page_alloc, pages@, ti0, ta0, marked, pos)]
            slide_state(h, &old(space).page_alloc, pages@, ti0, ta0, marked, pos) && next_obj(
                marked,
                pos,
                p as int,
            ) implies move_plan(h, &old(space).page_alloc, pages@, ti0, ta0, p as int) by {
            lemma_move_plan(h, &old(space).page_alloc, pages@, ti0, ta0, marked, pos, p as int);
        }
    }
    // Get the object header first, to be able to check whether it will fit
    // the current page or we need to move on to the next page
    let obj_tag: u32 = match get_tag(&space.page_alloc, p) {
        Ok(tag) => tag,
        Err(trap) => {
            return Err(trap);
        },
    };
    let obj_size: Words<u32> = match object_size_(&space.page_alloc, p, obj_tag) {
        Ok(size) => size,
        Err(trap) => {
            return Err(trap);
        },
    };
    let bytes: usize = obj_size.0 as usize * 4;
    proof {
        space.page_alloc.lemma_live_handle(pages@[to_page_idx as int]);
        space.page_alloc.lemma_live_page(P::start_of(pages@[to_page_idx as int]));
    }
    let to_page_end: usize = space.page_alloc.page_end(&pages[to_page_idx]);
    if bytes > to_page_end - to_addr {
        // Object does not fit into the current page, move on to the next
        // page
        let closing = close_page(space, pages, to_page_idx, to_addr, bytes, p);
        proof {
            assert forall|h: Heap, marked: Set<int>, pos: int|
                #![trigger slide_state(h, &old(space).page_alloc, pages@, ti0, ta0, marked, pos)]
                slide_state(h, &old(space).page_alloc, pages@, ti0, ta0, marked, pos) && next_obj(
                    marked,
                    pos,
                    p as int,
                ) implies closing is Ok by {
                assert(move_plan(h, &old(space).page_alloc, pages@, ti0, ta0, p as int));
            }
        }
        match closing {
            Ok((idx, addr)) => {
                to_page_idx = idx;
                to_addr = addr;
            },
            Err(trap) => {
                return Err(trap);
            },
        }
    }
    let ghost ready = *space;
    let ghost td = to_page_idx as int;
    let ghost d = to_addr as int;
    proof {
        space.page_alloc.lemma_live_handle(pages@[td]);
        space.page_alloc.lemma_live_page(P::start_of(pages@[td]));
        assert forall|h: Heap, marked: Set<int>, pos: int|
            #![trigger slide_state(h, &old(space).page_alloc, pages@, ti0, ta0, marked, pos)]
            slide_state(h, &old(space).page_alloc, pages@, ti0, ta0, marked, pos) && next_obj(
                marked,
                pos,
                p as int,
            ) implies slide_state(h, &ready.page_alloc, pages@, td, d, marked, pos) && obj_size.0
            == size0(h.w0, p as int) by {
            assert(move_plan(h, &old(space).page_alloc, pages@, ti0, ta0, p as int));
        }
    }
    let moved = move_object(space, pages, to_page_idx, to_addr, p, obj_size);
    proof {
        assert forall|h: Heap, marked: Set<int>, pos: int|
            #![trigger slide_state(h, &old(space).page_alloc, pages@, ti0, ta0, marked, pos)]
            slide_state(h, &old(space).page_alloc, pages@, ti0, ta0, marked, pos) && next_obj(
                marked,
                pos,
                p as int,
            ) implies moved is Ok && slide_state(
            h,
            &space.page_alloc,
            pages@,
            td,
            d + bytes,
            marked,
            p + 1,
        ) by {
            assert(slide_state(h, &ready.page_alloc, pages@, td, d, marked, pos));
        }
    }
    match moved {
        Ok(addr) => Ok((to_page_idx, addr)),
        Err(trap) => Err(trap),
    }
}

/// What holds when the next object is about to be moved to `d` in page
/// `td`, into which it fits.
pub open spec fn relocating<P: PageAlloc>(
    h: Heap,
    page_alloc: &P,
    pages: Seq<P::Page>,
    td: int,
    d: int,
    marked: Set<int>,
    pos: int,
    p: int,
) -> bool {
    &&& slide_state(h, page_alloc, pages, td, d, marked, pos)
    &&& next_obj(marked, pos, p)
    &&& !no_room(h, page_alloc, pages, td, d, p)
    &&& move_ready(h, page_alloc, d, p)
}

/// What a compaction leaves of a space: a well-formed space whose pages are
/// the first of the pages that it had, in the order of their addresses.  The
/// pages that it no longer needs went back to the allocator.
pub open spec fn compacted<P: PageAlloc>(before: &Space<P>, after: &Space<P>) -> bool {
    &&& after.wf()
    &&& same_config(&before.page_alloc, &after.page_alloc)
    &&& after.total_alloc == before.total_alloc
    &&& after.pages@.len() <= before.pages@.len()
    &&& Space::<P>::ascending(after.pages@)
    &&& forall|k: int|
        0 <= k < after.pages@.len() ==> Space::<P>::among(
            before.pages@,
            before.pages@.len() as int,
            #[trigger] after.pages@[k],
        )
    &&& forall|s: int| #[trigger]
        after.page_alloc.live().contains(s) ==> before.page_alloc.live().contains(s)
    &&& exists|sorted: Seq<P::Page>| #[trigger]
        sorted_of(before, sorted) && after.pages@ == sorted.take(after.pages@.len() as int)
}

/// The second pass of the compaction.  Walks the marked objects of the
/// space in the order of their addresses, and for each of them
///
/// - unthreads it: the mark pass threaded all pointers from roots and from
///   higher addresses to it, and the objects that were moved before it
///   threaded theirs, so every pointer to the object gets its new address;
///
/// - moves it to the lowest free address, closing the rest of a page into
///   which it does not fit with a filler;
///
/// - threads the pointers in it that point forwards.
///
/// At the end the space keeps the pages up to the one that holds the last
/// moved object.
///
/// On a heap as the mark phase of a well-formed heap leaves it this
/// succeeds, and the space then holds a copy of the part of the heap that
/// the roots reach: every marked object was moved, and the root boxes, the
/// continuation table and the moved objects point to where the objects are.
#[verifier::rlimit(100)]
pub fn update_refs<P: PageAlloc>(space: &mut Space<P>) -> (r: Result<(), Trap>)
    requires
        old(space).wf(),
    ensures
        final(space).wf(),
        same_config(&old(space).page_alloc, &final(space).page_alloc),
        r is Ok ==> compacted(old(space), final(space)),
        forall|h: Heap|
            #![trigger update_ready(h, old(space))]
            update_ready(h, old(space)) ==> r is Ok && compacted_heap(h, final(space)),
{
    let pages = space.sorted_pages();
    let page_size: usize = space.page_alloc.page_size_bytes();
    proof {
        space.page_alloc.lemma_page_size();
        assert forall|k: int| 0 <= k < pages@.len() implies space.page_alloc.is_live(
            #[trigger] pages@[k],
        ) by {
            assert(Space::<P>::among(space.pages@, space.pages@.len() as int, pages@[k]));
            let m = choose|m: int|
                0 <= m < space.pages@.len() && #[trigger] space.pages@[m] == pages@[k];
            assert(space.page_alloc.is_live(space.pages@[m]));
        }
        space.page_alloc.lemma_live_handle(pages@[0]);
        space.page_alloc.lemma_live_page(P::start_of(pages@[0]));
        assert(sorted_of(old(space), pages@));
    }

    // Next object will be moved to this page
    let mut to_page_idx: usize = 0;

    // Next object will be moved to this address in the page
    let mut to_addr: usize = space.page_alloc.page_contents_start(&pages[0]);

    proof {
        assert forall|h: Heap|
            #![trigger update_ready(h, old(space))]
            update_ready(h, old(space)) implies scan_state(
            h,
            &space.page_alloc,
            pages@,
            0,
            to_addr as int,
            marks_of(h, &old(space).page_alloc),
            page_scan::<P>(pages@, 0),
        ) by {
            lemma_update_start(h, old(space), pages@);
        }
    }
    let mut page_idx: usize = 0;
    while page_idx < pages.len()
        invariant
            update_frame(old(space), space),
            same_bitmaps(&old(space).page_alloc, &space.page_alloc),
            sorted_of(old(space), pages@),
            page_size == space.page_alloc.page_size(),
            PAGE_HEADER_SIZE < page_size,
            page_size % 4 == 0,
            pages@.len() == old(space).pages@.len(),
            page_idx <= pages@.len(),
            forall|k: int| 0 <= k < pages@.len() ==> old(space).page_alloc.is_live(#[trigger] pages@[k]),
            to_page_idx < pages@.len(),
            P::start_of(pages@[to_page_idx as int]) + PAGE_HEADER_SIZE <= to_addr <= P::start_of(
                pages@[to_page_idx as int],
            ) + page_size,
            to_addr % 4 == 0,
            forall|h: Heap|
                #![trigger update_ready(h, old(space))]
                update_ready(h, old(space)) ==> scan_state(
                    h,
                    &space.page_alloc,
                    pages@,
                    to_page_idx as int,
                    to_addr as int,
                    marks_of(h, &old(space).page_alloc),
                    page_scan::<P>(pages@, page_idx as int),
                ),
        decreases pages@.len() - page_idx,
    {
        let page = pages[page_idx];
        proof {
            space.page_alloc.lemma_live_handle(page);
            space.page_alloc.lemma_live_page(P::start_of(page));
            assert forall|h: Heap|
                #![trigger update_ready(h, old(space))]
                update_ready(h, old(space)) implies space.page_alloc.bitmap(P::start_of(page))
                is Some by {
                lemma_page_bits(h, old(space), pages@, page_idx as int);
            }
        }
        let page_start: usize = space.page_alloc.page_start(&page);
        let contents_start: usize = space.page_alloc.page_contents_start(&page);

        let ghost outer = *space;
        let bitmap = match space.page_alloc.take_bitmap(page_start) {
            Some(bitmap) => bitmap,
            None => {
                return Err(Trap::InvalidObject);
            },
        };
        let mut bitmap_iter = bitmap.iter();
        let mut bit: u32 = bitmap_iter.next();
        proof {
            assert forall|h: Heap|
                #![trigger update_ready(h, old(space))]
                update_ready(h, old(space)) implies scan_state(
                h,
                &space.page_alloc,
                pages@,
                to_page_idx as int,
                to_addr as int,
                marks_of(h, &old(space).page_alloc),
                contents_start + 4 * (if bit != BITMAP_ITER_END {
                    bit as int
                } else {
                    bitmap@.len() as int
                }),
            ) by {
                let hi = if bit != BITMAP_ITER_END {
                    bit as int
                } else {
                    bitmap@.len() as int
                };
                let marked = marks_of(h, &old(space).page_alloc);
                lemma_scan_kept(
                    h,
                    &outer.page_alloc,
                    &space.page_alloc,
                    pages@,
                    to_page_idx as int,
                    to_addr as int,
                    marked,
                    page_scan::<P>(pages@, page_idx as int),
                );
                lemma_scan_to(
                    h,
                    old(space),
                    &space.page_alloc,
                    pages@,
                    to_page_idx as int,
                    to_addr as int,
                    page_idx as int,
                    0,
                    hi,
                );
            }
        }

        while bit != BITMAP_ITER_END
            invariant
                update_frame(old(space), space),
                sorted_of(old(space), pages@),
                page_size == space.page_alloc.page_size(),
                pages@.len() == old(space).pages@.len(),
                page_idx < pages@.len(),
                page == pages@[page_idx as int],
                forall|k: int|
                    0 <= k < pages@.len() ==> old(space).page_alloc.is_live(#[trigger] pages@[k]),
                to_page_idx < pages@.len(),
                P::start_of(pages@[to_page_idx as int]) + PAGE_HEADER_SIZE <= to_addr
                    <= P::start_of(pages@[to_page_idx as int]) + page_size,
                to_addr % 4 == 0,
                page_start == P::start_of(page),
                contents_start == page_start + PAGE_HEADER_SIZE,
                page_start + page_size <= 0xffff_ffff,
                page_start % 4 == 0,
                PAGE_HEADER_SIZE < page_size,
                page_size % 4 == 0,
                old(space).page_alloc.live().contains(page_start as int),
                old(space).page_alloc.bitmap(page_start as int) == Some(bitmap),
                forall|s: int|
                    s != page_start ==> #[trigger] space.page_alloc.bitmap(s) == old(
                        space,
                    ).page_alloc.bitmap(s),
                bitmap_iter.bits() == bitmap@,
                bitmap_iter.pos() <= bitmap@.len(),
                bit != BITMAP_ITER_END ==> bit < bitmap@.len() && bitmap_iter.pos() == bit + 1
                    && bitmap@[bit as int],
                forall|h: Heap|
                    #![trigger update_ready(h, old(space))]
                    update_ready(h, old(space)) ==> scan_state(
                        h,
                        &space.page_alloc,
                        pages@,
                        to_page_idx as int,
                        to_addr as int,
                        marks_of(h, &old(space).page_alloc),
                        contents_start + 4 * (if bit != BITMAP_ITER_END {
                            bit as int
                        } else {
                            bitmap@.len() as int
                        }),
                    ),
            decreases
                bitmap@.len() - bitmap_iter.pos() + (if bit != BITMAP_ITER_END {
                    1int
                } else {
                    0int
                }),
        {
            let ghost before = *space;
            let ghost ti = to_page_idx as int;
            let ghost ta = to_addr as int;
            proof {
                assert forall|h: Heap|
                    #![trigger update_ready(h, old(space))]
                    update_ready(h, old(space)) implies visiting(
                    h,
                    old(space),
                    &before.page_alloc,
                    pages@,
                    ti,
                    ta,
                    contents_start + 4 * bit,
                ) && bit < (page_size - PAGE_HEADER_SIZE) / 4 by {
                    lemma_scan_bit(
                        h,
                        old(space),
                        &before.page_alloc,
                        pages@,
                        ti,
                        ta,
                        page_idx as int,
                        bit as int,
                    );
                }
            }
            if bit as usize >= (page_size - PAGE_HEADER_SIZE) / 4 {
                return Err(Trap::InvalidObject);
            }
            let p: usize = contents_start + bit as usize * 4;
            proof {
                space.page_alloc.lemma_page_mapped(page_start as int, p as int);
            }
            let moved = relocate(space, &pages, to_page_idx, to_addr, p);
            proof {
                assert forall|h: Heap|
                    #![trigger update_ready(h, old(space))]
                    update_ready(h, old(space)) implies moved is Ok && scan_state(
                    h,
                    &space.page_alloc,
                    pages@,
                    moved->Ok_0.0 as int,
                    moved->Ok_0.1 as int,
                    marks_of(h, &old(space).page_alloc),
                    p + 4,
                ) by {
                    assert(visiting(h, old(space), &before.page_alloc, pages@, ti, ta, p as int));
                    lemma_scan_moved(
                        h,
                        &space.page_alloc,
                        pages@,
                        moved->Ok_0.0 as int,
                        moved->Ok_0.1 as int,
                        marks_of(h, &old(space).page_alloc),
                        p as int,
                    );
                }
            }
            match moved {
                Ok((idx, addr)) => {
                    to_page_idx = idx;
                    to_addr = addr;
                },
                Err(trap) => {
                    return Err(trap);
                },
            }
            let ghost lo = bit + 1;
            bit = bitmap_iter.next();
            proof {
                assert forall|h: Heap|
                    #![trigger update_ready(h, old(space))]
                    update_ready(h, old(space)) implies scan_state(
                    h,
                    &space.page_alloc,
                    pages@,
                    to_page_idx as int,
                    to_addr as int,
                    marks_of(h, &old(space).page_alloc),
                    contents_start + 4 * (if bit != BITMAP_ITER_END {
                        bit as int
                    } else {
                        bitmap@.len() as int
                    }),
                ) by {
                    let hi = if bit != BITMAP_ITER_END {
                        bit as int
                    } else {
                        bitmap@.len() as int
                    };
                    lemma_scan_to(
                        h,
                        old(space),
                        &space.page_alloc,
                        pages@,
                        to_page_idx as int,
                        to_addr as int,
                        page_idx as int,
                        lo as int,
                        hi,
                    );
                }
            }
        }
        let ghost inner = *space;
        space.page_alloc.set_bitmap(page_start, Some(bitmap));
        proof {
            assert forall|h: Heap|
                #![trigger update_ready(h, old(space))]
                update_ready(h, old(space)) implies scan_state(
                h,
                &space.page_alloc,
                pages@,
                to_page_idx as int,
                to_addr as int,
                marks_of(h, &old(space).page_alloc),
                page_scan::<P>(pages@, page_idx + 1),
            ) by {
                let marked = marks_of(h, &old(space).page_alloc);
                lemma_page_bits(h, old(space), pages@, page_idx as int);
                lemma_scan_kept(
                    h,
                    &inner.page_alloc,
                    &space.page_alloc,
                    pages@,
                    to_page_idx as int,
                    to_addr as int,
                    marked,
                    contents_start + 4 * bitmap@.len(),
                );
                lemma_scan_gap(
                    h,
                    old(space),
                    &space.page_alloc,
                    pages@,
                    to_page_idx as int,
                    to_addr as int,
                    page_idx as int,
                );
            }
        }
        page_idx = page_idx + 1;
    }
    proof {
        lemma_page_holding::<P>(pages@, page_size as int, to_addr as int, 0, to_page_idx as int);
    }
    let ghost before = *space;
    space.set_pages(pages, to_addr);
    proof {
        assert forall|k: int| 0 <= k < space.pages@.len() implies Space::<P>::among(
            old(space).pages@,
            old(space).pages@.len() as int,
            #[trigger] space.pages@[k],
        ) by {
            assert(space.pages@[k] == pages@[k]);
        }
        assert forall|k1: int, k2: int| 0 <= k1 < k2 < space.pages@.len() implies P::start_of(
            #[trigger] space.pages@[k1],
        ) < P::start_of(#[trigger] space.pages@[k2]) by {
            assert(space.pages@[k1] == pages@[k1]);
            assert(space.pages@[k2] == pages@[k2]);
        }
        assert forall|h: Heap|
            #![trigger update_ready(h, old(space))]
            update_ready(h, old(space)) implies compacted_heap(h, space) by {
            assert(pages_ok(&before.page_alloc, pages@));
            lemma_ready_marks(h, old(space));
            lemma_holding_page(&before.page_alloc, pages@, to_page_idx as int, to_addr as int, 0);
            lemma_compacted(
                h,
                &before.page_alloc,
                pages@,
                to_page_idx as int,
                to_addr as int,
                marks_of(h, &old(space).page_alloc),
                space,
            );
        }
    }
    Ok(())
}

/// What holds before the marked object at `p` is moved: it is the marked
/// object at the lowest address that was not moved.
pub open spec fn visiting<P: PageAlloc>(
    h: Heap,
    space: &Space<P>,
    page_alloc: &P,
    pages: Seq<P::Page>,
    ti: int,
    to_addr: int,
    p: int,
) -> bool {
    let marked = marks_of(h, &space.page_alloc);
    let pos = the_pos(h, page_alloc, pages, ti, to_addr, marked, p);
    &&& slide_state(h, page_alloc, pages, ti, to_addr, marked, pos)
    &&& next_obj(marked, pos, p)
}

/// Whether the collection is called on the heap `h` in the space: the heap
/// can be compacted, and the roots and the continuation table that are
/// handed over are those of the heap.
pub open spec fn compacting<P: PageAlloc>(
    h: Heap,
    space: &Space<P>,
    static_roots: Value,
    continuation_table_ptr_loc: usize,
) -> bool {
    &&& compact_start(h, space)
    &&& static_roots.spec_get_ptr() == h.roots
    &&& continuation_table_ptr_loc == h.table
}

/// Marks what is reachable from the static roots and from the continuation
/// table, and compacts the space.
///
/// On a heap of well-formed objects and roots the collection succeeds, and
/// the space then holds a copy of the part of the heap that the roots reach:
/// every object that a root box, the continuation table or a moved object
/// points to was moved; where it is now it has the tag, the size and the
/// words that it had, but for the pointer fields; and they, the fields of
/// the root boxes and the continuation table point to where the objects are
/// now.  The objects that were kept are exactly the reachable ones.  They
/// were moved down, in the order of their addresses, and are packed: the
/// first lies at the start of the contents area of the first page, each
/// other one right behind the one before it, or, where it did not fit into
/// the rest of that page, at the start of the contents area of the next
/// page, behind a filler that closes the page.  The allocation pointer
/// stands behind the last object, and the space keeps the pages up to
/// there.
#[verifier::rlimit(100)]
pub fn mark_compact<P: PageAlloc>(
    space: &mut Space<P>,
    static_roots: Value,
    continuation_table_ptr_loc: usize,
) -> (r: Result<(), Trap>)
    requires
        old(space).wf(),
    ensures
        final(space).wf(),
        same_config(&old(space).page_alloc, &final(space).page_alloc),
        r is Ok ==> compacted(old(space), final(space)),
        r is Ok ==> forall|i: int|
            0 <= i < final(space).pages@.len() ==> final(space).page_alloc.bitmap(
                P::start_of(#[trigger] final(space).pages@[i]),
            ) is None,
        forall|h: Heap|
            #![trigger compacting(h, old(space), static_roots, continuation_table_ptr_loc)]
            compacting(h, old(space), static_roots, continuation_table_ptr_loc) ==> r is Ok
                && compacted_heap(h, final(space)),
{
    let page_size: usize = space.page_alloc.page_size_bytes();
    proof {
        space.page_alloc.lemma_page_size();
    }
    // Allocate bitmaps
    let mut i: usize = 0;
    while i < space.pages.len()
        invariant
            update_frame(old(space), space),
            page_size == space.page_alloc.page_size(),
            page_size < 0x1_0000_0000,
            space.page_alloc.words() == old(space).page_alloc.words(),
            i <= space.pages@.len(),
            forall|k: int|
                0 <= k < i ==> match space.page_alloc.bitmap(#[trigger] space.start(k)) {
                    Some(b) => b@.len() == page_size / 4 && forall|j: int|
                        0 <= j < b@.len() ==> !b@[j],
                    None => false,
                },
        decreases space.pages@.len() - i,
    {
        let page = space.pages[i];
        proof {
            space.page_alloc.lemma_live_handle(page);
        }
        let start: usize = space.page_alloc.page_start(&page);
        let ghost before = *space;
        space.page_alloc.set_bitmap(start, Some(Bitmap::new((page_size / 4) as u32)));
        proof {
            assert forall|k: int| 0 <= k < i + 1 implies match space.page_alloc.bitmap(
                #[trigger] space.start(k),
            ) {
                Some(b) => b@.len() == page_size / 4 && forall|j: int|
                    0 <= j < b@.len() ==> !b@[j],
                None => false,
            } by {
                if k < i {
                    assert(space.start(k) != space.start(i as int));
                    assert(space.page_alloc.bitmap(space.start(k)) == before.page_alloc.bitmap(
                        before.start(k),
                    ));
                }
            }
        }
        i = i + 1;
    }
    if !MarkStack::can_create(&space.page_alloc) {
        return Err(Trap::OutOfMemory);
    }
    let ghost with_bitmaps = *space;
    let mut stack = MarkStack::new(&mut space.page_alloc);
    proof {
        let ps = page_size as int;
        assert forall|k: int| 0 <= k < space.pages@.len() implies space.page_alloc.is_live(
            #[trigger] space.pages@[k],
        ) && !stack.owns_addr(ps, P::start_of(space.pages@[k])) by {
            let p = space.pages@[k];
            with_bitmaps.page_alloc.lemma_live_handle(p);
            with_bitmaps.page_alloc.lemma_live_page(P::start_of(p));
            with_bitmaps.page_alloc.lemma_page_mapped(P::start_of(p), P::start_of(p));
        }
        assert(mark_inv(space, &stack));
        assert(fresh_bitmaps(space)) by {
            assert forall|k: int| 0 <= k < space.pages@.len() implies match space.page_alloc.bitmap(
                #[trigger] space.start(k),
            ) {
                Some(b) => b@.len() == space.page_alloc.page_size() / 4 && forall|j: int|
                    0 <= j < b@.len() ==> !b@[j],
                None => false,
            } by {
                with_bitmaps.page_alloc.lemma_live_handle(space.pages@[k]);
                assert(with_bitmaps.page_alloc.bitmap(with_bitmaps.start(k)) is Some);
            }
        }
        assert forall|h: Heap|
            #![trigger compacting(h, old(space), static_roots, continuation_table_ptr_loc)]
            compacting(
                h,
                old(space),
                static_roots,
                continuation_table_ptr_loc,
            ) implies marking_state(h, space, &stack, None, 0) by {
            lemma_mark_start(h, old(space), space, &stack);
        }
    }
    let ghost marking = *space;
    let ghost stack_before = stack;

    match mark_static_roots(space, &mut stack, static_roots) {
        Ok(()) => {},
        Err(trap) => {
            return Err(trap);
        },
    }
    let ghost rooted = *space;
    let ghost rooted_stack = stack;
    proof {
        assert forall|h: Heap|
            #![trigger compacting(h, old(space), static_roots, continuation_table_ptr_loc)]
            compacting(
                h,
                old(space),
                static_roots,
                continuation_table_ptr_loc,
            ) implies field_visit(
            h,
            &rooted,
            &rooted_stack,
            None,
            h.w0[h.roots + 4] as int,
            Spot::Static(h.w0[h.roots + 4] as int),
            continuation_table_ptr_loc as int,
        ) by {
            assert(marking_state(h, &marking, &stack_before, None, 0));
            lemma_spot_read(
                h,
                &rooted,
                &rooted_stack,
                None,
                h.w0[h.roots + 4] as int,
                Spot::Static(h.w0[h.roots + 4] as int),
            );
        }
    }
    let table: u32 = match load(&space.page_alloc, continuation_table_ptr_loc) {
        Ok(table) => table,
        Err(trap) => {
            return Err(trap);
        },
    };
    let mut visited: Result<(), Trap> = Ok(());
    if Value::from_raw(table).is_ptr() {
        visited = mark_root_field(space, &mut stack, continuation_table_ptr_loc);
    }
    proof {
        assert forall|h: Heap|
            #![trigger compacting(h, old(space), static_roots, continuation_table_ptr_loc)]
            compacting(
                h,
                old(space),
                static_roots,
                continuation_table_ptr_loc,
            ) implies visited is Ok && marking_state(h, space, &stack, None, static_count(h)) by {
            let n = h.w0[h.roots + 4] as int;
            assert(field_visit(
                h,
                &rooted,
                &rooted_stack,
                None,
                n,
                Spot::Static(n),
                continuation_table_ptr_loc as int,
            ));
            if !Value(table).spec_is_ptr() {
                lemma_state_plain(h, &rooted, &rooted_stack, None, n, Spot::Static(n));
            }
        }
    }
    match visited {
        Ok(()) => {},
        Err(trap) => {
            return Err(trap);
        },
    }
    match mark_stack(space, &mut stack) {
        Ok(()) => {},
        Err(trap) => {
            return Err(trap);
        },
    }
    let ghost marked = *space;
    let ghost marked_stack = stack;
    stack.free(&mut space.page_alloc);
    proof {
        assert forall|k: int| 0 <= k < space.pages@.len() implies space.page_alloc.is_live(
            #[trigger] space.pages@[k],
        ) by {
            assert(marked.page_alloc.is_live(marked.pages@[k]));
        }
        let cur = space.current_page as int;
        space.page_alloc.lemma_live_handle(space.pages@[cur]);
        assert(space.wf());
        assert forall|h: Heap|
            #![trigger compacting(h, old(space), static_roots, continuation_table_ptr_loc)]
            compacting(
                h,
                old(space),
                static_roots,
                continuation_table_ptr_loc,
            ) implies update_ready(h, space) by {
            lemma_mark_finish(h, &marked, &marked_stack, space);
        }
    }
    let ghost freed = *space;

    match update_refs(space) {
        Ok(()) => {},
        Err(trap) => {
            return Err(trap);
        },
    }
    let ghost updated = *space;

    // Free bitmaps
    let mut i: usize = 0;
    while i < space.pages.len()
        invariant
            update_frame(&updated, space),
            space.page_alloc.words() == updated.page_alloc.words(),
            forall|k: int|
                0 <= k < i ==> space.page_alloc.bitmap(P::start_of(#[trigger] space.pages@[k]))
                    is None,
        decreases space.pages@.len() - i,
    {
        let page = space.pages[i];
        proof {
            space.page_alloc.lemma_live_handle(page);
        }
        let start: usize = space.page_alloc.page_start(&page);
        match space.page_alloc.take_bitmap(start) {
            Some(bitmap) => {
                bitmap.free();
            },
            None => {},
        }
        i = i + 1;
    }
    proof {
        assert forall|s: int| #[trigger]
            space.page_alloc.live().contains(s) implies old(space).page_alloc.live().contains(
            s,
        ) by {
            assert(updated.page_alloc.live().contains(s));
            assert(freed.page_alloc.live().contains(s));
            assert(marked.page_alloc.live().contains(s));
            if !with_bitmaps.page_alloc.live().contains(s) {
                assert(marked_stack.is_chunk(s));
                let k = choose|k: int|
                    0 <= k < marked_stack.chunks@.len() && #[trigger] marked_stack.start(k) == s;
                assert(!freed.page_alloc.live().contains(marked_stack.start(k)));
            }
        }
        let sorted = choose|sorted: Seq<P::Page>| #[trigger]
            sorted_of(&freed, sorted) && updated.pages@ == sorted.take(
                updated.pages@.len() as int,
            );
        assert(sorted_of(old(space), sorted) && space.pages@ == sorted.take(
            space.pages@.len() as int,
        ));
        assert forall|h: Heap|
            #![trigger compacting(h, old(space), static_roots, continuation_table_ptr_loc)]
            compacting(
                h,
                old(space),
                static_roots,
                continuation_table_ptr_loc,
            ) implies compacted_heap(h, space) by {
            assert(update_ready(h, &freed));
            lemma_bitmaps_freed(h, &updated, space);
        }
    }
    Ok(())
}

/// Collects the space by marking and compacting it in place.
///
/// On a heap of well-formed objects and roots the collection succeeds and
/// leaves a copy of the part of the heap that the roots reach.
pub fn compacting_gc_internal<P: PageAlloc>(
    space: &mut Space<P>,
    static_roots: Value,
    continuation_table_ptr_loc: usize,
) -> (r: Result<(), Trap>)
    requires
        old(space).wf(),
    ensures
        final(space).wf(),
        same_config(&old(space).page_alloc, &final(space).page_alloc),
        r is Ok ==> compacted(old(space), final(space)),
        r is Ok ==> forall|i: int|
            0 <= i < final(space).pages@.len() ==> final(space).page_alloc.bitmap(
                P::start_of(#[trigger] final(space).pages@[i]),
            ) is None,
        forall|h: Heap|
            #![trigger compacting(h, old(space), static_roots, continuation_table_ptr_loc)]
            compacting(h, old(space), static_roots, continuation_table_ptr_loc) ==> r is Ok
                && compacted_heap(h, final(space)),
{
    mark_compact(space, static_roots, continuation_table_ptr_loc)
}

/// Space that is kept free for the mark stack and for the allocation of the
/// next message, in bytes: 512 MiB.
pub const COMPACTING_SLACK: u64 = 0x2000_0000;

/// The bound on the allocation of a space from which on a compaction is
/// due: the address space less the slack and less the largest size that the
/// bitmaps can have, a thirty-second of the address space.
pub fn compacting_max_live() -> (max_live: Bytes<u64>)
    ensures
        max_live.0 == 0x1_0000_0000int - COMPACTING_SLACK - 0x1_0000_0000int / 32,
        max_live.0 == 3623878656,
{
    assert(WASM_HEAP_SIZE * WORD_SIZE == 0x1_0000_0000) by (nonlinear_arith)
        requires
            WASM_HEAP_SIZE == 0x4000_0000,
            WORD_SIZE == 4,
    ;
    let heap_size_bytes: u64 = WASM_HEAP_SIZE as u64 * WORD_SIZE as u64;
    // Larger than necessary to keep things simple
    let max_bitmap_size_bytes: u64 = heap_size_bytes / 32;
    Bytes(heap_size_bytes - COMPACTING_SLACK - max_bitmap_size_bytes)
}

/// Runs a compaction if one is due.
pub fn schedule_compacting_gc<P: PageAlloc>(
    space: &mut Space<P>,
    static_roots: Value,
    continuation_table_ptr_loc: usize,
) -> (r: Result<(), Trap>)
    requires
        old(space).wf(),
    ensures
        final(space).wf(),
        old(space).total_alloc < 3623878656 ==> r is Ok && *final(space) == *old(space),
        old(space).total_alloc >= 3623878656 && r is Ok ==> compacted(old(space), final(space)),
        forall|h: Heap|
            #![trigger compacting(h, old(space), static_roots, continuation_table_ptr_loc)]
            old(space).total_alloc >= 3623878656 && compacting(
                h,
                old(space),
                static_roots,
                continuation_table_ptr_loc,
            ) ==> r is Ok && compacted_heap(h, final(space)),
{
    if should_do_gc(space, compacting_max_live()) {
        compacting_gc(space, static_roots, continuation_table_ptr_loc)
    } else {
        Ok(())
    }
}

/// Runs a compaction.
///
/// On a heap of well-formed objects and roots the collection succeeds and
/// leaves a copy of the part of the heap that the roots reach.
pub fn compacting_gc<P: PageAlloc>(
    space: &mut Space<P>,
    static_roots: Value,
    continuation_table_ptr_loc: usize,
) -> (r: Result<(), Trap>)
    requires
        old(space).wf(),
    ensures
        final(space).wf(),
        same_config(&old(space).page_alloc, &final(space).page_alloc),
        r is Ok ==> compacted(old(space), final(space)),
        forall|h: Heap|
            #![trigger compacting(h, old(space), static_roots, continuation_table_ptr_loc)]
            compacting(h, old(space), static_roots, continuation_table_ptr_loc) ==> r is Ok
                && compacted_heap(h, final(space)),
{
    compacting_gc_internal(space, static_roots, continuation_table_ptr_loc)
}

} // verus!
