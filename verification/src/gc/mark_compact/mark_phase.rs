//! The mark phase of a compaction on a space: how the bitmaps, the mark
//! stack and the memory of the allocator stand for the state of the model.
use vstd::prelude::*;
use crate::gc::copying::wellformed::{
    frame_of, is_field_word, root_box, root_frame, size0,
};
use crate::gc::mark_compact::mark_stack::MarkStack;
use crate::gc::mark_compact::marking::{
    advance, advance_threaded, backward, chain_state, count, first, frame_kept, heap_ok,
    lemma_begin_object, lemma_done_step, lemma_reach_step, reachable, lemma_end_object, lemma_spots_apart, lemma_target,
    lemma_visit_plain, lemma_visit_thread, marking, obj_ok, points, spot_addr, spot_ok,
    spot_state, spot_target, spot_value, static_addr, static_count, static_ok, Heap, Marks, Spot,
};
use crate::gc::mark_compact::threading::{chained, lemma_chain_frame, link};
use crate::gc::mark_compact::{bit_index, lemma_page_containing_stable, mark_inv, threaded};
use crate::page_alloc::{
    same_bitmaps, same_config, same_pages, PageAlloc, WordMemory, PAGE_HEADER_SIZE,
};
use crate::space::Space;
use crate::object::{
    length_offset, length_word, spec_object_size_, spec_pointer_fields, Trap,
};
use crate::types::{Tag, Value, Words, TAG_ARRAY, TAG_MUTBOX};

verus! {

/// Whether the words from `a` on lie in the contents area of the page at
/// position `i` of the space.
pub open spec fn in_contents<P: PageAlloc>(space: &Space<P>, i: int, a: int, s: int) -> bool {
    &&& 0 <= i < space.pages@.len()
    &&& space.start(i) + PAGE_HEADER_SIZE <= a
    &&& a + 4 * s <= space.start(i) + space.page_alloc.page_size()
}

/// Whether the object at `a` lies in the contents area of a page of the
/// space.
pub open spec fn placed<P: PageAlloc>(h: Heap, space: &Space<P>, a: int) -> bool {
    exists|i: int| #[trigger] in_contents(space, i, a, size0(h.w0, a))
}

/// Whether the page at position `i` of the space has a bitmap with a bit
/// for each of its words.
pub open spec fn page_ready<P: PageAlloc>(space: &Space<P>, i: int) -> bool {
    match space.page_alloc.bitmap(space.start(i)) {
        Some(b) => b@.len() == space.page_alloc.page_size() / 4,
        None => false,
    }
}

/// Whether bit `k` of the bitmap of the page at position `i` is set.
pub open spec fn bit_of<P: PageAlloc>(space: &Space<P>, i: int, k: int) -> bool {
    match space.page_alloc.bitmap(space.start(i)) {
        Some(b) => 0 <= k < b@.len() && b@[k],
        None => false,
    }
}

/// Whether the bit of the word at `a` is set in the bitmap of its page.
pub open spec fn marked_bit<P: PageAlloc>(page_alloc: &P, a: int) -> bool {
    match page_alloc.bitmap(page_alloc.page_containing(a)) {
        Some(b) => 0 <= bit_index(page_alloc, a) < b@.len() && b@[bit_index(page_alloc, a)],
        None => false,
    }
}

/// The array of roots, the root boxes and the continuation table are
/// static, and the array holds boxes.
pub open spec fn statics_in<P: PageAlloc>(h: Heap, page_alloc: &P) -> bool {
    &&& h.w0[h.roots] == TAG_ARRAY
    &&& forall|x: int| #[trigger] root_frame(h.w0, h.roots, x) ==> page_alloc.is_static(x)
    &&& forall|i: int|
        0 <= i < h.w0[h.roots + 4] ==> h.w0[#[trigger] root_box(h.w0, h.roots, i)] == TAG_MUTBOX
    &&& forall|i: int| 0 <= i < static_count(h) ==> page_alloc.is_static(#[trigger] static_addr(h, i))
}

/// The entries of the stack are the objects of the model with their tags.
pub open spec fn stack_is(h: Heap, entries: Seq<(usize, Tag)>, stack: Seq<int>) -> bool {
    &&& entries.len() == stack.len()
    &&& forall|j: int|
        0 <= j < stack.len() ==> #[trigger] entries[j] == (stack[j] as usize, h.w0[stack[j]])
}

/// The space and the stack stand for the state `m` of the mark phase: the
/// objects lie in pages of the space, which have bitmaps; the bits that are
/// set are those of the marked objects; the stack holds the objects of the
/// model; and the allocator has a page left for each object that is not
/// marked.
pub open spec fn linked<P: PageAlloc>(
    h: Heap,
    space: &Space<P>,
    stack: &MarkStack<P>,
    m: Marks,
) -> bool {
    let pa = &space.page_alloc;
    &&& mark_inv(space, stack)
    &&& forall|i: int| 0 <= i < space.pages@.len() ==> #[trigger] page_ready(space, i)
    &&& forall|a: int| #[trigger] h.objs.contains(a) ==> placed(h, space, a)
    &&& forall|a: int| #[trigger] h.objs.contains(a) ==> m.marked.contains(a) == marked_bit(pa, a)
    &&& forall|i: int, k: int|
        0 <= i < space.pages@.len() && #[trigger] bit_of(space, i, k) ==> h.objs.contains(
            space.start(i) + PAGE_HEADER_SIZE + 4 * k,
        )
    &&& stack_is(h, stack@, m.stack)
    &&& statics_in(h, pa)
    &&& pa.remaining() >= h.objs.difference(m.marked).len()
}

/// The state of the mark phase on a space: some state of the model that
/// the space and the stack stand for, in which the fields of the object
/// `cur` are being visited and `nd` static places were visited.
pub open spec fn marking_state<P: PageAlloc>(
    h: Heap,
    space: &Space<P>,
    stack: &MarkStack<P>,
    cur: Option<(int, int)>,
    nd: int,
) -> bool {
    exists|m: Marks| #[trigger]
        linked(h, space, stack, m) && marking(h, space.page_alloc.words(), m) && m.cur == cur
            && m.nd == nd
}

/// Where word `k` of an object lies: in a page of the space, outside of
/// the chunks of the stack.
pub proof fn lemma_placed<P: PageAlloc>(
    h: Heap,
    space: &Space<P>,
    stack: &MarkStack<P>,
    m: Marks,
    a: int,
    k: int,
)
    requires
        heap_ok(h),
        linked(h, space, stack, m),
        h.objs.contains(a),
        0 <= k < size0(h.w0, a),
    ensures
        ({
            let pa = &space.page_alloc;
            let x = a + 4 * k;
            let pc = pa.page_containing(a);
            &&& pa.words().dom().contains(x)
            &&& !pa.is_static(x)
            &&& !stack.owns_addr(pa.page_size(), x)
            &&& pa.page_containing(x) == pc
            &&& pa.live().contains(pc)
            &&& exists|i: int| 0 <= i < space.pages@.len() && #[trigger] space.start(i) == pc
            &&& pc + PAGE_HEADER_SIZE <= a
            &&& a + 4 * size0(h.w0, a) <= pc + pa.page_size()
            &&& pa.bitmap(pc) is Some
            &&& pa.bitmap(pc)->Some_0@.len() == pa.page_size() / 4
            &&& 0 <= bit_index(pa, a) < pa.bitmap(pc)->Some_0@.len()
            &&& pc + PAGE_HEADER_SIZE + 4 * bit_index(pa, a) == a
            &&& pc % 4 == 0
            &&& pa.page_size() % 4 == 0
        }),
{
    let pa = &space.page_alloc;
    assert(placed(h, space, a));
    assert(obj_ok(h, a));
    let i = choose|i: int| #[trigger] in_contents(space, i, a, size0(h.w0, a));
    pa.lemma_page_size();
    pa.lemma_live_handle(space.pages@[i]);
    pa.lemma_live_page(space.start(i));
    pa.lemma_page_mapped(space.start(i), a);
    pa.lemma_page_mapped(space.start(i), a + 4 * k);
    assert(page_ready(space, i));
    stack.lemma_not_owned(pa, a + 4 * k);
    assert(space.start(i) == pa.page_containing(a));
}

/// A static place lies in static memory, outside of the chunks of the
/// stack.
pub proof fn lemma_static_place<P: PageAlloc>(
    h: Heap,
    space: &Space<P>,
    stack: &MarkStack<P>,
    m: Marks,
    i: int,
)
    requires
        linked(h, space, stack, m),
        marking(h, space.page_alloc.words(), m),
        0 <= i < static_count(h),
    ensures
        ({
            let pa = &space.page_alloc;
            let x = static_addr(h, i);
            &&& pa.words().dom().contains(x)
            &&& pa.is_static(x)
            &&& !stack.owns_addr(pa.page_size(), x)
            &&& x % 4 == 0
            &&& 0 <= x <= 0xffff_fffb
        }),
{
    let pa = &space.page_alloc;
    assert(static_ok(h, i));
    assert(spot_ok(h, Spot::Static(i)));
    assert(spot_state(h, pa.words(), m, Spot::Static(i)));
    stack.lemma_not_owned(pa, static_addr(h, i));
}

/// The words of the heap lie outside of the chunks of the stack: the
/// places, the headers of the objects, the array of roots and the headers
/// of the root boxes.
pub open spec fn heap_words_kept(h: Heap, w: Map<int, u32>, w2: Map<int, u32>) -> bool {
    &&& forall|s: Spot| #[trigger]
        spot_ok(h, s) ==> w2.dom().contains(spot_addr(h, s)) && w2[spot_addr(h, s)] == w[spot_addr(
            h,
            s,
        )]
    &&& forall|a: int| #[trigger] h.objs.contains(a) ==> w2.dom().contains(a) && w2[a] == w[a]
    &&& forall|x: int| #[trigger]
        root_frame(h.w0, h.roots, x) ==> w2.dom().contains(x) && w2[x] == w[x]
}

/// The invariant of the model holds in a memory that has the words of the
/// heap.
pub proof fn lemma_marking_frame(h: Heap, w: Map<int, u32>, w2: Map<int, u32>, m: Marks)
    requires
        marking(h, w, m),
        heap_words_kept(h, w, w2),
    ensures
        marking(h, w2, m),
{
    assert forall|s: Spot| #[trigger] spot_ok(h, s) implies spot_state(h, w2, m, s) by {
        assert(spot_state(h, w, m, s));
    }
    assert forall|a: int| #[trigger] h.objs.contains(a) implies chain_state(h, w2, m, a) by {
        assert(chain_state(h, w, m, a));
        let chain = m.chains[a];
        let ad = crate::gc::mark_compact::marking::addrs(h, chain);
        assert forall|i: int| 0 <= i < chain.len() implies w2.dom().contains(#[trigger] ad[i])
            && w2[ad[i]] == w[ad[i]] by {
            assert(crate::gc::mark_compact::marking::on_chain(h, m, a, chain[i]));
            assert(spot_ok(h, chain[i]));
        }
        lemma_chain_frame(w, w2, ad, h.w0[a], chain.len() as int);
    }
}

/// The words of the heap are kept by a change that leaves alone what is
/// mapped outside of the chunks of the stack.
pub proof fn lemma_heap_words_kept<P: PageAlloc>(
    h: Heap,
    space: &Space<P>,
    stack: &MarkStack<P>,
    m: Marks,
    w2: Map<int, u32>,
)
    requires
        linked(h, space, stack, m),
        marking(h, space.page_alloc.words(), m),
        forall|a: int|
            space.page_alloc.words().dom().contains(a) && !stack.owns_addr(
                space.page_alloc.page_size(),
                a,
            ) ==> #[trigger] w2.dom().contains(a) && w2[a] == space.page_alloc.words()[a],
    ensures
        heap_words_kept(h, space.page_alloc.words(), w2),
{
    let pa = &space.page_alloc;
    let w = pa.words();
    assert forall|s: Spot| #[trigger] spot_ok(h, s) implies w2.dom().contains(spot_addr(h, s))
        && w2[spot_addr(h, s)] == w[spot_addr(h, s)] by {
        match s {
            Spot::Static(i) => {
                lemma_static_place(h, space, stack, m, i);
            },
            Spot::Field(b, k) => {
                lemma_placed(h, space, stack, m, b, k);
            },
        }
    }
    assert forall|a: int| #[trigger] h.objs.contains(a) implies w2.dom().contains(a) && w2[a]
        == w[a] by {
        assert(obj_ok(h, a));
        lemma_placed(h, space, stack, m, a, 0);
    }
    assert forall|x: int| #[trigger] root_frame(h.w0, h.roots, x) implies w2.dom().contains(x)
        && w2[x] == w[x] by {
        assert(frame_kept(h, w));
        stack.lemma_not_owned(pa, x);
    }
}

/// The space and the stack stand for a state with the same marks after a
/// change that left the pages and their bitmaps alone.
pub proof fn lemma_linked_kept<P: PageAlloc>(
    h: Heap,
    before: &Space<P>,
    stack_before: &MarkStack<P>,
    after: &Space<P>,
    stack: &MarkStack<P>,
    m: Marks,
    m2: Marks,
)
    requires
        heap_ok(h),
        linked(h, before, stack_before, m),
        mark_inv(after, stack),
        after.pages == before.pages,
        same_config(&before.page_alloc, &after.page_alloc),
        forall|i: int|
            0 <= i < before.pages@.len() ==> after.page_alloc.bitmap(#[trigger] before.start(i))
                == before.page_alloc.bitmap(before.start(i)),
        after.page_alloc.remaining() >= before.page_alloc.remaining(),
        m2.marked == m.marked,
        stack_is(h, stack@, m2.stack),
    ensures
        linked(h, after, stack, m2),
{
    let pa0 = &before.page_alloc;
    let pa = &after.page_alloc;
    assert forall|i: int| 0 <= i < after.pages@.len() implies #[trigger] page_ready(after, i) by {
        assert(page_ready(before, i));
        assert(after.start(i) == before.start(i));
    }
    assert forall|a: int| #[trigger] h.objs.contains(a) implies placed(h, after, a) && (
    m2.marked.contains(a) == marked_bit(pa, a)) by {
        lemma_placed(h, before, stack_before, m, a, 0);
        assert(obj_ok(h, a));
        let i = choose|i: int| #[trigger] in_contents(before, i, a, size0(h.w0, a));
        assert(in_contents(after, i, a, size0(h.w0, a)));
        let j = choose|j: int| 0 <= j < before.pages@.len() && #[trigger] before.start(j)
            == pa0.page_containing(a);
        pa.lemma_live_handle(after.pages@[j]);
        lemma_page_containing_stable(pa0, pa, a);
    }
    assert forall|i: int, k: int|
        0 <= i < after.pages@.len() && #[trigger] bit_of(after, i, k) implies h.objs.contains(
        after.start(i) + PAGE_HEADER_SIZE + 4 * k,
    ) by {
        assert(after.start(i) == before.start(i));
        assert(bit_of(before, i, k));
    }
}

/// The state with one more object marked and pushed.
pub open spec fn mark_new(m: Marks, t: int) -> Marks {
    Marks { marked: m.marked.insert(t), stack: m.stack.push(t), ..m }
}

/// The space and the stack stand for the state with one more marked object
/// after the bit of the object was set and the object was pushed.
#[verifier::rlimit(50)]
pub proof fn lemma_linked_marked<P: PageAlloc>(
    h: Heap,
    before: &Space<P>,
    stack_before: &MarkStack<P>,
    after: &Space<P>,
    stack: &MarkStack<P>,
    m: Marks,
    t: int,
)
    requires
        heap_ok(h),
        linked(h, before, stack_before, m),
        h.objs.contains(t),
        !m.marked.contains(t),
        mark_inv(after, stack),
        after.pages == before.pages,
        same_config(&before.page_alloc, &after.page_alloc),
        before.page_alloc.bitmap(before.page_alloc.page_containing(t)) is Some,
        after.page_alloc.bitmap(before.page_alloc.page_containing(t)) is Some,
        after.page_alloc.bitmap(before.page_alloc.page_containing(t))->Some_0@
            == before.page_alloc.bitmap(before.page_alloc.page_containing(t))->Some_0@.update(
            bit_index(&before.page_alloc, t),
            true,
        ),
        forall|i: int|
            0 <= i < before.pages@.len() && before.start(i) != before.page_alloc.page_containing(t)
                ==> after.page_alloc.bitmap(#[trigger] before.start(i))
                == before.page_alloc.bitmap(before.start(i)),
        stack@ == stack_before@.push((t as usize, h.w0[t])),
        after.page_alloc.remaining() >= before.page_alloc.remaining() - 1,
    ensures
        linked(h, after, stack, mark_new(m, t)),
        marked_bit(&after.page_alloc, t),
{
    let pa0 = &before.page_alloc;
    let pa = &after.page_alloc;
    let m2 = mark_new(m, t);
    let pct = pa0.page_containing(t);
    lemma_placed(h, before, stack_before, m, t, 0);
    assert(obj_ok(h, t));
    assert forall|i: int| 0 <= i < after.pages@.len() implies #[trigger] page_ready(after, i) by {
        assert(page_ready(before, i));
        assert(after.start(i) == before.start(i));
    }
    assert forall|a: int| #[trigger] h.objs.contains(a) implies placed(h, after, a) && (
    m2.marked.contains(a) == marked_bit(pa, a)) by {
        lemma_placed(h, before, stack_before, m, a, 0);
        assert(obj_ok(h, a));
        let i = choose|i: int| #[trigger] in_contents(before, i, a, size0(h.w0, a));
        assert(in_contents(after, i, a, size0(h.w0, a)));
        let j = choose|j: int| 0 <= j < before.pages@.len() && #[trigger] before.start(j)
            == pa0.page_containing(a);
        pa.lemma_live_handle(after.pages@[j]);
        lemma_page_containing_stable(pa0, pa, a);
        assert(m.marked.contains(a) == marked_bit(pa0, a));
    }
    assert forall|i: int, k: int|
        0 <= i < after.pages@.len() && #[trigger] bit_of(after, i, k) implies h.objs.contains(
        after.start(i) + PAGE_HEADER_SIZE + 4 * k,
    ) by {
        assert(after.start(i) == before.start(i));
        if !bit_of(before, i, k) {
            assert(before.start(i) == pct);
            assert(k == bit_index(pa0, t));
        }
    }
    assert(stack_is(h, stack@, m2.stack)) by {
        assert forall|j: int| 0 <= j < m2.stack.len() implies #[trigger] stack@[j] == (
            m2.stack[j] as usize,
            h.w0[m2.stack[j]],
        ) by {
            if j < m.stack.len() {
                assert(stack_before@[j] == (m.stack[j] as usize, h.w0[m.stack[j]]));
            }
        }
    }
    assert(h.objs.difference(m2.marked) =~= h.objs.difference(m.marked).remove(t));
    assert(h.objs.difference(m.marked).contains(t));
    vstd::set_lib::lemma_len_subset(h.objs.difference(m.marked), h.objs);
}

/// What marking the object at `t` does: nothing where the object is
/// marked; else the bit of the object is set and the object is pushed with
/// the word in its header.  The words outside of the stack stay.
pub open spec fn mark_effect<P: PageAlloc>(
    before: &Space<P>,
    stack_before: &MarkStack<P>,
    after: &Space<P>,
    stack: &MarkStack<P>,
    t: int,
) -> bool {
    let pa0 = &before.page_alloc;
    let pa = &after.page_alloc;
    let pc = pa0.page_containing(t);
    let idx = bit_index(pa0, t);
    &&& mark_inv(after, stack)
    &&& after.pages == before.pages
    &&& same_config(pa0, pa)
    &&& forall|a: int|
        pa0.words().dom().contains(a) && !stack_before.owns_addr(pa0.page_size(), a)
            ==> #[trigger] pa.words().dom().contains(a) && pa.words()[a] == pa0.words()[a]
    &&& pa0.bitmap(pc) is Some
    &&& 0 <= idx < pa0.bitmap(pc)->Some_0@.len()
    &&& if pa0.bitmap(pc)->Some_0@[idx] {
        &&& forall|i: int|
            0 <= i < before.pages@.len() ==> pa.bitmap(#[trigger] before.start(i)) == pa0.bitmap(
                before.start(i),
            )
        &&& stack@ == stack_before@
        &&& pa.remaining() >= pa0.remaining()
    } else {
        &&& pa.bitmap(pc) is Some
        &&& pa.bitmap(pc)->Some_0@ == pa0.bitmap(pc)->Some_0@.update(idx, true)
        &&& forall|i: int|
            0 <= i < before.pages@.len() && before.start(i) != pc ==> pa.bitmap(
                #[trigger] before.start(i),
            ) == pa0.bitmap(before.start(i))
        &&& stack@ == stack_before@.push((t as usize, pa0.words()[t]))
        &&& pa.remaining() >= pa0.remaining() - 1
    }
}

/// Whether the object at `t` can be marked: it lies in the contents area
/// of a page with a bitmap, and where it is not marked the stack has room
/// for it.
pub open spec fn mark_ready<P: PageAlloc>(space: &Space<P>, stack: &MarkStack<P>, t: int) -> bool {
    let pa = &space.page_alloc;
    let pc = pa.page_containing(t);
    &&& pa.words().dom().contains(t)
    &&& !pa.is_static(t)
    &&& pc + PAGE_HEADER_SIZE <= t
    &&& pa.bitmap(pc) is Some
    &&& 0 <= bit_index(pa, t) < pa.bitmap(pc)->Some_0@.len()
    &&& !pa.bitmap(pc)->Some_0@[bit_index(pa, t)] && stack.is_full(pa) ==> pa.remaining() > 0
}

/// An object of the heap can be marked.
pub proof fn lemma_mark_ready<P: PageAlloc>(
    h: Heap,
    space: &Space<P>,
    stack: &MarkStack<P>,
    cur: Option<(int, int)>,
    nd: int,
    t: int,
)
    requires
        marking_state(h, space, stack, cur, nd),
        h.objs.contains(t),
    ensures
        mark_ready(space, stack, t),
        !stack.owns_addr(space.page_alloc.page_size(), t),
{
    let m = choose|m: Marks| #[trigger]
        linked(h, space, stack, m) && marking(h, space.page_alloc.words(), m) && m.cur == cur
            && m.nd == nd;
    assert(obj_ok(h, t));
    lemma_placed(h, space, stack, m, t, 0);
    let pa = &space.page_alloc;
    if !marked_bit(pa, t) {
        assert(!m.marked.contains(t));
        assert(h.objs.difference(m.marked).contains(t));
        vstd::set_lib::lemma_len_subset(h.objs.difference(m.marked), h.objs);
        if h.objs.difference(m.marked).len() == 0 {
            assert(h.objs.difference(m.marked) =~= Set::<int>::empty());
        }
    }
}

/// The state of the mark phase after an object of the heap was marked.
#[verifier::rlimit(50)]
pub proof fn lemma_state_mark<P: PageAlloc>(
    h: Heap,
    before: &Space<P>,
    stack_before: &MarkStack<P>,
    after: &Space<P>,
    stack: &MarkStack<P>,
    cur: Option<(int, int)>,
    nd: int,
    t: int,
)
    requires
        marking_state(h, before, stack_before, cur, nd),
        h.objs.contains(t),
        reachable(h, t),
        mark_effect(before, stack_before, after, stack, t),
    ensures
        marking_state(h, after, stack, cur, nd),
        marked_bit(&after.page_alloc, t),
{
    let pa0 = &before.page_alloc;
    let pa = &after.page_alloc;
    let w = pa0.words();
    let m = choose|m: Marks| #[trigger]
        linked(h, before, stack_before, m) && marking(h, before.page_alloc.words(), m) && m.cur
            == cur && m.nd == nd;
    assert(obj_ok(h, t));
    lemma_placed(h, before, stack_before, m, t, 0);
    lemma_heap_words_kept(h, before, stack_before, m, pa.words());
    let pc = pa0.page_containing(t);
    let idx = bit_index(pa0, t);
    if pa0.bitmap(pc)->Some_0@[idx] {
        assert(m.marked.contains(t));
        lemma_linked_kept(h, before, stack_before, after, stack, m, m);
        lemma_marking_frame(h, w, pa.words(), m);
        assert(linked(h, after, stack, m) && marking(h, after.page_alloc.words(), m));
    } else {
        assert(!m.marked.contains(t));
        assert(chain_state(h, w, m, t));
        assert(w[t] == h.w0[t]) by {
            reveal(link);
        }
        crate::gc::mark_compact::marking::lemma_mark_new(h, w, m, t);
        let m2 = mark_new(m, t);
        lemma_linked_marked(h, before, stack_before, after, stack, m, t);
        lemma_marking_frame(h, w, pa.words(), m2);
        assert(linked(h, after, stack, m2) && marking(h, after.page_alloc.words(), m2));
    }
}

/// Whether `s` is the place that is visited next, where the fields of
/// `cur` are being visited and `nd` static places were visited.
pub open spec fn next_at(h: Heap, cur: Option<(int, int)>, nd: int, s: Spot) -> bool {
    match s {
        Spot::Static(i) => i == nd && i < static_count(h),
        Spot::Field(b, k) => cur == Some((b, k - first(h, b))) && first(h, b) <= k < first(h, b)
            + count(h, b),
    }
}

/// The object whose fields are being visited after the place `s` was
/// visited.
pub open spec fn cur_after(cur: Option<(int, int)>, s: Spot) -> Option<(int, int)> {
    match s {
        Spot::Static(_) => cur,
        Spot::Field(b, _) => Some((b, cur->Some_0.1 + 1)),
    }
}

/// The number of static places that were visited after the place `s` was
/// visited.
pub open spec fn nd_after(nd: int, s: Spot) -> int {
    match s {
        Spot::Static(_) => nd + 1,
        Spot::Field(_, _) => nd,
    }
}

/// What the place that is visited next holds: what it held before the
/// collection.  Where that is a pointer, it points to an object.
pub proof fn lemma_state_spot<P: PageAlloc>(
    h: Heap,
    space: &Space<P>,
    stack: &MarkStack<P>,
    cur: Option<(int, int)>,
    nd: int,
    s: Spot,
)
    requires
        marking_state(h, space, stack, cur, nd),
        spot_ok(h, s),
        next_at(h, cur, nd, s),
    ensures
        ({
            let pa = &space.page_alloc;
            let p = spot_addr(h, s);
            &&& heap_ok(h)
            &&& pa.words().dom().contains(p)
            &&& pa.words()[p] == spot_value(h, s)
            &&& !stack.owns_addr(pa.page_size(), p)
            &&& p % 4 == 0
            &&& 0 <= p <= 0xffff_fffb
            &&& pa.is_static(p) == (s is Static)
            &&& points(h, s) ==> {
                &&& h.objs.contains(spot_target(h, s))
                &&& !pa.is_static(spot_target(h, s))
                &&& pa.words().dom().contains(spot_target(h, s))
                &&& !stack.owns_addr(pa.page_size(), spot_target(h, s))
                &&& 0 < spot_target(h, s) <= 0xffff_fffb
                &&& reachable(h, spot_target(h, s))
            }
        }),
{
    let m = choose|m: Marks| #[trigger]
        linked(h, space, stack, m) && marking(h, space.page_alloc.words(), m) && m.cur == cur
            && m.nd == nd;
    assert(spot_state(h, space.page_alloc.words(), m, s));
    lemma_done_step(h, m, s, s);
    lemma_spots_apart(h, s, s, 0);
    match s {
        Spot::Static(i) => {
            lemma_static_place(h, space, stack, m, i);
        },
        Spot::Field(b, k) => {
            lemma_placed(h, space, stack, m, b, k);
        },
    }
    if points(h, s) {
        lemma_target(h, s);
        lemma_placed(h, space, stack, m, spot_target(h, s), 0);
        match s {
            Spot::Static(_) => {},
            Spot::Field(b, _) => {
                assert(m.marked.contains(b));
            },
        }
        lemma_reach_step(h, s);
    }
}

/// The state of the mark phase after a place that needs no threading was
/// visited.
pub proof fn lemma_state_plain<P: PageAlloc>(
    h: Heap,
    space: &Space<P>,
    stack: &MarkStack<P>,
    cur: Option<(int, int)>,
    nd: int,
    s: Spot,
)
    requires
        marking_state(h, space, stack, cur, nd),
        spot_ok(h, s),
        next_at(h, cur, nd, s),
        points(h, s) ==> marked_bit(&space.page_alloc, spot_target(h, s)) && !backward(h, s),
    ensures
        marking_state(h, space, stack, cur_after(cur, s), nd_after(nd, s)),
{
    let m = choose|m: Marks| #[trigger]
        linked(h, space, stack, m) && marking(h, space.page_alloc.words(), m) && m.cur == cur
            && m.nd == nd;
    if points(h, s) {
        lemma_target(h, s);
    }
    lemma_visit_plain(h, space.page_alloc.words(), m, s);
    let m2 = advance(m, s);
    assert(linked(h, space, stack, m2));
    assert(linked(h, space, stack, m2) && marking(h, space.page_alloc.words(), m2));
}

/// The state of the mark phase after a place was visited and threaded.
#[verifier::rlimit(50)]
pub proof fn lemma_state_thread<P: PageAlloc>(
    h: Heap,
    before: &Space<P>,
    after: &Space<P>,
    stack: &MarkStack<P>,
    cur: Option<(int, int)>,
    nd: int,
    s: Spot,
)
    requires
        marking_state(h, before, stack, cur, nd),
        spot_ok(h, s),
        next_at(h, cur, nd, s),
        points(h, s),
        backward(h, s),
        marked_bit(&before.page_alloc, spot_target(h, s)),
        mark_inv(after, stack),
        after.pages == before.pages,
        same_pages(&before.page_alloc, &after.page_alloc),
        same_bitmaps(&before.page_alloc, &after.page_alloc),
        after.page_alloc.words() == threaded(before.page_alloc.words(), spot_addr(h, s)),
    ensures
        marking_state(h, after, stack, cur_after(cur, s), nd_after(nd, s)),
{
    let m = choose|m: Marks| #[trigger]
        linked(h, before, stack, m) && marking(h, before.page_alloc.words(), m) && m.cur == cur
            && m.nd == nd;
    let t = spot_target(h, s);
    lemma_target(h, s);
    lemma_visit_thread(h, before.page_alloc.words(), m, s);
    let m2 = advance_threaded(m, s, t);
    lemma_linked_kept(h, before, stack, after, stack, m, m2);
    assert(linked(h, after, stack, m2) && marking(h, after.page_alloc.words(), m2));
}

/// The state of the mark phase after an object was popped: its fields are
/// visited next.  The entry holds the address and the tag of an object.
#[verifier::rlimit(50)]
pub proof fn lemma_state_begin<P: PageAlloc>(
    h: Heap,
    before: &Space<P>,
    stack_before: &MarkStack<P>,
    after: &Space<P>,
    stack: &MarkStack<P>,
    nd: int,
)
    requires
        marking_state(h, before, stack_before, None, nd),
        stack_before@.len() > 0,
        stack@ == stack_before@.drop_last(),
        mark_inv(after, stack),
        after.pages == before.pages,
        same_config(&before.page_alloc, &after.page_alloc),
        stack.stepped_from(&after.page_alloc, stack_before, &before.page_alloc),
        after.page_alloc.remaining() >= before.page_alloc.remaining(),
    ensures
        ({
            let b = stack_before@.last().0 as int;
            &&& h.objs.contains(b)
            &&& stack_before@.last().1 == h.w0[b]
            &&& marking_state(h, after, stack, Some((b, 0int)), nd)
        }),
{
    let pa0 = &before.page_alloc;
    let pa = &after.page_alloc;
    let w = pa0.words();
    let m = choose|m: Marks| #[trigger]
        linked(h, before, stack_before, m) && marking(h, before.page_alloc.words(), m) && m.cur
            == None::<(int, int)> && m.nd == nd;
    let n = m.stack.len() as int;
    let b = m.stack.last();
    assert(stack_before@[n - 1] == (m.stack[n - 1] as usize, h.w0[m.stack[n - 1]]));
    assert(m.marked.contains(m.stack[n - 1]));
    assert(obj_ok(h, b));
    lemma_begin_object(h, w, m);
    let m2 = Marks { stack: m.stack.drop_last(), cur: Some((b, 0)), ..m };
    lemma_heap_words_kept(h, before, stack_before, m, pa.words());
    lemma_marking_frame(h, w, pa.words(), m2);
    assert forall|i: int| 0 <= i < before.pages@.len() implies pa.bitmap(
        #[trigger] before.start(i),
    ) == pa0.bitmap(before.start(i)) by {
        pa0.lemma_live_handle(before.pages@[i]);
    }
    assert(stack_is(h, stack@, m2.stack)) by {
        assert forall|j: int| 0 <= j < m2.stack.len() implies #[trigger] stack@[j] == (
            m2.stack[j] as usize,
            h.w0[m2.stack[j]],
        ) by {
            assert(stack_before@[j] == (m.stack[j] as usize, h.w0[m.stack[j]]));
        }
    }
    lemma_linked_kept(h, before, stack_before, after, stack, m, m2);
    assert(linked(h, after, stack, m2) && marking(h, after.page_alloc.words(), m2));
}

/// The state of the mark phase after a step of the stack that left its
/// entries alone.
#[verifier::rlimit(50)]
pub proof fn lemma_state_step<P: PageAlloc>(
    h: Heap,
    before: &Space<P>,
    stack_before: &MarkStack<P>,
    after: &Space<P>,
    stack: &MarkStack<P>,
    cur: Option<(int, int)>,
    nd: int,
)
    requires
        marking_state(h, before, stack_before, cur, nd),
        stack@ == stack_before@,
        mark_inv(after, stack),
        after.pages == before.pages,
        same_config(&before.page_alloc, &after.page_alloc),
        stack.stepped_from(&after.page_alloc, stack_before, &before.page_alloc),
        after.page_alloc.remaining() >= before.page_alloc.remaining(),
    ensures
        marking_state(h, after, stack, cur, nd),
{
    let pa0 = &before.page_alloc;
    let pa = &after.page_alloc;
    let w = pa0.words();
    let m = choose|m: Marks| #[trigger]
        linked(h, before, stack_before, m) && marking(h, before.page_alloc.words(), m) && m.cur
            == cur && m.nd == nd;
    lemma_heap_words_kept(h, before, stack_before, m, pa.words());
    lemma_marking_frame(h, w, pa.words(), m);
    assert forall|i: int| 0 <= i < before.pages@.len() implies pa.bitmap(
        #[trigger] before.start(i),
    ) == pa0.bitmap(before.start(i)) by {
        pa0.lemma_live_handle(before.pages@[i]);
    }
    lemma_linked_kept(h, before, stack_before, after, stack, m, m);
    assert(linked(h, after, stack, m) && marking(h, after.page_alloc.words(), m));
}

/// The state of the mark phase after all fields of an object were visited.
pub proof fn lemma_state_end<P: PageAlloc>(
    h: Heap,
    space: &Space<P>,
    stack: &MarkStack<P>,
    b: int,
    nd: int,
)
    requires
        marking_state(h, space, stack, Some((b, count(h, b))), nd),
    ensures
        marking_state(h, space, stack, None, nd),
{
    let m = choose|m: Marks| #[trigger]
        linked(h, space, stack, m) && marking(h, space.page_alloc.words(), m) && m.cur == Some(
            (b, count(h, b)),
        ) && m.nd == nd;
    lemma_end_object(h, space.page_alloc.words(), m);
    let m2 = Marks { cur: None, ..m };
    assert(linked(h, space, stack, m2));
    assert(linked(h, space, stack, m2) && marking(h, space.page_alloc.words(), m2));
}

/// What the collection reads of the place that is visited next.
pub open spec fn spot_read<P: PageAlloc>(
    h: Heap,
    space: &Space<P>,
    stack: &MarkStack<P>,
    s: Spot,
) -> bool {
    let pa = &space.page_alloc;
    let p = spot_addr(h, s);
    &&& heap_ok(h)
    &&& pa.words().dom().contains(p)
    &&& pa.words()[p] == spot_value(h, s)
    &&& !stack.owns_addr(pa.page_size(), p)
    &&& p % 4 == 0
    &&& 0 <= p <= 0xffff_fffb
    &&& pa.is_static(p) == (s is Static)
    &&& points(h, s) ==> {
        &&& h.objs.contains(spot_target(h, s))
        &&& !pa.is_static(spot_target(h, s))
        &&& pa.words().dom().contains(spot_target(h, s))
        &&& !stack.owns_addr(pa.page_size(), spot_target(h, s))
        &&& 0 < spot_target(h, s) <= 0xffff_fffb
        &&& reachable(h, spot_target(h, s))
    }
}

/// What the collection reads of the object whose fields it visits.
pub open spec fn object_read<P: PageAlloc>(h: Heap, space: &Space<P>, b: int) -> bool {
    let pa = &space.page_alloc;
    let w = pa.words();
    &&& heap_ok(h)
    &&& h.objs.contains(b)
    &&& obj_ok(h, b)
    &&& w.dom().contains(b)
    &&& !pa.is_static(b)
    &&& pa.bitmap(pa.page_containing(b)) is Some
    &&& spec_object_size_(w, b, h.w0[b]) == Ok::<Words<u32>, Trap>(Words(size0(h.w0, b) as u32))
    &&& spec_pointer_fields(w, b, h.w0[b]) == Ok::<(usize, u32), Trap>(
        ((b + 4 * first(h, b)) as usize, count(h, b) as u32),
    )
    &&& b + 4 * size0(h.w0, b) <= pa.page_containing(b) + pa.page_size()
    &&& 0 <= count(h, b) <= 0x3fff_ffff
    &&& 0 <= size0(h.w0, b) <= 0x3fff_ffff
}

/// The collection reads of the object whose fields it visits what the
/// object held before the collection.
pub proof fn lemma_state_object<P: PageAlloc>(
    h: Heap,
    space: &Space<P>,
    stack: &MarkStack<P>,
    b: int,
    j: int,
    nd: int,
)
    requires
        marking_state(h, space, stack, Some((b, j)), nd),
    ensures
        object_read(h, space, b),
        0 <= j <= count(h, b),
{
    let pa = &space.page_alloc;
    let w = pa.words();
    let m = choose|m: Marks| #[trigger]
        linked(h, space, stack, m) && marking(h, space.page_alloc.words(), m) && m.cur == Some(
            (b, j),
        ) && m.nd == nd;
    assert(h.objs.contains(b));
    assert(obj_ok(h, b));
    lemma_placed(h, space, stack, m, b, 0);
    let off = length_offset(h.w0[b]);
    if off != 0 {
        let k = off / 4;
        let s = Spot::Field(b, k);
        assert(spot_ok(h, s));
        assert(spot_state(h, w, m, s));
        assert(!points(h, s));
        lemma_placed(h, space, stack, m, b, k);
    }
    assert(length_word(w, b, h.w0[b]) == length_word(h.w0, b, h.w0[b]));
}

/// What the collection reads of the place that is visited next, in words.
pub proof fn lemma_spot_read<P: PageAlloc>(
    h: Heap,
    space: &Space<P>,
    stack: &MarkStack<P>,
    cur: Option<(int, int)>,
    nd: int,
    s: Spot,
)
    requires
        marking_state(h, space, stack, cur, nd),
        spot_ok(h, s),
        next_at(h, cur, nd, s),
    ensures
        spot_read(h, space, stack, s),
{
    lemma_state_spot(h, space, stack, cur, nd, s);
}

/// The state of the mark phase after a place was visited: where the place
/// holds a pointer, the object that it points to was marked, and the place
/// was threaded where it is a static place or points backwards.
pub proof fn lemma_visited<P: PageAlloc>(
    h: Heap,
    before: &Space<P>,
    stack_before: &MarkStack<P>,
    marked_space: &Space<P>,
    stack: &MarkStack<P>,
    after: &Space<P>,
    cur: Option<(int, int)>,
    nd: int,
    s: Spot,
    did_mark: bool,
    did_thread: bool,
)
    requires
        marking_state(h, before, stack_before, cur, nd),
        spot_ok(h, s),
        next_at(h, cur, nd, s),
        did_mark == (Value(before.page_alloc.words()[spot_addr(h, s)]).spec_is_ptr()
            && !before.page_alloc.is_static(
            Value(before.page_alloc.words()[spot_addr(h, s)]).spec_get_ptr(),
        )),
        did_mark ==> marking_state(h, marked_space, stack, cur, nd) && marked_bit(
            &marked_space.page_alloc,
            spot_target(h, s),
        ),
        !did_mark ==> marked_space == before && stack == stack_before,
        did_thread == (did_mark && backward(h, s)),
        did_thread ==> mark_inv(after, stack) && after.pages == marked_space.pages && same_pages(
            &marked_space.page_alloc,
            &after.page_alloc,
        ) && same_bitmaps(&marked_space.page_alloc, &after.page_alloc)
            && after.page_alloc.words() == threaded(
            marked_space.page_alloc.words(),
            spot_addr(h, s),
        ),
        !did_thread ==> after == marked_space,
    ensures
        marking_state(h, after, stack, cur_after(cur, s), nd_after(nd, s)),
{
    lemma_state_spot(h, before, stack_before, cur, nd, s);
    match s {
        Spot::Static(_) => {},
        Spot::Field(b, k) => {
            lemma_state_object(h, before, stack_before, b, k - first(h, b), nd);
        },
    }
    if did_mark {
        assert(points(h, s));
        if did_thread {
            lemma_state_thread(h, marked_space, after, stack, cur, nd, s);
        } else {
            lemma_state_plain(h, marked_space, stack, cur, nd, s);
        }
    } else {
        assert(!points(h, s));
        lemma_state_plain(h, before, stack_before, cur, nd, s);
    }
}

/// What the collection reads of the array of roots: the array, its length,
/// and element `i`, which points to a static box.
pub open spec fn roots_read<P: PageAlloc>(h: Heap, space: &Space<P>, i: int) -> bool {
    let pa = &space.page_alloc;
    let w = pa.words();
    let e = h.roots + 8 + 4 * i;
    &&& w.dom().contains(h.roots)
    &&& w[h.roots] == TAG_ARRAY
    &&& w.dom().contains(h.roots + 4)
    &&& w[h.roots + 4] == h.w0[h.roots + 4]
    &&& 0 <= i < h.w0[h.roots + 4] ==> {
        &&& w.dom().contains(e)
        &&& Value(w[e]).spec_get_ptr() == root_box(h.w0, h.roots, i)
        &&& w.dom().contains(root_box(h.w0, h.roots, i))
        &&& w[root_box(h.w0, h.roots, i)] == TAG_MUTBOX
        &&& pa.is_static(root_box(h.w0, h.roots, i))
        &&& static_addr(h, i) == root_box(h.w0, h.roots, i) + 4
        &&& static_addr(h, i) <= 0xffff_fffb
        &&& spot_ok(h, Spot::Static(i))
    }
}

/// The collection reads of the array of roots what it held before the
/// collection.
pub proof fn lemma_roots_read<P: PageAlloc>(
    h: Heap,
    space: &Space<P>,
    stack: &MarkStack<P>,
    cur: Option<(int, int)>,
    nd: int,
    i: int,
)
    requires
        marking_state(h, space, stack, cur, nd),
    ensures
        roots_read(h, space, i),
{
    let pa = &space.page_alloc;
    let w = pa.words();
    let m = choose|m: Marks| #[trigger]
        linked(h, space, stack, m) && marking(h, space.page_alloc.words(), m) && m.cur == cur
            && m.nd == nd;
    assert(frame_kept(h, w));
    assert(root_frame(h.w0, h.roots, h.roots));
    assert(root_frame(h.w0, h.roots, h.roots + 4));
    if 0 <= i < h.w0[h.roots + 4] {
        let b = root_box(h.w0, h.roots, i);
        assert(b == Value(h.w0[h.roots + 8 + 4 * i]).spec_get_ptr());
        assert(frame_of(h.w0, h.roots, h.roots + 8 + 4 * i, i));
        assert(frame_of(h.w0, h.roots, b, i));
        assert(root_frame(h.w0, h.roots, h.roots + 8 + 4 * i));
        assert(root_frame(h.w0, h.roots, b));
        assert(static_ok(h, i));
    }
}

/// What holds before the visit of the place `s` at the address `addr`: the
/// place is the next one of the state, and the collection reads what the
/// place held.
pub open spec fn field_visit<P: PageAlloc>(
    h: Heap,
    space: &Space<P>,
    stack: &MarkStack<P>,
    cur: Option<(int, int)>,
    nd: int,
    s: Spot,
    addr: int,
) -> bool {
    &&& marking_state(h, space, stack, cur, nd)
    &&& spot_ok(h, s)
    &&& next_at(h, cur, nd, s)
    &&& spot_addr(h, s) == addr
    &&& spot_read(h, space, stack, s)
    &&& s matches Spot::Field(b, k) ==> is_field_word(h.w0, b, k)
}

} // verus!
