//! The state of the second pass of a compaction, as a model over the
//! memory before the collection: which objects were moved and where to,
//! and the chains that are threaded through the places that point to the
//! objects that were not moved yet.
use vstd::prelude::*;
use crate::gc::copying::wellformed::{root_frame, size0};
use crate::gc::mark_compact::marking::{
    count, first, frame_kept, heap_ok, obj_ok, points, spot_ok, spot_target, spot_value,
    static_addr, static_count, static_ok, Heap, Spot,
};
use crate::gc::mark_compact::marking::{marking, Marks};
use crate::gc::mark_compact::threading::{chained, lemma_unthread_chain, link};
use crate::gc::mark_compact::{
    spec_get_tag, thread_outcome, threaded, unthread_outcome, unthreaded,
};
use crate::mem_utils::{copy_region, lemma_copy_region_content, lemma_copy_region_frame};
use crate::object::{
    length_offset, length_word, spec_object_size_, spec_pointer_fields, Trap,
};
use crate::page_alloc::mapped_range;
use crate::types::{Value, Words};

verus! {

/// How far the second pass has come.
pub struct Slide {
    /// The objects that are marked
    pub marked: Set<int>,
    /// The marked objects below this address were moved
    pub pos: int,
    /// The moved objects end at or below this address
    pub free: int,
    /// Where the moved objects are
    pub new: Map<int, int>,
    /// The moved object whose forward pointers are being threaded, with the
    /// number of its pointer fields that were visited
    pub cur: Option<(int, int)>,
    /// For each object that was not moved the places that are threaded onto
    /// its header
    pub chains: Map<int, Seq<Spot>>,
}

/// Whether the object at `a` was moved.
pub open spec fn moved(u: Slide, a: int) -> bool {
    u.marked.contains(a) && a < u.pos
}

/// Where the marked object at `b` is now.
pub open spec fn place(u: Slide, b: int) -> int {
    if moved(u, b) {
        u.new[b]
    } else {
        b
    }
}

/// Whether `s` is a place of a live part of the heap: a static place, or
/// a word of a marked object.
pub open spec fn live(h: Heap, u: Slide, s: Spot) -> bool {
    &&& spot_ok(h, s)
    &&& match s {
        Spot::Static(_) => true,
        Spot::Field(b, _) => u.marked.contains(b),
    }
}

/// The address of a place now.
pub open spec fn slot(h: Heap, u: Slide, s: Spot) -> int {
    match s {
        Spot::Static(i) => static_addr(h, i),
        Spot::Field(b, k) => place(u, b) + 4 * k,
    }
}

/// The pointer to the address `a`, as a word.
pub open spec fn ptr_to(a: int) -> u32 {
    Value::spec_from_ptr(a).0
}

/// Whether the place is threaded onto the chain of the object that it
/// points to, where that object was not moved: a static place; a field of a
/// moved object, which points forwards, once it was visited; a field of an
/// object that was not moved that points backwards.
pub open spec fn threaded_now(h: Heap, u: Slide, s: Spot) -> bool {
    match s {
        Spot::Static(_) => true,
        Spot::Field(b, k) => if moved(u, b) {
            u.cur is Some && u.cur->Some_0.0 == b ==> k - first(h, b) < u.cur->Some_0.1
        } else {
            spot_target(h, s) <= b
        },
    }
}

/// What holds of a live place during the second pass: a pointer to a moved
/// object points to where the object is; a pointer to another object is
/// threaded or holds what it held; everything else holds what it held.
pub open spec fn slot_state(h: Heap, w: Map<int, u32>, u: Slide, s: Spot) -> bool {
    let p = slot(h, u, s);
    let t = spot_target(h, s);
    &&& w.dom().contains(p)
    &&& if points(h, s) {
        if moved(u, t) {
            w[p] == ptr_to(u.new[t])
        } else if threaded_now(h, u, s) {
            u.chains[t].contains(s)
        } else {
            w[p] == spot_value(h, s)
        }
    } else {
        w[p] == spot_value(h, s)
    }
}

/// The addresses of the places of a chain.
pub open spec fn slots(h: Heap, u: Slide, chain: Seq<Spot>) -> Seq<int> {
    Seq::new(chain.len(), |i: int| slot(h, u, chain[i]))
}

/// Whether `s` belongs onto the chain of the object at `a`.
pub open spec fn on_chain(h: Heap, u: Slide, a: int, s: Spot) -> bool {
    &&& live(h, u, s)
    &&& points(h, s)
    &&& spot_target(h, s) == a
    &&& threaded_now(h, u, s)
}

/// What holds of the header of the marked object at `a`: a moved object
/// has its tag; the header of another object is the start of its chain.
pub open spec fn header_state(h: Heap, w: Map<int, u32>, u: Slide, a: int) -> bool {
    if moved(u, a) {
        w.dom().contains(u.new[a]) && w[u.new[a]] == h.w0[a]
    } else {
        let chain = u.chains[a];
        &&& w.dom().contains(a)
        &&& chained(w, slots(h, u, chain), h.w0[a], chain.len() as int)
        &&& w[a] == link(slots(h, u, chain), h.w0[a], chain.len() as int)
        &&& forall|i: int| 0 <= i < chain.len() ==> on_chain(h, u, a, #[trigger] chain[i])
    }
}

/// The words from `d` on hold no static place and no word of the array of
/// roots or of the header of a root box.
pub open spec fn clear(h: Heap, d: int, n: int) -> bool {
    &&& forall|i: int|
        0 <= i < static_count(h) ==> !(d <= #[trigger] static_addr(h, i) < d + 4 * n)
    &&& forall|x: int| #[trigger] root_frame(h.w0, h.roots, x) ==> !(d <= x < d + 4 * n)
}

/// Where the moved object at `a` is: at or below where it was, below the
/// free address, and off the static places.
pub open spec fn move_ok(h: Heap, u: Slide, a: int) -> bool {
    let d = u.new[a];
    &&& d % 4 == 0
    &&& 0 < d <= a
    &&& d + 4 * size0(h.w0, a) <= u.free
    &&& clear(h, d, size0(h.w0, a))
}

/// The invariant of the second pass.
pub open spec fn sliding(h: Heap, w: Map<int, u32>, u: Slide) -> bool {
    &&& heap_ok(h)
    &&& forall|a: int| #[trigger] u.marked.contains(a) ==> h.objs.contains(a)
    &&& forall|s: Spot|
        #[trigger] live(h, u, s) && points(h, s) ==> u.marked.contains(spot_target(h, s))
    &&& forall|a: int| #[trigger] u.marked.contains(a) && a >= u.pos ==> u.free <= a
    &&& forall|a: int| #[trigger] u.marked.contains(a) && a < u.pos ==> move_ok(h, u, a)
    &&& forall|a: int, b: int|
        #[trigger] u.marked.contains(a) && #[trigger] u.marked.contains(b) && a < b < u.pos
            ==> u.new[a] + 4 * size0(h.w0, a) <= u.new[b]
    &&& forall|s: Spot| #[trigger] live(h, u, s) ==> slot_state(h, w, u, s)
    &&& forall|a: int| #[trigger] u.marked.contains(a) ==> header_state(h, w, u, a)
    &&& frame_kept(h, w)
    &&& u.cur matches Some((c, j)) ==> moved(u, c) && 0 <= j <= count(h, c) && u.pos == c + 1
}

/// The marked objects lie apart where they are now.
pub proof fn lemma_places_apart(h: Heap, w: Map<int, u32>, u: Slide, a: int, b: int)
    requires
        sliding(h, w, u),
        u.marked.contains(a),
        u.marked.contains(b),
        a < b,
    ensures
        place(u, a) + 4 * size0(h.w0, a) <= place(u, b),
        place(u, a) % 4 == 0,
        place(u, b) % 4 == 0,
        0 < place(u, a),
        place(u, b) + 4 * size0(h.w0, b) <= 0xffff_ffff,
        1 <= size0(h.w0, a),
{
    assert(obj_ok(h, a));
    assert(obj_ok(h, b));
    if moved(u, a) {
        assert(move_ok(h, u, a));
    }
    if moved(u, b) {
        assert(move_ok(h, u, b));
    }
}

/// Two live places with one address are one place; no live place is the
/// header of a marked object where that is now; and a live place is a word
/// in the address space.
pub proof fn lemma_slots_apart(h: Heap, w: Map<int, u32>, u: Slide, s1: Spot, s2: Spot, a: int)
    requires
        sliding(h, w, u),
        live(h, u, s1),
        live(h, u, s2),
    ensures
        slot(h, u, s1) == slot(h, u, s2) ==> s1 == s2,
        u.marked.contains(a) ==> slot(h, u, s1) != place(u, a),
        slot(h, u, s1) % 4 == 0,
        0 <= slot(h, u, s1) <= 0xffff_fffb,
        root_frame(h.w0, h.roots, slot(h, u, s1)) ==> false,
{
    lemma_slot_in(h, w, u, s1);
    lemma_slot_in(h, w, u, s2);
    match s1 {
        Spot::Static(i) => {
            match s2 {
                Spot::Static(j) => {
                    if i < j {
                        assert(static_addr(h, i) != static_addr(h, j));
                    }
                    if j < i {
                        assert(static_addr(h, j) != static_addr(h, i));
                    }
                },
                Spot::Field(b, k) => {},
            }
            if u.marked.contains(a) {
                lemma_static_off(h, w, u, i, a);
            }
            if root_frame(h.w0, h.roots, static_addr(h, i)) {
                assert(crate::gc::mark_compact::marking::frame_apart(h, static_addr(h, i)));
            }
        },
        Spot::Field(b, k) => {
            match s2 {
                Spot::Static(j) => {},
                Spot::Field(c, l) => {
                    if b < c {
                        lemma_places_apart(h, w, u, b, c);
                    }
                    if c < b {
                        lemma_places_apart(h, w, u, c, b);
                    }
                },
            }
            if u.marked.contains(a) {
                if b < a {
                    lemma_places_apart(h, w, u, b, a);
                }
                if a < b {
                    lemma_places_apart(h, w, u, a, b);
                }
            }
            if root_frame(h.w0, h.roots, slot(h, u, s1)) {
                let x = slot(h, u, s1);
                if moved(u, b) {
                    assert(move_ok(h, u, b));
                } else {
                    assert(crate::gc::mark_compact::marking::frame_apart(h, x));
                }
            }
        },
    }
}

/// A static place lies in no marked object where that is now.
pub proof fn lemma_static_off(h: Heap, w: Map<int, u32>, u: Slide, i: int, a: int)
    requires
        sliding(h, w, u),
        0 <= i < static_count(h),
        u.marked.contains(a),
    ensures
        !(place(u, a) <= static_addr(h, i) < place(u, a) + 4 * size0(h.w0, a)),
        static_addr(h, i) % 4 == 0,
        0 <= static_addr(h, i) <= 0xffff_fffb,
{
    assert(static_ok(h, i));
    assert(obj_ok(h, a));
    if moved(u, a) {
        assert(move_ok(h, u, a));
    }
}

/// A live place that is a word of an object lies in that object where it
/// is now, and not where a static place is.
pub proof fn lemma_slot_in(h: Heap, w: Map<int, u32>, u: Slide, s: Spot)
    requires
        sliding(h, w, u),
        live(h, u, s),
    ensures
        slot(h, u, s) % 4 == 0,
        0 <= slot(h, u, s) <= 0xffff_fffb,
        s matches Spot::Field(b, k) ==> place(u, b) < slot(h, u, s) < place(u, b) + 4 * size0(
            h.w0,
            b,
        ) && forall|i: int| 0 <= i < static_count(h) ==> #[trigger] static_addr(h, i) != slot(h, u, s),
{
    match s {
        Spot::Static(i) => {
            assert(static_ok(h, i));
        },
        Spot::Field(b, k) => {
            assert(obj_ok(h, b));
            if moved(u, b) {
                assert(move_ok(h, u, b));
            }
            assert forall|i: int| 0 <= i < static_count(h) implies #[trigger] static_addr(h, i)
                != slot(h, u, s) by {
                lemma_static_off(h, w, u, i, b);
            }
        },
    }
}

/// The memory `w1` is the memory `w` after the object at `a` was
/// unthreaded to `d`: the object has its tag, the places of its chain point
/// to `d`, and nothing else has changed.
pub open spec fn unthread_words(
    h: Heap,
    w: Map<int, u32>,
    w1: Map<int, u32>,
    u: Slide,
    a: int,
    d: int,
) -> bool {
    let ad = slots(h, u, u.chains[a]);
    &&& w1.dom() == w.dom()
    &&& w1[a] == h.w0[a]
    &&& forall|i: int| 0 <= i < ad.len() ==> w1[#[trigger] ad[i]] == ptr_to(d)
    &&& forall|x: int| x != a && !ad.contains(x) ==> #[trigger] w1[x] == w[x]
}

/// The memory `w2` is the memory `w1` after the `n` words at `a` were
/// copied to `d`.
pub open spec fn copy_words(w1: Map<int, u32>, w2: Map<int, u32>, a: int, d: int, n: int) -> bool {
    &&& w2.dom() == w1.dom()
    &&& forall|k: int| 0 <= k < n ==> #[trigger] w2[d + 4 * k] == w1[a + 4 * k]
    &&& forall|x: int| !(d <= x < d + 4 * n) ==> #[trigger] w2[x] == w1[x]
}

/// Whether the object at `a` is the one that is moved next, to `d`: it is
/// the marked object at the lowest address that was not moved, and `d` is a
/// free address at or below it from which on the memory is mapped and holds
/// no static place.
pub open spec fn next_move(h: Heap, w: Map<int, u32>, u: Slide, a: int, d: int) -> bool {
    &&& u.cur is None
    &&& u.marked.contains(a)
    &&& a >= u.pos
    &&& forall|b: int| #[trigger] u.marked.contains(b) && b >= u.pos ==> a <= b
    &&& u.free <= d <= a
    &&& d % 4 == 0
    &&& 0 < d
    &&& clear(h, d, size0(h.w0, a))
    &&& forall|k: int| 0 <= k < size0(h.w0, a) ==> #[trigger] w.dom().contains(d + 4 * k)
}

/// The state after the object at `a` was moved to `d`.
pub open spec fn after_move(h: Heap, u: Slide, a: int, d: int) -> Slide {
    Slide {
        pos: a + 1,
        free: d + 4 * size0(h.w0, a),
        new: u.new.insert(a, d),
        cur: Some((a, 0int)),
        ..u
    }
}

/// What the objects and the places are to the object that is moved next.
pub proof fn lemma_next_move(h: Heap, w: Map<int, u32>, u: Slide, a: int, d: int, b: int)
    requires
        sliding(h, w, u),
        next_move(h, w, u, a, d),
        u.marked.contains(b),
    ensures
        obj_ok(h, a),
        !moved(u, a),
        b != a ==> moved(after_move(h, u, a, d), b) == moved(u, b) && place(
            after_move(h, u, a, d),
            b,
        ) == place(u, b) && (place(u, b) + 4 * size0(h.w0, b) <= d || d + 4 * size0(h.w0, a)
            <= place(u, b)),
        b != a ==> (moved(u, b) <==> b < a),
        moved(after_move(h, u, a, d), a),
        place(after_move(h, u, a, d), a) == d,
{
    assert(obj_ok(h, a));
    assert(obj_ok(h, b));
    if b != a {
        if moved(u, b) {
            assert(move_ok(h, u, b));
        } else {
            assert(a <= b);
            lemma_places_apart(h, w, u, a, b);
        }
    }
}

/// A live place other than a word of the object that is moved stays where
/// it is, off the words that the object is moved to.
pub proof fn lemma_slot_stays(h: Heap, w: Map<int, u32>, u: Slide, a: int, d: int, s: Spot)
    requires
        sliding(h, w, u),
        next_move(h, w, u, a, d),
        live(h, u, s),
        !(s matches Spot::Field(b, _) && b == a),
    ensures
        slot(h, after_move(h, u, a, d), s) == slot(h, u, s),
        !(d <= slot(h, u, s) < d + 4 * size0(h.w0, a)),
        slot(h, u, s) != a,
        live(h, after_move(h, u, a, d), s),
        threaded_now(h, after_move(h, u, a, d), s) == threaded_now(h, u, s),
{
    lemma_slot_in(h, w, u, s);
    match s {
        Spot::Static(i) => {
            lemma_static_off(h, w, u, i, a);
        },
        Spot::Field(b, k) => {
            lemma_next_move(h, w, u, a, d, b);
            lemma_slots_apart(h, w, u, s, s, a);
        },
    }
}

/// A live place that points to the object that is moved next is on the
/// chain of that object.
pub proof fn lemma_all_threaded(h: Heap, w: Map<int, u32>, u: Slide, a: int, d: int, s: Spot)
    requires
        sliding(h, w, u),
        next_move(h, w, u, a, d),
        live(h, u, s),
        points(h, s),
        spot_target(h, s) == a,
    ensures
        u.chains[a].contains(s),
        slots(h, u, u.chains[a]).contains(slot(h, u, s)),
{
    assert(slot_state(h, w, u, s));
    match s {
        Spot::Static(_) => {},
        Spot::Field(b, _) => {
            lemma_next_move(h, w, u, a, d, b);
        },
    }
    let i = choose|i: int| 0 <= i < u.chains[a].len() && u.chains[a][i] == s;
    assert(slots(h, u, u.chains[a])[i] == slot(h, u, s));
}

/// A live place that does not point to the object that is moved next is
/// not on the chain of that object.
pub proof fn lemma_not_threaded(h: Heap, w: Map<int, u32>, u: Slide, a: int, d: int, s: Spot)
    requires
        sliding(h, w, u),
        next_move(h, w, u, a, d),
        live(h, u, s),
        !(points(h, s) && spot_target(h, s) == a),
    ensures
        !slots(h, u, u.chains[a]).contains(slot(h, u, s)),
{
    let ad = slots(h, u, u.chains[a]);
    if ad.contains(slot(h, u, s)) {
        let i = choose|i: int| 0 <= i < ad.len() && ad[i] == slot(h, u, s);
        assert(header_state(h, w, u, a));
        lemma_next_move(h, w, u, a, d, a);
        assert(on_chain(h, u, a, u.chains[a][i]));
        lemma_slots_apart(h, w, u, s, u.chains[a][i], a);
    }
}

/// The header of a marked object, where the object is now, is no place of
/// a chain.
pub proof fn lemma_header_off(h: Heap, w: Map<int, u32>, u: Slide, a: int, c: int)
    requires
        sliding(h, w, u),
        u.marked.contains(a),
        !moved(u, a),
        u.marked.contains(c),
    ensures
        !slots(h, u, u.chains[a]).contains(place(u, c)),
{
    let ad = slots(h, u, u.chains[a]);
    if ad.contains(place(u, c)) {
        let i = choose|i: int| 0 <= i < ad.len() && ad[i] == place(u, c);
        assert(header_state(h, w, u, a));
        assert(on_chain(h, u, a, u.chains[a][i]));
        lemma_slots_apart(h, w, u, u.chains[a][i], u.chains[a][i], c);
    }
}

/// What holds of a live place after the object at `a` was moved.
#[verifier::rlimit(50)]
pub proof fn lemma_moved_slot(
    h: Heap,
    w: Map<int, u32>,
    w1: Map<int, u32>,
    w2: Map<int, u32>,
    u: Slide,
    a: int,
    d: int,
    s: Spot,
)
    requires
        sliding(h, w, u),
        next_move(h, w, u, a, d),
        unthread_words(h, w, w1, u, a, d),
        copy_words(w1, w2, a, d, size0(h.w0, a)),
        live(h, u, s),
    ensures
        slot_state(h, w2, after_move(h, u, a, d), s),
{
    let u2 = after_move(h, u, a, d);
    let ad = slots(h, u, u.chains[a]);
    assert(slot_state(h, w, u, s));
    lemma_next_move(h, w, u, a, d, a);
    lemma_slot_in(h, w, u, s);
    let p = slot(h, u, s);
    if points(h, s) && spot_target(h, s) == a {
        lemma_all_threaded(h, w, u, a, d, s);
        let i = choose|i: int| 0 <= i < ad.len() && ad[i] == p;
        assert(w1[ad[i]] == ptr_to(d));
    } else {
        lemma_not_threaded(h, w, u, a, d, s);
        lemma_slots_apart(h, w, u, s, s, a);
        assert(w1[p] == w[p]);
    }
    if points(h, s) {
        let t = spot_target(h, s);
        assert(u.marked.contains(t));
        lemma_next_move(h, w, u, a, d, t);
    }
    match s {
        Spot::Static(i) => {
            lemma_slot_stays(h, w, u, a, d, s);
            assert(w2[p] == w1[p]);
        },
        Spot::Field(b, k) => {
            if b == a {
                assert(slot(h, u2, s) == d + 4 * k);
                assert(w2[d + 4 * k] == w1[a + 4 * k]);
                assert(w.dom().contains(d + 4 * k));
            } else {
                lemma_slot_stays(h, w, u, a, d, s);
                assert(w2[p] == w1[p]);
            }
        },
    }
}

/// What holds of the header of a marked object after the object at `a`
/// was moved.
#[verifier::rlimit(50)]
pub proof fn lemma_moved_header(
    h: Heap,
    w: Map<int, u32>,
    w1: Map<int, u32>,
    w2: Map<int, u32>,
    u: Slide,
    a: int,
    d: int,
    c: int,
)
    requires
        sliding(h, w, u),
        next_move(h, w, u, a, d),
        unthread_words(h, w, w1, u, a, d),
        copy_words(w1, w2, a, d, size0(h.w0, a)),
        u.marked.contains(c),
    ensures
        header_state(h, w2, after_move(h, u, a, d), c),
{
    let u2 = after_move(h, u, a, d);
    let ad = slots(h, u, u.chains[a]);
    assert(header_state(h, w, u, c));
    lemma_next_move(h, w, u, a, d, c);
    lemma_next_move(h, w, u, a, d, a);
    if c == a {
        assert(w2[d + 4 * 0] == w1[a + 4 * 0]);
        assert(w.dom().contains(d + 4 * 0));
    } else {
        lemma_header_off(h, w, u, a, c);
        assert(obj_ok(h, c));
        assert(w2[place(u, c)] == w1[place(u, c)]);
        assert(w1[place(u, c)] == w[place(u, c)]);
        if !moved(u, c) {
            let chain = u.chains[c];
            let sl = slots(h, u, chain);
            let sl2 = slots(h, u2, chain);
            assert forall|i: int| 0 <= i < chain.len() implies on_chain(
                h,
                u2,
                c,
                #[trigger] chain[i],
            ) && sl2[i] == sl[i] && w2.dom().contains(sl[i]) && w2[sl[i]] == w[sl[i]] by {
                let s = chain[i];
                assert(on_chain(h, u, c, s));
                lemma_slot_stays(h, w, u, a, d, s);
                lemma_not_threaded(h, w, u, a, d, s);
                assert(sl[i] == slot(h, u, s));
                assert(w.dom().contains(sl[i]));
                assert(w1[sl[i]] == w[sl[i]]);
                assert(w2[sl[i]] == w1[sl[i]]);
            }
            assert(sl2 =~= sl);
            crate::gc::mark_compact::threading::lemma_chain_frame(
                w,
                w2,
                sl,
                h.w0[c],
                chain.len() as int,
            );
        }
    }
}

/// The invariant of the second pass holds after the object at `a` was
/// unthreaded and moved to `d`.
#[verifier::rlimit(50)]
pub proof fn lemma_moved(
    h: Heap,
    w: Map<int, u32>,
    w1: Map<int, u32>,
    w2: Map<int, u32>,
    u: Slide,
    a: int,
    d: int,
)
    requires
        sliding(h, w, u),
        next_move(h, w, u, a, d),
        unthread_words(h, w, w1, u, a, d),
        copy_words(w1, w2, a, d, size0(h.w0, a)),
    ensures
        sliding(h, w2, after_move(h, u, a, d)),
{
    let u2 = after_move(h, u, a, d);
    let ad = slots(h, u, u.chains[a]);
    lemma_next_move(h, w, u, a, d, a);
    assert forall|s: Spot| #[trigger] live(h, u2, s) implies slot_state(h, w2, u2, s) by {
        assert(live(h, u, s));
        lemma_moved_slot(h, w, w1, w2, u, a, d, s);
    }
    assert forall|c: int| #[trigger] u2.marked.contains(c) implies header_state(h, w2, u2, c) by {
        lemma_moved_header(h, w, w1, w2, u, a, d, c);
    }
    assert forall|s: Spot| #[trigger] live(h, u2, s) && points(h, s) implies u2.marked.contains(
        spot_target(h, s),
    ) by {
        assert(live(h, u, s));
    }
    assert forall|c: int| #[trigger] u2.marked.contains(c) && c >= u2.pos implies u2.free
        <= c by {
        lemma_next_move(h, w, u, a, d, c);
        lemma_places_apart(h, w, u, a, c);
    }
    assert forall|c: int| #[trigger] u2.marked.contains(c) && c < u2.pos implies move_ok(
        h,
        u2,
        c,
    ) by {
        lemma_next_move(h, w, u, a, d, c);
        if c != a {
            assert(move_ok(h, u, c));
        }
    }
    assert forall|c: int, b: int|
        #[trigger] u2.marked.contains(c) && #[trigger] u2.marked.contains(b) && c < b
            < u2.pos implies u2.new[c] + 4 * size0(h.w0, c) <= u2.new[b] by {
        lemma_next_move(h, w, u, a, d, c);
        lemma_next_move(h, w, u, a, d, b);
        if b == a {
            assert(move_ok(h, u, c));
        }
    }
    assert forall|x: int| #[trigger] root_frame(h.w0, h.roots, x) implies w2.dom().contains(x)
        && w2[x] == h.w0[x] by {
        assert(crate::gc::mark_compact::marking::frame_apart(h, x));
        assert(frame_kept(h, w));
        if ad.contains(x) {
            let i = choose|i: int| 0 <= i < ad.len() && ad[i] == x;
            assert(header_state(h, w, u, a));
            assert(on_chain(h, u, a, u.chains[a][i]));
            lemma_slots_apart(h, w, u, u.chains[a][i], u.chains[a][i], a);
        }
        assert(w1[x] == w[x]);
        assert(w2[x] == w1[x]);
    }
}

/// Whether `s` is the field of the moved object that is visited next.
pub open spec fn next_field(h: Heap, u: Slide, s: Spot) -> bool {
    match s {
        Spot::Static(_) => false,
        Spot::Field(b, k) => u.cur == Some((b, k - first(h, b))) && first(h, b) <= k < first(h, b)
            + count(h, b),
    }
}

/// The state after the field `s` of the moved object was visited.
pub open spec fn step_field(u: Slide) -> Slide {
    Slide { cur: Some((u.cur->Some_0.0, u.cur->Some_0.1 + 1)), ..u }
}

/// The state after the field `s` of the moved object was visited and
/// threaded onto the chain of the object at `t`.
pub open spec fn step_threaded(u: Slide, s: Spot, t: int) -> Slide {
    Slide { chains: u.chains.insert(t, u.chains[t].push(s)), ..step_field(u) }
}

/// After the visit of a field of the moved object that field is done, and
/// nothing else has changed.
pub proof fn lemma_field_step(h: Heap, w: Map<int, u32>, u: Slide, s: Spot, s2: Spot)
    requires
        sliding(h, w, u),
        live(h, u, s),
        next_field(h, u, s),
    ensures
        forall|c: int| moved(step_field(u), c) == moved(u, c) && place(step_field(u), c) == place(
            u,
            c,
        ),
        slot(h, step_field(u), s2) == slot(h, u, s2),
        live(h, step_field(u), s2) == live(h, u, s2),
        s2 != s && points(h, s2) ==> threaded_now(h, step_field(u), s2) == threaded_now(h, u, s2),
        s matches Spot::Field(b, _) && moved(u, b),
        points(h, s) && !moved(u, spot_target(h, s)) ==> !threaded_now(h, u, s) && threaded_now(
            h,
            step_field(u),
            s,
        ),
        forall|t: int|
            threaded_now(h, step_threaded(u, s, t), s2) == threaded_now(h, step_field(u), s2)
                && slot(h, step_threaded(u, s, t), s2) == slot(h, u, s2) && live(
                h,
                step_threaded(u, s, t),
                s2,
            ) == live(h, u, s2),
{
}

/// A field of the moved object that needs no threading is visited: it
/// holds no pointer, or a pointer to an object that was moved.
pub proof fn lemma_fwd_plain(h: Heap, w: Map<int, u32>, u: Slide, s: Spot)
    requires
        sliding(h, w, u),
        live(h, u, s),
        next_field(h, u, s),
        points(h, s) ==> moved(u, spot_target(h, s)),
    ensures
        sliding(h, w, step_field(u)),
{
    let u2 = step_field(u);
    lemma_field_step(h, w, u, s, s);
    assert forall|s2: Spot| #[trigger] live(h, u2, s2) implies slot_state(h, w, u2, s2) by {
        assert(live(h, u, s2));
        assert(slot_state(h, w, u, s2));
        lemma_field_step(h, w, u, s, s2);
    }
    assert forall|a: int| #[trigger] u2.marked.contains(a) implies header_state(h, w, u2, a) by {
        assert(header_state(h, w, u, a));
        if !moved(u, a) {
            let chain = u.chains[a];
            assert forall|i: int| 0 <= i < chain.len() implies on_chain(
                h,
                u2,
                a,
                #[trigger] chain[i],
            ) && slot(h, u2, chain[i]) == slot(h, u, chain[i]) by {
                assert(on_chain(h, u, a, chain[i]));
                lemma_field_step(h, w, u, s, chain[i]);
            }
            assert(slots(h, u2, chain) =~= slots(h, u, chain));
        }
    }
    assert forall|s2: Spot| #[trigger] live(h, u2, s2) && points(h, s2) implies u2.marked.contains(
        spot_target(h, s2),
    ) by {
        assert(live(h, u, s2));
    }
    assert forall|c: int| #[trigger] u2.marked.contains(c) && c < u2.pos implies move_ok(
        h,
        u2,
        c,
    ) by {
        assert(move_ok(h, u, c));
    }
}

/// What threading the field `s` leaves of a link of a chain.
proof fn lemma_fwd_link(h: Heap, w: Map<int, u32>, u: Slide, s: Spot, a: int, i: int)
    requires
        sliding(h, w, u),
        live(h, u, s),
        next_field(h, u, s),
        points(h, s),
        !moved(u, spot_target(h, s)),
        u.marked.contains(a),
        !moved(u, a),
        0 <= i < u.chains[a].len(),
    ensures
        ({
            let t = spot_target(h, s);
            let p = slot(h, u, s);
            let q = slot(h, u, u.chains[a][i]);
            &&& u.marked.contains(t)
            &&& w[p] == spot_value(h, s)
            &&& w.dom().contains(p) && w.dom().contains(t)
            &&& p != a && p != t && p % 4 == 0 && 0 <= p <= 0xffff_fffb
            &&& on_chain(h, step_threaded(u, s, t), a, u.chains[a][i])
            &&& q != p && q != t
            &&& w.dom().contains(q)
            &&& q == slots(h, u, u.chains[a])[i]
            &&& q == slots(h, step_threaded(u, s, t), u.chains[a])[i]
        }),
{
    let t = spot_target(h, s);
    let c = u.chains[a][i];
    assert(slot_state(h, w, u, s));
    lemma_field_step(h, w, u, s, s);
    lemma_field_step(h, w, u, s, c);
    assert(header_state(h, w, u, a));
    assert(header_state(h, w, u, t));
    assert(on_chain(h, u, a, c));
    lemma_slots_apart(h, w, u, c, s, t);
    lemma_slots_apart(h, w, u, s, s, t);
    lemma_slots_apart(h, w, u, s, s, a);
    assert(chained(w, slots(h, u, u.chains[a]), h.w0[a], u.chains[a].len() as int));
    assert(w.dom().contains(slots(h, u, u.chains[a])[i]));
}

/// The chain of the object at `t` after the place `s` at `p` was threaded
/// onto it.
proof fn lemma_fwd_pushed(
    h: Heap,
    w: Map<int, u32>,
    u: Slide,
    u2: Slide,
    chain: Seq<Spot>,
    s: Spot,
    t: int,
    p: int,
)
    requires
        chained(w, slots(h, u, chain), h.w0[t], chain.len() as int),
        w[t] == link(slots(h, u, chain), h.w0[t], chain.len() as int),
        w.dom().contains(t),
        w.dom().contains(p),
        0 <= p <= 0xffff_ffff,
        p % 2 == 0,
        p != t,
        p == slot(h, u2, s),
        forall|i: int|
            0 <= i < chain.len() ==> #[trigger] slots(h, u, chain)[i] != p && slots(h, u, chain)[i]
                != t && slots(h, u2, chain)[i] == slots(h, u, chain)[i],
        forall|i: int| 0 <= i < chain.len() ==> on_chain(h, u2, t, #[trigger] chain[i]),
        on_chain(h, u2, t, s),
        u2.chains[t] == chain.push(s),
        !moved(u2, t),
    ensures
        header_state(h, w.insert(p, w[t]).insert(t, p as u32), u2, t),
{
    let ad = slots(h, u, chain);
    crate::gc::mark_compact::threading::lemma_chain_push(w, ad, h.w0[t], t, p);
    assert(slots(h, u2, chain.push(s)) =~= ad.push(p));
    let chain2 = chain.push(s);
    assert forall|i: int| 0 <= i < chain2.len() implies on_chain(h, u2, t, #[trigger] chain2[i]) by {
        if i < chain.len() {
            assert(chain2[i] == chain[i]);
        }
    }
}

/// What holds of the header of a marked object after a field of the moved
/// object was threaded.
#[verifier::rlimit(50)]
proof fn lemma_fwd_header(h: Heap, w: Map<int, u32>, u: Slide, s: Spot, a: int)
    requires
        sliding(h, w, u),
        live(h, u, s),
        next_field(h, u, s),
        points(h, s),
        !moved(u, spot_target(h, s)),
        u.marked.contains(a),
    ensures
        header_state(
            h,
            crate::gc::mark_compact::threaded(w, slot(h, u, s)),
            step_threaded(u, s, spot_target(h, s)),
            a,
        ),
{
    let t = spot_target(h, s);
    let p = slot(h, u, s);
    let w2 = crate::gc::mark_compact::threaded(w, p);
    let u2 = step_threaded(u, s, t);
    assert(slot_state(h, w, u, s));
    lemma_field_step(h, w, u, s, s);
    assert(u.marked.contains(t));
    assert(w[p] == spot_value(h, s));
    assert(header_state(h, w, u, a));
    assert(header_state(h, w, u, t));
    lemma_slots_apart(h, w, u, s, s, a);
    lemma_slots_apart(h, w, u, s, s, t);
    assert(obj_ok(h, a));
    assert(obj_ok(h, t));
    if a != t {
        if a < t {
            lemma_places_apart(h, w, u, a, t);
        } else {
            lemma_places_apart(h, w, u, t, a);
        }
    }
    if moved(u, a) {
        assert(w2[u.new[a]] == w[u.new[a]]);
    } else {
        let chain = u.chains[a];
        let ad = slots(h, u, chain);
        let n = chain.len() as int;
        assert forall|i: int| 0 <= i < n implies on_chain(h, u2, a, #[trigger] chain[i]) by {
            lemma_fwd_link(h, w, u, s, a, i);
        }
        assert forall|i: int| 0 <= i < n implies #[trigger] ad[i] != p && ad[i] != t && slots(
            h,
            u2,
            chain,
        )[i] == ad[i] && w2.dom().contains(ad[i]) && w2[ad[i]] == w[ad[i]] by {
            lemma_fwd_link(h, w, u, s, a, i);
        }
        if a == t {
            lemma_fwd_pushed(h, w, u, u2, chain, s, t, p);
        } else {
            assert(u2.chains[a] == chain);
            assert(slots(h, u2, chain) =~= ad);
            crate::gc::mark_compact::threading::lemma_chain_frame(w, w2, ad, h.w0[a], n);
        }
    }
}

/// A field of the moved object that points forwards, to an object that was
/// not moved, is visited and threaded.
#[verifier::rlimit(50)]
pub proof fn lemma_fwd_thread(h: Heap, w: Map<int, u32>, u: Slide, s: Spot)
    requires
        sliding(h, w, u),
        live(h, u, s),
        next_field(h, u, s),
        points(h, s),
        !moved(u, spot_target(h, s)),
    ensures
        sliding(
            h,
            crate::gc::mark_compact::threaded(w, slot(h, u, s)),
            step_threaded(u, s, spot_target(h, s)),
        ),
{
    let t = spot_target(h, s);
    let p = slot(h, u, s);
    let w2 = crate::gc::mark_compact::threaded(w, p);
    let u2 = step_threaded(u, s, t);
    assert(slot_state(h, w, u, s));
    lemma_field_step(h, w, u, s, s);
    assert(u.marked.contains(t));
    assert(w[p] == spot_value(h, s));
    assert(header_state(h, w, u, t));
    lemma_slots_apart(h, w, u, s, s, t);
    assert forall|a: int| #[trigger] u2.marked.contains(a) implies header_state(h, w2, u2, a) by {
        lemma_fwd_header(h, w, u, s, a);
    }
    assert forall|s2: Spot| #[trigger] live(h, u2, s2) implies slot_state(h, w2, u2, s2) by {
        lemma_field_step(h, w, u, s, s2);
        assert(live(h, u, s2));
        assert(slot_state(h, w, u, s2));
        lemma_slots_apart(h, w, u, s2, s, t);
        let t2 = spot_target(h, s2);
        if s2 == s {
            assert(u2.chains[t][u.chains[t].len() as int] == s);
        } else {
            assert(w2[slot(h, u, s2)] == w[slot(h, u, s2)]);
            if points(h, s2) && !moved(u, t2) && threaded_now(h, u, s2) {
                let i = choose|i: int| 0 <= i < u.chains[t2].len() && u.chains[t2][i] == s2;
                if t2 == t {
                    assert(u2.chains[t2][i] == s2);
                }
            }
        }
    }
    assert forall|s2: Spot| #[trigger] live(h, u2, s2) && points(h, s2) implies u2.marked.contains(
        spot_target(h, s2),
    ) by {
        assert(live(h, u, s2));
    }
    assert forall|c: int| #[trigger] u2.marked.contains(c) && c < u2.pos implies move_ok(
        h,
        u2,
        c,
    ) by {
        assert(move_ok(h, u, c));
    }
    assert forall|x: int| #[trigger] root_frame(h.w0, h.roots, x) implies w2.dom().contains(x)
        && w2[x] == h.w0[x] by {
        assert(crate::gc::mark_compact::marking::frame_apart(h, x));
        assert(frame_kept(h, w));
        assert(obj_ok(h, t));
        lemma_slots_apart(h, w, u, s, s, t);
    }
}

/// A moved object all of whose fields were visited is done.
pub proof fn lemma_fwd_end(h: Heap, w: Map<int, u32>, u: Slide)
    requires
        sliding(h, w, u),
        u.cur is Some,
        u.cur->Some_0.1 == count(h, u.cur->Some_0.0),
    ensures
        sliding(h, w, Slide { cur: None, ..u }),
{
    let u2 = Slide { cur: None, ..u };
    assert forall|s2: Spot| points(h, s2) && spot_ok(h, s2) implies threaded_now(h, u2, s2)
        == threaded_now(h, u, s2) by {}
    assert forall|s2: Spot| #[trigger] live(h, u2, s2) implies slot_state(h, w, u2, s2) by {
        assert(live(h, u, s2));
        assert(slot_state(h, w, u, s2));
    }
    assert forall|a: int| #[trigger] u2.marked.contains(a) implies header_state(h, w, u2, a) by {
        assert(header_state(h, w, u, a));
        if !moved(u, a) {
            let chain = u.chains[a];
            assert forall|i: int| 0 <= i < chain.len() implies on_chain(
                h,
                u2,
                a,
                #[trigger] chain[i],
            ) by {
                assert(on_chain(h, u, a, chain[i]));
            }
            assert(slots(h, u2, chain) =~= slots(h, u, chain));
        }
    }
    assert forall|s2: Spot| #[trigger] live(h, u2, s2) && points(h, s2) implies u2.marked.contains(
        spot_target(h, s2),
    ) by {
        assert(live(h, u, s2));
    }
    assert forall|c: int| #[trigger] u2.marked.contains(c) && c < u2.pos implies move_ok(
        h,
        u2,
        c,
    ) by {
        assert(move_ok(h, u, c));
    }
}

/// Whether the word at `x` is idle: no word of a marked object where that
/// is now, no static place, and no word of the array of roots or of the
/// header of a root box.
pub open spec fn idle(h: Heap, u: Slide, x: int) -> bool {
    &&& forall|c: int|
        #[trigger] u.marked.contains(c) ==> !(place(u, c) <= x < place(u, c) + 4 * size0(h.w0, c))
    &&& forall|i: int| 0 <= i < static_count(h) ==> #[trigger] static_addr(h, i) != x
    &&& !root_frame(h.w0, h.roots, x)
}

/// A write to an idle word leaves the invariant of the second pass alone.
pub proof fn lemma_idle_write(h: Heap, w: Map<int, u32>, u: Slide, x: int, v: u32)
    requires
        sliding(h, w, u),
        idle(h, u, x),
    ensures
        sliding(h, w.insert(x, v), u),
{
    let w2 = w.insert(x, v);
    assert forall|s: Spot| #[trigger] live(h, u, s) implies slot_state(h, w2, u, s) && slot(
        h,
        u,
        s,
    ) != x by {
        assert(slot_state(h, w, u, s));
        lemma_slot_in(h, w, u, s);
        match s {
            Spot::Static(i) => {},
            Spot::Field(b, k) => {},
        }
    }
    assert forall|a: int| #[trigger] u.marked.contains(a) implies header_state(h, w2, u, a) by {
        assert(header_state(h, w, u, a));
        assert(obj_ok(h, a));
        if !moved(u, a) {
            let chain = u.chains[a];
            let ad = slots(h, u, chain);
            assert forall|i: int| 0 <= i < chain.len() implies w2.dom().contains(#[trigger] ad[i])
                && w2[ad[i]] == w[ad[i]] by {
                assert(on_chain(h, u, a, chain[i]));
                assert(live(h, u, chain[i]));
                assert(w.dom().contains(ad[i]));
            }
            crate::gc::mark_compact::threading::lemma_chain_frame(
                w,
                w2,
                ad,
                h.w0[a],
                chain.len() as int,
            );
        }
    }
}

/// Unthreading the object that is moved next succeeds and leaves every
/// place that points to the object pointing to where it goes.  The tag and
/// the size of the object are found though its header is threaded.
pub proof fn lemma_unthreaded(h: Heap, w: Map<int, u32>, u: Slide, a: int, d: int)
    requires
        sliding(h, w, u),
        next_move(h, w, u, a, d),
    ensures
        w.dom().contains(a),
        spec_get_tag(w, a) == Ok::<u32, Trap>(h.w0[a]),
        spec_object_size_(w, a, h.w0[a]) == Ok::<Words<u32>, Trap>(Words(size0(h.w0, a) as u32)),
        unthread_outcome(w, a, d) is Ok,
        unthread_words(h, w, unthreaded(w, a, d), u, a, d),
        forall|k: int| 0 <= k < size0(h.w0, a) ==> #[trigger] w.dom().contains(a + 4 * k),
        0 < size0(h.w0, a) <= 0x3fff_ffff,
{
    lemma_next_move(h, w, u, a, d, a);
    assert(header_state(h, w, u, a));
    let chain = u.chains[a];
    let ad = slots(h, u, chain);
    assert forall|i: int| 0 <= i < ad.len() implies #[trigger] ad[i] % 4 == 0 && ad[i] != a by {
        assert(on_chain(h, u, a, chain[i]));
        lemma_slots_apart(h, w, u, chain[i], chain[i], a);
    }
    lemma_unthread_chain(w, ad, h.w0[a], a, d);
    let off = length_offset(h.w0[a]);
    if off != 0 {
        let k = off / 4;
        let s = Spot::Field(a, k);
        assert(live(h, u, s));
        assert(slot_state(h, w, u, s));
        assert(!points(h, s));
    }
    assert(length_word(w, a, h.w0[a]) == length_word(h.w0, a, h.w0[a]));
    assert forall|k: int| 0 <= k < size0(h.w0, a) implies #[trigger] w.dom().contains(
        a + 4 * k,
    ) by {
        if k > 0 {
            let s = Spot::Field(a, k);
            assert(live(h, u, s));
            assert(slot_state(h, w, u, s));
        }
    }
}

/// What a copy of `n` words from `a` down to `d` leaves.
pub proof fn lemma_copied(w1: Map<int, u32>, a: int, d: int, n: int)
    requires
        forall|k: int| 0 <= k < n ==> #[trigger] w1.dom().contains(d + 4 * k),
        d % 4 == 0,
        a % 4 == 0,
        d <= a,
        0 <= n,
    ensures
        copy_words(w1, copy_region(w1, d, a, n), a, d, n),
{
    let w2 = copy_region(w1, d, a, n);
    assert(mapped_range(w1, d, d + 4 * n)) by {
        assert forall|x: int| d <= x < d + 4 * n && x % 4 == 0 implies #[trigger] w1.dom().contains(
            x,
        ) by {
            let k = (x - d) / 4;
            assert(x == d + 4 * k);
        }
    }
    lemma_copy_region_frame(w1, d, a, n);
    assert forall|k: int| 0 <= k < n implies #[trigger] w2[d + 4 * k] == w1[a + 4 * k] by {
        lemma_copy_region_content(w1, d, a, n, k);
    }
}

/// The second pass starts in the state that the mark phase leaves when
/// all static places were visited and the stack is empty: no object was
/// moved.
pub proof fn lemma_slide_start(h: Heap, w: Map<int, u32>, m: Marks)
    requires
        marking(h, w, m),
        m.cur is None,
        m.stack.len() == 0,
        m.nd == static_count(h),
    ensures
        sliding(
            h,
            w,
            Slide {
                marked: m.marked,
                pos: 0,
                free: 0,
                new: Map::empty(),
                cur: None,
                chains: m.chains,
            },
        ),
{
    let u = Slide {
        marked: m.marked,
        pos: 0,
        free: 0,
        new: Map::empty(),
        cur: None,
        chains: m.chains,
    };
    assert forall|b: int| h.objs.contains(b) implies !moved(u, b) && place(u, b) == b && (
    m.marked.contains(b) ==> crate::gc::mark_compact::marking::done(h, m, b) == count(h, b)) by {
        assert(obj_ok(h, b));
        assert(!m.stack.contains(b));
    }
    assert forall|s: Spot| #[trigger] live(h, u, s) implies slot_state(h, w, u, s) && (points(h, s)
        ==> u.marked.contains(spot_target(h, s))) && slot(h, u, s)
        == crate::gc::mark_compact::marking::spot_addr(h, s) by {
        assert(crate::gc::mark_compact::marking::spot_state(h, w, m, s));
        match s {
            Spot::Static(_) => {},
            Spot::Field(b, k) => {
                assert(obj_ok(h, b));
            },
        }
        if points(h, s) {
            crate::gc::mark_compact::marking::lemma_target(h, s);
        }
    }
    assert forall|a: int| #[trigger] u.marked.contains(a) implies header_state(h, w, u, a) by {
        assert(crate::gc::mark_compact::marking::chain_state(h, w, m, a));
        let chain = m.chains[a];
        assert forall|i: int| 0 <= i < chain.len() implies on_chain(h, u, a, #[trigger] chain[i])
            && slot(h, u, chain[i]) == crate::gc::mark_compact::marking::spot_addr(
            h,
            chain[i],
        ) by {
            let s = chain[i];
            assert(crate::gc::mark_compact::marking::on_chain(h, m, a, s));
            match s {
                Spot::Static(_) => {},
                Spot::Field(b, k) => {
                    assert(obj_ok(h, b));
                    if !m.marked.contains(b) {
                        assert(crate::gc::mark_compact::marking::done(h, m, b) == 0);
                    }
                },
            }
        }
        assert(slots(h, u, chain) =~= crate::gc::mark_compact::marking::addrs(h, chain));
    }
    assert forall|a: int| #[trigger] u.marked.contains(a) && a >= u.pos implies u.free <= a by {
        assert(obj_ok(h, a));
    }
}

/// What the second pass leaves when all marked objects were moved: every
/// live place that held a pointer points to where the object is that it
/// pointed to, every other live word holds what it held, and every moved
/// object has its tag.
pub proof fn lemma_slide_done(h: Heap, w: Map<int, u32>, u: Slide, s: Spot)
    requires
        sliding(h, w, u),
        forall|a: int| #[trigger] u.marked.contains(a) ==> a < u.pos,
        live(h, u, s),
    ensures
        w.dom().contains(slot(h, u, s)),
        points(h, s) ==> u.marked.contains(spot_target(h, s)) && w[slot(h, u, s)] == ptr_to(
            u.new[spot_target(h, s)],
        ),
        !points(h, s) ==> w[slot(h, u, s)] == spot_value(h, s),
{
    assert(slot_state(h, w, u, s));
}

/// What the second pass has done so far, whatever the chains are: the
/// marked objects, how far it has come, and where the moved objects are.
pub open spec fn moves_of(u: Slide) -> (Set<int>, int, int, Map<int, int>) {
    (u.marked, u.pos, u.free, u.new)
}

/// The state in which the first `j` pointer fields of the moved object
/// were visited, with the moves of `u`.
pub open spec fn fwd_mid(h: Heap, w: Map<int, u32>, u: Slide, j: int) -> bool {
    exists|u2: Slide| #[trigger]
        sliding(h, w, u2) && u2.cur == Some((u.cur->Some_0.0, j)) && moves_of(u2) == moves_of(u)
}

/// The state in which all forward pointers of the moved object were
/// threaded, with the moves of `u`.
pub open spec fn fwd_done(h: Heap, w: Map<int, u32>, u: Slide) -> bool {
    exists|u2: Slide| #[trigger]
        sliding(h, w, u2) && u2.cur is None && moves_of(u2) == moves_of(u)
}

/// What the collection reads of the moved object whose forward pointers
/// it threads: its tag and its pointer fields, where the object is now.
pub proof fn lemma_moved_object(h: Heap, w: Map<int, u32>, u: Slide, j: int)
    requires
        u.cur is Some,
        fwd_mid(h, w, u, j),
    ensures
        ({
            let a = u.cur->Some_0.0;
            let d = u.new[a];
            &&& w.dom().contains(d)
            &&& w[d] == h.w0[a]
            &&& 0 < d <= a
            &&& d % 4 == 0
            &&& spec_pointer_fields(w, d, h.w0[a]) == Ok::<(usize, u32), Trap>(
                ((d + 4 * first(h, a)) as usize, count(h, a) as u32),
            )
            &&& 0 <= j <= count(h, a) <= 0x3fff_ffff
            &&& d + 4 * first(h, a) + 4 * count(h, a) <= 0xffff_ffff
            &&& forall|k: int| 0 <= k < size0(h.w0, a) ==> #[trigger] w.dom().contains(d + 4 * k)
            &&& obj_ok(h, a)
        }),
{
    let a = u.cur->Some_0.0;
    let u2 = choose|u2: Slide| #[trigger]
        sliding(h, w, u2) && u2.cur == Some((u.cur->Some_0.0, j)) && moves_of(u2) == moves_of(u);
    let d = u2.new[a];
    assert(u2.marked.contains(a));
    assert(obj_ok(h, a));
    assert(move_ok(h, u2, a));
    assert(header_state(h, w, u2, a));
    let off = length_offset(h.w0[a]);
    if off != 0 {
        let k = off / 4;
        let s = Spot::Field(a, k);
        assert(live(h, u2, s));
        assert(slot_state(h, w, u2, s));
        assert(!points(h, s));
    }
    assert(length_word(w, d, h.w0[a]) == length_word(h.w0, a, h.w0[a]));
    assert forall|k: int| 0 <= k < size0(h.w0, a) implies #[trigger] w.dom().contains(
        d + 4 * k,
    ) by {
        if k > 0 {
            let s = Spot::Field(a, k);
            assert(live(h, u2, s));
            assert(slot_state(h, w, u2, s));
        }
    }
}

/// The visit of the next pointer field of the moved object: the field is
/// threaded where it holds a pointer to an address above the one that the
/// object was moved from, which is then the address of an object that was
/// not moved.
#[verifier::rlimit(50)]
pub proof fn lemma_fwd_step(
    h: Heap,
    w: Map<int, u32>,
    w2: Map<int, u32>,
    u: Slide,
    j: int,
    dynamic: bool,
    did_thread: bool,
)
    requires
        u.cur is Some,
        fwd_mid(h, w, u, j),
        0 <= j < count(h, u.cur->Some_0.0),
        ({
            let a = u.cur->Some_0.0;
            let p = u.new[a] + 4 * (first(h, a) + j);
            let v = Value(w[p]);
            &&& h.objs.contains(v.spec_get_ptr()) ==> dynamic
            &&& did_thread == (v.spec_is_ptr() && v.spec_get_ptr() > a && dynamic)
            &&& w2 == if did_thread {
                threaded(w, p)
            } else {
                w
            }
        }),
    ensures
        fwd_mid(h, w2, u, j + 1),
        did_thread ==> thread_outcome(
            w,
            u.new[u.cur->Some_0.0] + 4 * (first(h, u.cur->Some_0.0) + j),
        ) is Ok,
        idle_kept(h, u, w, w2),
{
    let a = u.cur->Some_0.0;
    let u2 = choose|u2: Slide| #[trigger]
        sliding(h, w, u2) && u2.cur == Some((u.cur->Some_0.0, j)) && moves_of(u2) == moves_of(u);
    let k = first(h, a) + j;
    let s = Spot::Field(a, k);
    let p = u2.new[a] + 4 * k;
    assert(u2.marked.contains(a));
    assert(obj_ok(h, a));
    assert(live(h, u2, s));
    assert(next_field(h, u2, s));
    assert(slot_state(h, w, u2, s));
    assert(slot(h, u2, s) == p);
    let t = spot_target(h, s);
    if points(h, s) {
        assert(u2.marked.contains(t));
        assert(obj_ok(h, t));
        if moved(u2, t) {
            assert(move_ok(h, u2, t));
            crate::types::lemma_ptr_round_trip(u2.new[t]);
            assert(!did_thread);
            lemma_fwd_plain(h, w, u2, s);
            assert(sliding(h, w2, step_field(u2)));
        } else {
            assert(header_state(h, w, u2, t));
            assert(did_thread);
            lemma_fwd_thread(h, w, u2, s);
            assert(sliding(h, w2, step_threaded(u2, s, t)));
            lemma_slot_in(h, w, u2, s);
            assert forall|x: int| #[trigger] idle(h, u, x) implies w2.dom().contains(x)
                == w.dom().contains(x) && w2[x] == w[x] by {
                assert(u2.marked.contains(t) && u2.marked.contains(a));
                assert(place(u, t) == place(u2, t) && place(u, a) == place(u2, a));
                assert(x != t);
                assert(x != p);
            }
        }
    } else {
        assert(!did_thread);
        lemma_fwd_plain(h, w, u2, s);
        assert(sliding(h, w2, step_field(u2)));
    }
}

/// The forward pointers of the moved object are threaded when all its
/// pointer fields were visited.
pub proof fn lemma_fwd_finish(h: Heap, w: Map<int, u32>, u: Slide)
    requires
        u.cur is Some,
        fwd_mid(h, w, u, count(h, u.cur->Some_0.0)),
    ensures
        fwd_done(h, w, u),
{
    let u2 = choose|u2: Slide| #[trigger]
        sliding(h, w, u2) && u2.cur == Some((u.cur->Some_0.0, count(h, u.cur->Some_0.0)))
            && moves_of(u2) == moves_of(u);
    lemma_fwd_end(h, w, u2);
    assert(sliding(h, w, Slide { cur: None, ..u2 }));
}

/// What the collection reads of the moved object whose forward pointers
/// it threads.
pub open spec fn moved_read(h: Heap, w: Map<int, u32>, u: Slide) -> bool {
    let a = u.cur->Some_0.0;
    let d = u.new[a];
    &&& w.dom().contains(d)
    &&& w[d] == h.w0[a]
    &&& 0 < d <= a
    &&& d % 4 == 0
    &&& spec_pointer_fields(w, d, h.w0[a]) == Ok::<(usize, u32), Trap>(
        ((d + 4 * first(h, a)) as usize, count(h, a) as u32),
    )
    &&& 0 <= count(h, a) <= 0x3fff_ffff
    &&& d + 4 * first(h, a) + 4 * count(h, a) <= 0xffff_ffff
    &&& forall|k: int| 0 <= k < size0(h.w0, a) ==> #[trigger] w.dom().contains(d + 4 * k)
    &&& obj_ok(h, a)
}

/// The tag and the size of a marked object that was not moved are found
/// though its header is threaded.
pub proof fn lemma_read_unmoved(h: Heap, w: Map<int, u32>, u: Slide, a: int)
    requires
        sliding(h, w, u),
        u.marked.contains(a),
        !moved(u, a),
    ensures
        w.dom().contains(a),
        spec_get_tag(w, a) == Ok::<u32, Trap>(h.w0[a]),
        spec_object_size_(w, a, h.w0[a]) == Ok::<Words<u32>, Trap>(Words(size0(h.w0, a) as u32)),
        0 < size0(h.w0, a) <= 0x3fff_ffff,
{
    assert(obj_ok(h, a));
    assert(header_state(h, w, u, a));
    let chain = u.chains[a];
    let ad = slots(h, u, chain);
    assert forall|i: int| 0 <= i < ad.len() implies #[trigger] ad[i] % 4 == 0 && ad[i] != a by {
        assert(on_chain(h, u, a, chain[i]));
        lemma_slots_apart(h, w, u, chain[i], chain[i], a);
    }
    lemma_unthread_chain(w, ad, h.w0[a], a, a);
    let off = length_offset(h.w0[a]);
    if off != 0 {
        let k = off / 4;
        let s = Spot::Field(a, k);
        assert(live(h, u, s));
        assert(slot_state(h, w, u, s));
        assert(!points(h, s));
    }
    assert(length_word(w, a, h.w0[a]) == length_word(h.w0, a, h.w0[a]));
}

/// An object that is reachable is marked.
pub proof fn lemma_reach_marked(h: Heap, w: Map<int, u32>, u: Slide, a: int, n: nat)
    requires
        sliding(h, w, u),
        crate::gc::mark_compact::marking::reach(h, a, n),
    ensures
        u.marked.contains(a),
    decreases n,
{
    if exists|i: int| #[trigger] crate::gc::mark_compact::marking::edge(h, Spot::Static(i), a) {
        let i = choose|i: int| #[trigger]
            crate::gc::mark_compact::marking::edge(h, Spot::Static(i), a);
        assert(live(h, u, Spot::Static(i)));
    } else {
        let (b, k) = choose|b: int, k: int|
            crate::gc::mark_compact::marking::reach(h, b, (n - 1) as nat)
                && #[trigger] crate::gc::mark_compact::marking::edge(h, Spot::Field(b, k), a);
        lemma_reach_marked(h, w, u, b, (n - 1) as nat);
        assert(live(h, u, Spot::Field(b, k)));
    }
}

/// The idle words of the memory `w2` are those of the memory `w`.
pub open spec fn idle_kept(h: Heap, u: Slide, w: Map<int, u32>, w2: Map<int, u32>) -> bool {
    forall|x: int|
        #[trigger] idle(h, u, x) ==> w2.dom().contains(x) == w.dom().contains(x) && w2[x] == w[x]
}

/// The move of an object leaves the words alone that are idle before it
/// and after it.
pub proof fn lemma_moved_keeps(
    h: Heap,
    w: Map<int, u32>,
    w1: Map<int, u32>,
    w2: Map<int, u32>,
    u: Slide,
    a: int,
    d: int,
    x: int,
)
    requires
        sliding(h, w, u),
        next_move(h, w, u, a, d),
        unthread_words(h, w, w1, u, a, d),
        copy_words(w1, w2, a, d, size0(h.w0, a)),
        idle(h, u, x),
        idle(h, after_move(h, u, a, d), x),
    ensures
        w2.dom().contains(x) == w.dom().contains(x),
        w2[x] == w[x],
{
    let u2 = after_move(h, u, a, d);
    let ad = slots(h, u, u.chains[a]);
    lemma_next_move(h, w, u, a, d, a);
    assert(header_state(h, w, u, a));
    assert(u2.marked.contains(a) && u.marked.contains(a));
    assert(obj_ok(h, a));
    assert(!(d <= x < d + 4 * size0(h.w0, a)));
    assert(x != a);
    assert(w2[x] == w1[x]);
    if ad.contains(x) {
        let i = choose|i: int| 0 <= i < ad.len() && ad[i] == x;
        let s = u.chains[a][i];
        assert(on_chain(h, u, a, s));
        lemma_slot_in(h, w, u, s);
        match s {
            Spot::Static(_) => {},
            Spot::Field(b, k) => {
                assert(u.marked.contains(b));
            },
        }
    }
}

} // verus!
