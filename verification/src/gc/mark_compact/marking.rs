//! The state of the mark phase of a compaction, as a model over the memory
//! before the collection: which objects are marked, which of their fields
//! were visited, and the chains that threading has built.
use vstd::prelude::*;
use crate::gc::copying::wellformed::{
    is_field_word, objects_apart, root_box, root_frame, size0, target_ok,
};
use crate::gc::mark_compact::threading::{chained, lemma_chain_frame, lemma_chain_push, link};
use crate::gc::mark_compact::threaded;
use crate::object::{field_count, field_offset, length_word, spec_object_size};
use crate::types::{is_object_tag, Value};

verus! {

/// The heap that is collected: the memory before the collection, the
/// addresses of its dynamic objects, the address of the array of static
/// roots and the address of the continuation table.
pub struct Heap {
    pub w0: Map<int, u32>,
    pub objs: Set<int>,
    pub roots: int,
    pub table: int,
}

/// A word of the heap that the collection may have to update: the field of
/// a root box or the continuation table, by its number, or a word of the body
/// of an object.
pub enum Spot {
    /// Static place number `i`
    Static(int),
    /// Word `k` of the object at `b`
    Field(int, int),
}

/// How far the mark phase has come.
pub struct Marks {
    /// The objects that are marked
    pub marked: Set<int>,
    /// The marked objects whose fields are still to be visited
    pub stack: Seq<int>,
    /// The object whose fields are being visited, with the number of its
    /// pointer fields that were visited
    pub cur: Option<(int, int)>,
    /// The number of static places that were visited
    pub nd: int,
    /// For each object the places that are threaded onto its header, in the
    /// order in which they were threaded
    pub chains: Map<int, Seq<Spot>>,
}

/// The number of static places: the fields of the root boxes and the
/// continuation table.
pub open spec fn static_count(h: Heap) -> int {
    h.w0[h.roots + 4] as int + 1
}

/// The address of static place `i`.
pub open spec fn static_addr(h: Heap, i: int) -> int {
    if i < h.w0[h.roots + 4] {
        root_box(h.w0, h.roots, i) + 4
    } else {
        h.table
    }
}

/// The index of the first pointer field of the object at `b`.
pub open spec fn first(h: Heap, b: int) -> int {
    field_offset(h.w0[b])
}

/// The number of pointer fields of the object at `b`.
pub open spec fn count(h: Heap, b: int) -> int {
    field_count(h.w0[b], length_word(h.w0, b, h.w0[b]))
}

/// The object at `a` is well formed: a tagged object of at least one word
/// whose pointer fields lie in it and hold scalars or pointers to objects.
pub open spec fn obj_ok(h: Heap, a: int) -> bool {
    let s = size0(h.w0, a);
    &&& a % 4 == 0
    &&& 0 < a
    &&& is_object_tag(h.w0[a])
    &&& spec_object_size(h.w0, a) is Ok
    &&& 1 <= s
    &&& a + 4 * s <= 0xffff_ffff
    &&& 1 <= first(h, a)
    &&& 0 <= count(h, a)
    &&& first(h, a) + count(h, a) <= s
    &&& forall|k: int| 0 <= k < s ==> #[trigger] h.w0.dom().contains(a + 4 * k)
    &&& forall|k: int|
        0 <= k < s && is_field_word(h.w0, a, k) ==> target_ok(h.objs, #[trigger] h.w0[a + 4 * k])
}

/// Static place `i` is a word outside of all objects that holds a scalar
/// or a pointer to an object.
pub open spec fn static_ok(h: Heap, i: int) -> bool {
    let p = static_addr(h, i);
    &&& p % 4 == 0
    &&& 0 <= p <= 0xffff_fffb
    &&& h.w0.dom().contains(p)
    &&& target_ok(h.objs, h.w0[p])
    &&& forall|a: int| #[trigger] h.objs.contains(a) ==> !(a <= p < a + 4 * size0(h.w0, a))
}

/// The word at `x` is no place of the heap and no word of an object.
pub open spec fn frame_apart(h: Heap, x: int) -> bool {
    &&& forall|i: int| 0 <= i < static_count(h) ==> #[trigger] static_addr(h, i) != x
    &&& forall|a: int| #[trigger] h.objs.contains(a) ==> !(a <= x < a + 4 * size0(h.w0, a))
}

/// The heap is well formed.
pub open spec fn heap_ok(h: Heap) -> bool {
    &&& h.objs.finite()
    &&& forall|x: int| #[trigger] root_frame(h.w0, h.roots, x) ==> frame_apart(h, x)
    &&& forall|a: int| #[trigger] h.objs.contains(a) ==> obj_ok(h, a)
    &&& objects_apart(h.w0, h.objs)
    &&& forall|i: int| 0 <= i < static_count(h) ==> #[trigger] static_ok(h, i)
    &&& forall|i: int, j: int|
        0 <= i < j < static_count(h) ==> #[trigger] static_addr(h, i) != #[trigger] static_addr(
            h,
            j,
        )
}

/// Whether `s` is a place of the heap.
pub open spec fn spot_ok(h: Heap, s: Spot) -> bool {
    match s {
        Spot::Static(i) => 0 <= i < static_count(h),
        Spot::Field(b, k) => h.objs.contains(b) && 1 <= k < size0(h.w0, b),
    }
}

/// The address of a place whose object was not moved.
pub open spec fn spot_addr(h: Heap, s: Spot) -> int {
    match s {
        Spot::Static(i) => static_addr(h, i),
        Spot::Field(b, k) => b + 4 * k,
    }
}

/// What a place held before the collection.
pub open spec fn spot_value(h: Heap, s: Spot) -> u32 {
    h.w0[spot_addr(h, s)]
}

/// The address that the place pointed to before the collection, where it
/// held a pointer.
pub open spec fn spot_target(h: Heap, s: Spot) -> int {
    Value(spot_value(h, s)).spec_get_ptr()
}

/// Whether the place held a pointer before the collection.
pub open spec fn points(h: Heap, s: Spot) -> bool {
    &&& match s {
        Spot::Static(_) => true,
        Spot::Field(b, k) => is_field_word(h.w0, b, k),
    }
    &&& Value(spot_value(h, s)).spec_is_ptr()
}

/// Whether the place is threaded by the mark phase: a static place, or a
/// field that points backwards or to its own object.
pub open spec fn backward(h: Heap, s: Spot) -> bool {
    match s {
        Spot::Static(_) => true,
        Spot::Field(b, _) => spot_target(h, s) <= b,
    }
}

/// The number of pointer fields of the object at `b` that were visited.
pub open spec fn done(h: Heap, m: Marks, b: int) -> int {
    if m.cur is Some && m.cur->Some_0.0 == b {
        m.cur->Some_0.1
    } else if m.marked.contains(b) && !m.stack.contains(b) {
        count(h, b)
    } else {
        0
    }
}

/// Whether the place was visited.
pub open spec fn spot_done(h: Heap, m: Marks, s: Spot) -> bool {
    match s {
        Spot::Static(i) => i < m.nd,
        Spot::Field(b, k) => k - first(h, b) < done(h, m, b),
    }
}

/// What holds of a place during the mark phase: a pointer that was visited
/// has its object marked, and is threaded where it points backwards;
/// everything else holds what it held.
pub open spec fn spot_state(h: Heap, w: Map<int, u32>, m: Marks, s: Spot) -> bool {
    let p = spot_addr(h, s);
    let t = spot_target(h, s);
    &&& w.dom().contains(p)
    &&& if spot_done(h, m, s) && points(h, s) {
        &&& m.marked.contains(t)
        &&& if backward(h, s) {
            m.chains[t].contains(s)
        } else {
            w[p] == spot_value(h, s)
        }
    } else {
        w[p] == spot_value(h, s)
    }
}

/// The addresses of the places of a chain.
pub open spec fn addrs(h: Heap, chain: Seq<Spot>) -> Seq<int> {
    Seq::new(chain.len(), |i: int| spot_addr(h, chain[i]))
}

/// Whether `s` belongs onto the chain of the object at `a`: it is a
/// pointer to the object that was visited and that the mark phase threads.
pub open spec fn on_chain(h: Heap, m: Marks, a: int, s: Spot) -> bool {
    &&& spot_ok(h, s)
    &&& spot_done(h, m, s)
    &&& points(h, s)
    &&& backward(h, s)
    &&& spot_target(h, s) == a
}

/// What holds of the header of the object at `a`: it is the start of the
/// chain of the places that were threaded onto it, which ends with the tag.
/// Only a marked object has places on its chain.
pub open spec fn chain_state(h: Heap, w: Map<int, u32>, m: Marks, a: int) -> bool {
    let chain = m.chains[a];
    &&& w.dom().contains(a)
    &&& chained(w, addrs(h, chain), h.w0[a], chain.len() as int)
    &&& w[a] == link(addrs(h, chain), h.w0[a], chain.len() as int)
    &&& chain.len() > 0 ==> m.marked.contains(a)
    &&& forall|i: int| 0 <= i < chain.len() ==> on_chain(h, m, a, #[trigger] chain[i])
}

/// The array of roots and the headers of the root boxes are as they were.
pub open spec fn frame_kept(h: Heap, w: Map<int, u32>) -> bool {
    forall|x: int| #[trigger] root_frame(h.w0, h.roots, x) ==> w.dom().contains(x) && w[x] == h.w0[x]
}

/// No entry is in the sequence twice.
#[verifier::opaque]
pub open spec fn no_dups(stack: Seq<int>) -> bool {
    forall|i: int, j: int| 0 <= i < j < stack.len() ==> stack[i] != stack[j]
}

/// What a sequence without the last of its entries holds, and what it
/// holds with one more.
pub proof fn lemma_stack_step(stack: Seq<int>, c: int)
    requires
        no_dups(stack),
    ensures
        stack.len() > 0 ==> no_dups(stack.drop_last()) && stack.contains(stack.last())
            && stack.drop_last().contains(c) == (stack.contains(c) && c != stack.last()),
        stack.push(c).contains(c),
        forall|b: int| b != c ==> stack.push(c).contains(b) == stack.contains(b),
        !stack.contains(c) ==> no_dups(stack.push(c)),
{
    reveal(no_dups);
    let more = stack.push(c);
    assert(more[stack.len() as int] == c);
    assert forall|b: int| b != c implies more.contains(b) == stack.contains(b) by {
        if stack.contains(b) {
            let i = choose|i: int| 0 <= i < stack.len() && stack[i] == b;
            assert(more[i] == b);
        }
        if more.contains(b) {
            let i = choose|i: int| 0 <= i < more.len() && more[i] == b;
            assert(stack[i] == b);
        }
    }
    if !stack.contains(c) {
        assert forall|i: int, j: int| 0 <= i < j < more.len() implies more[i] != more[j] by {
            if j == stack.len() {
                assert(stack.contains(stack[i]));
            }
        }
    }
    if stack.len() > 0 {
        let less = stack.drop_last();
        let n = stack.len() as int;
        assert(stack[n - 1] == stack.last());
        if less.contains(c) {
            let i = choose|i: int| 0 <= i < less.len() && less[i] == c;
            assert(stack[i] == c);
            assert(stack[i] != stack[n - 1]);
        }
        if stack.contains(c) && c != stack.last() {
            let i = choose|i: int| 0 <= i < stack.len() && stack[i] == c;
            assert(less[i] == c);
        }
        assert forall|i: int, j: int| 0 <= i < j < less.len() implies less[i] != less[j] by {
            assert(stack[i] != stack[j]);
        }
    }
}

/// Whether the place `s` holds a pointer to the object at `a`.
pub open spec fn edge(h: Heap, s: Spot, a: int) -> bool {
    spot_ok(h, s) && points(h, s) && spot_target(h, s) == a
}

/// Whether the object at `a` is reached from a static place over at most
/// `n` objects in between.
pub open spec fn reach(h: Heap, a: int, n: nat) -> bool
    decreases n,
{
    ||| exists|i: int| #[trigger] edge(h, Spot::Static(i), a)
    ||| n > 0 && exists|b: int, k: int|
        reach(h, b, (n - 1) as nat) && #[trigger] edge(h, Spot::Field(b, k), a)
}

/// Whether the object at `a` is reachable: a root box or the continuation
/// table points to it, or a pointer field of a reachable object does.
pub open spec fn reachable(h: Heap, a: int) -> bool {
    exists|n: nat| reach(h, a, n)
}

/// What a place of a reachable owner points to is reachable.
pub proof fn lemma_reach_step(h: Heap, s: Spot)
    requires
        spot_ok(h, s),
        points(h, s),
        s matches Spot::Field(b, _) ==> reachable(h, b),
    ensures
        reachable(h, spot_target(h, s)),
{
    let t = spot_target(h, s);
    match s {
        Spot::Static(i) => {
            assert(edge(h, Spot::Static(i), t));
            assert(reach(h, t, 0));
        },
        Spot::Field(b, k) => {
            let n = choose|n: nat| reach(h, b, n);
            assert(edge(h, Spot::Field(b, k), t));
            assert(reach(h, t, n + 1));
        },
    }
}

/// The invariant of the mark phase.
pub open spec fn marking(h: Heap, w: Map<int, u32>, m: Marks) -> bool {
    &&& heap_ok(h)
    &&& forall|a: int| #[trigger] m.marked.contains(a) ==> h.objs.contains(a)
    &&& forall|j: int| 0 <= j < m.stack.len() ==> m.marked.contains(#[trigger] m.stack[j])
    &&& no_dups(m.stack)
    &&& m.cur matches Some((b, j)) ==> m.marked.contains(b) && !m.stack.contains(b) && 0 <= j
        <= count(h, b)
    &&& 0 <= m.nd <= static_count(h)
    &&& forall|s: Spot| #[trigger] spot_ok(h, s) ==> spot_state(h, w, m, s)
    &&& forall|a: int| #[trigger] h.objs.contains(a) ==> chain_state(h, w, m, a)
    &&& frame_kept(h, w)
    &&& marks_reached(h, m.marked)
}

/// Every marked object is reachable.
pub open spec fn marks_reached(h: Heap, marked: Set<int>) -> bool {
    forall|a: int| #[trigger] marked.contains(a) ==> reachable(h, a)
}

/// Two places with one address are one place, and no place is the header
/// of an object.
pub proof fn lemma_spots_apart(h: Heap, s1: Spot, s2: Spot, a: int)
    requires
        heap_ok(h),
        spot_ok(h, s1),
        spot_ok(h, s2),
    ensures
        spot_addr(h, s1) == spot_addr(h, s2) ==> s1 == s2,
        h.objs.contains(a) ==> spot_addr(h, s1) != a,
        spot_addr(h, s1) % 4 == 0,
        0 <= spot_addr(h, s1) <= 0xffff_fffb,
{
    match s1 {
        Spot::Static(i) => {
            assert(static_ok(h, i));
            match s2 {
                Spot::Static(j) => {
                    if i < j {
                        assert(static_addr(h, i) != static_addr(h, j));
                    }
                    if j < i {
                        assert(static_addr(h, j) != static_addr(h, i));
                    }
                },
                Spot::Field(b, k) => {
                    assert(obj_ok(h, b));
                },
            }
            if h.objs.contains(a) {
                assert(obj_ok(h, a));
            }
        },
        Spot::Field(b, k) => {
            assert(obj_ok(h, b));
            match s2 {
                Spot::Static(j) => {
                    assert(static_ok(h, j));
                },
                Spot::Field(c, l) => {
                    assert(obj_ok(h, c));
                },
            }
            if h.objs.contains(a) {
                assert(obj_ok(h, a));
            }
        },
    }
}

/// Whether `s` is the place that is visited next.
pub open spec fn is_next(h: Heap, m: Marks, s: Spot) -> bool {
    match s {
        Spot::Static(i) => i == m.nd && i < static_count(h),
        Spot::Field(b, k) => m.cur == Some((b, k - first(h, b))) && first(h, b) <= k < first(h, b)
            + count(h, b),
    }
}

/// The state after the place `s` was visited, but for the chains.
pub open spec fn advance(m: Marks, s: Spot) -> Marks {
    match s {
        Spot::Static(_) => Marks { nd: m.nd + 1, ..m },
        Spot::Field(b, _) => Marks { cur: Some((b, m.cur->Some_0.1 + 1)), ..m },
    }
}

/// The state after the place `s` was visited and threaded onto the chain
/// of the object at `t`.
pub open spec fn advance_threaded(m: Marks, s: Spot, t: int) -> Marks {
    Marks { chains: m.chains.insert(t, m.chains[t].push(s)), ..advance(m, s) }
}

/// After a visit the place that was visited is done, and no other place of
/// the heap has changed.
pub proof fn lemma_done_step(h: Heap, m: Marks, s: Spot, s2: Spot)
    requires
        heap_ok(h),
        spot_ok(h, s),
        is_next(h, m, s),
    ensures
        !spot_done(h, m, s),
        spot_done(h, advance(m, s), s2) == (spot_done(h, m, s2) || s2 == s),
        forall|t: int| spot_done(h, advance_threaded(m, s, t), s2) == (spot_done(h, m, s2) || s2 == s),
{
    let m2 = advance(m, s);
    match s {
        Spot::Static(i) => {
            assert forall|b: int| done(h, m2, b) == done(h, m, b) by {}
            assert forall|t: int, b: int| done(h, advance_threaded(m, s, t), b) == done(h, m, b) by {}
        },
        Spot::Field(b, k) => {
            assert(done(h, m, b) == k - first(h, b));
            assert(done(h, m2, b) == k - first(h, b) + 1);
            assert forall|c: int| c != b implies done(h, m2, c) == done(h, m, c) by {}
            assert forall|t: int, c: int| done(h, advance_threaded(m, s, t), c) == done(h, m2, c) by {}
        },
    }
}

/// A newly marked object goes onto the stack.
pub proof fn lemma_mark_new(h: Heap, w: Map<int, u32>, m: Marks, t: int)
    requires
        marking(h, w, m),
        h.objs.contains(t),
        !m.marked.contains(t),
        reachable(h, t),
    ensures
        marking(h, w, Marks { marked: m.marked.insert(t), stack: m.stack.push(t), ..m }),
{
    let m2 = Marks { marked: m.marked.insert(t), stack: m.stack.push(t), ..m };
    lemma_stack_step(m.stack, t);
    assert(!m.stack.contains(t)) by {
        if m.stack.contains(t) {
            let i = choose|i: int| 0 <= i < m.stack.len() && m.stack[i] == t;
            assert(m.marked.contains(m.stack[i]));
        }
    }
    assert forall|j: int| 0 <= j < m2.stack.len() implies m2.marked.contains(
        #[trigger] m2.stack[j],
    ) by {
        if j < m.stack.len() {
            assert(m.marked.contains(m.stack[j]));
        }
    }
    assert forall|s: Spot| #[trigger] spot_ok(h, s) implies spot_state(h, w, m2, s) by {
        assert(spot_state(h, w, m, s));
        lemma_same_done(h, m, m2, s);
    }
    assert forall|a: int| #[trigger] h.objs.contains(a) implies chain_state(h, w, m2, a) by {
        assert(chain_state(h, w, m, a));
        let chain = m.chains[a];
        assert forall|i: int| 0 <= i < chain.len() implies on_chain(h, m2, a, #[trigger] chain[i]) by {
            assert(on_chain(h, m, a, chain[i]));
            lemma_same_done(h, m, m2, chain[i]);
        }
    }
}

/// Whether an object has as many visited fields in the one state as in
/// the other.
pub open spec fn same_done(h: Heap, m: Marks, m2: Marks, b: int) -> bool {
    done(h, m2, b) == done(h, m, b)
}

/// A place is done in a state in which its object has as many visited
/// fields.
proof fn lemma_same_done(h: Heap, m: Marks, m2: Marks, s: Spot)
    requires
        m2.nd == m.nd,
        s matches Spot::Field(b, _) ==> same_done(h, m, m2, b),
    ensures
        spot_done(h, m2, s) == spot_done(h, m, s),
{
}

/// The fields of the object on top of the stack are visited next.
pub proof fn lemma_begin_object(h: Heap, w: Map<int, u32>, m: Marks)
    requires
        marking(h, w, m),
        m.cur is None,
        m.stack.len() > 0,
    ensures
        marking(h, w, Marks { stack: m.stack.drop_last(), cur: Some((m.stack.last(), 0)), ..m }),
{
    let b = m.stack.last();
    let m2 = Marks { stack: m.stack.drop_last(), cur: Some((b, 0)), ..m };
    assert(m.marked.contains(m.stack[m.stack.len() - 1]));
    assert(obj_ok(h, b));
    lemma_stack_step(m.stack, b);
    assert forall|j: int| 0 <= j < m2.stack.len() implies m2.marked.contains(
        #[trigger] m2.stack[j],
    ) by {
        assert(m.stack[j] == m2.stack[j]);
        assert(m.marked.contains(m.stack[j]));
    }
    assert forall|c: int| same_done(h, m, m2, c) by {
        lemma_stack_step(m.stack, c);
    }
    assert forall|s: Spot| #[trigger] spot_ok(h, s) implies spot_state(h, w, m2, s) by {
        assert(spot_state(h, w, m, s));
        lemma_same_done(h, m, m2, s);
    }
    assert forall|a: int| #[trigger] h.objs.contains(a) implies chain_state(h, w, m2, a) by {
        assert(chain_state(h, w, m, a));
        let chain = m.chains[a];
        assert forall|i: int| 0 <= i < chain.len() implies on_chain(h, m2, a, #[trigger] chain[i]) by {
            assert(on_chain(h, m, a, chain[i]));
            lemma_same_done(h, m, m2, chain[i]);
        }
    }
}

/// An object all of whose fields were visited is done.
pub proof fn lemma_end_object(h: Heap, w: Map<int, u32>, m: Marks)
    requires
        marking(h, w, m),
        m.cur is Some,
        m.cur->Some_0.1 == count(h, m.cur->Some_0.0),
    ensures
        marking(h, w, Marks { cur: None, ..m }),
{
    let m2 = Marks { cur: None, ..m };
    assert forall|c: int| done(h, m2, c) == done(h, m, c) by {}
    assert forall|s: Spot| #[trigger] spot_ok(h, s) implies spot_state(h, w, m2, s) by {
        assert(spot_state(h, w, m, s));
        assert(spot_done(h, m2, s) == spot_done(h, m, s));
    }
    assert forall|a: int| #[trigger] h.objs.contains(a) implies chain_state(h, w, m2, a) by {
        assert(chain_state(h, w, m, a));
        let chain = m.chains[a];
        assert forall|i: int| 0 <= i < chain.len() implies on_chain(h, m2, a, #[trigger] chain[i]) by {
            assert(on_chain(h, m, a, chain[i]));
            assert(spot_done(h, m2, chain[i]) == spot_done(h, m, chain[i]));
        }
    }
}

/// A place that needs no threading is visited: it holds no pointer, or a
/// pointer forwards to an object that is marked.
pub proof fn lemma_visit_plain(h: Heap, w: Map<int, u32>, m: Marks, s: Spot)
    requires
        marking(h, w, m),
        spot_ok(h, s),
        is_next(h, m, s),
        points(h, s) ==> m.marked.contains(spot_target(h, s)) && !backward(h, s),
    ensures
        marking(h, w, advance(m, s)),
{
    let m2 = advance(m, s);
    match s {
        Spot::Static(_) => {},
        Spot::Field(b, _) => {
            assert(obj_ok(h, b));
        },
    }
    assert forall|s2: Spot| #[trigger] spot_ok(h, s2) implies spot_state(h, w, m2, s2) by {
        assert(spot_state(h, w, m, s2));
        lemma_done_step(h, m, s, s2);
    }
    assert forall|a: int| #[trigger] h.objs.contains(a) implies chain_state(h, w, m2, a) by {
        assert(chain_state(h, w, m, a));
        let chain = m.chains[a];
        assert forall|i: int| 0 <= i < chain.len() implies on_chain(h, m2, a, #[trigger] chain[i]) by {
            assert(on_chain(h, m, a, chain[i]));
            lemma_done_step(h, m, s, chain[i]);
        }
    }
}

/// What threading the place `s` leaves of a link of a chain: the link is
/// another place, it holds what it held, and it is still on its chain.
proof fn lemma_link_kept(h: Heap, w: Map<int, u32>, m: Marks, s: Spot, a: int, i: int)
    requires
        marking(h, w, m),
        spot_ok(h, s),
        is_next(h, m, s),
        points(h, s),
        h.objs.contains(a),
        0 <= i < m.chains[a].len(),
    ensures
        ({
            let t = spot_target(h, s);
            let p = spot_addr(h, s);
            let q = spot_addr(h, m.chains[a][i]);
            &&& h.objs.contains(t)
            &&& w[p] == spot_value(h, s)
            &&& w.dom().contains(p) && w.dom().contains(t)
            &&& p != a && p != t && p % 4 == 0 && 0 <= p <= 0xffff_fffb
            &&& on_chain(h, advance_threaded(m, s, t), a, m.chains[a][i])
            &&& q != p && q != t
            &&& threaded(w, p).dom().contains(q)
            &&& threaded(w, p)[q] == w[q]
            &&& q == addrs(h, m.chains[a])[i]
        }),
{
    let t = spot_target(h, s);
    let p = spot_addr(h, s);
    let c = m.chains[a][i];
    assert(spot_state(h, w, m, s));
    lemma_done_step(h, m, s, s);
    lemma_target(h, s);
    assert(chain_state(h, w, m, a));
    assert(chain_state(h, w, m, t));
    assert(on_chain(h, m, a, c));
    lemma_done_step(h, m, s, c);
    lemma_spots_apart(h, c, s, t);
    lemma_spots_apart(h, s, s, t);
    lemma_spots_apart(h, s, s, a);
    assert(chained(w, addrs(h, m.chains[a]), h.w0[a], m.chains[a].len() as int));
    assert(w.dom().contains(addrs(h, m.chains[a])[i]));
}

/// A place that holds a pointer points to an object.
pub proof fn lemma_target(h: Heap, s: Spot)
    requires
        heap_ok(h),
        spot_ok(h, s),
        points(h, s),
    ensures
        h.objs.contains(spot_target(h, s)),
        obj_ok(h, spot_target(h, s)),
{
    match s {
        Spot::Static(i) => {
            assert(static_ok(h, i));
        },
        Spot::Field(b, k) => {
            assert(obj_ok(h, b));
        },
    }
}

/// The chain of an object other than the one that a place is threaded
/// onto stays as it is.
proof fn lemma_other_chain(h: Heap, w: Map<int, u32>, m: Marks, s: Spot, a: int)
    requires
        marking(h, w, m),
        spot_ok(h, s),
        is_next(h, m, s),
        points(h, s),
        h.objs.contains(a),
        a != spot_target(h, s),
    ensures
        chain_state(
            h,
            threaded(w, spot_addr(h, s)),
            advance_threaded(m, s, spot_target(h, s)),
            a,
        ),
{
    let t = spot_target(h, s);
    let p = spot_addr(h, s);
    let w2 = threaded(w, p);
    let m2 = advance_threaded(m, s, t);
    let chain = m.chains[a];
    let n = chain.len() as int;
    let ad = addrs(h, chain);
    assert(spot_state(h, w, m, s));
    lemma_done_step(h, m, s, s);
    lemma_target(h, s);
    assert(chain_state(h, w, m, a));
    assert(m2.chains[a] == chain);
    lemma_spots_apart(h, s, s, a);
    assert(w2[a] == w[a]);
    assert forall|i: int| 0 <= i < n implies on_chain(h, m2, a, #[trigger] chain[i]) by {
        lemma_link_kept(h, w, m, s, a, i);
    }
    assert forall|i: int| 0 <= i < n implies w2.dom().contains(#[trigger] ad[i]) && w2[ad[i]]
        == w[ad[i]] by {
        lemma_link_kept(h, w, m, s, a, i);
    }
    lemma_chain_frame(w, w2, ad, h.w0[a], n);
}

/// The chain of the object at `t` after the place `s` at `p` was threaded
/// onto it.
proof fn lemma_pushed_chain(
    h: Heap,
    w: Map<int, u32>,
    m2: Marks,
    chain: Seq<Spot>,
    s: Spot,
    t: int,
    p: int,
)
    requires
        chained(w, addrs(h, chain), h.w0[t], chain.len() as int),
        w[t] == link(addrs(h, chain), h.w0[t], chain.len() as int),
        w.dom().contains(t),
        w.dom().contains(p),
        0 <= p <= 0xffff_ffff,
        p % 2 == 0,
        p != t,
        p == spot_addr(h, s),
        forall|i: int| 0 <= i < chain.len() ==> #[trigger] addrs(h, chain)[i] != p && addrs(h, chain)[i] != t,
        forall|i: int| 0 <= i < chain.len() ==> on_chain(h, m2, t, #[trigger] chain[i]),
        on_chain(h, m2, t, s),
        m2.chains[t] == chain.push(s),
        m2.marked.contains(t),
    ensures
        chain_state(h, w.insert(p, w[t]).insert(t, p as u32), m2, t),
{
    let ad = addrs(h, chain);
    lemma_chain_push(w, ad, h.w0[t], t, p);
    assert(addrs(h, chain.push(s)) =~= ad.push(p));
    let chain2 = chain.push(s);
    assert forall|i: int| 0 <= i < chain2.len() implies on_chain(h, m2, t, #[trigger] chain2[i]) by {
        if i < chain.len() {
            assert(chain2[i] == chain[i]);
        }
    }
}

/// The chain of the object that a place is threaded onto has the place as
/// its new first link.
proof fn lemma_own_chain(h: Heap, w: Map<int, u32>, m: Marks, s: Spot)
    requires
        marking(h, w, m),
        spot_ok(h, s),
        is_next(h, m, s),
        points(h, s),
        backward(h, s),
        m.marked.contains(spot_target(h, s)),
    ensures
        chain_state(
            h,
            threaded(w, spot_addr(h, s)),
            advance_threaded(m, s, spot_target(h, s)),
            spot_target(h, s),
        ),
{
    let t = spot_target(h, s);
    let p = spot_addr(h, s);
    let m2 = advance_threaded(m, s, t);
    let chain = m.chains[t];
    let n = chain.len() as int;
    let ad = addrs(h, chain);
    assert(spot_state(h, w, m, s));
    lemma_done_step(h, m, s, s);
    lemma_target(h, s);
    assert(chain_state(h, w, m, t));
    lemma_spots_apart(h, s, s, t);
    assert(w[p] == spot_value(h, s));
    assert forall|i: int| 0 <= i < n implies #[trigger] ad[i] != p && ad[i] != t by {
        lemma_link_kept(h, w, m, s, t, i);
    }
    assert forall|i: int| 0 <= i < n implies on_chain(h, m2, t, #[trigger] chain[i]) by {
        lemma_link_kept(h, w, m, s, t, i);
    }
    lemma_pushed_chain(h, w, m2, chain, s, t, p);
}

/// A place that points backwards to a marked object, or a static place
/// that points to one, is visited and threaded.
pub proof fn lemma_visit_thread(h: Heap, w: Map<int, u32>, m: Marks, s: Spot)
    requires
        marking(h, w, m),
        spot_ok(h, s),
        is_next(h, m, s),
        points(h, s),
        backward(h, s),
        m.marked.contains(spot_target(h, s)),
    ensures
        marking(
            h,
            threaded(w, spot_addr(h, s)),
            advance_threaded(m, s, spot_target(h, s)),
        ),
{
    let t = spot_target(h, s);
    let p = spot_addr(h, s);
    let w2 = threaded(w, p);
    let m2 = advance_threaded(m, s, t);
    match s {
        Spot::Static(_) => {},
        Spot::Field(b, _) => {
            assert(obj_ok(h, b));
        },
    }
    assert(spot_state(h, w, m, s));
    lemma_done_step(h, m, s, s);
    assert(w[p] == spot_value(h, s));
    assert(chain_state(h, w, m, t));
    assert forall|a: int| #[trigger] h.objs.contains(a) implies chain_state(h, w2, m2, a) by {
        if a == t {
            lemma_own_chain(h, w, m, s);
        } else {
            lemma_other_chain(h, w, m, s, a);
        }
    }
    assert forall|x: int| #[trigger] root_frame(h.w0, h.roots, x) implies w2.dom().contains(x)
        && w2[x] == h.w0[x] by {
        assert(frame_apart(h, x));
        lemma_target(h, s);
        match s {
            Spot::Static(i) => {
                assert(static_addr(h, i) != x);
            },
            Spot::Field(b, k) => {},
        }
    }
    assert forall|s2: Spot| #[trigger] spot_ok(h, s2) implies spot_state(h, w2, m2, s2) by {
        assert(spot_state(h, w, m, s2));
        lemma_done_step(h, m, s, s2);
        lemma_spots_apart(h, s2, s, t);
        let t2 = spot_target(h, s2);
        if s2 == s {
            assert(m2.chains[t][m.chains[t].len() as int] == s);
        } else {
            assert(w2[spot_addr(h, s2)] == w[spot_addr(h, s2)]);
            if spot_done(h, m, s2) && points(h, s2) && backward(h, s2) {
                let i = choose|i: int| 0 <= i < m.chains[t2].len() && m.chains[t2][i] == s2;
                if t2 == t {
                    assert(m2.chains[t2][i] == s2);
                }
            }
        }
    }
}

} // verus!
