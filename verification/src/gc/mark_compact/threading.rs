//! What threading and unthreading do together: the fields that were
//! threaded onto the header of an object are found again through the chain,
//! and the header comes back.
use vstd::prelude::*;
use crate::gc::mark_compact::{
    chain_end, thread_outcome, threaded, unthread_links, unthread_outcome, unthreaded, MAX_CHAIN,
};
use crate::object::Trap;
use crate::types::Value;

verus! {

/// The memory after the fields `fields` were threaded, one after the other.
pub open spec fn threaded_all(words: Map<int, u32>, fields: Seq<int>) -> Map<int, u32>
    decreases fields.len(),
{
    if fields.len() == 0 {
        words
    } else {
        threaded(threaded_all(words, fields.drop_last()), fields.last())
    }
}

/// The memory in which every field of `fields` holds `value`.
pub open spec fn all_set(words: Map<int, u32>, fields: Seq<int>, value: u32) -> Map<int, u32>
    decreases fields.len(),
{
    if fields.len() == 0 {
        words
    } else {
        all_set(words, fields.drop_last(), value).insert(fields.last(), value)
    }
}

/// The fields `fields` are distinct words of the memory, none of them the
/// header of the object at `obj`, and each holds a pointer to that object,
/// whose header is not threaded.
pub open spec fn point_to(words: Map<int, u32>, fields: Seq<int>, obj: int) -> bool {
    &&& words.dom().contains(obj)
    &&& words[obj] % 2 == 1
    &&& forall|i: int|
        0 <= i < fields.len() ==> {
            &&& words.dom().contains(#[trigger] fields[i])
            &&& fields[i] != obj
            &&& 0 <= fields[i] <= 0xffff_ffff
            &&& fields[i] % 2 == 0
            &&& Value(words[fields[i]]).spec_is_ptr()
            &&& Value(words[fields[i]]).spec_get_ptr() == obj
        }
    &&& forall|i: int, j: int| 0 <= i < j < fields.len() ==> fields[i] != fields[j]
}

/// The chain that threading the fields builds: the header of the object
/// holds the address of the field that was threaded last, each field holds
/// the address of the field that was threaded before it, and the first one
/// holds the header.  Nothing else has changed.
pub proof fn lemma_chain(words: Map<int, u32>, fields: Seq<int>, obj: int)
    requires
        point_to(words, fields, obj),
    ensures
        threaded_all(words, fields).dom() == words.dom(),
        chained(threaded_all(words, fields), fields, words[obj], fields.len() as int),
        threaded_all(words, fields)[obj] == link(fields, words[obj], fields.len() as int),
        forall|x: int|
            x != obj && !fields.contains(x) ==> #[trigger] threaded_all(words, fields)[x]
                == words[x],
        fields.len() > 0 ==> thread_outcome(
            threaded_all(words, fields.drop_last()),
            fields.last(),
        ) is Ok,
    decreases fields.len(),
{
    if fields.len() > 0 {
        let rest = fields.drop_last();
        let f = fields.last();
        assert(f == fields[fields.len() - 1]);
        assert forall|i: int| 0 <= i < rest.len() implies rest[i] == fields[i] by {}
        assert(point_to(words, rest, obj));
        lemma_chain(words, rest, obj);
        let before = threaded_all(words, rest);
        assert(!rest.contains(f));
        assert(before[f] == words[f]);
        let t = threaded_all(words, fields);
        assert(t == before.insert(f, before[obj]).insert(obj, f as u32));
        assert(t.dom() =~= words.dom());
        lemma_chain_push(before, rest, words[obj], obj, f);
        assert(rest.push(f) =~= fields);
        assert forall|x: int| x != obj && !fields.contains(x) implies #[trigger] t[x]
            == words[x] by {
            assert(x != f);
            if rest.contains(x) {
                let i = choose|i: int| 0 <= i < rest.len() && rest[i] == x;
                assert(fields[i] == x);
            }
        }
    } else {
        reveal(link);
    }
}

/// Setting a field before the others are set is setting it after them.
proof fn lemma_all_set_insert(words: Map<int, u32>, fields: Seq<int>, value: u32, x: int)
    ensures
        all_set(words.insert(x, value), fields, value) == all_set(words, fields, value).insert(
            x,
            value,
        ),
    decreases fields.len(),
{
    if fields.len() > 0 {
        lemma_all_set_insert(words, fields.drop_last(), value, x);
    }
    assert(all_set(words.insert(x, value), fields, value) =~= all_set(words, fields, value).insert(
        x,
        value,
    ));
}

/// What `all_set` holds.
pub proof fn lemma_all_set(words: Map<int, u32>, fields: Seq<int>, value: u32, x: int)
    ensures
        all_set(words, fields, value).dom().contains(x) <==> words.dom().contains(x)
            || fields.contains(x),
        fields.contains(x) ==> all_set(words, fields, value)[x] == value,
        !fields.contains(x) && words.dom().contains(x) ==> all_set(words, fields, value)[x]
            == words[x],
    decreases fields.len(),
{
    if fields.len() > 0 {
        let rest = fields.drop_last();
        let f = fields.last();
        lemma_all_set(words, rest, value, x);
        assert(fields[fields.len() - 1] == f);
        if rest.contains(x) {
            let i = choose|i: int| 0 <= i < rest.len() && rest[i] == x;
            assert(fields[i] == x);
        }
        if fields.contains(x) && x != f {
            let i = choose|i: int| 0 <= i < fields.len() && fields[i] == x;
            assert(rest[i] == x);
        }
    }
}

/// The word that leads to the first `n` fields of a chain: the address of
/// the last of them, or the header where there is none.
#[verifier::opaque]
pub open spec fn link(fields: Seq<int>, header: u32, n: int) -> u32 {
    if n == 0 {
        header
    } else {
        fields[n - 1] as u32
    }
}

/// The first `n` fields are a chain in the memory `m` that ends with
/// `header`.
pub open spec fn chained(m: Map<int, u32>, fields: Seq<int>, header: u32, n: int) -> bool {
    &&& 0 <= n <= fields.len()
    &&& header % 2 == 1
    &&& forall|i: int|
        0 <= i < n ==> {
            &&& m.dom().contains(#[trigger] fields[i])
            &&& 0 <= fields[i] <= 0xffff_ffff
            &&& fields[i] % 2 == 0
            &&& m[fields[i]] == link(fields, header, i)
        }
    &&& forall|i: int, j: int| 0 <= i < j < n ==> fields[i] != fields[j]
}

/// A link is the address of a field: an even word.
proof fn lemma_link(m: Map<int, u32>, fields: Seq<int>, header: u32, n: int)
    requires
        chained(m, fields, header, n),
        n > 0,
    ensures
        link(fields, header, n) % 2 == 0,
        link(fields, header, n) as int == fields[n - 1],
        m.dom().contains(fields[n - 1]),
        m[fields[n - 1]] == link(fields, header, n - 1),
        chained(m, fields, header, n - 1),
{
    reveal(link);
    let f = fields[n - 1];
    assert(0 <= f <= 0xffff_ffff && f % 2 == 0);
    assert((f as u32) as int == f);
}

/// The walk along a chain comes to the header at its end.
proof fn lemma_chain_end(m: Map<int, u32>, fields: Seq<int>, header: u32, n: int, fuel: nat)
    requires
        chained(m, fields, header, n),
        n <= fuel,
    ensures
        chain_end(m, link(fields, header, n), fuel) == Ok::<u32, Trap>(header),
    decreases n,
{
    reveal(link);
    if n > 0 {
        lemma_link(m, fields, header, n);
        lemma_chain_end(m, fields, header, n - 1, (fuel - 1) as nat);
    }
}

/// A chain is still one after its last field was set.
proof fn lemma_chained_after(m: Map<int, u32>, fields: Seq<int>, header: u32, n: int, value: u32)
    requires
        chained(m, fields, header, n),
        n > 0,
    ensures
        chained(m.insert(fields[n - 1], value), fields, header, n - 1),
{
    reveal(link);
    let stored = m.insert(fields[n - 1], value);
    assert forall|i: int| 0 <= i < n - 1 implies stored[#[trigger] fields[i]] == link(
        fields,
        header,
        i,
    ) by {
        assert(fields[i] != fields[n - 1]);
    }
}

/// The walk along a chain of `n` fields sets each of them and comes to the
/// header at its end.
proof fn lemma_walk(
    m: Map<int, u32>,
    fields: Seq<int>,
    header: u32,
    value: u32,
    n: int,
    fuel: nat,
)
    requires
        chained(m, fields, header, n),
        n <= fuel,
    ensures
        unthread_links(m, link(fields, header, n), value, fuel) == (
            Ok::<u32, Trap>(header),
            all_set(m, fields.take(n), value),
        ),
    decreases n,
{
    reveal(link);
    if n == 0 {
        assert(fields.take(0) =~= Seq::<int>::empty());
    } else {
        let f = fields[n - 1];
        lemma_link(m, fields, header, n);
        lemma_chained_after(m, fields, header, n, value);
        let stored = m.insert(f, value);
        lemma_walk(stored, fields, header, value, n - 1, (fuel - 1) as nat);
        lemma_all_set_insert(m, fields.take(n - 1), value, f);
        assert(fields.take(n).drop_last() =~= fields.take(n - 1));
        assert(fields.take(n).last() == f);
        assert(unthread_links(m, link(fields, header, n), value, fuel) == unthread_links(
            stored,
            m[f],
            value,
            (fuel - 1) as nat,
        ));
    }
}

/// A chain is still one in a memory that holds the same words in its
/// fields.
pub proof fn lemma_chain_frame(
    m: Map<int, u32>,
    m2: Map<int, u32>,
    fields: Seq<int>,
    header: u32,
    n: int,
)
    requires
        chained(m, fields, header, n),
        forall|i: int| 0 <= i < n ==> m2.dom().contains(#[trigger] fields[i]) && m2[fields[i]] == m[fields[i]],
    ensures
        chained(m2, fields, header, n),
{
    reveal(link);
}

/// Threading a field that points to the object at `obj` onto the chain of
/// that object makes the field the first link of the chain.
pub proof fn lemma_chain_push(
    m: Map<int, u32>,
    fields: Seq<int>,
    header: u32,
    obj: int,
    field: int,
)
    requires
        chained(m, fields, header, fields.len() as int),
        m.dom().contains(obj),
        m[obj] == link(fields, header, fields.len() as int),
        m.dom().contains(field),
        0 <= field <= 0xffff_ffff,
        field % 2 == 0,
        field != obj,
        forall|i: int| 0 <= i < fields.len() ==> #[trigger] fields[i] != field && fields[i] != obj,
    ensures
        chained(
            m.insert(field, m[obj]).insert(obj, field as u32),
            fields.push(field),
            header,
            fields.len() as int + 1,
        ),
        m.insert(field, m[obj]).insert(obj, field as u32)[obj] == link(
            fields.push(field),
            header,
            fields.len() as int + 1,
        ),
{
    reveal(link);
    let n = fields.len() as int;
    let m2 = m.insert(field, m[obj]).insert(obj, field as u32);
    let more = fields.push(field);
    assert(more[n] == field);
    assert forall|i: int| 0 <= i <= n implies #[trigger] link(more, header, i) == link(
        fields,
        header,
        i,
    ) by {
        if i > 0 {
            assert(more[i - 1] == fields[i - 1]);
        }
    }
    assert forall|i: int| 0 <= i < n + 1 implies m2.dom().contains(#[trigger] more[i]) && 0
        <= more[i] <= 0xffff_ffff && more[i] % 2 == 0 && m2[more[i]] == link(more, header, i) by {
        if i < n {
            assert(more[i] == fields[i]);
            assert(fields[i] != field && fields[i] != obj);
            assert(m[fields[i]] == link(fields, header, i));
        }
    }
    assert forall|i: int, j: int| 0 <= i < j < n + 1 implies more[i] != more[j] by {
        assert(more[i] == fields[i]);
        if j < n {
            assert(more[j] == fields[j]);
        }
    }
}

/// A chain has no more links than the address space has words.
pub proof fn lemma_chain_short(fields: Seq<int>)
    requires
        forall|i: int| 0 <= i < fields.len() ==> 0 <= #[trigger] fields[i] <= 0xffff_ffff && fields[i] % 4 == 0,
        forall|i: int, j: int| 0 <= i < j < fields.len() ==> fields[i] != fields[j],
    ensures
        fields.len() <= MAX_CHAIN,
{
    let q = Seq::new(fields.len(), |i: int| fields[i] / 4);
    assert forall|i: int, j: int| 0 <= i < q.len() && 0 <= j < q.len() && i != j implies q[i]
        != q[j] by {
        if i < j {
            assert(fields[i] != fields[j]);
        } else {
            assert(fields[j] != fields[i]);
        }
    }
    q.unique_seq_to_set();
    vstd::set_lib::lemma_int_range(0, 0x4000_0000);
    assert forall|x: int| q.to_set().contains(x) implies vstd::set_lib::set_int_range(
        0,
        0x4000_0000,
    ).contains(x) by {
        let i = choose|i: int| 0 <= i < q.len() && q[i] == x;
        assert(0 <= fields[i] <= 0xffff_ffff);
    }
    vstd::set_lib::lemma_len_subset(q.to_set(), vstd::set_lib::set_int_range(0, 0x4000_0000));
}

/// Unthreading an object whose header is the start of a chain succeeds:
/// the tag is found at the end of the chain, the object gets it back, every
/// field of the chain points to `new_loc`, and nothing else is changed.
pub proof fn lemma_unthread_chain(
    m: Map<int, u32>,
    fields: Seq<int>,
    header: u32,
    obj: int,
    new_loc: int,
)
    requires
        chained(m, fields, header, fields.len() as int),
        m.dom().contains(obj),
        m[obj] == link(fields, header, fields.len() as int),
        forall|i: int| 0 <= i < fields.len() ==> #[trigger] fields[i] % 4 == 0 && fields[i] != obj,
    ensures
        chain_end(m, m[obj], MAX_CHAIN as nat) == Ok::<u32, Trap>(header),
        unthread_outcome(m, obj, new_loc) is Ok,
        unthreaded(m, obj, new_loc).dom() == m.dom(),
        unthreaded(m, obj, new_loc)[obj] == header,
        forall|i: int|
            0 <= i < fields.len() ==> unthreaded(m, obj, new_loc)[#[trigger] fields[i]]
                == Value::spec_from_ptr(new_loc).0,
        forall|x: int|
            x != obj && !fields.contains(x) ==> #[trigger] unthreaded(m, obj, new_loc)[x] == m[x],
{
    let n = fields.len() as int;
    let value = Value::spec_from_ptr(new_loc).0;
    lemma_chain_short(fields);
    lemma_walk(m, fields, header, value, n, MAX_CHAIN as nat);
    lemma_chain_end(m, fields, header, n, MAX_CHAIN as nat);
    assert(fields.take(n) =~= fields);
    let u = unthreaded(m, obj, new_loc);
    assert(u == all_set(m, fields, value).insert(obj, header));
    assert forall|x: int| u.dom().contains(x) <==> m.dom().contains(x) by {
        lemma_all_set(m, fields, value, x);
        if fields.contains(x) {
            let i = choose|i: int| 0 <= i < fields.len() && fields[i] == x;
            assert(m.dom().contains(fields[i]));
        }
    }
    assert(u.dom() =~= m.dom());
    assert forall|i: int| 0 <= i < fields.len() implies u[#[trigger] fields[i]] == value by {
        lemma_all_set(m, fields, value, fields[i]);
    }
    assert forall|x: int| x != obj && !fields.contains(x) implies #[trigger] u[x] == m[x] by {
        lemma_all_set(m, fields, value, x);
        if !m.dom().contains(x) {
            assert(!u.dom().contains(x));
            lemma_unmapped_kept(m, fields, value, x);
        }
    }
}

/// Setting fields leaves the word at an address that is no field what the
/// map gives for it, mapped or not.
proof fn lemma_unmapped_kept(m: Map<int, u32>, fields: Seq<int>, value: u32, x: int)
    requires
        !fields.contains(x),
    ensures
        all_set(m, fields, value)[x] == m[x],
    decreases fields.len(),
{
    if fields.len() > 0 {
        let rest = fields.drop_last();
        assert(fields[fields.len() - 1] == fields.last());
        if rest.contains(x) {
            let i = choose|i: int| 0 <= i < rest.len() && rest[i] == x;
            assert(fields[i] == x);
        }
        lemma_unmapped_kept(m, rest, value, x);
    }
}

/// Threading and unthreading undo each other, but for where the fields
/// point: when fields that point to an object are threaded, each threading
/// succeeds; the header is then found at the end of the chain; and
/// unthreading the object succeeds, gives the object its header back and
/// leaves every one of the fields pointing to `new_loc`.  Nothing else is
/// changed, and no link of the chain is left in the memory.
pub proof fn lemma_thread_unthread(
    words: Map<int, u32>,
    fields: Seq<int>,
    obj: int,
    new_loc: int,
)
    requires
        point_to(words, fields, obj),
        fields.len() <= MAX_CHAIN,
    ensures
        forall|i: int|
            0 <= i < fields.len() ==> #[trigger] thread_outcome(
                threaded_all(words, fields.take(i)),
                fields[i],
            ) is Ok,
        chain_end(
            threaded_all(words, fields),
            threaded_all(words, fields)[obj],
            MAX_CHAIN as nat,
        ) == Ok::<u32, Trap>(words[obj]),
        unthread_outcome(threaded_all(words, fields), obj, new_loc) is Ok,
        unthreaded(threaded_all(words, fields), obj, new_loc) == all_set(
            words,
            fields,
            Value::spec_from_ptr(new_loc).0,
        ),
{
    reveal(link);
    let t = threaded_all(words, fields);
    let value = Value::spec_from_ptr(new_loc).0;
    let n = fields.len() as int;
    assert forall|i: int| 0 <= i < fields.len() implies #[trigger] thread_outcome(
        threaded_all(words, fields.take(i)),
        fields[i],
    ) is Ok by {
        let upto = fields.take(i + 1);
        assert forall|k: int| 0 <= k < upto.len() implies upto[k] == fields[k] by {}
        assert(point_to(words, upto, obj));
        lemma_chain(words, upto, obj);
        assert(upto.drop_last() =~= fields.take(i));
        assert(upto.last() == fields[i]);
    }
    lemma_chain(words, fields, obj);
    lemma_walk(t, fields, words[obj], value, n, MAX_CHAIN as nat);
    lemma_chain_end(t, fields, words[obj], n, MAX_CHAIN as nat);
    assert(fields.take(n) =~= fields);
    let u = unthreaded(t, obj, new_loc);
    let s = all_set(words, fields, value);
    assert(u == all_set(t, fields, value).insert(obj, words[obj]));
    assert forall|x: int| u.dom().contains(x) <==> s.dom().contains(x) by {
        lemma_all_set(t, fields, value, x);
        lemma_all_set(words, fields, value, x);
    }
    assert forall|x: int| u.dom().contains(x) implies #[trigger] u[x] == s[x] by {
        lemma_all_set(t, fields, value, x);
        lemma_all_set(words, fields, value, x);
    }
    assert(u =~= s);
}

} // verus!
