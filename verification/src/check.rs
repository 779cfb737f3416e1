//! A checker of the heap: it walks the roots and the heap and tells whether
//! every pointer that it finds points to the header of an object.
use vstd::prelude::*;
use crate::linear_memory::LinearMemory;
use crate::object::{
    length_word, object_size, pointer_fields, spec_object_size, spec_pointer_fields,
};
use crate::page_alloc::WordMemory;
use crate::types::{
    is_object_tag, tag_is_object, Value, Words, TAG_MUTBOX, TAG_ONE_WORD_FILLER,
};

verus! {

/// What stands in the place of a tag where a coercion has failed.
pub const COERCION_FAILURE: u32 = 0xffff_fffe;

/// The raw word of the value `true`, which is no pointer though its low
/// bits say so.
pub const TRUE_VALUE: u32 = 1;

pub struct MemoryChecker {
    pub heap_base: usize,
    pub heap_end: usize,
    pub static_roots: Value,
    pub continuation_table_ptr_loc: usize,
}

/// Whether `value` is a pointer that the checker follows.
pub open spec fn spec_is_ptr(value: Value) -> bool {
    value.spec_is_ptr() && value.0 != TRUE_VALUE
}

/// Whether `object` points to the header of an object below `heap_end`.
pub open spec fn header_ok(words: Map<int, u32>, heap_end: int, object: Value) -> bool {
    let pointer = object.spec_get_ptr();
    &&& spec_is_ptr(object)
    &&& pointer < heap_end
    &&& words.dom().contains(pointer)
    &&& (is_object_tag(words[pointer]) || words[pointer] == COERCION_FAILURE)
}

/// Whether field `i` of the fields from `first` on is mapped and holds no
/// pointer that fails `header_ok`.
pub open spec fn field_ok(words: Map<int, u32>, heap_end: int, first: int, i: int) -> bool {
    let field = first + 4 * i;
    &&& words.dom().contains(field)
    &&& spec_is_ptr(Value(words[field])) ==> header_ok(words, heap_end, Value(words[field]))
}

/// Whether `object` points to the header of an object below `heap_end`
/// whose pointer fields are all right.
pub open spec fn object_ok(words: Map<int, u32>, heap_end: int, object: Value) -> bool {
    let pointer = object.spec_get_ptr();
    let fields = spec_pointer_fields(words, pointer, words[pointer]);
    &&& header_ok(words, heap_end, object)
    &&& is_object_tag(words[pointer]) ==> {
        &&& fields is Ok
        &&& forall|i: int|
            0 <= i < fields->Ok_0.1 ==> #[trigger] field_ok(
                words,
                heap_end,
                fields->Ok_0.0 as int,
                i,
            )
    }
}

/// Whether element `i` of the array of static roots at `root_array` points
/// to a box below `heap_base` whose field, where it points into the heap,
/// points to an object that is all right.
pub open spec fn root_ok(
    words: Map<int, u32>,
    heap_base: int,
    heap_end: int,
    root_array: int,
    i: int,
) -> bool {
    let elem = root_array + 8 + 4 * i;
    let obj = Value(words[elem]).spec_get_ptr();
    let field = Value(words[obj + 4]);
    &&& words.dom().contains(elem)
    &&& words.dom().contains(obj)
    &&& words[obj] == TAG_MUTBOX
    &&& obj < heap_base
    &&& words.dom().contains(obj + 4)
    &&& field.spec_is_ptr() && field.spec_get_ptr() >= heap_base ==> object_ok(
        words,
        heap_end,
        field,
    )
}

/// Whether the static roots are all right.
pub open spec fn static_roots_ok(
    words: Map<int, u32>,
    heap_base: int,
    heap_end: int,
    static_roots: Value,
) -> bool {
    let root_array = static_roots.spec_get_ptr();
    &&& words.dom().contains(root_array)
    &&& words.dom().contains(root_array + 4)
    &&& forall|i: int|
        0 <= i < words[root_array + 4] ==> #[trigger] root_ok(
            words,
            heap_base,
            heap_end,
            root_array,
            i,
        )
}

/// Whether the heap from `pointer` to `heap_end` is a row of objects, each
/// of which is all right unless it is a one-word filler.
pub open spec fn heap_ok(words: Map<int, u32>, pointer: int, heap_end: int) -> bool
    decreases
        (if heap_end > pointer {
            heap_end - pointer
        } else {
            0
        }),
{
    if pointer >= heap_end {
        true
    } else {
        &&& words.dom().contains(pointer)
        &&& words[pointer] != TAG_ONE_WORD_FILLER ==> object_ok(
            words,
            heap_end,
            Value::spec_from_ptr(pointer),
        )
        &&& match spec_object_size(words, pointer) {
            Ok(size) => if size.0 > 0 {
                heap_ok(words, pointer + 4 * size.0, heap_end)
            } else {
                false
            },
            Err(_) => false,
        }
    }
}

/// An object with a field that is not all right is not all right.
proof fn lemma_bad_field(
    words: Map<int, u32>,
    heap_end: int,
    object: Value,
    first: usize,
    n: u32,
    i: int,
)
    requires
        is_object_tag(words[object.spec_get_ptr()]),
        spec_pointer_fields(words, object.spec_get_ptr(), words[object.spec_get_ptr()]) == Ok::<
            (usize, u32),
            crate::object::Trap,
        >((first, n)),
        0 <= i < n,
        !field_ok(words, heap_end, first as int, i),
    ensures
        !object_ok(words, heap_end, object),
{
    let pointer = object.spec_get_ptr();
    let fields = spec_pointer_fields(words, pointer, words[pointer]);
    assert(fields is Ok);
    assert(fields->Ok_0.1 == n);
    assert(fields->Ok_0.0 == first);
    if object_ok(words, heap_end, object) {
        assert(forall|k: int|
            0 <= k < fields->Ok_0.1 ==> #[trigger] field_ok(
                words,
                heap_end,
                fields->Ok_0.0 as int,
                k,
            ));
        assert(field_ok(words, heap_end, first as int, i));
    }
}

impl MemoryChecker {
    /// Whether the memory is all right: the static roots, the continuation
    /// table, and the heap.
    pub open spec fn memory_ok(&self, words: Map<int, u32>) -> bool {
        let table = self.continuation_table_ptr_loc as int;
        &&& static_roots_ok(words, self.heap_base as int, self.heap_end as int, self.static_roots)
        &&& words.dom().contains(table)
        &&& Value(words[table]).spec_is_ptr() ==> object_ok(
            words,
            self.heap_end as int,
            Value(words[table]),
        )
        &&& heap_ok(words, self.heap_base as int, self.heap_end as int)
    }

    /// Checks the memory.
    pub fn check_memory<M: WordMemory>(&self, mem: &M) -> (ok: bool)
        requires
            mem.wf(),
        ensures
            ok == self.memory_ok(mem.words()),
    {
        if !self.check_static_roots(mem) {
            return false;
        }
        if !mem.contains(self.continuation_table_ptr_loc) {
            return false;
        }
        let table = Value::from_raw(mem.read_word(self.continuation_table_ptr_loc));
        if table.is_ptr() {
            if !self.check_object(mem, table) {
                return false;
            }
        }
        self.check_heap(mem)
    }

    /// Checks the static roots.
    pub fn check_static_roots<M: WordMemory>(&self, mem: &M) -> (ok: bool)
        requires
            mem.wf(),
        ensures
            ok == static_roots_ok(
                mem.words(),
                self.heap_base as int,
                self.heap_end as int,
                self.static_roots,
            ),
    {
        let root_array: usize = self.static_roots.get_ptr();
        if !mem.contains(root_array) {
            return false;
        }
        proof {
            mem.lemma_mapped(root_array as int);
        }
        if !mem.contains(root_array + 4) {
            return false;
        }
        proof {
            mem.lemma_mapped(root_array + 4);
        }
        let len: u32 = mem.read_word(root_array + 4);
        let mut elem: usize = root_array + 8;
        let mut i: u32 = 0;
        while i < len
            invariant
                mem.wf(),
                i <= len,
                mem.words().dom().contains(root_array as int),
                mem.words().dom().contains(root_array + 4),
                len == mem.words()[root_array + 4],
                root_array == self.static_roots.spec_get_ptr(),
                elem == root_array + 8 + 4 * i,
                elem <= 0xffff_ffff,
                forall|k: int|
                    0 <= k < i ==> #[trigger] root_ok(
                        mem.words(),
                        self.heap_base as int,
                        self.heap_end as int,
                        root_array as int,
                        k,
                    ),
            decreases len - i,
        {
            let ghost words = mem.words();
            let ghost bad = !root_ok(
                words,
                self.heap_base as int,
                self.heap_end as int,
                root_array as int,
                i as int,
            );
            if !mem.contains(elem) {
                assert(bad);
                return false;
            }
            proof {
                mem.lemma_mapped(elem as int);
            }
            let obj: usize = Value::from_raw(mem.read_word(elem)).get_ptr();
            if !mem.contains(obj) {
                assert(bad);
                return false;
            }
            proof {
                mem.lemma_mapped(obj as int);
            }
            if mem.read_word(obj) != TAG_MUTBOX || obj >= self.heap_base || !mem.contains(obj + 4) {
                assert(bad);
                return false;
            }
            let field = Value::from_raw(mem.read_word(obj + 4));
            if field.is_ptr() && field.get_ptr() >= self.heap_base {
                if !self.check_object(mem, field) {
                    assert(bad);
                    return false;
                }
            }
            elem = elem + 4;
            i = i + 1;
        }
        true
    }

    /// Checks the object that `object` points to.
    pub fn check_object<M: WordMemory>(&self, mem: &M, object: Value) -> (ok: bool)
        requires
            mem.wf(),
        ensures
            ok == object_ok(mem.words(), self.heap_end as int, object),
    {
        if !self.check_object_header(mem, object) {
            return false;
        }
        let pointer: usize = object.get_ptr();
        let tag: u32 = mem.read_word(pointer);
        if !tag_is_object(tag) {
            return true;
        }
        let (first, n_fields) = match pointer_fields(mem, pointer, tag) {
            Ok(fields) => fields,
            Err(_) => {
                return false;
            },
        };
        let mut field_address: usize = first;
        let mut i: u32 = 0;
        while i < n_fields
            invariant
                mem.wf(),
                i <= n_fields,
                header_ok(mem.words(), self.heap_end as int, object),
                pointer == object.spec_get_ptr(),
                tag == mem.words()[pointer as int],
                is_object_tag(tag),
                spec_pointer_fields(mem.words(), pointer as int, tag) == Ok::<
                    (usize, u32),
                    crate::object::Trap,
                >((first, n_fields)),
                field_address == first + 4 * i,
                field_address <= 0xffff_ffff,
                forall|k: int|
                    0 <= k < i ==> #[trigger] field_ok(
                        mem.words(),
                        self.heap_end as int,
                        first as int,
                        k,
                    ),
            decreases n_fields - i,
        {
            let ghost bad = !field_ok(mem.words(), self.heap_end as int, first as int, i as int);
            if !mem.contains(field_address) {
                assert(bad);
                proof {
                    lemma_bad_field(
                        mem.words(),
                        self.heap_end as int,
                        object,
                        first,
                        n_fields,
                        i as int,
                    );
                }
                return false;
            }
            proof {
                mem.lemma_mapped(field_address as int);
            }
            let value = Value::from_raw(mem.read_word(field_address));
            if Self::is_ptr(value) {
                if !self.check_object_header(mem, value) {
                    assert(bad);
                    proof {
                        lemma_bad_field(
                            mem.words(),
                            self.heap_end as int,
                            object,
                            first,
                            n_fields,
                            i as int,
                        );
                    }
                    return false;
                }
            }
            field_address = field_address + 4;
            i = i + 1;
        }
        true
    }

    /// Checks that `object` points to the header of an object.
    pub fn check_object_header<M: WordMemory>(&self, mem: &M, object: Value) -> (ok: bool)
        requires
            mem.wf(),
        ensures
            ok == header_ok(mem.words(), self.heap_end as int, object),
    {
        if !Self::is_ptr(object) {
            return false;
        }
        let pointer: usize = object.get_ptr();
        if pointer >= self.heap_end || !mem.contains(pointer) {
            return false;
        }
        let tag: u32 = mem.read_word(pointer);
        tag_is_object(tag) || tag == COERCION_FAILURE
    }

    /// Walks the heap from its base to its end.
    pub fn check_heap<M: WordMemory>(&self, mem: &M) -> (ok: bool)
        requires
            mem.wf(),
        ensures
            ok == heap_ok(mem.words(), self.heap_base as int, self.heap_end as int),
    {
        let mut pointer: usize = self.heap_base;
        while pointer < self.heap_end
            invariant
                mem.wf(),
                heap_ok(mem.words(), self.heap_base as int, self.heap_end as int) == heap_ok(
                    mem.words(),
                    pointer as int,
                    self.heap_end as int,
                ),
            decreases self.heap_end - pointer,
        {
            if !mem.contains(pointer) {
                return false;
            }
            proof {
                mem.lemma_mapped(pointer as int);
            }
            let object = Value::from_ptr(pointer);
            if mem.read_word(pointer) != TAG_ONE_WORD_FILLER {
                if !self.check_object(mem, object) {
                    return false;
                }
            }
            let size: Words<u32> = match object_size(mem, pointer) {
                Ok(size) => size,
                Err(_) => {
                    return false;
                },
            };
            if size.0 == 0 {
                return false;
            }
            if size.0 as usize > (self.heap_end - pointer) / 4 {
                // the object runs up to the end of the heap, or beyond it
                proof {
                    assert(heap_ok(mem.words(), pointer + 4 * size.0, self.heap_end as int));
                }
                return true;
            }
            pointer = pointer + size.0 as usize * 4;
        }
        true
    }

    /// Whether `value` is a pointer that the checker follows.
    pub fn is_ptr(value: Value) -> (b: bool)
        ensures
            b == spec_is_ptr(value),
    {
        value.is_ptr() && value.get_raw() != TRUE_VALUE
    }
}

/// Whether `pointer` points to a field of the array that `array` points to.
pub open spec fn array_pointer_ok(words: Map<int, u32>, array: Value, pointer: Value) -> bool {
    let payload = array.spec_get_ptr() + 8;
    &&& array.spec_is_ptr()
    &&& pointer.spec_is_ptr()
    &&& words.dom().contains(array.spec_get_ptr() + 4)
    &&& pointer.spec_get_ptr() >= payload
    &&& pointer.spec_get_ptr() + 4 <= payload + words[array.spec_get_ptr() + 4] * 4
}

/// Checks that `pointer` points to a field of the array that `array` points
/// to.
pub fn check_array_pointer<M: WordMemory>(mem: &M, array: Value, pointer: Value) -> (ok: bool)
    requires
        mem.wf(),
    ensures
        ok == array_pointer_ok(mem.words(), array, pointer),
{
    if !array.is_ptr() || !pointer.is_ptr() {
        return false;
    }
    let array_addr: usize = array.get_ptr();
    if array_addr > 0xffff_ffff - 4 || !mem.contains(array_addr + 4) {
        proof {
            if mem.words().dom().contains(array_addr + 4) {
                mem.lemma_mapped(array_addr + 4);
            }
        }
        return false;
    }
    proof {
        mem.lemma_mapped(array_addr + 4);
    }
    let len: u64 = mem.read_word(array_addr + 4) as u64;
    let payload: u64 = array_addr as u64 + 8;
    let address: u64 = pointer.get_ptr() as u64;
    address >= payload && address + 4 <= payload + len * 4
}

/// Checks a linear memory: its heap from the heap base to the heap pointer,
/// under the given roots.
pub fn check_memory(mem: &LinearMemory, static_roots: Value, continuation_table_ptr_loc: usize) -> (ok:
    bool)
    requires
        mem.wf(),
    ensures
        ok == (MemoryChecker {
            heap_base: mem.spec_heap_base() as usize,
            heap_end: mem.spec_hp() as usize,
            static_roots,
            continuation_table_ptr_loc,
        }).memory_ok(mem.words()),
{
    let checker = MemoryChecker {
        heap_base: mem.heap_base() as usize,
        heap_end: mem.hp() as usize,
        static_roots,
        continuation_table_ptr_loc,
    };
    checker.check_memory(mem)
}

} // verus!
