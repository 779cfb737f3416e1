use vstd::prelude::*;
use crate::page_alloc::WordMemory;
use crate::types::{
    bytes_to_words, is_tag, Tag, Words, TAG_ARRAY, TAG_BIGINT, TAG_BITS32, TAG_BITS64, TAG_BLOB,
    TAG_CLOSURE, TAG_CONCAT, TAG_FREE_SPACE, TAG_FWD_PTR, TAG_INDIRECTION, TAG_MUTBOX, TAG_NULL,
    TAG_OBJECT, TAG_OBJ_IND, TAG_ONE_WORD_FILLER, TAG_SOME, TAG_VARIANT,
};

verus! {

/// Why the runtime gives up.  None of these is recovered from: the heap is
/// not to be used after one of them.
#[derive(Clone, Copy, Debug, PartialEq, Eq, Structural)]
pub enum Trap {
    /// An access to an address that is not mapped.
    OutOfBounds,
    /// A header word that is no tag, or a tag that has no place where it was
    /// found.
    InvalidTag,
    /// An object whose layout cannot be right: a free-space object of less
    /// than two words, an object that runs over the end of its page, a
    /// header chain that does not end.
    InvalidObject,
    /// An object that does not fit into a page.
    LargeObject,
    /// The page allocator has no page left.
    OutOfMemory,
    /// An array longer than half of the addressable heap.
    ArrayTooLarge,
}

/// The largest size of an object in words: its size in bytes is a 32-bit
/// number.
pub const MAX_OBJECT_WORDS: u32 = 0x3fff_ffff;

/// Byte offset of the word that holds the length of an object with this
/// tag, or zero where the tag alone gives the size.
pub open spec fn length_offset(tag: Tag) -> int {
    if tag == TAG_OBJECT || tag == TAG_ARRAY || tag == TAG_BLOB || tag == TAG_FREE_SPACE {
        4
    } else if tag == TAG_CLOSURE || tag == TAG_BIGINT {
        8
    } else {
        0
    }
}

/// Number of words of an object with this tag that come before the part
/// whose size the length word gives.
pub open spec fn fixed_words(tag: Tag) -> int {
    if tag == TAG_OBJECT || tag == TAG_BITS64 || tag == TAG_CLOSURE || tag == TAG_VARIANT {
        3
    } else if tag == TAG_BIGINT || tag == TAG_CONCAT {
        4
    } else if tag == TAG_NULL || tag == TAG_ONE_WORD_FILLER {
        1
    } else if tag == TAG_FREE_SPACE {
        0
    } else {
        2
    }
}

/// Size in words of an object with tag `tag` whose length word holds `len`.
/// The length counts fields for objects, arrays and closures, digits for big
/// integers, bytes for blobs, and all words for free space.
pub open spec fn size_in_words(tag: Tag, len: u32) -> int {
    if length_offset(tag) == 0 {
        fixed_words(tag)
    } else if tag == TAG_BLOB {
        fixed_words(tag) + bytes_to_words(len as int)
    } else {
        fixed_words(tag) + len
    }
}

/// Offset in words of the first pointer field of an object with this tag.
pub open spec fn field_offset(tag: Tag) -> int {
    if tag == TAG_OBJECT || tag == TAG_CLOSURE {
        3
    } else if tag == TAG_ARRAY || tag == TAG_VARIANT || tag == TAG_CONCAT {
        2
    } else {
        1
    }
}

/// Number of pointer fields of an object with tag `tag` whose length word
/// holds `len`.
pub open spec fn field_count(tag: Tag, len: u32) -> int {
    if tag == TAG_OBJECT || tag == TAG_ARRAY || tag == TAG_CLOSURE {
        len as int
    } else if tag == TAG_CONCAT {
        2
    } else if tag == TAG_OBJ_IND || tag == TAG_MUTBOX || tag == TAG_SOME || tag == TAG_VARIANT
        || tag == TAG_INDIRECTION {
        1
    } else {
        0
    }
}

/// The length word of the object at `obj` with tag `tag`, or zero where the
/// tag has none.
pub open spec fn length_word(words: Map<int, u32>, obj: int, tag: Tag) -> u32 {
    if length_offset(tag) == 0 {
        0
    } else {
        words[obj + length_offset(tag)]
    }
}

/// Size of the object at `obj`, given its tag.  The header word itself is
/// not read: during a compaction it may hold something else.
pub open spec fn spec_object_size_(words: Map<int, u32>, obj: int, tag: Tag) -> Result<
    Words<u32>,
    Trap,
> {
    if !is_tag(tag) {
        Err(Trap::InvalidTag)
    } else if length_offset(tag) != 0 && !words.dom().contains(obj + length_offset(tag)) {
        Err(Trap::OutOfBounds)
    } else {
        let len = length_word(words, obj, tag);
        if tag == TAG_FREE_SPACE && len < 2 {
            Err(Trap::InvalidObject)
        } else if size_in_words(tag, len) > MAX_OBJECT_WORDS {
            Err(Trap::LargeObject)
        } else {
            Ok(Words(size_in_words(tag, len) as u32))
        }
    }
}

/// Size of the object at `obj`, by the tag in its header.
pub open spec fn spec_object_size(words: Map<int, u32>, obj: int) -> Result<Words<u32>, Trap> {
    if !words.dom().contains(obj) {
        Err(Trap::OutOfBounds)
    } else {
        spec_object_size_(words, obj, words[obj])
    }
}

/// The pointer fields of the object at `obj`, given its tag: the address of
/// the first field and the number of fields.
pub open spec fn spec_pointer_fields(words: Map<int, u32>, obj: int, tag: Tag) -> Result<
    (usize, u32),
    Trap,
> {
    match spec_object_size_(words, obj, tag) {
        Err(trap) => Err(trap),
        Ok(_) => if obj + field_offset(tag) * 4 > 0xffff_ffff {
            Err(Trap::OutOfBounds)
        } else {
            Ok(
                (
                    (obj + field_offset(tag) * 4) as usize,
                    field_count(tag, length_word(words, obj, tag)) as u32,
                ),
            )
        },
    }
}

/// The pointer fields of an object are the last words of the object.
pub proof fn lemma_fields_in_object(tag: Tag, len: u32)
    requires
        is_tag(tag),
    ensures
        0 <= field_count(tag, len),
        field_count(tag, len) > 0 ==> field_offset(tag) + field_count(tag, len) == size_in_words(
            tag,
            len,
        ),
        1 <= field_offset(tag),
        tag != TAG_FREE_SPACE ==> 1 <= size_in_words(tag, len),
{
}

/// The word at `addr`, or the trap of an access out of bounds.
pub fn load<M: WordMemory>(mem: &M, addr: usize) -> (r: Result<u32, Trap>)
    requires
        mem.wf(),
    ensures
        r == (if mem.words().dom().contains(addr as int) {
            Ok::<u32, Trap>(mem.words()[addr as int])
        } else {
            Err::<u32, Trap>(Trap::OutOfBounds)
        }),
{
    if mem.contains(addr) {
        Ok(mem.read_word(addr))
    } else {
        Err(Trap::OutOfBounds)
    }
}

/// Whether `tag` is one of the tags.
pub fn tag_is_valid(tag: Tag) -> (b: bool)
    ensures
        b == is_tag(tag),
{
    tag >= TAG_OBJECT && tag <= TAG_FREE_SPACE && tag % 2 == 1
}

/// The length word of the mapped object at `obj`, read where the tag has
/// one.
fn load_length<M: WordMemory>(mem: &M, obj: usize, tag: Tag) -> (r: Result<u32, Trap>)
    requires
        mem.wf(),
        mem.words().dom().contains(obj as int),
        is_tag(tag),
    ensures
        r == (if length_offset(tag) != 0 && !mem.words().dom().contains(obj + length_offset(tag)) {
            Err::<u32, Trap>(Trap::OutOfBounds)
        } else {
            Ok::<u32, Trap>(length_word(mem.words(), obj as int, tag))
        }),
{
    proof {
        mem.lemma_mapped(obj as int);
    }
    if tag == TAG_OBJECT || tag == TAG_ARRAY || tag == TAG_BLOB || tag == TAG_FREE_SPACE {
        load(mem, obj + 4)
    } else if tag == TAG_CLOSURE || tag == TAG_BIGINT {
        if obj > 0xffff_ffff - 8 {
            proof {
                if mem.words().dom().contains(obj + 8) {
                    mem.lemma_mapped(obj + 8);
                }
            }
            Err(Trap::OutOfBounds)
        } else {
            load(mem, obj + 8)
        }
    } else {
        Ok(0)
    }
}

/// Size of the mapped object at `obj`, given its tag.
pub fn object_size_<M: WordMemory>(mem: &M, obj: usize, tag: Tag) -> (r: Result<Words<u32>, Trap>)
    requires
        mem.wf(),
        mem.words().dom().contains(obj as int),
    ensures
        r == spec_object_size_(mem.words(), obj as int, tag),
{
    if !tag_is_valid(tag) {
        return Err(Trap::InvalidTag);
    }
    let len: u32 = match load_length(mem, obj, tag) {
        Ok(len) => len,
        Err(trap) => {
            return Err(trap);
        },
    };
    let fixed: u64 = if tag == TAG_OBJECT || tag == TAG_BITS64 || tag == TAG_CLOSURE || tag
        == TAG_VARIANT {
        3
    } else if tag == TAG_BIGINT || tag == TAG_CONCAT {
        4
    } else if tag == TAG_NULL || tag == TAG_ONE_WORD_FILLER {
        1
    } else if tag == TAG_FREE_SPACE {
        0
    } else {
        2
    };
    let variable: u64 = if tag == TAG_BLOB {
        (len as u64 + 3) / 4
    } else {
        len as u64
    };
    if tag == TAG_FREE_SPACE && len < 2 {
        return Err(Trap::InvalidObject);
    }
    let size: u64 = fixed + variable;
    if size > MAX_OBJECT_WORDS as u64 {
        Err(Trap::LargeObject)
    } else {
        Ok(Words(size as u32))
    }
}

/// Size of the object at `obj`, by the tag in its header.
pub fn object_size<M: WordMemory>(mem: &M, obj: usize) -> (r: Result<Words<u32>, Trap>)
    requires
        mem.wf(),
    ensures
        r == spec_object_size(mem.words(), obj as int),
{
    match load(mem, obj) {
        Ok(tag) => object_size_(mem, obj, tag),
        Err(trap) => Err(trap),
    }
}

/// The pointer fields of the mapped object at `obj`, given its tag: the
/// address of the first field and the number of fields.  A caller visits
/// the fields in the order of their addresses.
pub fn pointer_fields<M: WordMemory>(mem: &M, obj: usize, tag: Tag) -> (r: Result<
    (usize, u32),
    Trap,
>)
    requires
        mem.wf(),
        mem.words().dom().contains(obj as int),
    ensures
        r == spec_pointer_fields(mem.words(), obj as int, tag),
{
    proof {
        mem.lemma_mapped(obj as int);
    }
    match object_size_(mem, obj, tag) {
        Err(trap) => Err(trap),
        Ok(_) => {
            let len: u32 = match load_length(mem, obj, tag) {
                Ok(len) => len,
                Err(trap) => {
                    return Err(trap);
                },
            };
            let offset: usize = if tag == TAG_OBJECT || tag == TAG_CLOSURE {
                12
            } else if tag == TAG_ARRAY || tag == TAG_VARIANT || tag == TAG_CONCAT {
                8
            } else {
                4
            };
            let count: u32 = if tag == TAG_OBJECT || tag == TAG_ARRAY || tag == TAG_CLOSURE {
                len
            } else if tag == TAG_CONCAT {
                2
            } else if tag == TAG_OBJ_IND || tag == TAG_MUTBOX || tag == TAG_SOME || tag
                == TAG_VARIANT || tag == TAG_INDIRECTION {
                1
            } else {
                0
            };
            if obj > 0xffff_ffff - offset {
                Err(Trap::OutOfBounds)
            } else {
                Ok((obj + offset, count))
            }
        },
    }
}

} // verus!
