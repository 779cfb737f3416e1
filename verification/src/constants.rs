use vstd::prelude::*;

verus! {

/// Size of a machine word in bytes.
pub const WORD_SIZE: u32 = 4;

/// Size of a page of the underlying linear memory, in bytes.
pub const WASM_PAGE_SIZE: u32 = 65536;

/// Number of linear-memory pages in the whole 32-bit address space.
pub const WASM_MAX_PAGES: u32 = 65536;

/// Size of the whole addressable heap, in words.
pub const WASM_HEAP_SIZE: u32 = 0x4000_0000;

/// Largest admissible array length: half of the addressable heap, in words.
pub const MAX_ARRAY_LEN: u32 = 0x2000_0000;

/// Highest byte address of the 32-bit address space.
pub const MAX_ADDRESS: usize = 0xffff_ffff;

} // verus!
