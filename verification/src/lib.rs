//! A garbage-collected heap for a managed language that runs on a 32-bit
//! linear-memory virtual machine.
//!
//! Memory is modelled as a partial map from word-aligned byte addresses to
//! 32-bit words.  On top of it stand the tagged value encoding, the object
//! model, a page allocator, append-only allocation spaces, mark bitmaps, mark
//! stacks, a semi-space copying collector, a mark-compact collector that
//! threads pointers, and a heap checker.
pub mod constants;
pub mod types;
pub mod bitmap;
pub mod page_alloc;
pub mod test_page_alloc;
pub mod space;
pub mod object;
pub mod memory;
pub mod linear_memory;
pub mod mem_utils;
pub mod gc;
pub mod check;
pub mod bitset;
pub mod blob_iter;

