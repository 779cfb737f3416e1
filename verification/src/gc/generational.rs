//! The generational variant: what it adds to the collectors.
pub mod mark_stack;
pub mod remembered_set;
pub mod write_barrier;
