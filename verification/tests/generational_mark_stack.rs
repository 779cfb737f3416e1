use motoko_rts::gc::generational::mark_stack::{MarkStack, INIT_STACK_SIZE};
use motoko_rts::linear_memory::LinearMemory;
use motoko_rts::memory::Memory;
use motoko_rts::object::Trap;
use motoko_rts::page_alloc::WordMemory;
use motoko_rts::space::Space;
use motoko_rts::test_page_alloc::TestPageAlloc;
use motoko_rts::types::{Words, TAG_BLOB};

use proptest::test_runner::{Config, TestCaseError, TestCaseResult, TestRunner};

#[test]
fn test_generational_push_pop() {
    let mut proptest_runner = TestRunner::new(Config {
        cases: 100,
        failure_persistence: None,
        ..Default::default()
    });

    proptest_runner
        .run(&(0u32..1000u32), |n_objs| {
            let mut mem = LinearMemory::new(1024);
            test_(&mut mem, n_objs)
        })
        .unwrap();
}

fn test_<M: Memory>(mem: &mut M, n_objs: u32) -> TestCaseResult {
    let objs: Vec<u32> = (0..n_objs).collect();

    let mut stack = MarkStack::alloc_mark_stack(mem);

    for obj in &objs {
        assert_eq!(stack.push_mark_stack(mem, *obj as usize), Ok(()));
    }

    for obj in objs.iter().copied().rev() {
        let popped = stack.pop_mark_stack(mem);
        if popped != Some(obj as usize) {
            stack.free_mark_stack();
            return Err(TestCaseError::Fail(
                format!(
                    "Unexpected object popped, expected={:?}, popped={:?}",
                    obj, popped
                )
                .into(),
            ));
        }
    }

    stack.free_mark_stack();

    Ok(())
}

#[test]
fn test_grow_stack() {
    let mut mem = LinearMemory::new(64);

    let mut stack = MarkStack::alloc_mark_stack(&mut mem);

    let mut current_size = INIT_STACK_SIZE as usize * 4;
    assert_eq!(stack.stack_base + current_size, stack.stack_top);
    assert_eq!(stack.stack_base, stack.stack_ptr);
    assert_eq!(stack.stack_base, 64 + 8);

    assert_eq!(stack.grow_stack(&mut mem), Ok(()));
    current_size *= 2;
    assert_eq!(stack.stack_base + current_size, stack.stack_top);
    assert_eq!(stack.stack_base, stack.stack_ptr);

    assert_eq!(stack.grow_stack(&mut mem), Ok(()));
    current_size *= 2;
    assert_eq!(stack.stack_base + current_size, stack.stack_top);
    assert_eq!(stack.stack_base, stack.stack_ptr);

    // the capacity is four times the first one, and the blob says so
    assert_eq!(current_size, 4 * 4 * INIT_STACK_SIZE as usize);
    assert_eq!(mem.read_word(64), TAG_BLOB);
    assert_eq!(mem.read_word(68), current_size as u32);
    // the memory was used up to the end of the buffer and no further
    assert_eq!(mem.hp() as usize, stack.stack_top);
    assert_eq!(mem.allocated_bytes().0, 8 + current_size as u64);
}

#[test]
fn grow_keeps_the_entries() {
    let mut mem = LinearMemory::new(0);
    let mut stack = MarkStack::alloc_mark_stack(&mut mem);
    for i in 0..INIT_STACK_SIZE {
        assert_eq!(stack.push_mark_stack(&mut mem, 1000 + i as usize), Ok(()));
    }
    assert_eq!(stack.stack_ptr, stack.stack_top);
    let base = stack.stack_base;
    assert_eq!(stack.push_mark_stack(&mut mem, 5), Ok(()));
    assert_eq!(stack.stack_base, base);
    assert_eq!(stack.stack_top, base + 2 * 4 * INIT_STACK_SIZE as usize);
    assert_eq!(stack.pop_mark_stack(&mem), Some(5));
    for i in (0..INIT_STACK_SIZE).rev() {
        assert_eq!(stack.pop_mark_stack(&mem), Some(1000 + i as usize));
    }
    assert_eq!(stack.pop_mark_stack(&mem), None);
}

#[test]
fn stack_cannot_grow_when_something_was_allocated_behind_it() {
    let mut mem = LinearMemory::new(0);
    let mut stack = MarkStack::alloc_mark_stack(&mut mem);
    let _ = mem.alloc_words(Words(1));
    let top = stack.stack_top;
    assert_eq!(stack.grow_stack(&mut mem), Err(Trap::OutOfMemory));
    assert_eq!(stack.stack_top, top);
    for i in 0..INIT_STACK_SIZE {
        assert_eq!(stack.push_mark_stack(&mut mem, i as usize), Ok(()));
    }
    assert_eq!(stack.push_mark_stack(&mut mem, 64), Err(Trap::OutOfMemory));
    assert_eq!(stack.pop_mark_stack(&mem), Some(63));
}

#[test]
fn stack_lives_in_a_space_as_well() {
    let page_alloc = TestPageAlloc::new(4096);
    let mut space = Space::new(page_alloc);
    let mut stack = MarkStack::alloc_mark_stack(&mut space);
    for i in 0..200usize {
        assert_eq!(stack.push_mark_stack(&mut space, i), Ok(()));
    }
    for i in (0..200usize).rev() {
        assert_eq!(stack.pop_mark_stack(&space), Some(i));
    }
    assert_eq!(stack.pop_mark_stack(&space), None);
    // a page of 4 KiB has no room for 512 entries behind 256 entries
    for i in 0..256usize {
        assert_eq!(stack.push_mark_stack(&mut space, i), Ok(()));
    }
    assert_eq!(stack.push_mark_stack(&mut space, 256), Ok(()));
    for i in 257..512usize {
        assert_eq!(stack.push_mark_stack(&mut space, i), Ok(()));
    }
    assert_eq!(stack.push_mark_stack(&mut space, 512), Err(Trap::OutOfMemory));
    assert_eq!(stack.pop_mark_stack(&space), Some(511));
}
