use motoko_rts::gc::mark_compact::mark_stack::MarkStack;
use motoko_rts::page_alloc::{PageAlloc, WordMemory};
use motoko_rts::test_page_alloc::TestPageAlloc;

use proptest::test_runner::{Config, TestCaseError, TestCaseResult, TestRunner};

#[test]
fn test_push_pop() {
    let mut proptest_runner = TestRunner::new(Config {
        cases: 100,
        failure_persistence: None,
        ..Default::default()
    });

    proptest_runner
        .run(&(0u32..1000u32), |n_objs| {
            let mut page_alloc = TestPageAlloc::new(1024); // 1 KiB
            test_(&mut page_alloc, n_objs)
        })
        .unwrap();
}

fn test_<P: PageAlloc>(page_alloc: &mut P, n_objs: u32) -> TestCaseResult {
    let objs: Vec<u32> = (0..n_objs).collect();

    assert!(MarkStack::<P>::can_create(page_alloc));
    let mut mark_stack = MarkStack::new(page_alloc);

    for obj in &objs {
        // Pushing a dummy argument derived from `obj` for tag
        assert!(mark_stack.can_push(page_alloc));
        mark_stack.push(page_alloc, *obj as usize, obj.wrapping_sub(1));
    }

    for obj in objs.iter().copied().rev() {
        let popped = mark_stack.pop(page_alloc);
        if popped != Some((obj as usize, obj.wrapping_sub(1))) {
            mark_stack.free(page_alloc);
            return Err(TestCaseError::Fail(
                format!(
                    "Unexpected object popped, expected={:?}, popped={:?}",
                    obj, popped
                )
                .into(),
            ));
        }
    }

    mark_stack.free(page_alloc);

    Ok(())
}

#[test]
fn pop_of_empty_stack_is_none() {
    let mut page_alloc = TestPageAlloc::new(64);
    let mut mark_stack = MarkStack::new(&mut page_alloc);
    assert_eq!(mark_stack.pop(&mut page_alloc), None);
    mark_stack.push(&mut page_alloc, 40, 5);
    assert_eq!(mark_stack.pop(&mut page_alloc), Some((40, 5)));
    assert_eq!(mark_stack.pop(&mut page_alloc), None);
    assert_eq!(mark_stack.pop(&mut page_alloc), None);
    mark_stack.free(&mut page_alloc);
}

#[test]
fn stack_grows_by_chunks_and_gives_them_back() {
    // a page of 64 bytes holds the header, the link and 6 entries
    let mut page_alloc = TestPageAlloc::new(64);
    let mut mark_stack = MarkStack::new(&mut page_alloc);
    let first = mark_stack.top - 12;
    assert!(page_alloc.contains(first));
    for i in 0..6u32 {
        mark_stack.push(&mut page_alloc, i as usize, i);
    }
    assert_eq!(mark_stack.top, first + 60);
    mark_stack.push(&mut page_alloc, 6, 6);
    let second = mark_stack.top - 20;
    assert_ne!(second, first);
    assert!(page_alloc.contains(second));
    // the link of the second chunk names the first one
    assert_eq!(page_alloc.read_word(second + 8), first as u32);
    assert_eq!(page_alloc.read_word(first + 8), 0);
    assert_eq!(mark_stack.pop(&mut page_alloc), Some((6, 6)));
    // the second chunk is given back when the next pop finds it empty
    assert!(page_alloc.contains(second));
    assert_eq!(mark_stack.pop(&mut page_alloc), Some((5, 5)));
    assert!(!page_alloc.contains(second));
    for i in (0..5u32).rev() {
        assert_eq!(mark_stack.pop(&mut page_alloc), Some((i as usize, i)));
    }
    assert_eq!(mark_stack.pop(&mut page_alloc), None);
    mark_stack.free(&mut page_alloc);
    assert!(!page_alloc.contains(first));
}

#[test]
fn free_gives_all_chunks_back() {
    let mut page_alloc = TestPageAlloc::new(64);
    let other = page_alloc.alloc_page();
    let other_start = page_alloc.page_start(&other);
    page_alloc.write_word(other_start + 8, 99);
    let mut mark_stack = MarkStack::new(&mut page_alloc);
    let mut chunk_tops = Vec::new();
    for i in 0..50u32 {
        mark_stack.push(&mut page_alloc, 4 * i as usize, 2 * i + 1);
        chunk_tops.push(mark_stack.top - 4);
    }
    for addr in &chunk_tops {
        assert!(page_alloc.contains(*addr));
    }
    mark_stack.free(&mut page_alloc);
    for addr in &chunk_tops {
        assert!(!page_alloc.contains(*addr));
    }
    assert_eq!(page_alloc.read_word(other_start + 8), 99);
}

#[test]
fn stack_needs_room_for_an_entry() {
    let page_alloc = TestPageAlloc::new(16);
    assert!(!MarkStack::<TestPageAlloc>::can_create(&page_alloc));
    let page_alloc = TestPageAlloc::new(20);
    assert!(MarkStack::<TestPageAlloc>::can_create(&page_alloc));
}
