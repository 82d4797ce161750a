use braincrab::allocator::{BrainCrabAllocator, ALLOCATOR_LEN};

#[test]
fn allocates_first_fitting_runs() {
    let mut allocator = BrainCrabAllocator::new();
    assert_eq!(allocator.allocate(3), Some(0));
    assert_eq!(allocator.allocate(2), Some(3));
    allocator.deallocate(0, 3);
    assert_eq!(allocator.allocate(4), Some(5));
    assert_eq!(allocator.allocate(3), Some(0));
    assert_eq!(allocator.allocate(1), Some(9));
}

#[test]
fn allocation_fails_when_no_run_fits() {
    let mut allocator = BrainCrabAllocator::new();
    assert_eq!(allocator.allocate(ALLOCATOR_LEN as u16), Some(0));
    assert_eq!(allocator.allocate(1), None);
    allocator.deallocate(100, 2);
    assert_eq!(allocator.allocate(3), None);
    assert_eq!(allocator.allocate(2), Some(100));
}

#[test]
fn allocate_then_deallocate_restores_the_tape() {
    let mut allocator = BrainCrabAllocator::new();
    allocator.allocate(2);
    let before = allocator.to_string();
    let a = allocator.allocate(5).unwrap();
    allocator.deallocate(a, 5);
    assert_eq!(allocator.to_string(), before);
}

#[test]
fn text_lists_each_cell() {
    let mut allocator = BrainCrabAllocator::new();
    allocator.allocate(2);
    let text = allocator.to_string();
    assert!(text.starts_with("[1, 1, 0, 0"));
    assert!(text.ends_with(", 0]"));
    assert_eq!(text.len(), 2 + ALLOCATOR_LEN + 2 * (ALLOCATOR_LEN - 1));
}
