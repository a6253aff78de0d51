use rend3::range_alloc::RangeAllocator;

#[test]
fn ranges_are_handed_out_from_the_lowest_free_unit() {
    let mut allocator = RangeAllocator::new(100);
    assert_eq!(allocator.capacity(), 100);
    assert_eq!(allocator.allocate_range(10), Some(0..10));
    assert_eq!(allocator.allocate_range(20), Some(10..30));
    assert_eq!(allocator.allocate_range(70), Some(30..100));
    assert_eq!(allocator.allocate_range(1), None);
}

#[test]
fn a_request_that_does_not_fit_changes_nothing() {
    let mut allocator = RangeAllocator::new(10);
    assert_eq!(allocator.allocate_range(11), None);
    assert_eq!(allocator.allocate_range(10), Some(0..10));
}

#[test]
fn an_empty_buffer_hands_out_nothing() {
    let mut allocator = RangeAllocator::new(0);
    assert_eq!(allocator.allocate_range(1), None);
}

#[test]
fn a_freed_range_is_handed_out_again() {
    let mut allocator = RangeAllocator::new(30);
    assert_eq!(allocator.allocate_range(10), Some(0..10));
    assert_eq!(allocator.allocate_range(10), Some(10..20));
    assert_eq!(allocator.allocate_range(10), Some(20..30));
    allocator.free_range(10..20);
    assert_eq!(allocator.allocate_range(11), None);
    assert_eq!(allocator.allocate_range(10), Some(10..20));
    assert_eq!(allocator.allocate_range(1), None);
}

#[test]
fn the_first_fit_skips_holes_that_are_too_small() {
    let mut allocator = RangeAllocator::new(40);
    for start in [0, 10, 20, 30] {
        assert_eq!(allocator.allocate_range(10), Some(start..start + 10));
    }
    allocator.free_range(0..5);
    allocator.free_range(20..30);
    assert_eq!(allocator.allocate_range(6), Some(20..26));
    assert_eq!(allocator.allocate_range(5), Some(0..5));
    assert_eq!(allocator.allocate_range(4), Some(26..30));
}

#[test]
fn freed_neighbours_merge_into_one_range() {
    let mut allocator = RangeAllocator::new(30);
    assert_eq!(allocator.allocate_range(30), Some(0..30));
    allocator.free_range(0..10);
    allocator.free_range(20..30);
    assert_eq!(allocator.allocate_range(20), None);
    allocator.free_range(10..20);
    assert_eq!(allocator.allocate_range(30), Some(0..30));
}

#[test]
fn freeing_merges_with_the_left_or_the_right_neighbour() {
    let mut allocator = RangeAllocator::new(30);
    assert_eq!(allocator.allocate_range(30), Some(0..30));
    allocator.free_range(10..15);
    allocator.free_range(15..20);
    assert_eq!(allocator.allocate_range(10), Some(10..20));
    allocator.free_range(15..20);
    allocator.free_range(10..15);
    assert_eq!(allocator.allocate_range(10), Some(10..20));
}

#[test]
fn growing_adds_free_units_at_the_end() {
    let mut allocator = RangeAllocator::new(10);
    assert_eq!(allocator.allocate_range(8), Some(0..8));
    allocator.grow_to(20);
    assert_eq!(allocator.capacity(), 20);
    assert_eq!(allocator.allocate_range(12), Some(8..20));
    allocator.grow_to(20);
    assert_eq!(allocator.allocate_range(1), None);
    allocator.grow_to(25);
    assert_eq!(allocator.allocate_range(5), Some(20..25));
}

#[test]
fn can_allocate_tells_whether_a_run_of_free_units_exists() {
    let mut allocator = RangeAllocator::new(20);
    assert!(allocator.can_allocate(20));
    assert!(!allocator.can_allocate(21));
    assert_eq!(allocator.allocate_range(20), Some(0..20));
    assert!(!allocator.can_allocate(1));
    allocator.free_range(3..8);
    allocator.free_range(12..14);
    assert!(allocator.can_allocate(5));
    assert!(!allocator.can_allocate(6));
    assert_eq!(allocator.allocate_range(2), Some(3..5));
    assert!(allocator.can_allocate(3));
    assert!(!allocator.can_allocate(4));
}
