use psychopath::mem_arena::{alignment_offset, array_mem_size, MemArena, Placement};

#[test]
fn new_arena_stats() {
    let a = MemArena::new();
    assert_eq!(a.stats(), (1 << 25, 0, 1, 0));
    assert_eq!(a.block_size(), 1 << 25);
    let b = MemArena::new_with_settings(100, 50);
    assert_eq!(b.stats(), (100, 0, 1, 0));
}

#[test]
fn alignment_offsets() {
    assert_eq!(alignment_offset(1000, 8), 0);
    assert_eq!(alignment_offset(1001, 8), 7);
    assert_eq!(alignment_offset(1007, 8), 1);
    assert_eq!(alignment_offset(5, 1), 0);
    assert_eq!(array_mem_size(12, 8, 3), 48);
    assert_eq!(array_mem_size(16, 8, 0), 0);
}

#[test]
fn allocations_are_placed_and_counted() {
    let mut a = MemArena::new_with_settings(100, 50);
    assert_eq!(a.plan_alloc(10, 8, 1000, 100), Placement::InCurrent { start: 0 });
    assert_eq!(a.plan_alloc(5, 4, 1000, 100), Placement::InCurrent { start: 12 });
    assert_eq!(a.plan_alloc(0, 1, 1000, 100), Placement::BlockStart);
    assert_eq!(a.plan_alloc(60, 8, 1000, 100), Placement::InCurrent { start: 24 });
    assert_eq!(a.stats(), (100, 75, 1, 0));

    // Does not fit and is small: a new current block.
    assert_eq!(
        a.plan_alloc(30, 4, 1000, 100),
        Placement::NewCurrentBlock { capacity: 100 }
    );
    assert_eq!(a.place_in_new_block(2003, 4, 30), 1);
    assert_eq!(a.stats(), (200, 105, 2, 0));

    // Does not fit and is large: a block of its own.
    assert_eq!(a.plan_alloc(70, 16, 2003, 100), Placement::OwnBlock { capacity: 85 });
    assert_eq!(a.stats(), (285, 175, 3, 1));

    // The current block is still the one at 2003, filled to 31.
    assert_eq!(a.plan_alloc(8, 8, 2003, 100), Placement::InCurrent { start: 37 });

    a.free_all_and_reset();
    assert_eq!(a.stats(), (100, 0, 1, 0));
    assert_eq!(a.plan_alloc(1, 1, 5000, 100), Placement::InCurrent { start: 0 });
}
