use psychopath::image::CheckedOutBlocks;

#[test]
fn blocks_are_clipped_and_tracked() {
    let mut c = CheckedOutBlocks::new();
    assert_eq!(c.check_out((0, 0), (16, 16), (20, 10)), ((0, 0), (16, 10)));
    assert_eq!(c.check_out((16, 0), (32, 16), (20, 10)), ((16, 0), (20, 10)));
    // Touching edges do not overlap; shared pixels do.
    assert!(!c.overlaps_checked_out((0, 10), (16, 20)));
    assert!(c.overlaps_checked_out((15, 9), (17, 11)));
    assert!(c.overlaps_checked_out((18, 2), (19, 3)));
    // An empty block overlaps nothing.
    assert!(!c.overlaps_checked_out((5, 5), (5, 9)));

    c.check_in(((0, 0), (16, 10)));
    assert!(!c.overlaps_checked_out((0, 0), (16, 10)));
    assert!(c.overlaps_checked_out((16, 0), (17, 1)));
    c.check_in(((16, 0), (20, 10)));
    assert!(!c.overlaps_checked_out((0, 0), (100, 100)));
}
