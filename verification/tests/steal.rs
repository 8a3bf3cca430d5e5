use std::collections::VecDeque;
use ophelia::steal::try_steal;

const MB: u64 = 1024 * 1024;

#[test]
fn steals_back_half_of_largest_active_chunk() {
    let mut starts = vec![0, 100 * MB, 0, 0];
    let mut ends = vec![100 * MB, 200 * MB, 0, 0];
    let downloaded = vec![10 * MB, 90 * MB, 0, 0];
    let active = vec![0usize, 1];
    let mut next_slot = 2usize;
    let mut pending: VecDeque<usize> = VecDeque::new();
    try_steal(&mut starts, &mut ends, &downloaded, &active, &mut next_slot, &mut pending, 64 * 1024, 4 * MB);
    // Slot 0 has 90 MB left minus the safe zone; the split is aligned to 4 KiB.
    let from = 10 * MB + 64 * 1024;
    let raw = from + (100 * MB - from) / 2;
    let mid = (raw + 4095) / 4096 * 4096;
    assert_eq!(ends[0], mid);
    assert_eq!(starts[2], mid);
    assert_eq!(ends[2], 100 * MB);
    assert_eq!(next_slot, 3);
    assert_eq!(pending, vec![2]);
    // Slot 1 is untouched.
    assert_eq!((starts[1], ends[1]), (100 * MB, 200 * MB));
}

#[test]
fn no_steal_when_too_little_remains() {
    let mut starts = vec![0, 0];
    let mut ends = vec![10 * MB, 0];
    let downloaded = vec![5 * MB, 0];
    let active = vec![0usize];
    let mut next_slot = 1usize;
    let mut pending: VecDeque<usize> = VecDeque::from(vec![7]);
    try_steal(&mut starts, &mut ends, &downloaded, &active, &mut next_slot, &mut pending, 0, 4 * MB);
    assert_eq!(ends, vec![10 * MB, 0]);
    assert_eq!(next_slot, 1);
    assert_eq!(pending, vec![7]);
}

#[test]
fn no_steal_when_slots_are_used_up() {
    let mut starts = vec![0];
    let mut ends = vec![100 * MB];
    let downloaded = vec![0];
    let active = vec![0usize];
    let mut next_slot = 1usize;
    let mut pending: VecDeque<usize> = VecDeque::new();
    try_steal(&mut starts, &mut ends, &downloaded, &active, &mut next_slot, &mut pending, 0, 4 * MB);
    assert_eq!(ends, vec![100 * MB]);
    assert_eq!(next_slot, 1);
    assert!(pending.is_empty());
}

#[test]
fn ties_go_to_the_last_active_slot() {
    let mut starts = vec![0, 100 * MB, 0];
    let mut ends = vec![100 * MB, 200 * MB, 0];
    let downloaded = vec![0, 0, 0];
    let active = vec![0usize, 1];
    let mut next_slot = 2usize;
    let mut pending: VecDeque<usize> = VecDeque::new();
    try_steal(&mut starts, &mut ends, &downloaded, &active, &mut next_slot, &mut pending, 0, MB);
    assert_eq!(ends[0], 100 * MB);
    assert_eq!(ends[1], 150 * MB);
    assert_eq!((starts[2], ends[2]), (150 * MB, 200 * MB));
}

#[test]
fn stolen_ranges_still_tile_the_file() {
    let mut starts = vec![0, 0];
    let mut ends = vec![64 * MB, 0];
    let downloaded = vec![MB, 0];
    let active = vec![0usize];
    let mut next_slot = 1usize;
    let mut pending: VecDeque<usize> = VecDeque::new();
    try_steal(&mut starts, &mut ends, &downloaded, &active, &mut next_slot, &mut pending, 0, 4 * MB);
    assert_eq!(next_slot, 2);
    assert_eq!(starts[0], 0);
    assert_eq!(ends[0], starts[1]);
    assert_eq!(ends[1], 64 * MB);
}

#[test]
fn steal_leaves_the_chunk_map_unchanged() {
    let total = 64 * MB;
    let mut starts = vec![0, 0];
    let mut ends = vec![total, 0];
    let downloaded = vec![3 * MB, 0];
    let before = ophelia::chunk_map::snapshot_from_slot_arrays(total, &starts, &ends, &downloaded, 1);
    let active = vec![0usize];
    let mut next_slot = 1usize;
    let mut pending: VecDeque<usize> = VecDeque::new();
    try_steal(&mut starts, &mut ends, &downloaded, &active, &mut next_slot, &mut pending, 64 * 1024, 4 * MB);
    assert_eq!(next_slot, 2);
    let after = ophelia::chunk_map::snapshot_from_slot_arrays(total, &starts, &ends, &downloaded, next_slot);
    assert_eq!(before, after);
}

#[test]
fn steal_arithmetic_check_follows_the_rounding() {
    let starts = vec![0u64, 0];
    let ends = vec![100 * MB, 0];
    let downloaded = vec![0u64, 0];
    assert!(ophelia::steal::steal_arithmetic_check(&starts, &ends, &downloaded, &[0], 0, MB));
    // Rounding the midpoint of a chunk ending at the top of the range overflows.
    let high_starts = vec![u64::MAX - 1000, 0];
    let high_ends = vec![u64::MAX, 0];
    assert!(!ophelia::steal::steal_arithmetic_check(&high_starts, &high_ends, &downloaded, &[0], 0, 100));
    // A position past the end of the range overflows.
    assert!(!ophelia::steal::steal_arithmetic_check(&high_starts, &high_ends, &[2000, 0], &[0], 0, 100));
    // Twice the minimum must fit.
    assert!(!ophelia::steal::steal_arithmetic_check(&starts, &ends, &downloaded, &[0], 0, u64::MAX));
    assert!(ophelia::steal::steal_arithmetic_check(&starts, &ends, &downloaded, &[], 0, u64::MAX));
}

#[test]
fn repeated_steals_then_pause_restore_the_file_size() {
    let total = 96 * MB;
    let chunks = ophelia::plan::split(total, 2);
    let mut starts = ophelia::plan::with_spare_slots(&chunks.starts, 2);
    let mut ends = ophelia::plan::with_spare_slots(&chunks.ends, 2);
    let downloaded = vec![MB, MB, 0, 0];
    let mut next_slot = 2usize;
    let mut pending: VecDeque<usize> = VecDeque::new();
    try_steal(&mut starts, &mut ends, &downloaded, &[0, 1], &mut next_slot, &mut pending, 0, MB);
    try_steal(&mut starts, &mut ends, &downloaded, &[0, 1, 2], &mut next_slot, &mut pending, 0, MB);
    assert_eq!(next_slot, 4);
    let saved = ophelia::plan::pause_snapshots(&starts, &ends, &downloaded, next_slot);
    let (restored_total, _) = ophelia::plan::chunk_list_from_snapshots(&saved);
    assert_eq!(restored_total, total);
}
