use arena_alligator::bits::{
    align_down, align_up, checked_next_power_of_two, is_power_of_two, log2, prev_power_of_two,
};
use arena_alligator::{BuddyHint, BuildError, NonZeroUsize, SlotSpec};

fn nz(n: usize) -> NonZeroUsize {
    NonZeroUsize::new(n).unwrap()
}

#[test]
fn slot_spec_count_derives_size() {
    let spec = SlotSpec::Count(nz(8));
    let (count, size) = spec.resolve(1024, 1).unwrap();
    assert_eq!(count, 8);
    assert_eq!(size, 128);
}

#[test]
fn slot_spec_size_derives_count() {
    let spec = SlotSpec::Size(nz(256));
    let (count, size) = spec.resolve(1024, 1).unwrap();
    assert_eq!(count, 4);
    assert_eq!(size, 256);
}

#[test]
fn slot_spec_size_truncates_tail() {
    let spec = SlotSpec::Size(nz(300));
    let (count, size) = spec.resolve(1024, 1).unwrap();
    assert_eq!(count, 3);
    assert_eq!(size, 300);
}

#[test]
fn slot_spec_size_exceeds_block() {
    let spec = SlotSpec::Size(nz(5000));
    let result = spec.resolve(4096, 1);
    assert_eq!(result, Err(BuildError::SlotSizeExceedsBacking));
}

#[test]
fn slot_spec_count_with_alignment() {
    let spec = SlotSpec::Count(nz(4));
    let (count, size) = spec.resolve(4096, 64).unwrap();
    assert_eq!(count, 4);
    assert_eq!(size, 1024);
    assert_eq!(size % 64, 0);
}

#[test]
fn slot_spec_zero_usable() {
    let spec = SlotSpec::Size(nz(100));
    let result = spec.resolve(50, 1);
    assert_eq!(result, Err(BuildError::SlotSizeExceedsBacking));
}

#[test]
fn slot_spec_smaller_than_the_alignment() {
    assert_eq!(
        SlotSpec::Size(nz(10)).resolve(4096, 64),
        Err(BuildError::ZeroUsableSlots)
    );
    assert_eq!(
        SlotSpec::Count(nz(5000)).resolve(4096, 1),
        Err(BuildError::ZeroUsableSlots)
    );
}

#[test]
fn buddy_hint_basic() {
    let hint = BuddyHint::min_alloc(nz(512));
    let (min_block, max_order) = hint.resolve(4096).unwrap();
    assert_eq!(min_block, 512);
    assert_eq!(max_order, 3); // 512 * 2^3 = 4096
}

#[test]
fn buddy_hint_snaps_up() {
    let hint = BuddyHint::min_alloc(nz(500));
    let (min_block, _) = hint.resolve(4096).unwrap();
    assert_eq!(min_block, 512); // snapped up to power of two
}

#[test]
fn buddy_hint_too_large() {
    let hint = BuddyHint::min_alloc(nz(8192));
    let result = hint.resolve(4096);
    assert_eq!(result, Err(BuildError::ZeroUsableSlots));
}

#[test]
fn buddy_hint_exact_fit() {
    let hint = BuddyHint::min_alloc(nz(4096));
    let (min_block, max_order) = hint.resolve(4096).unwrap();
    assert_eq!(min_block, 4096);
    assert_eq!(max_order, 0); // only one block
}

#[test]
fn buddy_hint_snaps_down_where_up_does_not_fit() {
    let hint = BuddyHint::min_alloc(nz(3000));
    assert_eq!(hint.resolve(3500), Ok((2048, 0)));
}

#[test]
fn buddy_hint_leaves_the_tail() {
    let hint = BuddyHint::min_alloc(nz(512));
    assert_eq!(hint.resolve(5000), Ok((512, 3)));
    assert_eq!(hint.resolve(8191), Ok((512, 3)));
    assert_eq!(hint.resolve(8192), Ok((512, 4)));
}

#[test]
fn align_down_basic() {
    assert_eq!(align_down(1023, 64), 960);
    assert_eq!(align_down(1024, 64), 1024);
    assert_eq!(align_down(63, 64), 0);
}

#[test]
fn prev_power_of_two_values() {
    assert_eq!(prev_power_of_two(0), 0);
    assert_eq!(prev_power_of_two(1), 1);
    assert_eq!(prev_power_of_two(500), 256);
    assert_eq!(prev_power_of_two(512), 512);
    assert_eq!(prev_power_of_two(1023), 512);
}

#[test]
fn power_of_two_arithmetic() {
    assert!(is_power_of_two(1) && is_power_of_two(1 << 40));
    assert!(!is_power_of_two(0) && !is_power_of_two(96));
    assert_eq!(checked_next_power_of_two(0), Some(1));
    assert_eq!(checked_next_power_of_two(700), Some(1024));
    assert_eq!(checked_next_power_of_two(usize::MAX), None);
    assert_eq!(log2(4096), 12);
    assert_eq!(align_up(100, 64), Some(128));
    assert_eq!(align_up(usize::MAX, 2), None);
}

#[test]
fn zero_is_no_size() {
    assert!(NonZeroUsize::new(0).is_none());
    assert_eq!(nz(7).get(), 7);
}
