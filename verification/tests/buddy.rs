use arena_alligator::blocks::{blocks_at_order, BlockPool};
use arena_alligator::{
    AllocError, BuddyArena, BuddyGeometry, BuddyHint, BuildError, InitPolicy, NonZeroUsize,
    PageSize,
};

fn nz(n: usize) -> NonZeroUsize {
    NonZeroUsize::new(n).unwrap()
}

fn geo(total: usize, min_block: usize) -> BuddyGeometry {
    BuddyGeometry::exact(nz(total), nz(min_block)).unwrap()
}

#[test]
fn build_basic_buddy_arena() {
    let arena = BuddyArena::builder(geo(4096, 512)).build().unwrap();
    assert_eq!(arena.total_size(), 4096);
    assert_eq!(arena.min_block_size(), 512);
    assert_eq!(arena.max_order(), 3);
    assert_eq!(arena.nonempty_orders(), 1 << 3);
    assert!(!arena.auto_spill_enabled());
}

#[test]
fn blocks_at_order_derivation() {
    assert_eq!(blocks_at_order(3, 3), 1);
    assert_eq!(blocks_at_order(3, 2), 2);
    assert_eq!(blocks_at_order(3, 1), 4);
    assert_eq!(blocks_at_order(3, 0), 8);
}

#[test]
fn initial_free_state_has_one_max_order_block() {
    let arena = BuddyArena::builder(geo(4096, 512)).build().unwrap();
    for order in 0..arena.max_order() {
        assert_eq!(arena.free_block_count(order), 0);
        assert!(!arena.is_block_free(order, 0));
    }

    assert_eq!(arena.nonempty_orders(), 1 << arena.max_order());
    assert_eq!(arena.free_block_count(arena.max_order()), 1);
    assert!(arena.is_block_free(arena.max_order(), 0));
}

#[test]
fn allocate_rounds_up_request_size() {
    let mut arena = BuddyArena::builder(geo(4096, 512)).build().unwrap();
    let buf = arena.allocate(nz(700)).unwrap();
    assert_eq!(buf.capacity(), 1024);
}

#[test]
fn allocate_exhausts_large_block() {
    let mut arena = BuddyArena::builder(geo(4096, 512)).build().unwrap();
    let _buf = arena.allocate(nz(4096)).unwrap();
    assert_eq!(arena.allocate(nz(512)).unwrap_err(), AllocError::ArenaFull);
}

#[test]
fn split_path_publishes_sibling_blocks() {
    let mut arena = BuddyArena::builder(geo(4096, 512)).build().unwrap();
    let _buf = arena.allocate(nz(512)).unwrap();
    assert!(arena.is_block_free(2, 1));
    assert!(arena.is_block_free(1, 1));
    assert!(arena.is_block_free(0, 1));
}

#[test]
fn coalesce_path_restores_top_block() {
    let mut arena = BuddyArena::builder(geo(4096, 512)).build().unwrap();
    let buf = arena.allocate(nz(512)).unwrap();
    buf.abandon(&mut arena);
    assert_eq!(arena.free_block_count(arena.max_order()), 1);
    assert!(arena.is_block_free(arena.max_order(), 0));
}

#[test]
fn buddy_metrics_track_allocate_free_and_failure() {
    let mut arena = BuddyArena::builder(geo(4096, 512)).build().unwrap();

    let initial = arena.metrics();
    assert_eq!(initial.bytes_reserved, 4096);
    assert_eq!(initial.bytes_live, 0);

    let buf = arena.allocate(nz(700)).unwrap();
    let after_alloc = arena.metrics();
    assert_eq!(after_alloc.allocations_ok, 1);
    assert_eq!(after_alloc.allocations_failed, 0);
    assert_eq!(after_alloc.bytes_live, 1024);

    let other = arena.allocate(nz(2048)).unwrap();
    assert_eq!(arena.allocate(nz(2048)).unwrap_err(), AllocError::ArenaFull);
    let after_fail = arena.metrics();
    assert_eq!(after_fail.allocations_failed, 1);
    assert_eq!(after_fail.bytes_live, 3072);

    buf.abandon(&mut arena);
    let after_free = arena.metrics();
    assert_eq!(after_free.frees, 1);
    assert_eq!(after_free.bytes_live, 2048);
    other.abandon(&mut arena);
}

#[test]
fn metrics_track_splits_and_largest_free_block() {
    let mut arena = BuddyArena::builder(geo(4096, 512)).build().unwrap();

    let initial = arena.metrics();
    assert_eq!(initial.splits, 0);
    assert_eq!(initial.coalesces, 0);
    assert_eq!(initial.largest_free_block, 4096);

    let buf = arena.allocate(nz(700)).unwrap();
    let after_split = arena.metrics();
    assert_eq!(after_split.splits, 2);
    assert_eq!(after_split.coalesces, 0);
    assert_eq!(after_split.largest_free_block, 2048);

    buf.abandon(&mut arena);
    let after_free = arena.metrics();
    assert_eq!(after_free.coalesces, 2);
    assert_eq!(after_free.largest_free_block, 4096);
}

#[test]
fn metrics_track_partial_coalesce() {
    let mut arena = BuddyArena::builder(geo(4096, 512)).build().unwrap();

    let left = arena.allocate(nz(2048)).unwrap();
    let right = arena.allocate(nz(2048)).unwrap();
    let full = arena.metrics();
    assert_eq!(full.largest_free_block, 0);

    left.abandon(&mut arena);
    let half_free = arena.metrics();
    assert_eq!(half_free.coalesces, 0);
    assert_eq!(half_free.largest_free_block, 2048);

    right.abandon(&mut arena);
    let fully_free = arena.metrics();
    assert_eq!(fully_free.coalesces, 1);
    assert_eq!(fully_free.largest_free_block, 4096);
}

#[test]
fn buddy_build_unfaulted_then_fault_pages() {
    let unfaulted = BuddyArena::builder(geo(4096, 512))
        .page_size(PageSize::Size(nz(4096)))
        .build_unfaulted()
        .unwrap();
    let mut arena = unfaulted.fault_pages();
    assert_eq!(arena.total_size(), 4096);
    let _buf = arena.allocate(nz(512)).unwrap();
}

#[test]
fn build_unfaulted_into_inner() {
    let unfaulted = BuddyArena::builder(geo(4096, 512))
        .page_size(PageSize::Unknown)
        .build_unfaulted()
        .unwrap();
    let mut arena = unfaulted.into_inner();
    assert_eq!(arena.total_size(), 4096);
    let _buf = arena.allocate(nz(512)).unwrap();
}

#[test]
fn init_policy_zero_fills_block() {
    let mut arena = BuddyArena::builder(geo(1024, 1024))
        .init_policy(InitPolicy::Zero)
        .page_size(PageSize::Unknown)
        .build()
        .unwrap();

    let mut buf = arena.allocate(nz(512)).unwrap();
    buf.put_slice(&mut arena, &[0xAB; 512]);
    let bytes = buf.freeze(&mut arena);
    bytes.release(&mut arena);

    let buf = arena.allocate(nz(512)).unwrap();
    let block = &arena.memory()[buf.offset()..buf.offset() + 1024];
    assert!(block.iter().all(|&b| b == 0), "block should be zeroed");
}

#[test]
fn nearest_caps_capacity_to_requested() {
    let geo = BuddyGeometry::nearest(nz(4096), nz(512)).unwrap();
    let mut arena = BuddyArena::builder(geo).build().unwrap();
    let buf = arena.allocate(nz(700)).unwrap();
    assert_eq!(buf.capacity(), 700);
}

#[test]
fn exact_exposes_full_block_capacity() {
    let mut arena = BuddyArena::builder(geo(4096, 512)).build().unwrap();
    let buf = arena.allocate(nz(700)).unwrap();
    assert_eq!(buf.capacity(), 1024);
}

#[test]
fn nearest_write_up_to_requested_then_full() {
    let geo = BuddyGeometry::nearest(nz(4096), nz(512)).unwrap();
    let mut arena = BuddyArena::builder(geo).build().unwrap();
    let mut buf = arena.allocate(nz(700)).unwrap();
    buf.put_slice(&mut arena, &vec![0xAB; 700]);
    assert_eq!(buf.len(), 700);
    assert_eq!(buf.remaining_mut(), 0);
}

#[test]
fn exact_write_up_to_full_block() {
    let mut arena = BuddyArena::builder(geo(4096, 512)).build().unwrap();
    let mut buf = arena.allocate(nz(700)).unwrap();
    buf.put_slice(&mut arena, &vec![0xAB; 1024]);
    assert_eq!(buf.len(), 1024);
    assert_eq!(buf.remaining_mut(), 0);
}

#[test]
fn nearest_metrics_reflect_block_size() {
    let geo = BuddyGeometry::nearest(nz(4096), nz(512)).unwrap();
    let mut arena = BuddyArena::builder(geo).build().unwrap();
    let _buf = arena.allocate(nz(700)).unwrap();
    let m = arena.metrics();
    assert_eq!(m.bytes_live, 1024);
}

#[test]
fn buddy_zero_policy_zeroes_on_return() {
    let mut arena = BuddyArena::builder(geo(4096, 512))
        .init_policy(InitPolicy::Zero)
        .page_size(PageSize::Unknown)
        .build()
        .unwrap();

    let mut buf = arena.allocate(nz(512)).unwrap();
    buf.put_slice(&mut arena, &[0xAB; 512]);
    let bytes = buf.freeze(&mut arena);
    bytes.release(&mut arena);

    let buf = arena.allocate(nz(512)).unwrap();
    let block = &arena.memory()[buf.offset()..buf.offset() + 512];
    assert!(
        block.iter().all(|&b| b == 0),
        "block should be zeroed from return path"
    );
}

#[test]
fn zero_policy_higher_order_checks_order0_bits() {
    let mut arena = BuddyArena::builder(geo(4096, 512))
        .init_policy(InitPolicy::Zero)
        .page_size(PageSize::Unknown)
        .build()
        .unwrap();

    let buf = arena.allocate(nz(512)).unwrap();
    buf.abandon(&mut arena);

    let buf = arena.allocate(nz(4096)).unwrap();
    let block = &arena.memory()[buf.offset()..buf.offset() + 4096];
    assert!(block.iter().all(|&b| b == 0), "block should be zeroed");
}

#[test]
fn zero_policy_clears_cold_units_beside_scrubbed_ones() {
    let mut arena = BuddyArena::from_raw(Some(vec![0xEEu8; 64]), BuddyHint::min_alloc(nz(16)))
        .init_policy(InitPolicy::Zero)
        .build()
        .unwrap();
    let small = arena.allocate(nz(16)).unwrap();
    assert_eq!(&arena.memory()[..16], &[0u8; 16]);
    assert_eq!(&arena.memory()[16..], &[0xEEu8; 48]);
    small.abandon(&mut arena);
    let half = arena.allocate(nz(32)).unwrap();
    assert_eq!(half.offset(), 0);
    assert_eq!(&arena.memory()[..32], &[0u8; 32]);
    assert_eq!(&arena.memory()[32..], &[0xEEu8; 32]);
}

#[test]
fn oversize_request_is_refused() {
    let mut arena = BuddyArena::builder(geo(4096, 512)).build().unwrap();
    assert_eq!(arena.order_for_request(4097), None);
    assert_eq!(arena.allocate(nz(4097)).unwrap_err(), AllocError::ArenaFull);
    assert_eq!(
        arena.allocate(nz(usize::MAX)).unwrap_err(),
        AllocError::ArenaFull
    );
    assert_eq!(arena.metrics().allocations_failed, 2);
    assert!(arena.allocate(nz(4096)).is_ok());
}

#[test]
fn orders_of_requests() {
    let arena = BuddyArena::builder(geo(4096, 512)).build().unwrap();
    assert_eq!(arena.order_for_request(1), Some(0));
    assert_eq!(arena.order_for_request(512), Some(0));
    assert_eq!(arena.order_for_request(513), Some(1));
    assert_eq!(arena.order_for_request(4096), Some(3));
}

#[test]
fn release_reports_the_merged_order() {
    let mut arena = BuddyArena::builder(geo(4096, 512)).build().unwrap();
    let _a = arena.allocate(nz(512)).unwrap();
    let _b = arena.allocate(nz(512)).unwrap();
    assert_eq!(arena.release_block(0, 0), 0);
    assert_eq!(arena.release_block(0, 1), 3);
    assert_eq!(arena.metrics().largest_free_block, 4096);
}

#[test]
fn block_positions() {
    let arena = BuddyArena::builder(geo(4096, 512)).build().unwrap();
    assert_eq!(arena.block_size(2), 2048);
    assert_eq!(arena.block_offset(2, 1), 2048);
    assert_eq!(arena.block_offset(0, 7), 3584);
}

#[test]
fn provided_memory_keeps_the_tail() {
    let arena = BuddyArena::from_raw(Some(vec![0u8; 5000]), BuddyHint::min_alloc(nz(500)))
        .page_size(PageSize::Size(nz(4096)))
        .build()
        .unwrap();
    assert_eq!(arena.total_size(), 4096);
    assert_eq!(arena.min_block_size(), 512);
    assert_eq!(arena.max_order(), 3);
}

#[test]
fn provided_memory_errors() {
    let err = BuddyArena::from_raw(None::<Vec<u8>>, BuddyHint::min_alloc(nz(16)))
        .build()
        .unwrap_err();
    assert_eq!(err, BuildError::NullPointer);
    let err = BuddyArena::from_raw(Some(vec![0u8; 8]), BuddyHint::min_alloc(nz(16)))
        .build()
        .unwrap_err();
    assert_eq!(err, BuildError::ZeroUsableSlots);
}

#[test]
fn static_memory_backs_a_buddy_arena() {
    let block: &'static mut [u8] = Box::leak(vec![0u8; 1024].into_boxed_slice());
    let mut arena = BuddyArena::from_static(block, BuddyHint::min_alloc(nz(64)))
        .os_page_size(nz(256))
        .build()
        .unwrap();
    let mut buf = arena.allocate(nz(100)).unwrap();
    buf.put_slice(&mut arena, b"static buddy");
    assert_eq!(buf.as_slice(&arena), b"static buddy");
    assert_eq!(buf.capacity(), 128);
    buf.abandon(&mut arena);
}

#[test]
fn huge_geometry_does_not_build() {
    let geo = BuddyGeometry::exact(nz(1 << 63), nz(1 << 62)).unwrap();
    assert_eq!(
        BuddyArena::builder(geo).build().unwrap_err(),
        BuildError::SizeOverflow
    );
}

#[test]
fn buddy_raw_unfaulted_builds() {
    let raw = BuddyArena::builder(geo(4096, 512))
        .hazmat_raw_access()
        .page_size(PageSize::Size(nz(1024)))
        .build_unfaulted()
        .unwrap()
        .fault_pages();
    assert_eq!(raw.total_size(), 4096);
}

#[test]
fn counters_balance_when_nothing_is_held() {
    let mut arena = BuddyArena::builder(geo(4096, 256)).build().unwrap();
    let a = arena.allocate(nz(256)).unwrap();
    let b = arena.allocate(nz(1000)).unwrap();
    let c = arena.allocate(nz(300)).unwrap();
    let m = arena.metrics();
    let mut free = 0;
    for order in 0..=arena.max_order() {
        free += arena.free_block_count(order) * arena.block_size(order);
    }
    assert_eq!(free + m.bytes_live, arena.total_size());
    assert_eq!(m.bytes_live, 256 + 1024 + 512);
    assert_eq!(m.allocations_ok - m.frees, 3);
    a.abandon(&mut arena);
    c.abandon(&mut arena);
    b.abandon(&mut arena);
    let m = arena.metrics();
    assert_eq!(m.splits, m.coalesces);
    assert_eq!(m.bytes_live, 0);
    assert_eq!(m.largest_free_block, 4096);
}

#[test]
fn requests_succeed_up_to_the_largest_free_block() {
    let mut arena = BuddyArena::builder(geo(4096, 256)).build().unwrap();
    let _held = arena.allocate(nz(256)).unwrap();
    let largest = arena.metrics().largest_free_block;
    assert_eq!(largest, 2048);
    assert!(arena.allocate(nz(largest + 1)).is_err());
    assert!(arena.allocate(nz(largest)).is_ok());
}

#[test]
fn search_beyond_the_top_order_finds_nothing() {
    let mut pool = BlockPool::new(3);
    assert_eq!(pool.try_allocate_from_summary(4), None);
    assert_eq!(pool.try_allocate_from_full_scan(9), None);
    assert_eq!(pool.try_allocate_from_full_scan(3), Some((3, 0)));
    assert_eq!(pool.try_allocate_from_summary(0), None);
}

#[test]
fn frozen_bytes_outlast_other_calls() {
    let mut arena = BuddyArena::builder(geo(2048, 256))
        .init_policy(InitPolicy::Zero)
        .build()
        .unwrap();
    let mut buf = arena.allocate(nz(256)).unwrap();
    buf.put_slice(&mut arena, b"keep ");
    buf.put_slice(&mut arena, b"me");
    let frozen = buf.freeze(&mut arena);
    for _ in 0..3 {
        let mut other = arena.allocate(nz(512)).unwrap();
        other.put_slice(&mut arena, &[7u8; 512]);
        other.abandon(&mut arena);
        assert_eq!(frozen.as_slice(&arena), b"keep me");
    }
    frozen.release(&mut arena);
    assert_eq!(arena.metrics().bytes_live, 0);
}
