use arena_alligator::{
    AllocError, BuildError, FixedArena, InitPolicy, NonZeroUsize, PageSize, SlotSpec,
};

fn nz(n: usize) -> NonZeroUsize {
    NonZeroUsize::new(n).unwrap()
}

#[test]
fn build_basic_arena() {
    let arena = FixedArena::with_slot_capacity(nz(4), nz(64))
        .build()
        .unwrap();
    assert_eq!(arena.slot_count(), 4);
    assert_eq!(arena.slot_capacity(), 64);
}

#[test]
fn build_invalid_alignment_fails() {
    let err = FixedArena::with_slot_capacity(nz(4), nz(64))
        .alignment(3)
        .build()
        .unwrap_err();
    assert_eq!(err, BuildError::InvalidAlignment);
}

#[test]
fn build_zero_alignment_fails() {
    let err = FixedArena::with_slot_capacity(nz(4), nz(64))
        .alignment(0)
        .build()
        .unwrap_err();
    assert_eq!(err, BuildError::InvalidAlignment);
}

#[test]
fn arena_metrics_track_allocate_free_and_failure() {
    let mut arena = FixedArena::with_slot_capacity(nz(1), nz(64))
        .build()
        .unwrap();

    let initial = arena.metrics();
    assert_eq!(initial.bytes_reserved, 64);
    assert_eq!(initial.bytes_live, 0);

    let buf = arena.allocate().unwrap();
    let after_alloc = arena.metrics();
    assert_eq!(after_alloc.allocations_ok, 1);
    assert_eq!(after_alloc.allocations_failed, 0);
    assert_eq!(after_alloc.bytes_live, 64);

    assert_eq!(arena.allocate().unwrap_err(), AllocError::ArenaFull);
    let after_fail = arena.metrics();
    assert_eq!(after_fail.allocations_failed, 1);
    assert_eq!(after_fail.bytes_live, 64);

    buf.abandon(&mut arena);
    let after_free = arena.metrics();
    assert_eq!(after_free.frees, 1);
    assert_eq!(after_free.bytes_live, 0);
}

#[test]
fn build_size_overflow_fails() {
    let err = FixedArena::with_slot_capacity(nz(usize::MAX), nz(2))
        .build()
        .unwrap_err();
    assert_eq!(err, BuildError::SizeOverflow);
}

#[test]
fn alignment_rounding_overflow_fails() {
    let err = FixedArena::with_slot_capacity(nz(1), nz(usize::MAX))
        .alignment(2)
        .build()
        .unwrap_err();
    assert_eq!(err, BuildError::SizeOverflow);
}

#[test]
fn region_beyond_the_address_space_fails() {
    let err = FixedArena::with_slot_capacity(nz(1), nz(isize::MAX as usize + 1))
        .build()
        .unwrap_err();
    assert_eq!(err, BuildError::SizeOverflow);
}

#[test]
fn alignment_rounds_capacity_up() {
    let arena = FixedArena::with_slot_capacity(nz(2), nz(100))
        .alignment(64)
        .build()
        .unwrap();
    assert_eq!(arena.slot_capacity(), 128);
}

#[test]
fn alignment_4096_rounds_up() {
    let arena = FixedArena::with_slot_capacity(nz(4), nz(100))
        .alignment(4096)
        .build()
        .unwrap();
    assert_eq!(arena.slot_capacity(), 4096);
}

#[test]
fn prefault_disabled_builds() {
    let arena = FixedArena::with_slot_capacity(nz(4), nz(64))
        .page_size(PageSize::Unknown)
        .build()
        .unwrap();
    assert_eq!(arena.slot_count(), 4);
}

#[test]
fn prefault_explicit_page_size_builds() {
    let arena = FixedArena::with_slot_capacity(nz(4), nz(4096))
        .page_size(PageSize::Size(nz(4096)))
        .build()
        .unwrap();
    assert_eq!(arena.slot_count(), 4);
}

#[test]
fn prefault_auto_builds() {
    let arena = FixedArena::with_slot_capacity(nz(4), nz(4096))
        .page_size(PageSize::Auto)
        .build()
        .unwrap();
    assert_eq!(arena.slot_count(), 4);
}

#[test]
fn page_size_resolution() {
    assert_eq!(PageSize::Unknown.resolve(Some(nz(4096))), None);
    assert_eq!(PageSize::Auto.resolve(Some(nz(4096))), Some(4096));
    assert_eq!(PageSize::Auto.resolve(None), None);
    assert_eq!(PageSize::Size(nz(16384)).resolve(Some(nz(4096))), Some(16384));
}

#[test]
fn prefault_touches_one_byte_per_page() {
    let arena = FixedArena::from_raw(Some(vec![0xFFu8; 10]), SlotSpec::Count(nz(3)))
        .page_size(PageSize::Size(nz(4)))
        .build()
        .unwrap();
    // Three slots of three bytes: pages at 0, 4 and 8.
    assert_eq!(
        arena.memory(),
        &vec![0, 0xFF, 0xFF, 0xFF, 0, 0xFF, 0xFF, 0xFF, 0, 0xFF]
    );
}

#[test]
fn prefault_with_the_system_page_size() {
    let arena = FixedArena::from_raw(Some(vec![0xFFu8; 4]), SlotSpec::Count(nz(2)))
        .os_page_size(nz(2))
        .build()
        .unwrap();
    assert_eq!(arena.memory(), &vec![0, 0xFF, 0, 0xFF]);
}

#[test]
fn prefault_page_larger_than_the_region() {
    let arena = FixedArena::from_raw(Some(vec![7u8; 4]), SlotSpec::Count(nz(2)))
        .page_size(PageSize::Size(nz(usize::MAX)))
        .build()
        .unwrap();
    assert_eq!(arena.memory(), &vec![0, 7, 7, 7]);
}

#[test]
fn arena_build_unfaulted_then_fault_pages() {
    let faultable = FixedArena::with_slot_capacity(nz(4), nz(4096))
        .page_size(PageSize::Size(nz(4096)))
        .build_unfaulted()
        .unwrap();
    let mut arena = faultable.fault_pages();
    assert_eq!(arena.slot_count(), 4);
    let _buf = arena.allocate().unwrap();
}

#[test]
fn build_unfaulted_into_inner_skips_fault() {
    let faultable = FixedArena::with_slot_capacity(nz(4), nz(64))
        .page_size(PageSize::Unknown)
        .build_unfaulted()
        .unwrap();
    let mut arena = faultable.into_inner();
    assert_eq!(arena.slot_count(), 4);
    let _buf = arena.allocate().unwrap();
}

#[test]
fn unfaulted_allocates_at_once() {
    let faultable = FixedArena::with_slot_capacity(nz(1), nz(64))
        .build_unfaulted()
        .unwrap();
    let (mut arena, buf) = faultable.allocate().unwrap();
    assert_eq!(buf.capacity(), 64);
    assert!(arena.allocate().is_err());
    buf.abandon(&mut arena);
    assert!(arena.allocate().is_ok());
}

#[test]
fn allocate_and_drop() {
    let mut arena = FixedArena::with_slot_capacity(nz(2), nz(64))
        .build()
        .unwrap();

    let buf1 = arena.allocate().unwrap();
    let buf2 = arena.allocate().unwrap();
    assert!(arena.allocate().is_err(), "arena should be full");

    buf1.abandon(&mut arena);
    let _buf3 = arena.allocate().unwrap();
    buf2.abandon(&mut arena);
}

#[test]
fn allocate_full_returns_arena_full() {
    let mut arena = FixedArena::with_slot_capacity(nz(1), nz(32))
        .build()
        .unwrap();

    let _buf = arena.allocate().unwrap();
    let err = arena.allocate().unwrap_err();
    assert_eq!(err, AllocError::ArenaFull);
}

#[test]
fn drop_returns_slot() {
    let mut arena = FixedArena::with_slot_capacity(nz(1), nz(32))
        .build()
        .unwrap();

    let buf = arena.allocate().unwrap();
    buf.abandon(&mut arena);
    assert!(
        arena.allocate().is_ok(),
        "slot should be available after drop"
    );
}

#[test]
fn init_policy_zero_fills_slot() {
    let mut arena = FixedArena::with_slot_capacity(nz(1), nz(64))
        .init_policy(InitPolicy::Zero)
        .page_size(PageSize::Unknown)
        .build()
        .unwrap();

    let mut buf = arena.allocate().unwrap();
    buf.put_slice(&mut arena, &[0xAB; 64]);
    let bytes = buf.freeze(&mut arena);
    bytes.release(&mut arena);

    let buf = arena.allocate().unwrap();
    let slot = &arena.memory()[buf.offset()..buf.offset() + 64];
    assert!(slot.iter().all(|&b| b == 0), "slot should be zeroed");
}

#[test]
fn uninit_policy_leaves_old_bytes() {
    let mut arena = FixedArena::with_slot_capacity(nz(1), nz(4))
        .build()
        .unwrap();
    let mut buf = arena.allocate().unwrap();
    buf.put_slice(&mut arena, b"keep");
    buf.abandon(&mut arena);
    let buf = arena.allocate().unwrap();
    assert_eq!(&arena.memory()[buf.offset()..buf.offset() + 4], b"keep");
}

#[test]
fn init_policy_default_is_uninit() {
    assert_eq!(InitPolicy::default(), InitPolicy::Uninit);
}

#[test]
fn builder_with_arena_capacity() {
    let arena = FixedArena::with_arena_capacity(nz(4), nz(256))
        .build()
        .unwrap();
    assert_eq!(arena.slot_count(), 4);
    assert_eq!(arena.slot_capacity(), 64);
}

#[test]
fn builder_arena_capacity_rounds_up() {
    let arena = FixedArena::with_arena_capacity(nz(3), nz(1000))
        .build()
        .unwrap();
    assert_eq!(arena.slot_capacity(), 334);
}

#[test]
fn builder_arena_capacity_with_alignment() {
    let arena = FixedArena::with_arena_capacity(nz(3), nz(1000))
        .alignment(64)
        .build()
        .unwrap();
    assert_eq!(arena.slot_capacity(), 384);
}

#[test]
fn arena_capacity_below_the_slot_count() {
    let arena = FixedArena::with_arena_capacity(nz(8), nz(3))
        .build()
        .unwrap();
    assert_eq!(arena.slot_count(), 8);
    assert_eq!(arena.slot_capacity(), 1);
}

#[test]
fn auto_spill_builder_produces_fixed_arena() {
    let mut arena = FixedArena::with_slot_capacity(nz(1), nz(64))
        .auto_spill()
        .build()
        .unwrap();
    let _buf = arena.allocate().unwrap();
}

#[test]
fn hazmat_builder_produces_raw_fixed_arena() {
    let mut raw_arena = FixedArena::with_slot_capacity(nz(4), nz(64))
        .hazmat_raw_access()
        .build()
        .unwrap();
    let _buf = raw_arena.allocate().unwrap();
}

#[test]
fn arena_zero_policy_zeroes_on_return() {
    let mut arena = FixedArena::with_slot_capacity(nz(1), nz(64))
        .init_policy(InitPolicy::Zero)
        .page_size(PageSize::Unknown)
        .build()
        .unwrap();

    let mut buf = arena.allocate().unwrap();
    buf.put_slice(&mut arena, &[0xAB; 64]);
    let bytes = buf.freeze(&mut arena);
    bytes.release(&mut arena);
    assert!(arena.memory().iter().all(|&b| b == 0));

    let buf = arena.allocate().unwrap();
    let slot = &arena.memory()[buf.offset()..buf.offset() + 64];
    assert!(
        slot.iter().all(|&b| b == 0),
        "slot should be zeroed from return path"
    );
}

#[test]
fn zero_policy_first_alloc_zeroes_cold_memory() {
    let mut arena = FixedArena::with_slot_capacity(nz(1), nz(64))
        .init_policy(InitPolicy::Zero)
        .page_size(PageSize::Unknown)
        .build()
        .unwrap();

    let buf = arena.allocate().unwrap();
    let slot = &arena.memory()[buf.offset()..buf.offset() + 64];
    assert!(slot.iter().all(|&b| b == 0), "first alloc should be zeroed");
}

#[test]
fn zero_policy_clears_cold_memory_of_the_caller() {
    let mut arena = FixedArena::from_raw(Some(vec![0xEEu8; 16]), SlotSpec::Count(nz(2)))
        .init_policy(InitPolicy::Zero)
        .build()
        .unwrap();
    let buf = arena.allocate().unwrap();
    assert_eq!(buf.offset(), 0);
    // Only the slot that was handed out is cleared.
    assert_eq!(&arena.memory()[..8], &[0u8; 8]);
    assert_eq!(&arena.memory()[8..], &[0xEEu8; 8]);
}

#[test]
fn raw_backed_builder_errors() {
    let err = FixedArena::from_raw(None::<Vec<u8>>, SlotSpec::Count(nz(1)))
        .build()
        .unwrap_err();
    assert_eq!(err, BuildError::NullPointer);

    let err = FixedArena::from_raw(Some(vec![0u8; 64]), SlotSpec::Count(nz(1)))
        .alignment(6)
        .build()
        .unwrap_err();
    assert_eq!(err, BuildError::InvalidAlignment);

    let err = FixedArena::from_raw(Some(vec![0u8; 64]), SlotSpec::Size(nz(128)))
        .build()
        .unwrap_err();
    assert_eq!(err, BuildError::SlotSizeExceedsBacking);

    let err = FixedArena::from_raw(Some(vec![0u8; 4]), SlotSpec::Count(nz(8)))
        .build()
        .unwrap_err();
    assert_eq!(err, BuildError::ZeroUsableSlots);
}

#[test]
fn raw_backed_builder_pads_slots_down() {
    let arena = FixedArena::from_raw(Some(vec![0u8; 1000]), SlotSpec::Count(nz(3)))
        .alignment(64)
        .build()
        .unwrap();
    assert_eq!(arena.slot_count(), 3);
    assert_eq!(arena.slot_capacity(), 320);
    assert_eq!(arena.metrics().bytes_reserved, 960);
}

#[test]
fn static_memory_backs_an_arena() {
    let block: &'static mut [u8] = Box::leak(vec![0u8; 4096].into_boxed_slice());
    let mut arena = FixedArena::from_static(block, SlotSpec::Count(nz(4)))
        .build()
        .unwrap();
    assert_eq!(arena.slot_count(), 4);
    assert_eq!(arena.slot_capacity(), 1024);

    let mut buf = arena.allocate().unwrap();
    buf.put_slice(&mut arena, b"static");
    assert_eq!(buf.as_slice(&arena), b"static");
    let frozen = buf.freeze(&mut arena);
    assert_eq!(frozen.as_slice(&arena), b"static");
    frozen.release(&mut arena);
}

#[test]
fn static_memory_is_scrubbed() {
    let block: &'static mut [u8] = Box::leak(vec![9u8; 8].into_boxed_slice());
    let mut arena = FixedArena::from_static(block, SlotSpec::Size(nz(4)))
        .init_policy(InitPolicy::Zero)
        .build()
        .unwrap();
    let buf = arena.allocate().unwrap();
    assert_eq!(arena.memory()[..4], [0u8; 4]);
    assert_eq!(arena.memory()[4..], [9u8; 4]);
    buf.abandon(&mut arena);
}

#[test]
fn layout_gives_capacity_and_total() {
    let builder = FixedArena::with_slot_capacity(nz(3), nz(100)).alignment(64);
    assert_eq!(builder.layout(), Ok((128, 384)));
}
