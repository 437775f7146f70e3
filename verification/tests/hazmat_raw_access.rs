use arena_alligator::{BuddyArena, BuddyGeometry, FixedArena, InitPolicy, NonZeroUsize};

fn nz(n: usize) -> NonZeroUsize {
    NonZeroUsize::new(n).unwrap()
}

#[test]
fn raw_alloc_and_buffer_coexist() {
    let mut arena = FixedArena::with_slot_capacity(nz(4), nz(64))
        .hazmat_raw_access()
        .build()
        .unwrap();

    let mut buf = arena.allocate().unwrap();
    buf.put_slice(arena.arena_mut(), b"buffer");
    let bytes_buf = buf.freeze(arena.arena_mut());

    let raw = arena.raw_alloc().unwrap();
    raw.write(arena.arena_mut(), 0, b"raw");
    let bytes_raw = raw.freeze(arena.arena_mut(), 0..3).unwrap();

    assert_eq!(bytes_buf.as_slice(&*arena), b"buffer");
    assert_eq!(bytes_raw.as_slice(&*arena), b"raw");
}

#[test]
fn freeze_subslice_skips_header() {
    let mut arena = FixedArena::with_slot_capacity(nz(1), nz(128))
        .hazmat_raw_access()
        .build()
        .unwrap();

    let raw = arena.raw_alloc().unwrap();
    raw.write(arena.arena_mut(), 0, &5u32.to_le_bytes());
    raw.write(arena.arena_mut(), 4, b"hello");

    let bytes = raw.freeze(arena.arena_mut(), 4..9).unwrap();
    assert_eq!(bytes.as_slice(&*arena), b"hello");
}

#[test]
fn frozen_range_keeps_the_slot() {
    let mut arena = FixedArena::with_slot_capacity(nz(1), nz(64))
        .hazmat_raw_access()
        .build()
        .unwrap();

    let raw = arena.raw_alloc().unwrap();
    raw.write(arena.arena_mut(), 0, b"retained");
    let bytes = raw.freeze(arena.arena_mut(), 0..8).unwrap();

    assert!(arena.raw_alloc().is_err());
    assert_eq!(bytes.as_slice(&*arena), b"retained");

    bytes.release(arena.arena_mut());
    assert!(arena.raw_alloc().is_ok());
}

#[test]
fn invalid_ranges_give_the_region_up() {
    let mut arena = FixedArena::with_slot_capacity(nz(1), nz(64))
        .hazmat_raw_access()
        .build()
        .unwrap();

    let raw = arena.raw_alloc().unwrap();
    let err = raw.freeze(arena.arena_mut(), 0..65).unwrap_err();
    assert_eq!(err.range(), 0..65);
    assert_eq!(err.capacity(), 64);
    assert_eq!(err.to_string(), "freeze range 0..65 exceeds capacity 64");

    let raw = arena.raw_alloc().unwrap();
    let (start, end) = (9, 4);
    let err = raw.freeze(arena.arena_mut(), start..end).unwrap_err();
    assert_eq!(err.to_string(), "invalid freeze range: 9..4 (start > end)");
    assert_eq!(arena.metrics().frees, 2);
    assert_eq!(arena.metrics().frozen, 0);
}

#[test]
fn buddy_raw_capacity_follows_the_geometry() {
    let mut exact = BuddyArena::builder(BuddyGeometry::exact(nz(4096), nz(512)).unwrap())
        .hazmat_raw_access()
        .build()
        .unwrap();
    let region = exact.raw_alloc(nz(700)).unwrap();
    assert_eq!(region.capacity(), 1024);
    region.release(exact.arena_mut());

    let mut nearest = BuddyArena::builder(BuddyGeometry::nearest(nz(4096), nz(512)).unwrap())
        .hazmat_raw_access()
        .build()
        .unwrap();
    let region = nearest.raw_alloc(nz(700)).unwrap();
    assert_eq!(region.capacity(), 700);
    assert!(region.freeze(nearest.arena_mut(), 0..701).is_err());
    assert!(nearest.raw_alloc(nz(4096)).is_ok());
    assert!(nearest.raw_alloc(nz(512)).is_err());
}

#[test]
fn raw_slot_is_cleared_under_the_zero_policy() {
    let mut arena = FixedArena::with_slot_capacity(nz(1), nz(8))
        .init_policy(InitPolicy::Zero)
        .hazmat_raw_access()
        .build()
        .unwrap();
    let raw = arena.raw_alloc().unwrap();
    raw.write(arena.arena_mut(), 0, b"secret!!");
    raw.release(arena.arena_mut());
    let raw = arena.raw_alloc().unwrap();
    assert_eq!(raw.offset(), 0);
    let bytes = raw.freeze(arena.arena_mut(), 0..8).unwrap();
    assert_eq!(bytes.as_slice(&*arena), &[0u8; 8]);
}

#[test]
fn raw_unfaulted_builds() {
    let raw = FixedArena::with_slot_capacity(nz(4), nz(64))
        .hazmat_raw_access()
        .build_unfaulted()
        .unwrap()
        .fault_pages();
    assert_eq!(raw.slot_count(), 4);
    assert_eq!(raw.into_inner().slot_capacity(), 64);
}

#[test]
fn buddy_buffers_of_a_raw_arena() {
    let mut arena = BuddyArena::builder(BuddyGeometry::exact(nz(4096), nz(512)).unwrap())
        .hazmat_raw_access()
        .build()
        .unwrap();
    let buf = arena.allocate(nz(4096)).unwrap();
    assert!(arena.raw_alloc(nz(1)).is_err());
    buf.abandon(arena.arena_mut());
    assert_eq!(arena.metrics().frees, 1);
}
