use arena_alligator::{AllocationKind, BuddyArena, BuddyGeometry, FixedArena, NonZeroUsize};

fn nz(n: usize) -> NonZeroUsize {
    NonZeroUsize::new(n).unwrap()
}

#[test]
fn buffer_reports_capacity_and_empty() {
    let mut arena = FixedArena::with_slot_capacity(nz(1), nz(64)).build().unwrap();
    let buf = arena.allocate().unwrap();
    assert_eq!(buf.capacity(), 64);
    assert_eq!(buf.len(), 0);
    assert!(buf.is_empty());
}

#[test]
fn put_slice_and_len() {
    let mut arena = FixedArena::with_slot_capacity(nz(1), nz(64)).build().unwrap();
    let mut buf = arena.allocate().unwrap();
    buf.put_slice(&mut arena, b"hello");
    assert_eq!(buf.len(), 5);
    assert!(!buf.is_empty());
    assert_eq!(buf.remaining_mut(), 59);
}

#[test]
fn put_slice_fills_exactly() {
    let mut arena = FixedArena::with_slot_capacity(nz(1), nz(8)).build().unwrap();
    let mut buf = arena.allocate().unwrap();
    buf.put_slice(&mut arena, b"12345678");
    assert_eq!(buf.len(), 8);
    assert_eq!(buf.remaining_mut(), 0);
}

#[test]
fn try_put_slice_ok() {
    let mut arena = FixedArena::with_slot_capacity(nz(1), nz(64)).build().unwrap();
    let mut buf = arena.allocate().unwrap();
    assert!(buf.try_put_slice(&mut arena, b"hello").is_ok());
    assert_eq!(buf.len(), 5);
}

#[test]
fn try_put_slice_full() {
    let mut arena = FixedArena::with_slot_capacity(nz(1), nz(4)).build().unwrap();
    let mut buf = arena.allocate().unwrap();
    let err = buf.try_put_slice(&mut arena, b"12345").unwrap_err();
    assert_eq!(err.remaining, 4);
    assert_eq!(err.requested, 5);
    assert_eq!(buf.len(), 0);
}

#[test]
fn will_fit() {
    let mut arena = FixedArena::with_slot_capacity(nz(1), nz(10)).build().unwrap();
    let mut buf = arena.allocate().unwrap();
    assert!(buf.will_fit(10));
    assert!(!buf.will_fit(11));
    buf.put_slice(&mut arena, b"12345");
    assert!(buf.will_fit(5));
    assert!(!buf.will_fit(6));
}

#[test]
fn multiple_writes_accumulate() {
    let mut arena = FixedArena::with_slot_capacity(nz(1), nz(64)).build().unwrap();
    let mut buf = arena.allocate().unwrap();
    buf.put_slice(&mut arena, b"hello ");
    buf.put_slice(&mut arena, b"world");
    assert_eq!(buf.len(), 11);
    assert_eq!(buf.as_slice(&arena), b"hello world");
}

#[test]
fn spilled_buffer_keeps_growing() {
    let mut arena = FixedArena::with_slot_capacity(nz(1), nz(4))
        .auto_spill()
        .build()
        .unwrap();
    let mut buf = arena.allocate().unwrap();
    assert!(buf.auto_spill());
    buf.put_slice(&mut arena, b"123");
    assert!(!buf.is_spilled());
    buf.put_slice(&mut arena, b"45");
    assert!(buf.is_spilled());
    buf.put_slice(&mut arena, b"678");
    assert_eq!(buf.as_slice(&arena), b"12345678");
    assert_eq!(buf.len(), 8);
    assert_eq!(buf.remaining_mut(), isize::MAX as usize - 8);
    assert!(buf.try_put_slice(&mut arena, b"9").is_ok());
    assert_eq!(arena.metrics().spills, 1);
    assert_eq!(arena.metrics().bytes_live, 0);
    assert_eq!(arena.metrics().frees, 1);
}

#[test]
fn try_put_slice_does_not_spill() {
    let mut arena = FixedArena::with_slot_capacity(nz(1), nz(4))
        .auto_spill()
        .build()
        .unwrap();
    let mut buf = arena.allocate().unwrap();
    assert!(buf.try_put_slice(&mut arena, b"12345").is_err());
    assert!(!buf.is_spilled());
}

#[test]
fn frozen_spill_counts_no_freeze() {
    let mut arena = FixedArena::with_slot_capacity(nz(1), nz(4))
        .auto_spill()
        .build()
        .unwrap();
    let mut buf = arena.allocate().unwrap();
    buf.put_slice(&mut arena, b"12345");
    let frozen = buf.freeze(&mut arena);
    assert_eq!(frozen.as_slice(&arena), b"12345");
    assert_eq!(arena.metrics().frozen, 0);
    frozen.release(&mut arena);
    assert_eq!(arena.metrics().frees, 1);
}

#[test]
fn advance_counts_bytes_written_in_place() {
    let mut arena = FixedArena::with_slot_capacity(nz(2), nz(8)).build().unwrap();
    let mut buf = arena.allocate().unwrap();
    buf.put_slice(&mut arena, b"ab");
    buf.advance_mut(3);
    assert_eq!(buf.len(), 5);
    assert_eq!(buf.as_slice(&arena), b"ab\0\0\0");
}

#[test]
fn buffers_name_their_allocation() {
    let mut arena = FixedArena::with_slot_capacity(nz(2), nz(8)).build().unwrap();
    let a = arena.allocate().unwrap();
    let b = arena.allocate().unwrap();
    assert_eq!(a.allocation(), AllocationKind::Fixed { slot_idx: 0 });
    assert_eq!(b.allocation(), AllocationKind::Fixed { slot_idx: 1 });
    assert_eq!((a.offset(), b.offset()), (0, 8));

    let geo = BuddyGeometry::exact(nz(64), nz(16)).unwrap();
    let mut buddy = BuddyArena::builder(geo).build().unwrap();
    let c = buddy.allocate(nz(32)).unwrap();
    assert_eq!(
        c.allocation(),
        AllocationKind::Buddy {
            order: 1,
            block_idx: 0
        }
    );
}
