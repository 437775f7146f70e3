use arena_alligator::{BuddyArena, BuddyGeometry, FixedArena, Frozen, NonZeroUsize};

fn nz(n: usize) -> NonZeroUsize {
    NonZeroUsize::new(n).unwrap()
}

#[test]
fn freeze_produces_correct_bytes() {
    let mut arena = FixedArena::with_slot_capacity(nz(1), nz(64))
        .build()
        .unwrap();
    let mut buf = arena.allocate().unwrap();
    buf.put_slice(&mut arena, b"hello world");
    let bytes = buf.freeze(&mut arena);
    assert_eq!(bytes.as_slice(&arena), b"hello world");
}

#[test]
fn abandon_returns_slot() {
    let mut arena = FixedArena::with_slot_capacity(nz(1), nz(32))
        .build()
        .unwrap();
    let buf = arena.allocate().unwrap();
    buf.abandon(&mut arena);
    assert!(arena.allocate().is_ok());
}

#[test]
fn freeze_empty_buffer() {
    let mut arena = FixedArena::with_slot_capacity(nz(1), nz(64))
        .build()
        .unwrap();
    let buf = arena.allocate().unwrap();
    let bytes = buf.freeze(&mut arena);
    assert_eq!(bytes.as_slice(&arena).len(), 0);
    assert!(bytes.as_slice(&arena).is_empty());
}

#[test]
fn buddy_freeze_produces_correct_bytes() {
    let mut arena = BuddyArena::builder(BuddyGeometry::exact(nz(4096), nz(512)).unwrap())
        .build()
        .unwrap();
    let mut buf = arena.allocate(nz(700)).unwrap();
    buf.put_slice(&mut arena, b"buddy hello");
    let bytes = buf.freeze(&mut arena);
    assert_eq!(bytes.as_slice(&arena), b"buddy hello");
}

#[test]
fn freeze_metrics_track_retained_capacity() {
    let mut arena = FixedArena::with_slot_capacity(nz(1), nz(64))
        .build()
        .unwrap();
    let mut buf = arena.allocate().unwrap();
    buf.put_slice(&mut arena, b"metrics");

    let bytes = buf.freeze(&mut arena);
    let frozen = arena.metrics();
    assert_eq!(frozen.frozen, 1);
    assert_eq!(frozen.frees, 0);
    assert_eq!(frozen.bytes_live, 64);

    bytes.release(&mut arena);
    let after_drop = arena.metrics();
    assert_eq!(after_drop.frees, 1);
    assert_eq!(after_drop.bytes_live, 0);
}

#[test]
fn handles_know_their_range() {
    let mut arena = FixedArena::with_slot_capacity(nz(2), nz(16))
        .build()
        .unwrap();
    let _first = arena.allocate().unwrap();
    let mut buf = arena.allocate().unwrap();
    buf.put_slice(&mut arena, b"abc");
    match buf.freeze(&mut arena) {
        Frozen::Arena(handle) => {
            assert_eq!(handle.offset(), 16);
            assert_eq!(handle.len(), 3);
            assert!(!handle.is_empty());
            assert_eq!(handle.as_slice(&arena), b"abc");
            handle.release(&mut arena);
        }
        Frozen::Heap(_) => panic!("the buffer has not spilled"),
    }
    assert!(arena.allocate().is_ok());
}
