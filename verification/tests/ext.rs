use arena_alligator::{BytesExt, FixedArena, NonZeroUsize};
use bytes::{BufMut, Bytes};

fn nz(n: usize) -> NonZeroUsize {
    NonZeroUsize::new(n).unwrap()
}

#[test]
fn into_owned_frees_arena_slot() {
    let mut arena = FixedArena::with_slot_capacity(nz(1), nz(64))
        .build()
        .unwrap();
    let mut buf = arena.allocate().unwrap();
    buf.put_slice(&mut arena, b"hello");
    let frozen = buf.freeze(&mut arena);

    assert!(arena.allocate().is_err());

    let owned = frozen.into_owned(&mut arena);
    assert_eq!(&owned[..], b"hello");
    assert!(arena.allocate().is_ok());
}

#[test]
fn into_owned_returns_mutable_bytes() {
    let mut arena = FixedArena::with_slot_capacity(nz(1), nz(64))
        .build()
        .unwrap();
    let mut buf = arena.allocate().unwrap();
    buf.put_slice(&mut arena, b"hello");
    let frozen = buf.freeze(&mut arena);

    let mut owned = frozen.into_owned(&mut arena);
    owned.put_slice(b" world");
    assert_eq!(&owned[..], b"hello world");
}

#[test]
fn into_owned_works_on_non_arena_bytes() {
    let bytes = Bytes::from_static(b"static data");
    let owned = bytes.into_owned();
    assert_eq!(&owned[..], b"static data");
}

#[test]
fn into_owned_of_spilled_bytes() {
    let mut arena = FixedArena::with_slot_capacity(nz(1), nz(2))
        .auto_spill()
        .build()
        .unwrap();
    let mut buf = arena.allocate().unwrap();
    buf.put_slice(&mut arena, b"heap");
    let frozen = buf.freeze(&mut arena);
    let owned = frozen.into_owned(&mut arena);
    assert_eq!(&owned[..], b"heap");
}
