use arena_alligator::{AllocError, BuddyArena, BuddyGeometry, FixedArena, NonZeroUsize};

fn nz(n: usize) -> NonZeroUsize {
    NonZeroUsize::new(n).unwrap()
}

fn buddy_4096_512() -> BuddyArena {
    BuddyArena::builder(BuddyGeometry::exact(nz(4096), nz(512)).unwrap())
        .build()
        .unwrap()
}

#[test]
fn drop_without_freeze_returns_slot() {
    let mut arena = FixedArena::with_slot_capacity(nz(1), nz(64))
        .build()
        .unwrap();

    let mut buf = arena.allocate().unwrap();
    buf.put_slice(&mut arena, b"data that will be abandoned");

    assert!(arena.allocate().is_err(), "slot held by buffer");

    buf.abandon(&mut arena);
    assert!(
        arena.allocate().is_ok(),
        "slot freed after drop without freeze"
    );
}

#[test]
fn auto_spill_freeze_path() {
    let mut arena = FixedArena::with_slot_capacity(nz(1), nz(8))
        .auto_spill()
        .build()
        .unwrap();

    let mut buf = arena.allocate().unwrap();
    buf.put_slice(&mut arena, b"12345678");
    assert!(!buf.is_spilled());

    buf.put_slice(&mut arena, b"overflow!");
    assert!(buf.is_spilled());

    let bytes = buf.freeze(&mut arena);
    assert_eq!(bytes.as_slice(&arena), b"12345678overflow!");

    assert!(arena.allocate().is_ok(), "slot freed after spill");
}

#[test]
fn auto_spill_drop_path() {
    let mut arena = FixedArena::with_slot_capacity(nz(1), nz(4))
        .auto_spill()
        .build()
        .unwrap();

    let mut buf = arena.allocate().unwrap();
    buf.put_slice(&mut arena, b"12345");
    assert!(buf.is_spilled());

    // The slot went back with the spill: giving the buffer up must neither
    // return it twice nor leak it.
    buf.abandon(&mut arena);
    assert!(
        arena.allocate().is_ok(),
        "slot freed after spilled buffer dropped"
    );
}

#[test]
fn exhaustion_returns_arena_full() {
    let mut arena = FixedArena::with_slot_capacity(nz(48), nz(16))
        .build()
        .unwrap();

    let mut buffers = Vec::with_capacity(48);
    for _ in 0..48 {
        buffers.push(arena.allocate().unwrap());
    }

    let err = arena.allocate().unwrap_err();
    assert_eq!(err, AllocError::ArenaFull);
}

#[test]
fn alignment_capacity_rounded() {
    let mut arena = FixedArena::with_slot_capacity(nz(4), nz(100))
        .alignment(4096)
        .build()
        .unwrap();

    assert_eq!(arena.slot_capacity(), 4096);

    let mut frozen = Vec::with_capacity(4);
    for _ in 0..4 {
        let mut buf = arena.allocate().unwrap();
        buf.put_slice(&mut arena, b"aligned");
        frozen.push(buf.freeze(&mut arena));
    }

    assert!(arena.allocate().is_err(), "all 4 slots in use");
}

#[test]
fn alignment_write_full_capacity() {
    let mut arena = FixedArena::with_slot_capacity(nz(1), nz(1))
        .alignment(512)
        .build()
        .unwrap();

    assert_eq!(arena.slot_capacity(), 512);

    let mut buf = arena.allocate().unwrap();
    let data = vec![0xABu8; 512];
    buf.put_slice(&mut arena, &data);

    let bytes = buf.freeze(&mut arena);
    assert_eq!(bytes.as_slice(&arena).len(), 512);
    assert!(bytes.as_slice(&arena).iter().all(|&b| b == 0xAB));
}

#[test]
fn mixed_freeze_and_abandon_all_slots_recover() {
    let mut arena = FixedArena::with_slot_capacity(nz(8), nz(32))
        .build()
        .unwrap();

    let mut frozen = Vec::new();
    for i in 0..8 {
        let mut buf = arena.allocate().unwrap();
        buf.put_slice(&mut arena, &[i as u8; 4]);
        if i % 2 == 0 {
            frozen.push(buf.freeze(&mut arena));
        } else {
            buf.abandon(&mut arena);
        }
    }

    // 4 odd slots already freed, 4 even slots held by frozen bytes
    let mut available = 0;
    let mut temp = Vec::new();
    while let Ok(buf) = arena.allocate() {
        available += 1;
        temp.push(buf);
    }
    assert_eq!(available, 4, "odd-indexed slots freed by abandon");
    for buf in temp {
        buf.abandon(&mut arena);
    }

    for bytes in frozen {
        bytes.release(&mut arena);
    }

    let mut recovered = Vec::new();
    while let Ok(buf) = arena.allocate() {
        recovered.push(buf);
    }
    assert_eq!(recovered.len(), 8, "all 8 slots recovered");
}

#[test]
fn buddy_drop_without_freeze_returns_space() {
    let mut arena = buddy_4096_512();

    let mut buf = arena.allocate(nz(700)).unwrap();
    buf.put_slice(&mut arena, b"buddy buffer");

    let _large = arena.allocate(nz(2048)).unwrap();
    assert_eq!(
        arena.allocate(nz(2048)).unwrap_err(),
        AllocError::ArenaFull,
        "remaining space is too fragmented for another 2 KiB block"
    );

    buf.abandon(&mut arena);

    assert!(
        arena.allocate(nz(2048)).is_ok(),
        "dropping the 1 KiB block should restore a contiguous 2 KiB region"
    );
}

#[test]
fn buddy_mixed_size_churn_recovers_full_arena() {
    let mut arena = buddy_4096_512();

    let a = arena.allocate(nz(512)).unwrap();
    let b = arena.allocate(nz(1500)).unwrap();
    let c = arena.allocate(nz(512)).unwrap();
    let d = arena.allocate(nz(512)).unwrap();
    let e = arena.allocate(nz(512)).unwrap();

    assert_eq!(arena.allocate(nz(512)).unwrap_err(), AllocError::ArenaFull);

    c.abandon(&mut arena);
    a.abandon(&mut arena);
    assert_eq!(
        arena.allocate(nz(4096)).unwrap_err(),
        AllocError::ArenaFull,
        "the remaining live allocations still block full-arena coalescing"
    );

    d.abandon(&mut arena);
    e.abandon(&mut arena);
    b.abandon(&mut arena);

    let whole = arena.allocate(nz(4096)).unwrap();
    assert_eq!(whole.capacity(), 4096);
}

#[test]
fn buddy_frozen_block_stays_out_until_released() {
    let mut arena = buddy_4096_512();

    let mut buf = arena.allocate(nz(700)).unwrap();
    buf.put_slice(&mut arena, b"hello buddy world");
    let bytes = buf.freeze(&mut arena);

    let _other = arena.allocate(nz(2048)).unwrap();
    assert_eq!(
        arena.allocate(nz(2048)).unwrap_err(),
        AllocError::ArenaFull,
        "the frozen 1 KiB block still prevents another 2 KiB coalesce"
    );

    assert_eq!(&bytes.as_slice(&arena)[0..5], b"hello");
    assert_eq!(&bytes.as_slice(&arena)[12..17], b"world");

    bytes.release(&mut arena);
    assert!(arena.allocate(nz(2048)).is_ok());
}

#[test]
fn buddy_auto_spill_freeze_path() {
    let mut arena = BuddyArena::builder(BuddyGeometry::exact(nz(4096), nz(512)).unwrap())
        .auto_spill()
        .build()
        .unwrap();

    let mut buf = arena.allocate(nz(700)).unwrap();
    buf.put_slice(&mut arena, &vec![b'a'; 1024]);
    assert!(!buf.is_spilled());

    buf.put_slice(&mut arena, &vec![b'b'; 2048]);
    assert!(buf.is_spilled());
    let whole = arena.allocate(nz(4096));
    assert!(
        whole.is_ok(),
        "spill should release the buddy block immediately"
    );
    whole.unwrap().abandon(&mut arena);

    let bytes = buf.freeze(&mut arena);
    assert_eq!(bytes.as_slice(&arena).len(), 3072);
    assert!(
        arena.allocate(nz(4096)).is_ok(),
        "freezing spilled bytes should not retain any buddy allocation"
    );
}

#[test]
fn buddy_auto_spill_drop_path() {
    let mut arena = BuddyArena::builder(BuddyGeometry::exact(nz(4096), nz(512)).unwrap())
        .auto_spill()
        .build()
        .unwrap();

    let mut buf = arena.allocate(nz(700)).unwrap();
    buf.put_slice(&mut arena, &vec![b'a'; 1024]);
    buf.put_slice(&mut arena, &vec![b'b'; 2048]);
    assert!(buf.is_spilled());

    let whole = arena.allocate(nz(4096)).unwrap();
    assert_eq!(whole.capacity(), 4096);
    whole.abandon(&mut arena);

    let again = arena.allocate(nz(4096));
    assert!(
        again.is_ok(),
        "spilling should release the buddy block before the spilled buffer drops"
    );
    again.unwrap().abandon(&mut arena);

    buf.abandon(&mut arena);
}

#[test]
fn frozen_bytes_survive_other_traffic() {
    let mut arena = FixedArena::with_slot_capacity(nz(3), nz(8))
        .build()
        .unwrap();
    let mut a = arena.allocate().unwrap();
    a.put_slice(&mut arena, b"first");
    let frozen = a.freeze(&mut arena);

    for round in 0..4u8 {
        let mut b = arena.allocate().unwrap();
        b.put_slice(&mut arena, &[round; 8]);
        let mut c = arena.allocate().unwrap();
        c.put_slice(&mut arena, &[0xFF; 8]);
        assert_eq!(b.as_slice(&arena), &[round; 8]);
        b.abandon(&mut arena);
        c.abandon(&mut arena);
    }
    assert_eq!(frozen.as_slice(&arena), b"first");
}

#[test]
fn live_bytes_follow_the_slots() {
    let mut arena = FixedArena::with_slot_capacity(nz(3), nz(10))
        .build()
        .unwrap();
    let a = arena.allocate().unwrap();
    let b = arena.allocate().unwrap();
    assert_eq!(arena.metrics().bytes_live, 20);
    a.abandon(&mut arena);
    assert_eq!(arena.metrics().bytes_live, 10);
    b.abandon(&mut arena);
    assert_eq!(arena.metrics().bytes_live, 0);
    assert_eq!(arena.metrics().bytes_reserved, 30);
}
