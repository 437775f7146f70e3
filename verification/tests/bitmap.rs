use arena_alligator::bitmap::{Bitmap, BITS_PER_WORD};

#[test]
fn alloc_returns_all_slots_exactly_once() {
    let mut bm = Bitmap::new(4);
    let mut slots: Vec<usize> = (0..4).filter_map(|_| bm.try_alloc()).collect();
    assert_eq!(slots.len(), 4);
    slots.sort();
    slots.dedup();
    assert_eq!(slots.len(), 4, "each slot allocated exactly once");
    assert!(slots.iter().all(|&s| s < 4));
}

#[test]
fn alloc_returns_none_when_full() {
    let mut bm = Bitmap::new(2);
    assert!(bm.try_alloc().is_some());
    assert!(bm.try_alloc().is_some());
    assert!(bm.try_alloc().is_none());
}

#[test]
fn free_makes_slot_available() {
    let mut bm = Bitmap::new(1);
    let slot = bm.try_alloc().unwrap();
    assert!(bm.try_alloc().is_none());
    bm.free(slot);
    assert!(bm.try_alloc().is_some());
}

#[test]
fn empty_bitmap_starts_with_no_free_slots() {
    let mut bm = Bitmap::new_empty(4);
    assert!(bm.try_alloc().is_none());
    assert_eq!(bm.free_count(), 0);
}

#[test]
fn alloc_free_cycle() {
    let mut bm = Bitmap::new(2);
    let s0 = bm.try_alloc().unwrap();
    let s1 = bm.try_alloc().unwrap();
    assert_ne!(s0, s1);
    assert!(bm.try_alloc().is_none());

    bm.free(s0);
    let s2 = bm.try_alloc().unwrap();
    assert_eq!(s2, s0);
    assert!(bm.try_alloc().is_none());

    bm.free(s1);
    bm.free(s2);
    let mut slots: Vec<usize> = (0..2).filter_map(|_| bm.try_alloc()).collect();
    slots.sort();
    assert_eq!(slots, vec![0, 1]);
}

#[test]
fn partial_last_word() {
    // 65 slots = 1 full word + 1 bit in second word
    let mut bm = Bitmap::new(BITS_PER_WORD + 1);
    let mut slots = Vec::new();
    while let Some(s) = bm.try_alloc() {
        slots.push(s);
    }
    assert_eq!(slots.len(), BITS_PER_WORD + 1);
    let max = *slots.iter().max().unwrap();
    assert_eq!(max, BITS_PER_WORD);
}

#[test]
fn single_slot_bitmap() {
    let mut bm = Bitmap::new(1);
    let s = bm.try_alloc().unwrap();
    assert_eq!(s, 0);
    assert!(bm.try_alloc().is_none());
    bm.free(s);
    assert_eq!(bm.try_alloc().unwrap(), 0);
}

#[test]
fn exact_word_boundary() {
    let mut bm = Bitmap::new(BITS_PER_WORD);
    let mut slots = Vec::new();
    while let Some(s) = bm.try_alloc() {
        slots.push(s);
    }
    assert_eq!(slots.len(), BITS_PER_WORD);
    assert!(bm.try_alloc().is_none());
}

#[test]
fn free_all_then_realloc() {
    let mut bm = Bitmap::new(BITS_PER_WORD * 2);
    let slots: Vec<usize> = (0..BITS_PER_WORD * 2)
        .filter_map(|_| bm.try_alloc())
        .collect();
    assert_eq!(slots.len(), BITS_PER_WORD * 2);

    for &s in &slots {
        bm.free(s);
    }

    let mut realloc: Vec<usize> = (0..BITS_PER_WORD * 2)
        .filter_map(|_| bm.try_alloc())
        .collect();
    realloc.sort();
    let mut expected: Vec<usize> = (0..BITS_PER_WORD * 2).collect();
    expected.sort();
    assert_eq!(realloc, expected);
}

#[test]
fn zero_slot_bitmap() {
    let mut bm = Bitmap::new(0);
    assert!(bm.try_alloc().is_none());
}

#[test]
fn large_bitmap() {
    let mut bm = Bitmap::new(7168);
    let mut count = 0;
    while bm.try_alloc().is_some() {
        count += 1;
    }
    assert_eq!(count, 7168);
}

#[test]
fn scan_moves_on_by_one_word() {
    let mut bm = Bitmap::new(BITS_PER_WORD * 2);
    assert_eq!(bm.try_alloc(), Some(0));
    assert_eq!(bm.try_alloc(), Some(64));
    assert_eq!(bm.try_alloc(), Some(1));
    assert_eq!(bm.try_alloc(), Some(65));
}

#[test]
fn claim_exact_takes_a_free_slot_once() {
    let mut bm = Bitmap::new(3);
    assert!(bm.try_claim_exact(1));
    assert!(!bm.try_claim_exact(1));
    assert!(!bm.is_free(1));
    assert_eq!(bm.free_count(), 2);
    assert!(bm.any_free());
}

#[test]
fn ranges_of_slots() {
    let mut bm = Bitmap::new_empty(130);
    bm.set_range(60, 70);
    assert_eq!(bm.free_count(), 10);
    assert!(bm.all_set_in_range(60, 70));
    assert!(!bm.all_set_in_range(59, 70));
    assert!(bm.all_set_in_range(5, 5));
    assert_eq!(bm.slot_count(), 130);
}

#[test]
fn fresh_bitmap_serves_each_slot_once() {
    for n in [0usize, 1, 3, 64, 65, 130, 200] {
        let mut bm = Bitmap::new(n);
        let mut seen = vec![false; n];
        for _ in 0..n {
            let slot = bm.try_alloc().unwrap();
            assert!(!seen[slot]);
            seen[slot] = true;
        }
        assert_eq!(bm.try_alloc(), None);
        assert_eq!(bm.slot_count(), n);
    }
}
