use arena_alligator::{
    AllocError, ArenaRef, BuddyArena, BuddyGeometry, BuddyWaiter, Delivery, FixedArena,
    NonZeroUsize, NotifyWaiters, WaitRegistration, Waiter,
};

fn nz(n: usize) -> NonZeroUsize {
    NonZeroUsize::new(n).unwrap()
}

fn geo(total: usize, min_block: usize) -> BuddyGeometry {
    BuddyGeometry::exact(nz(total), nz(min_block)).unwrap()
}

#[test]
fn fixed_turn_waits_then_succeeds() {
    let mut arena = FixedArena::with_slot_capacity(nz(1), nz(32))
        .build_async()
        .unwrap();
    let buf = arena.allocate_turn().unwrap();
    assert_eq!(buf.capacity(), 32);

    let mut registration = arena.allocate_turn().unwrap_err();
    buf.abandon(&mut arena);
    assert_eq!(arena.next_wake(), Some(true));
    assert_eq!(arena.next_wake(), None);
    arena.waiters_mut().complete(&mut registration);
    assert!(!arena.waiters_mut().cancel(registration));
    assert!(arena.allocate_turn().is_ok());
}

#[test]
fn sync_allocate_of_an_async_arena_fails_fast() {
    let mut arena = FixedArena::with_slot_capacity(nz(1), nz(32))
        .build_async()
        .unwrap();
    let _buf = arena.allocate().unwrap();
    assert_eq!(arena.allocate().unwrap_err(), AllocError::ArenaFull);
    assert_eq!(arena.slot_count(), 1);
    assert_eq!(arena.slot_capacity(), 32);
}

#[test]
fn release_without_waiters_wakes_nobody() {
    let mut arena = FixedArena::with_slot_capacity(nz(1), nz(32))
        .auto_spill()
        .build_async()
        .unwrap();
    let buf = arena.allocate().unwrap();
    buf.abandon(&mut arena);
    assert_eq!(arena.next_wake(), Some(false));
}

#[test]
fn woken_registration_passes_its_wake_on() {
    let mut waiters = NotifyWaiters::new(1);
    let mut a = Waiter::register(&mut waiters);
    a.prepare(&mut waiters);
    let mut b = Waiter::register(&mut waiters);
    b.prepare(&mut waiters);
    assert!(Waiter::wake(&mut waiters));
    waiters.complete(&mut a);
    // The first waiter gives up after its wake; the second still waits.
    assert!(waiters.cancel(a));
    waiters.complete(&mut b);
    // The last waiter leaves no stale wake behind.
    assert!(!waiters.cancel(b));
    assert!(!Waiter::wake(&mut waiters));
}

#[test]
fn revoked_fixed_registration_is_not_counted() {
    let mut waiters = NotifyWaiters::new(1);
    let mut a = Waiter::register(&mut waiters);
    a.prepare(&mut waiters);
    a.prepare(&mut waiters);
    a.revoke(&mut waiters);
    assert!(!Waiter::wake(&mut waiters));
    assert!(!waiters.cancel(a));
}

#[test]
fn buddy_turn_waits_then_succeeds() {
    let mut arena = BuddyArena::builder(geo(4096, 512)).build_async().unwrap();
    let buf = arena.allocate(nz(4096)).unwrap();
    let registration = arena.allocate_turn(nz(2048), 10).unwrap_err();
    assert_eq!(registration.order(), 2);
    buf.abandon(&mut arena);
    let sent = arena.next_wake().unwrap();
    assert_eq!(
        sent,
        vec![Delivery {
            order: 2,
            id: registration.id()
        }]
    );
    assert!(arena.next_wake().is_none());
    arena.waiters_mut().update_streak(2);
    let buf = arena.allocate_turn(nz(2048), 20).unwrap();
    assert_eq!(buf.capacity(), 2048);
}

#[test]
fn small_release_does_not_wake_a_large_request() {
    let mut arena = BuddyArena::builder(geo(4096, 512)).build_async().unwrap();
    let a = arena.allocate(nz(2048)).unwrap();
    let b = arena.allocate(nz(2048)).unwrap();
    let large = arena.allocate_turn(nz(4096), 1).unwrap_err();
    assert_eq!(large.order(), 3);
    a.abandon(&mut arena);
    assert_eq!(arena.next_wake().unwrap(), vec![]);
    b.abandon(&mut arena);
    assert_eq!(
        arena.next_wake().unwrap(),
        vec![Delivery {
            order: 3,
            id: large.id()
        }]
    );
}

#[test]
fn one_block_wakes_several_orders() {
    let mut arena = BuddyArena::builder(geo(4096, 512)).build_async().unwrap();
    let whole = arena.allocate(nz(4096)).unwrap();
    let half = arena.allocate_turn(nz(2048), 100).unwrap_err();
    let small = arena.allocate_turn(nz(512), 100).unwrap_err();
    whole.abandon(&mut arena);
    let sent = arena.next_wake().unwrap();
    assert_eq!(sent.len(), 2);
    assert!(sent.iter().any(|d| d.order == 2 && d.id == half.id()));
    assert!(sent.iter().any(|d| d.order == 0 && d.id == small.id()));
}

#[test]
fn oversize_request_waits_at_the_top_order() {
    let arena = BuddyArena::builder(geo(4096, 512)).build_async().unwrap();
    assert_eq!(arena.wait_order(1 << 20), 3);
    assert_eq!(arena.wait_order(600), 1);
    assert_eq!(arena.max_order(), 3);
}

fn queue(waiters: &mut NotifyWaiters, order: usize, now: u64) -> arena_alligator::BuddyRegistration {
    let mut registration = BuddyWaiter::register(waiters, order, now);
    registration.prepare(waiters);
    registration
}

#[test]
fn ranking_by_age_order_and_depth() {
    let mut waiters = NotifyWaiters::new(4);
    let _a = queue(&mut waiters, 0, 1_000_000);
    let _b = queue(&mut waiters, 2, 1_050_000);
    // Order 0: 1_000_000 - 5_000. Order 2: 1_050_000 - 100_000 - 5_000.
    assert_eq!(waiters.score_orders(3), vec![2, 0]);
    assert_eq!(waiters.score_orders(1), vec![0]);
    // Ten more waiters make order 0 look older by 50_000.
    for _ in 0..11 {
        queue(&mut waiters, 0, 2_000_000);
    }
    assert_eq!(waiters.score_orders(3), vec![0, 2]);
}

#[test]
fn equal_ages_go_by_order() {
    let mut waiters = NotifyWaiters::new(3);
    let _a = queue(&mut waiters, 2, 10);
    let _b = queue(&mut waiters, 0, 10);
    let _c = queue(&mut waiters, 1, 10);
    assert_eq!(waiters.score_orders(2), vec![0, 1, 2]);
}

#[test]
fn long_streak_is_passed_over() {
    let mut waiters = NotifyWaiters::new(2);
    let _a = queue(&mut waiters, 0, 1);
    let _b = queue(&mut waiters, 1, 1);
    for _ in 0..9 {
        waiters.update_streak(1);
    }
    assert_eq!(waiters.score_orders(1), vec![0, 1]);
    waiters.update_streak(1);
    assert_eq!(waiters.score_orders(1), vec![0]);
    waiters.update_streak(0);
    assert_eq!(waiters.score_orders(1), vec![0, 1]);
}

#[test]
fn lone_winner_is_not_passed_over() {
    let mut waiters = NotifyWaiters::new(2);
    let _b = queue(&mut waiters, 1, 1);
    for _ in 0..20 {
        waiters.update_streak(1);
    }
    assert_eq!(waiters.score_orders(1), vec![1]);
}

#[test]
fn oldest_waiter_of_an_order_is_woken_first() {
    let mut waiters = NotifyWaiters::new(1);
    let a = queue(&mut waiters, 0, 5);
    let b = queue(&mut waiters, 0, 6);
    assert_eq!(waiters.waiting(0), 2);
    assert_eq!(waiters.buddy_wake(0), vec![Delivery { order: 0, id: a.id() }]);
    assert_eq!(waiters.buddy_wake(0), vec![Delivery { order: 0, id: b.id() }]);
    assert_eq!(waiters.buddy_wake(0), vec![]);
    assert_eq!(waiters.waiting(0), 0);
}

#[test]
fn revoked_entries_are_skipped() {
    let mut waiters = NotifyWaiters::new(1);
    let mut a = queue(&mut waiters, 0, 5);
    let b = queue(&mut waiters, 0, 6);
    a.revoke(&mut waiters);
    assert_eq!(waiters.waiting(0), 1);
    assert_eq!(waiters.buddy_wake(0), vec![Delivery { order: 0, id: b.id() }]);
    // Giving up twice, or after the wake, changes nothing.
    waiters.buddy_cancel(a);
    waiters.buddy_cancel(b);
    assert_eq!(waiters.waiting(0), 0);
}

#[test]
fn revoked_entries_within_the_budget_hide_nobody() {
    let mut waiters = NotifyWaiters::new(1);
    let mut stale = Vec::new();
    for i in 0..8 {
        stale.push(queue(&mut waiters, 0, i));
    }
    let last = queue(&mut waiters, 0, 8);
    for mut registration in stale {
        registration.revoke(&mut waiters);
    }
    assert_eq!(waiters.waiting(0), 1);
    assert_eq!(waiters.buddy_wake(0), vec![Delivery { order: 0, id: last.id() }]);
    assert_eq!(waiters.waiting(0), 0);
}

#[test]
fn wake_stops_at_its_budget_and_loses_nobody() {
    let mut waiters = NotifyWaiters::new(1);
    let mut stale = Vec::new();
    for i in 0..9 {
        stale.push(queue(&mut waiters, 0, i));
    }
    let last = queue(&mut waiters, 0, 9);
    for mut registration in stale {
        registration.revoke(&mut waiters);
    }
    assert_eq!(waiters.waiting(0), 1);
    // Eight revoked entries use the budget up; the ninth and the waiter stay.
    assert_eq!(waiters.buddy_wake(0), vec![]);
    assert_eq!(waiters.waiting(0), 1);
    assert_eq!(waiters.buddy_wake(0), vec![Delivery { order: 0, id: last.id() }]);
    assert_eq!(waiters.waiting(0), 0);
}

#[test]
fn every_ranked_order_is_woken() {
    let mut waiters = NotifyWaiters::new(12);
    let mut ids = Vec::new();
    for order in 0..12 {
        ids.push(queue(&mut waiters, order, 1).id());
    }
    let mut sent = waiters.buddy_wake(11);
    sent.sort_by_key(|d| d.order);
    let expected: Vec<Delivery> = ids
        .iter()
        .enumerate()
        .map(|(order, id)| Delivery { order, id: *id })
        .collect();
    assert_eq!(sent, expected);
}

#[test]
fn orders_beyond_the_last_count_as_the_last() {
    let mut waiters = NotifyWaiters::new(2);
    let a = queue(&mut waiters, 7, 1);
    assert_eq!(a.order(), 1);
    assert_eq!(waiters.num_orders(), 2);
    assert_eq!(waiters.buddy_wake(9), vec![Delivery { order: 1, id: a.id() }]);
}

#[test]
fn counts_follow_cancellations_and_wakes() {
    let mut waiters = NotifyWaiters::new(2);
    for round in 0..20u64 {
        let mut registrations = Vec::new();
        for i in 0..4 {
            registrations.push(queue(&mut waiters, 0, round * 10 + i));
        }
        for registration in registrations.drain(..2) {
            waiters.buddy_cancel(registration);
        }
        assert_eq!(waiters.waiting(0), 2);
        for mut registration in registrations {
            assert_eq!(
                waiters.buddy_wake(0),
                vec![Delivery {
                    order: 0,
                    id: registration.id()
                }]
            );
            registration.complete();
            waiters.buddy_cancel(registration);
        }
        assert_eq!(waiters.waiting(0), 0);
    }
}

#[test]
fn custom_waiters_are_supported() {
    let waiters = NotifyWaiters::new(4);
    let mut arena = BuddyArena::builder(geo(4096, 512))
        .auto_spill()
        .build_async_with(waiters)
        .unwrap();
    let buf = arena.allocate_turn(nz(2048), 1).unwrap();
    buf.abandon(&mut arena);
    assert_eq!(arena.next_wake().unwrap(), vec![]);

    let mut fixed = FixedArena::with_slot_capacity(nz(1), nz(8))
        .build_async_with(NotifyWaiters::new(1))
        .unwrap();
    assert!(fixed.allocate_turn().is_ok());
}

#[test]
fn async_arenas_write_and_freeze_like_others() {
    let mut arena = BuddyArena::builder(geo(4096, 512)).build_async().unwrap();
    let mut buf = arena.allocate(nz(600)).unwrap();
    buf.put_slice(&mut arena, b"waiting");
    let frozen = buf.freeze(&mut arena);
    assert_eq!(frozen.as_slice(&arena), b"waiting");
    assert_eq!(arena.metrics().frozen, 1);
    frozen.release(&mut arena);
    assert_eq!(arena.metrics().frees, 1);
    assert_eq!(arena.read_at(0, 7), b"waiting");
}

/// Waiters that count what is asked of them.
struct CountingWaiters {
    inner: NotifyWaiters,
    registrations: usize,
    wakes: usize,
}

impl CountingWaiters {
    fn new(num_orders: usize) -> Self {
        CountingWaiters {
            inner: NotifyWaiters::new(num_orders),
            registrations: 0,
            wakes: 0,
        }
    }
}

struct CountingFixedRegistration {
    inner: arena_alligator::NotifyRegistration,
}

struct CountingBuddyRegistration {
    inner: arena_alligator::BuddyRegistration,
}

impl WaitRegistration<CountingWaiters> for CountingFixedRegistration {
    fn prepare(&mut self, waiters: &mut CountingWaiters) {
        waiters.inner.prepare(&mut self.inner);
    }

    fn revoke(&mut self, waiters: &mut CountingWaiters) {
        waiters.inner.revoke(&mut self.inner);
    }
}

impl WaitRegistration<CountingWaiters> for CountingBuddyRegistration {
    fn prepare(&mut self, waiters: &mut CountingWaiters) {
        waiters.inner.buddy_prepare(&mut self.inner);
    }

    fn revoke(&mut self, waiters: &mut CountingWaiters) {
        waiters.inner.buddy_revoke(&mut self.inner);
    }
}

impl Waiter for CountingWaiters {
    type Registration = CountingFixedRegistration;

    fn register(&mut self) -> CountingFixedRegistration {
        self.registrations += 1;
        CountingFixedRegistration {
            inner: self.inner.fixed_register(),
        }
    }

    fn wake(&mut self) -> bool {
        self.wakes += 1;
        self.inner.fixed_wake()
    }
}

impl BuddyWaiter for CountingWaiters {
    type Registration = CountingBuddyRegistration;

    fn register(&mut self, order: usize, now_ns: u64) -> CountingBuddyRegistration {
        self.registrations += 1;
        CountingBuddyRegistration {
            inner: self.inner.buddy_register(order, now_ns),
        }
    }

    fn wake(&mut self, freed_order: usize) -> Vec<Delivery> {
        self.wakes += 1;
        self.inner.buddy_wake(freed_order)
    }
}

#[test]
fn fixed_custom_waiter_supported() {
    let mut arena = FixedArena::with_slot_capacity(nz(1), nz(32))
        .build_async_with(CountingWaiters::new(1))
        .unwrap();
    let buf = arena.allocate().unwrap();
    let registration = arena.allocate_turn();
    assert!(registration.is_err());
    buf.abandon(&mut arena);
    assert_eq!(arena.next_wake(), Some(true));
    assert_eq!(arena.allocate_turn().ok().unwrap().capacity(), 32);
    assert_eq!(arena.waiters_mut().registrations, 2);
    assert_eq!(arena.waiters_mut().wakes, 1);
}

#[test]
fn buddy_custom_waiter_supported() {
    let mut arena = BuddyArena::builder(geo(4096, 512))
        .build_async_with(CountingWaiters::new(4))
        .unwrap();
    let buf = arena.allocate(nz(4096)).unwrap();
    let registration = arena.allocate_turn(nz(2048), 1).err().unwrap();
    buf.abandon(&mut arena);
    let sent = arena.next_wake().unwrap();
    assert_eq!(
        sent,
        vec![Delivery {
            order: 2,
            id: registration.inner.id()
        }]
    );
    assert_eq!(arena.allocate_turn(nz(2048), 2).ok().unwrap().capacity(), 2048);
    assert_eq!(arena.waiters_mut().registrations, 2);
    assert_eq!(arena.waiters_mut().wakes, 1);
}

#[test]
fn fixed_turn_with_waiters_kept_elsewhere() {
    let mut waiters = NotifyWaiters::new(1);
    let mut arena = FixedArena::with_slot_capacity(nz(1), nz(32))
        .build_async()
        .unwrap();
    let buf = arena.turn_with(&mut waiters).unwrap();
    assert!(!waiters.fixed_wake());
    assert!(!arena.take_freed());
    let _registration = arena.turn_with(&mut waiters).unwrap_err();
    assert!(waiters.fixed_wake());
    buf.abandon(&mut arena);
    assert!(arena.take_freed());
    assert!(!arena.take_freed());
    assert!(arena.turn_with(&mut waiters).is_ok());
}

#[test]
fn buddy_turn_with_waiters_kept_elsewhere() {
    let mut waiters = NotifyWaiters::new(4);
    let mut arena = BuddyArena::builder(geo(4096, 512)).build_async().unwrap();
    let a = arena.turn_with(&mut waiters, nz(2048), 1).unwrap();
    let b = arena.turn_with(&mut waiters, nz(2048), 2).unwrap();
    assert_eq!(arena.take_freed(), None);
    let registration = arena.turn_with(&mut waiters, nz(4096), 3).unwrap_err();
    assert_eq!(registration.order(), 3);
    assert_eq!(waiters.waiting(3), 1);
    a.abandon(&mut arena);
    b.abandon(&mut arena);
    assert_eq!(arena.take_freed(), Some(2));
    assert_eq!(arena.take_freed(), Some(3));
    assert_eq!(arena.take_freed(), None);
}

#[test]
fn each_release_is_woken_for_once() {
    let mut fixed = FixedArena::with_slot_capacity(nz(2), nz(8)).build_async().unwrap();
    let a = fixed.allocate().unwrap();
    let b = fixed.allocate().unwrap();
    assert_eq!(fixed.next_wake(), None);
    a.abandon(&mut fixed);
    let frozen = b.freeze(&mut fixed);
    assert_eq!(fixed.next_wake(), Some(false));
    assert_eq!(fixed.next_wake(), None);
    frozen.release(&mut fixed);
    assert_eq!(fixed.next_wake(), Some(false));
    assert_eq!(fixed.next_wake(), None);

    // The wake is for the merged block, not for the one that came back.
    let mut buddy = BuddyArena::builder(geo(4096, 512)).build_async().unwrap();
    let small = buddy.allocate(nz(512)).unwrap();
    small.abandon(&mut buddy);
    assert_eq!(buddy.take_freed(), Some(3));
    assert_eq!(buddy.take_freed(), None);
}

#[test]
fn waiters_survive_a_release() {
    let mut arena = BuddyArena::builder(geo(4096, 512)).build_async().unwrap();
    let whole = arena.allocate(nz(4096)).unwrap();
    let waiting = arena.allocate_turn(nz(512), 1).unwrap_err();
    whole.abandon(&mut arena);
    assert_eq!(arena.waiters_mut().waiting(0), 1);
    assert_eq!(
        arena.next_wake().unwrap(),
        vec![Delivery {
            order: 0,
            id: waiting.id()
        }]
    );
}
