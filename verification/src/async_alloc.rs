//! Allocation that waits: one turn of the wait loop, and the wakes that a
//! release owes.
//!
//! A turn registers a waiter, tries to allocate and takes the registration
//! back if that worked. Otherwise the caller waits for the registration's wake
//! and takes another turn. Releases queue the wakes that they owe, and the
//! caller sends them.
use vstd::prelude::*;
use vstd::arithmetic::power2::*;
use std::collections::VecDeque;
use std::ops::Deref;
use crate::allocation::{AllocationKind, ArenaRef};
use crate::arena::FixedArena;
use crate::buddy::BuddyArena;
use crate::buffer::Buffer;
use crate::memory::Backing;
use crate::nonzero::NonZeroUsize;
use crate::waiters::{BuddyRegistration, Delivery, NotifyRegistration, NotifyWaiters};

verus! {

/// A waiter of a set of waiters `W`.
///
/// What the steps do is for the implementation to say; one that says nothing
/// promises nothing.
pub trait WaitRegistration<W>: Sized {
    /// The registration was made by these waiters.
    open spec fn belongs(&self, waiters: W) -> bool {
        true
    }

    /// Preparing leads from one state to another.
    open spec fn prepares(pre: (W, Self), post: (W, Self)) -> bool {
        true
    }

    /// Revoking leads from one state to another.
    open spec fn revokes(pre: (W, Self), post: (W, Self)) -> bool {
        true
    }

    /// Arms the registration before the allocation is tried.
    fn prepare(&mut self, waiters: &mut W)
        requires
            old(self).belongs(*old(waiters)),
        ensures
            final(self).belongs(*final(waiters)),
            Self::prepares((*old(waiters), *old(self)), (*final(waiters), *final(self))),
    ;

    /// Takes the registration back when the allocation succeeded.
    fn revoke(&mut self, waiters: &mut W)
        requires
            old(self).belongs(*old(waiters)),
        ensures
            Self::revokes((*old(waiters), *old(self)), (*final(waiters), *final(self))),
    ;
}

/// Wait strategy for fixed arenas, whose slots are all alike.
///
/// What the steps do is for the implementation to say; one that says nothing
/// promises nothing.
pub trait Waiter: Sized {
    /// What a waiter holds.
    type Registration: WaitRegistration<Self>;

    /// Registering leads from one state to another and gives a registration.
    open spec fn registers(pre: Self, post: Self, registration: Self::Registration) -> bool {
        true
    }

    /// A wake leads from one state to another and does or does not notify.
    open spec fn wakes(pre: Self, post: Self, notify: bool) -> bool {
        true
    }

    /// Registers a waiter before allocation is tried.
    fn register(&mut self) -> (r: Self::Registration)
        ensures
            r.belongs(*final(self)),
            Self::registers(*old(self), *final(self), r),
    ;

    /// Decides whether to notify a waiter after a slot became available.
    fn wake(&mut self) -> (r: bool)
        ensures
            Self::wakes(*old(self), *final(self), r),
    ;
}

/// Wait strategy for buddy arenas: waiters register at the order of their
/// request.
///
/// What the steps do is for the implementation to say; one that says nothing
/// promises nothing.
pub trait BuddyWaiter: Sized {
    /// What a waiter holds.
    type Registration: WaitRegistration<Self>;

    /// Another waiter can be registered.
    open spec fn ready(&self) -> bool {
        true
    }

    /// Waiters can be woken.
    open spec fn wakeable(&self) -> bool {
        true
    }

    /// Registering leads from one state to another and gives a registration.
    open spec fn registers(
        pre: Self,
        post: Self,
        order: usize,
        now_ns: u64,
        registration: Self::Registration,
    ) -> bool {
        true
    }

    /// A wake leads from one state to another and sends the deliveries.
    open spec fn wakes(pre: Self, post: Self, freed_order: usize, sent: Seq<Delivery>) -> bool {
        true
    }

    /// Registers a waiter at the given order.
    fn register(&mut self, order: usize, now_ns: u64) -> (r: Self::Registration)
        requires
            old(self).ready(),
        ensures
            r.belongs(*final(self)),
            Self::registers(*old(self), *final(self), order, now_ns, r),
    ;

    /// Decides whom to wake after a block of `freed_order` became available.
    fn wake(&mut self, freed_order: usize) -> (r: Vec<Delivery>)
        requires
            old(self).wakeable(),
        ensures
            Self::wakes(*old(self), *final(self), freed_order, r@),
    ;
}

impl WaitRegistration<NotifyWaiters> for NotifyRegistration {
    open spec fn belongs(&self, waiters: NotifyWaiters) -> bool {
        true
    }

    open spec fn prepares(
        pre: (NotifyWaiters, NotifyRegistration),
        post: (NotifyWaiters, NotifyRegistration),
    ) -> bool {
        &&& post.1@ == (crate::waiters::NotifyView { registered: true, ..pre.1@ })
        &&& post.0@ == if pre.1@.registered {
            pre.0@
        } else {
            pre.0@.with_fixed(pre.0@.fixed_count.wrapping_add(1))
        }
    }

    open spec fn revokes(
        pre: (NotifyWaiters, NotifyRegistration),
        post: (NotifyWaiters, NotifyRegistration),
    ) -> bool {
        &&& post.1@ == (crate::waiters::NotifyView { registered: false, woken: false })
        &&& post.0@ == pre.0@.without_fixed(pre.1@)
    }

    fn prepare(&mut self, waiters: &mut NotifyWaiters) {
        waiters.prepare(self);
    }

    fn revoke(&mut self, waiters: &mut NotifyWaiters) {
        waiters.revoke(self);
    }
}

impl Waiter for NotifyWaiters {
    type Registration = NotifyRegistration;

    open spec fn registers(
        pre: NotifyWaiters,
        post: NotifyWaiters,
        registration: NotifyRegistration,
    ) -> bool {
        &&& post == pre
        &&& registration@ == (crate::waiters::NotifyView { registered: false, woken: false })
    }

    open spec fn wakes(pre: NotifyWaiters, post: NotifyWaiters, notify: bool) -> bool {
        post == pre && notify == (pre@.fixed_count > 0)
    }

    fn register(&mut self) -> (r: NotifyRegistration) {
        self.fixed_register()
    }

    fn wake(&mut self) -> (r: bool) {
        self.fixed_wake()
    }
}

impl WaitRegistration<NotifyWaiters> for BuddyRegistration {
    open spec fn belongs(&self, waiters: NotifyWaiters) -> bool {
        0 <= self@.order < waiters@.orders.len()
    }

    open spec fn prepares(
        pre: (NotifyWaiters, BuddyRegistration),
        post: (NotifyWaiters, BuddyRegistration),
    ) -> bool {
        let reg = pre.1@;
        if !reg.registered && reg.pending {
            &&& post.0@ == pre.0@.with_slot(
                reg.order,
                pre.0@.orders[reg.order].joined(reg.entry()),
            )
            &&& post.1@ == (crate::waiters::BuddyRegistrationView {
                registered: true,
                pending: false,
                ..reg
            })
        } else {
            post.0@ == pre.0@ && post.1@ == reg
        }
    }

    open spec fn revokes(
        pre: (NotifyWaiters, BuddyRegistration),
        post: (NotifyWaiters, BuddyRegistration),
    ) -> bool {
        &&& post.0@ == pre.0@.revoked(pre.1@)
        &&& post.1@ == (crate::waiters::BuddyRegistrationView { registered: false, ..pre.1@ })
    }

    fn prepare(&mut self, waiters: &mut NotifyWaiters) {
        waiters.buddy_prepare(self);
    }

    fn revoke(&mut self, waiters: &mut NotifyWaiters) {
        waiters.buddy_revoke(self);
    }
}

impl BuddyWaiter for NotifyWaiters {
    type Registration = BuddyRegistration;

    open spec fn ready(&self) -> bool {
        self@.orders.len() > 0 && self@.next_id < u64::MAX
    }

    open spec fn wakeable(&self) -> bool {
        self@.orders.len() > 0
    }

    open spec fn registers(
        pre: NotifyWaiters,
        post: NotifyWaiters,
        order: usize,
        now_ns: u64,
        registration: BuddyRegistration,
    ) -> bool {
        &&& post@ == (crate::waiters::WaitersView {
            next_id: (pre@.next_id + 1) as u64,
            ..pre@
        })
        &&& registration@ == (crate::waiters::BuddyRegistrationView {
            id: pre@.next_id,
            order: if order < pre@.orders.len() {
                order as int
            } else {
                pre@.orders.len() - 1
            },
            timestamp: now_ns,
            registered: false,
            pending: true,
        })
    }

    open spec fn wakes(
        pre: NotifyWaiters,
        post: NotifyWaiters,
        freed_order: usize,
        sent: Seq<Delivery>,
    ) -> bool {
        exists|ranking: Seq<usize>| #[trigger]
            pre@.ranked(freed_order as int, ranking) && (post@, sent) == pre@.woken(ranking, 0)
    }

    fn register(&mut self, order: usize, now_ns: u64) -> (r: BuddyRegistration) {
        self.buddy_register(order, now_ns)
    }

    fn wake(&mut self, freed_order: usize) -> (r: Vec<Delivery>) {
        self.buddy_wake(freed_order)
    }
}

/// What an arena that owes wakes stands for.
#[verifier::ext_equal]
pub struct AsyncFixedView<W> {
    pub arena: crate::arena::FixedView,
    /// The waiters.
    pub waiting: W,
    /// Slots that came back and whose wake is still to be decided.
    pub freed: usize,
}

/// Fixed arena with waiters.
#[derive(Debug)]
pub struct AsyncFixedArena<W = NotifyWaiters, M: Backing = Vec<u8>> {
    inner: FixedArena<M>,
    waiters: W,
    freed: usize,
}

impl<W, M: Backing> AsyncFixedArena<W, M> {
    /// The arena inside.
    pub closed spec fn arena(&self) -> FixedArena<M> {
        self.inner
    }

    /// The waiters.
    pub closed spec fn waiting(&self) -> W {
        self.waiters
    }

    /// Slots that came back and whose wake is still to be decided.
    pub closed spec fn freed(&self) -> usize {
        self.freed
    }

    /// An arena with waiters.
    pub fn new(inner: FixedArena<M>, waiters: W) -> (r: Self)
        ensures
            r.arena() == inner,
            r.waiting() == waiters,
            r.freed() == 0,
    {
        AsyncFixedArena { inner, waiters, freed: 0 }
    }

    /// The waiters.
    pub fn waiters_mut(&mut self) -> (r: &mut W)
        ensures
            *r == old(self).waiting(),
            final(self).waiting() == *final(r),
            final(self).arena() == old(self).arena(),
            final(self).freed() == old(self).freed(),
    {
        &mut self.waiters
    }

    /// Takes note of one slot that came back, if there is one: a wake is owed
    /// for it.
    pub fn take_freed(&mut self) -> (r: bool)
        ensures
            final(self).arena() == old(self).arena(),
            final(self).waiting() == old(self).waiting(),
            r == (old(self).freed() > 0),
            final(self).freed() == if r {
                old(self).freed() - 1
            } else {
                0
            },
    {
        if self.freed == 0 {
            return false;
        }
        self.freed = self.freed - 1;
        true
    }

    /// Allocates a buffer, or fails at once if all slots are in use.
    pub fn allocate(&mut self) -> (r: Result<Buffer, crate::error::AllocError>)
        requires
            old(self).arena().valid(),
        ensures
            final(self).arena().valid(),
            final(self).waiting() == old(self).waiting(),
            final(self).freed() == old(self).freed(),
            match r {
                Ok(buffer) => {
                    &&& buffer@.allocation matches AllocationKind::Fixed { slot_idx: slot }
                    &&& old(self).arena()@.slots.picks(slot as int)
                    &&& buffer@ == old(self).arena()@.buffer_on(slot)
                    &&& buffer@.capacity == old(self).arena()@.slot_capacity
                    &&& buffer@.offset == slot * old(self).arena()@.slot_capacity
                    &&& buffer@.len == 0
                    &&& buffer@.spill is None
                    &&& buffer@.auto_spill == old(self).arena()@.auto_spill
                    &&& slot < old(self).arena()@.slot_count
                    &&& old(self).arena()@.slots.free[slot as int]
                    &&& final(self).arena()@ == old(self).arena()@.allocated(slot as int)
                    &&& buffer@.inv()
                    &&& buffer@.backed_by::<Self>(final(self).state())
                },
                Err(e) => {
                    &&& e == crate::error::AllocError::ArenaFull
                    &&& !old(self).arena()@.slots.any_free()
                    &&& final(self).arena()@ == old(self).arena()@.refused()
                },
            },
    {
        self.inner.allocate()
    }
}

impl<V, M: Backing> AsyncFixedArena<V, M> {
    /// One turn of a waiting allocation with waiters that are kept elsewhere:
    /// the buffer, or the registration to wait for before the next turn.
    pub fn turn_with<W: Waiter>(&mut self, waiters: &mut W) -> (r: Result<Buffer, W::Registration>)
        requires
            old(self).arena().valid(),
        ensures
            final(self).arena().valid(),
            final(self).freed() == old(self).freed(),
            final(self).waiting() == old(self).waiting(),
            match r {
                Ok(buffer) => {
                    &&& fixed_turn_served(old(self).arena()@, buffer@, final(self).arena()@)
                    &&& buffer@.backed_by::<Self>(final(self).state())
                    &&& turn_taken_back::<W>(*old(waiters), *final(waiters))
                },
                Err(registration) => {
                    &&& !old(self).arena()@.slots.any_free()
                    &&& final(self).arena()@ == old(self).arena()@.refused()
                    &&& turn_waits::<W>(*old(waiters), *final(waiters), registration)
                },
            },
    {
        fixed_turn(&mut self.inner, waiters)
    }
}

/// One turn of a waiting allocation on an arena.
fn fixed_turn<W: Waiter, M: Backing>(arena: &mut FixedArena<M>, waiters: &mut W) -> (r: Result<
    Buffer,
    W::Registration,
>)
    requires
        old(arena).valid(),
    ensures
        final(arena).valid(),
        match r {
            Ok(buffer) => {
                &&& fixed_turn_served(old(arena)@, buffer@, final(arena)@)
                &&& buffer@.backed_by::<FixedArena<M>>(final(arena).state())
                &&& turn_taken_back::<W>(*old(waiters), *final(waiters))
            },
            Err(registration) => {
                &&& !old(arena)@.slots.any_free()
                &&& final(arena)@ == old(arena)@.refused()
                &&& turn_waits::<W>(*old(waiters), *final(waiters), registration)
            },
        },
{
    let ghost w0 = *waiters;
    let mut registration: W::Registration = waiters.register();
    let ghost w1 = *waiters;
    let ghost r1 = registration;
    registration.prepare(waiters);
    let ghost w2 = *waiters;
    let ghost r2 = registration;
    match arena.allocate() {
        Ok(buffer) => {
            registration.revoke(waiters);
            proof {
                assert(W::registers(w0, w1, r1));
                assert(<W::Registration as WaitRegistration<W>>::prepares((w1, r1), (w2, r2)));
                assert(<W::Registration as WaitRegistration<W>>::revokes(
                    (w2, r2),
                    (*waiters, registration),
                ));
            }
            Ok(buffer)
        },
        Err(_) => {
            proof {
                assert(W::registers(w0, w1, r1));
                assert(<W::Registration as WaitRegistration<W>>::prepares((w1, r1), (w2, r2)));
            }
            Err(registration)
        },
    }
}

/// A turn was served with the slot that a plain allocation hands out.
pub open spec fn fixed_turn_served(
    pre: crate::arena::FixedView,
    buffer: crate::buffer::BufferView,
    post: crate::arena::FixedView,
) -> bool {
    &&& buffer.allocation matches AllocationKind::Fixed { slot_idx: slot }
    &&& pre.slots.picks(slot as int)
    &&& buffer == pre.buffer_on(slot)
    &&& post == pre.allocated(slot as int)
    &&& buffer.inv()
}

impl<W: Waiter, M: Backing> AsyncFixedArena<W, M> {
    /// One turn of a waiting allocation: the buffer, or the registration to
    /// wait for before the next turn.
    pub fn allocate_turn(&mut self) -> (r: Result<Buffer, W::Registration>)
        requires
            old(self).arena().valid(),
        ensures
            final(self).arena().valid(),
            final(self).freed() == old(self).freed(),
            match r {
                Ok(buffer) => {
                    &&& fixed_turn_served(old(self).arena()@, buffer@, final(self).arena()@)
                    &&& buffer@.backed_by::<Self>(final(self).state())
                    &&& turn_taken_back::<W>(old(self).waiting(), final(self).waiting())
                },
                Err(registration) => {
                    &&& !old(self).arena()@.slots.any_free()
                    &&& final(self).arena()@ == old(self).arena()@.refused()
                    &&& turn_waits::<W>(old(self).waiting(), final(self).waiting(), registration)
                },
            },
    {
        fixed_turn(&mut self.inner, &mut self.waiters)
    }

    /// Decides the wake for one slot that came back, if there is one.
    pub fn next_wake(&mut self) -> (r: Option<bool>)
        ensures
            final(self).arena() == old(self).arena(),
            match r {
                Some(notify) => {
                    &&& old(self).freed() > 0
                    &&& final(self).freed() == old(self).freed() - 1
                    &&& W::wakes(old(self).waiting(), final(self).waiting(), notify)
                },
                None => old(self).freed() == 0 && *final(self) == *old(self),
            },
    {
        if self.take_freed() {
            Some(self.waiters.wake())
        } else {
            None
        }
    }
}

/// A turn that registered, allocated and took the registration back.
pub open spec fn turn_taken_back<W: Waiter>(pre: W, post: W) -> bool {
    exists|w1: W, r1: W::Registration, w2: W, r2: W::Registration, r3: W::Registration|
        #![trigger W::registers(pre, w1, r1), <W::Registration as WaitRegistration<W>>::prepares((w1, r1), (w2, r2)), <W::Registration as WaitRegistration<W>>::revokes((w2, r2), (post, r3))]
        {
            &&& W::registers(pre, w1, r1)
            &&& <W::Registration as WaitRegistration<W>>::prepares((w1, r1), (w2, r2))
            &&& <W::Registration as WaitRegistration<W>>::revokes((w2, r2), (post, r3))
        }
}

/// A turn that registered and waits.
pub open spec fn turn_waits<W: Waiter>(pre: W, post: W, registration: W::Registration) -> bool {
    exists|w1: W, r1: W::Registration|
        #![trigger W::registers(pre, w1, r1)]
        {
            &&& W::registers(pre, w1, r1)
            &&& <W::Registration as WaitRegistration<W>>::prepares(
                (w1, r1),
                (post, registration),
            )
        }
}

impl<W, M: Backing> Deref for AsyncFixedArena<W, M> {
    type Target = FixedArena<M>;

    fn deref(&self) -> (r: &FixedArena<M>)
        ensures
            *r == self.arena(),
    {
        &self.inner
    }
}

impl<W, M: Backing> ArenaRef for AsyncFixedArena<W, M> {
    type State = AsyncFixedView<W>;

    open spec fn wf(&self) -> bool {
        self.arena().valid()
    }

    open spec fn state(&self) -> AsyncFixedView<W> {
        AsyncFixedView { arena: self.arena()@, waiting: self.waiting(), freed: self.freed() }
    }

    open spec fn region(state: AsyncFixedView<W>) -> Seq<u8> {
        FixedArena::<M>::region(state.arena)
    }

    open spec fn live(state: AsyncFixedView<W>, allocation: AllocationKind) -> bool {
        FixedArena::<M>::live(state.arena, allocation)
    }

    open spec fn start(state: AsyncFixedView<W>, allocation: AllocationKind) -> int {
        FixedArena::<M>::start(state.arena, allocation)
    }

    open spec fn extent(state: AsyncFixedView<W>, allocation: AllocationKind) -> int {
        FixedArena::<M>::extent(state.arena, allocation)
    }

    open spec fn written(state: AsyncFixedView<W>, at: int, data: Seq<u8>) -> AsyncFixedView<W> {
        AsyncFixedView { arena: FixedArena::<M>::written(state.arena, at, data), ..state }
    }

    open spec fn released(state: AsyncFixedView<W>, allocation: AllocationKind) -> AsyncFixedView<W> {
        AsyncFixedView {
            arena: FixedArena::<M>::released(state.arena, allocation),
            freed: state.freed.wrapping_add(1),
            ..state
        }
    }

    open spec fn frozen(state: AsyncFixedView<W>) -> AsyncFixedView<W> {
        AsyncFixedView { arena: FixedArena::<M>::frozen(state.arena), ..state }
    }

    open spec fn spilled(state: AsyncFixedView<W>) -> AsyncFixedView<W> {
        AsyncFixedView { arena: FixedArena::<M>::spilled(state.arena), ..state }
    }

    proof fn lemma_in_region(&self, allocation: AllocationKind) {
        self.inner.lemma_in_region(allocation);
    }

    proof fn lemma_frame(
        state: AsyncFixedView<W>,
        allocation: AllocationKind,
        other: AllocationKind,
        at: int,
        data: Seq<u8>,
    ) {
        FixedArena::<M>::lemma_frame(state.arena, allocation, other, at, data);
    }

    fn read_at(&self, at: usize, n: usize) -> (r: &[u8]) {
        self.inner.read_at(at, n)
    }

    fn write_at(&mut self, allocation: AllocationKind, at: usize, data: &[u8]) {
        self.inner.write_at(allocation, at, data);
    }

    fn release(&mut self, allocation: AllocationKind) {
        self.inner.release(allocation);
        self.freed = self.freed.wrapping_add(1);
    }

    fn record_frozen(&mut self) {
        self.inner.record_frozen();
    }

    fn record_spill(&mut self) {
        self.inner.record_spill();
    }
}

/// What a buddy arena that owes wakes stands for.
#[verifier::ext_equal]
pub struct AsyncBuddyView<W> {
    pub arena: crate::buddy::BuddyView,
    /// The waiters.
    pub waiting: W,
    /// Orders of blocks that came back and whose wake is still to be decided.
    pub freed: Seq<usize>,
}

/// Buddy arena with waiters.
#[derive(Debug)]
pub struct AsyncBuddyArena<W = NotifyWaiters, M: Backing = Vec<u8>> {
    inner: BuddyArena<M>,
    waiters: W,
    freed: VecDeque<usize>,
}

impl<W, M: Backing> AsyncBuddyArena<W, M> {
    /// The arena inside.
    pub closed spec fn arena(&self) -> BuddyArena<M> {
        self.inner
    }

    /// The waiters.
    pub closed spec fn waiting(&self) -> W {
        self.waiters
    }

    /// Orders of blocks that came back and whose wake is still to be decided.
    pub closed spec fn freed(&self) -> Seq<usize> {
        self.freed@
    }

    /// An arena with waiters.
    pub fn new(inner: BuddyArena<M>, waiters: W) -> (r: Self)
        ensures
            r.arena() == inner,
            r.waiting() == waiters,
            r.freed() == Seq::<usize>::empty(),
    {
        AsyncBuddyArena { inner, waiters, freed: VecDeque::new() }
    }

    /// The waiters.
    pub fn waiters_mut(&mut self) -> (r: &mut W)
        ensures
            *r == old(self).waiting(),
            final(self).waiting() == *final(r),
            final(self).arena() == old(self).arena(),
            final(self).freed() == old(self).freed(),
    {
        &mut self.waiters
    }

    /// Takes the order of the first block that came back, if there is one: a
    /// wake is owed for it.
    pub fn take_freed(&mut self) -> (r: Option<usize>)
        ensures
            final(self).arena() == old(self).arena(),
            final(self).waiting() == old(self).waiting(),
            match r {
                Some(order) => {
                    &&& old(self).freed().len() > 0
                    &&& order == old(self).freed()[0]
                    &&& final(self).freed() == old(self).freed().skip(1)
                },
                None => old(self).freed().len() == 0 && final(self).freed() == old(self).freed(),
            },
    {
        let r: Option<usize> = self.freed.pop_front();
        assert(r is Some ==> self.freed@ =~= old(self).freed@.skip(1));
        r
    }

    /// Allocates a buffer, or fails at once if no block is large enough.
    pub fn allocate(&mut self, len: NonZeroUsize) -> (r: Result<Buffer, crate::error::AllocError>)
        requires
            old(self).arena().valid(),
        ensures
            final(self).arena().valid(),
            final(self).waiting() == old(self).waiting(),
            final(self).freed() == old(self).freed(),
            match r {
                Ok(buffer) => {
                    &&& buffer@.allocation matches AllocationKind::Buddy { order, block_idx: idx }
                    &&& old(self).arena()@.grants(
                        len@,
                        order as nat,
                        idx as int,
                        final(self).arena()@,
                    )
                    &&& buffer@ == old(self).arena()@.buffer_on(order, idx, len@)
                    &&& len@ <= buffer@.capacity
                    &&& old(self).arena()@.cap_capacity ==> buffer@.capacity == len@
                    &&& !old(self).arena()@.cap_capacity ==> buffer@.capacity == old(self).arena()@.min_block_size * pow2(
                        order as nat,
                    )
                    &&& buffer@.offset == idx * (old(self).arena()@.min_block_size * pow2(order as nat))
                    &&& buffer@.len == 0
                    &&& buffer@.spill is None
                    &&& buffer@.auto_spill == old(self).arena()@.auto_spill
                    &&& buffer@.inv()
                    &&& buffer@.backed_by::<Self>(final(self).state())
                },
                Err(e) => {
                    &&& e == crate::error::AllocError::ArenaFull
                    &&& old(self).arena()@.refuses(len@, final(self).arena()@)
                },
            },
    {
        self.inner.allocate(len)
    }

    /// The order at which a request of `len` bytes waits: the order that it
    /// asks for, or the top order when it exceeds the region.
    pub fn wait_order(&self, len: usize) -> (r: usize)
        requires
            self.arena().valid(),
        ensures
            waits_at(self.arena()@, len as nat, r),
    {
        wait_order_in(&self.inner, len)
    }
}

impl<V, M: Backing> AsyncBuddyArena<V, M> {
    /// One turn of a waiting allocation with waiters that are kept elsewhere:
    /// the buffer, or the registration to wait for before the next turn.
    pub fn turn_with<W: BuddyWaiter>(
        &mut self,
        waiters: &mut W,
        len: NonZeroUsize,
        now_ns: u64,
    ) -> (r: Result<Buffer, W::Registration>)
        requires
            old(self).arena().valid(),
            old(waiters).ready(),
        ensures
            final(self).arena().valid(),
            final(self).freed() == old(self).freed(),
            final(self).waiting() == old(self).waiting(),
            match r {
                Ok(buffer) => {
                    &&& buddy_turn_served(old(self).arena()@, len@, buffer@, final(self).arena()@)
                    &&& buffer@.backed_by::<Self>(final(self).state())
                    &&& buddy_turn_taken_back::<W>(
                        *old(waiters),
                        *final(waiters),
                        buffer@.allocation->order,
                        now_ns,
                    )
                },
                Err(registration) => {
                    &&& old(self).arena()@.refuses(len@, final(self).arena()@)
                    &&& exists|order: usize|
                        {
                            &&& #[trigger] waits_at(old(self).arena()@, len@, order)
                            &&& buddy_turn_waits::<W>(
                                *old(waiters),
                                *final(waiters),
                                order,
                                now_ns,
                                registration,
                            )
                        }
                },
            },
    {
        buddy_turn(&mut self.inner, waiters, len, now_ns)
    }
}

/// One turn of a waiting allocation on an arena.
fn buddy_turn<W: BuddyWaiter, M: Backing>(
    arena: &mut BuddyArena<M>,
    waiters: &mut W,
    len: NonZeroUsize,
    now_ns: u64,
) -> (r: Result<Buffer, W::Registration>)
    requires
        old(arena).valid(),
        old(waiters).ready(),
    ensures
        final(arena).valid(),
        match r {
            Ok(buffer) => {
                &&& buddy_turn_served(old(arena)@, len@, buffer@, final(arena)@)
                &&& buffer@.backed_by::<BuddyArena<M>>(final(arena).state())
                &&& buddy_turn_taken_back::<W>(
                    *old(waiters),
                    *final(waiters),
                    buffer@.allocation->order,
                    now_ns,
                )
            },
            Err(registration) => {
                &&& old(arena)@.refuses(len@, final(arena)@)
                &&& exists|order: usize|
                    {
                        &&& #[trigger] waits_at(old(arena)@, len@, order)
                        &&& buddy_turn_waits::<W>(
                            *old(waiters),
                            *final(waiters),
                            order,
                            now_ns,
                            registration,
                        )
                    }
            },
        },
{
    let ghost pre = arena@;
    proof {
        arena.lemma_valid();
    }
    let order: usize = wait_order_in(&*arena, len.get());
    let ghost w0 = *waiters;
    let mut registration: W::Registration = waiters.register(order, now_ns);
    let ghost w1 = *waiters;
    let ghost r1 = registration;
    registration.prepare(waiters);
    let ghost w2 = *waiters;
    let ghost r2 = registration;
    match arena.allocate(len) {
        Ok(buffer) => {
            proof {
                if let AllocationKind::Buddy { order: granted, .. } = buffer@.allocation {
                    lemma_one_order(pre, len@, order as nat, granted as nat);
                }
            }
            registration.revoke(waiters);
            proof {
                assert(W::registers(w0, w1, order, now_ns, r1));
                assert(<W::Registration as WaitRegistration<W>>::prepares((w1, r1), (w2, r2)));
                assert(<W::Registration as WaitRegistration<W>>::revokes(
                    (w2, r2),
                    (*waiters, registration),
                ));
            }
            Ok(buffer)
        },
        Err(_) => {
            proof {
                assert(waits_at(pre, len@, order));
                assert(W::registers(w0, w1, order, now_ns, r1));
                assert(<W::Registration as WaitRegistration<W>>::prepares((w1, r1), (w2, r2)));
            }
            Err(registration)
        },
    }
}

fn wait_order_in<M: Backing>(arena: &BuddyArena<M>, len: usize) -> (r: usize)
    requires
        arena.valid(),
    ensures
        waits_at(arena@, len as nat, r),
{
    match arena.order_for_request(len) {
        Some(order) => order,
        None => arena.max_order(),
    }
}

/// A turn was served with a block that a plain allocation hands out.
pub open spec fn buddy_turn_served(
    pre: crate::buddy::BuddyView,
    len: nat,
    buffer: crate::buffer::BufferView,
    post: crate::buddy::BuddyView,
) -> bool {
    &&& buffer.allocation matches AllocationKind::Buddy { order, block_idx: idx }
    &&& pre.grants(len, order as nat, idx as int, post)
    &&& buffer == pre.buffer_on(order, idx, len)
    &&& buffer.inv()
}

impl<W: BuddyWaiter, M: Backing> AsyncBuddyArena<W, M> {
    /// One turn of a waiting allocation: the buffer, or the registration to
    /// wait for before the next turn.
    pub fn allocate_turn(&mut self, len: NonZeroUsize, now_ns: u64) -> (r: Result<
        Buffer,
        W::Registration,
    >)
        requires
            old(self).arena().valid(),
            old(self).waiting().ready(),
        ensures
            final(self).arena().valid(),
            final(self).freed() == old(self).freed(),
            match r {
                Ok(buffer) => {
                    &&& buddy_turn_served(old(self).arena()@, len@, buffer@, final(self).arena()@)
                    &&& buffer@.backed_by::<Self>(final(self).state())
                    &&& buddy_turn_taken_back::<W>(
                        old(self).waiting(),
                        final(self).waiting(),
                        buffer@.allocation->order,
                        now_ns,
                    )
                },
                Err(registration) => {
                    &&& old(self).arena()@.refuses(len@, final(self).arena()@)
                    &&& exists|order: usize|
                        {
                            &&& #[trigger] waits_at(old(self).arena()@, len@, order)
                            &&& buddy_turn_waits::<W>(
                                old(self).waiting(),
                                final(self).waiting(),
                                order,
                                now_ns,
                                registration,
                            )
                        }
                },
            },
    {
        buddy_turn(&mut self.inner, &mut self.waiters, len, now_ns)
    }

    /// Decides the wakes for one block that came back, if there is one.
    pub fn next_wake(&mut self) -> (r: Option<Vec<Delivery>>)
        requires
            old(self).waiting().wakeable(),
        ensures
            final(self).arena() == old(self).arena(),
            match r {
                Some(sent) => {
                    &&& old(self).freed().len() > 0
                    &&& final(self).freed() == old(self).freed().skip(1)
                    &&& W::wakes(
                        old(self).waiting(),
                        final(self).waiting(),
                        old(self).freed()[0],
                        sent@,
                    )
                },
                None => {
                    &&& old(self).freed().len() == 0
                    &&& final(self).freed() == old(self).freed()
                    &&& final(self).waiting() == old(self).waiting()
                },
            },
    {
        match self.take_freed() {
            None => None,
            Some(order) => Some(self.waiters.wake(order)),
        }
    }
}

/// `order` is where a request of `len` bytes waits.
pub open spec fn waits_at(arena: crate::buddy::BuddyView, len: nat, order: usize) -> bool {
    ||| arena.wants(len, order as nat)
    ||| arena.request_size(len) > arena.total_size && order == arena.blocks.max_order
}

/// A request asks for one order only.
pub(crate) proof fn lemma_one_order(view: crate::buddy::BuddyView, len: nat, a: nat, b: nat)
    requires
        view.inv(),
        view.wants(len, a) || (view.request_size(len) > view.total_size && a
            == view.blocks.max_order),
        view.wants(len, b),
    ensures
        a == b,
{
    reveal(vstd::arithmetic::power2::is_pow2);
    let m = view.min_block_size as int;
    let p = vstd::arithmetic::power2::pow2(a) as int;
    let q = vstd::arithmetic::power2::pow2(b) as int;
    let t = vstd::arithmetic::power2::pow2(view.blocks.max_order) as int;
    crate::bits::lemma_pow2_le(b, view.blocks.max_order);
    assert(m * q <= m * t) by (nonlinear_arith)
        requires
            q <= t,
            0 < m,
    ;
    assert(m * p == m * q ==> p == q) by (nonlinear_arith)
        requires
            0 < m,
    ;
    if view.wants(len, a) {
        crate::bits::lemma_pow2_injective(a, b);
    }
}

/// A turn that registered, allocated and took the registration back.
pub open spec fn buddy_turn_taken_back<W: BuddyWaiter>(
    pre: W,
    post: W,
    order: usize,
    now_ns: u64,
) -> bool {
    exists|w1: W, r1: W::Registration, w2: W, r2: W::Registration, r3: W::Registration|
        #![trigger W::registers(pre, w1, order, now_ns, r1), <W::Registration as WaitRegistration<W>>::prepares((w1, r1), (w2, r2)), <W::Registration as WaitRegistration<W>>::revokes((w2, r2), (post, r3))]
        {
            &&& W::registers(pre, w1, order, now_ns, r1)
            &&& <W::Registration as WaitRegistration<W>>::prepares((w1, r1), (w2, r2))
            &&& <W::Registration as WaitRegistration<W>>::revokes((w2, r2), (post, r3))
        }
}

/// A turn that registered and waits.
pub open spec fn buddy_turn_waits<W: BuddyWaiter>(
    pre: W,
    post: W,
    order: usize,
    now_ns: u64,
    registration: W::Registration,
) -> bool {
    exists|w1: W, r1: W::Registration|
        #![trigger W::registers(pre, w1, order, now_ns, r1)]
        {
            &&& W::registers(pre, w1, order, now_ns, r1)
            &&& <W::Registration as WaitRegistration<W>>::prepares(
                (w1, r1),
                (post, registration),
            )
        }
}

impl<W, M: Backing> Deref for AsyncBuddyArena<W, M> {
    type Target = BuddyArena<M>;

    fn deref(&self) -> (r: &BuddyArena<M>)
        ensures
            *r == self.arena(),
    {
        &self.inner
    }
}

impl<W, M: Backing> ArenaRef for AsyncBuddyArena<W, M> {
    type State = AsyncBuddyView<W>;

    open spec fn wf(&self) -> bool {
        self.arena().valid()
    }

    open spec fn state(&self) -> AsyncBuddyView<W> {
        AsyncBuddyView { arena: self.arena()@, waiting: self.waiting(), freed: self.freed() }
    }

    open spec fn region(state: AsyncBuddyView<W>) -> Seq<u8> {
        BuddyArena::<M>::region(state.arena)
    }

    open spec fn live(state: AsyncBuddyView<W>, allocation: AllocationKind) -> bool {
        BuddyArena::<M>::live(state.arena, allocation)
    }

    open spec fn start(state: AsyncBuddyView<W>, allocation: AllocationKind) -> int {
        BuddyArena::<M>::start(state.arena, allocation)
    }

    open spec fn extent(state: AsyncBuddyView<W>, allocation: AllocationKind) -> int {
        BuddyArena::<M>::extent(state.arena, allocation)
    }

    open spec fn written(state: AsyncBuddyView<W>, at: int, data: Seq<u8>) -> AsyncBuddyView<W> {
        AsyncBuddyView { arena: BuddyArena::<M>::written(state.arena, at, data), ..state }
    }

    open spec fn released(state: AsyncBuddyView<W>, allocation: AllocationKind) -> AsyncBuddyView<W> {
        match allocation {
            AllocationKind::Fixed { .. } => state,
            AllocationKind::Buddy { order, block_idx } => AsyncBuddyView {
                arena: state.arena.released(order as nat, block_idx as int),
                freed: state.freed.push(
                    state.arena.merged_order(order as nat, block_idx as int) as usize,
                ),
                ..state
            },
        }
    }

    open spec fn frozen(state: AsyncBuddyView<W>) -> AsyncBuddyView<W> {
        AsyncBuddyView { arena: BuddyArena::<M>::frozen(state.arena), ..state }
    }

    open spec fn spilled(state: AsyncBuddyView<W>) -> AsyncBuddyView<W> {
        AsyncBuddyView { arena: BuddyArena::<M>::spilled(state.arena), ..state }
    }

    proof fn lemma_in_region(&self, allocation: AllocationKind) {
        self.inner.lemma_in_region(allocation);
    }

    proof fn lemma_frame(
        state: AsyncBuddyView<W>,
        allocation: AllocationKind,
        other: AllocationKind,
        at: int,
        data: Seq<u8>,
    ) {
        BuddyArena::<M>::lemma_frame(state.arena, allocation, other, at, data);
    }

    fn read_at(&self, at: usize, n: usize) -> (r: &[u8]) {
        self.inner.read_at(at, n)
    }

    fn write_at(&mut self, allocation: AllocationKind, at: usize, data: &[u8]) {
        self.inner.write_at(allocation, at, data);
    }

    fn release(&mut self, allocation: AllocationKind) {
        match allocation {
            AllocationKind::Fixed { .. } => {},
            AllocationKind::Buddy { order, block_idx } => {
                let merged: usize = self.inner.release_block(order, block_idx);
                self.freed.push_back(merged);
            },
        }
    }

    fn record_frozen(&mut self) {
        self.inner.record_frozen();
    }

    fn record_spill(&mut self) {
        self.inner.record_spill();
    }
}

} // verus!
