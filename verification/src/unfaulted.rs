//! Arenas whose backing pages have not been walked yet.
use vstd::prelude::*;
use crate::arena::FixedArena;
use crate::allocation::ArenaRef;
use crate::buddy::BuddyArena;
use crate::buffer::Buffer;
use crate::error::AllocError;
use crate::hazmat::{RawBuddyArena, RawFixedArena};
use crate::memory::Backing;

verus! {

/// An arena whose backing pages have not yet been faulted.
///
/// `fault_pages` walks every page and returns the arena. `into_inner` skips
/// the walk. `allocate` unwraps the arena and allocates at once.
#[derive(Debug)]
pub struct Unfaulted<A> {
    page_size: Option<usize>,
    inner: A,
}

impl<A> Unfaulted<A> {
    #[verifier::type_invariant]
    spec fn inv(self) -> bool {
        self.page_size matches Some(n) ==> n > 0
    }

    /// The page size to walk with.
    pub closed spec fn page_size(self) -> Option<usize> {
        self.page_size
    }

    /// The arena inside.
    pub closed spec fn inner(self) -> A {
        self.inner
    }

    /// Wraps an arena.
    pub fn new(page_size: Option<usize>, inner: A) -> (r: Self)
        requires
            page_size matches Some(n) ==> n > 0,
        ensures
            r.page_size() == page_size,
            r.inner() == inner,
    {
        Unfaulted { page_size, inner }
    }

    /// Unwraps the arena without faulting.
    pub fn into_inner(self) -> (r: A)
        ensures
            r == self.inner(),
    {
        self.inner
    }
}

impl<M: Backing> Unfaulted<FixedArena<M>> {
    /// Walks every page under the slots, then returns the arena.
    pub fn fault_pages(self) -> (r: FixedArena<M>)
        requires
            self.inner().valid(),
            self.inner()@.idle(),
        ensures
            r.valid(),
            r@ == self.inner()@.with_memory(
                crate::memory::faulted(
                    self.inner()@.memory,
                    (self.inner()@.slot_count * self.inner()@.slot_capacity) as int,
                    self.page_size(),
                ),
            ),
    {
        proof {
            use_type_invariant(&self);
        }
        let page_size: Option<usize> = self.page_size;
        let mut arena: FixedArena<M> = self.inner;
        match page_size {
            Some(ps) => {
                arena.fault_pages(ps);
            },
            None => {},
        }
        arena
    }

    /// Unwraps without faulting and allocates immediately.
    pub fn allocate(self) -> (r: Result<(FixedArena<M>, Buffer), AllocError>)
        requires
            self.inner().valid(),
        ensures
            match r {
                Ok((arena, buffer)) => {
                    &&& arena.valid()
                    &&& buffer@.allocation matches crate::allocation::AllocationKind::Fixed {
                        slot_idx: slot,
                    }
                    &&& self.inner()@.slots.picks(slot as int)
                    &&& buffer@ == self.inner()@.buffer_on(slot)
                    &&& buffer@.capacity == self.inner()@.slot_capacity
                    &&& buffer@.offset == slot * self.inner()@.slot_capacity
                    &&& buffer@.len == 0
                    &&& buffer@.spill is None
                    &&& buffer@.auto_spill == self.inner()@.auto_spill
                    &&& slot < self.inner()@.slot_count
                    &&& self.inner()@.slots.free[slot as int]
                    &&& arena@ == self.inner()@.allocated(slot as int)
                    &&& buffer@.inv()
                    &&& buffer@.backed_by::<FixedArena<M>>(arena.state())
                },
                Err(e) => e == AllocError::ArenaFull && !self.inner()@.slots.any_free(),
            },
    {
        let mut arena: FixedArena<M> = self.into_inner();
        match arena.allocate() {
            Ok(buffer) => Ok((arena, buffer)),
            Err(e) => Err(e),
        }
    }
}

impl<M: Backing> Unfaulted<BuddyArena<M>> {
    /// Walks every page of the region, then returns the arena.
    pub fn fault_pages(self) -> (r: BuddyArena<M>)
        requires
            self.inner().valid(),
            self.inner()@.idle(),
        ensures
            r.valid(),
            r@ == self.inner()@.with_memory(
                crate::memory::faulted(
                    self.inner()@.memory,
                    self.inner()@.total_size as int,
                    self.page_size(),
                ),
            ),
    {
        proof {
            use_type_invariant(&self);
        }
        let page_size: Option<usize> = self.page_size;
        let mut arena: BuddyArena<M> = self.inner;
        match page_size {
            Some(ps) => {
                arena.fault_pages(ps);
            },
            None => {},
        }
        arena
    }
}

impl<M: Backing> Unfaulted<RawFixedArena<M>> {
    /// Walks every page under the slots, then returns the arena.
    pub fn fault_pages(self) -> (r: RawFixedArena<M>)
        requires
            self.inner().arena().valid(),
            self.inner().arena()@.idle(),
        ensures
            r.arena().valid(),
            r.arena()@ == self.inner().arena()@.with_memory(
                crate::memory::faulted(
                    self.inner().arena()@.memory,
                    (self.inner().arena()@.slot_count * self.inner().arena()@.slot_capacity) as int,
                    self.page_size(),
                ),
            ),
    {
        proof {
            use_type_invariant(&self);
        }
        let unfaulted = Unfaulted::<FixedArena<M>>::new(self.page_size, self.inner.into_inner());
        RawFixedArena::new(unfaulted.fault_pages())
    }
}

impl<M: Backing> Unfaulted<RawBuddyArena<M>> {
    /// Walks every page of the region, then returns the arena.
    pub fn fault_pages(self) -> (r: RawBuddyArena<M>)
        requires
            self.inner().arena().valid(),
            self.inner().arena()@.idle(),
        ensures
            r.arena().valid(),
            r.arena()@ == self.inner().arena()@.with_memory(
                crate::memory::faulted(
                    self.inner().arena()@.memory,
                    self.inner().arena()@.total_size as int,
                    self.page_size(),
                ),
            ),
    {
        proof {
            use_type_invariant(&self);
        }
        let unfaulted = Unfaulted::<BuddyArena<M>>::new(self.page_size, self.inner.into_inner());
        RawBuddyArena::new(unfaulted.fault_pages())
    }
}

} // verus!
