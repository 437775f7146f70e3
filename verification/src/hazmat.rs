//! Low-level access to arena memory: regions that are written at any offset
//! and frozen by range.
use vstd::prelude::*;
use vstd::arithmetic::power2::*;
use std::ops::Deref;
use std::ops::Range;
use vstd::string::*;
use crate::allocation::{AllocationKind, ArenaRef};
use crate::arena::FixedArena;
use crate::buddy::BuddyArena;
use crate::buffer::Buffer;
use crate::error::{AllocError, push_decimal};
use crate::handle::BufferHandle;
use crate::memory::Backing;
use crate::nonzero::NonZeroUsize;

verus! {

/// Error returned when a freeze range is invalid.
#[derive(Debug, Clone, Copy, PartialEq, Eq)]
pub struct RawFreezeError {
    range_start: usize,
    range_end: usize,
    capacity: usize,
}

impl RawFreezeError {
    /// Start of the refused range.
    pub closed spec fn start(self) -> usize {
        self.range_start
    }

    /// End of the refused range.
    pub closed spec fn end(self) -> usize {
        self.range_end
    }

    /// Capacity of the region.
    pub closed spec fn limit(self) -> usize {
        self.capacity
    }

    /// The text of the error.
    pub open spec fn text(self) -> Seq<char> {
        let start = crate::error::decimal(self.start() as nat);
        let end = crate::error::decimal(self.end() as nat);
        if self.start() > self.end() {
            "invalid freeze range: "@ + start + ".."@ + end + " (start > end)"@
        } else {
            "freeze range "@ + start + ".."@ + end + " exceeds capacity "@ + crate::error::decimal(
                self.limit() as nat,
            )
        }
    }

    /// An error for the range `start..end` of a region of `capacity` bytes.
    pub(crate) fn new(range_start: usize, range_end: usize, capacity: usize) -> (r: Self)
        ensures
            r.start() == range_start,
            r.end() == range_end,
            r.limit() == capacity,
    {
        RawFreezeError { range_start, range_end, capacity }
    }

    /// Range passed to `freeze`.
    pub fn range(&self) -> (r: Range<usize>)
        ensures
            r.start == self.start(),
            r.end == self.end(),
    {
        self.range_start..self.range_end
    }

    /// Visible capacity of the raw region.
    pub fn capacity(&self) -> (r: usize)
        ensures
            r == self.limit(),
    {
        self.capacity
    }

    /// The error as a message for people.
    pub fn to_string(&self) -> (r: String)
        ensures
            r@ == self.text(),
            self.start() > self.end() ==> r@ == "invalid freeze range: "@ + crate::error::decimal(
                self.start() as nat,
            ) + ".."@ + crate::error::decimal(self.end() as nat) + " (start > end)"@,
            self.start() <= self.end() ==> r@ == "freeze range "@ + crate::error::decimal(
                self.start() as nat,
            ) + ".."@ + crate::error::decimal(self.end() as nat) + " exceeds capacity "@
                + crate::error::decimal(self.limit() as nat),
    {
        if self.range_start > self.range_end {
            let mut text = String::from_str("invalid freeze range: ");
            push_decimal(&mut text, self.range_start);
            text.append("..");
            push_decimal(&mut text, self.range_end);
            text.append(" (start > end)");
            text
        } else {
            let mut text = String::from_str("freeze range ");
            push_decimal(&mut text, self.range_start);
            text.append("..");
            push_decimal(&mut text, self.range_end);
            text.append(" exceeds capacity ");
            push_decimal(&mut text, self.capacity);
            text
        }
    }
}

/// A slot or block that is written at any offset and frozen by range.
#[derive(Debug)]
pub struct RawRegion {
    allocation: AllocationKind,
    offset: usize,
    capacity: usize,
}

/// What a raw region stands for.
pub struct RegionView {
    pub allocation: AllocationKind,
    pub offset: int,
    pub capacity: int,
}

impl RegionView {
    /// The region's allocation is live in the arena and holds the capacity.
    pub open spec fn backed_by<A: ArenaRef>(self, state: A::State) -> bool {
        &&& A::live(state, self.allocation)
        &&& A::start(state, self.allocation) == self.offset
        &&& 0 <= self.capacity <= A::extent(state, self.allocation)
    }

    /// The range can be frozen.
    pub open spec fn allows(self, start: int, end: int) -> bool {
        start <= end <= self.capacity
    }
}

impl View for RawRegion {
    type V = RegionView;

    closed spec fn view(&self) -> RegionView {
        RegionView {
            allocation: self.allocation,
            offset: self.offset as int,
            capacity: self.capacity as int,
        }
    }
}

impl RawRegion {
    /// The region under a buffer that has not spilled.
    pub fn from_buffer(buffer: Buffer) -> (r: Self)
        requires
            buffer@.spill is None,
        ensures
            r@ == (RegionView {
                allocation: buffer@.allocation,
                offset: buffer@.offset,
                capacity: buffer@.capacity,
            }),
    {
        RawRegion {
            allocation: buffer.allocation(),
            offset: buffer.offset(),
            capacity: buffer.capacity(),
        }
    }

    /// Visible capacity in bytes.
    pub fn capacity(&self) -> (r: usize)
        ensures
            r == self@.capacity,
    {
        self.capacity
    }

    /// Offset of the region in the backing memory.
    pub fn offset(&self) -> (r: usize)
        ensures
            r == self@.offset,
    {
        self.offset
    }

    /// Writes `data` at `at` bytes into the region.
    pub fn write<A: ArenaRef>(&self, arena: &mut A, at: usize, data: &[u8])
        requires
            old(arena).wf(),
            self@.backed_by::<A>(old(arena).state()),
            at + data@.len() <= self@.capacity,
        ensures
            final(arena).wf(),
            final(arena).state() == A::written(old(arena).state(), self@.offset + at, data@),
            self@.backed_by::<A>(final(arena).state()),
    {
        proof {
            arena.lemma_in_region(self.allocation);
            A::lemma_frame(
                arena.state(),
                self.allocation,
                self.allocation,
                self.offset + at,
                data@,
            );
        }
        arena.write_at(self.allocation, self.offset + at, data);
    }

    /// Freezes the bytes of `range`. A range that is not within the capacity
    /// gives the region up and is reported.
    pub fn freeze<A: ArenaRef>(self, arena: &mut A, range: Range<usize>) -> (r: Result<
        BufferHandle,
        RawFreezeError,
    >)
        requires
            old(arena).wf(),
            self@.backed_by::<A>(old(arena).state()),
        ensures
            final(arena).wf(),
            match r {
                Ok(handle) => {
                    &&& self@.allows(range.start as int, range.end as int)
                    &&& range.start <= range.end <= self@.capacity
                    &&& final(arena).state() == A::frozen(old(arena).state())
                    &&& handle@ == (crate::handle::HandleView {
                        allocation: self@.allocation,
                        offset: self@.offset + range.start,
                        len: range.end - range.start,
                    })
                    &&& handle@.backed_by::<A>(final(arena).state())
                    &&& handle@.contents::<A>(final(arena).state())
                        == crate::allocation::bytes_at::<A>(
                        old(arena).state(),
                        self@.offset + range.start,
                        range.end - range.start,
                    )
                },
                Err(e) => {
                    &&& !self@.allows(range.start as int, range.end as int)
                    &&& range.start > range.end || range.end > self@.capacity
                    &&& final(arena).state() == A::released(
                        old(arena).state(),
                        self@.allocation,
                    )
                    &&& e.start() == range.start
                    &&& e.end() == range.end
                    &&& e.limit() == self@.capacity
                },
            },
    {
        if range.start > range.end || range.end > self.capacity {
            arena.release(self.allocation);
            return Err(RawFreezeError::new(range.start, range.end, self.capacity));
        }
        proof {
            arena.lemma_in_region(self.allocation);
            A::lemma_frame(arena.state(), self.allocation, self.allocation, 0, Seq::empty());
        }
        arena.record_frozen();
        Ok(
            BufferHandle::new(
                self.allocation,
                self.offset + range.start,
                range.end - range.start,
            ),
        )
    }

    /// Gives the region up without freezing.
    pub fn release<A: ArenaRef>(self, arena: &mut A)
        requires
            old(arena).wf(),
            self@.backed_by::<A>(old(arena).state()),
        ensures
            final(arena).wf(),
            final(arena).state() == A::released(old(arena).state(), self@.allocation),
    {
        arena.release(self.allocation);
    }
}

/// Raw-access wrapper around [`FixedArena`].
///
/// Derefs to [`FixedArena`] and adds raw allocation.
#[derive(Debug)]
pub struct RawFixedArena<M: Backing = Vec<u8>>(FixedArena<M>);

impl<M: Backing> RawFixedArena<M> {
    /// The arena inside.
    pub closed spec fn arena(&self) -> FixedArena<M> {
        self.0
    }

    /// Wraps an arena.
    pub fn new(arena: FixedArena<M>) -> (r: Self)
        ensures
            r.arena() == arena,
    {
        RawFixedArena(arena)
    }

    /// Unwraps the arena.
    pub fn into_inner(self) -> (r: FixedArena<M>)
        ensures
            r == self.arena(),
    {
        self.0
    }

    /// The arena, for writing, freezing and releasing.
    pub fn arena_mut(&mut self) -> (r: &mut FixedArena<M>)
        ensures
            *r == old(self).arena(),
            final(self).arena() == *final(r),
    {
        &mut self.0
    }

    /// Allocates a buffer.
    pub fn allocate(&mut self) -> (r: Result<Buffer, AllocError>)
        requires
            old(self).arena().valid(),
        ensures
            final(self).arena().valid(),
            match r {
                Ok(buffer) => {
                    &&& buffer@.allocation matches AllocationKind::Fixed { slot_idx: slot }
                    &&& old(self).arena()@.slots.picks(slot as int)
                    &&& buffer@ == old(self).arena()@.buffer_on(slot)
                    &&& buffer@.capacity == old(self).arena()@.slot_capacity
                    &&& buffer@.offset == slot * old(self).arena()@.slot_capacity
                    &&& buffer@.len == 0
                    &&& buffer@.spill is None
                    &&& buffer@.auto_spill == old(self).arena()@.auto_spill
                    &&& slot < old(self).arena()@.slot_count
                    &&& old(self).arena()@.slots.free[slot as int]
                    &&& final(self).arena()@ == old(self).arena()@.allocated(slot as int)
                    &&& buffer@.inv()
                    &&& buffer@.backed_by::<FixedArena<M>>(final(self).arena().state())
                },
                Err(e) => {
                    &&& e == AllocError::ArenaFull
                    &&& !old(self).arena()@.slots.any_free()
                    &&& final(self).arena()@ == old(self).arena()@.refused()
                },
            },
    {
        self.0.allocate()
    }

    /// Allocates a raw region of the full slot capacity.
    pub fn raw_alloc(&mut self) -> (r: Result<RawRegion, AllocError>)
        requires
            old(self).arena().valid(),
        ensures
            final(self).arena().valid(),
            match r {
                Ok(region) => {
                    &&& region@.allocation matches AllocationKind::Fixed { slot_idx: slot }
                    &&& old(self).arena()@.slots.picks(slot as int)
                    &&& region@.offset == old(self).arena()@.slot_start(slot as int)
                    &&& region@.offset == slot * old(self).arena()@.slot_capacity
                    &&& region@.capacity == old(self).arena()@.slot_capacity
                    &&& final(self).arena()@ == old(self).arena()@.allocated(slot as int)
                    &&& region@.backed_by::<FixedArena<M>>(final(self).arena().state())
                },
                Err(e) => {
                    &&& e == AllocError::ArenaFull
                    &&& !old(self).arena()@.slots.any_free()
                    &&& final(self).arena()@ == old(self).arena()@.refused()
                },
            },
    {
        match self.0.allocate() {
            Ok(buffer) => Ok(RawRegion::from_buffer(buffer)),
            Err(e) => Err(e),
        }
    }
}

impl<M: Backing> Deref for RawFixedArena<M> {
    type Target = FixedArena<M>;

    fn deref(&self) -> (r: &FixedArena<M>)
        ensures
            *r == self.arena(),
    {
        &self.0
    }
}

/// Raw-access wrapper around [`BuddyArena`].
///
/// Derefs to [`BuddyArena`] and adds raw allocation.
#[derive(Debug)]
pub struct RawBuddyArena<M: Backing = Vec<u8>>(BuddyArena<M>);

impl<M: Backing> RawBuddyArena<M> {
    /// The arena inside.
    pub closed spec fn arena(&self) -> BuddyArena<M> {
        self.0
    }

    /// Wraps an arena.
    pub fn new(arena: BuddyArena<M>) -> (r: Self)
        ensures
            r.arena() == arena,
    {
        RawBuddyArena(arena)
    }

    /// Unwraps the arena.
    pub fn into_inner(self) -> (r: BuddyArena<M>)
        ensures
            r == self.arena(),
    {
        self.0
    }

    /// The arena, for writing, freezing and releasing.
    pub fn arena_mut(&mut self) -> (r: &mut BuddyArena<M>)
        ensures
            *r == old(self).arena(),
            final(self).arena() == *final(r),
    {
        &mut self.0
    }

    /// Allocates a buffer.
    pub fn allocate(&mut self, len: NonZeroUsize) -> (r: Result<Buffer, AllocError>)
        requires
            old(self).arena().valid(),
        ensures
            final(self).arena().valid(),
            match r {
                Ok(buffer) => {
                    &&& buffer@.allocation matches AllocationKind::Buddy { order, block_idx: idx }
                    &&& old(self).arena()@.grants(
                        len@,
                        order as nat,
                        idx as int,
                        final(self).arena()@,
                    )
                    &&& buffer@ == old(self).arena()@.buffer_on(order, idx, len@)
                    &&& len@ <= buffer@.capacity
                    &&& old(self).arena()@.cap_capacity ==> buffer@.capacity == len@
                    &&& !old(self).arena()@.cap_capacity ==> buffer@.capacity == old(self).arena()@.min_block_size * pow2(
                        order as nat,
                    )
                    &&& buffer@.offset == idx * (old(self).arena()@.min_block_size * pow2(order as nat))
                    &&& buffer@.len == 0
                    &&& buffer@.spill is None
                    &&& buffer@.auto_spill == old(self).arena()@.auto_spill
                    &&& buffer@.inv()
                    &&& buffer@.backed_by::<BuddyArena<M>>(final(self).arena().state())
                },
                Err(e) => {
                    &&& e == AllocError::ArenaFull
                    &&& old(self).arena()@.refuses(len@, final(self).arena()@)
                },
            },
    {
        self.0.allocate(len)
    }

    /// Allocates a raw region: the whole block, or `len` bytes where the
    /// geometry caps the capacity.
    pub fn raw_alloc(&mut self, len: NonZeroUsize) -> (r: Result<RawRegion, AllocError>)
        requires
            old(self).arena().valid(),
        ensures
            final(self).arena().valid(),
            match r {
                Ok(region) => {
                    &&& region@.allocation matches AllocationKind::Buddy { order, block_idx: idx }
                    &&& old(self).arena()@.grants(
                        len@,
                        order as nat,
                        idx as int,
                        final(self).arena()@,
                    )
                    &&& region@.offset == old(self).arena()@.buffer_on(order, idx, len@).offset
                    &&& region@.capacity == old(self).arena()@.buffer_on(order, idx, len@).capacity
                    &&& len@ <= region@.capacity
                    &&& old(self).arena()@.cap_capacity ==> region@.capacity == len@
                    &&& !old(self).arena()@.cap_capacity ==> region@.capacity
                        == old(self).arena()@.min_block_size * pow2(order as nat)
                    &&& region@.offset == idx * (old(self).arena()@.min_block_size * pow2(
                        order as nat,
                    ))
                    &&& region@.backed_by::<BuddyArena<M>>(final(self).arena().state())
                },
                Err(e) => {
                    &&& e == AllocError::ArenaFull
                    &&& old(self).arena()@.refuses(len@, final(self).arena()@)
                },
            },
    {
        match self.0.allocate(len) {
            Ok(buffer) => Ok(RawRegion::from_buffer(buffer)),
            Err(e) => Err(e),
        }
    }
}

impl<M: Backing> Deref for RawBuddyArena<M> {
    type Target = BuddyArena<M>;

    fn deref(&self) -> (r: &BuddyArena<M>)
        ensures
            *r == self.arena(),
    {
        &self.0
    }
}

} // verus!
