//! What an arena hands out, and what a buffer needs of the arena behind it.
use vstd::prelude::*;

verus! {

/// Which piece of an arena an allocation is.
#[derive(Clone, Copy, Debug, PartialEq, Eq, Structural)]
pub enum AllocationKind {
    /// A slot of a fixed arena.
    Fixed { slot_idx: usize },
    /// A block of a buddy arena.
    Buddy { order: usize, block_idx: usize },
}

/// The arena behind a buffer: it keeps the bytes, and takes the piece back.
pub trait ArenaRef: Sized {
    /// What the arena stands for.
    type State;

    /// The internal invariant.
    spec fn wf(&self) -> bool;

    /// The state of the arena.
    spec fn state(&self) -> Self::State;

    /// The bytes of the backing region.
    spec fn region(state: Self::State) -> Seq<u8>;

    /// The allocation is handed out and not yet taken back.
    spec fn live(state: Self::State, allocation: AllocationKind) -> bool;

    /// Offset of the allocation in the backing region.
    spec fn start(state: Self::State, allocation: AllocationKind) -> int;

    /// Bytes from the start of the allocation to its end.
    spec fn extent(state: Self::State, allocation: AllocationKind) -> int;

    /// The state with `data` written at `at`.
    spec fn written(state: Self::State, at: int, data: Seq<u8>) -> Self::State;

    /// The state after the allocation came back.
    spec fn released(state: Self::State, allocation: AllocationKind) -> Self::State;

    /// The state after a freeze was counted.
    spec fn frozen(state: Self::State) -> Self::State;

    /// The state after a spill was counted.
    spec fn spilled(state: Self::State) -> Self::State;

    /// A live allocation lies in the backing region.
    proof fn lemma_in_region(&self, allocation: AllocationKind)
        requires
            self.wf(),
            Self::live(self.state(), allocation),
        ensures
            0 <= Self::start(self.state(), allocation),
            0 < Self::extent(self.state(), allocation),
            Self::start(self.state(), allocation) + Self::extent(self.state(), allocation)
                <= Self::region(self.state()).len() <= usize::MAX,
    ;

    /// Writing changes the bytes and nothing else, and counting changes no
    /// byte and no allocation.
    proof fn lemma_frame(
        state: Self::State,
        allocation: AllocationKind,
        other: AllocationKind,
        at: int,
        data: Seq<u8>,
    )
        ensures
            Self::region(Self::written(state, at, data)) == crate::memory::overwrite(
                Self::region(state),
                at,
                data,
            ),
            Self::live(Self::written(state, at, data), other) == Self::live(state, other),
            Self::start(Self::written(state, at, data), other) == Self::start(state, other),
            Self::extent(Self::written(state, at, data), other) == Self::extent(state, other),
            Self::region(Self::frozen(state)) == Self::region(state),
            Self::live(Self::frozen(state), other) == Self::live(state, other),
            Self::start(Self::frozen(state), other) == Self::start(state, other),
            Self::extent(Self::frozen(state), other) == Self::extent(state, other),
            Self::region(Self::spilled(state)) == Self::region(state),
            Self::live(Self::spilled(state), other) == Self::live(state, other),
            Self::start(Self::spilled(state), other) == Self::start(state, other),
            Self::extent(Self::spilled(state), other) == Self::extent(state, other),
            Self::start(Self::released(state, allocation), other) == Self::start(state, other),
            Self::extent(Self::released(state, allocation), other) == Self::extent(state, other),
    ;

    /// Bytes `at..at + n` of the backing region.
    fn read_at(&self, at: usize, n: usize) -> (r: &[u8])
        requires
            self.wf(),
            at + n <= Self::region(self.state()).len(),
        ensures
            r@ == Self::region(self.state()).subrange(at as int, at + n),
    ;

    /// Writes into a live allocation.
    fn write_at(&mut self, allocation: AllocationKind, at: usize, data: &[u8])
        requires
            old(self).wf(),
            Self::live(old(self).state(), allocation),
            Self::start(old(self).state(), allocation) <= at,
            at + data@.len() <= Self::start(old(self).state(), allocation) + Self::extent(
                old(self).state(),
                allocation,
            ),
        ensures
            final(self).wf(),
            final(self).state() == Self::written(old(self).state(), at as int, data@),
    ;

    /// Takes a live allocation back.
    fn release(&mut self, allocation: AllocationKind)
        requires
            old(self).wf(),
            Self::live(old(self).state(), allocation),
        ensures
            final(self).wf(),
            final(self).state() == Self::released(old(self).state(), allocation),
    ;

    /// Counts a freeze.
    fn record_frozen(&mut self)
        requires
            old(self).wf(),
        ensures
            final(self).wf(),
            final(self).state() == Self::frozen(old(self).state()),
    ;

    /// Counts a spill.
    fn record_spill(&mut self)
        requires
            old(self).wf(),
        ensures
            final(self).wf(),
            final(self).state() == Self::spilled(old(self).state()),
    ;
}

/// The two allocations share no byte.
pub open spec fn apart<A: ArenaRef>(
    state: A::State,
    a: AllocationKind,
    b: AllocationKind,
) -> bool {
    ||| A::start(state, a) + A::extent(state, a) <= A::start(state, b)
    ||| A::start(state, b) + A::extent(state, b) <= A::start(state, a)
}

/// Bytes `at..at + n` of the region, as written into the allocation.
pub open spec fn bytes_at<A: ArenaRef>(state: A::State, at: int, n: int) -> Seq<u8> {
    A::region(state).subrange(at, at + n)
}

} // verus!
