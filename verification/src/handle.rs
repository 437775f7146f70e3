//! Frozen bytes and their way back to the arena.
use vstd::prelude::*;
use bytes::{Bytes, BytesMut};
use crate::allocation::{AllocationKind, ArenaRef};
use crate::ext::{bytes_as_slice, bytes_mut_from_slice, BytesExt};

verus! {

/// Owner of frozen arena memory. The slot or block goes back to the arena
/// through [`BufferHandle::release`].
#[derive(Debug)]
pub struct BufferHandle {
    allocation: AllocationKind,
    offset: usize,
    len: usize,
}

/// What a handle stands for: an allocation and the range of frozen bytes.
pub struct HandleView {
    pub allocation: AllocationKind,
    pub offset: int,
    pub len: int,
}

impl HandleView {
    /// The handle's allocation is live in the arena and holds the range.
    pub open spec fn backed_by<A: ArenaRef>(self, state: A::State) -> bool {
        &&& A::live(state, self.allocation)
        &&& 0 <= self.len
        &&& A::start(state, self.allocation) <= self.offset
        &&& self.offset + self.len <= A::start(state, self.allocation) + A::extent(
            state,
            self.allocation,
        )
    }

    /// The frozen bytes.
    pub open spec fn contents<A: ArenaRef>(self, state: A::State) -> Seq<u8> {
        crate::allocation::bytes_at::<A>(state, self.offset, self.len)
    }
}

impl View for BufferHandle {
    type V = HandleView;

    closed spec fn view(&self) -> HandleView {
        HandleView {
            allocation: self.allocation,
            offset: self.offset as int,
            len: self.len as int,
        }
    }
}

impl BufferHandle {
    /// A handle on `len` bytes at `offset` of the allocation.
    pub fn new(allocation: AllocationKind, offset: usize, len: usize) -> (r: Self)
        ensures
            r@ == (HandleView { allocation, offset: offset as int, len: len as int }),
    {
        BufferHandle { allocation, offset, len }
    }

    /// Number of frozen bytes.
    pub fn len(&self) -> (r: usize)
        ensures
            r == self@.len,
    {
        self.len
    }

    /// Whether no bytes were frozen.
    pub fn is_empty(&self) -> (r: bool)
        ensures
            r == (self@.len == 0),
    {
        self.len == 0
    }

    /// Offset of the frozen bytes in the backing region.
    pub fn offset(&self) -> (r: usize)
        ensures
            r == self@.offset,
    {
        self.offset
    }

    /// The frozen bytes, read in place.
    pub fn as_slice<'a, A: ArenaRef>(&self, arena: &'a A) -> (r: &'a [u8])
        requires
            arena.wf(),
            self@.backed_by::<A>(arena.state()),
        ensures
            r@ == self@.contents::<A>(arena.state()),
            r@ == A::region(arena.state()).subrange(self@.offset, self@.offset + self@.len),
    {
        proof {
            arena.lemma_in_region(self.allocation);
        }
        arena.read_at(self.offset, self.len)
    }

    /// Returns the slot or block to the arena.
    pub fn release<A: ArenaRef>(self, arena: &mut A)
        requires
            old(arena).wf(),
            self@.backed_by::<A>(old(arena).state()),
        ensures
            final(arena).wf(),
            final(arena).state() == A::released(old(arena).state(), self@.allocation),
    {
        arena.release(self.allocation);
    }
}

/// The outcome of a freeze: bytes that stay in the arena, or bytes on the heap
/// where the buffer had spilled.
#[derive(Debug)]
pub enum Frozen {
    /// The bytes are read from the arena.
    Arena(BufferHandle),
    /// The bytes are on the heap.
    Heap(Bytes),
}

impl Frozen {
    /// An arena-backed value belongs to this arena.
    pub open spec fn backed_by<A: ArenaRef>(self, state: A::State) -> bool {
        match self {
            Frozen::Arena(handle) => handle@.backed_by::<A>(state),
            Frozen::Heap(_) => true,
        }
    }

    /// The frozen bytes.
    pub open spec fn contents<A: ArenaRef>(self, state: A::State) -> Seq<u8> {
        match self {
            Frozen::Arena(handle) => handle@.contents::<A>(state),
            Frozen::Heap(bytes) => crate::ext::bytes_contents(bytes),
        }
    }

    /// The arena after the value is given up.
    pub open spec fn given_up<A: ArenaRef>(self, state: A::State) -> A::State {
        match self {
            Frozen::Arena(handle) => A::released(state, handle@.allocation),
            Frozen::Heap(_) => state,
        }
    }

    /// The frozen bytes.
    pub fn as_slice<'a, A: ArenaRef>(&'a self, arena: &'a A) -> (r: &'a [u8])
        requires
            arena.wf(),
            self.backed_by::<A>(arena.state()),
        ensures
            r@ == self.contents::<A>(arena.state()),
            self matches Frozen::Arena(handle) ==> r@ == A::region(arena.state()).subrange(
                handle@.offset,
                handle@.offset + handle@.len,
            ),
            self matches Frozen::Heap(bytes) ==> r@ == crate::ext::bytes_contents(*bytes),
    {
        match self {
            Frozen::Arena(handle) => handle.as_slice(arena),
            Frozen::Heap(bytes) => bytes_as_slice(bytes),
        }
    }

    /// Gives the value up; an arena-backed one returns its slot or block.
    pub fn release<A: ArenaRef>(self, arena: &mut A)
        requires
            old(arena).wf(),
            self.backed_by::<A>(old(arena).state()),
        ensures
            final(arena).wf(),
            final(arena).state() == self.given_up::<A>(old(arena).state()),
            self matches Frozen::Arena(handle) ==> final(arena).state() == A::released(
                old(arena).state(),
                handle@.allocation,
            ),
            self is Heap ==> final(arena).state() == old(arena).state(),
    {
        match self {
            Frozen::Arena(handle) => handle.release(arena),
            Frozen::Heap(_) => {},
        }
    }

    /// Copies the contents to a new heap-backed `BytesMut` and gives the value
    /// up.
    pub fn into_owned<A: ArenaRef>(self, arena: &mut A) -> (r: BytesMut)
        requires
            old(arena).wf(),
            self.backed_by::<A>(old(arena).state()),
        ensures
            final(arena).wf(),
            final(arena).state() == self.given_up::<A>(old(arena).state()),
            self matches Frozen::Arena(handle) ==> final(arena).state() == A::released(
                old(arena).state(),
                handle@.allocation,
            ),
            self is Heap ==> final(arena).state() == old(arena).state(),
            crate::ext::bytes_mut_contents(r) == self.contents::<A>(old(arena).state()),
            self matches Frozen::Arena(handle) ==> crate::ext::bytes_mut_contents(r) == A::region(
                old(arena).state(),
            ).subrange(handle@.offset, handle@.offset + handle@.len),
            self matches Frozen::Heap(bytes) ==> crate::ext::bytes_mut_contents(r)
                == crate::ext::bytes_contents(bytes),
    {
        match self {
            Frozen::Arena(handle) => {
                let owned: BytesMut = bytes_mut_from_slice(handle.as_slice(&*arena));
                handle.release(arena);
                owned
            },
            Frozen::Heap(bytes) => bytes.into_owned(),
        }
    }
}

} // verus!
