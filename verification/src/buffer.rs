//! Writable buffers on arena memory.
use vstd::prelude::*;
use crate::allocation::{AllocationKind, ArenaRef};
use crate::error::BufferFullError;
use crate::ext::bytes_from_vec;
use crate::handle::{BufferHandle, Frozen};

verus! {

/// A writable buffer backed by arena memory.
///
/// Appends go to the buffer's slot or block. A buffer of an auto-spill arena
/// moves to the heap when a write does not fit, and returns its slot or block
/// at once. [`Buffer::freeze`] ends the writing; [`Buffer::abandon`] gives the
/// buffer up.
#[derive(Debug)]
pub struct Buffer {
    allocation: AllocationKind,
    auto_spill: bool,
    offset: usize,
    capacity: usize,
    len: usize,
    spill: Option<Vec<u8>>,
}

/// What a buffer stands for.
pub struct BufferView {
    pub allocation: AllocationKind,
    pub auto_spill: bool,
    pub offset: int,
    pub capacity: int,
    pub len: int,
    pub spill: Option<Seq<u8>>,
}

impl BufferView {
    /// An empty buffer on an allocation.
    pub open spec fn fresh(
        allocation: AllocationKind,
        auto_spill: bool,
        offset: int,
        capacity: int,
    ) -> BufferView {
        BufferView { allocation, auto_spill, offset, capacity, len: 0, spill: None }
    }

    /// The bytes written so far fit where they are.
    pub open spec fn inv(self) -> bool {
        match self.spill {
            None => 0 <= self.offset && 0 <= self.len <= self.capacity && self.offset
                + self.capacity <= usize::MAX,
            Some(bytes) => self.len == bytes.len() && self.len <= isize::MAX,
        }
    }

    /// A buffer that has not spilled holds a live allocation of this arena.
    pub open spec fn backed_by<A: ArenaRef>(self, state: A::State) -> bool {
        self.spill is None ==> {
            &&& A::live(state, self.allocation)
            &&& A::start(state, self.allocation) == self.offset
            &&& self.capacity <= A::extent(state, self.allocation)
        }
    }

    /// The bytes written so far.
    pub open spec fn contents<A: ArenaRef>(self, state: A::State) -> Seq<u8> {
        match self.spill {
            None => crate::allocation::bytes_at::<A>(state, self.offset, self.len),
            Some(bytes) => bytes,
        }
    }

    /// Bytes that can still be written in place.
    pub open spec fn remaining(self) -> int {
        match self.spill {
            None => self.capacity - self.len,
            Some(_) => isize::MAX - self.len,
        }
    }

    /// A write of `n` bytes moves the buffer to the heap.
    pub open spec fn overflows(self, n: int) -> bool {
        self.spill is None && n > self.capacity - self.len
    }

    /// A write of `n` bytes is possible.
    pub open spec fn accepts(self, n: int) -> bool {
        n <= self.remaining() || (self.overflows(n) && self.auto_spill && self.len + n
            <= isize::MAX)
    }

    /// The buffer after `data` was appended to `before`.
    pub open spec fn appended(self, before: Seq<u8>, data: Seq<u8>) -> BufferView {
        BufferView {
            len: self.len + data.len(),
            spill: if self.spill is Some || self.overflows(data.len() as int) {
                Some(before + data)
            } else {
                None
            },
            ..self
        }
    }

    /// The arena after `data` was appended.
    pub open spec fn arena_appended<A: ArenaRef>(self, state: A::State, data: Seq<u8>) -> A::State {
        if self.spill is Some {
            state
        } else if self.overflows(data.len() as int) {
            A::released(A::spilled(state), self.allocation)
        } else {
            A::written(state, self.offset + self.len, data)
        }
    }

    /// The arena after the buffer was frozen.
    pub open spec fn arena_frozen<A: ArenaRef>(self, state: A::State) -> A::State {
        if self.spill is Some {
            state
        } else {
            A::frozen(state)
        }
    }

    /// The arena after the buffer was given up.
    pub open spec fn arena_abandoned<A: ArenaRef>(self, state: A::State) -> A::State {
        if self.spill is Some {
            state
        } else {
            A::released(state, self.allocation)
        }
    }
}

impl View for Buffer {
    type V = BufferView;

    closed spec fn view(&self) -> BufferView {
        BufferView {
            allocation: self.allocation,
            auto_spill: self.auto_spill,
            offset: self.offset as int,
            capacity: self.capacity as int,
            len: self.len as int,
            spill: match self.spill {
                Some(v) => Some(v@),
                None => None,
            },
        }
    }
}

impl Buffer {
    /// An empty buffer on `capacity` bytes at `offset`.
    pub(crate) fn new(
        allocation: AllocationKind,
        auto_spill: bool,
        offset: usize,
        capacity: usize,
    ) -> (r: Self)
        ensures
            r@ == BufferView::fresh(allocation, auto_spill, offset as int, capacity as int),
    {
        Buffer { allocation, auto_spill, offset, capacity, len: 0, spill: None }
    }

    /// Capacity of this buffer in bytes.
    pub fn capacity(&self) -> (r: usize)
        ensures
            r == self@.capacity,
    {
        self.capacity
    }

    /// Bytes written so far.
    pub fn len(&self) -> (r: usize)
        ensures
            r == self@.len,
    {
        self.len
    }

    /// Whether no bytes have been written.
    pub fn is_empty(&self) -> (r: bool)
        ensures
            r == (self@.len == 0),
    {
        self.len == 0
    }

    /// Whether the bytes have moved to the heap.
    pub fn is_spilled(&self) -> (r: bool)
        ensures
            r == (self@.spill is Some),
    {
        self.spill.is_some()
    }

    /// Whether a write that does not fit moves the buffer to the heap.
    pub fn auto_spill(&self) -> (r: bool)
        ensures
            r == self@.auto_spill,
    {
        self.auto_spill
    }

    /// The slot or block that the buffer was made on.
    pub fn allocation(&self) -> (r: AllocationKind)
        ensures
            r == self@.allocation,
    {
        self.allocation
    }

    /// Offset of the buffer in the backing region.
    pub fn offset(&self) -> (r: usize)
        ensures
            r == self@.offset,
    {
        self.offset
    }

    /// Bytes that can still be written in place.
    pub fn remaining_mut(&self) -> (r: usize)
        requires
            self@.inv(),
        ensures
            r == self@.remaining(),
            self@.spill is None ==> r == self@.capacity - self@.len,
            self@.spill is Some ==> r == isize::MAX - self@.len,
    {
        match self.spill {
            None => self.capacity - self.len,
            Some(_) => isize::MAX as usize - self.len,
        }
    }

    /// Checks if `len` bytes will fit without overflow.
    pub fn will_fit(&self, len: usize) -> (r: bool)
        requires
            self@.inv(),
        ensures
            r == (len <= self@.remaining()),
            self@.spill is None ==> r == (self@.len + len <= self@.capacity),
            self@.spill is Some ==> r == (self@.len + len <= isize::MAX),
    {
        self.remaining_mut() >= len
    }

    /// Appends `data`, spilling to the heap where it does not fit and the
    /// arena allows it.
    pub fn put_slice<A: ArenaRef>(&mut self, arena: &mut A, data: &[u8])
        requires
            old(self)@.inv(),
            old(arena).wf(),
            old(self)@.backed_by::<A>(old(arena).state()),
            old(self)@.accepts(data@.len() as int),
        ensures
            final(self)@.inv(),
            final(arena).wf(),
            final(self)@.backed_by::<A>(final(arena).state()),
            final(self)@ == old(self)@.appended(
                old(self)@.contents::<A>(old(arena).state()),
                data@,
            ),
            final(arena).state() == old(self)@.arena_appended::<A>(old(arena).state(), data@),
            final(self)@.contents::<A>(final(arena).state()) == old(self)@.contents::<A>(
                old(arena).state(),
            ) + data@,
            final(self)@.len == old(self)@.len + data@.len(),
            final(self)@.capacity == old(self)@.capacity,
            final(self)@.offset == old(self)@.offset,
            final(self)@.allocation == old(self)@.allocation,
            final(self)@.auto_spill == old(self)@.auto_spill,
            if old(self)@.spill is Some {
                &&& final(self)@.spill == Some(old(self)@.spill->0 + data@)
                &&& final(arena).state() == old(arena).state()
            } else if old(self)@.len + data@.len() <= old(self)@.capacity {
                &&& final(self)@.spill is None
                &&& final(arena).state() == A::written(
                    old(arena).state(),
                    old(self)@.offset + old(self)@.len,
                    data@,
                )
            } else {
                &&& final(self)@.spill == Some(
                    A::region(old(arena).state()).subrange(
                        old(self)@.offset,
                        old(self)@.offset + old(self)@.len,
                    ) + data@,
                )
                &&& final(arena).state() == A::released(
                    A::spilled(old(arena).state()),
                    old(self)@.allocation,
                )
            },
    {
        let ghost state = arena.state();
        let ghost before = self@.contents::<A>(state);
        proof {
            if self.spill is None {
                arena.lemma_in_region(self.allocation);
            }
            assert(before.len() == self.len);
        }
        if self.spill.is_none() && data.len() > self.capacity - self.len {
            self.spill_to_heap(arena);
        }
        match &mut self.spill {
            Some(heap) => {
                heap.extend_from_slice(data);
                self.len = self.len + data.len();
                assert(self@.spill == Some(before + data@));
            },
            None => {
                proof {
                    A::lemma_frame(
                        state,
                        self.allocation,
                        self.allocation,
                        self.offset + self.len,
                        data@,
                    );
                }
                arena.write_at(self.allocation, self.offset + self.len, data);
                self.len = self.len + data.len();
                proof {
                    assert(self@.contents::<A>(arena.state()) =~= before + data@);
                }
            },
        }
    }

    /// Moves the bytes to the heap and returns the slot or block.
    fn spill_to_heap<A: ArenaRef>(&mut self, arena: &mut A)
        requires
            old(self)@.inv(),
            old(self)@.spill is None,
            old(self)@.len <= isize::MAX,
            old(arena).wf(),
            old(self)@.backed_by::<A>(old(arena).state()),
        ensures
            final(arena).wf(),
            final(self)@ == (BufferView {
                spill: Some(old(self)@.contents::<A>(old(arena).state())),
                ..old(self)@
            }),
            final(arena).state() == A::released(
                A::spilled(old(arena).state()),
                old(self)@.allocation,
            ),
    {
        let ghost state = arena.state();
        proof {
            arena.lemma_in_region(self.allocation);
            A::lemma_frame(state, self.allocation, self.allocation, 0, Seq::empty());
        }
        let mut heap: Vec<u8> = Vec::new();
        heap.extend_from_slice(arena.read_at(self.offset, self.len));
        assert(heap@ =~= self@.contents::<A>(state));
        arena.record_spill();
        arena.release(self.allocation);
        self.spill = Some(heap);
    }

    /// Appends `data`, or reports the remaining and requested sizes if it does
    /// not fit.
    pub fn try_put_slice<A: ArenaRef>(&mut self, arena: &mut A, data: &[u8]) -> (r: Result<
        (),
        BufferFullError,
    >)
        requires
            old(self)@.inv(),
            old(arena).wf(),
            old(self)@.backed_by::<A>(old(arena).state()),
        ensures
            final(self)@.inv(),
            final(arena).wf(),
            final(self)@.backed_by::<A>(final(arena).state()),
            match r {
                Ok(()) => {
                    &&& data@.len() <= old(self)@.remaining()
                    &&& final(self)@ == old(self)@.appended(
                        old(self)@.contents::<A>(old(arena).state()),
                        data@,
                    )
                    &&& final(arena).state() == old(self)@.arena_appended::<A>(
                        old(arena).state(),
                        data@,
                    )
                    &&& final(self)@.contents::<A>(final(arena).state())
                        == old(self)@.contents::<A>(old(arena).state()) + data@
                    &&& final(self)@.len == old(self)@.len + data@.len()
                    &&& (final(self)@.spill is Some) == (old(self)@.spill is Some)
                    &&& final(arena).state() == if old(self)@.spill is Some {
                        old(arena).state()
                    } else {
                        A::written(
                            old(arena).state(),
                            old(self)@.offset + old(self)@.len,
                            data@,
                        )
                    }
                },
                Err(e) => {
                    &&& data@.len() > old(self)@.remaining()
                    &&& e.remaining == old(self)@.remaining()
                    &&& e.requested == data@.len()
                    &&& *final(self) == *old(self)
                    &&& *final(arena) == *old(arena)
                },
            },
    {
        let remaining: usize = self.remaining_mut();
        if remaining < data.len() {
            return Err(BufferFullError { remaining, requested: data.len() });
        }
        self.put_slice(arena, data);
        Ok(())
    }

    /// Counts `cnt` bytes as written that were stored in place past the end of
    /// the bytes so far.
    pub fn advance_mut(&mut self, cnt: usize)
        requires
            old(self)@.inv(),
            old(self)@.spill is None,
            cnt <= old(self)@.remaining(),
        ensures
            final(self)@.inv(),
            final(self)@ == (BufferView { len: old(self)@.len + cnt, ..old(self)@ }),
    {
        self.len = self.len + cnt;
    }

    /// The bytes written so far.
    pub fn as_slice<'a, A: ArenaRef>(&'a self, arena: &'a A) -> (r: &'a [u8])
        requires
            self@.inv(),
            arena.wf(),
            self@.backed_by::<A>(arena.state()),
        ensures
            r@ == self@.contents::<A>(arena.state()),
            self@.spill is None ==> r@ == A::region(arena.state()).subrange(
                self@.offset,
                self@.offset + self@.len,
            ),
            self@.spill is Some ==> r@ == self@.spill->0,
    {
        match &self.spill {
            Some(heap) => heap.as_slice(),
            None => {
                proof {
                    arena.lemma_in_region(self.allocation);
                }
                arena.read_at(self.offset, self.len)
            },
        }
    }

    /// Freezes the buffer: its bytes can be read and no longer written.
    pub fn freeze<A: ArenaRef>(self, arena: &mut A) -> (r: Frozen)
        requires
            self@.inv(),
            old(arena).wf(),
            self@.backed_by::<A>(old(arena).state()),
        ensures
            final(arena).wf(),
            final(arena).state() == self@.arena_frozen::<A>(old(arena).state()),
            r.backed_by::<A>(final(arena).state()),
            r.contents::<A>(final(arena).state()) == self@.contents::<A>(old(arena).state()),
            self@.spill is None ==> final(arena).state() == A::frozen(old(arena).state()),
            self@.spill is Some ==> final(arena).state() == old(arena).state(),
            r matches Frozen::Heap(bytes) ==> self@.spill is Some && crate::ext::bytes_contents(
                bytes,
            ) == self@.spill->0,
            match r {
                Frozen::Arena(handle) => self@.spill is None && handle@
                    == (crate::handle::HandleView {
                    allocation: self@.allocation,
                    offset: self@.offset,
                    len: self@.len,
                }),
                Frozen::Heap(_) => self@.spill is Some,
            },
    {
        match self.spill {
            Some(heap) => Frozen::Heap(bytes_from_vec(heap)),
            None => {
                proof {
                    A::lemma_frame(
                        arena.state(),
                        self.allocation,
                        self.allocation,
                        0,
                        Seq::empty(),
                    );
                }
                arena.record_frozen();
                Frozen::Arena(BufferHandle::new(self.allocation, self.offset, self.len))
            },
        }
    }

    /// Gives the buffer up without freezing; the slot or block goes back.
    pub fn abandon<A: ArenaRef>(self, arena: &mut A)
        requires
            old(arena).wf(),
            self@.backed_by::<A>(old(arena).state()),
        ensures
            final(arena).wf(),
            final(arena).state() == self@.arena_abandoned::<A>(old(arena).state()),
            self@.spill is None ==> final(arena).state() == A::released(
                old(arena).state(),
                self@.allocation,
            ),
            self@.spill is Some ==> final(arena).state() == old(arena).state(),
    {
        if self.spill.is_none() {
            arena.release(self.allocation);
        }
    }
}

/// A buffer takes a write that fits where its bytes are, or one that moves it
/// to the heap where the arena allows that, and no other.
pub proof fn law_buffers_accept_what_fits(buffer: BufferView, n: int)
    requires
        buffer.inv(),
        0 <= n,
    ensures
        buffer.spill is Some ==> (buffer.accepts(n) <==> buffer.len + n <= isize::MAX),
        buffer.spill is None && !buffer.auto_spill ==> (buffer.accepts(n) <==> buffer.len + n
            <= buffer.capacity),
        buffer.spill is None && buffer.auto_spill ==> (buffer.accepts(n) <==> buffer.len + n
            <= buffer.capacity || buffer.len + n <= isize::MAX),
{
}

/// A buffer starts empty, in place, with the whole capacity to write.
pub proof fn law_new_buffer_is_empty(
    allocation: AllocationKind,
    auto_spill: bool,
    offset: int,
    capacity: int,
)
    ensures
        ({
            let b = BufferView::fresh(allocation, auto_spill, offset, capacity);
            &&& b.len == 0
            &&& b.spill is None
            &&& b.capacity == capacity
            &&& b.offset == offset
            &&& b.allocation == allocation
            &&& b.auto_spill == auto_spill
            &&& b.remaining() == capacity
        }),
{
}

} // verus!
