//! Fixed-size slot arena allocator.
use vstd::prelude::*;
use vstd::arithmetic::power2::*;
use vstd::arithmetic::mul::*;
use vstd::arithmetic::div_mod::*;
use crate::allocation::{AllocationKind, ArenaRef};
use crate::bitmap::Bitmap;
use crate::buffer::Buffer;
use crate::config::InitPolicy;
use crate::error::AllocError;
use crate::memory::Backing;
use crate::metrics::{FixedArenaMetrics, MetricsState};

verus! {

/// What a fixed arena stands for.
#[verifier::ext_equal]
pub struct FixedView {
    pub memory: Seq<u8>,
    pub slot_count: nat,
    pub slot_capacity: nat,
    pub slots: crate::bitmap::BitmapView,
    pub zeroed: Option<Seq<bool>>,
    pub metrics: MetricsState,
    pub auto_spill: bool,
    pub init_policy: InitPolicy,
}

impl FixedView {
    /// A new arena on `memory`: every slot free, every counter 0.
    pub open spec fn fresh(
        memory: Seq<u8>,
        slot_count: nat,
        slot_capacity: nat,
        auto_spill: bool,
        init_policy: InitPolicy,
    ) -> FixedView {
        FixedView {
            memory,
            slot_count,
            slot_capacity,
            slots: crate::bitmap::BitmapView {
                free: Seq::new(slot_count, |i: int| true),
                cursor: 0,
            },
            zeroed: if init_policy == InitPolicy::Zero {
                Some(Seq::new(slot_count, |i: int| false))
            } else {
                None
            },
            metrics: MetricsState::zero((slot_count * slot_capacity) as usize),
            auto_spill,
            init_policy,
        }
    }

    /// Offset of a slot.
    pub open spec fn slot_start(self, slot: int) -> int {
        slot * self.slot_capacity
    }

    /// The slot exists and is handed out.
    pub open spec fn taken(self, slot: int) -> bool {
        0 <= slot < self.slot_count && !self.slots.free[slot]
    }

    /// Number of slots that are handed out.
    pub open spec fn taken_count(self) -> int {
        self.slot_count - crate::bits::count_true(self.slots.free)
    }

    /// No slot is handed out.
    pub open spec fn idle(self) -> bool {
        forall|slot: int| 0 <= slot < self.slot_count ==> #[trigger] self.slots.free[slot]
    }

    /// A returned slot that is marked scrubbed holds zeros only.
    pub open spec fn scrubbed(self) -> bool {
        self.zeroed matches Some(zeroed) ==> forall|slot: int|
            0 <= slot < self.slot_count && self.slots.free[slot] && #[trigger] zeroed[slot]
                ==> crate::memory::all_zero(
                self.memory,
                self.slot_start(slot),
                self.slot_start(slot + 1),
            )
    }

    /// What every operation keeps: the slots lie in the region, the live bytes
    /// are those of the slots handed out, and scrubbed slots hold zeros.
    pub open spec fn inv(self) -> bool {
        &&& 1 <= self.slot_count
        &&& 1 <= self.slot_capacity
        &&& self.slots.free.len() == self.slot_count
        &&& self.slot_count * self.slot_capacity <= self.memory.len() <= usize::MAX
        &&& self.metrics.bytes_reserved == self.slot_count * self.slot_capacity
        &&& self.metrics.bytes_live == self.slot_capacity * self.taken_count()
        &&& (self.zeroed is Some) == (self.init_policy == InitPolicy::Zero)
        &&& self.zeroed matches Some(zeroed) ==> zeroed.len() == self.slot_count
        &&& self.scrubbed()
    }

    /// The bytes with the slot zeroed, if the policy asks for it.
    pub open spec fn scrub(self, slot: int) -> Seq<u8> {
        if self.init_policy == InitPolicy::Zero {
            crate::memory::zero_range(
                self.memory,
                self.slot_start(slot),
                self.slot_start(slot + 1),
            )
        } else {
            self.memory
        }
    }

    /// The arena after `slot` was handed out.
    pub open spec fn allocated(self, slot: int) -> FixedView {
        FixedView {
            memory: self.scrub(slot),
            slots: self.slots.scanned().with(slot, false),
            metrics: self.metrics.allocated(self.slot_capacity as usize),
            ..self
        }
    }

    /// The arena after an allocation was refused.
    pub open spec fn refused(self) -> FixedView {
        FixedView { slots: self.slots.scanned(), metrics: self.metrics.refused(), ..self }
    }

    /// The arena after `slot` came back.
    pub open spec fn released(self, slot: int) -> FixedView {
        FixedView {
            memory: self.scrub(slot),
            slots: self.slots.with(slot, true),
            zeroed: match self.zeroed {
                Some(zeroed) => Some(zeroed.update(slot, true)),
                None => None,
            },
            metrics: self.metrics.freed(self.slot_capacity as usize),
            ..self
        }
    }

    /// The arena with other bytes.
    pub open spec fn with_memory(self, memory: Seq<u8>) -> FixedView {
        FixedView { memory, ..self }
    }

    /// The empty buffer on `slot`.
    pub open spec fn buffer_on(self, slot: usize) -> crate::buffer::BufferView {
        crate::buffer::BufferView::fresh(
            AllocationKind::Fixed { slot_idx: slot },
            self.auto_spill,
            self.slot_start(slot as int),
            self.slot_capacity as int,
        )
    }
}

/// The slots of a region lie one after the other inside it.
pub proof fn lemma_slot_bounds(view: FixedView, slot: int)
    requires
        view.inv(),
        0 <= slot < view.slot_count,
    ensures
        0 <= view.slot_start(slot),
        view.slot_start(slot + 1) == view.slot_start(slot) + view.slot_capacity,
        view.slot_start(slot + 1) <= view.slot_count * view.slot_capacity,
{
    let c = view.slot_capacity as int;
    let n = view.slot_count as int;
    assert(0 <= slot * c && (slot + 1) * c == slot * c + c && (slot + 1) * c <= n * c)
        by (nonlinear_arith)
        requires
            0 <= slot < n,
            1 <= c,
    ;
}

/// Two slots share no byte.
pub proof fn lemma_slots_apart(view: FixedView, a: int, b: int)
    requires
        view.inv(),
        0 <= a < view.slot_count,
        0 <= b < view.slot_count,
        a != b,
    ensures
        view.slot_start(a + 1) <= view.slot_start(b) || view.slot_start(b + 1) <= view.slot_start(
            a,
        ),
{
    let c = view.slot_capacity as int;
    if a < b {
        lemma_mul_inequality(a + 1, b, c);
    } else {
        lemma_mul_inequality(b + 1, a, c);
    }
}

/// Handing out the slot that the scan picks keeps the invariant.
pub proof fn lemma_allocated(view: FixedView, slot: int)
    requires
        view.inv(),
        view.slots.picks(slot),
    ensures
        view.allocated(slot).inv(),
{
    let after = view.allocated(slot);
    crate::bits::lemma_count_update(view.slots.free, slot, false);
    crate::bits::lemma_count_bounds(view.slots.free);
    lemma_live_bytes(view, after.taken_count());
    lemma_mul_is_distributive_add(view.slot_capacity as int, view.taken_count(), 1);
    lemma_slot_bounds(view, slot);
    if let Some(zeroed) = view.zeroed {
        assert forall|other: int|
            0 <= other < view.slot_count && after.slots.free[other] && #[trigger] zeroed[other] implies crate::memory::all_zero(
            after.memory,
            after.slot_start(other),
            after.slot_start(other + 1),
        ) by {
            assert(view.slots.free[other]);
            lemma_slots_apart(view, slot, other);
            lemma_slot_bounds(view, other);
        }
    }
}

/// Taking a slot back keeps the invariant.
pub proof fn lemma_released(view: FixedView, slot: int)
    requires
        view.inv(),
        view.taken(slot),
    ensures
        view.released(slot).inv(),
{
    let after = view.released(slot);
    crate::bits::lemma_count_update(view.slots.free, slot, true);
    crate::bits::lemma_count_bounds(after.slots.free);
    lemma_live_bytes(view, after.taken_count());
    lemma_mul_is_distributive_sub(view.slot_capacity as int, view.taken_count(), 1);
    lemma_slot_bounds(view, slot);
    if let Some(zeroed) = after.zeroed {
        assert forall|other: int|
            0 <= other < view.slot_count && after.slots.free[other] && #[trigger] zeroed[other] implies crate::memory::all_zero(
            after.memory,
            after.slot_start(other),
            after.slot_start(other + 1),
        ) by {
            lemma_slot_bounds(view, other);
            if other != slot {
                assert(view.zeroed->0[other]);
                lemma_slots_apart(view, slot, other);
            }
        }
    }
}

proof fn lemma_live_bytes(view: FixedView, count: int)
    requires
        view.inv(),
        0 <= count <= view.slot_count,
    ensures
        0 <= view.slot_capacity * count <= usize::MAX,
{
    lemma_mul_nonnegative(view.slot_capacity as int, count);
    lemma_mul_inequality(count, view.slot_count as int, view.slot_capacity as int);
    lemma_mul_is_commutative(view.slot_capacity as int, count);
}

/// Writing inside a slot that is handed out keeps the invariant.
pub proof fn lemma_written(view: FixedView, slot: int, at: int, data: Seq<u8>)
    requires
        view.inv(),
        view.taken(slot),
        view.slot_start(slot) <= at,
        at + data.len() <= view.slot_start(slot + 1),
    ensures
        view.with_memory(crate::memory::overwrite(view.memory, at, data)).inv(),
{
    let after = view.with_memory(crate::memory::overwrite(view.memory, at, data));
    lemma_slot_bounds(view, slot);
    if let Some(zeroed) = view.zeroed {
        assert forall|other: int|
            0 <= other < view.slot_count && after.slots.free[other] && #[trigger] zeroed[other] implies crate::memory::all_zero(
            after.memory,
            after.slot_start(other),
            after.slot_start(other + 1),
        ) by {
            lemma_slots_apart(view, slot, other);
            lemma_slot_bounds(view, other);
        }
    }
}

/// Fixed-size slot arena allocator.
///
/// All slots have identical capacity. A bitmap records which are free.
#[derive(Debug)]
pub struct FixedArena<M: Backing = Vec<u8>> {
    memory: M,
    slot_capacity: usize,
    slot_count: usize,
    bitmap: Bitmap,
    auto_spill: bool,
    init_policy: InitPolicy,
    metrics: MetricsState,
    zeroed_bitmap: Option<Bitmap>,
}

impl<M: Backing> View for FixedArena<M> {
    type V = FixedView;

    closed spec fn view(&self) -> FixedView {
        FixedView {
            memory: self.memory.content(),
            slot_count: self.slot_count as nat,
            slot_capacity: self.slot_capacity as nat,
            slots: self.bitmap@,
            zeroed: match self.zeroed_bitmap {
                Some(zeroed) => Some(zeroed@.free),
                None => None,
            },
            metrics: self.metrics,
            auto_spill: self.auto_spill,
            init_policy: self.init_policy,
        }
    }
}

impl<M: Backing> FixedArena<M> {
    /// The internal invariant.
    pub closed spec fn valid(&self) -> bool {
        &&& self.bitmap.wf()
        &&& self.zeroed_bitmap matches Some(zeroed) ==> zeroed.wf()
        &&& self@.inv()
    }

    /// A valid arena keeps [`FixedView::inv`].
    pub proof fn lemma_valid(&self)
        requires
            self.valid(),
        ensures
            self@.inv(),
    {
    }

    /// A new arena of `slot_count` slots on `memory`.
    pub(crate) fn on_memory(
        memory: M,
        slot_count: usize,
        slot_capacity: usize,
        auto_spill: bool,
        init_policy: InitPolicy,
    ) -> (r: Self)
        requires
            1 <= slot_count,
            1 <= slot_capacity,
            slot_count * slot_capacity <= memory.content().len(),
        ensures
            r.valid(),
            r@ == FixedView::fresh(
                memory.content(),
                slot_count as nat,
                slot_capacity as nat,
                auto_spill,
                init_policy,
            ),
    {
        let size: usize = memory.size();
        let zeroed_bitmap: Option<Bitmap> = match init_policy {
            InitPolicy::Zero => Some(Bitmap::new_empty(slot_count)),
            InitPolicy::Uninit => None,
        };
        let r = FixedArena {
            memory,
            slot_capacity,
            slot_count,
            bitmap: Bitmap::new(slot_count),
            auto_spill,
            init_policy,
            metrics: MetricsState::new(slot_count * slot_capacity),
            zeroed_bitmap,
        };
        proof {
            crate::bits::lemma_count_bounds(r@.slots.free);
            assert(r@ =~= FixedView::fresh(
                memory.content(),
                slot_count as nat,
                slot_capacity as nat,
                auto_spill,
                init_policy,
            ));
        }
        r
    }

    /// Number of slots in this arena.
    pub fn slot_count(&self) -> (r: usize)
        ensures
            r == self@.slot_count,
    {
        self.slot_count
    }

    /// Capacity of each slot in bytes (aligned).
    pub fn slot_capacity(&self) -> (r: usize)
        ensures
            r == self@.slot_capacity,
    {
        self.slot_capacity
    }

    /// Snapshot of the allocator metrics.
    pub fn metrics(&self) -> (r: FixedArenaMetrics)
        ensures
            r == self@.metrics.fixed(),
            r.allocations_ok == self@.metrics.allocations_ok,
            r.allocations_failed == self@.metrics.allocations_failed,
            r.frees == self@.metrics.frees,
            r.frozen == self@.metrics.frozen,
            r.spills == self@.metrics.spills,
            r.bytes_reserved == self@.metrics.bytes_reserved,
            r.bytes_live == self@.metrics.bytes_live,
    {
        self.metrics.fixed_snapshot()
    }

    /// The region behind the arena.
    pub fn memory(&self) -> (r: &M)
        ensures
            r.content() == self@.memory,
    {
        &self.memory
    }

    /// Takes a slot out of the pool and prepares its bytes.
    pub(crate) fn take_slot(&mut self) -> (r: Option<usize>)
        requires
            old(self).valid(),
        ensures
            final(self).valid(),
            match r {
                Some(slot) => {
                    &&& old(self)@.slots.picks(slot as int)
                    &&& final(self)@ == old(self)@.allocated(slot as int)
                },
                None => {
                    &&& !old(self)@.slots.any_free()
                    &&& final(self)@ == old(self)@.refused()
                },
            },
    {
        let ghost pre = self@;
        match self.bitmap.try_alloc() {
            None => {
                self.metrics.record_alloc_failure();
                assert(self@ =~= pre.refused());
                None
            },
            Some(slot_idx) => {
                proof {
                    lemma_slot_bounds(pre, slot_idx as int);
                    lemma_allocated(pre, slot_idx as int);
                }
                let offset: usize = slot_idx * self.slot_capacity;
                match self.init_policy {
                    InitPolicy::Zero => {
                        let scrubbed: bool = match &self.zeroed_bitmap {
                            Some(zeroed) => zeroed.all_set_in_range(slot_idx, slot_idx + 1),
                            None => true,
                        };
                        if !scrubbed {
                            self.memory.zeroize(offset, offset + self.slot_capacity);
                        } else {
                            proof {
                                assert(pre.zeroed->0[slot_idx as int]);
                                assert(pre.slots.free[slot_idx as int]);
                                assert(pre.scrub(slot_idx as int) =~= pre.memory);
                            }
                        }
                    },
                    InitPolicy::Uninit => {},
                }
                self.metrics.record_alloc_success(self.slot_capacity);
                assert(self@ =~= pre.allocated(slot_idx as int));
                Some(slot_idx)
            },
        }
    }

    /// Allocates a buffer, or returns `ArenaFull` if all slots are in use.
    pub fn allocate(&mut self) -> (r: Result<Buffer, AllocError>)
        requires
            old(self).valid(),
        ensures
            final(self).valid(),
            match r {
                Ok(buffer) => {
                    &&& buffer@.allocation matches AllocationKind::Fixed { slot_idx: slot }
                    &&& old(self)@.slots.picks(slot as int)
                    &&& buffer@ == old(self)@.buffer_on(slot)
                    &&& buffer@.capacity == old(self)@.slot_capacity
                    &&& buffer@.offset == slot * old(self)@.slot_capacity
                    &&& buffer@.len == 0
                    &&& buffer@.spill is None
                    &&& buffer@.auto_spill == old(self)@.auto_spill
                    &&& slot < old(self)@.slot_count
                    &&& old(self)@.slots.free[slot as int]
                    &&& final(self)@ == old(self)@.allocated(slot as int)
                    &&& buffer@.inv()
                    &&& buffer@.backed_by::<Self>(final(self).state())
                },
                Err(e) => {
                    &&& e == AllocError::ArenaFull
                    &&& !old(self)@.slots.any_free()
                    &&& final(self)@ == old(self)@.refused()
                },
            },
    {
        let ghost pre = self@;
        match self.take_slot() {
            None => Err(AllocError::ArenaFull),
            Some(slot_idx) => {
                proof {
                    lemma_slot_bounds(pre, slot_idx as int);
                }
                let offset: usize = slot_idx * self.slot_capacity;
                let buffer = Buffer::new(
                    AllocationKind::Fixed { slot_idx },
                    self.auto_spill,
                    offset,
                    self.slot_capacity,
                );
                Ok(buffer)
            },
        }
    }

    /// Returns a slot to the pool.
    pub fn release_slot(&mut self, slot_idx: usize)
        requires
            old(self).valid(),
            old(self)@.taken(slot_idx as int),
        ensures
            final(self).valid(),
            final(self)@ == old(self)@.released(slot_idx as int),
    {
        let ghost pre = self@;
        proof {
            lemma_slot_bounds(pre, slot_idx as int);
            lemma_released(pre, slot_idx as int);
        }
        if self.init_policy == InitPolicy::Zero {
            let offset: usize = slot_idx * self.slot_capacity;
            self.memory.zeroize(offset, offset + self.slot_capacity);
            match &mut self.zeroed_bitmap {
                Some(zeroed) => {
                    zeroed.set_range(slot_idx, slot_idx + 1);
                },
                None => {},
            }
        }
        self.bitmap.free(slot_idx);
        self.metrics.record_free(self.slot_capacity);
        assert(self@ =~= pre.released(slot_idx as int));
    }

    /// Touches one byte of each page under the slots of an arena that nobody
    /// holds a slot of.
    pub fn fault_pages(&mut self, page_size: usize)
        requires
            old(self).valid(),
            old(self)@.idle(),
            page_size > 0,
        ensures
            final(self).valid(),
            final(self)@ == old(self)@.with_memory(
                crate::memory::prefaulted(
                    old(self)@.memory,
                    (old(self)@.slot_count * old(self)@.slot_capacity) as int,
                    page_size as int,
                ),
            ),
    {
        let ghost pre = self@;
        let total: usize = self.slot_count * self.slot_capacity;
        crate::memory::prefault_region(&mut self.memory, total, page_size);
        proof {
            if let Some(zeroed) = pre.zeroed {
                assert forall|slot: int|
                    0 <= slot < pre.slot_count && pre.slots.free[slot] && #[trigger] zeroed[slot] implies crate::memory::all_zero(
                    self@.memory,
                    self@.slot_start(slot),
                    self@.slot_start(slot + 1),
                ) by {
                    lemma_slot_bounds(pre, slot);
                }
            }
        }
    }
}

impl<M: Backing> ArenaRef for FixedArena<M> {
    type State = FixedView;

    open spec fn wf(&self) -> bool {
        self.valid()
    }

    open spec fn state(&self) -> FixedView {
        self@
    }

    open spec fn region(state: FixedView) -> Seq<u8> {
        state.memory
    }

    open spec fn live(state: FixedView, allocation: AllocationKind) -> bool {
        match allocation {
            AllocationKind::Fixed { slot_idx } => state.taken(slot_idx as int),
            AllocationKind::Buddy { .. } => false,
        }
    }

    open spec fn start(state: FixedView, allocation: AllocationKind) -> int {
        match allocation {
            AllocationKind::Fixed { slot_idx } => state.slot_start(slot_idx as int),
            AllocationKind::Buddy { .. } => 0,
        }
    }

    open spec fn extent(state: FixedView, allocation: AllocationKind) -> int {
        state.slot_capacity as int
    }

    open spec fn written(state: FixedView, at: int, data: Seq<u8>) -> FixedView {
        state.with_memory(crate::memory::overwrite(state.memory, at, data))
    }

    open spec fn released(state: FixedView, allocation: AllocationKind) -> FixedView {
        match allocation {
            AllocationKind::Fixed { slot_idx } => state.released(slot_idx as int),
            AllocationKind::Buddy { .. } => state,
        }
    }

    open spec fn frozen(state: FixedView) -> FixedView {
        FixedView { metrics: state.metrics.froze(), ..state }
    }

    open spec fn spilled(state: FixedView) -> FixedView {
        FixedView { metrics: state.metrics.spilled(), ..state }
    }

    proof fn lemma_in_region(&self, allocation: AllocationKind) {
        match allocation {
            AllocationKind::Fixed { slot_idx } => {
                lemma_slot_bounds(self@, slot_idx as int);
            },
            AllocationKind::Buddy { .. } => {},
        }
    }

    proof fn lemma_frame(
        state: FixedView,
        allocation: AllocationKind,
        other: AllocationKind,
        at: int,
        data: Seq<u8>,
    ) {
    }

    fn read_at(&self, at: usize, n: usize) -> (r: &[u8]) {
        self.memory.read(at, n)
    }

    fn write_at(&mut self, allocation: AllocationKind, at: usize, data: &[u8]) {
        proof {
            if let AllocationKind::Fixed { slot_idx } = allocation {
                lemma_slot_bounds(self@, slot_idx as int);
                lemma_written(self@, slot_idx as int, at as int, data@);
            }
        }
        self.memory.write(at, data);
    }

    fn release(&mut self, allocation: AllocationKind) {
        match allocation {
            AllocationKind::Fixed { slot_idx } => self.release_slot(slot_idx),
            AllocationKind::Buddy { .. } => {},
        }
    }

    fn record_frozen(&mut self) {
        self.metrics.record_frozen();
    }

    fn record_spill(&mut self) {
        self.metrics.record_spill();
    }
}

} // verus!
