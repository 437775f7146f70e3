//! Buddy-backed arena allocator.
use vstd::prelude::*;
use vstd::arithmetic::power2::*;
use vstd::arithmetic::mul::*;
use vstd::arithmetic::div_mod::*;
use vstd::bits::*;
use crate::allocation::{AllocationKind, ArenaRef};
use crate::bitmap::Bitmap;
use crate::blocks::BlockPool;
use crate::buffer::Buffer;
use crate::config::InitPolicy;
use crate::error::AllocError;
use crate::memory::Backing;
use crate::metrics::{BuddyArenaMetrics, MetricsState};
use crate::nonzero::NonZeroUsize;

verus! {

/// What a buddy arena stands for.
#[verifier::ext_equal]
pub struct BuddyView {
    pub memory: Seq<u8>,
    pub total_size: nat,
    pub min_block_size: nat,
    pub blocks: crate::blocks::BlocksView,
    pub zeroed: Option<Seq<bool>>,
    pub metrics: MetricsState,
    pub auto_spill: bool,
    pub cap_capacity: bool,
    pub init_policy: InitPolicy,
}

impl BuddyView {
    /// A new arena on `memory`: one free block, every counter 0.
    pub open spec fn fresh(
        memory: Seq<u8>,
        min_block_size: nat,
        max_order: nat,
        auto_spill: bool,
        cap_capacity: bool,
        init_policy: InitPolicy,
    ) -> BuddyView {
        BuddyView {
            memory,
            total_size: min_block_size * pow2(max_order),
            min_block_size,
            blocks: crate::blocks::BlocksView::fresh(max_order),
            zeroed: if init_policy == InitPolicy::Zero {
                Some(Seq::new(pow2(max_order), |u: int| false))
            } else {
                None
            },
            metrics: MetricsState::zero((min_block_size * pow2(max_order)) as usize),
            auto_spill,
            cap_capacity,
            init_policy,
        }
    }

    /// Size of a block in bytes.
    pub open spec fn block_size(self, order: nat) -> int {
        (self.min_block_size * pow2(order)) as int
    }

    /// Offset of a block.
    pub open spec fn block_start(self, order: nat, idx: int) -> int {
        idx * self.block_size(order)
    }

    /// The block exists and is handed out.
    pub open spec fn taken(self, order: nat, idx: int) -> bool {
        order <= self.blocks.max_order && crate::blocks::held(self.blocks.units, order, idx)
    }

    /// Number of least blocks that are handed out.
    pub open spec fn taken_units(self) -> int {
        self.blocks.units.len() - crate::bits::count_true(self.blocks.units)
    }

    /// No block is handed out.
    pub open spec fn idle(self) -> bool {
        forall|u: int| 0 <= u < self.blocks.units.len() ==> #[trigger] self.blocks.units[u]
    }

    /// The least block that byte `i` is in.
    pub open spec fn unit_of(self, i: int) -> int {
        i / self.min_block_size as int
    }

    /// A free least block that is marked scrubbed holds zeros only.
    pub open spec fn scrubbed(self) -> bool {
        self.zeroed matches Some(zeroed) ==> forall|i: int|
            0 <= i < self.total_size && self.blocks.units[self.unit_of(i)]
                && zeroed[self.unit_of(i)] ==> #[trigger] self.memory[i] == 0
    }

    /// What every operation keeps: the blocks tile the region, the live bytes
    /// are those of the blocks handed out, and scrubbed blocks hold zeros.
    pub open spec fn inv(self) -> bool {
        &&& is_pow2(self.min_block_size as int)
        &&& self.total_size == self.min_block_size * pow2(self.blocks.max_order)
        &&& self.total_size <= self.memory.len() <= usize::MAX
        &&& self.blocks.wf()
        &&& self.metrics.bytes_reserved == self.total_size
        &&& self.metrics.bytes_live == self.min_block_size * self.taken_units()
        &&& (self.zeroed is Some) == (self.init_policy == InitPolicy::Zero)
        &&& self.zeroed matches Some(zeroed) ==> zeroed.len() == self.blocks.units.len()
        &&& self.scrubbed()
    }

    /// The size that a request is rounded up to.
    pub open spec fn request_size(self, len: nat) -> nat {
        crate::bits::ceil_pow2(
            if len > self.min_block_size {
                len
            } else {
                self.min_block_size
            },
        )
    }

    /// `order` is the order that a request of `len` bytes asks for.
    pub open spec fn wants(self, len: nat, order: nat) -> bool {
        order <= self.blocks.max_order && self.block_size(order) == self.request_size(len)
    }

    /// The bytes with the block zeroed, if the policy asks for it.
    pub open spec fn scrub(self, order: nat, idx: int) -> Seq<u8> {
        if self.init_policy == InitPolicy::Zero {
            crate::memory::zero_range(
                self.memory,
                self.block_start(order, idx),
                self.block_start(order, idx) + self.block_size(order),
            )
        } else {
            self.memory
        }
    }

    /// The arena after a block was handed out that was cut from a free block
    /// of order `source`.
    pub open spec fn allocated(self, order: nat, idx: int, source: nat) -> BuddyView {
        BuddyView {
            memory: self.scrub(order, idx),
            blocks: self.blocks.scanned(source as int, (source + 1) as int).without(order, idx),
            metrics: self.metrics.split((source - order) as u64).allocated(
                self.block_size(order) as usize,
            ),
            ..self
        }
    }

    /// The arena after a request was refused that exceeds the whole region.
    pub open spec fn refused_oversize(self) -> BuddyView {
        BuddyView { metrics: self.metrics.refused(), ..self }
    }

    /// The arena after a request of order `order` found no block.
    pub open spec fn refused(self, order: nat) -> BuddyView {
        BuddyView {
            blocks: self.blocks.scanned(order as int, (self.blocks.max_order + 1) as int),
            metrics: self.metrics.refused(),
            ..self
        }
    }

    /// The block is the first part of the free block `j` of order `source`,
    /// which is the one that a scan from `order` upwards finds.
    pub open spec fn cut_from(
        self,
        order: nat,
        idx: int,
        source: nat,
        j: int,
        post: BuddyView,
    ) -> bool {
        &&& self.blocks.serves(order, source)
        &&& self.blocks.order_view(source).picks(j)
        &&& idx == j * pow2((source - order) as nat)
        &&& post == self.allocated(order, idx, source)
    }

    /// A request of `len` bytes is served with this block and leads to `post`.
    pub open spec fn grants(self, len: nat, order: nat, idx: int, post: BuddyView) -> bool {
        &&& self.wants(len, order)
        &&& exists|source: nat, j: int| #[trigger] self.cut_from(order, idx, source, j, post)
    }

    /// A request of `len` bytes is refused and leads to `post`.
    pub open spec fn refuses(self, len: nat, post: BuddyView) -> bool {
        ||| self.request_size(len) > self.total_size && post == self.refused_oversize()
        ||| exists|order: nat|
            #![trigger self.wants(len, order)]
            self.wants(len, order) && self.blocks.starved(order) && post == self.refused(order)
    }

    /// The order of the block that a released block ends up in.
    pub open spec fn merged_order(self, order: nat, idx: int) -> nat {
        crate::blocks::merge_order(self.blocks.units, self.blocks.max_order, order, idx)
    }

    /// The arena after a block came back.
    pub open spec fn released(self, order: nat, idx: int) -> BuddyView {
        BuddyView {
            memory: self.scrub(order, idx),
            blocks: self.blocks.with(order, idx),
            zeroed: match self.zeroed {
                Some(zeroed) => Some(crate::blocks::filled(zeroed, order, idx)),
                None => None,
            },
            metrics: self.metrics.freed(self.block_size(order) as usize).merged(
                (self.merged_order(order, idx) - order) as u64,
            ),
            ..self
        }
    }

    /// The arena with other bytes.
    pub open spec fn with_memory(self, memory: Seq<u8>) -> BuddyView {
        BuddyView { memory, ..self }
    }

    /// The empty buffer on a block, for a request of `len` bytes.
    pub open spec fn buffer_on(self, order: usize, idx: usize, len: nat) -> crate::buffer::BufferView {
        crate::buffer::BufferView::fresh(
            AllocationKind::Buddy { order, block_idx: idx },
            self.auto_spill,
            self.block_start(order as nat, idx as int),
            if self.cap_capacity {
                len as int
            } else {
                self.block_size(order as nat)
            },
        )
    }

    /// Bytes in the free blocks of the orders below `k`.
    pub open spec fn free_bytes_below(self, k: nat) -> int
        decreases k,
    {
        if k == 0 {
            0
        } else {
            self.free_bytes_below((k - 1) as nat) + crate::bits::count_true(
                self.blocks.order_view((k - 1) as nat).free,
            ) * self.block_size((k - 1) as nat)
        }
    }

    /// Bytes in the free blocks of all orders.
    pub open spec fn free_bytes(self) -> int {
        self.free_bytes_below(self.blocks.max_order + 1)
    }

    /// Size of the largest free block, 0 when nothing is free.
    pub open spec fn is_largest_free(self, size: int) -> bool {
        ||| size == 0 && self.blocks.starved(0)
        ||| exists|order: nat|
            {
                &&& #[trigger] self.blocks.any_free(order)
                &&& size == self.block_size(order)
                &&& forall|o: nat|
                    order < o <= self.blocks.max_order ==> !#[trigger] self.blocks.any_free(o)
            }
    }
}

/// A block of the region: where it starts, and which least blocks it holds.
pub proof fn lemma_block_bounds(view: BuddyView, order: nat, idx: int)
    requires
        view.inv(),
        order <= view.blocks.max_order,
        crate::blocks::in_region(view.blocks.units.len(), order, idx),
    ensures
        0 <= view.block_start(order, idx),
        0 < view.block_size(order),
        view.block_start(order, idx) + view.block_size(order) <= view.total_size,
        view.block_start(order, idx) == crate::blocks::block_lo(order, idx) * view.min_block_size,
        view.block_start(order, idx) + view.block_size(order) == crate::blocks::block_hi(order, idx)
            * view.min_block_size,
        0 <= crate::blocks::block_lo(order, idx),
        crate::blocks::block_lo(order, idx) < crate::blocks::block_hi(order, idx),
{
    reveal(is_pow2);
    let m = view.min_block_size as int;
    let p = pow2(order) as int;
    let n = view.blocks.units.len() as int;
    lemma_pow2_pos(order);
    lemma_mul_nonnegative(idx, p);
    lemma_mul_strictly_positive(m, p);
    let lo = idx * p;
    assert(idx * (m * p) == lo * m && lo * m + m * p == (lo + p) * m && 0 <= lo * m && (lo + p) * m
        <= m * n) by (nonlinear_arith)
        requires
            lo == idx * p,
            lo + p <= n,
            0 <= lo,
            0 < m,
    ;
}

/// A byte is in a block exactly when its least block is.
pub proof fn lemma_unit_of(view: BuddyView, lo: int, hi: int, i: int)
    requires
        view.min_block_size > 0,
    ensures
        lo * view.min_block_size <= i < hi * view.min_block_size <==> lo <= view.unit_of(i) < hi,
{
    let m = view.min_block_size as int;
    let q = i / m;
    lemma_fundamental_div_mod(i, m);
    lemma_mod_bound(i, m);
    lemma_mul_is_commutative(m, q);
    assert(lo * m <= i <==> lo <= q) by (nonlinear_arith)
        requires
            q * m <= i < q * m + m,
            m > 0,
    ;
    assert(hi * m <= i <==> hi <= q) by (nonlinear_arith)
        requires
            q * m <= i < q * m + m,
            m > 0,
    ;
}

proof fn lemma_live_bytes(view: BuddyView, count: int)
    requires
        view.inv(),
        0 <= count <= view.blocks.units.len(),
    ensures
        0 <= view.min_block_size * count <= usize::MAX,
{
    lemma_mul_nonnegative(view.min_block_size as int, count);
    lemma_mul_inequality(count, view.blocks.units.len() as int, view.min_block_size as int);
    lemma_mul_is_commutative(view.min_block_size as int, count);
    lemma_mul_is_commutative(view.min_block_size as int, view.blocks.units.len() as int);
}

/// Handing out a block whose units are free keeps the invariant.
pub proof fn lemma_allocated(view: BuddyView, order: nat, idx: int, source: nat)
    requires
        view.inv(),
        order <= source <= view.blocks.max_order,
        crate::blocks::covered(view.blocks.units, order, idx),
    ensures
        view.allocated(order, idx, source).inv(),
{
    reveal(is_pow2);
    let after = view.allocated(order, idx, source);
    let lo = crate::blocks::block_lo(order, idx);
    let hi = crate::blocks::block_hi(order, idx);
    lemma_block_bounds(view, order, idx);
    crate::bits::lemma_count_range(view.blocks.units, after.blocks.units, lo, hi, false);
    crate::bits::lemma_count_bounds(view.blocks.units);
    crate::bits::lemma_count_bounds(after.blocks.units);
    lemma_live_bytes(view, after.taken_units());
    lemma_mul_is_distributive_add(
        view.min_block_size as int,
        view.taken_units(),
        pow2(order) as int,
    );
    if let Some(zeroed) = after.zeroed {
        assert forall|i: int|
            0 <= i < after.total_size && after.blocks.units[after.unit_of(i)]
                && zeroed[after.unit_of(i)] implies #[trigger] after.memory[i] == 0 by {
            lemma_unit_of(view, lo, hi, i);
            lemma_unit_in_region(view, i);
            assert(view.memory[i] == 0);
        }
    }
}

proof fn lemma_unit_in_region(view: BuddyView, i: int)
    requires
        view.inv(),
        0 <= i < view.total_size,
    ensures
        0 <= view.unit_of(i) < view.blocks.units.len(),
{
    reveal(is_pow2);
    lemma_unit_of(view, 0, view.blocks.units.len() as int, i);
    lemma_mul_is_commutative(view.min_block_size as int, view.blocks.units.len() as int);
}

/// Taking a block back keeps the invariant.
pub proof fn lemma_released(view: BuddyView, order: nat, idx: int)
    requires
        view.inv(),
        view.taken(order, idx),
    ensures
        view.released(order, idx).inv(),
{
    reveal(is_pow2);
    let after = view.released(order, idx);
    let lo = crate::blocks::block_lo(order, idx);
    let hi = crate::blocks::block_hi(order, idx);
    lemma_block_bounds(view, order, idx);
    crate::bits::lemma_count_range(view.blocks.units, after.blocks.units, lo, hi, true);
    crate::bits::lemma_count_bounds(view.blocks.units);
    crate::bits::lemma_count_bounds(after.blocks.units);
    lemma_live_bytes(view, after.taken_units());
    lemma_mul_is_distributive_sub(
        view.min_block_size as int,
        view.taken_units(),
        pow2(order) as int,
    );
    if let Some(zeroed) = after.zeroed {
        assert forall|i: int|
            0 <= i < after.total_size && after.blocks.units[after.unit_of(i)]
                && zeroed[after.unit_of(i)] implies #[trigger] after.memory[i] == 0 by {
            lemma_unit_of(view, lo, hi, i);
            lemma_unit_in_region(view, i);
            if !(lo <= view.unit_of(i) < hi) {
                assert(view.memory[i] == 0);
            }
        }
    }
}

/// Writing inside a block that is handed out keeps the invariant.
pub proof fn lemma_written(view: BuddyView, order: nat, idx: int, at: int, data: Seq<u8>)
    requires
        view.inv(),
        view.taken(order, idx),
        view.block_start(order, idx) <= at,
        at + data.len() <= view.block_start(order, idx) + view.block_size(order),
    ensures
        view.with_memory(crate::memory::overwrite(view.memory, at, data)).inv(),
{
    reveal(is_pow2);
    let after = view.with_memory(crate::memory::overwrite(view.memory, at, data));
    lemma_block_bounds(view, order, idx);
    let lo = crate::blocks::block_lo(order, idx);
    let hi = crate::blocks::block_hi(order, idx);
    if let Some(zeroed) = after.zeroed {
        assert forall|i: int|
            0 <= i < after.total_size && after.blocks.units[after.unit_of(i)]
                && zeroed[after.unit_of(i)] implies #[trigger] after.memory[i] == 0 by {
            lemma_unit_of(view, lo, hi, i);
            assert(view.memory[i] == 0);
        }
    }
}

/// Buddy-backed arena allocator.
///
/// Memory is managed in power-of-two blocks over a fixed minimum block size.
#[derive(Debug)]
pub struct BuddyArena<M: Backing = Vec<u8>> {
    memory: M,
    total_size: usize,
    min_block_size: usize,
    blocks: BlockPool,
    auto_spill: bool,
    cap_capacity: bool,
    init_policy: InitPolicy,
    metrics: MetricsState,
    zeroed_bitmap: Option<Bitmap>,
}

impl<M: Backing> View for BuddyArena<M> {
    type V = BuddyView;

    closed spec fn view(&self) -> BuddyView {
        BuddyView {
            memory: self.memory.content(),
            total_size: self.total_size as nat,
            min_block_size: self.min_block_size as nat,
            blocks: self.blocks@,
            zeroed: match self.zeroed_bitmap {
                Some(zeroed) => Some(zeroed@.free),
                None => None,
            },
            metrics: self.metrics,
            auto_spill: self.auto_spill,
            cap_capacity: self.cap_capacity,
            init_policy: self.init_policy,
        }
    }
}

impl<M: Backing> BuddyArena<M> {
    /// The internal invariant.
    pub closed spec fn valid(&self) -> bool {
        &&& self.blocks.wf()
        &&& self.zeroed_bitmap matches Some(zeroed) ==> zeroed.wf()
        &&& self@.inv()
    }

    /// A valid arena keeps [`BuddyView::inv`].
    pub proof fn lemma_valid(&self)
        requires
            self.valid(),
        ensures
            self@.inv(),
    {
    }

    /// A new arena of one free block on `memory`.
    pub(crate) fn on_memory(
        memory: M,
        min_block_size: usize,
        max_order: usize,
        auto_spill: bool,
        cap_capacity: bool,
        init_policy: InitPolicy,
    ) -> (r: Self)
        requires
            is_pow2(min_block_size as int),
            min_block_size * pow2(max_order as nat) <= memory.content().len(),
        ensures
            r.valid(),
            r@ == BuddyView::fresh(
                memory.content(),
                min_block_size as nat,
                max_order as nat,
                auto_spill,
                cap_capacity,
                init_policy,
            ),
    {
        let size: usize = memory.size();
        proof {
            reveal(is_pow2);
            let p = pow2(max_order as nat) as int;
            assert(p <= min_block_size * p) by (nonlinear_arith)
                requires
                    min_block_size >= 1,
                    p >= 0,
            ;
            crate::bits::lemma_exponent_bound(max_order as nat);
            lemma_usize_shl_is_mul(min_block_size, max_order);
            lemma_pow2_pos(max_order as nat);
        }
        let total_size: usize = min_block_size << max_order;
        let order0_count: usize = crate::blocks::blocks_at_order(max_order, 0);
        let zeroed_bitmap: Option<Bitmap> = match init_policy {
            InitPolicy::Zero => Some(Bitmap::new_empty(order0_count)),
            InitPolicy::Uninit => None,
        };
        let r = BuddyArena {
            memory,
            total_size,
            min_block_size,
            blocks: BlockPool::new(max_order),
            auto_spill,
            cap_capacity,
            init_policy,
            metrics: MetricsState::new(total_size),
            zeroed_bitmap,
        };
        proof {
            let fresh = BuddyView::fresh(
                memory.content(),
                min_block_size as nat,
                max_order as nat,
                auto_spill,
                cap_capacity,
                init_policy,
            );
            assert(r@ =~= fresh);
            crate::bits::lemma_count_bounds(fresh.blocks.units);
            assert(fresh.taken_units() == 0);
            assert(fresh.min_block_size * 0 == 0);
            if let Some(zeroed) = fresh.zeroed {
                assert forall|i: int|
                    0 <= i < fresh.total_size && fresh.blocks.units[fresh.unit_of(i)]
                        && zeroed[fresh.unit_of(i)] implies #[trigger] fresh.memory[i] == 0 by {
                    lemma_unit_of(fresh, 0, fresh.blocks.units.len() as int, i);
                    lemma_mul_is_commutative(
                        fresh.min_block_size as int,
                        fresh.blocks.units.len() as int,
                    );
                }
            }
            assert(fresh.inv());
        }
        r
    }

    /// Total bytes managed by this arena.
    pub fn total_size(&self) -> (r: usize)
        ensures
            r == self@.total_size,
    {
        self.total_size
    }

    /// Smallest allocatable block size in bytes.
    pub fn min_block_size(&self) -> (r: usize)
        ensures
            r == self@.min_block_size,
    {
        self.min_block_size
    }

    /// Largest block order in this arena.
    pub fn max_order(&self) -> (r: usize)
        ensures
            r == self@.blocks.max_order,
    {
        self.blocks.max_order()
    }

    /// Whether overflowing writes move to the heap.
    pub fn auto_spill_enabled(&self) -> (r: bool)
        ensures
            r == self@.auto_spill,
    {
        self.auto_spill
    }

    /// Bit `o` of the result is set when order `o` has a free block.
    pub fn nonempty_orders(&self) -> (r: usize)
        requires
            self.valid(),
        ensures
            forall|o: int| #[trigger]
                crate::bits::bit(r, o) <==> 0 <= o && self@.blocks.any_free(o as nat),
    {
        self.blocks.nonempty_orders()
    }

    /// Number of free blocks of one order.
    pub fn free_block_count(&self, order: usize) -> (r: usize)
        requires
            self.valid(),
            order <= self@.blocks.max_order,
        ensures
            r == crate::bits::count_true(self@.blocks.order_view(order as nat).free),
    {
        self.blocks.free_block_count(order)
    }

    /// Whether the block is a free block of its own.
    pub fn is_block_free(&self, order: usize, block_idx: usize) -> (r: bool)
        requires
            self.valid(),
            order <= self@.blocks.max_order,
            block_idx < pow2((self@.blocks.max_order - order) as nat),
        ensures
            r == crate::blocks::free_block(
                self@.blocks.units,
                self@.blocks.max_order,
                order as nat,
                block_idx as int,
            ),
    {
        self.blocks.is_block_free(order, block_idx)
    }

    /// The region behind the arena.
    pub fn memory(&self) -> (r: &M)
        ensures
            r.content() == self@.memory,
    {
        &self.memory
    }

    /// Size of a block of order `order` in bytes.
    pub fn block_size(&self, order: usize) -> (r: usize)
        requires
            self.valid(),
            order <= self@.blocks.max_order,
        ensures
            r == self@.block_size(order as nat),
            r == self@.min_block_size * pow2(order as nat),
            0 < r <= self@.total_size,
    {
        proof {
            self.blocks.lemma_shape();
            reveal(is_pow2);
            crate::bits::lemma_pow2_le(order as nat, self@.blocks.max_order);
            lemma_pow2_pos(order as nat);
            let m = self.min_block_size as int;
            let p = pow2(order as nat) as int;
            let q = pow2(self@.blocks.max_order) as int;
            assert(0 < m * p <= m * q) by (nonlinear_arith)
                requires
                    0 < p <= q,
                    0 < m,
            ;
            lemma_usize_shl_is_mul(self.min_block_size, order);
        }
        self.min_block_size << order
    }

    /// Offset of a block in the region.
    pub fn block_offset(&self, order: usize, block_idx: usize) -> (r: usize)
        requires
            self.valid(),
            order <= self@.blocks.max_order,
            crate::blocks::in_region(self@.blocks.units.len(), order as nat, block_idx as int),
        ensures
            r == self@.block_start(order as nat, block_idx as int),
            r == block_idx * (self@.min_block_size * pow2(order as nat)),
    {
        proof {
            lemma_block_bounds(self@, order as nat, block_idx as int);
        }
        block_idx * self.block_size(order)
    }

    /// Snapshot of the allocator metrics.
    pub fn metrics(&self) -> (r: BuddyArenaMetrics)
        requires
            self.valid(),
        ensures
            r == self@.metrics.buddy(r.largest_free_block),
            r.allocations_ok == self@.metrics.allocations_ok,
            r.allocations_failed == self@.metrics.allocations_failed,
            r.frees == self@.metrics.frees,
            r.frozen == self@.metrics.frozen,
            r.spills == self@.metrics.spills,
            r.splits == self@.metrics.splits,
            r.coalesces == self@.metrics.coalesces,
            r.bytes_reserved == self@.metrics.bytes_reserved,
            r.bytes_live == self@.metrics.bytes_live,
            self@.is_largest_free(r.largest_free_block as int),
    {
        let largest: usize = self.largest_free_block();
        self.metrics.buddy_snapshot(largest)
    }

    fn largest_free_block(&self) -> (r: usize)
        requires
            self.valid(),
        ensures
            self@.is_largest_free(r as int),
    {
        match self.blocks.largest_free_order() {
            Some(order) => self.block_size(order),
            None => 0,
        }
    }

    /// The order of the block that a request of `len` bytes needs, or `None`
    /// when it exceeds the whole region.
    pub fn order_for_request(&self, len: usize) -> (r: Option<usize>)
        requires
            self.valid(),
        ensures
            match r {
                Some(order) => {
                    &&& self@.wants(len as nat, order as nat)
                    &&& order <= self@.blocks.max_order
                    &&& len <= self@.min_block_size * pow2(order as nat)
                    &&& order == 0 || self@.min_block_size * pow2(order as nat) < 2 * len
                },
                None => self@.request_size(len as nat) > self@.total_size && len > self@.total_size,
            },
    {
        let r: Option<usize> = self.least_order(len);
        proof {
            self.lemma_valid();
            match r {
                Some(order) => {
                    crate::effects::law_orders_hold_requests(self@, len as nat, order as nat);
                },
                None => {
                    crate::effects::law_oversized_requests(self@, len as nat);
                },
            }
        }
        r
    }

    fn least_order(&self, len: usize) -> (r: Option<usize>)
        requires
            self.valid(),
        ensures
            match r {
                Some(order) => self@.wants(len as nat, order as nat),
                None => self@.request_size(len as nat) > self@.total_size,
            },
    {
        let floor: usize = if len > self.min_block_size {
            len
        } else {
            self.min_block_size
        };
        match crate::bits::checked_next_power_of_two(floor) {
            None => None,
            Some(size) => {
                if size > self.total_size {
                    return None;
                }
                proof {
                    self.blocks.lemma_shape();
                    crate::bits::lemma_ceil_pow2(floor as nat);
                }
                let hi: usize = crate::bits::log2(size);
                let lo: usize = crate::bits::log2(self.min_block_size);
                proof {
                    lemma_order_difference(
                        self.min_block_size as int,
                        lo as nat,
                        size as int,
                        hi as nat,
                        self@.blocks.max_order,
                    );
                }
                Some(hi - lo)
            },
        }
    }

    /// Zeroes a block that was never scrubbed, if the policy asks for it.
    fn prepare_block(&mut self, order: usize, block_idx: usize, Ghost(pre): Ghost<BuddyView>)
        requires
            old(self).blocks.wf(),
            old(self).zeroed_bitmap matches Some(zeroed) ==> zeroed.wf(),
            pre.inv(),
            pre.memory == old(self)@.memory,
            pre.min_block_size == old(self)@.min_block_size,
            pre.zeroed == old(self)@.zeroed,
            pre.init_policy == old(self)@.init_policy,
            pre.blocks.max_order == old(self)@.blocks.max_order,
            order <= pre.blocks.max_order,
            crate::blocks::covered(pre.blocks.units, order as nat, block_idx as int),
        ensures
            final(self).blocks == old(self).blocks,
            final(self).zeroed_bitmap == old(self).zeroed_bitmap,
            final(self)@ == old(self)@.with_memory(pre.scrub(order as nat, block_idx as int)),
    {
        match self.init_policy {
            InitPolicy::Zero => {
                proof {
                    self.blocks.lemma_shape();
                    lemma_block_bounds(pre, order as nat, block_idx as int);
                    lemma_shl_facts(
                        pre.min_block_size as usize,
                        order as nat,
                        pre.blocks.max_order,
                    );
                    lemma_usize_shl_is_mul(self.min_block_size, order);
                    lemma_usize_shl_is_mul(1, order);
                }
                let block_size: usize = self.min_block_size << order;
                let offset: usize = block_idx * block_size;
                let units: usize = 1usize << order;
                let order0_start: usize = block_idx * units;
                let order0_end: usize = order0_start + units;
                let scrubbed: bool = match &self.zeroed_bitmap {
                    Some(zeroed) => zeroed.all_set_in_range(order0_start, order0_end),
                    None => true,
                };
                if !scrubbed {
                    self.memory.zeroize(offset, offset + block_size);
                } else {
                    proof {
                        let z = pre.zeroed->0;
                        assert forall|i: int| offset <= i < offset + block_size implies
                            #[trigger] pre.memory[i] == 0 by {
                            lemma_unit_of(pre, order0_start as int, order0_end as int, i);
                            assert(z[pre.unit_of(i)]);
                            assert(pre.blocks.units[pre.unit_of(i)]);
                        }
                        assert(pre.scrub(order as nat, block_idx as int) =~= pre.memory);
                    }
                }
            },
            InitPolicy::Uninit => {},
        }
    }

    /// Takes a block for `len` bytes out of the pool and prepares its bytes.
    pub(crate) fn take_block(&mut self, len: usize) -> (r: Option<(usize, usize)>)
        requires
            old(self).valid(),
        ensures
            final(self).valid(),
            match r {
                Some((order, idx)) => old(self)@.grants(
                    len as nat,
                    order as nat,
                    idx as int,
                    final(self)@,
                ),
                None => old(self)@.refuses(len as nat, final(self)@),
            },
    {
        let ghost pre = self@;
        match self.order_for_request(len) {
            None => {
                self.metrics.record_alloc_failure();
                assert(self@ =~= pre.refused_oversize());
                None
            },
            Some(target_order) => {
                let block_size: usize = self.block_size(target_order);
                let found: Option<(usize, usize)> = match self.blocks.try_allocate_from_summary(
                    target_order,
                ) {
                    Some(found) => Some(found),
                    None => self.blocks.try_allocate_from_full_scan(target_order),
                };
                match found {
                    None => {
                        self.metrics.record_alloc_failure();
                        proof {
                            assert(self@ =~= pre.refused(target_order as nat));
                            assert(pre.wants(len as nat, target_order as nat));
                        }
                        None
                    },
                    Some((order, block_idx)) => {
                        proof {
                            assert(pre.blocks.order_view(order as nat).free[block_idx as int]);
                            crate::blocks::law_release_undoes_take(
                                pre.blocks.scanned(order as int, order + 1),
                                order as nat,
                                block_idx as int,
                            );
                        }
                        let (final_order, final_idx) = self.blocks.split_down(
                            order,
                            block_idx,
                            target_order,
                        );
                        proof {
                            crate::blocks::lemma_first_part(
                                order as nat,
                                block_idx as int,
                                target_order as nat,
                            );
                            assert(crate::blocks::covered(
                                pre.blocks.units,
                                target_order as nat,
                                final_idx as int,
                            ));
                            lemma_allocated(
                                pre,
                                target_order as nat,
                                final_idx as int,
                                order as nat,
                            );
                        }
                        self.prepare_block(final_order, final_idx, Ghost(pre));
                        let split_steps: u64 = (order - target_order) as u64;
                        if split_steps > 0 {
                            self.metrics.record_splits(split_steps);
                        }
                        self.metrics.record_alloc_success(block_size);
                        proof {
                            assert(self@ =~= pre.allocated(
                                target_order as nat,
                                final_idx as int,
                                order as nat,
                            ));
                            assert(pre.cut_from(
                                target_order as nat,
                                final_idx as int,
                                order as nat,
                                block_idx as int,
                                self@,
                            ));
                        }
                        Some((final_order, final_idx))
                    },
                }
            },
        }
    }

    /// Allocates a buffer with at least `len` bytes of capacity, or returns
    /// `ArenaFull` if no block is large enough.
    pub fn allocate(&mut self, len: NonZeroUsize) -> (r: Result<Buffer, AllocError>)
        requires
            old(self).valid(),
        ensures
            final(self).valid(),
            match r {
                Ok(buffer) => {
                    &&& buffer@.allocation matches AllocationKind::Buddy { order, block_idx: idx }
                    &&& old(self)@.grants(len@, order as nat, idx as int, final(self)@)
                    &&& buffer@ == old(self)@.buffer_on(order, idx, len@)
                    &&& len@ <= buffer@.capacity
                    &&& old(self)@.cap_capacity ==> buffer@.capacity == len@
                    &&& !old(self)@.cap_capacity ==> buffer@.capacity == old(self)@.min_block_size * pow2(
                        order as nat,
                    )
                    &&& buffer@.offset == idx * (old(self)@.min_block_size * pow2(order as nat))
                    &&& buffer@.len == 0
                    &&& buffer@.spill is None
                    &&& buffer@.auto_spill == old(self)@.auto_spill
                    &&& buffer@.inv()
                    &&& buffer@.backed_by::<Self>(final(self).state())
                },
                Err(e) => {
                    &&& e == AllocError::ArenaFull
                    &&& old(self)@.refuses(len@, final(self)@)
                },
            },
    {
        let ghost pre = self@;
        match self.take_block(len.get()) {
            None => Err(AllocError::ArenaFull),
            Some((order, block_idx)) => {
                proof {
                    lemma_granted(pre, len@, order as nat, block_idx as int, self@);
                    lemma_block_bounds(self@, order as nat, block_idx as int);
                }
                let offset: usize = self.block_offset(order, block_idx);
                let capacity: usize = self.visible_capacity(order, len.get());
                Ok(
                    Buffer::new(
                        AllocationKind::Buddy { order, block_idx },
                        self.auto_spill,
                        offset,
                        capacity,
                    ),
                )
            },
        }
    }

    /// Bytes of a block that its buffer shows for a request of `len` bytes.
    pub(crate) fn visible_capacity(&self, order: usize, len: usize) -> (r: usize)
        requires
            self.valid(),
            order <= self@.blocks.max_order,
            len <= self@.block_size(order as nat),
        ensures
            r == if self@.cap_capacity {
                len as int
            } else {
                self@.block_size(order as nat)
            },
    {
        let block_size: usize = self.block_size(order);
        if self.cap_capacity {
            if len < block_size {
                len
            } else {
                block_size
            }
        } else {
            block_size
        }
    }

    /// Gives a block back. The result is the order of the free block that it
    /// became part of.
    pub fn release_block(&mut self, order: usize, block_idx: usize) -> (r: usize)
        requires
            old(self).valid(),
            old(self)@.taken(order as nat, block_idx as int),
        ensures
            final(self).valid(),
            final(self)@ == old(self)@.released(order as nat, block_idx as int),
            r == old(self)@.merged_order(order as nat, block_idx as int),
    {
        let ghost pre = self@;
        proof {
            self.blocks.lemma_shape();
            lemma_block_bounds(pre, order as nat, block_idx as int);
            lemma_released(pre, order as nat, block_idx as int);
            reveal(is_pow2);
            lemma_shl_facts(self.min_block_size, order as nat, pre.blocks.max_order);
            lemma_usize_shl_is_mul(1, order);
        }
        let block_size: usize = self.block_size(order);
        self.metrics.record_free(block_size);
        if self.init_policy == InitPolicy::Zero {
            let offset: usize = block_idx * block_size;
            self.memory.zeroize(offset, offset + block_size);
            let units: usize = 1usize << order;
            let order0_start: usize = block_idx * units;
            let order0_end: usize = order0_start + units;
            match &mut self.zeroed_bitmap {
                Some(zeroed) => {
                    zeroed.set_range(order0_start, order0_end);
                },
                None => {},
            }
        }
        let merged: usize = self.blocks.release_block(order, block_idx);
        self.metrics.record_coalesces((merged - order) as u64);
        assert(self@ =~= pre.released(order as nat, block_idx as int));
        merged
    }

    /// Touches one byte of each page of the region of an arena that nobody
    /// holds a block of.
    pub fn fault_pages(&mut self, page_size: usize)
        requires
            old(self).valid(),
            old(self)@.idle(),
            page_size > 0,
        ensures
            final(self).valid(),
            final(self)@ == old(self)@.with_memory(
                crate::memory::prefaulted(
                    old(self)@.memory,
                    old(self)@.total_size as int,
                    page_size as int,
                ),
            ),
    {
        let ghost pre = self@;
        let total: usize = self.total_size;
        crate::memory::prefault_region(&mut self.memory, total, page_size);
        proof {
            if let Some(zeroed) = pre.zeroed {
                assert forall|i: int|
                    0 <= i < pre.total_size && pre.blocks.units[pre.unit_of(i)]
                        && zeroed[pre.unit_of(i)] implies #[trigger] self@.memory[i] == 0 by {
                    assert(pre.memory[i] == 0);
                }
            }
        }
    }
}

impl<M: Backing> ArenaRef for BuddyArena<M> {
    type State = BuddyView;

    open spec fn wf(&self) -> bool {
        self.valid()
    }

    open spec fn state(&self) -> BuddyView {
        self@
    }

    open spec fn region(state: BuddyView) -> Seq<u8> {
        state.memory
    }

    open spec fn live(state: BuddyView, allocation: AllocationKind) -> bool {
        match allocation {
            AllocationKind::Fixed { .. } => false,
            AllocationKind::Buddy { order, block_idx } => state.taken(
                order as nat,
                block_idx as int,
            ),
        }
    }

    open spec fn start(state: BuddyView, allocation: AllocationKind) -> int {
        match allocation {
            AllocationKind::Fixed { .. } => 0,
            AllocationKind::Buddy { order, block_idx } => state.block_start(
                order as nat,
                block_idx as int,
            ),
        }
    }

    open spec fn extent(state: BuddyView, allocation: AllocationKind) -> int {
        match allocation {
            AllocationKind::Fixed { .. } => 0,
            AllocationKind::Buddy { order, .. } => state.block_size(order as nat),
        }
    }

    open spec fn written(state: BuddyView, at: int, data: Seq<u8>) -> BuddyView {
        state.with_memory(crate::memory::overwrite(state.memory, at, data))
    }

    open spec fn released(state: BuddyView, allocation: AllocationKind) -> BuddyView {
        match allocation {
            AllocationKind::Fixed { .. } => state,
            AllocationKind::Buddy { order, block_idx } => state.released(
                order as nat,
                block_idx as int,
            ),
        }
    }

    open spec fn frozen(state: BuddyView) -> BuddyView {
        BuddyView { metrics: state.metrics.froze(), ..state }
    }

    open spec fn spilled(state: BuddyView) -> BuddyView {
        BuddyView { metrics: state.metrics.spilled(), ..state }
    }

    proof fn lemma_in_region(&self, allocation: AllocationKind) {
        match allocation {
            AllocationKind::Fixed { .. } => {},
            AllocationKind::Buddy { order, block_idx } => {
                lemma_block_bounds(self@, order as nat, block_idx as int);
            },
        }
    }

    proof fn lemma_frame(
        state: BuddyView,
        allocation: AllocationKind,
        other: AllocationKind,
        at: int,
        data: Seq<u8>,
    ) {
    }

    fn read_at(&self, at: usize, n: usize) -> (r: &[u8]) {
        self.memory.read(at, n)
    }

    fn write_at(&mut self, allocation: AllocationKind, at: usize, data: &[u8]) {
        proof {
            if let AllocationKind::Buddy { order, block_idx } = allocation {
                lemma_block_bounds(self@, order as nat, block_idx as int);
                lemma_written(self@, order as nat, block_idx as int, at as int, data@);
            }
        }
        self.memory.write(at, data);
    }

    fn release(&mut self, allocation: AllocationKind) {
        match allocation {
            AllocationKind::Fixed { .. } => {},
            AllocationKind::Buddy { order, block_idx } => {
                self.release_block(order, block_idx);
            },
        }
    }

    fn record_frozen(&mut self) {
        self.metrics.record_frozen();
    }

    fn record_spill(&mut self) {
        self.metrics.record_spill();
    }
}

/// A granted block is handed out afterwards, and large enough.
pub proof fn lemma_granted(pre: BuddyView, len: nat, order: nat, idx: int, post: BuddyView)
    requires
        pre.inv(),
        pre.grants(len, order, idx, post),
    ensures
        crate::blocks::covered(pre.blocks.units, order, idx),
        post.taken(order, idx),
        post.inv(),
        len <= post.block_size(order),
        post.min_block_size == pre.min_block_size,
{
    let (source, j) = choose|source: nat, j: int| pre.cut_from(order, idx, source, j, post);
    assert(pre.blocks.order_view(source).free[j]);
    crate::blocks::lemma_first_part(source, j, order);
    lemma_allocated(pre, order, idx, source);
    crate::bits::lemma_ceil_pow2(
        if len > pre.min_block_size {
            len
        } else {
            pre.min_block_size
        },
    );
}

/// A power of two over the least block is a whole order.
proof fn lemma_order_difference(min: int, lo: nat, size: int, hi: nat, max_order: nat)
    requires
        pow2(lo) == min,
        pow2(hi) == size,
        min <= size,
        size <= min * pow2(max_order),
    ensures
        lo <= hi,
        hi - lo <= max_order,
        min * pow2((hi - lo) as nat) == size,
{
    if hi < lo {
        lemma_pow2_strictly_increases(hi, lo);
    }
    lemma_pow2_adds(lo, (hi - lo) as nat);
    lemma_pow2_adds(lo, max_order);
    if hi > lo + max_order {
        lemma_pow2_strictly_increases(lo + max_order, hi);
    }
}

/// The shifts that size a block do not overflow.
proof fn lemma_shl_facts(min: usize, order: nat, max_order: nat)
    requires
        order <= max_order,
        0 < min,
        min * pow2(max_order) <= usize::MAX,
    ensures
        order < usize::BITS,
        min * pow2(order) <= usize::MAX,
        pow2(order) <= usize::MAX,
        0 < pow2(order),
{
    crate::bits::lemma_pow2_le(order, max_order);
    lemma_pow2_pos(order);
    let p = pow2(order) as int;
    let q = pow2(max_order) as int;
    assert(min * p <= min * q && p <= min * p) by (nonlinear_arith)
        requires
            0 < p <= q,
            0 < min,
    ;
    crate::bits::lemma_exponent_bound(order);
}

} // verus!
