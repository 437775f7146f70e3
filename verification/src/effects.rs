//! What each operation on an arena does, slot by slot, unit by unit and byte by
//! byte.
use vstd::prelude::*;
use vstd::arithmetic::power2::*;
use vstd::arithmetic::mul::*;
use vstd::arithmetic::div_mod::*;
use crate::allocation::{AllocationKind, ArenaRef};
use crate::arena::{FixedArena, FixedView};
use crate::bitmap::BitmapView;
use crate::blocks::BlocksView;
use crate::buddy::{BuddyArena, BuddyView};
use crate::config::InitPolicy;
use crate::memory::Backing;

verus! {

/// What an arena was built with stays the same.
pub open spec fn same_fixed_make(a: FixedView, b: FixedView) -> bool {
    &&& b.slot_count == a.slot_count
    &&& b.slot_capacity == a.slot_capacity
    &&& b.auto_spill == a.auto_spill
    &&& b.init_policy == a.init_policy
    &&& b.memory.len() == a.memory.len()
    &&& b.slots.free.len() == a.slots.free.len()
    &&& b.metrics.bytes_reserved == a.metrics.bytes_reserved
}

/// A slot that is handed out was free and is taken; no other slot changes. Its
/// bytes are zero under the zero policy and otherwise left as they were, and no
/// other byte changes. One more allocation is counted, and its bytes are live.
pub proof fn law_slot_allocation_effects(view: FixedView, slot: int, other: int, i: int)
    requires
        view.inv(),
        view.slots.picks(slot),
    ensures
        ({
            let after = view.allocated(slot);
            &&& 0 <= slot < view.slot_count
            &&& view.slots.free[slot] && !after.slots.free[slot]
            &&& 0 <= other < view.slot_count && other != slot ==> after.slots.free[other]
                == view.slots.free[other]
            &&& same_fixed_make(view, after)
            &&& view.init_policy == InitPolicy::Uninit ==> after.memory == view.memory
            &&& view.init_policy == InitPolicy::Zero && slot * view.slot_capacity <= i < (slot + 1)
                * view.slot_capacity ==> after.memory[i] == 0
            &&& 0 <= i < view.memory.len() && !(slot * view.slot_capacity <= i < (slot + 1)
                * view.slot_capacity) ==> after.memory[i] == view.memory[i]
            &&& after.metrics.allocations_ok == view.metrics.allocations_ok.wrapping_add(1)
            &&& after.metrics.bytes_live == view.metrics.bytes_live + view.slot_capacity
            &&& after.metrics.allocations_failed == view.metrics.allocations_failed
            &&& after.metrics.frees == view.metrics.frees
            &&& after.metrics.frozen == view.metrics.frozen
            &&& after.metrics.spills == view.metrics.spills
        }),
{
    crate::arena::lemma_slot_bounds(view, slot);
    crate::arena::lemma_allocated(view, slot);
    crate::laws::law_slots_are_counted(view, slot);
    lemma_mul_is_distributive_add(view.slot_capacity as int, view.taken_count(), 1);
}

/// A refused allocation finds every slot taken, changes no slot and no byte, and
/// is counted as refused and as nothing else.
pub proof fn law_slot_refusal_effects(view: FixedView, slot: int)
    requires
        view.inv(),
        !view.slots.any_free(),
    ensures
        ({
            let after = view.refused();
            &&& 0 <= slot < view.slot_count ==> !view.slots.free[slot]
            &&& after.slots.free == view.slots.free
            &&& after.memory == view.memory
            &&& same_fixed_make(view, after)
            &&& after.metrics == (crate::metrics::MetricsState {
                allocations_failed: view.metrics.allocations_failed.wrapping_add(1),
                ..view.metrics
            })
        }),
{
}

/// A slot that comes back was taken and is free; no other slot changes. Its
/// bytes are zero under the zero policy and otherwise left as they were, and no
/// other byte changes. One more release is counted, and its bytes are no longer
/// live.
pub proof fn law_slot_release_effects(view: FixedView, slot: int, other: int, i: int)
    requires
        view.inv(),
        view.taken(slot),
    ensures
        ({
            let after = view.released(slot);
            &&& 0 <= slot < view.slot_count
            &&& !view.slots.free[slot] && after.slots.free[slot]
            &&& 0 <= other < view.slot_count && other != slot ==> after.slots.free[other]
                == view.slots.free[other]
            &&& same_fixed_make(view, after)
            &&& view.init_policy == InitPolicy::Uninit ==> after.memory == view.memory
            &&& view.init_policy == InitPolicy::Zero && slot * view.slot_capacity <= i < (slot + 1)
                * view.slot_capacity ==> after.memory[i] == 0
            &&& 0 <= i < view.memory.len() && !(slot * view.slot_capacity <= i < (slot + 1)
                * view.slot_capacity) ==> after.memory[i] == view.memory[i]
            &&& after.metrics.frees == view.metrics.frees.wrapping_add(1)
            &&& after.metrics.bytes_live == view.metrics.bytes_live - view.slot_capacity
            &&& after.metrics.allocations_ok == view.metrics.allocations_ok
            &&& after.metrics.allocations_failed == view.metrics.allocations_failed
            &&& after.metrics.frozen == view.metrics.frozen
            &&& after.metrics.spills == view.metrics.spills
        }),
{
    crate::arena::lemma_slot_bounds(view, slot);
    crate::arena::lemma_released(view, slot);
    crate::laws::law_slots_are_counted(view, slot);
    lemma_mul_is_distributive_sub(view.slot_capacity as int, view.taken_count(), 1);
}

/// The buffer on a slot starts empty at the slot and has all of its capacity.
pub proof fn law_slot_buffers_have_the_whole_slot(view: FixedView, slot: usize)
    ensures
        ({
            let b = view.buffer_on(slot);
            &&& b.allocation == AllocationKind::Fixed { slot_idx: slot }
            &&& b.offset == slot * view.slot_capacity
            &&& b.capacity == view.slot_capacity
            &&& b.len == 0
            &&& b.spill is None
            &&& b.auto_spill == view.auto_spill
        }),
{
}

/// A new fixed arena has all slots free, has counted nothing and has the bytes
/// and policies that it was given.
pub proof fn law_new_fixed_arena_is_empty(
    memory: Seq<u8>,
    slot_count: nat,
    slot_capacity: nat,
    auto_spill: bool,
    init_policy: InitPolicy,
    slot: int,
)
    requires
        slot_count * slot_capacity <= usize::MAX,
    ensures
        ({
            let new = FixedView::fresh(memory, slot_count, slot_capacity, auto_spill, init_policy);
            &&& new.slot_count == slot_count
            &&& new.slot_capacity == slot_capacity
            &&& new.slots.free.len() == slot_count
            &&& 0 <= slot < slot_count ==> new.slots.free[slot]
            &&& new.slots.cursor == 0
            &&& new.memory == memory
            &&& new.auto_spill == auto_spill
            &&& new.init_policy == init_policy
            &&& new.metrics.bytes_reserved == slot_count * slot_capacity
            &&& new.metrics.bytes_live == 0
            &&& new.metrics.allocations_ok == 0
            &&& new.metrics.allocations_failed == 0
            &&& new.metrics.frees == 0
            &&& new.metrics.frozen == 0
            &&& new.metrics.spills == 0
        }),
{
}

/// A fixed arena lends a buffer its slot: the slot is live while it is taken,
/// starts at a multiple of the capacity and is as long. Writing, freezing,
/// spilling and releasing change the bytes, the counter of their name and the
/// slot, and nothing else.
pub proof fn law_fixed_arena_lends_slots<M: Backing>(
    view: FixedView,
    slot: usize,
    at: int,
    data: Seq<u8>,
)
    ensures
        ({
            let a = AllocationKind::Fixed { slot_idx: slot };
            &&& FixedArena::<M>::region(view) == view.memory
            &&& FixedArena::<M>::live(view, a) <==> slot < view.slot_count
                && !view.slots.free[slot as int]
            &&& FixedArena::<M>::start(view, a) == slot * view.slot_capacity
            &&& FixedArena::<M>::extent(view, a) == view.slot_capacity
            &&& FixedArena::<M>::written(view, at, data) == (FixedView {
                memory: crate::memory::overwrite(view.memory, at, data),
                ..view
            })
            &&& FixedArena::<M>::released(view, a) == view.released(slot as int)
            &&& FixedArena::<M>::frozen(view) == (FixedView {
                metrics: crate::metrics::MetricsState {
                    frozen: view.metrics.frozen.wrapping_add(1),
                    ..view.metrics
                },
                ..view
            })
            &&& FixedArena::<M>::spilled(view) == (FixedView {
                metrics: crate::metrics::MetricsState {
                    spills: view.metrics.spills.wrapping_add(1),
                    ..view.metrics
                },
                ..view
            })
        }),
{
}

/// The scan for a free slot goes word by word from the one that the cursor
/// names, round and upwards in each word: a slot that is picked is free, no
/// lower slot of its word is, and neither is any slot of the words before it.
pub proof fn law_scan_goes_round_from_the_cursor(view: BitmapView, slot: int, other: int)
    requires
        view.picks(slot),
        0 <= other < view.free.len(),
        view.free[other],
    ensures
        0 <= slot < view.free.len(),
        view.free[slot],
        ({
            let n = crate::bitmap::scan_words(view.free.len()) as int;
            let bits = usize::BITS as int;
            let start = view.cursor as int % n;
            let ahead = (slot / bits + n - start) % n;
            let other_ahead = (other / bits + n - start) % n;
            &&& is_pow2(n)
            &&& view.free.len() <= n * bits
            &&& n == 1 || (n / 2) * bits < view.free.len()
            &&& ahead < other_ahead || (ahead == other_ahead && slot <= other)
        }),
{
    let n = crate::bitmap::scan_words(view.free.len()) as int;
    let words = crate::bitmap::words_for(view.free.len());
    let bits = usize::BITS as int;
    reveal(is_pow2);
    crate::bits::lemma_ceil_pow2(words);
    lemma_mod_bound(view.cursor as int, n);
    let start = view.cursor as int % n;
    crate::bitmap::lemma_word_and_bit(slot);
    crate::bitmap::lemma_word_and_bit(other);
    crate::bitmap::lemma_word_and_bit(view.free.len() + bits - 1);
    lemma_around(crate::bitmap::word_of(slot), start, n);
    lemma_around(crate::bitmap::word_of(other), start, n);
    crate::bitmap::lemma_slots_in_words(view.free.len(), n);
}

proof fn lemma_around(w: int, start: int, n: int)
    requires
        0 <= w < n,
        0 <= start < n,
    ensures
        (w + n - start) % n == if w >= start {
            w - start
        } else {
            w - start + n
        },
{
    if w >= start {
        lemma_small_mod((w - start) as nat, n as nat);
        lemma_mod_add_multiples_vanish(w - start, n);
    } else {
        lemma_small_mod((w - start + n) as nat, n as nat);
    }
}

/// Marking a slot changes that slot and no other and leaves the cursor; a scan
/// moves the cursor on by one, round at the end of its range, and no slot.
pub proof fn law_marks_and_scans(view: BitmapView, slot: int, free: bool, other: int)
    requires
        0 <= slot < view.free.len(),
        0 <= other < view.free.len(),
        view.cursor <= usize::MAX,
    ensures
        view.with(slot, free).free.len() == view.free.len(),
        view.with(slot, free).free[slot] == free,
        other != slot ==> view.with(slot, free).free[other] == view.free[other],
        view.with(slot, free).cursor == view.cursor,
        view.scanned().free == view.free,
        view.scanned().cursor == (view.cursor as int + 1) % (usize::MAX + 1),
        view.any_free() <==> exists|s: int| 0 <= s < view.free.len() && #[trigger] view.free[s],
{
    if view.cursor == usize::MAX {
        lemma_mod_self_0(usize::MAX + 1);
    } else {
        lemma_small_mod((view.cursor + 1) as nat, (usize::MAX + 1) as nat);
    }
}

/// Marking a range marks each slot of it and no other.
pub proof fn law_range_marks(view: BitmapView, start: int, end: int, slot: int)
    requires
        0 <= slot < view.free.len(),
    ensures
        view.with_range(start, end).free.len() == view.free.len(),
        view.with_range(start, end).cursor == view.cursor,
        start <= slot < end ==> view.with_range(start, end).free[slot],
        slot < start || end <= slot ==> view.with_range(start, end).free[slot] == view.free[slot],
{
}

/// Every unit of the aligned run of order `order` that starts at `idx` runs of
/// that size is free.
pub open spec fn run_is_free(units: Seq<bool>, order: nat, idx: int) -> bool {
    &&& 0 <= idx
    &&& (idx + 1) * pow2(order) <= units.len()
    &&& forall|u: int| idx * pow2(order) <= u < (idx + 1) * pow2(order) ==> #[trigger] units[u]
}

/// A free block is an aligned run of free units that is not half of another
/// one, unless it is the whole region.
pub proof fn law_free_blocks_are_whole_runs(view: BlocksView, order: nat, idx: int)
    requires
        view.wf(),
        order <= view.max_order,
    ensures
        crate::blocks::covered(view.units, order, idx) <==> run_is_free(view.units, order, idx),
        crate::blocks::free_block(view.units, view.max_order, order, idx) <==> run_is_free(
            view.units,
            order,
            idx,
        ) && (order == view.max_order || !run_is_free(view.units, order + 1, idx / 2)),
{
    lemma_runs(order, idx);
    lemma_runs(order + 1, idx / 2);
}

proof fn lemma_runs(order: nat, idx: int)
    ensures
        crate::blocks::block_lo(order, idx) == idx * pow2(order),
        crate::blocks::block_hi(order, idx) == (idx + 1) * pow2(order),
{
    lemma_mul_is_distributive_add_other_way(pow2(order) as int, idx, 1);
}

/// What a buddy arena was built with stays the same.
pub open spec fn same_buddy_make(a: BuddyView, b: BuddyView) -> bool {
    &&& b.total_size == a.total_size
    &&& b.min_block_size == a.min_block_size
    &&& b.blocks.max_order == a.blocks.max_order
    &&& b.blocks.units.len() == a.blocks.units.len()
    &&& b.auto_spill == a.auto_spill
    &&& b.cap_capacity == a.cap_capacity
    &&& b.init_policy == a.init_policy
    &&& b.memory.len() == a.memory.len()
    &&& b.metrics.bytes_reserved == a.metrics.bytes_reserved
}

/// A request that is served gets an aligned run of units that was free and is
/// taken; no other unit changes. The run holds the request, and is the least
/// block or less than twice the request. Its bytes are zero under the zero
/// policy and otherwise left as they were, and no other byte changes. One more
/// allocation is counted, and the bytes of the run are live.
pub proof fn law_block_allocation_effects(
    pre: BuddyView,
    post: BuddyView,
    len: nat,
    order: nat,
    idx: int,
    u: int,
    i: int,
)
    requires
        pre.inv(),
        pre.grants(len, order, idx, post),
    ensures
        ({
            let size = pre.min_block_size * pow2(order);
            &&& order <= pre.blocks.max_order
            &&& run_is_free(pre.blocks.units, order, idx)
            &&& idx * pow2(order) <= u < (idx + 1) * pow2(order) ==> !post.blocks.units[u]
            &&& 0 <= u < pre.blocks.units.len() && !(idx * pow2(order) <= u < (idx + 1) * pow2(
                order,
            )) ==> post.blocks.units[u] == pre.blocks.units[u]
            &&& same_buddy_make(pre, post)
            &&& len <= size
            &&& order == 0 || size < 2 * len
            &&& pre.init_policy == InitPolicy::Uninit ==> post.memory == pre.memory
            &&& pre.init_policy == InitPolicy::Zero && idx * size <= i < idx * size + size
                ==> post.memory[i] == 0
            &&& 0 <= i < pre.memory.len() && !(idx * size <= i < idx * size + size)
                ==> post.memory[i] == pre.memory[i]
            &&& post.metrics.allocations_ok == pre.metrics.allocations_ok.wrapping_add(1)
            &&& post.metrics.bytes_live == pre.metrics.bytes_live + size
            &&& post.metrics.allocations_failed == pre.metrics.allocations_failed
            &&& post.metrics.frees == pre.metrics.frees
            &&& post.metrics.frozen == pre.metrics.frozen
            &&& post.metrics.spills == pre.metrics.spills
            &&& post.metrics.coalesces == pre.metrics.coalesces
        }),
{
    reveal(is_pow2);
    crate::buddy::lemma_granted(pre, len, order, idx, post);
    crate::buddy::lemma_block_bounds(pre, order, idx);
    lemma_runs(order, idx);
    crate::laws::law_blocks_fit_requests(pre, len, order);
    if pre.block_size(order) == pre.min_block_size {
        lemma_order_of_least(pre.min_block_size as int, order);
    }
    crate::bits::lemma_count_range(
        pre.blocks.units,
        post.blocks.units,
        idx * pow2(order),
        (idx + 1) * pow2(order),
        false,
    );
    lemma_mul_is_distributive_add(
        pre.min_block_size as int,
        pre.taken_units(),
        pow2(order) as int,
    );
}

proof fn lemma_order_of_least(m: int, order: nat)
    requires
        m > 0,
        m * pow2(order) == m,
    ensures
        order == 0,
{
    if order > 0 {
        crate::bits::lemma_pow2_le(1, order);
        crate::bits::lemma_pow2_step(0);
        assert(m * pow2(order) >= 2 * m) by (nonlinear_arith)
            requires
                pow2(order) >= 2,
                m > 0,
        ;
    }
}

/// A served request is cut from the smallest free block that is large enough:
/// it is the first part of that block, and one split is counted for each
/// halving.
pub proof fn law_allocation_splits_the_smallest_block(
    pre: BuddyView,
    post: BuddyView,
    len: nat,
    order: nat,
    idx: int,
)
    requires
        pre.inv(),
        pre.grants(len, order, idx, post),
    ensures
        exists|source: nat, j: int|
            {
                &&& order <= source <= pre.blocks.max_order
                &&& #[trigger] crate::blocks::free_block(
                    pre.blocks.units,
                    pre.blocks.max_order,
                    source,
                    j,
                )
                &&& idx * pow2(order) == j * pow2(source)
                &&& pre.blocks.order_view(source).picks(j)
                &&& post.metrics.splits == pre.metrics.splits.wrapping_add((source - order) as u64)
                &&& forall|o: nat, k: int|
                    order <= o < source ==> !#[trigger] crate::blocks::free_block(
                        pre.blocks.units,
                        pre.blocks.max_order,
                        o,
                        k,
                    )
            },
{
    let (source, j) = choose|source: nat, j: int| pre.cut_from(order, idx, source, j, post);
    let units = pre.blocks.units;
    let max = pre.blocks.max_order;
    assert(pre.blocks.order_view(source).free[j]);
    assert(crate::blocks::free_block(units, max, source, j));
    crate::blocks::lemma_first_part(source, j, order);
    assert forall|o: nat, k: int| order <= o < source implies !#[trigger] crate::blocks::free_block(
        units,
        max,
        o,
        k,
    ) by {
        assert(!pre.blocks.any_free(o));
        if crate::blocks::free_block(units, max, o, k) {
            crate::blocks::lemma_index_in_region(max, o, k);
            assert(pre.blocks.order_view(o).free[k]);
        }
    }
}

/// A refused request finds no aligned run of free units that is large enough,
/// changes no unit and no byte, and is counted as refused and as nothing else.
pub proof fn law_block_refusal_effects(
    pre: BuddyView,
    post: BuddyView,
    len: nat,
    order: nat,
    idx: int,
)
    requires
        pre.inv(),
        pre.refuses(len, post),
    ensures
        order <= pre.blocks.max_order && run_is_free(pre.blocks.units, order, idx)
            ==> pre.min_block_size * pow2(order) < len,
        post.blocks.units == pre.blocks.units,
        post.memory == pre.memory,
        same_buddy_make(pre, post),
        post.metrics == (crate::metrics::MetricsState {
            allocations_failed: pre.metrics.allocations_failed.wrapping_add(1),
            ..pre.metrics
        }),
{
    reveal(is_pow2);
    if order <= pre.blocks.max_order && run_is_free(pre.blocks.units, order, idx) && len
        <= pre.min_block_size * pow2(order) {
        let want = crate::laws::lemma_order_of_request(pre, len, order);
        lemma_runs(order, idx);
        let m = pre.min_block_size as int;
        let p = pow2(want) as int;
        let q = pow2(pre.blocks.max_order) as int;
        crate::bits::lemma_pow2_le(want, pre.blocks.max_order);
        assert(m * p <= m * q) by (nonlinear_arith)
            requires
                p <= q,
                0 < m,
        ;
        let refused = choose|o: nat| #[trigger]
            pre.wants(len, o) && pre.blocks.starved(o) && post == pre.refused(o);
        crate::async_alloc::lemma_one_order(pre, len, want, refused);
        crate::blocks::law_starved_means_no_room(pre.blocks, want);
        crate::blocks::lemma_first_part(order, idx, want);
        let first = idx * pow2((order - want) as nat);
        assert(crate::blocks::covered(pre.blocks.units, want, first));
    }
}

/// A block that comes back was taken as a whole and is free; no other unit
/// changes. Its bytes are zero under the zero policy and otherwise left as they
/// were, and no other byte changes. One more release is counted, and its bytes
/// are no longer live.
pub proof fn law_block_release_effects(view: BuddyView, order: nat, idx: int, u: int, i: int)
    requires
        view.inv(),
        view.taken(order, idx),
    ensures
        ({
            let after = view.released(order, idx);
            let size = view.min_block_size * pow2(order);
            &&& order <= view.blocks.max_order
            &&& run_is_free(after.blocks.units, order, idx)
            &&& idx * pow2(order) <= u < (idx + 1) * pow2(order) ==> !view.blocks.units[u]
            &&& 0 <= u < view.blocks.units.len() && !(idx * pow2(order) <= u < (idx + 1) * pow2(
                order,
            )) ==> after.blocks.units[u] == view.blocks.units[u]
            &&& same_buddy_make(view, after)
            &&& view.init_policy == InitPolicy::Uninit ==> after.memory == view.memory
            &&& view.init_policy == InitPolicy::Zero && idx * size <= i < idx * size + size
                ==> after.memory[i] == 0
            &&& 0 <= i < view.memory.len() && !(idx * size <= i < idx * size + size)
                ==> after.memory[i] == view.memory[i]
            &&& after.metrics.frees == view.metrics.frees.wrapping_add(1)
            &&& after.metrics.bytes_live == view.metrics.bytes_live - size
            &&& after.metrics.allocations_ok == view.metrics.allocations_ok
            &&& after.metrics.allocations_failed == view.metrics.allocations_failed
            &&& after.metrics.frozen == view.metrics.frozen
            &&& after.metrics.spills == view.metrics.spills
            &&& after.metrics.splits == view.metrics.splits
        }),
{
    let after = view.released(order, idx);
    crate::buddy::lemma_block_bounds(view, order, idx);
    crate::buddy::lemma_released(view, order, idx);
    lemma_runs(order, idx);
    crate::bits::lemma_count_range(
        view.blocks.units,
        after.blocks.units,
        idx * pow2(order),
        (idx + 1) * pow2(order),
        true,
    );
    lemma_mul_is_distributive_sub(
        view.min_block_size as int,
        view.taken_units(),
        pow2(order) as int,
    );
}

/// A released block merges as far as it can: the block around it of the merged
/// order is free as a whole, the next larger one is not, and one merge is
/// counted for each doubling.
pub proof fn law_release_merges_as_far_as_it_can(view: BuddyView, order: nat, idx: int)
    requires
        view.inv(),
        view.taken(order, idx),
    ensures
        ({
            let after = view.released(order, idx);
            let merged = view.merged_order(order, idx);
            let around = idx / pow2((merged - order) as nat) as int;
            &&& order <= merged <= view.blocks.max_order
            &&& run_is_free(after.blocks.units, merged, around)
            &&& merged == view.blocks.max_order || !run_is_free(
                after.blocks.units,
                merged + 1,
                around / 2,
            )
            &&& after.metrics.coalesces == view.metrics.coalesces.wrapping_add(
                (merged - order) as u64,
            )
        }),
{
    let after = view.released(order, idx);
    let merged = view.merged_order(order, idx);
    crate::buddy::lemma_block_bounds(view, order, idx);
    let around = crate::blocks::lemma_merged_run(view.blocks, order, idx);
    lemma_runs(merged, around);
    lemma_runs(merged + 1, around / 2);
}

/// The buffer on a block starts empty at the block and holds the request: as
/// many bytes as were asked for where the geometry caps the capacity, else all
/// of the block.
pub proof fn law_block_buffers_hold_the_request(
    pre: BuddyView,
    post: BuddyView,
    len: nat,
    order: usize,
    idx: usize,
)
    requires
        pre.inv(),
        pre.grants(len, order as nat, idx as int, post),
    ensures
        ({
            let b = pre.buffer_on(order, idx, len);
            let size = pre.min_block_size * pow2(order as nat);
            &&& len <= b.capacity <= size
            &&& pre.cap_capacity ==> b.capacity == len
            &&& !pre.cap_capacity ==> b.capacity == size
            &&& b.allocation == (AllocationKind::Buddy { order, block_idx: idx })
            &&& b.offset == idx * size
            &&& b.len == 0
            &&& b.spill is None
            &&& b.auto_spill == pre.auto_spill
        }),
{
    crate::buddy::lemma_granted(pre, len, order as nat, idx as int, post);
}

/// A new buddy arena has all units free, has counted nothing and has the bytes
/// and policies that it was given.
pub proof fn law_new_buddy_arena_is_empty(
    memory: Seq<u8>,
    min_block_size: nat,
    max_order: nat,
    auto_spill: bool,
    cap_capacity: bool,
    init_policy: InitPolicy,
    u: int,
)
    requires
        min_block_size * pow2(max_order) <= usize::MAX,
    ensures
        ({
            let new = BuddyView::fresh(
                memory,
                min_block_size,
                max_order,
                auto_spill,
                cap_capacity,
                init_policy,
            );
            &&& new.total_size == min_block_size * pow2(max_order)
            &&& new.min_block_size == min_block_size
            &&& new.blocks.max_order == max_order
            &&& new.blocks.units.len() == pow2(max_order)
            &&& 0 <= u < pow2(max_order) ==> new.blocks.units[u]
            &&& new.blocks.cursors.len() == max_order + 1
            &&& 0 <= u <= max_order ==> new.blocks.cursors[u] == 0
            &&& new.memory == memory
            &&& new.auto_spill == auto_spill
            &&& new.cap_capacity == cap_capacity
            &&& new.init_policy == init_policy
            &&& new.metrics.bytes_reserved == min_block_size * pow2(max_order)
            &&& new.metrics.bytes_live == 0
            &&& new.metrics.allocations_ok == 0
            &&& new.metrics.allocations_failed == 0
            &&& new.metrics.frees == 0
            &&& new.metrics.frozen == 0
            &&& new.metrics.spills == 0
            &&& new.metrics.splits == 0
            &&& new.metrics.coalesces == 0
        }),
{
}

/// A buddy arena lends a buffer its block: the block is live while all of its
/// units are taken, starts at a multiple of its size and is as long. Writing,
/// freezing, spilling and releasing change the bytes, the counter of their name
/// and the block, and nothing else.
pub proof fn law_buddy_arena_lends_blocks<M: Backing>(
    view: BuddyView,
    order: usize,
    idx: usize,
    at: int,
    data: Seq<u8>,
    u: int,
)
    requires
        view.inv(),
    ensures
        ({
            let a = AllocationKind::Buddy { order, block_idx: idx };
            let size = view.min_block_size * pow2(order as nat);
            &&& BuddyArena::<M>::region(view) == view.memory
            &&& BuddyArena::<M>::live(view, a) ==> {
                &&& order <= view.blocks.max_order
                &&& (idx + 1) * pow2(order as nat) <= view.blocks.units.len()
                &&& idx * pow2(order as nat) <= u < (idx + 1) * pow2(order as nat)
                    ==> !view.blocks.units[u]
            }
            &&& BuddyArena::<M>::start(view, a) == idx * size
            &&& BuddyArena::<M>::extent(view, a) == size
            &&& BuddyArena::<M>::written(view, at, data) == (BuddyView {
                memory: crate::memory::overwrite(view.memory, at, data),
                ..view
            })
            &&& BuddyArena::<M>::released(view, a) == view.released(order as nat, idx as int)
            &&& BuddyArena::<M>::frozen(view) == (BuddyView {
                metrics: crate::metrics::MetricsState {
                    frozen: view.metrics.frozen.wrapping_add(1),
                    ..view.metrics
                },
                ..view
            })
            &&& BuddyArena::<M>::spilled(view) == (BuddyView {
                metrics: crate::metrics::MetricsState {
                    spills: view.metrics.spills.wrapping_add(1),
                    ..view.metrics
                },
                ..view
            })
        }),
{
    lemma_runs(order as nat, idx as int);
}

/// The largest free block is the largest aligned run of free units, and 0 where
/// no unit is free.
pub proof fn law_largest_free_block_is_the_largest_run(
    view: BuddyView,
    largest: int,
    order: nat,
    idx: int,
)
    requires
        view.inv(),
        view.is_largest_free(largest),
        order <= view.blocks.max_order,
    ensures
        run_is_free(view.blocks.units, order, idx) ==> view.min_block_size * pow2(order) <= largest,
        largest > 0 ==> exists|o: nat, k: int|
            o <= view.blocks.max_order && #[trigger] run_is_free(view.blocks.units, o, k) && largest
                == view.min_block_size * pow2(o),
{
    reveal(is_pow2);
    let units = view.blocks.units;
    let max = view.blocks.max_order;
    if run_is_free(units, order, idx) {
        lemma_runs(order, idx);
        assert(crate::blocks::covered(units, order, idx));
        crate::blocks::law_starved_means_no_room(view.blocks, order);
        let o = choose|o: nat| order <= o <= max && #[trigger] view.blocks.any_free(o);
        assert(!view.blocks.starved(0));
        let k = choose|k: nat|
            {
                &&& #[trigger] view.blocks.any_free(k)
                &&& largest == view.block_size(k)
                &&& forall|o: nat| k < o <= max ==> !#[trigger] view.blocks.any_free(o)
            };
        crate::bits::lemma_pow2_le(order, k);
        let m = view.min_block_size as int;
        let p = pow2(order) as int;
        let q = pow2(k) as int;
        assert(m * p <= m * q) by (nonlinear_arith)
            requires
                p <= q,
                0 < m,
        ;
    }
    if largest > 0 {
        let k = choose|k: nat|
            {
                &&& #[trigger] view.blocks.any_free(k)
                &&& largest == view.block_size(k)
                &&& forall|o: nat| k < o <= max ==> !#[trigger] view.blocks.any_free(o)
            };
        let j = choose|j: int|
            0 <= j < view.blocks.order_view(k).free.len() && #[trigger] view.blocks.order_view(
                k,
            ).free[j];
        lemma_runs(k, j);
        assert(run_is_free(units, k, j));
    }
}

/// The order of a request is that of the least block that holds it.
pub proof fn law_orders_hold_requests(view: BuddyView, len: nat, order: nat)
    requires
        view.inv(),
        view.wants(len, order),
    ensures
        order <= view.blocks.max_order,
        len <= view.min_block_size * pow2(order),
        order == 0 || view.min_block_size * pow2(order) < 2 * len,
{
    reveal(is_pow2);
    crate::laws::law_blocks_fit_requests(view, len, order);
    if view.block_size(order) == view.min_block_size {
        lemma_order_of_least(view.min_block_size as int, order);
    }
}

/// A request exceeds the region as a block where it does so as it stands.
pub proof fn law_oversized_requests(view: BuddyView, len: nat)
    requires
        view.inv(),
    ensures
        view.request_size(len) > view.total_size <==> len > view.total_size,
{
    reveal(is_pow2);
    let max = view.blocks.max_order;
    let m = view.min_block_size as int;
    let q = pow2(max) as int;
    if len <= view.total_size {
        let want = crate::laws::lemma_order_of_request(view, len, max);
        crate::bits::lemma_pow2_le(want, max);
        let p = pow2(want) as int;
        assert(m * p <= m * q) by (nonlinear_arith)
            requires
                p <= q,
                0 < m,
        ;
    } else {
        let floor = if len > view.min_block_size {
            len
        } else {
            view.min_block_size
        };
        crate::bits::lemma_ceil_pow2(floor);
    }
}

/// Taking a block out of the pool marks its units as taken and no other;
/// putting it back marks them as free and no other.
pub proof fn law_pool_changes_only_the_block(view: BlocksView, order: nat, idx: int, u: int)
    requires
        0 <= u < view.units.len(),
    ensures
        ({
            let inside = idx * pow2(order) <= u < (idx + 1) * pow2(order);
            let out = view.without(order, idx);
            let back = view.with(order, idx);
            &&& out.units.len() == view.units.len()
            &&& out.units[u] == (view.units[u] && !inside)
            &&& out.max_order == view.max_order
            &&& out.cursors == view.cursors
            &&& back.units.len() == view.units.len()
            &&& back.units[u] == (view.units[u] || inside)
            &&& back.max_order == view.max_order
            &&& back.cursors == view.cursors
        }),
{
    lemma_runs(order, idx);
}

/// The pool finds what is free: the bitmap of an order has an entry for each
/// block of that order, which tells whether the block is free; an order has a
/// free block where some entry does; and a search looks at each order from the
/// wanted one on.
pub proof fn law_pool_finds_free_blocks(
    view: BlocksView,
    target: nat,
    order: nat,
    idx: int,
    source: nat,
)
    requires
        order <= view.max_order,
        target <= order,
        0 <= idx < pow2((view.max_order - order) as nat),
    ensures
        view.order_view(order).free.len() == pow2((view.max_order - order) as nat),
        view.order_view(order).free[idx] == crate::blocks::free_block(
            view.units,
            view.max_order,
            order,
            idx,
        ),
        view.order_view(order).cursor == view.cursors[order as int],
        view.order_view(order).free[idx] ==> view.any_free(order) && !view.starved(target),
        view.any_free(order) ==> exists|i: int|
            0 <= i < pow2((view.max_order - order) as nat)
                && #[trigger] crate::blocks::free_block(view.units, view.max_order, order, i),
        view.starved(target) ==> !view.any_free(order),
        !view.starved(target) ==> exists|o: nat|
            target <= o <= view.max_order && #[trigger] view.any_free(o),
        view.serves(target, source) ==> target <= source <= view.max_order && view.any_free(source),
        view.serves(target, source) && view.any_free(order) ==> source <= order,
{
    if view.any_free(order) {
        let i = choose|i: int|
            0 <= i < view.order_view(order).free.len() && #[trigger] view.order_view(order).free[i];
        assert(crate::blocks::free_block(view.units, view.max_order, order, i));
    }
    if view.order_view(order).free[idx] {
        assert(view.any_free(order));
    }
}

/// A search moves the cursor of each order that it looks at on by one and
/// changes nothing else.
pub proof fn law_search_moves_cursors(view: BlocksView, from: int, to: int, o: int)
    requires
        0 <= o < view.cursors.len(),
        view.cursors[o] <= usize::MAX,
    ensures
        view.scanned(from, to).units == view.units,
        view.scanned(from, to).max_order == view.max_order,
        view.scanned(from, to).cursors.len() == view.cursors.len(),
        from <= o < to ==> view.scanned(from, to).cursors[o] == (view.cursors[o] as int + 1) % (
        usize::MAX + 1),
        o < from || to <= o ==> view.scanned(from, to).cursors[o] == view.cursors[o],
{
    if view.cursors[o] == usize::MAX {
        lemma_mod_self_0(usize::MAX + 1);
    } else {
        lemma_small_mod((view.cursors[o] + 1) as nat, (usize::MAX + 1) as nat);
    }
}

/// A search of a fixed arena moves the cursor of its slots on by one, whether
/// it finds a slot or not; releasing a slot leaves the cursor alone.
pub proof fn law_slot_search_moves_the_cursor(view: FixedView, slot: int)
    requires
        view.slots.cursor <= usize::MAX,
        view.slots.free.len() > 0,
    ensures
        view.allocated(slot).slots.cursor == (view.slots.cursor as int + 1) % (usize::MAX + 1),
        view.refused().slots.cursor == (view.slots.cursor as int + 1) % (usize::MAX + 1),
        view.released(slot).slots.cursor == view.slots.cursor,
{
    if view.slots.cursor == usize::MAX {
        lemma_mod_self_0(usize::MAX + 1);
    } else {
        lemma_small_mod((view.slots.cursor + 1) as nat, (usize::MAX + 1) as nat);
    }
}

/// A request that is served moves the cursor of the order that it was cut from
/// on by one. One that finds no block moves those of its own order and of all
/// larger ones. One that exceeds the region, and a release, move none.
pub proof fn law_block_search_moves_cursors(
    view: BuddyView,
    order: nat,
    idx: int,
    source: nat,
    o: int,
)
    requires
        view.inv(),
        0 <= o <= view.blocks.max_order,
        view.blocks.cursors[o] <= usize::MAX,
    ensures
        ({
            let c = view.blocks.cursors[o];
            let on = (c as int + 1) % (usize::MAX + 1);
            let served = view.allocated(order, idx, source).blocks.cursors[o];
            let refused = view.refused(order).blocks.cursors[o];
            &&& o == source ==> served == on
            &&& o != source ==> served == c
            &&& order <= o ==> refused == on
            &&& o < order ==> refused == c
            &&& view.refused_oversize().blocks.cursors[o] == c
            &&& view.released(order, idx).blocks.cursors[o] == c
        }),
{
    let max = view.blocks.max_order;
    law_search_moves_cursors(view.blocks, source as int, (source + 1) as int, o);
    law_search_moves_cursors(view.blocks, order as int, (max + 1) as int, o);
}

} // verus!
