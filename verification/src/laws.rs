//! What holds of the arenas across operations.
use vstd::prelude::*;
use vstd::arithmetic::power2::*;
use vstd::arithmetic::mul::*;
use crate::allocation::{AllocationKind, ArenaRef};
use crate::arena::FixedArena;
use crate::buddy::BuddyArena;
use crate::config::InitPolicy;
use crate::memory::Backing;

verus! {

/// Writing into one allocation changes no byte of another and ends neither.
pub proof fn law_writes_stay_apart<A: ArenaRef>(
    state: A::State,
    a: AllocationKind,
    b: AllocationKind,
    at: int,
    data: Seq<u8>,
    from: int,
    n: int,
)
    requires
        crate::allocation::apart::<A>(state, a, b),
        A::start(state, a) <= at,
        at + data.len() <= A::start(state, a) + A::extent(state, a),
        0 <= A::start(state, b) <= from,
        0 <= n,
        from + n <= A::start(state, b) + A::extent(state, b) <= A::region(state).len(),
    ensures
        crate::allocation::bytes_at::<A>(A::written(state, at, data), from, n)
            == crate::allocation::bytes_at::<A>(state, from, n),
        A::live(A::written(state, at, data), a) == A::live(state, a),
        A::live(A::written(state, at, data), b) == A::live(state, b),
{
    A::lemma_frame(state, a, a, at, data);
    A::lemma_frame(state, a, b, at, data);
    assert(crate::allocation::bytes_at::<A>(A::written(state, at, data), from, n)
        =~= crate::allocation::bytes_at::<A>(state, from, n));
}

/// What was written is what is read back.
pub proof fn law_reads_give_back_writes<A: ArenaRef>(state: A::State, at: int, data: Seq<u8>)
    requires
        0 <= at,
        at + data.len() <= A::region(state).len(),
    ensures
        crate::allocation::bytes_at::<A>(A::written(state, at, data), at, data.len() as int)
            == data,
{
    let any = AllocationKind::Fixed { slot_idx: 0 };
    A::lemma_frame(state, any, any, at, data);
    assert(crate::allocation::bytes_at::<A>(A::written(state, at, data), at, data.len() as int)
        =~= data);
}

/// Two slots that are handed out share no byte.
pub proof fn law_live_slots_are_apart<M: Backing>(
    view: crate::arena::FixedView,
    a: usize,
    b: usize,
)
    requires
        view.inv(),
        view.taken(a as int),
        view.taken(b as int),
        a != b,
    ensures
        crate::allocation::apart::<FixedArena<M>>(
            view,
            AllocationKind::Fixed { slot_idx: a },
            AllocationKind::Fixed { slot_idx: b },
        ),
{
    crate::arena::lemma_slots_apart(view, a as int, b as int);
    crate::arena::lemma_slot_bounds(view, a as int);
    crate::arena::lemma_slot_bounds(view, b as int);
}

/// Handing out a slot leaves every slot that is out already live and its
/// bytes unchanged.
pub proof fn law_allocating_keeps_live_slots(
    view: crate::arena::FixedView,
    slot: int,
    other: int,
    i: int,
)
    requires
        view.inv(),
        view.slots.picks(slot),
        view.taken(other),
        view.slot_start(other) <= i < view.slot_start(other + 1),
    ensures
        other != slot,
        view.allocated(slot).taken(other),
        view.allocated(slot).taken(slot),
        view.allocated(slot).memory[i] == view.memory[i],
{
    crate::arena::lemma_slots_apart(view, slot, other);
    crate::arena::lemma_slot_bounds(view, slot);
    crate::arena::lemma_slot_bounds(view, other);
}

/// Taking a slot back leaves every other slot live and its bytes unchanged,
/// and makes the slot available.
pub proof fn law_releasing_keeps_live_slots(
    view: crate::arena::FixedView,
    slot: int,
    other: int,
    i: int,
)
    requires
        view.inv(),
        view.taken(slot),
        view.taken(other),
        other != slot,
        view.slot_start(other) <= i < view.slot_start(other + 1),
    ensures
        view.released(slot).taken(other),
        view.released(slot).slots.free[slot],
        view.released(slot).memory[i] == view.memory[i],
{
    crate::arena::lemma_slots_apart(view, slot, other);
    crate::arena::lemma_slot_bounds(view, slot);
    crate::arena::lemma_slot_bounds(view, other);
}

/// After a release the next allocation succeeds.
pub proof fn law_released_slot_is_available(view: crate::arena::FixedView, slot: int)
    requires
        view.inv(),
        view.taken(slot),
    ensures
        view.released(slot).slots.any_free(),
{
    assert(view.released(slot).slots.free[slot]);
}

/// Allocation is refused exactly when every slot is handed out.
pub proof fn law_full_means_all_slots_taken(view: crate::arena::FixedView)
    requires
        view.inv(),
    ensures
        !view.slots.any_free() <==> view.taken_count() == view.slot_count,
        view.taken_count() <= view.slot_count,
{
    crate::bits::lemma_count_bounds(view.slots.free);
}

/// Each allocation takes one slot more, and each release one less.
pub proof fn law_slots_are_counted(view: crate::arena::FixedView, slot: int)
    requires
        view.inv(),
    ensures
        view.slots.picks(slot) ==> view.allocated(slot).taken_count() == view.taken_count() + 1,
        view.taken(slot) ==> view.released(slot).taken_count() == view.taken_count() - 1,
{
    if view.slots.picks(slot) {
        crate::bits::lemma_count_update(view.slots.free, slot, false);
    }
    if view.taken(slot) {
        crate::bits::lemma_count_update(view.slots.free, slot, true);
    }
}

/// Releasing a slot just handed out restores which slots are free and how
/// many bytes are live.
pub proof fn law_slot_release_undoes_allocation(view: crate::arena::FixedView, slot: int)
    requires
        view.inv(),
        view.slots.picks(slot),
    ensures
        view.allocated(slot).released(slot).slots.free == view.slots.free,
        view.allocated(slot).released(slot).metrics.bytes_live == view.metrics.bytes_live,
        view.allocated(slot).released(slot).inv(),
{
    crate::arena::lemma_allocated(view, slot);
    crate::arena::lemma_released(view.allocated(slot), slot);
    assert(view.allocated(slot).released(slot).slots.free =~= view.slots.free);
}

/// Under the zero policy a slot holds zeros only when it is handed out, and
/// again when it is back.
pub proof fn law_zero_policy_clears_slots(view: crate::arena::FixedView, slot: int, i: int)
    requires
        view.inv(),
        view.init_policy == InitPolicy::Zero,
        0 <= slot < view.slot_count,
        view.slot_start(slot) <= i < view.slot_start(slot + 1),
    ensures
        view.allocated(slot).memory[i] == 0,
        view.released(slot).memory[i] == 0,
{
    crate::arena::lemma_slot_bounds(view, slot);
}

/// Live bytes are the capacity of the slots that are out: 0 exactly when none
/// is, and never more than was reserved.
pub proof fn law_live_bytes_of_slots(view: crate::arena::FixedView)
    requires
        view.inv(),
    ensures
        view.metrics.bytes_live == view.slot_capacity * view.taken_count(),
        view.metrics.bytes_live == 0 <==> view.taken_count() == 0,
        view.metrics.bytes_live <= view.metrics.bytes_reserved,
{
    crate::bits::lemma_count_bounds(view.slots.free);
    let c = view.slot_capacity as int;
    let t = view.taken_count();
    let n = view.slot_count as int;
    assert(c * t <= n * c && (c * t == 0 <==> t == 0)) by (nonlinear_arith)
        requires
            1 <= c,
            0 <= t <= n,
    ;
}

/// A block that is handed out shares no unit with any block that is out
/// already.
pub proof fn law_new_block_is_apart<M: Backing>(
    pre: crate::buddy::BuddyView,
    post: crate::buddy::BuddyView,
    len: nat,
    order: usize,
    idx: usize,
    other_order: usize,
    other_idx: usize,
)
    requires
        pre.inv(),
        pre.grants(len, order as nat, idx as int, post),
        pre.taken(other_order as nat, other_idx as int),
    ensures
        !crate::blocks::overlap(order as nat, idx as int, other_order as nat, other_idx as int),
        crate::allocation::apart::<BuddyArena<M>>(
            post,
            AllocationKind::Buddy { order, block_idx: idx },
            AllocationKind::Buddy { order: other_order, block_idx: other_idx },
        ),
        post.taken(order as nat, idx as int),
        post.taken(other_order as nat, other_idx as int),
{
    let o = order as nat;
    let p = other_order as nat;
    crate::buddy::lemma_granted(pre, len, o, idx as int, post);
    crate::buddy::lemma_block_bounds(pre, o, idx as int);
    crate::buddy::lemma_block_bounds(pre, p, other_idx as int);
    crate::buddy::lemma_block_bounds(post, o, idx as int);
    crate::buddy::lemma_block_bounds(post, p, other_idx as int);
    lemma_free_and_held_are_apart(
        pre.blocks.units,
        o,
        idx as int,
        p,
        other_idx as int,
    );
    let m = pre.min_block_size as int;
    let a_hi = crate::blocks::block_hi(o, idx as int);
    let a_lo = crate::blocks::block_lo(o, idx as int);
    let b_hi = crate::blocks::block_hi(p, other_idx as int);
    let b_lo = crate::blocks::block_lo(p, other_idx as int);
    if a_hi <= b_lo {
        lemma_mul_inequality(a_hi, b_lo, m);
    } else {
        lemma_mul_inequality(b_hi, a_lo, m);
    }
    assert forall|u: int| b_lo <= u < b_hi implies !#[trigger] post.blocks.units[u] by {
        assert(!pre.blocks.units[u]);
    }
}

pub(crate) proof fn lemma_free_and_held_are_apart(units: Seq<bool>, o: nat, i: int, p: nat, j: int)
    requires
        crate::blocks::covered(units, o, i),
        crate::blocks::held(units, p, j),
    ensures
        !crate::blocks::overlap(o, i, p, j),
{
    if crate::blocks::overlap(o, i, p, j) {
        let u = if crate::blocks::block_lo(o, i) >= crate::blocks::block_lo(p, j) {
            crate::blocks::block_lo(o, i)
        } else {
            crate::blocks::block_lo(p, j)
        };
        lemma_pow2_pos(o);
        lemma_pow2_pos(p);
        assert(units[u]);
        assert(!units[u]);
    }
}

/// Handing out a block changes no byte of a block that is out already.
pub proof fn law_allocating_keeps_live_blocks(
    pre: crate::buddy::BuddyView,
    post: crate::buddy::BuddyView,
    len: nat,
    order: nat,
    idx: int,
    other_order: nat,
    other_idx: int,
    i: int,
)
    requires
        pre.inv(),
        pre.grants(len, order, idx, post),
        pre.taken(other_order, other_idx),
        pre.block_start(other_order, other_idx) <= i < pre.block_start(other_order, other_idx)
            + pre.block_size(other_order),
    ensures
        post.memory[i] == pre.memory[i],
{
    crate::buddy::lemma_granted(pre, len, order, idx, post);
    crate::buddy::lemma_block_bounds(pre, order, idx);
    crate::buddy::lemma_block_bounds(pre, other_order, other_idx);
    lemma_free_and_held_are_apart(pre.blocks.units, order, idx, other_order, other_idx);
    lemma_bytes_apart(pre, order, idx, other_order, other_idx, i);
}

pub(crate) proof fn lemma_bytes_apart(
    view: crate::buddy::BuddyView,
    o: nat,
    a: int,
    p: nat,
    b: int,
    i: int,
)
    requires
        view.inv(),
        o <= view.blocks.max_order,
        p <= view.blocks.max_order,
        crate::blocks::in_region(view.blocks.units.len(), o, a),
        crate::blocks::in_region(view.blocks.units.len(), p, b),
        !crate::blocks::overlap(o, a, p, b),
        view.block_start(p, b) <= i < view.block_start(p, b) + view.block_size(p),
    ensures
        0 <= i < view.memory.len(),
        !(view.block_start(o, a) <= i < view.block_start(o, a) + view.block_size(o)),
{
    reveal(is_pow2);
    crate::buddy::lemma_block_bounds(view, o, a);
    crate::buddy::lemma_block_bounds(view, p, b);
    crate::buddy::lemma_unit_of(
        view,
        crate::blocks::block_lo(o, a),
        crate::blocks::block_hi(o, a),
        i,
    );
    crate::buddy::lemma_unit_of(
        view,
        crate::blocks::block_lo(p, b),
        crate::blocks::block_hi(p, b),
        i,
    );
}

/// Taking a block back leaves every block apart from it handed out and its
/// bytes unchanged.
pub proof fn law_releasing_keeps_live_blocks(
    view: crate::buddy::BuddyView,
    order: nat,
    idx: int,
    other_order: nat,
    other_idx: int,
    i: int,
)
    requires
        view.inv(),
        view.taken(order, idx),
        view.taken(other_order, other_idx),
        !crate::blocks::overlap(order, idx, other_order, other_idx),
        view.block_start(other_order, other_idx) <= i < view.block_start(other_order, other_idx)
            + view.block_size(other_order),
    ensures
        view.released(order, idx).taken(other_order, other_idx),
        view.released(order, idx).memory[i] == view.memory[i],
{
    crate::buddy::lemma_block_bounds(view, order, idx);
    crate::buddy::lemma_block_bounds(view, other_order, other_idx);
    lemma_bytes_apart(view, order, idx, other_order, other_idx, i);
    let after = view.released(order, idx).blocks.units;
    assert forall|u: int|
        crate::blocks::block_lo(other_order, other_idx) <= u < crate::blocks::block_hi(
            other_order,
            other_idx,
        ) implies !#[trigger] after[u] by {
        assert(!view.blocks.units[u]);
    }
}

/// A granted block holds the request, and is the least block or smaller than
/// twice the request.
pub proof fn law_blocks_fit_requests(view: crate::buddy::BuddyView, len: nat, order: nat)
    requires
        view.inv(),
        view.wants(len, order),
    ensures
        len <= view.block_size(order),
        view.block_size(order) == view.min_block_size || view.block_size(order) < 2 * len,
{
    reveal(is_pow2);
    let floor = if len > view.min_block_size {
        len
    } else {
        view.min_block_size
    };
    crate::bits::lemma_ceil_pow2(floor);
    if len <= view.min_block_size {
        crate::bits::lemma_ceil_pow2_fixed(view.min_block_size);
    }
}

/// A request that the region can hold is refused exactly when no aligned run
/// of free units is large enough for it.
pub proof fn law_refused_means_no_room(view: crate::buddy::BuddyView, len: nat, order: nat)
    requires
        view.inv(),
        view.wants(len, order),
    ensures
        view.blocks.starved(order) <==> forall|i: int|
            !#[trigger] crate::blocks::covered(view.blocks.units, order, i),
{
    crate::blocks::law_starved_means_no_room(view.blocks, order);
}

/// After a release, a request of the same size succeeds.
pub proof fn law_released_block_is_available(
    view: crate::buddy::BuddyView,
    order: nat,
    idx: int,
)
    requires
        view.inv(),
        view.taken(order, idx),
    ensures
        !view.released(order, idx).blocks.starved(order),
{
    let after = view.released(order, idx);
    crate::buddy::lemma_block_bounds(view, order, idx);
    crate::buddy::lemma_released(view, order, idx);
    assert(crate::blocks::covered(after.blocks.units, order, idx));
    crate::blocks::law_starved_means_no_room(after.blocks, order);
}

/// Releasing a block just handed out restores which units are free, and with
/// them every free block of every order, and how many bytes are live.
pub proof fn law_block_release_undoes_allocation(
    pre: crate::buddy::BuddyView,
    post: crate::buddy::BuddyView,
    len: nat,
    order: nat,
    idx: int,
)
    requires
        pre.inv(),
        pre.grants(len, order, idx, post),
    ensures
        post.released(order, idx).blocks.units == pre.blocks.units,
        post.released(order, idx).metrics.bytes_live == pre.metrics.bytes_live,
        post.released(order, idx).inv(),
{
    crate::buddy::lemma_granted(pre, len, order, idx, post);
    crate::buddy::lemma_released(post, order, idx);
    crate::buddy::lemma_block_bounds(pre, order, idx);
    assert(post.released(order, idx).blocks.units =~= pre.blocks.units);
}

/// When nothing is handed out, the whole region is one free block again,
/// whatever was allocated and released before.
pub proof fn law_idle_region_is_one_block(
    view: crate::buddy::BuddyView,
    order: nat,
    idx: int,
)
    requires
        view.inv(),
        order <= view.blocks.max_order,
        view.metrics.bytes_live == 0,
    ensures
        crate::blocks::free_block(view.blocks.units, view.blocks.max_order, order, idx) <==> order
            == view.blocks.max_order && idx == 0,
{
    reveal(is_pow2);
    crate::bits::lemma_count_bounds(view.blocks.units);
    let m = view.min_block_size as int;
    let t = view.taken_units();
    assert(t == 0) by (nonlinear_arith)
        requires
            m * t == 0,
            0 < m,
            0 <= t,
    ;
    crate::blocks::law_all_free_is_one_block(view.blocks, order, idx);
}

/// Live bytes are the size of the blocks that are out, and never more than was
/// reserved.
pub proof fn law_live_bytes_of_blocks(view: crate::buddy::BuddyView)
    requires
        view.inv(),
    ensures
        view.metrics.bytes_live == view.min_block_size * view.taken_units(),
        view.metrics.bytes_live <= view.metrics.bytes_reserved,
{
    crate::bits::lemma_count_bounds(view.blocks.units);
    let m = view.min_block_size as int;
    let t = view.taken_units();
    let n = view.blocks.units.len() as int;
    assert(m * t <= m * n) by (nonlinear_arith)
        requires
            0 <= m,
            t <= n,
    ;
}

/// Under the zero policy a block holds zeros only when it is handed out, and
/// again when it is back.
pub proof fn law_zero_policy_clears_blocks(
    view: crate::buddy::BuddyView,
    order: nat,
    idx: int,
    source: nat,
    i: int,
)
    requires
        view.inv(),
        view.init_policy == InitPolicy::Zero,
        order <= view.blocks.max_order,
        crate::blocks::in_region(view.blocks.units.len(), order, idx),
        view.block_start(order, idx) <= i < view.block_start(order, idx) + view.block_size(order),
    ensures
        view.allocated(order, idx, source).memory[i] == 0,
        view.released(order, idx).memory[i] == 0,
{
    crate::buddy::lemma_block_bounds(view, order, idx);
}

/// A freed block wakes only waiters that it can serve: their request is of its
/// order or smaller.
pub proof fn law_wakes_can_be_served(
    arena: crate::buddy::BuddyView,
    waiters: crate::waiters::WaitersView,
    order: nat,
    idx: int,
    ranking: Seq<usize>,
    i: int,
)
    requires
        arena.inv(),
        arena.taken(order, idx),
        waiters.ranked(arena.merged_order(order, idx) as int, ranking),
        0 <= i < waiters.woken(ranking, 0).1.len(),
    ensures
        waiters.woken(ranking, 0).1[i].order <= arena.merged_order(order, idx),
        arena.merged_order(order, idx) <= arena.blocks.max_order,
        !arena.released(order, idx).blocks.starved(
            waiters.woken(ranking, 0).1[i].order as nat,
        ),
{
    let merged = arena.merged_order(order, idx);
    crate::waiters::law_wakes_follow_the_ranking(waiters, merged as int, ranking);
    let woken = waiters.woken(ranking, 0).1[i].order as nat;
    assert(waiters.runs(merged as int, woken as int));
    let k = crate::blocks::lemma_merged_block(arena.blocks, order, idx);
    let after = arena.released(order, idx);
    crate::buddy::lemma_released(arena, order, idx);
    crate::blocks::lemma_first_part(merged, k, woken);
    assert(crate::blocks::covered(
        after.blocks.units,
        woken,
        k * pow2((merged - woken) as nat),
    ));
    crate::blocks::law_starved_means_no_room(after.blocks, woken);
}

/// The free blocks and the blocks that are out make up the whole region: the
/// sizes of all free blocks and the live bytes add up to the total.
pub proof fn law_free_and_live_bytes_make_up_the_region(view: crate::buddy::BuddyView)
    requires
        view.inv(),
    ensures
        view.free_bytes() + view.metrics.bytes_live == view.total_size,
{
    crate::blocks::law_free_blocks_hold_the_free_units(view.blocks);
    lemma_free_bytes(view, view.blocks.max_order + 1);
    crate::bits::lemma_count_bounds(view.blocks.units);
    let m = view.min_block_size as int;
    lemma_mul_is_distributive_add(
        m,
        crate::bits::count_true(view.blocks.units) as int,
        view.taken_units(),
    );
}

proof fn lemma_free_bytes(view: crate::buddy::BuddyView, k: nat)
    ensures
        view.free_bytes_below(k) == view.min_block_size * view.blocks.free_size_below(k),
    decreases k,
{
    if k == 0 {
        assert(view.min_block_size * 0 == 0);
    } else {
        let p = (k - 1) as nat;
        lemma_free_bytes(view, p);
        let c = crate::bits::count_true(view.blocks.order_view(p).free) as int;
        let q = pow2(p) as int;
        let m = view.min_block_size as int;
        let below = view.blocks.free_size_below(p) as int;
        assert(m * below + c * (m * q) == m * (below + c * q)) by (nonlinear_arith);
    }
}

/// A request succeeds exactly when it is no larger than the largest free
/// block, which is 0 or the size of a block of some order.
pub proof fn law_requests_succeed_up_to_the_largest_free_block(
    view: crate::buddy::BuddyView,
    largest: int,
    len: nat,
)
    requires
        view.inv(),
        view.is_largest_free(largest),
        1 <= len,
    ensures
        len <= largest <==> exists|order: nat| #[trigger]
            view.wants(len, order) && !view.blocks.starved(order),
        largest == 0 || exists|order: nat|
            order <= view.blocks.max_order && largest == #[trigger] view.block_size(order),
{
    reveal(is_pow2);
    let max = view.blocks.max_order;
    let m = view.min_block_size as int;
    let floor = if len > view.min_block_size {
        len
    } else {
        view.min_block_size
    };
    crate::bits::lemma_ceil_pow2(floor);
    if len <= largest {
        let k = choose|k: nat|
            {
                &&& #[trigger] view.blocks.any_free(k)
                &&& largest == view.block_size(k)
                &&& forall|o: nat| k < o <= max ==> !#[trigger] view.blocks.any_free(o)
            };
        let order = lemma_order_of_request(view, len, k);
        crate::bits::lemma_pow2_le(k, max);
        assert(!view.blocks.starved(order));
        assert(view.wants(len, order) && !view.blocks.starved(order));
    }
    if exists|order: nat| #[trigger] view.wants(len, order) && !view.blocks.starved(order) {
        let order = choose|order: nat| #[trigger]
            view.wants(len, order) && !view.blocks.starved(order);
        let o = choose|o: nat| order <= o <= max && #[trigger] view.blocks.any_free(o);
        assert(!view.blocks.starved(0));
        let k = choose|k: nat|
            {
                &&& #[trigger] view.blocks.any_free(k)
                &&& largest == view.block_size(k)
                &&& forall|o: nat| k < o <= max ==> !#[trigger] view.blocks.any_free(o)
            };
        assert(order <= k);
        crate::bits::lemma_pow2_le(order, k);
        lemma_mul_inequality(pow2(order) as int, pow2(k) as int, m);
        lemma_mul_is_commutative(m, pow2(order) as int);
        lemma_mul_is_commutative(m, pow2(k) as int);
    }
}

/// The order that a request asks for which a block of order `k` can hold.
pub(crate) proof fn lemma_order_of_request(view: crate::buddy::BuddyView, len: nat, k: nat) -> (order: nat)
    requires
        view.inv(),
        len <= view.block_size(k),
        k <= view.blocks.max_order,
    ensures
        order <= k,
        view.wants(len, order),
    decreases k,
{
    reveal(is_pow2);
    let m = view.min_block_size as int;
    let floor = if len > view.min_block_size {
        len
    } else {
        view.min_block_size
    };
    crate::bits::lemma_ceil_pow2(floor);
    crate::bits::lemma_pow2_step(k);
    crate::bits::lemma_pow2_step(0);
    assert(m * 1 == m);
    if k == 0 {
        crate::bits::lemma_ceil_pow2_fixed(view.min_block_size);
        0
    } else {
        let down = (k - 1) as nat;
        crate::bits::lemma_pow2_step(down);
        assert(m * (2 * pow2(down)) == 2 * (m * pow2(down))) by (nonlinear_arith);
        if len <= view.block_size(down) {
            lemma_order_of_request(view, len, down)
        } else {
            lemma_request_size(view, len, k);
            k
        }
    }
}

/// A request between half a block and the block asks for that block.
proof fn lemma_request_size(view: crate::buddy::BuddyView, len: nat, k: nat)
    requires
        view.inv(),
        0 < k <= view.blocks.max_order,
        view.block_size((k - 1) as nat) < len <= view.block_size(k),
    ensures
        view.request_size(len) == view.block_size(k),
{
    let m = view.min_block_size as int;
    let e = crate::bits::lemma_exponent(m);
    let down = (k - 1) as nat;
    lemma_pow2_adds(e, k);
    lemma_pow2_adds(e, down);
    crate::bits::lemma_pow2_step(down);
    lemma_pow2_pos(down);
    lemma_pow2_pos(e);
    assert(m <= m * pow2(down)) by (nonlinear_arith)
        requires
            m >= 1,
            pow2(down) >= 1,
    ;
    crate::bits::lemma_ceil_pow2(len);
    let c = crate::bits::ceil_pow2(len);
    let f = crate::bits::lemma_exponent(c as int);
    // pow2(e + k - 1) < len <= c == pow2(f) and c < 2 * len.
    if f < e + k {
        crate::bits::lemma_pow2_le(f, e + down);
    } else if f > e + k {
        crate::bits::lemma_pow2_le(e + k + 1, f);
        crate::bits::lemma_pow2_step(e + k);
    }
}

/// All pieces, one after the other.
pub open spec fn joined(pieces: Seq<Seq<u8>>) -> Seq<u8>
    decreases pieces.len(),
{
    if pieces.len() == 0 {
        Seq::empty()
    } else {
        joined(pieces.drop_last()) + pieces.last()
    }
}

/// The buffer and its arena after the pieces were appended in turn.
pub open spec fn appended_all<A: ArenaRef>(
    buffer: crate::buffer::BufferView,
    state: A::State,
    pieces: Seq<Seq<u8>>,
) -> (crate::buffer::BufferView, A::State)
    decreases pieces.len(),
{
    if pieces.len() == 0 {
        (buffer, state)
    } else {
        let (b, s) = appended_all::<A>(buffer, state, pieces.drop_last());
        (b.appended(b.contents::<A>(s), pieces.last()), b.arena_appended::<A>(s, pieces.last()))
    }
}

/// Each piece is accepted when its turn comes.
pub open spec fn accepts_all<A: ArenaRef>(
    buffer: crate::buffer::BufferView,
    state: A::State,
    pieces: Seq<Seq<u8>>,
) -> bool
    decreases pieces.len(),
{
    pieces.len() > 0 ==> {
        &&& accepts_all::<A>(buffer, state, pieces.drop_last())
        &&& appended_all::<A>(buffer, state, pieces.drop_last()).0.accepts(
            pieces.last().len() as int,
        )
    }
}

/// A buffer holds what was written to it in turn and nothing else, in the arena
/// or on the heap.
pub proof fn law_contents_are_what_was_written<A: ArenaRef>(
    buffer: crate::buffer::BufferView,
    state: A::State,
    pieces: Seq<Seq<u8>>,
)
    requires
        buffer.inv(),
        buffer.spill is None,
        buffer.len == 0,
        0 <= buffer.offset,
        buffer.offset + buffer.capacity <= A::region(state).len(),
        accepts_all::<A>(buffer, state, pieces),
    ensures
        ({
            let (b, s) = appended_all::<A>(buffer, state, pieces);
            &&& b.contents::<A>(s) == joined(pieces)
            &&& b.len == joined(pieces).len()
        }),
{
    lemma_appended_all::<A>(buffer, state, pieces);
}

proof fn lemma_appended_all<A: ArenaRef>(
    buffer: crate::buffer::BufferView,
    state: A::State,
    pieces: Seq<Seq<u8>>,
)
    requires
        buffer.inv(),
        buffer.spill is None,
        buffer.len == 0,
        0 <= buffer.offset,
        buffer.offset + buffer.capacity <= A::region(state).len(),
        accepts_all::<A>(buffer, state, pieces),
    ensures
        ({
            let (b, s) = appended_all::<A>(buffer, state, pieces);
            &&& b.contents::<A>(s) == joined(pieces)
            &&& b.len == joined(pieces).len()
            &&& b.offset == buffer.offset
            &&& b.capacity == buffer.capacity
            &&& b.spill is None ==> b.len <= b.capacity && A::region(s).len() == A::region(
                state,
            ).len()
        }),
    decreases pieces.len(),
{
    let (b, s) = appended_all::<A>(buffer, state, pieces);
    if pieces.len() == 0 {
        assert(b.contents::<A>(s) =~= joined(pieces));
    } else {
        let (b0, s0) = appended_all::<A>(buffer, state, pieces.drop_last());
        lemma_appended_all::<A>(buffer, state, pieces.drop_last());
        let data = pieces.last();
        A::lemma_frame(s0, b0.allocation, b0.allocation, b0.offset + b0.len, data);
        assert(b.contents::<A>(s) =~= joined(pieces.drop_last()) + data);
    }
}

} // verus!
