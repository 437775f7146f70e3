//! What a turn of a waiting allocation does to the arena and to the waiters that
//! come with this library.
use vstd::prelude::*;
use vstd::arithmetic::power2::*;
use crate::allocation::{AllocationKind, ArenaRef};
use crate::arena::{FixedArena, FixedView};
use crate::async_alloc::{
    AsyncBuddyArena, AsyncBuddyView, AsyncFixedArena, AsyncFixedView, BuddyWaiter,
    WaitRegistration, Waiter,
};
use crate::buddy::{BuddyArena, BuddyView};
use crate::buffer::BufferView;
use crate::memory::Backing;
use crate::waiters::{BuddyRegistration, Delivery, EntryState, NotifyRegistration, NotifyWaiters};

verus! {

/// A turn that is served is an allocation: an empty buffer on a slot that was
/// free and is taken, and one more allocation is counted.
pub proof fn law_served_turns_take_a_slot(pre: FixedView, buffer: BufferView, post: FixedView)
    requires
        pre.inv(),
        crate::async_alloc::fixed_turn_served(pre, buffer, post),
    ensures
        buffer.allocation is Fixed,
        ({
            let slot = buffer.allocation->slot_idx as int;
            &&& 0 <= slot < pre.slot_count
            &&& pre.slots.free[slot]
            &&& !post.slots.free[slot]
            &&& pre.slots.picks(slot)
            &&& buffer.capacity == pre.slot_capacity
            &&& buffer.offset == slot * pre.slot_capacity
            &&& buffer.len == 0
            &&& buffer.spill is None
            &&& buffer.auto_spill == pre.auto_spill
            &&& post == pre.allocated(slot)
            &&& post.metrics.allocations_ok == pre.metrics.allocations_ok.wrapping_add(1)
        }),
{
    let slot = buffer.allocation->slot_idx;
    crate::effects::law_slot_buffers_have_the_whole_slot(pre, slot);
    crate::effects::law_slot_allocation_effects(pre, slot as int, slot as int, 0);
}

/// A turn that is served is an allocation: an empty buffer that holds the
/// request, on a block that was granted for it.
pub proof fn law_served_turns_take_a_block(
    pre: BuddyView,
    len: nat,
    buffer: BufferView,
    post: BuddyView,
)
    requires
        pre.inv(),
        crate::async_alloc::buddy_turn_served(pre, len, buffer, post),
    ensures
        buffer.allocation is Buddy,
        ({
            let order = buffer.allocation->order as nat;
            let idx = buffer.allocation->block_idx as int;
            let size = pre.min_block_size * pow2(order);
            &&& pre.grants(len, order, idx, post)
            &&& crate::effects::run_is_free(pre.blocks.units, order, idx)
            &&& len <= buffer.capacity
            &&& pre.cap_capacity ==> buffer.capacity == len
            &&& !pre.cap_capacity ==> buffer.capacity == size
            &&& buffer.offset == idx * size
            &&& buffer.len == 0
            &&& buffer.spill is None
            &&& buffer.auto_spill == pre.auto_spill
        }),
{
    let order = buffer.allocation->order;
    let idx = buffer.allocation->block_idx;
    crate::effects::law_block_buffers_hold_the_request(pre, post, len, order, idx);
    crate::effects::law_block_allocation_effects(pre, post, len, order as nat, idx as int, 0, 0);
}

/// A request waits at the order of the least block that holds it. One that
/// exceeds the region waits at the top order.
pub proof fn law_requests_wait_at_their_order(view: BuddyView, len: nat, order: usize)
    requires
        view.inv(),
        crate::async_alloc::waits_at(view, len, order),
    ensures
        order <= view.blocks.max_order,
        len > view.total_size ==> order == view.blocks.max_order,
        len <= view.total_size ==> len <= view.min_block_size * pow2(order as nat),
        len <= view.total_size && order > 0 ==> view.min_block_size * pow2(order as nat) < 2 * len,
{
    reveal(is_pow2);
    let max = view.blocks.max_order;
    if len <= view.total_size {
        let want = crate::laws::lemma_order_of_request(view, len, max);
        crate::async_alloc::lemma_one_order(view, len, order as nat, want);
        crate::laws::law_blocks_fit_requests(view, len, order as nat);
        if view.block_size(order as nat) == view.min_block_size && order > 0 {
            crate::bits::lemma_pow2_le(1, order as nat);
            crate::bits::lemma_pow2_step(0);
            let m = view.min_block_size as int;
            let p = pow2(order as nat) as int;
            assert(m * p >= 2 * m) by (nonlinear_arith)
                requires
                    p >= 2,
                    m > 0,
            ;
        }
    } else if view.wants(len, order as nat) {
        crate::laws::law_blocks_fit_requests(view, len, order as nat);
        crate::bits::lemma_pow2_le(order as nat, max);
        let m = view.min_block_size as int;
        let p = pow2(order as nat) as int;
        let q = pow2(max) as int;
        assert(m * p <= m * q) by (nonlinear_arith)
            requires
                p <= q,
                0 < m,
        ;
    }
}

/// A turn on a fixed arena that is served leaves the waiters as they were. One
/// that is not has added one, which is registered and not woken.
pub proof fn law_fixed_turns_count_who_waits(
    pre: NotifyWaiters,
    post: NotifyWaiters,
    registration: NotifyRegistration,
)
    ensures
        crate::async_alloc::turn_taken_back::<NotifyWaiters>(pre, post) ==> post@ == pre@,
        crate::async_alloc::turn_waits::<NotifyWaiters>(pre, post, registration) ==> {
            &&& post@.fixed_count == pre@.fixed_count.wrapping_add(1)
            &&& post@.orders == pre@.orders
            &&& post@.last_winner == pre@.last_winner
            &&& post@.streak == pre@.streak
            &&& post@.next_id == pre@.next_id
            &&& registration@.registered
            &&& !registration@.woken
        },
        <NotifyWaiters as Waiter>::wakes(pre, post, true) ==> pre@.fixed_count > 0 && post == pre,
        <NotifyWaiters as Waiter>::wakes(pre, post, false) ==> pre@.fixed_count == 0 && post == pre,
{
}

/// A turn on a buddy arena that is not served has put a live entry with a new
/// number at the end of the queue of its order, and nothing else.
pub proof fn law_buddy_turns_queue_at_their_order(
    pre: NotifyWaiters,
    post: NotifyWaiters,
    order: usize,
    now_ns: u64,
    registration: BuddyRegistration,
    o: int,
    i: int,
)
    requires
        order < pre@.orders.len(),
        pre@.next_id < u64::MAX,
        0 <= o < pre@.orders.len(),
        crate::async_alloc::buddy_turn_waits::<NotifyWaiters>(
            pre,
            post,
            order,
            now_ns,
            registration,
        ),
    ensures
        ({
            let queue = pre@.orders[order as int].queue;
            let after = post@.orders[order as int].queue;
            &&& after.len() == queue.len() + 1
            &&& after.last().id == pre@.next_id
            &&& after.last().state == EntryState::Live
            &&& after.last().timestamp == now_ns
            &&& 0 <= i < queue.len() ==> after[i] == queue[i]
            &&& post@.orders[order as int].count == pre@.orders[order as int].count.wrapping_add(1)
            &&& post@.orders.len() == pre@.orders.len()
            &&& o != order ==> post@.orders[o] == pre@.orders[o]
            &&& post@.next_id == pre@.next_id + 1
            &&& registration@.id == pre@.next_id
            &&& registration@.order == order
            &&& registration@.registered
        }),
{
}

/// A turn on a buddy arena that is served leaves nobody waiting who did not
/// wait before: the entry that it queued is revoked, and the counts are as they
/// were. `pre` has only entries of registrations that were made.
pub proof fn law_served_buddy_turns_leave_no_waiter(
    pre: NotifyWaiters,
    post: NotifyWaiters,
    order: usize,
    now_ns: u64,
    o: int,
    i: int,
)
    requires
        order < pre@.orders.len(),
        pre@.next_id < u64::MAX,
        0 <= o < pre@.orders.len(),
        forall|k: int|
            0 <= k < pre@.orders[order as int].queue.len() ==> (
            #[trigger] pre@.orders[order as int].queue[k]).id < pre@.next_id,
        crate::async_alloc::buddy_turn_taken_back::<NotifyWaiters>(pre, post, order, now_ns),
    ensures
        ({
            let queue = pre@.orders[order as int].queue;
            let after = post@.orders[order as int].queue;
            &&& after.len() == queue.len() + 1
            &&& after.last().state == EntryState::Revoked
            &&& 0 <= i < queue.len() ==> after[i] == queue[i]
            &&& post@.orders[order as int].count == pre@.orders[order as int].count
            &&& post@.orders.len() == pre@.orders.len()
            &&& o != order ==> post@.orders[o] == pre@.orders[o]
            &&& post@.next_id == pre@.next_id + 1
        }),
{
    let (w1, r1, w2, r2, r3): (
        NotifyWaiters,
        BuddyRegistration,
        NotifyWaiters,
        BuddyRegistration,
        BuddyRegistration,
    ) = choose|
        w1: NotifyWaiters,
        r1: BuddyRegistration,
        w2: NotifyWaiters,
        r2: BuddyRegistration,
        r3: BuddyRegistration,
    |
        #![trigger <NotifyWaiters as BuddyWaiter>::registers(pre, w1, order, now_ns, r1), <BuddyRegistration as WaitRegistration<NotifyWaiters>>::prepares((w1, r1), (w2, r2)), <BuddyRegistration as WaitRegistration<NotifyWaiters>>::revokes((w2, r2), (post, r3))]
        {
            &&& <NotifyWaiters as BuddyWaiter>::registers(pre, w1, order, now_ns, r1)
            &&& <BuddyRegistration as WaitRegistration<NotifyWaiters>>::prepares(
                (w1, r1),
                (w2, r2),
            )
            &&& <BuddyRegistration as WaitRegistration<NotifyWaiters>>::revokes(
                (w2, r2),
                (post, r3),
            )
        };
    let slot = w2@.orders[order as int];
    let queue = pre@.orders[order as int].queue;
    let last = queue.len() as int;
    assert(slot.queue == queue.push(r1@.entry()));
    crate::waiter_laws::law_leaving_revokes_its_own_entry_only(slot, r2@.id);
    assert forall|k: int| 0 <= k < last implies (#[trigger] slot.queue[k]).id < r2@.id by {
        assert(slot.queue[k] == queue[k]);
    }
    assert(crate::waiter_laws::sole_live(slot.queue, r2@.id, last));
    assert(post@.orders[order as int] == slot.left(r2@.id));
    if 0 <= i < queue.len() {
        assert(slot.queue[i] == queue[i]);
    }
}

/// An arena with waiters lends slots as the arena alone does. Writing, freezing
/// and spilling leave the waiters and the owed wakes alone; a slot that comes
/// back owes one wake more.
pub proof fn law_async_fixed_arena_lends_slots<W, M: Backing>(
    state: AsyncFixedView<W>,
    allocation: AllocationKind,
    at: int,
    data: Seq<u8>,
)
    ensures
        AsyncFixedArena::<W, M>::region(state) == state.arena.memory,
        AsyncFixedArena::<W, M>::live(state, allocation) == FixedArena::<M>::live(
            state.arena,
            allocation,
        ),
        AsyncFixedArena::<W, M>::start(state, allocation) == FixedArena::<M>::start(
            state.arena,
            allocation,
        ),
        AsyncFixedArena::<W, M>::extent(state, allocation) == FixedArena::<M>::extent(
            state.arena,
            allocation,
        ),
        AsyncFixedArena::<W, M>::written(state, at, data) == (AsyncFixedView {
            arena: FixedArena::<M>::written(state.arena, at, data),
            waiting: state.waiting,
            freed: state.freed,
        }),
        AsyncFixedArena::<W, M>::frozen(state) == (AsyncFixedView {
            arena: FixedArena::<M>::frozen(state.arena),
            waiting: state.waiting,
            freed: state.freed,
        }),
        AsyncFixedArena::<W, M>::spilled(state) == (AsyncFixedView {
            arena: FixedArena::<M>::spilled(state.arena),
            waiting: state.waiting,
            freed: state.freed,
        }),
        AsyncFixedArena::<W, M>::released(state, allocation).arena == FixedArena::<M>::released(
            state.arena,
            allocation,
        ),
        AsyncFixedArena::<W, M>::released(state, allocation).waiting == state.waiting,
        AsyncFixedArena::<W, M>::released(state, allocation).freed == state.freed.wrapping_add(1),
{
}

/// An arena with waiters lends blocks as the arena alone does. Writing,
/// freezing and spilling leave the waiters and the owed wakes alone; a block
/// that comes back owes one wake more, for the block that it became part of.
pub proof fn law_async_buddy_arena_lends_blocks<W, M: Backing>(
    state: AsyncBuddyView<W>,
    order: usize,
    idx: usize,
    at: int,
    data: Seq<u8>,
)
    ensures
        ({
            let a = AllocationKind::Buddy { order, block_idx: idx };
            let back = AsyncBuddyArena::<W, M>::released(state, a);
            &&& AsyncBuddyArena::<W, M>::region(state) == state.arena.memory
            &&& AsyncBuddyArena::<W, M>::live(state, a) == BuddyArena::<M>::live(state.arena, a)
            &&& AsyncBuddyArena::<W, M>::start(state, a) == BuddyArena::<M>::start(state.arena, a)
            &&& AsyncBuddyArena::<W, M>::extent(state, a) == BuddyArena::<M>::extent(
                state.arena,
                a,
            )
            &&& AsyncBuddyArena::<W, M>::written(state, at, data) == (AsyncBuddyView {
                arena: BuddyArena::<M>::written(state.arena, at, data),
                waiting: state.waiting,
                freed: state.freed,
            })
            &&& AsyncBuddyArena::<W, M>::frozen(state) == (AsyncBuddyView {
                arena: BuddyArena::<M>::frozen(state.arena),
                waiting: state.waiting,
                freed: state.freed,
            })
            &&& AsyncBuddyArena::<W, M>::spilled(state) == (AsyncBuddyView {
                arena: BuddyArena::<M>::spilled(state.arena),
                waiting: state.waiting,
                freed: state.freed,
            })
            &&& back.arena == BuddyArena::<M>::released(state.arena, a)
            &&& back.waiting == state.waiting
            &&& back.freed.len() == state.freed.len() + 1
            &&& back.freed.last() == state.arena.merged_order(order as nat, idx as int) as usize
            &&& back.freed.drop_last() == state.freed
        }),
{
    let a = AllocationKind::Buddy { order, block_idx: idx };
    assert(AsyncBuddyArena::<W, M>::released(state, a).freed.drop_last() =~= state.freed);
}

/// A wake for a freed block reaches only orders that the block can serve and at
/// which somebody waits, each at most once.
pub proof fn law_buddy_wakes_suit_the_freed_block(
    pre: NotifyWaiters,
    post: NotifyWaiters,
    freed_order: usize,
    sent: Seq<Delivery>,
    i: int,
    j: int,
)
    requires
        <NotifyWaiters as BuddyWaiter>::wakes(pre, post, freed_order, sent),
        0 <= i <= j < sent.len(),
    ensures
        sent[i].order <= freed_order,
        sent[i].order < pre@.orders.len(),
        pre@.orders[sent[i].order as int].count > 0,
        pre@.orders[sent[i].order as int].head_timestamp < u64::MAX,
        i < j ==> sent[i].order != sent[j].order,
        i < j ==> pre@.before(sent[i].order as int, sent[j].order as int),
{
    let ranking = choose|ranking: Seq<usize>| #[trigger]
        pre@.ranked(freed_order as int, ranking) && (post@, sent) == pre@.woken(ranking, 0);
    crate::waiters::law_wakes_follow_the_ranking(pre@, freed_order as int, ranking);
    assert(pre@.runs(freed_order as int, sent[i].order as int));
}

/// Whoever waits in sight at an order that the freed block can serve, and has
/// not won too often, is woken first of its order, where no more than eight
/// revoked entries are in the way.
pub proof fn law_buddy_wakes_reach_the_longest_waiter(
    pre: NotifyWaiters,
    post: NotifyWaiters,
    freed_order: usize,
    sent: Seq<Delivery>,
    order: usize,
    k: int,
)
    requires
        <NotifyWaiters as BuddyWaiter>::wakes(pre, post, freed_order, sent),
        order < pre@.orders.len(),
        order <= freed_order,
        pre@.orders[order as int].seen(),
        pre@.streak < 10,
        forall|o: int| 0 <= o < pre@.orders.len() && o != order ==> (
        #[trigger] pre@.orders[o]).count == 0,
        0 <= k < pre@.orders[order as int].queue.len(),
        k <= 8,
        pre@.orders[order as int].queue[k].state == EntryState::Live,
        crate::waiter_laws::all_revoked(pre@.orders[order as int].queue, 0, k),
    ensures
        sent.len() > 0,
        sent[0].order == order,
        sent[0].id == pre@.orders[order as int].queue[k].id,
        post@.orders[order as int].queue == pre@.orders[order as int].queue.skip(k + 1),
{
    let view = pre@;
    let ranking = choose|ranking: Seq<usize>| #[trigger]
        view.ranked(freed_order as int, ranking) && (post@, sent) == view.woken(ranking, 0);
    let queue = view.orders[order as int].queue;
    crate::waiters::lemma_live_count_cut(queue, k);
    crate::waiters::law_waiting_orders_take_part(view, freed_order as int, ranking, order as int);
    assert(view.runs(freed_order as int, ranking[0] as int));
    assert(ranking[0] == order) by {
        if ranking[0] != order {
            assert(view.orders[ranking[0] as int].count == 0);
        }
    }
    assert(ranking.len() == 1) by {
        if ranking.len() > 1 {
            assert(view.runs(freed_order as int, ranking[1] as int));
            assert(view.before(ranking[0] as int, ranking[1] as int));
            assert(view.orders[ranking[1] as int].count == 0);
        }
    }
    crate::waiter_laws::law_eight_revoked_entries_are_skipped(view, ranking, k);
    crate::waiters::lemma_first_live_is(queue, k);
    let served = view.with_slot(order as int, view.orders[order as int].served());
    let rest = ranking.skip(1);
    assert(rest.len() == 0);
    assert(served.woken(rest, k).0 == served);
    assert(post@ == served);
}

} // verus!
