//! What holds of an arena after any sequence of calls.
//!
//! A history is a sequence of events, each with what it did. It can happen
//! when each event can happen in the state that the events before it lead to.
use vstd::prelude::*;
use vstd::arithmetic::power2::*;
use vstd::arithmetic::mul::*;
use crate::allocation::{AllocationKind, ArenaRef};
use crate::arena::{FixedArena, FixedView};
use crate::async_alloc::{
    AsyncBuddyArena, AsyncBuddyView, AsyncFixedArena, AsyncFixedView, BuddyWaiter, Waiter,
};
use crate::buddy::{BuddyArena, BuddyView};
use crate::memory::Backing;
use crate::waiters::Delivery;

verus! {

/// The event counters are kept modulo this.
pub open spec fn counter_range() -> int {
    0x1_0000_0000_0000_0000
}

/// A call on a fixed arena, with its outcome.
pub enum FixedEvent {
    /// An allocation that handed out `slot`.
    Allocated { slot: int },
    /// An allocation that was refused.
    Refused,
    /// A slot came back: from a buffer, or from a frozen value.
    Released { slot: int },
    /// A buffer was frozen.
    Froze,
    /// A buffer moved to the heap. Its slot comes back as an event of its own.
    Spilled,
    /// Bytes were written into a slot.
    Wrote { slot: int, at: int, data: Seq<u8> },
}

/// The event can happen.
pub open spec fn fixed_possible(view: FixedView, event: FixedEvent) -> bool {
    match event {
        FixedEvent::Allocated { slot } => view.slots.picks(slot),
        FixedEvent::Refused => !view.slots.any_free(),
        FixedEvent::Released { slot } => view.taken(slot),
        FixedEvent::Froze => true,
        FixedEvent::Spilled => true,
        FixedEvent::Wrote { slot, at, data } => {
            &&& view.taken(slot)
            &&& view.slot_start(slot) <= at
            &&& at + data.len() <= view.slot_start(slot + 1)
        },
    }
}

/// The arena after the event.
pub open spec fn fixed_next(view: FixedView, event: FixedEvent) -> FixedView {
    match event {
        FixedEvent::Allocated { slot } => view.allocated(slot),
        FixedEvent::Refused => view.refused(),
        FixedEvent::Released { slot } => view.released(slot),
        FixedEvent::Froze => FixedArena::<Vec<u8>>::frozen(view),
        FixedEvent::Spilled => FixedArena::<Vec<u8>>::spilled(view),
        FixedEvent::Wrote { at, data, .. } => FixedArena::<Vec<u8>>::written(view, at, data),
    }
}

/// The arena after the events.
pub open spec fn fixed_after(start: FixedView, events: Seq<FixedEvent>) -> FixedView
    decreases events.len(),
{
    if events.len() == 0 {
        start
    } else {
        fixed_next(fixed_after(start, events.drop_last()), events.last())
    }
}

/// The events can happen one after the other.
pub open spec fn fixed_history(start: FixedView, events: Seq<FixedEvent>) -> bool
    decreases events.len(),
{
    events.len() > 0 ==> {
        &&& fixed_history(start, events.drop_last())
        &&& fixed_possible(fixed_after(start, events.drop_last()), events.last())
    }
}

/// How often each kind of call was made.
pub struct Tally {
    pub allocated: int,
    pub refused: int,
    pub released: int,
    pub froze: int,
    pub spilled: int,
    pub splits: int,
    pub coalesces: int,
}

impl Tally {
    /// No call was made.
    pub open spec fn none() -> Tally {
        Tally {
            allocated: 0,
            refused: 0,
            released: 0,
            froze: 0,
            spilled: 0,
            splits: 0,
            coalesces: 0,
        }
    }

    /// The counters show the tally.
    pub open spec fn shown_by(self, metrics: crate::metrics::MetricsState) -> bool {
        &&& metrics.allocations_ok == self.allocated % counter_range()
        &&& metrics.allocations_failed == self.refused % counter_range()
        &&& metrics.frees == self.released % counter_range()
        &&& metrics.frozen == self.froze % counter_range()
        &&& metrics.spills == self.spilled % counter_range()
        &&& metrics.splits == self.splits % counter_range()
        &&& metrics.coalesces == self.coalesces % counter_range()
    }
}

/// The calls of a history of a fixed arena.
pub open spec fn fixed_tally(events: Seq<FixedEvent>) -> Tally
    decreases events.len(),
{
    if events.len() == 0 {
        Tally::none()
    } else {
        let t = fixed_tally(events.drop_last());
        match events.last() {
            FixedEvent::Allocated { .. } => Tally { allocated: t.allocated + 1, ..t },
            FixedEvent::Refused => Tally { refused: t.refused + 1, ..t },
            FixedEvent::Released { .. } => Tally { released: t.released + 1, ..t },
            FixedEvent::Froze => Tally { froze: t.froze + 1, ..t },
            FixedEvent::Spilled => Tally { spilled: t.spilled + 1, ..t },
            FixedEvent::Wrote { .. } => t,
        }
    }
}

/// A counter that wraps round shows the total modulo its range.
proof fn lemma_counter(c: u64, total: int, n: u64)
    requires
        c == total % counter_range(),
    ensures
        c.wrapping_add(n) == (total + n) % counter_range(),
{
}

/// The difference of two counters is that of the totals, where it fits.
proof fn lemma_counter_difference(a: u64, b: u64, x: int, y: int)
    requires
        a == x % counter_range(),
        b == y % counter_range(),
        0 <= x - y < counter_range(),
    ensures
        a.wrapping_sub(b) == x - y,
{
}

proof fn lemma_fixed_tally(start: FixedView, events: Seq<FixedEvent>)
    requires
        Tally::none().shown_by(start.metrics),
    ensures
        fixed_tally(events).shown_by(fixed_after(start, events).metrics),
    decreases events.len(),
{
    if events.len() > 0 {
        let m = fixed_after(start, events.drop_last()).metrics;
        let t = fixed_tally(events.drop_last());
        lemma_fixed_tally(start, events.drop_last());
        lemma_counter(m.allocations_ok, t.allocated, 1);
        lemma_counter(m.allocations_failed, t.refused, 1);
        lemma_counter(m.frees, t.released, 1);
        lemma_counter(m.frozen, t.froze, 1);
        lemma_counter(m.spills, t.spilled, 1);
    }
}

proof fn lemma_fixed_next(view: FixedView, event: FixedEvent)
    requires
        view.inv(),
        fixed_possible(view, event),
    ensures
        fixed_next(view, event).inv(),
{
    match event {
        FixedEvent::Allocated { slot } => {
            crate::arena::lemma_allocated(view, slot);
        },
        FixedEvent::Refused => {
            assert(fixed_next(view, event).scrubbed());
        },
        FixedEvent::Released { slot } => {
            crate::arena::lemma_released(view, slot);
        },
        FixedEvent::Froze => {
            assert(fixed_next(view, event).scrubbed());
        },
        FixedEvent::Spilled => {
            assert(fixed_next(view, event).scrubbed());
        },
        FixedEvent::Wrote { slot, at, data } => {
            crate::arena::lemma_written(view, slot, at, data);
        },
    }
}

/// Whatever calls are made, an arena keeps its invariant, its number of slots,
/// their capacity, the bytes reserved and its policies.
pub proof fn law_fixed_arena_keeps_its_shape(start: FixedView, events: Seq<FixedEvent>)
    requires
        start.inv(),
        fixed_history(start, events),
    ensures
        ({
            let after = fixed_after(start, events);
            &&& after.inv()
            &&& after.slot_count == start.slot_count
            &&& after.slot_capacity == start.slot_capacity
            &&& after.memory.len() == start.memory.len()
            &&& after.metrics.bytes_reserved == start.metrics.bytes_reserved
            &&& after.auto_spill == start.auto_spill
            &&& after.init_policy == start.init_policy
        }),
    decreases events.len(),
{
    if events.len() > 0 {
        law_fixed_arena_keeps_its_shape(start, events.drop_last());
        lemma_fixed_next(fixed_after(start, events.drop_last()), events.last());
    }
}

/// The counters of an arena show the calls made on it: allocations that
/// succeeded less releases is the number of slots held, and their capacity is
/// the live bytes.
pub proof fn law_fixed_metrics_count_the_calls(start: FixedView, events: Seq<FixedEvent>)
    requires
        start.inv(),
        start.idle(),
        Tally::none().shown_by(start.metrics),
        fixed_history(start, events),
    ensures
        ({
            let after = fixed_after(start, events);
            let tally = fixed_tally(events);
            let held = after.metrics.allocations_ok.wrapping_sub(after.metrics.frees);
            &&& tally.shown_by(after.metrics)
            &&& tally.allocated - tally.released == after.taken_count()
            &&& held == after.taken_count()
            &&& after.metrics.bytes_live == held * after.slot_capacity
            &&& after.metrics.bytes_live <= after.metrics.bytes_reserved
            &&& after.metrics.bytes_reserved == after.slot_count * after.slot_capacity
        }),
{
    let after = fixed_after(start, events);
    law_fixed_arena_keeps_its_shape(start, events);
    crate::bits::lemma_count_bounds(after.slots.free);
    crate::laws::law_live_bytes_of_slots(after);
    lemma_fixed_tally(start, events);
    lemma_fixed_balance(start, events);
    let tally = fixed_tally(events);
    let n = after.slot_count as int;
    let c = after.slot_capacity as int;
    assert(n <= n * c) by (nonlinear_arith)
        requires
            0 <= n,
            1 <= c,
    ;
    lemma_counter_difference(
        after.metrics.allocations_ok,
        after.metrics.frees,
        tally.allocated,
        tally.released,
    );
    lemma_mul_is_commutative(after.taken_count(), after.slot_capacity as int);
}

proof fn lemma_fixed_balance(start: FixedView, events: Seq<FixedEvent>)
    requires
        start.inv(),
        start.idle(),
        fixed_history(start, events),
    ensures
        fixed_tally(events).allocated - fixed_tally(events).released == fixed_after(
            start,
            events,
        ).taken_count(),
    decreases events.len(),
{
    if events.len() > 0 {
        let prior = fixed_after(start, events.drop_last());
        lemma_fixed_balance(start, events.drop_last());
        law_fixed_arena_keeps_its_shape(start, events.drop_last());
        match events.last() {
            FixedEvent::Allocated { slot } => {
                crate::laws::law_slots_are_counted(prior, slot);
            },
            FixedEvent::Released { slot } => {
                crate::laws::law_slots_are_counted(prior, slot);
            },
            _ => {},
        }
    } else {
        crate::bits::lemma_count_bounds(start.slots.free);
    }
}

/// The event neither takes the slot back nor writes into it.
pub open spec fn spares_slot(event: FixedEvent, slot: int) -> bool {
    match event {
        FixedEvent::Released { slot: s } => s != slot,
        FixedEvent::Wrote { slot: s, .. } => s != slot,
        _ => true,
    }
}

/// A slot that is out stays out, and the bytes in it stay what they are, until
/// it is released, whatever other calls are made. So a frozen value reads the
/// same as long as it is held.
pub proof fn law_held_slot_keeps_its_bytes<M: Backing>(
    start: FixedView,
    events: Seq<FixedEvent>,
    slot: usize,
    n: int,
)
    requires
        start.inv(),
        fixed_history(start, events),
        start.taken(slot as int),
        0 <= n <= start.slot_capacity,
        forall|k: int| 0 <= k < events.len() ==> spares_slot(#[trigger] events[k], slot as int),
    ensures
        ({
            let after = fixed_after(start, events);
            let at = start.slot_start(slot as int);
            &&& after.taken(slot as int)
            &&& after.slot_start(slot as int) == at
            &&& crate::allocation::bytes_at::<FixedArena<M>>(after, at, n)
                == crate::allocation::bytes_at::<FixedArena<M>>(start, at, n)
        }),
    decreases events.len(),
{
    if events.len() > 0 {
        let prior = fixed_after(start, events.drop_last());
        let after = fixed_after(start, events);
        assert forall|k: int| 0 <= k < events.drop_last().len() implies spares_slot(
            #[trigger] events.drop_last()[k],
            slot as int,
        ) by {
            assert(events.drop_last()[k] == events[k]);
        }
        law_held_slot_keeps_its_bytes::<M>(start, events.drop_last(), slot, n);
        law_fixed_arena_keeps_its_shape(start, events.drop_last());
        law_fixed_arena_keeps_its_shape(start, events);
        crate::arena::lemma_slot_bounds(prior, slot as int);
        assert(spares_slot(events[events.len() - 1], slot as int));
        let at = start.slot_start(slot as int);
        assert forall|i: int| at <= i < at + n implies #[trigger] after.memory[i]
            == prior.memory[i] by {
            match events.last() {
                FixedEvent::Allocated { slot: s } => {
                    crate::arena::lemma_slot_bounds(prior, s);
                    crate::arena::lemma_slots_apart(prior, s, slot as int);
                },
                FixedEvent::Released { slot: s } => {
                    crate::arena::lemma_slot_bounds(prior, s);
                    crate::arena::lemma_slots_apart(prior, s, slot as int);
                },
                FixedEvent::Wrote { slot: s, .. } => {
                    crate::arena::lemma_slot_bounds(prior, s);
                    crate::arena::lemma_slots_apart(prior, s, slot as int);
                },
                _ => {},
            }
        }
        assert(crate::allocation::bytes_at::<FixedArena<M>>(after, at, n)
            =~= crate::allocation::bytes_at::<FixedArena<M>>(prior, at, n));
    }
}

/// A call on a buddy arena, with its outcome.
pub enum BuddyEvent {
    /// A request of `len` bytes was served with block `idx` of order `order`,
    /// cut from the free block `j` of order `source`.
    Allocated { len: nat, order: nat, idx: int, source: nat, j: int },
    /// A request was refused that exceeds the region.
    Oversize { len: nat },
    /// A request of order `order` was refused.
    Refused { len: nat, order: nat },
    /// A block came back: from a buffer, or from a frozen value.
    Released { order: nat, idx: int },
    /// A buffer was frozen.
    Froze,
    /// A buffer moved to the heap. Its block comes back as an event of its own.
    Spilled,
    /// Bytes were written into a block.
    Wrote { order: nat, idx: int, at: int, data: Seq<u8> },
}

/// The event can happen while the blocks `held` are out.
pub open spec fn buddy_possible(
    view: BuddyView,
    held: Set<(nat, int)>,
    event: BuddyEvent,
) -> bool {
    match event {
        BuddyEvent::Allocated { len, order, idx, source, j } => {
            &&& view.wants(len, order)
            &&& view.cut_from(order, idx, source, j, view.allocated(order, idx, source))
        },
        BuddyEvent::Oversize { len } => view.request_size(len) > view.total_size,
        BuddyEvent::Refused { len, order } => view.wants(len, order) && view.blocks.starved(order),
        BuddyEvent::Released { order, idx } => held.contains((order, idx)),
        BuddyEvent::Froze => true,
        BuddyEvent::Spilled => true,
        BuddyEvent::Wrote { order, idx, at, data } => {
            &&& held.contains((order, idx))
            &&& view.block_start(order, idx) <= at
            &&& at + data.len() <= view.block_start(order, idx) + view.block_size(order)
        },
    }
}

/// The arena after the event.
pub open spec fn buddy_next(view: BuddyView, event: BuddyEvent) -> BuddyView {
    match event {
        BuddyEvent::Allocated { order, idx, source, .. } => view.allocated(order, idx, source),
        BuddyEvent::Oversize { .. } => view.refused_oversize(),
        BuddyEvent::Refused { order, .. } => view.refused(order),
        BuddyEvent::Released { order, idx } => view.released(order, idx),
        BuddyEvent::Froze => BuddyArena::<Vec<u8>>::frozen(view),
        BuddyEvent::Spilled => BuddyArena::<Vec<u8>>::spilled(view),
        BuddyEvent::Wrote { at, data, .. } => BuddyArena::<Vec<u8>>::written(view, at, data),
    }
}

/// The arena after the events.
pub open spec fn buddy_after(start: BuddyView, events: Seq<BuddyEvent>) -> BuddyView
    decreases events.len(),
{
    if events.len() == 0 {
        start
    } else {
        buddy_next(buddy_after(start, events.drop_last()), events.last())
    }
}

/// The blocks that are out after the events, by order and index.
pub open spec fn held_blocks(events: Seq<BuddyEvent>) -> Set<(nat, int)>
    decreases events.len(),
{
    if events.len() == 0 {
        Set::empty()
    } else {
        let held = held_blocks(events.drop_last());
        match events.last() {
            BuddyEvent::Allocated { order, idx, .. } => held.insert((order, idx)),
            BuddyEvent::Released { order, idx } => held.remove((order, idx)),
            _ => held,
        }
    }
}

/// The events can happen one after the other on an arena of which nothing is
/// out at first.
pub open spec fn buddy_history(start: BuddyView, events: Seq<BuddyEvent>) -> bool
    decreases events.len(),
{
    events.len() > 0 ==> {
        &&& buddy_history(start, events.drop_last())
        &&& buddy_possible(
            buddy_after(start, events.drop_last()),
            held_blocks(events.drop_last()),
            events.last(),
        )
    }
}

/// The calls of a history of a buddy arena, with the splits and merges.
pub open spec fn buddy_tally(start: BuddyView, events: Seq<BuddyEvent>) -> Tally
    decreases events.len(),
{
    if events.len() == 0 {
        Tally::none()
    } else {
        let t = buddy_tally(start, events.drop_last());
        match events.last() {
            BuddyEvent::Allocated { order, source, .. } => Tally {
                allocated: t.allocated + 1,
                splits: t.splits + (source - order),
                ..t
            },
            BuddyEvent::Oversize { .. } => Tally { refused: t.refused + 1, ..t },
            BuddyEvent::Refused { .. } => Tally { refused: t.refused + 1, ..t },
            BuddyEvent::Released { order, idx } => Tally {
                released: t.released + 1,
                coalesces: t.coalesces + (buddy_after(start, events.drop_last()).merged_order(
                    order,
                    idx,
                ) - order),
                ..t
            },
            BuddyEvent::Froze => Tally { froze: t.froze + 1, ..t },
            BuddyEvent::Spilled => Tally { spilled: t.spilled + 1, ..t },
            BuddyEvent::Wrote { .. } => t,
        }
    }
}

/// The held blocks are blocks of the region that share no unit, and every unit
/// that is not free is in one of them.
pub open spec fn tiles(view: BuddyView, held: Set<(nat, int)>) -> bool {
    &&& held.finite()
    &&& forall|b: (nat, int)| #[trigger] held.contains(b) ==> view.taken(b.0, b.1)
    &&& forall|a: (nat, int), b: (nat, int)| #[trigger]
        held.contains(a) && #[trigger] held.contains(b) && a != b ==> !crate::blocks::overlap(
            a.0,
            a.1,
            b.0,
            b.1,
        )
    &&& forall|u: int|
        0 <= u < view.blocks.units.len() && !(#[trigger] view.blocks.units[u]) ==> exists|
            b: (nat, int),
        | #[trigger] held.contains(b) && crate::blocks::in_block(b.0, b.1, u)
}

/// The arena is as the events left it: see the laws below.
spec fn buddy_sound(start: BuddyView, events: Seq<BuddyEvent>) -> bool {
    let after = buddy_after(start, events);
    let held = held_blocks(events);
    let tally = buddy_tally(start, events);
    &&& after.inv()
    &&& after.total_size == start.total_size
    &&& after.min_block_size == start.min_block_size
    &&& after.blocks.max_order == start.blocks.max_order
    &&& after.memory.len() == start.memory.len()
    &&& after.auto_spill == start.auto_spill
    &&& after.cap_capacity == start.cap_capacity
    &&& after.init_policy == start.init_policy
    &&& tiles(after, held)
    &&& tally.allocated - tally.released == held.len()
    &&& tally.splits - tally.coalesces == after.blocks.free_count() + held.len() - 1
}

proof fn lemma_buddy_sound(start: BuddyView, events: Seq<BuddyEvent>)
    requires
        start.inv(),
        start.idle(),
        buddy_history(start, events),
    ensures
        buddy_sound(start, events),
    decreases events.len(),
{
    if events.len() == 0 {
        crate::blocks::lemma_all_free_count(start.blocks);
    } else {
        let view = buddy_after(start, events.drop_last());
        let held = held_blocks(events.drop_last());
        let after = buddy_after(start, events);
        lemma_buddy_sound(start, events.drop_last());
        match events.last() {
            BuddyEvent::Allocated { len, order, idx, source, j } => {
                lemma_allocation_tiles(view, held, len, order, idx, source, j);
            },
            BuddyEvent::Released { order, idx } => {
                assert(view.taken(order, idx));
                lemma_release_tiles(view, held, order, idx);
            },
            BuddyEvent::Wrote { order, idx, at, data } => {
                assert(view.taken(order, idx));
                crate::buddy::lemma_written(view, order, idx, at, data);
                assert(after.blocks == view.blocks);
                assert(tiles(after, held));
            },
            _ => {
                lemma_same_units(view, after);
                assert(tiles(after, held));
            },
        }
    }
}

/// What the free units decide does not change with counters and cursors.
proof fn lemma_same_units(a: BuddyView, b: BuddyView)
    requires
        a.inv(),
        b.memory == a.memory,
        b.total_size == a.total_size,
        b.min_block_size == a.min_block_size,
        b.blocks.units == a.blocks.units,
        b.blocks.max_order == a.blocks.max_order,
        b.blocks.cursors.len() == a.blocks.cursors.len(),
        b.zeroed == a.zeroed,
        b.init_policy == a.init_policy,
        b.metrics.bytes_reserved == a.metrics.bytes_reserved,
        b.metrics.bytes_live == a.metrics.bytes_live,
    ensures
        b.inv(),
        b.blocks.free_count() == a.blocks.free_count(),
{
    assert(b.scrubbed()) by {
        if let Some(zeroed) = b.zeroed {
            assert forall|i: int|
                0 <= i < b.total_size && b.blocks.units[b.unit_of(i)]
                    && zeroed[b.unit_of(i)] implies #[trigger] b.memory[i] == 0 by {
                assert(a.memory[i] == 0);
                assert(a.unit_of(i) == b.unit_of(i));
            }
        }
    }
    lemma_same_count(a.blocks, b.blocks, a.blocks.max_order + 1);
}

proof fn lemma_same_count(a: crate::blocks::BlocksView, b: crate::blocks::BlocksView, k: nat)
    requires
        b.units == a.units,
        b.max_order == a.max_order,
    ensures
        b.free_count_below(k) == a.free_count_below(k),
    decreases k,
{
    if k > 0 {
        lemma_same_count(a, b, (k - 1) as nat);
        assert(a.order_view((k - 1) as nat).free =~= b.order_view((k - 1) as nat).free);
    }
}

proof fn lemma_allocation_tiles(
    view: BuddyView,
    held: Set<(nat, int)>,
    len: nat,
    order: nat,
    idx: int,
    source: nat,
    j: int,
)
    requires
        view.inv(),
        tiles(view, held),
        view.wants(len, order),
        view.cut_from(order, idx, source, j, view.allocated(order, idx, source)),
    ensures
        ({
            let after = view.allocated(order, idx, source);
            &&& after.inv()
            &&& tiles(after, held.insert((order, idx)))
            &&& !held.contains((order, idx))
            &&& order <= source
            &&& after.blocks.free_count() + 1 == view.blocks.free_count() + (source - order)
            &&& after.memory.len() == view.memory.len()
        }),
{
    let after = view.allocated(order, idx, source);
    let more = held.insert((order, idx));
    crate::buddy::lemma_granted(view, len, order, idx, after);
    assert(view.blocks.order_view(source).free[j]);
    crate::blocks::lemma_cut_counts(view.blocks, source, j, order);
    lemma_same_count(view.blocks.without(order, idx), after.blocks, view.blocks.max_order + 1);
    crate::buddy::lemma_block_bounds(view, order, idx);
    assert forall|b: (nat, int)| #[trigger] held.contains(b) implies after.taken(b.0, b.1)
        && !crate::blocks::overlap(order, idx, b.0, b.1) by {
        assert(view.taken(b.0, b.1));
        crate::buddy::lemma_block_bounds(view, b.0, b.1);
        crate::laws::lemma_free_and_held_are_apart(view.blocks.units, order, idx, b.0, b.1);
        assert forall|u: int| crate::blocks::in_block(b.0, b.1, u) implies !(
        #[trigger] after.blocks.units[u]) by {
            assert(!view.blocks.units[u]);
        }
    }
    assert(!held.contains((order, idx))) by {
        if held.contains((order, idx)) {
            assert(!crate::blocks::overlap(order, idx, order, idx));
        }
    }
    assert forall|u: int|
        0 <= u < after.blocks.units.len() && !(#[trigger] after.blocks.units[u]) implies exists|
        b: (nat, int),
    | #[trigger] more.contains(b) && crate::blocks::in_block(b.0, b.1, u) by {
        if crate::blocks::in_block(order, idx, u) {
            assert(more.contains((order, idx)));
        } else {
            assert(!view.blocks.units[u]);
            let b = choose|b: (nat, int)| #[trigger]
                held.contains(b) && crate::blocks::in_block(b.0, b.1, u);
            assert(more.contains(b));
        }
    }
    assert forall|a: (nat, int), b: (nat, int)| #[trigger]
        more.contains(a) && #[trigger] more.contains(b) && a
            != b implies !crate::blocks::overlap(a.0, a.1, b.0, b.1) by {
        if a == (order, idx) {
            assert(held.contains(b));
        } else if b == (order, idx) {
            assert(held.contains(a));
        }
    }
}

proof fn lemma_release_tiles(view: BuddyView, held: Set<(nat, int)>, order: nat, idx: int)
    requires
        view.inv(),
        tiles(view, held),
        held.contains((order, idx)),
        view.taken(order, idx),
    ensures
        ({
            let after = view.released(order, idx);
            &&& after.inv()
            &&& tiles(after, held.remove((order, idx)))
            &&& order <= view.merged_order(order, idx)
            &&& after.blocks.free_count() + (view.merged_order(order, idx) - order)
                == view.blocks.free_count() + 1
            &&& after.memory.len() == view.memory.len()
        }),
{
    let after = view.released(order, idx);
    let less = held.remove((order, idx));
    crate::buddy::lemma_released(view, order, idx);
    crate::blocks::lemma_release_counts(view.blocks, order, idx);
    crate::buddy::lemma_block_bounds(view, order, idx);
    assert forall|b: (nat, int)| #[trigger] less.contains(b) implies after.taken(b.0, b.1) by {
        assert(held.contains(b) && held.contains((order, idx)));
        crate::buddy::lemma_block_bounds(view, b.0, b.1);
        assert forall|u: int| crate::blocks::in_block(b.0, b.1, u) implies !(
        #[trigger] after.blocks.units[u]) by {
            assert(!view.blocks.units[u]);
        }
    }
    assert forall|u: int|
        0 <= u < after.blocks.units.len() && !(#[trigger] after.blocks.units[u]) implies exists|
        b: (nat, int),
    | #[trigger] less.contains(b) && crate::blocks::in_block(b.0, b.1, u) by {
        assert(!view.blocks.units[u]);
        let b = choose|b: (nat, int)| #[trigger]
            held.contains(b) && crate::blocks::in_block(b.0, b.1, u);
        assert(b != (order, idx));
        assert(less.contains(b));
    }
}

proof fn lemma_buddy_tally(start: BuddyView, events: Seq<BuddyEvent>)
    requires
        start.inv(),
        start.idle(),
        Tally::none().shown_by(start.metrics),
        buddy_history(start, events),
    ensures
        buddy_tally(start, events).shown_by(buddy_after(start, events).metrics),
    decreases events.len(),
{
    if events.len() > 0 {
        let view = buddy_after(start, events.drop_last());
        let m = view.metrics;
        let t = buddy_tally(start, events.drop_last());
        lemma_buddy_tally(start, events.drop_last());
        lemma_buddy_sound(start, events.drop_last());
        lemma_counter(m.allocations_ok, t.allocated, 1);
        lemma_counter(m.allocations_failed, t.refused, 1);
        lemma_counter(m.frees, t.released, 1);
        lemma_counter(m.frozen, t.froze, 1);
        lemma_counter(m.spills, t.spilled, 1);
        lemma_order_fits(view);
        match events.last() {
            BuddyEvent::Allocated { order, source, .. } => {
                lemma_counter(m.splits, t.splits, (source - order) as u64);
            },
            BuddyEvent::Released { order, idx } => {
                assert(view.taken(order, idx));
                let k = crate::blocks::lemma_merged_block(view.blocks, order, idx);
                lemma_counter(m.coalesces, t.coalesces, (view.merged_order(order, idx) - order) as u64);
            },
            _ => {},
        }
    }
}

/// The orders of a region are few.
proof fn lemma_order_fits(view: BuddyView)
    requires
        view.inv(),
    ensures
        view.blocks.max_order < 64,
{
    reveal(is_pow2);
    let m = view.min_block_size as int;
    let p = pow2(view.blocks.max_order) as int;
    assert(p <= m * p) by (nonlinear_arith)
        requires
            1 <= m,
            0 <= p,
    ;
    crate::bits::lemma_exponent_bound(view.blocks.max_order);
}

/// Whatever calls are made, an arena keeps its invariant, its size, its least
/// block, its orders and its policies.
pub proof fn law_buddy_arena_keeps_its_shape(start: BuddyView, events: Seq<BuddyEvent>)
    requires
        start.inv(),
        start.idle(),
        buddy_history(start, events),
    ensures
        ({
            let after = buddy_after(start, events);
            &&& after.inv()
            &&& after.total_size == start.total_size
            &&& after.min_block_size == start.min_block_size
            &&& after.blocks.max_order == start.blocks.max_order
            &&& after.memory.len() == start.memory.len()
            &&& after.auto_spill == start.auto_spill
            &&& after.cap_capacity == start.cap_capacity
            &&& after.init_policy == start.init_policy
        }),
{
    lemma_buddy_sound(start, events);
}

/// The blocks that are out share no unit, and with the free blocks they make
/// up the region.
pub proof fn law_held_and_free_blocks_make_up_the_region(
    start: BuddyView,
    events: Seq<BuddyEvent>,
)
    requires
        start.inv(),
        start.idle(),
        buddy_history(start, events),
    ensures
        tiles(buddy_after(start, events), held_blocks(events)),
        buddy_after(start, events).free_bytes() + buddy_after(start, events).metrics.bytes_live
            == start.total_size,
{
    lemma_buddy_sound(start, events);
    crate::laws::law_free_and_live_bytes_make_up_the_region(buddy_after(start, events));
}

/// The counters of an arena show the calls made on it: allocations that
/// succeeded less releases is the number of blocks held.
pub proof fn law_buddy_metrics_count_the_calls(start: BuddyView, events: Seq<BuddyEvent>)
    requires
        start.inv(),
        start.idle(),
        Tally::none().shown_by(start.metrics),
        buddy_history(start, events),
    ensures
        ({
            let after = buddy_after(start, events);
            let tally = buddy_tally(start, events);
            &&& tally.shown_by(after.metrics)
            &&& tally.allocated - tally.released == held_blocks(events).len()
            &&& tally.splits - tally.coalesces == after.blocks.free_count() + held_blocks(
                events,
            ).len() - 1
        }),
{
    lemma_buddy_sound(start, events);
    lemma_buddy_tally(start, events);
}

/// When nothing is held, every split has been undone by a merge: the region is
/// one free block, which is the largest, and no byte is live.
pub proof fn law_idle_arena_has_merged_all_splits(
    start: BuddyView,
    events: Seq<BuddyEvent>,
    largest: int,
)
    requires
        start.inv(),
        start.idle(),
        Tally::none().shown_by(start.metrics),
        buddy_history(start, events),
        held_blocks(events).len() == 0,
        buddy_after(start, events).is_largest_free(largest),
    ensures
        ({
            let after = buddy_after(start, events);
            &&& after.idle()
            &&& after.metrics.splits == after.metrics.coalesces
            &&& after.metrics.bytes_live == 0
            &&& largest == after.total_size
        }),
{
    let after = buddy_after(start, events);
    let held = held_blocks(events);
    lemma_buddy_sound(start, events);
    lemma_buddy_tally(start, events);
    assert(held =~= Set::empty()) by {
        assert forall|b: (nat, int)| !held.contains(b) by {
            if held.contains(b) {
                vstd::set_lib::lemma_set_empty_equivalency_len(held);
            }
        }
    }
    assert forall|u: int| 0 <= u < after.blocks.units.len() implies #[trigger] after.blocks.units[u] by {
        if !after.blocks.units[u] {
            let b = choose|b: (nat, int)| #[trigger]
                held.contains(b) && crate::blocks::in_block(b.0, b.1, u);
            assert(held.contains(b));
        }
    }
    crate::blocks::lemma_all_free_count(after.blocks);
    crate::bits::lemma_count_bounds(after.blocks.units);
    assert(after.min_block_size * 0 == 0);
    let max = after.blocks.max_order;
    crate::blocks::law_all_free_is_one_block(after.blocks, max, 0);
    crate::bits::lemma_pow2_step(0);
    assert(after.blocks.order_view(max).free[0]);
    assert(after.blocks.any_free(max));
}

/// The event neither takes the block back nor writes into it.
pub open spec fn spares_block(event: BuddyEvent, order: nat, idx: int) -> bool {
    match event {
        BuddyEvent::Released { order: o, idx: i } => o != order || i != idx,
        BuddyEvent::Wrote { order: o, idx: i, .. } => o != order || i != idx,
        _ => true,
    }
}

/// A block that is out stays out, and the bytes in it stay what they are,
/// until it is released, whatever other calls are made. So a frozen value
/// reads the same as long as it is held.
pub proof fn law_held_block_keeps_its_bytes<M: Backing>(
    start: BuddyView,
    events: Seq<BuddyEvent>,
    since: int,
    order: nat,
    idx: int,
    n: int,
)
    requires
        start.inv(),
        start.idle(),
        buddy_history(start, events),
        0 <= since <= events.len(),
        held_blocks(events.take(since)).contains((order, idx)),
        0 <= n <= start.block_size(order),
        forall|k: int|
            since <= k < events.len() ==> spares_block(#[trigger] events[k], order, idx),
    ensures
        ({
            let then = buddy_after(start, events.take(since));
            let after = buddy_after(start, events);
            let at = then.block_start(order, idx);
            &&& held_blocks(events).contains((order, idx))
            &&& after.taken(order, idx)
            &&& after.block_start(order, idx) == at
            &&& crate::allocation::bytes_at::<BuddyArena<M>>(after, at, n)
                == crate::allocation::bytes_at::<BuddyArena<M>>(then, at, n)
        }),
    decreases events.len(),
{
    lemma_buddy_sound(start, events);
    if since == events.len() {
        assert(events.take(since) =~= events);
    } else {
        let prior_events = events.drop_last();
        let prior = buddy_after(start, prior_events);
        let after = buddy_after(start, events);
        let held = held_blocks(prior_events);
        assert(prior_events.take(since) =~= events.take(since));
        assert forall|k: int| since <= k < prior_events.len() implies spares_block(
            #[trigger] prior_events[k],
            order,
            idx,
        ) by {
            assert(prior_events[k] == events[k]);
        }
        law_held_block_keeps_its_bytes::<M>(start, prior_events, since, order, idx, n);
        lemma_buddy_sound(start, prior_events);
        assert(spares_block(events[events.len() - 1], order, idx));
        let at = prior.block_start(order, idx);
        crate::buddy::lemma_block_bounds(prior, order, idx);
        assert(prior.block_size(order) == start.block_size(order));
        assert(held.contains((order, idx)));
        assert(held_blocks(events).contains((order, idx)));
        assert forall|i: int| at <= i < at + n implies #[trigger] after.memory[i]
            == prior.memory[i] by {
            match events.last() {
                BuddyEvent::Allocated { len, order: o, idx: x, source, j } => {
                    crate::laws::law_allocating_keeps_live_blocks(
                        prior,
                        after,
                        len,
                        o,
                        x,
                        order,
                        idx,
                        i,
                    );
                },
                BuddyEvent::Released { order: o, idx: x } => {
                    assert(held.contains((o, x)));
                    crate::laws::law_releasing_keeps_live_blocks(prior, o, x, order, idx, i);
                },
                BuddyEvent::Wrote { order: o, idx: x, .. } => {
                    assert(held.contains((o, x)));
                    crate::laws::lemma_bytes_apart(prior, o, x, order, idx, i);
                },
                _ => {},
            }
        }
        assert(crate::allocation::bytes_at::<BuddyArena<M>>(after, at, n)
            =~= crate::allocation::bytes_at::<BuddyArena<M>>(prior, at, n));
    }
}

proof fn lemma_filter_step<E>(events: Seq<E>, kind: spec_fn(E) -> bool)
    ensures
        events.len() == 0 ==> events.filter(kind).len() == 0,
        events.len() > 0 ==> events.filter(kind).len() == events.drop_last().filter(kind).len()
            + if kind(events.last()) {
            1nat
        } else {
            0nat
        },
{
    reveal(Seq::filter);
}

proof fn lemma_fixed_kinds(events: Seq<FixedEvent>)
    ensures
        fixed_tally(events).allocated == events.filter(|e: FixedEvent| e is Allocated).len(),
        fixed_tally(events).refused == events.filter(|e: FixedEvent| e is Refused).len(),
        fixed_tally(events).released == events.filter(|e: FixedEvent| e is Released).len(),
        fixed_tally(events).froze == events.filter(|e: FixedEvent| e is Froze).len(),
        fixed_tally(events).spilled == events.filter(|e: FixedEvent| e is Spilled).len(),
    decreases events.len(),
{
    lemma_filter_step(events, |e: FixedEvent| e is Allocated);
    lemma_filter_step(events, |e: FixedEvent| e is Refused);
    lemma_filter_step(events, |e: FixedEvent| e is Released);
    lemma_filter_step(events, |e: FixedEvent| e is Froze);
    lemma_filter_step(events, |e: FixedEvent| e is Spilled);
    if events.len() > 0 {
        lemma_fixed_kinds(events.drop_last());
    }
}

/// What a fixed arena reports after any history: each counter is the number of
/// events of its kind, and the live bytes are those of the slots that are out.
pub proof fn law_fixed_snapshot_shows_the_history(start: FixedView, events: Seq<FixedEvent>)
    requires
        start.inv(),
        start.idle(),
        start.metrics.allocations_ok == 0,
        start.metrics.allocations_failed == 0,
        start.metrics.frees == 0,
        start.metrics.frozen == 0,
        start.metrics.spills == 0,
        start.metrics.splits == 0,
        start.metrics.coalesces == 0,
        fixed_history(start, events),
    ensures
        ({
            let shown = fixed_after(start, events).metrics.fixed();
            let range = 0x1_0000_0000_0000_0000int;
            let taken = events.filter(|e: FixedEvent| e is Allocated).len();
            let back = events.filter(|e: FixedEvent| e is Released).len();
            &&& shown.allocations_ok == taken % range as nat
            &&& shown.allocations_failed == events.filter(|e: FixedEvent| e is Refused).len()
                % range as nat
            &&& shown.frees == back % range as nat
            &&& shown.frozen == events.filter(|e: FixedEvent| e is Froze).len() % range as nat
            &&& shown.spills == events.filter(|e: FixedEvent| e is Spilled).len() % range as nat
            &&& shown.bytes_reserved == start.slot_count * start.slot_capacity
            &&& shown.bytes_live == (taken - back) * start.slot_capacity
        }),
{
    law_fixed_metrics_count_the_calls(start, events);
    law_fixed_arena_keeps_its_shape(start, events);
    lemma_fixed_kinds(events);
}

proof fn lemma_buddy_kinds(start: BuddyView, events: Seq<BuddyEvent>)
    ensures
        ({
            let tally = buddy_tally(start, events);
            &&& tally.allocated == events.filter(|e: BuddyEvent| e is Allocated).len()
            &&& tally.refused == events.filter(
                |e: BuddyEvent| e is Refused || e is Oversize,
            ).len()
            &&& tally.released == events.filter(|e: BuddyEvent| e is Released).len()
            &&& tally.froze == events.filter(|e: BuddyEvent| e is Froze).len()
            &&& tally.spilled == events.filter(|e: BuddyEvent| e is Spilled).len()
        }),
    decreases events.len(),
{
    lemma_filter_step(events, |e: BuddyEvent| e is Allocated);
    lemma_filter_step(events, |e: BuddyEvent| e is Refused || e is Oversize);
    lemma_filter_step(events, |e: BuddyEvent| e is Released);
    lemma_filter_step(events, |e: BuddyEvent| e is Froze);
    lemma_filter_step(events, |e: BuddyEvent| e is Spilled);
    if events.len() > 0 {
        lemma_buddy_kinds(start, events.drop_last());
    }
}

/// Least blocks that were handed out and did not come back.
pub open spec fn units_out(events: Seq<BuddyEvent>) -> int
    decreases events.len(),
{
    if events.len() == 0 {
        0
    } else {
        let before = units_out(events.drop_last());
        match events.last() {
            BuddyEvent::Allocated { order, .. } => before + pow2(order),
            BuddyEvent::Released { order, .. } => before - pow2(order),
            _ => before,
        }
    }
}

/// Halvings of blocks that the requests needed.
pub open spec fn halvings(events: Seq<BuddyEvent>) -> int
    decreases events.len(),
{
    if events.len() == 0 {
        0
    } else {
        halvings(events.drop_last()) + match events.last() {
            BuddyEvent::Allocated { order, source, .. } => source - order,
            _ => 0,
        }
    }
}

proof fn lemma_units_out(start: BuddyView, events: Seq<BuddyEvent>)
    requires
        start.inv(),
        start.idle(),
        buddy_history(start, events),
    ensures
        buddy_after(start, events).metrics.bytes_live == start.min_block_size * units_out(events),
        buddy_tally(start, events).splits == halvings(events),
    decreases events.len(),
{
    if events.len() == 0 {
        crate::bits::lemma_count_bounds(start.blocks.units);
        assert(start.min_block_size * 0 == 0);
    } else {
        let prior = events.drop_last();
        let view = buddy_after(start, prior);
        let m = start.min_block_size as int;
        lemma_units_out(start, prior);
        lemma_buddy_sound(start, prior);
        match events.last() {
            BuddyEvent::Allocated { len, order, idx, source, j } => {
                let after = view.allocated(order, idx, source);
                assert(view.grants(len, order, idx, after));
                crate::effects::law_block_allocation_effects(view, after, len, order, idx, 0, 0);
                lemma_mul_is_distributive_add(m, units_out(prior), pow2(order) as int);
            },
            BuddyEvent::Released { order, idx } => {
                assert(view.taken(order, idx));
                crate::effects::law_block_release_effects(view, order, idx, 0, 0);
                lemma_mul_is_distributive_sub(m, units_out(prior), pow2(order) as int);
            },
            _ => {},
        }
    }
}

/// What a buddy arena reports after any history: each counter is the number of
/// events of its kind. So the spills are the buffers that moved to the heap.
/// The splits are the halvings that the requests needed; less the merges, they
/// account for the blocks, free and held, beyond the first. The live bytes are
/// those of the blocks that are out.
pub proof fn law_buddy_snapshot_shows_the_history(
    start: BuddyView,
    events: Seq<BuddyEvent>,
    largest: usize,
)
    requires
        start.inv(),
        start.idle(),
        start.metrics.allocations_ok == 0,
        start.metrics.allocations_failed == 0,
        start.metrics.frees == 0,
        start.metrics.frozen == 0,
        start.metrics.spills == 0,
        start.metrics.splits == 0,
        start.metrics.coalesces == 0,
        buddy_history(start, events),
    ensures
        ({
            let after = buddy_after(start, events);
            let shown = after.metrics.buddy(largest);
            let range = 0x1_0000_0000_0000_0000int;
            let merges = halvings(events) + 1 - after.blocks.free_count() - held_blocks(
                events,
            ).len();
            &&& shown.allocations_ok == events.filter(|e: BuddyEvent| e is Allocated).len()
                % range as nat
            &&& shown.allocations_failed == events.filter(
                |e: BuddyEvent| e is Refused || e is Oversize,
            ).len() % range as nat
            &&& shown.frees == events.filter(|e: BuddyEvent| e is Released).len() % range as nat
            &&& shown.frozen == events.filter(|e: BuddyEvent| e is Froze).len() % range as nat
            &&& shown.spills == events.filter(|e: BuddyEvent| e is Spilled).len() % range as nat
            &&& shown.splits == halvings(events) % range
            &&& shown.coalesces == merges % range
            &&& shown.bytes_reserved == start.total_size
            &&& shown.bytes_live == start.min_block_size * units_out(events)
            &&& shown.largest_free_block == largest
        }),
{
    law_buddy_metrics_count_the_calls(start, events);
    law_buddy_arena_keeps_its_shape(start, events);
    lemma_buddy_kinds(start, events);
    lemma_units_out(start, events);
}

/// A call on a fixed arena with waiters.
pub enum AsyncFixedEvent<W> {
    /// A call that only the arena sees.
    Arena { event: FixedEvent },
    /// A turn of a waiting allocation, which leaves the waiters in `waiting`.
    Turn { event: FixedEvent, waiting: W },
    /// A wake was decided, which leaves the waiters in `waiting`.
    Woke { waiting: W, notify: bool },
}

/// The event can happen.
pub open spec fn async_fixed_possible<W: Waiter>(
    state: AsyncFixedView<W>,
    event: AsyncFixedEvent<W>,
) -> bool {
    match event {
        AsyncFixedEvent::Arena { event } => fixed_possible(state.arena, event),
        AsyncFixedEvent::Turn { event, waiting } => {
            &&& fixed_possible(state.arena, event)
            &&& {
                ||| event is Allocated && crate::async_alloc::turn_taken_back::<W>(
                    state.waiting,
                    waiting,
                )
                ||| event is Refused && exists|r: W::Registration| #[trigger]
                    crate::async_alloc::turn_waits::<W>(state.waiting, waiting, r)
            }
        },
        AsyncFixedEvent::Woke { waiting, notify } => state.freed > 0 && W::wakes(
            state.waiting,
            waiting,
            notify,
        ),
    }
}

/// The arena and its waiters after the event.
pub open spec fn async_fixed_next<W: Waiter>(
    state: AsyncFixedView<W>,
    event: AsyncFixedEvent<W>,
) -> AsyncFixedView<W> {
    match event {
        AsyncFixedEvent::Arena { event } => AsyncFixedView {
            arena: fixed_next(state.arena, event),
            freed: if event is Released {
                state.freed.wrapping_add(1)
            } else {
                state.freed
            },
            ..state
        },
        AsyncFixedEvent::Turn { event, waiting } => AsyncFixedView {
            arena: fixed_next(state.arena, event),
            waiting,
            ..state
        },
        AsyncFixedEvent::Woke { waiting, .. } => AsyncFixedView {
            waiting,
            freed: (state.freed - 1) as usize,
            ..state
        },
    }
}

/// The arena and its waiters after the events.
pub open spec fn async_fixed_after<W: Waiter>(
    start: AsyncFixedView<W>,
    events: Seq<AsyncFixedEvent<W>>,
) -> AsyncFixedView<W>
    decreases events.len(),
{
    if events.len() == 0 {
        start
    } else {
        async_fixed_next(async_fixed_after(start, events.drop_last()), events.last())
    }
}

/// The events can happen one after the other.
pub open spec fn async_fixed_history<W: Waiter>(
    start: AsyncFixedView<W>,
    events: Seq<AsyncFixedEvent<W>>,
) -> bool
    decreases events.len(),
{
    events.len() > 0 ==> {
        &&& async_fixed_history(start, events.drop_last())
        &&& async_fixed_possible(async_fixed_after(start, events.drop_last()), events.last())
    }
}

/// The slots that came back.
pub open spec fn slots_back<W>(events: Seq<AsyncFixedEvent<W>>) -> nat
    decreases events.len(),
{
    if events.len() == 0 {
        0
    } else {
        slots_back(events.drop_last()) + if events.last() matches AsyncFixedEvent::Arena { event }
            && event is Released {
            1nat
        } else {
            0nat
        }
    }
}

/// The wakes that were decided.
pub open spec fn wakes_decided<W>(events: Seq<AsyncFixedEvent<W>>) -> nat
    decreases events.len(),
{
    if events.len() == 0 {
        0
    } else {
        wakes_decided(events.drop_last()) + if events.last() is Woke {
            1nat
        } else {
            0nat
        }
    }
}

/// A slot that comes back owes one wake, is free by then, and leaves the
/// waiters alone.
pub proof fn law_release_of_a_slot_owes_one_wake<W: Waiter, M: Backing>(
    state: AsyncFixedView<W>,
    slot: usize,
)
    requires
        state.arena.inv(),
        state.arena.taken(slot as int),
        state.freed < usize::MAX,
    ensures
        ({
            let after = AsyncFixedArena::<W, M>::released(
                state,
                AllocationKind::Fixed { slot_idx: slot },
            );
            &&& after == async_fixed_next(
                state,
                AsyncFixedEvent::Arena { event: FixedEvent::Released { slot: slot as int } },
            )
            &&& after.freed == state.freed + 1
            &&& after.arena.slots.free[slot as int]
            &&& after.waiting == state.waiting
        }),
{
}

/// Each slot that came back leads to exactly one wake: as many wakes were
/// decided as slots came back, but for those that are still owed.
pub proof fn law_each_slot_is_woken_for_once<W: Waiter>(
    start: AsyncFixedView<W>,
    events: Seq<AsyncFixedEvent<W>>,
)
    requires
        start.freed == 0,
        async_fixed_history(start, events),
        events.len() <= usize::MAX,
    ensures
        slots_back(events) == wakes_decided(events) + async_fixed_after(start, events).freed,
        slots_back(events) <= events.len(),
    decreases events.len(),
{
    if events.len() > 0 {
        law_each_slot_is_woken_for_once(start, events.drop_last());
    }
}

/// A call on a buddy arena with waiters.
pub enum AsyncBuddyEvent<W> {
    /// A call that only the arena sees.
    Arena { event: BuddyEvent },
    /// A turn of a waiting allocation, which leaves the waiters in `waiting`.
    Turn { event: BuddyEvent, waiting: W, waits_at: usize, now_ns: u64 },
    /// Wakes were decided, which leaves the waiters in `waiting`.
    Woke { waiting: W, sent: Seq<Delivery> },
}

/// What the arena saw of the events.
pub open spec fn arena_events<W>(events: Seq<AsyncBuddyEvent<W>>) -> Seq<BuddyEvent>
    decreases events.len(),
{
    if events.len() == 0 {
        Seq::empty()
    } else {
        let seen = arena_events(events.drop_last());
        match events.last() {
            AsyncBuddyEvent::Arena { event } => seen.push(event),
            AsyncBuddyEvent::Turn { event, .. } => seen.push(event),
            AsyncBuddyEvent::Woke { .. } => seen,
        }
    }
}

/// The event can happen while the blocks `held` are out.
pub open spec fn async_buddy_possible<W: BuddyWaiter>(
    state: AsyncBuddyView<W>,
    held: Set<(nat, int)>,
    event: AsyncBuddyEvent<W>,
) -> bool {
    match event {
        AsyncBuddyEvent::Arena { event } => buddy_possible(state.arena, held, event),
        AsyncBuddyEvent::Turn { event, waiting, waits_at, now_ns } => {
            &&& buddy_possible(state.arena, held, event)
            &&& {
                ||| event is Allocated && crate::async_alloc::buddy_turn_taken_back::<W>(
                    state.waiting,
                    waiting,
                    waits_at,
                    now_ns,
                )
                ||| (event is Refused || event is Oversize) && exists|r: W::Registration| #[trigger]
                    crate::async_alloc::buddy_turn_waits::<W>(
                        state.waiting,
                        waiting,
                        waits_at,
                        now_ns,
                        r,
                    )
            }
        },
        AsyncBuddyEvent::Woke { waiting, sent } => state.freed.len() > 0 && W::wakes(
            state.waiting,
            waiting,
            state.freed[0],
            sent,
        ),
    }
}

/// The arena and its waiters after the event.
pub open spec fn async_buddy_next<W: BuddyWaiter>(
    state: AsyncBuddyView<W>,
    event: AsyncBuddyEvent<W>,
) -> AsyncBuddyView<W> {
    match event {
        AsyncBuddyEvent::Arena { event } => AsyncBuddyView {
            arena: buddy_next(state.arena, event),
            freed: match event {
                BuddyEvent::Released { order, idx } => state.freed.push(
                    state.arena.merged_order(order, idx) as usize,
                ),
                _ => state.freed,
            },
            ..state
        },
        AsyncBuddyEvent::Turn { event, waiting, .. } => AsyncBuddyView {
            arena: buddy_next(state.arena, event),
            waiting,
            ..state
        },
        AsyncBuddyEvent::Woke { waiting, .. } => AsyncBuddyView {
            waiting,
            freed: state.freed.skip(1),
            ..state
        },
    }
}

/// The arena and its waiters after the events.
pub open spec fn async_buddy_after<W: BuddyWaiter>(
    start: AsyncBuddyView<W>,
    events: Seq<AsyncBuddyEvent<W>>,
) -> AsyncBuddyView<W>
    decreases events.len(),
{
    if events.len() == 0 {
        start
    } else {
        async_buddy_next(async_buddy_after(start, events.drop_last()), events.last())
    }
}

/// The events can happen one after the other on an arena of which nothing is
/// out at first.
pub open spec fn async_buddy_history<W: BuddyWaiter>(
    start: AsyncBuddyView<W>,
    events: Seq<AsyncBuddyEvent<W>>,
) -> bool
    decreases events.len(),
{
    events.len() > 0 ==> {
        &&& async_buddy_history(start, events.drop_last())
        &&& async_buddy_possible(
            async_buddy_after(start, events.drop_last()),
            held_blocks(arena_events(events.drop_last())),
            events.last(),
        )
    }
}

/// For each block that came back, the order of the free block that it became
/// part of.
pub open spec fn orders_back<W: BuddyWaiter>(
    start: AsyncBuddyView<W>,
    events: Seq<AsyncBuddyEvent<W>>,
) -> Seq<usize>
    decreases events.len(),
{
    if events.len() == 0 {
        Seq::empty()
    } else {
        let prior = orders_back(start, events.drop_last());
        match events.last() {
            AsyncBuddyEvent::Arena { event: BuddyEvent::Released { order, idx } } => prior.push(
                async_buddy_after(start, events.drop_last()).arena.merged_order(
                    order,
                    idx,
                ) as usize,
            ),
            _ => prior,
        }
    }
}

/// The orders for which wakes were decided.
pub open spec fn orders_woken<W: BuddyWaiter>(
    start: AsyncBuddyView<W>,
    events: Seq<AsyncBuddyEvent<W>>,
) -> Seq<usize>
    decreases events.len(),
{
    if events.len() == 0 {
        Seq::empty()
    } else {
        let prior = orders_woken(start, events.drop_last());
        match events.last() {
            AsyncBuddyEvent::Woke { .. } => prior.push(
                async_buddy_after(start, events.drop_last()).freed[0],
            ),
            _ => prior,
        }
    }
}

/// A block that comes back owes one wake, for the order of the free block that
/// it became part of. It is free by then, and the waiters are left alone.
pub proof fn law_release_of_a_block_owes_one_wake<W: BuddyWaiter, M: Backing>(
    state: AsyncBuddyView<W>,
    order: usize,
    idx: usize,
)
    requires
        state.arena.inv(),
        state.arena.taken(order as nat, idx as int),
    ensures
        ({
            let after = AsyncBuddyArena::<W, M>::released(
                state,
                AllocationKind::Buddy { order, block_idx: idx },
            );
            let merged = state.arena.merged_order(order as nat, idx as int);
            &&& after == async_buddy_next(
                state,
                AsyncBuddyEvent::Arena {
                    event: BuddyEvent::Released { order: order as nat, idx: idx as int },
                },
            )
            &&& after.freed == state.freed.push(merged as usize)
            &&& merged as usize == merged
            &&& after.waiting == state.waiting
            &&& !after.arena.blocks.starved(merged)
        }),
{
    let after = state.arena.released(order as nat, idx as int);
    let merged = state.arena.merged_order(order as nat, idx as int);
    let k = crate::blocks::lemma_merged_block(state.arena.blocks, order as nat, idx as int);
    lemma_order_fits(state.arena);
    crate::buddy::lemma_released(state.arena, order as nat, idx as int);
    assert(crate::blocks::covered(after.blocks.units, merged, k));
    crate::blocks::law_starved_means_no_room(after.blocks, merged);
}

/// Each block that came back leads to exactly one wake, in the order in which
/// they came: those decided and those still owed are all that came back.
pub proof fn law_each_block_is_woken_for_once<W: BuddyWaiter>(
    start: AsyncBuddyView<W>,
    events: Seq<AsyncBuddyEvent<W>>,
)
    requires
        start.freed.len() == 0,
        async_buddy_history(start, events),
    ensures
        orders_back(start, events) == orders_woken(start, events) + async_buddy_after(
            start,
            events,
        ).freed,
    decreases events.len(),
{
    if events.len() == 0 {
        assert(orders_back(start, events) =~= orders_woken(start, events) + start.freed);
    } else {
        law_each_block_is_woken_for_once(start, events.drop_last());
        assert(orders_back(start, events) =~= orders_woken(start, events) + async_buddy_after(
            start,
            events,
        ).freed);
    }
}

} // verus!
