//! What the builders make of what they are asked for, in terms of bytes, slots
//! and blocks.
use vstd::prelude::*;
use vstd::arithmetic::power2::*;
use crate::arena::FixedArena;
use crate::async_alloc::{AsyncBuddyArena, AsyncFixedArena};
use crate::buddy::BuddyArena;
use crate::buddy_builder::BuddyPlan;
use crate::error::BuildError;
use crate::fixed_builder::FixedPlan;
use crate::memory::Backing;

verus! {

/// Slots are rounded up to the alignment and no further, and laid out side by
/// side. There is no layout where the alignment is no power of two or the bytes
/// are too many, and no other reason to refuse.
pub proof fn law_slots_are_rounded_up(plan: FixedPlan, c: int)
    requires
        plan.slot_capacity <= c < plan.slot_capacity + plan.config.alignment,
        c % plan.config.alignment as int == 0,
    ensures
        ({
            let alignment = plan.config.alignment as int;
            let fits = plan.slot_capacity + alignment - 1 <= usize::MAX && plan.slot_count * c
                <= isize::MAX;
            &&& !is_pow2(alignment) ==> plan.layout() == Err::<(int, int), BuildError>(
                BuildError::InvalidAlignment,
            )
            &&& is_pow2(alignment) && !fits ==> plan.layout() == Err::<(int, int), BuildError>(
                BuildError::SizeOverflow,
            )
            &&& is_pow2(alignment) && fits ==> plan.layout() == Ok::<(int, int), BuildError>(
                (c, plan.slot_count * c),
            )
            &&& is_pow2(alignment) && fits ==> plan.total() == plan.slot_count * c
        }),
{
    let alignment = plan.config.alignment as int;
    if is_pow2(alignment) {
        reveal(is_pow2);
        lemma_round_up_is(plan.slot_capacity as int, alignment, c);
    }
}

proof fn lemma_round_up_is(n: int, align: int, c: int)
    requires
        0 <= n,
        0 < align,
        n <= c < n + align,
        c % align == 0,
    ensures
        crate::bits::round_up(n, align) == c,
{
    crate::bits::law_aligning_finds_the_next_multiple(n, align);
    let r = crate::bits::round_up(n, align);
    let a = c / align;
    let b = r / align;
    vstd::arithmetic::div_mod::lemma_fundamental_div_mod(c, align);
    vstd::arithmetic::div_mod::lemma_fundamental_div_mod(r, align);
    assert(a == b) by (nonlinear_arith)
        requires
            c == align * a,
            r == align * b,
            n <= c < n + align,
            n <= r < n + align,
            0 < align,
    ;
}

/// A fixed arena is built as planned: with so many slots, of the rounded
/// capacity, all of them free, on the bytes that it was given, with nothing
/// counted. Building fails just where there is no layout, and says why.
pub proof fn law_fixed_arenas_are_built_as_planned<M: Backing>(
    plan: FixedPlan,
    memory: Seq<u8>,
    r: Result<FixedArena<M>, BuildError>,
    slot: int,
)
    requires
        plan.built(memory, r),
    ensures
        match r {
            Ok(arena) => {
                &&& is_pow2(plan.config.alignment as int)
                &&& arena@.slot_count == plan.slot_count
                &&& plan.slot_capacity <= arena@.slot_capacity
                &&& arena@.slot_capacity < plan.slot_capacity + plan.config.alignment
                &&& arena@.slot_capacity as int % plan.config.alignment as int == 0
                &&& arena@.slot_count * arena@.slot_capacity <= isize::MAX
                &&& arena@.memory == memory
                &&& arena@.auto_spill == plan.config.auto_spill
                &&& arena@.init_policy == plan.config.init_policy
                &&& arena@.slots.free.len() == plan.slot_count
                &&& 0 <= slot < plan.slot_count ==> arena@.slots.free[slot]
                &&& arena@.metrics.bytes_reserved == arena@.slot_count * arena@.slot_capacity
                &&& arena@.metrics.bytes_live == 0
                &&& arena@.metrics.allocations_ok == 0
                &&& arena@.metrics.allocations_failed == 0
                &&& arena@.metrics.frees == 0
                &&& arena@.metrics.frozen == 0
                &&& arena@.metrics.spills == 0
            },
            Err(e) => {
                &&& !is_pow2(plan.config.alignment as int) <==> e == BuildError::InvalidAlignment
                &&& is_pow2(plan.config.alignment as int) <==> e == BuildError::SizeOverflow
            },
        },
{
    if is_pow2(plan.config.alignment as int) {
        reveal(is_pow2);
        crate::bits::law_aligning_finds_the_next_multiple(
            plan.slot_capacity as int,
            plan.config.alignment as int,
        );
    }
}

/// The memory that a fixed builder allocates holds the slots, and every byte of
/// it is 0, also after the page walk.
pub proof fn law_own_memory_of_slots_is_zero(plan: FixedPlan, i: int)
    requires
        plan.config.walk() matches Some(page_size) ==> page_size > 0,
        0 <= plan.total(),
    ensures
        plan.own_memory().len() == plan.total(),
        plan.walked(plan.own_memory()).len() == plan.total(),
        0 <= i < plan.total() ==> plan.own_memory()[i] == 0,
        0 <= i < plan.total() ==> plan.walked(plan.own_memory())[i] == 0,
{
}

/// The page walk of a fixed builder sets the first byte of each page below the
/// end of the slots to 0 and leaves every other byte alone.
pub proof fn law_walk_of_slots_touches_page_starts(plan: FixedPlan, memory: Seq<u8>, i: int)
    requires
        0 <= i < memory.len(),
    ensures
        plan.walked(memory).len() == memory.len(),
        plan.config.walk() is None ==> plan.walked(memory) == memory,
        plan.config.walk() matches Some(page_size) ==> plan.walked(memory)[i] == (if i
            < plan.total() && i % page_size as int == 0 {
            0
        } else {
            memory[i]
        }),
{
}

/// A fixed arena with waiters is built as the arena alone; the waiters are
/// those that were handed in, and no wake is owed.
pub proof fn law_fixed_arenas_get_their_waiters<W>(
    plan: FixedPlan,
    waiters: W,
    r: Result<AsyncFixedArena<W>, BuildError>,
)
    requires
        plan.built_async(waiters, r),
    ensures
        match r {
            Ok(arena) => {
                &&& plan.built(plan.walked(plan.own_memory()), Ok(arena.arena()))
                &&& arena.waiting() == waiters
                &&& arena.freed() == 0
                &&& plan.layout() is Ok
            },
            Err(e) => plan.layout() is Err && plan.layout()->Err_0 == e,
        },
{
}

/// A buddy arena is built as planned: with the least block and the orders of
/// its geometry, all units free, on the bytes that it was given, with nothing
/// counted. Building fails just where the region is too large.
pub proof fn law_buddy_arenas_are_built_as_planned<M: Backing>(
    plan: BuddyPlan,
    memory: Seq<u8>,
    r: Result<BuddyArena<M>, BuildError>,
    u: int,
)
    requires
        plan.built(memory, r),
        plan.geometry.valid(),
    ensures
        r is Ok <==> plan.geometry.total_size <= isize::MAX,
        match r {
            Ok(arena) => {
                &&& arena@.total_size == plan.geometry.total_size
                &&& arena@.min_block_size == plan.geometry.min_block_size
                &&& arena@.blocks.max_order == plan.geometry.max_order
                &&& arena@.cap_capacity == plan.geometry.cap_capacity
                &&& arena@.memory == memory
                &&& arena@.auto_spill == plan.config.auto_spill
                &&& arena@.init_policy == plan.config.init_policy
                &&& arena@.blocks.units.len() == pow2(plan.geometry.max_order)
                &&& 0 <= u < pow2(plan.geometry.max_order) ==> arena@.blocks.units[u]
                &&& arena@.metrics.bytes_reserved == plan.geometry.total_size
                &&& arena@.metrics.bytes_live == 0
                &&& arena@.metrics.allocations_ok == 0
                &&& arena@.metrics.allocations_failed == 0
                &&& arena@.metrics.frees == 0
                &&& arena@.metrics.frozen == 0
                &&& arena@.metrics.spills == 0
                &&& arena@.metrics.splits == 0
                &&& arena@.metrics.coalesces == 0
            },
            Err(e) => e == BuildError::SizeOverflow,
        },
{
    reveal(is_pow2);
}

/// The memory that a buddy builder allocates is the whole region, and every
/// byte of it is 0, also after the page walk.
pub proof fn law_own_memory_of_blocks_is_zero(plan: BuddyPlan, i: int)
    requires
        0 <= plan.geometry.total_size,
        plan.config.walk() matches Some(page_size) ==> page_size > 0,
    ensures
        plan.own_memory().len() == plan.geometry.total_size,
        plan.walked(plan.own_memory()).len() == plan.geometry.total_size,
        0 <= i < plan.geometry.total_size ==> plan.own_memory()[i] == 0,
        0 <= i < plan.geometry.total_size ==> plan.walked(plan.own_memory())[i] == 0,
{
}

/// The page walk of a buddy builder sets the first byte of each page of the
/// region to 0 and leaves every other byte alone.
pub proof fn law_walk_of_blocks_touches_page_starts(plan: BuddyPlan, memory: Seq<u8>, i: int)
    requires
        0 <= i < memory.len(),
    ensures
        plan.walked(memory).len() == memory.len(),
        plan.config.walk() is None ==> plan.walked(memory) == memory,
        plan.config.walk() matches Some(page_size) ==> plan.walked(memory)[i] == (if i
            < plan.geometry.total_size && i % page_size as int == 0 {
            0
        } else {
            memory[i]
        }),
{
}

/// A buddy arena with waiters is built as the arena alone; the waiters are
/// those that were handed in, and no wake is owed.
pub proof fn law_buddy_arenas_get_their_waiters<W>(
    plan: BuddyPlan,
    waiters: W,
    r: Result<AsyncBuddyArena<W>, BuildError>,
)
    requires
        plan.built_async(waiters, r),
    ensures
        r is Ok <==> plan.geometry.total_size <= isize::MAX,
        match r {
            Ok(arena) => {
                &&& plan.built(plan.walked(plan.own_memory()), Ok(arena.arena()))
                &&& arena.waiting() == waiters
                &&& arena.freed().len() == 0
            },
            Err(e) => e == BuildError::SizeOverflow,
        },
{
}

} // verus!
