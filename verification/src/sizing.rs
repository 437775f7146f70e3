//! How a region that the caller provides is cut up.
use vstd::prelude::*;
use vstd::arithmetic::power2::*;
use vstd::arithmetic::div_mod::*;
use vstd::arithmetic::mul::*;
use crate::error::BuildError;
use crate::nonzero::NonZeroUsize;

verus! {

/// How to slice user-provided memory into fixed-size slots.
#[derive(Debug, Clone, Copy)]
pub enum SlotSpec {
    /// Slice into exactly this many equal-sized slots.
    /// Slot size is derived from `block_len / count`, aligned down.
    Count(NonZeroUsize),
    /// Slice into slots of this size.
    /// Slot count is derived from `block_len / size`.
    Size(NonZeroUsize),
}

impl SlotSpec {
    /// Slot count and slot capacity for a region, or the reason why there are
    /// none.
    pub open spec fn resolved(self, block_len: int, alignment: int) -> Result<
        (int, int),
        BuildError,
    > {
        match self {
            SlotSpec::Count(count) => {
                let size = crate::bits::round_down(block_len / count@ as int, alignment);
                if size == 0 {
                    Err(BuildError::ZeroUsableSlots)
                } else {
                    Ok((count@ as int, size))
                }
            },
            SlotSpec::Size(size) => {
                let size = crate::bits::round_down(size@ as int, alignment);
                if size == 0 {
                    Err(BuildError::ZeroUsableSlots)
                } else if size > block_len {
                    Err(BuildError::SlotSizeExceedsBacking)
                } else {
                    Ok((block_len / size, size))
                }
            },
        }
    }

    /// Resolves into (slot_count, slot_capacity) given the backing block
    /// length and alignment.
    pub fn resolve(&self, block_len: usize, alignment: usize) -> (r: Result<
        (usize, usize),
        BuildError,
    >)
        requires
            is_pow2(alignment as int),
        ensures
            match r {
                Ok((count, size)) => {
                    &&& self.resolved(block_len as int, alignment as int) == Ok::<
                        (int, int),
                        BuildError,
                    >((count as int, size as int))
                    &&& count > 0
                    &&& size > 0
                    &&& size % alignment == 0
                    &&& count * size <= block_len
                    &&& match *self {
                        SlotSpec::Count(n) => count == n@ && block_len < count * (size + alignment),
                        SlotSpec::Size(n) => {
                            &&& size <= n@ < size + alignment
                            &&& block_len < (count + 1) * size
                        },
                    }
                },
                Err(e) => {
                    &&& self.resolved(block_len as int, alignment as int) == Err::<
                        (int, int),
                        BuildError,
                    >(e)
                    &&& match *self {
                        SlotSpec::Count(n) => e == BuildError::ZeroUsableSlots && block_len < n@
                            * alignment,
                        SlotSpec::Size(n) => if n@ < alignment {
                            e == BuildError::ZeroUsableSlots
                        } else {
                            e == BuildError::SlotSizeExceedsBacking && block_len < n@ - n@ as int
                                % alignment as int
                        },
                    }
                },
            },
    {
        proof {
            crate::bits::lemma_mask_is_mod(0, alignment);
        }
        match *self {
            SlotSpec::Count(count) => {
                let n: usize = count.get();
                let raw_size: usize = block_len / n;
                let aligned_size: usize = crate::bits::align_down(raw_size, alignment);
                proof {
                    crate::bits::lemma_round_down(raw_size as int, alignment as int);
                    lemma_whole_slots(block_len as int, n as int, aligned_size as int);
                    lemma_no_larger_slot(
                        block_len as int,
                        n as int,
                        aligned_size as int,
                        alignment as int,
                    );
                }
                if aligned_size == 0 {
                    return Err(BuildError::ZeroUsableSlots);
                }
                Ok((n, aligned_size))
            },
            SlotSpec::Size(size) => {
                let n: usize = size.get();
                let aligned_size: usize = crate::bits::align_down(n, alignment);
                proof {
                    crate::bits::lemma_round_down(n as int, alignment as int);
                    if n < alignment {
                        lemma_small_mod(n as nat, alignment as nat);
                    }
                }
                if aligned_size == 0 {
                    return Err(BuildError::ZeroUsableSlots);
                }
                if aligned_size > block_len {
                    return Err(BuildError::SlotSizeExceedsBacking);
                }
                let count: usize = block_len / aligned_size;
                proof {
                    lemma_fundamental_div_mod(block_len as int, aligned_size as int);
                    lemma_mod_bound(block_len as int, aligned_size as int);
                    lemma_mul_is_commutative(aligned_size as int, count as int);
                    lemma_div_non_zero(block_len as int, aligned_size as int);
                    lemma_mul_is_distributive_add_other_way(
                        aligned_size as int,
                        count as int,
                        1,
                    );
                }
                if count == 0 {
                    return Err(BuildError::ZeroUsableSlots);
                }
                Ok((count, aligned_size))
            },
        }
    }
}

/// `n` slots of at most an `n`-th of the region fit the region.
proof fn lemma_whole_slots(len: int, n: int, size: int)
    requires
        0 < n,
        0 <= len,
        size <= len / n,
    ensures
        n * size <= len,
{
    lemma_fundamental_div_mod(len, n);
    lemma_mod_bound(len, n);
    lemma_mul_inequality(size, len / n, n);
    lemma_mul_is_commutative(n, size);
    lemma_mul_is_commutative(n, len / n);
}

/// `n` slots of one alignment step more do not fit the region.
proof fn lemma_no_larger_slot(len: int, n: int, size: int, align: int)
    requires
        0 < n,
        0 <= len,
        0 < align,
        size <= len / n < size + align,
    ensures
        len < n * (size + align),
{
    lemma_fundamental_div_mod(len, n);
    lemma_mod_bound(len, n);
    assert(len < n * (size + align)) by (nonlinear_arith)
        requires
            len == n * (len / n) + len % n,
            len % n < n,
            len / n + 1 <= size + align,
            0 < n,
    ;
}

/// Hint for deriving buddy geometry from user-provided memory.
#[derive(Debug, Clone, Copy)]
pub enum BuddyHint {
    /// Minimum allocation size. Max order derived from block length.
    MinAlloc(NonZeroUsize),
}

impl BuddyHint {
    /// The least block size for a region: the wanted size rounded up to a power
    /// of two where that fits, else rounded down.
    pub open spec fn min_block(self, block_len: int) -> int {
        match self {
            BuddyHint::MinAlloc(min) => if crate::bits::ceil_pow2(min@) <= block_len {
                crate::bits::ceil_pow2(min@) as int
            } else {
                crate::bits::floor_pow2(min@) as int
            },
        }
    }

    /// Create a hint specifying the minimum allocation size.
    pub fn min_alloc(size: NonZeroUsize) -> (r: Self)
        ensures
            r == BuddyHint::MinAlloc(size),
    {
        BuddyHint::MinAlloc(size)
    }

    /// Derives (min_block_size, max_order) from the hint and block length: as
    /// many doublings of the least block as the region holds.
    pub fn resolve(&self, block_len: usize) -> (r: Result<(usize, usize), BuildError>)
        ensures
            match r {
                Ok((min_block, max_order)) => {
                    &&& min_block == self.min_block(block_len as int)
                    &&& is_pow2(min_block as int)
                    &&& min_block * pow2(max_order as nat) <= block_len
                    &&& block_len < min_block * pow2((max_order + 1) as nat)
                    &&& self matches BuddyHint::MinAlloc(want) && if exists|p: int| #[trigger]
                        is_pow2(p) && want@ <= p <= block_len {
                        want@ <= min_block < 2 * want@
                    } else {
                        min_block <= want@ < 2 * min_block
                    }
                },
                Err(e) => {
                    &&& e == BuildError::ZeroUsableSlots
                    &&& block_len < self.min_block(block_len as int)
                    &&& self matches BuddyHint::MinAlloc(want) && forall|p: int| #[trigger]
                        is_pow2(p) && p <= block_len ==> 2 * p <= want@
                },
            },
    {
        match *self {
            BuddyHint::MinAlloc(min) => {
                let wanted: usize = min.get();
                proof {
                    crate::bits::lemma_ceil_pow2(wanted as nat);
                    crate::bits::lemma_floor_pow2(wanted as nat);
                }
                let up: Option<usize> = crate::bits::checked_next_power_of_two(wanted);
                let fits: bool = match up {
                    Some(p) => p <= block_len,
                    None => false,
                };
                let min_block: usize = if fits {
                    up.unwrap()
                } else {
                    let down: usize = crate::bits::prev_power_of_two(wanted);
                    if down == 0 || down > block_len {
                        proof {
                            assert forall|p: int| #[trigger] is_pow2(p) && p <= block_len implies 2
                                * p <= wanted by {
                                crate::bits::lemma_next_pow2_gap(p, down as int);
                            }
                        }
                        return Err(BuildError::ZeroUsableSlots);
                    }
                    down
                };
                let mut max_order: usize = 0;
                let mut total: usize = min_block;
                proof {
                    crate::bits::lemma_pow2_step(0);
                    assert(min_block * pow2(0) == min_block);
                }
                while total <= block_len / 2
                    invariant
                        0 < min_block <= block_len,
                        is_pow2(min_block as int),
                        max_order < total <= block_len,
                        total == min_block * pow2(max_order as nat),
                    decreases block_len - total,
                {
                    proof {
                        crate::bits::lemma_pow2_step(max_order as nat);
                        lemma_doubled(min_block as int, pow2(max_order as nat) as int);
                    }
                    total = total * 2;
                    max_order = max_order + 1;
                }
                proof {
                    crate::bits::lemma_pow2_step(max_order as nat);
                    lemma_doubled(min_block as int, pow2(max_order as nat) as int);
                }
                Ok((min_block, max_order))
            },
        }
    }
}

proof fn lemma_doubled(a: int, p: int)
    ensures
        a * (2 * p) == 2 * (a * p),
{
    assert(a * (2 * p) == 2 * (a * p)) by (nonlinear_arith);
}

/// Slots never reach beyond the region, and no two slots overlap.
pub proof fn law_slots_tile_the_region(count: int, size: int, len: int, a: int, b: int)
    requires
        count * size <= len,
        0 < size,
        0 <= a < b < count,
    ensures
        0 <= a * size,
        a * size + size <= b * size,
        b * size + size <= len,
{
    assert(0 <= a * size && a * size + size <= b * size && b * size + size <= count * size)
        by (nonlinear_arith)
        requires
            0 <= a,
            a + 1 <= b,
            b + 1 <= count,
            0 < size,
    ;
}

/// Cutting a region up by count gives exactly that many slots, of the largest
/// aligned size of which as many fit; by size, slots of the wanted size
/// aligned down, as many as fit. Cutting fails only where not one such slot
/// exists.
pub proof fn law_cutting_up_uses_the_region(spec: SlotSpec, len: int, alignment: int)
    requires
        0 <= len,
        is_pow2(alignment),
        spec matches SlotSpec::Count(n) ==> n@ > 0,
    ensures
        match (spec, spec.resolved(len, alignment)) {
            (SlotSpec::Count(n), Ok((count, size))) => {
                &&& count == n@
                &&& 0 < size
                &&& size % alignment == 0
                &&& count * size <= len < count * (size + alignment)
            },
            (SlotSpec::Size(n), Ok((count, size))) => {
                &&& 0 < count
                &&& 0 < size <= n@ < size + alignment
                &&& size % alignment == 0
                &&& count * size <= len < (count + 1) * size
            },
            (SlotSpec::Count(n), Err(e)) => e == BuildError::ZeroUsableSlots && len < n@
                * alignment,
            (SlotSpec::Size(n), Err(e)) => {
                ||| e == BuildError::ZeroUsableSlots && n@ < alignment
                ||| e == BuildError::SlotSizeExceedsBacking && alignment <= n@ && len < n@ - n@
                    as int % alignment
            },
        },
{
    reveal(is_pow2);
    match spec {
        SlotSpec::Count(n) => {
            let c = n@ as int;
            let raw = len / c;
            lemma_div_pos_is_pos(len, c);
            crate::bits::lemma_round_down(raw, alignment);
            let size = crate::bits::round_down(raw, alignment);
            lemma_whole_slots(len, c, size);
            lemma_no_larger_slot(len, c, size, alignment);
        },
        SlotSpec::Size(n) => {
            crate::bits::lemma_round_down(n@ as int, alignment);
            if n@ < alignment {
                lemma_small_mod(n@, alignment as nat);
            }
            let size = crate::bits::round_down(n@ as int, alignment);
            if 0 < size <= len {
                let count = len / size;
                lemma_fundamental_div_mod(len, size);
                lemma_mod_bound(len, size);
                lemma_mul_is_commutative(size, count);
                lemma_div_non_zero(len, size);
                lemma_mul_is_distributive_add_other_way(size, count, 1);
            }
        },
    }
}

/// The least block for a hint is the wanted size rounded up to a power of two
/// where the region has room for that, else rounded down.
pub proof fn law_least_block_follows_the_hint(want: NonZeroUsize, len: int, p: int)
    requires
        want@ > 0,
    ensures
        is_pow2(BuddyHint::MinAlloc(want).min_block(len)),
        is_pow2(p) && want@ <= p <= len ==> want@ <= BuddyHint::MinAlloc(want).min_block(len) <= p,
        (forall|q: int| #[trigger] is_pow2(q) && want@ <= q ==> len < q) ==> BuddyHint::MinAlloc(
            want,
        ).min_block(len) <= want@ < 2 * BuddyHint::MinAlloc(want).min_block(len),
{
    crate::bits::lemma_ceil_pow2(want@);
    crate::bits::lemma_floor_pow2(want@);
}

} // verus!
