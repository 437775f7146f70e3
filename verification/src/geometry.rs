//! Validated buddy arena geometry.
use vstd::prelude::*;
use vstd::arithmetic::power2::*;
use vstd::arithmetic::div_mod::*;
use vstd::arithmetic::mul::*;
use crate::error::BuildError;
use crate::nonzero::NonZeroUsize;

verus! {

/// Validated buddy arena geometry.
///
/// Constructed via [`BuddyGeometry::exact`] for strict validation or
/// [`BuddyGeometry::nearest`] for automatic adjustment. Once built, the
/// geometry is valid for arena construction.
#[derive(Debug, Clone, Copy, PartialEq, Eq)]
pub struct BuddyGeometry {
    total_size: usize,
    min_block_size: usize,
    max_order: usize,
    alignment: usize,
    cap_capacity: bool,
}

/// What a geometry stands for.
pub struct GeometryView {
    pub total_size: int,
    pub min_block_size: int,
    pub max_order: nat,
    pub alignment: int,
    pub cap_capacity: bool,
}

impl GeometryView {
    /// The region is a power-of-two number of blocks of a power-of-two size,
    /// and the alignment divides the block size.
    pub open spec fn valid(self) -> bool {
        &&& is_pow2(self.min_block_size)
        &&& self.total_size == self.min_block_size * pow2(self.max_order)
        &&& self.total_size <= usize::MAX
        &&& is_pow2(self.alignment)
        &&& self.alignment <= self.min_block_size
    }
}

/// The least power of two that holds `total` bytes and one block.
pub open spec fn snapped_total(total: int, min_block: int) -> int {
    if crate::bits::ceil_pow2(total as nat) <= min_block {
        min_block
    } else {
        crate::bits::ceil_pow2(total as nat) as int
    }
}

impl View for BuddyGeometry {
    type V = GeometryView;

    closed spec fn view(&self) -> GeometryView {
        GeometryView {
            total_size: self.total_size as int,
            min_block_size: self.min_block_size as int,
            max_order: self.max_order as nat,
            alignment: self.alignment as int,
            cap_capacity: self.cap_capacity,
        }
    }
}

impl BuddyGeometry {
    #[verifier::type_invariant]
    spec fn inv(self) -> bool {
        self@.valid()
    }

    /// Validates exact buddy geometry: `min_block_size` must be a power of two
    /// and `total_size` a power-of-two multiple of it.
    pub fn exact(total_size: NonZeroUsize, min_block_size: NonZeroUsize) -> (r: Result<
        Self,
        BuildError,
    >)
        ensures
            match r {
                Ok(g) => {
                    &&& g@.valid()
                    &&& is_pow2(min_block_size@ as int)
                    &&& total_size@ == min_block_size@ * pow2(g@.max_order)
                    &&& g@.total_size == total_size@
                    &&& g@.min_block_size == min_block_size@
                    &&& g@.alignment == 1
                    &&& !g@.cap_capacity
                },
                Err(e) => {
                    &&& e == BuildError::InvalidGeometry
                    &&& !(is_pow2(min_block_size@ as int) && exists|k: nat|
                        total_size@ == #[trigger] (min_block_size@ * pow2(k)))
                },
            },
    {
        let total: usize = total_size.get();
        let min_block: usize = min_block_size.get();
        match validate_buddy_geometry(total, min_block) {
            None => Err(BuildError::InvalidGeometry),
            Some(max_order) => {
                proof {
                    reveal(is_pow2);
                }
                Ok(
                    BuddyGeometry {
                        total_size: total,
                        min_block_size: min_block,
                        max_order,
                        alignment: 1,
                        cap_capacity: false,
                    },
                )
            },
        }
    }

    /// Builds valid buddy geometry by snapping inputs to the nearest valid
    /// values: `min_block_size` rounds up to a power of two, and `total_size`
    /// to a power-of-two multiple of it.
    ///
    /// Buffers of arenas with such a geometry report the requested capacity,
    /// not the full block size.
    pub fn nearest(total_size: NonZeroUsize, min_block_size: NonZeroUsize) -> (r: Result<
        Self,
        BuildError,
    >)
        ensures
            match r {
                Ok(g) => {
                    &&& g@.valid()
                    &&& g@.min_block_size == crate::bits::ceil_pow2(min_block_size@)
                    &&& g@.total_size == snapped_total(
                        total_size@ as int,
                        crate::bits::ceil_pow2(min_block_size@) as int,
                    )
                    &&& is_pow2(g@.min_block_size)
                    &&& min_block_size@ <= g@.min_block_size < 2 * min_block_size@
                    &&& g@.total_size == g@.min_block_size * pow2(g@.max_order)
                    &&& total_size@ <= g@.total_size
                    &&& g@.total_size < 2 * total_size@ || g@.total_size == g@.min_block_size
                    &&& g@.alignment == 1
                    &&& g@.cap_capacity
                },
                Err(e) => {
                    &&& e == BuildError::SizeOverflow
                    &&& (crate::bits::ceil_pow2(min_block_size@) > usize::MAX || snapped_total(
                        total_size@ as int,
                        crate::bits::ceil_pow2(min_block_size@) as int,
                    ) > usize::MAX)
                },
            },
    {
        let wanted: usize = min_block_size.get();
        proof {
            crate::bits::lemma_ceil_pow2(wanted as nat);
            crate::bits::lemma_ceil_pow2(total_size@);
        }
        match crate::bits::checked_next_power_of_two(wanted) {
            None => Err(BuildError::SizeOverflow),
            Some(min_block) => {
                match snap_to_valid_geometry(total_size.get(), min_block) {
                    Err(e) => Err(e),
                    Ok((total, max_order)) => {
                        proof {
                            reveal(is_pow2);
                        }
                        Ok(
                            BuddyGeometry {
                                total_size: total,
                                min_block_size: min_block,
                                max_order,
                                alignment: 1,
                                cap_capacity: true,
                            },
                        )
                    },
                }
            },
        }
    }

    /// Sets the alignment, which must be a power of two.
    ///
    /// For `exact` geometry it must not exceed `min_block_size`. For `nearest`
    /// geometry `min_block_size` snaps up to the alignment and the total size
    /// is recalculated.
    pub fn with_alignment(self, alignment: NonZeroUsize) -> (r: Result<Self, BuildError>)
        ensures
            match r {
                Ok(g) => {
                    &&& g@.valid()
                    &&& is_pow2(alignment@ as int)
                    &&& g@.alignment == alignment@
                    &&& g@.cap_capacity == self@.cap_capacity
                    &&& if alignment@ <= self@.min_block_size {
                        &&& g@.min_block_size == self@.min_block_size
                        &&& g@.total_size == self@.total_size
                        &&& g@.max_order == self@.max_order
                    } else {
                        &&& self@.cap_capacity
                        &&& g@.min_block_size == alignment@
                        &&& g@.total_size == snapped_total(self@.total_size, alignment@ as int)
                        &&& g@.total_size == alignment@ * pow2(g@.max_order)
                        &&& self@.total_size <= g@.total_size
                        &&& g@.total_size < 2 * self@.total_size || g@.total_size == alignment@
                    }
                },
                Err(BuildError::InvalidAlignment) => !is_pow2(alignment@ as int),
                Err(BuildError::InvalidGeometry) => is_pow2(alignment@ as int) && alignment@
                    > self@.min_block_size && !self@.cap_capacity,
                Err(BuildError::SizeOverflow) => is_pow2(alignment@ as int) && alignment@
                    > self@.min_block_size && self@.cap_capacity && snapped_total(
                    self@.total_size,
                    alignment@ as int,
                ) > usize::MAX,
                Err(_) => false,
            },
    {
        proof {
            use_type_invariant(&self);
            reveal(is_pow2);
            lemma_pow2_pos(self.max_order as nat);
            lemma_mul_strictly_positive(
                self.min_block_size as int,
                pow2(self.max_order as nat) as int,
            );
        }
        proof {
            crate::bits::lemma_ceil_pow2(self.total_size as nat);
        }
        let a: usize = alignment.get();
        if !crate::bits::is_power_of_two(a) {
            return Err(BuildError::InvalidAlignment);
        }
        if a <= self.min_block_size {
            return Ok(BuddyGeometry { alignment: a, ..self });
        }
        if !self.cap_capacity {
            return Err(BuildError::InvalidGeometry);
        }
        match snap_to_valid_geometry(self.total_size, a) {
            Err(e) => Err(e),
            Ok((total, max_order)) => Ok(
                BuddyGeometry {
                    total_size: total,
                    min_block_size: a,
                    max_order,
                    alignment: a,
                    cap_capacity: self.cap_capacity,
                },
            ),
        }
    }

    /// Total bytes managed by this geometry.
    pub fn total_size(&self) -> (r: usize)
        ensures
            r == self@.total_size,
            self@.valid(),
    {
        proof {
            use_type_invariant(self);
        }
        self.total_size
    }

    /// Smallest allocatable block size.
    pub fn min_block_size(&self) -> (r: usize)
        ensures
            r == self@.min_block_size,
    {
        self.min_block_size
    }

    /// Largest block order.
    pub fn max_order(&self) -> (r: usize)
        ensures
            r == self@.max_order,
    {
        self.max_order
    }

    /// Alignment for the backing allocation.
    pub fn alignment(&self) -> (r: usize)
        ensures
            r == self@.alignment,
    {
        self.alignment
    }

    /// Whether buffer capacity is capped to the requested size.
    pub fn cap_capacity(&self) -> (r: bool)
        ensures
            r == self@.cap_capacity,
    {
        self.cap_capacity
    }
}

/// Snaps `total_hint` up to the nearest valid geometry for the power of two
/// `min_block`. Returns `(total_size, max_order)`.
fn snap_to_valid_geometry(total_hint: usize, min_block: usize) -> (r: Result<
    (usize, usize),
    BuildError,
>)
    requires
        is_pow2(min_block as int),
        total_hint > 0,
    ensures
        match r {
            Ok((total, max_order)) => {
                &&& total == snapped_total(total_hint as int, min_block as int)
                &&& total == min_block * pow2(max_order as nat)
            },
            Err(e) => e == BuildError::SizeOverflow && snapped_total(
                total_hint as int,
                min_block as int,
            ) > usize::MAX,
        },
{
    let t: usize = if total_hint > min_block {
        total_hint
    } else {
        min_block
    };
    proof {
        reveal(is_pow2);
        crate::bits::lemma_ceil_pow2(total_hint as nat);
        if snapped_total(total_hint as int, min_block as int) <= usize::MAX {
            lemma_half_range(snapped_total(total_hint as int, min_block as int));
        }
    }
    match t.checked_add(min_block - 1) {
        None => Err(BuildError::SizeOverflow),
        Some(sum) => {
            let blocks: usize = sum / min_block;
            proof {
                lemma_snapped(total_hint as int, min_block as int, blocks as int);
            }
            match crate::bits::checked_next_power_of_two(blocks) {
                None => {
                    proof {
                        let p = crate::bits::ceil_pow2(blocks as nat) as int;
                        assert(p <= p * min_block) by (nonlinear_arith)
                            requires
                                p >= 0,
                                min_block >= 1,
                        ;
                    }
                    Err(BuildError::SizeOverflow)
                },
                Some(pow2_blocks) => match pow2_blocks.checked_mul(min_block) {
                    None => Err(BuildError::SizeOverflow),
                    Some(total) => {
                        proof {
                            crate::bits::lemma_ceil_pow2(blocks as nat);
                        }
                        let max_order: usize = crate::bits::log2(pow2_blocks);
                        proof {
                            lemma_mul_is_commutative(pow2_blocks as int, min_block as int);
                        }
                        Ok((total, max_order))
                    },
                },
            }
        },
    }
}

/// A power of two that fits a word is at most half the word's range.
proof fn lemma_half_range(p: int)
    requires
        is_pow2(p),
        p <= usize::MAX,
    ensures
        2 * p <= usize::MAX + 1,
{
    let k = crate::bits::lemma_exponent(p);
    crate::bits::lemma_exponent_bound(k);
    lemma2_to64();
    lemma2_to64_rest();
    crate::bits::lemma_pow2_le(k, (usize::BITS - 1) as nat);
}

/// Rounding up in whole blocks to a power of two gives the snapped total.
proof fn lemma_snapped(total: int, min_block: int, blocks: int)
    requires
        total > 0,
        is_pow2(min_block),
        blocks == ((if total > min_block {
            total
        } else {
            min_block
        }) + min_block - 1) / min_block,
    ensures
        blocks >= 1,
        crate::bits::ceil_pow2(blocks as nat) * min_block == snapped_total(total, min_block),
{
    reveal(is_pow2);
    let t = if total > min_block {
        total
    } else {
        min_block
    };
    let m = min_block;
    lemma_fundamental_div_mod(t + m - 1, m);
    lemma_mod_bound(t + m - 1, m);
    assert(m * blocks >= t && m * blocks < t + m);
    assert(blocks >= 1) by (nonlinear_arith)
        requires
            m * blocks >= t,
            t >= m,
            m >= 1,
    ;
    crate::bits::lemma_ceil_pow2(blocks as nat);
    crate::bits::lemma_ceil_pow2(total as nat);
    let p = crate::bits::ceil_pow2(blocks as nat) as int;
    let a = crate::bits::lemma_exponent(p);
    let b = crate::bits::lemma_exponent(m);
    lemma_pow2_adds(a, b);
    crate::bits::lemma_pow2_is_pow2(a + b);
    assert(is_pow2(p * m));
    assert(p * m >= t) by (nonlinear_arith)
        requires
            p >= blocks,
            m * blocks >= t,
            m >= 1,
    ;
    let s = snapped_total(total, m);
    assert(is_pow2(s) && s >= t);
    assert(s <= p * m);
    // Conversely the snapped total is a whole power-of-two number of blocks.
    let c = crate::bits::lemma_exponent(s);
    if c < b {
        lemma_pow2_strictly_increases(c, b);
    }
    lemma_pow2_adds((c - b) as nat, b);
    let q = pow2((c - b) as nat) as int;
    crate::bits::lemma_pow2_is_pow2((c - b) as nat);
    assert(q * m == s);
    assert(q >= blocks) by (nonlinear_arith)
        requires
            q * m >= t,
            m * blocks < t + m,
            m >= 1,
    ;
    assert(p <= q);
    assert(p * m <= q * m) by (nonlinear_arith)
        requires
            p <= q,
            m >= 1,
    ;
}

/// The order of the top block, if the sizes are a valid exact geometry.
fn validate_buddy_geometry(total_size: usize, min_block_size: usize) -> (r: Option<usize>)
    requires
        total_size > 0,
        min_block_size > 0,
    ensures
        match r {
            Some(k) => is_pow2(min_block_size as int) && total_size == min_block_size * pow2(
                k as nat,
            ),
            None => !(is_pow2(min_block_size as int) && exists|k: nat|
                total_size == #[trigger] ((min_block_size as nat) * pow2(k))),
        },
{
    if !crate::bits::is_power_of_two(min_block_size) {
        return None;
    }
    proof {
        lemma_fundamental_div_mod(total_size as int, min_block_size as int);
        assert forall|k: nat| total_size == #[trigger] ((min_block_size as nat) * pow2(k)) implies {
            &&& total_size >= min_block_size
            &&& total_size as int % min_block_size as int == 0
            &&& is_pow2(total_size as int / min_block_size as int)
        } by {
            let m = min_block_size as int;
            let p = pow2(k) as int;
            lemma_pow2_pos(k);
            assert(m * p >= m) by (nonlinear_arith)
                requires
                    p >= 1,
                    m >= 1,
            ;
            lemma_mul_is_commutative(m, p);
            lemma_mod_multiples_basic(p, m);
            lemma_div_by_multiple(p, m);
            crate::bits::lemma_pow2_is_pow2(k);
        }
    }
    if total_size < min_block_size {
        return None;
    }
    if total_size % min_block_size != 0 {
        return None;
    }
    let blocks: usize = total_size / min_block_size;
    if !crate::bits::is_power_of_two(blocks) {
        return None;
    }
    let max_order: usize = crate::bits::log2(blocks);
    Some(max_order)
}

/// The snapped total is a power of two that holds the request, and less than
/// twice the larger of the request and one block.
pub proof fn law_snapping_is_tight(total: int, min_block: int)
    requires
        total > 0,
        is_pow2(min_block),
    ensures
        is_pow2(snapped_total(total, min_block)),
        total <= snapped_total(total, min_block),
        min_block <= snapped_total(total, min_block),
        snapped_total(total, min_block) < 2 * (if total > min_block {
            total
        } else {
            min_block
        }),
{
    reveal(is_pow2);
    crate::bits::lemma_ceil_pow2(total as nat);
}

/// Inputs that are a valid geometry already are left unchanged by snapping.
pub proof fn law_snapping_keeps_valid(total: int, min_block: int, order: nat)
    requires
        is_pow2(min_block),
        total == min_block * pow2(order),
    ensures
        snapped_total(total, min_block) == total,
{
    reveal(is_pow2);
    let b = crate::bits::lemma_exponent(min_block);
    lemma_pow2_adds(b, order);
    crate::bits::lemma_pow2_is_pow2(b + order);
    crate::bits::lemma_ceil_pow2_fixed(total as nat);
    crate::bits::lemma_pow2_le(b, b + order);
}

/// A valid geometry is a power-of-two number of power-of-two blocks that its
/// alignment divides.
pub proof fn law_valid_geometry_divides_evenly(g: GeometryView)
    requires
        g.valid(),
    ensures
        is_pow2(g.min_block_size),
        is_pow2(g.total_size),
        g.total_size == g.min_block_size * pow2(g.max_order),
        g.total_size % g.min_block_size == 0,
        is_pow2(g.alignment),
        g.min_block_size % g.alignment == 0,
        g.alignment <= g.min_block_size <= g.total_size,
{
    reveal(is_pow2);
    let b = crate::bits::lemma_exponent(g.min_block_size);
    let a = crate::bits::lemma_exponent(g.alignment);
    lemma_pow2_adds(b, g.max_order);
    crate::bits::lemma_pow2_is_pow2(b + g.max_order);
    lemma_pow2_pos(g.max_order);
    lemma_mul_is_commutative(g.min_block_size, pow2(g.max_order) as int);
    lemma_mod_multiples_basic(pow2(g.max_order) as int, g.min_block_size);
    if b < a {
        lemma_pow2_strictly_increases(b, a);
    }
    lemma_pow2_adds((b - a) as nat, a);
    lemma_mod_multiples_basic(pow2((b - a) as nat) as int, g.alignment);
    crate::bits::lemma_pow2_le(b, b + g.max_order);
}

} // verus!
