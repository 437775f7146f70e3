//! Free blocks of a buddy region: which aligned power-of-two blocks are free,
//! how a block is split, and how neighbours merge.
use vstd::prelude::*;
use vstd::arithmetic::power2::*;
use vstd::arithmetic::div_mod::*;
use vstd::arithmetic::mul::*;
use vstd::bits::*;
use crate::bitmap::Bitmap;

verus! {

/// First unit of block `idx` of order `order`.
pub open spec fn block_lo(order: nat, idx: int) -> int {
    idx * pow2(order)
}

/// One past the last unit of block `idx` of order `order`.
pub open spec fn block_hi(order: nat, idx: int) -> int {
    block_lo(order, idx) + pow2(order)
}

/// The block lies in a region of `len` units.
pub open spec fn in_region(len: nat, order: nat, idx: int) -> bool {
    0 <= idx && block_hi(order, idx) <= len
}

/// Every unit of the block is free.
pub open spec fn covered(units: Seq<bool>, order: nat, idx: int) -> bool {
    &&& in_region(units.len(), order, idx)
    &&& forall|u: int| block_lo(order, idx) <= u < block_hi(order, idx) ==> #[trigger] units[u]
}

/// Every unit of the block is taken.
pub open spec fn held(units: Seq<bool>, order: nat, idx: int) -> bool {
    &&& in_region(units.len(), order, idx)
    &&& forall|u: int| block_lo(order, idx) <= u < block_hi(order, idx) ==> !#[trigger] units[u]
}

/// The block is a free block of its own: its units are free, and it is not
/// part of a larger block whose units are all free.
pub open spec fn free_block(units: Seq<bool>, max_order: nat, order: nat, idx: int) -> bool {
    covered(units, order, idx) && (order >= max_order || !covered(units, order + 1, idx / 2))
}

/// The units with every unit of the block taken.
pub open spec fn cleared(units: Seq<bool>, order: nat, idx: int) -> Seq<bool> {
    Seq::new(
        units.len(),
        |u: int|
            if block_lo(order, idx) <= u < block_hi(order, idx) {
                false
            } else {
                units[u]
            },
    )
}

/// The units with every unit of the block free.
pub open spec fn filled(units: Seq<bool>, order: nat, idx: int) -> Seq<bool> {
    Seq::new(
        units.len(),
        |u: int|
            if block_lo(order, idx) <= u < block_hi(order, idx) {
                true
            } else {
                units[u]
            },
    )
}

/// The other half of the parent of block `idx`.
pub open spec fn buddy_of(idx: int) -> int {
    if idx % 2 == 0 {
        idx + 1
    } else {
        idx - 1
    }
}

/// The order of the block that a released block ends up in: it merges upwards
/// as long as its buddy is free.
pub open spec fn merge_order(units: Seq<bool>, max_order: nat, order: nat, idx: int) -> nat
    decreases max_order - order,
{
    if order < max_order && covered(units, order, buddy_of(idx)) {
        merge_order(units, max_order, order + 1, idx / 2)
    } else {
        order
    }
}

/// The two blocks share a unit.
pub open spec fn overlap(a_order: nat, a_idx: int, b_order: nat, b_idx: int) -> bool {
    block_lo(a_order, a_idx) < block_hi(b_order, b_idx) && block_lo(b_order, b_idx) < block_hi(
        a_order,
        a_idx,
    )
}

/// A block and its two halves.
pub proof fn lemma_halves(order: nat, idx: int)
    ensures
        block_lo(order + 1, idx) == block_lo(order, 2 * idx),
        block_hi(order, 2 * idx) == block_lo(order, 2 * idx + 1),
        block_hi(order, 2 * idx + 1) == block_hi(order + 1, idx),
        pow2(order) > 0,
{
    crate::bits::lemma_pow2_step(order);
    let p = pow2(order) as int;
    assert(idx * (2 * p) == (2 * idx) * p) by (nonlinear_arith);
    assert((2 * idx) * p + p == (2 * idx + 1) * p) by (nonlinear_arith);
    assert((2 * idx + 1) * p + p == idx * (2 * p) + 2 * p) by (nonlinear_arith);
}

/// A block lies in its parent, and the parent is the block and its buddy.
pub proof fn lemma_parent(order: nat, idx: int)
    ensures
        block_lo(order + 1, idx / 2) <= block_lo(order, idx),
        block_hi(order, idx) <= block_hi(order + 1, idx / 2),
        block_lo(order, idx) < block_hi(order, idx),
        !overlap(order, idx, order, buddy_of(idx)),
        buddy_of(idx) / 2 == idx / 2,
        forall|u: int|
            #![trigger in_block(order, idx, u)]
            in_block(order + 1, idx / 2, u) ==> (in_block(order, idx, u) || in_block(
                order,
                buddy_of(idx),
                u,
            )),
{
    lemma_halves(order, idx / 2);
    assert(idx == 2 * (idx / 2) || idx == 2 * (idx / 2) + 1);
}

/// Unit `u` is in the block.
pub open spec fn in_block(order: nat, idx: int, u: int) -> bool {
    block_lo(order, idx) <= u < block_hi(order, idx)
}

/// Two blocks of one order are equal or share no unit.
proof fn lemma_same_order(order: nat, a: int, b: int)
    requires
        a != b,
    ensures
        !overlap(order, a, order, b),
{
    crate::bits::lemma_pow2_step(order);
    let p = pow2(order) as int;
    if a < b {
        assert(a * p + p <= b * p) by (nonlinear_arith)
            requires
                a + 1 <= b,
                p > 0,
        ;
    } else {
        assert(b * p + p <= a * p) by (nonlinear_arith)
            requires
                b + 1 <= a,
                p > 0,
        ;
    }
}

/// Two blocks share no unit, or the smaller lies in the larger.
pub proof fn lemma_nested(small: nat, j: int, large: nat, i: int)
    requires
        small <= large,
        overlap(small, j, large, i),
    ensures
        block_lo(large, i) <= block_lo(small, j),
        block_hi(small, j) <= block_hi(large, i),
        small < large ==> block_lo(large, i) <= block_lo(small + 1, j / 2) && block_hi(
            small + 1,
            j / 2,
        ) <= block_hi(large, i),
    decreases large - small,
{
    if small == large {
        if i != j {
            lemma_same_order(small, i, j);
        }
    } else {
        lemma_parent(small, j);
        lemma_nested(small + 1, j / 2, large, i);
    }
}

/// Taking a free block removes that block from the free blocks and leaves
/// every other as it was.
pub proof fn lemma_clear_free_block(units: Seq<bool>, max_order: nat, order: nat, idx: int)
    requires
        order <= max_order,
        free_block(units, max_order, order, idx),
    ensures
        forall|p: nat, j: int|
            #![trigger free_block(cleared(units, order, idx), max_order, p, j)]
            p <= max_order ==> free_block(cleared(units, order, idx), max_order, p, j) == (
            free_block(units, max_order, p, j) && !(p == order && j == idx)),
        held(cleared(units, order, idx), order, idx),
{
    let after = cleared(units, order, idx);
    assert forall|p: nat, j: int|
        #![trigger free_block(after, max_order, p, j)]
        p <= max_order implies free_block(after, max_order, p, j) == (free_block(
        units,
        max_order,
        p,
        j,
    ) && !(p == order && j == idx)) by {
        lemma_clear_at(units, max_order, order, idx, p, j);
    }
}

proof fn lemma_cleared_cover(units: Seq<bool>, order: nat, idx: int, p: nat, j: int)
    requires
        in_region(units.len(), order, idx),
    ensures
        covered(cleared(units, order, idx), p, j) == (covered(units, p, j) && !overlap(
            p,
            j,
            order,
            idx,
        )),
{
    let after = cleared(units, order, idx);
    crate::bits::lemma_pow2_step(order);
    crate::bits::lemma_pow2_step(p);
    lemma_nonneg(order, idx);
    if overlap(p, j, order, idx) {
        let u = if block_lo(p, j) >= block_lo(order, idx) {
            block_lo(p, j)
        } else {
            block_lo(order, idx)
        };
        if covered(after, p, j) {
            assert(!after[u]);
        }
    } else {
        if in_region(units.len(), p, j) {
            lemma_nonneg(p, j);
            if covered(after, p, j) {
                assert forall|u: int| in_block(p, j, u) implies #[trigger] units[u] by {
                    assert(after[u]);
                }
            }
            if covered(units, p, j) {
                assert forall|u: int| in_block(p, j, u) implies #[trigger] after[u] by {
                    assert(units[u]);
                }
            }
        }
    }
}

proof fn lemma_nonneg(order: nat, idx: int)
    requires
        0 <= idx,
    ensures
        0 <= block_lo(order, idx),
        pow2(order) > 0,
{
    crate::bits::lemma_pow2_step(order);
    lemma_mul_nonnegative(idx, pow2(order) as int);
}

proof fn lemma_cover_within(units: Seq<bool>, large: nat, i: int, small: nat, j: int)
    requires
        covered(units, large, i),
        0 <= j,
        block_lo(large, i) <= block_lo(small, j),
        block_hi(small, j) <= block_hi(large, i),
    ensures
        covered(units, small, j),
{
}

proof fn lemma_clear_at(
    units: Seq<bool>,
    max_order: nat,
    order: nat,
    idx: int,
    p: nat,
    j: int,
)
    requires
        order <= max_order,
        p <= max_order,
        free_block(units, max_order, order, idx),
    ensures
        free_block(cleared(units, order, idx), max_order, p, j) == (free_block(
            units,
            max_order,
            p,
            j,
        ) && !(p == order && j == idx)),
{
    lemma_cleared_cover(units, order, idx, p, j);
    lemma_cleared_cover(units, order, idx, p + 1, j / 2);
    crate::bits::lemma_pow2_step(order);
    crate::bits::lemma_pow2_step(p);
    if p == order && j == idx {
    } else if !covered(units, p, j) {
    } else if overlap(p, j, order, idx) {
        if p < order {
            // Inside the block: the parent is covered as well.
            lemma_nested(p, j, order, idx);
            lemma_cover_within(units, order, idx, p + 1, j / 2);
        } else if p == order {
            lemma_same_order(p, j, idx);
        } else {
            // A larger covered block would cover the parent of the block.
            lemma_nested(order, idx, p, j);
            lemma_cover_within(units, p, j, order + 1, idx / 2);
        }
    } else if p < max_order {
        if covered(units, p + 1, j / 2) && overlap(p + 1, j / 2, order, idx) {
            lemma_parent(p, j);
            if p + 1 <= order {
                lemma_nested(p + 1, j / 2, order, idx);
                assert(overlap(p, j, order, idx));
            } else {
                lemma_nested(order, idx, p + 1, j / 2);
                lemma_cover_within(units, p + 1, j / 2, order + 1, idx / 2);
            }
        }
    }
}

/// Putting back a block whose buddy is not free adds that block to the free
/// blocks and leaves every other as it was.
pub proof fn lemma_fill_block(units: Seq<bool>, max_order: nat, order: nat, idx: int)
    requires
        order <= max_order,
        held(units, order, idx),
        order == max_order || !covered(units, order, buddy_of(idx)),
        in_region(units.len(), max_order, 0),
        block_hi(max_order, 0) == units.len(),
    ensures
        forall|p: nat, j: int|
            #![trigger free_block(filled(units, order, idx), max_order, p, j)]
            p <= max_order ==> free_block(filled(units, order, idx), max_order, p, j) == (
            free_block(units, max_order, p, j) || (p == order && j == idx)),
{
    let after = filled(units, order, idx);
    lemma_nonneg(order, idx);
    assert(cleared(after, order, idx) =~= units);
    if order < max_order {
        lemma_parent(order, idx);
        if covered(after, order + 1, idx / 2) {
            let b = buddy_of(idx);
            lemma_halves(order, idx / 2);
            assert(b == 2 * (idx / 2) || b == 2 * (idx / 2) + 1);
            lemma_cover_within(after, order + 1, idx / 2, order, b);
            assert forall|u: int| in_block(order, b, u) implies #[trigger] units[u] by {
                assert(after[u]);
            }
            assert(covered(units, order, b));
        }
    }
    assert(free_block(after, max_order, order, idx));
    assert forall|p: nat, j: int|
        #![trigger free_block(after, max_order, p, j)]
        p <= max_order implies free_block(after, max_order, p, j) == (free_block(
        units,
        max_order,
        p,
        j,
    ) || (p == order && j == idx)) by {
        lemma_clear_at(after, max_order, order, idx, p, j);
    }
}

/// A free unit lies in a free block, and a unit of a free block is free.
pub proof fn lemma_units_of_blocks(units: Seq<bool>, max_order: nat, u: int)
    requires
        units.len() == pow2(max_order),
        0 <= u < units.len(),
    ensures
        units[u] <==> exists|o: nat| #[trigger]
            free_block(units, max_order, o, u / pow2(o) as int) && o <= max_order,
{
    if units[u] {
        crate::bits::lemma_pow2_step(0);
        assert(u / 1 == u);
        assert(covered(units, 0, u));
        lemma_enclosing_free_block(units, max_order, 0, u);
    }
    assert forall|o: nat| #[trigger]
        free_block(units, max_order, o, u / pow2(o) as int) && o <= max_order implies units[u] by {
        lemma_unit_in_block(o, u);
    }
}

proof fn lemma_unit_in_block(order: nat, u: int)
    ensures
        in_block(order, u / pow2(order) as int, u),
        (u / pow2(order) as int) / 2 == u / pow2(order + 1) as int,
{
    crate::bits::lemma_pow2_step(order);
    let p = pow2(order) as int;
    lemma_fundamental_div_mod(u, p);
    lemma_mod_bound(u, p);
    lemma_mul_is_commutative(p, u / p);
    lemma_div_denominator_any(u, p);
}

proof fn lemma_div_denominator_any(u: int, p: int)
    requires
        p > 0,
    ensures
        (u / p) / 2 == u / (2 * p),
{
    let q = u / p;
    let r = u % p;
    lemma_fundamental_div_mod(u, p);
    lemma_mod_bound(u, p);
    let h = q / 2;
    let b = q % 2;
    assert(u == (2 * p) * h + (b * p + r)) by (nonlinear_arith)
        requires
            u == p * q + r,
            q == 2 * h + b,
    ;
    assert(0 <= b * p + r < 2 * p) by (nonlinear_arith)
        requires
            0 <= b <= 1,
            0 <= r < p,
    ;
    lemma_fundamental_div_mod_converse(u, 2 * p, h, b * p + r);
}

/// The free block that encloses a covered block around `u`.
pub proof fn lemma_enclosing_free_block(units: Seq<bool>, max_order: nat, order: nat, u: int) -> (k:
    nat)
    requires
        order <= max_order,
        covered(units, order, u / pow2(order) as int),
    ensures
        order <= k <= max_order,
        free_block(units, max_order, k, u / pow2(k) as int),
    decreases max_order - order,
{
    lemma_unit_in_block(order, u);
    if order < max_order && covered(units, order + 1, u / pow2(order + 1) as int) {
        lemma_enclosing_free_block(units, max_order, order + 1, u)
    } else {
        order
    }
}

/// What a pool of blocks stands for: the free units, and where the next scan
/// of each order starts.
#[verifier::ext_equal]
pub struct BlocksView {
    pub max_order: nat,
    pub units: Seq<bool>,
    pub cursors: Seq<nat>,
}

impl BlocksView {
    /// One entry per unit and per order.
    pub open spec fn wf(self) -> bool {
        &&& self.units.len() == pow2(self.max_order)
        &&& self.cursors.len() == self.max_order + 1
    }

    /// A region of free units only, never scanned.
    pub open spec fn fresh(max_order: nat) -> BlocksView {
        BlocksView {
            max_order,
            units: Seq::new(pow2(max_order), |u: int| true),
            cursors: Seq::new(max_order + 1, |o: int| 0nat),
        }
    }

    /// The free blocks of one order.
    pub open spec fn order_view(self, order: nat) -> crate::bitmap::BitmapView {
        crate::bitmap::BitmapView {
            free: Seq::new(
                pow2((self.max_order - order) as nat),
                |i: int| free_block(self.units, self.max_order, order, i),
            ),
            cursor: self.cursors[order as int],
        }
    }

    /// Some block of this order is free.
    pub open spec fn any_free(self, order: nat) -> bool {
        order <= self.max_order && self.order_view(order).any_free()
    }

    /// `order` is the least order from `target` on with a free block.
    pub open spec fn serves(self, target: nat, order: nat) -> bool {
        &&& target <= order
        &&& self.any_free(order)
        &&& forall|o: nat| target <= o < order ==> !#[trigger] self.any_free(o)
    }

    /// No order from `target` on has a free block.
    pub open spec fn starved(self, target: nat) -> bool {
        forall|o: nat| target <= o <= self.max_order ==> !#[trigger] self.any_free(o)
    }

    /// Number of free blocks of the orders below `k`.
    pub open spec fn free_count_below(self, k: nat) -> nat
        decreases k,
    {
        if k == 0 {
            0
        } else {
            self.free_count_below((k - 1) as nat) + crate::bits::count_true(
                self.order_view((k - 1) as nat).free,
            )
        }
    }

    /// Units in the free blocks of the orders below `k`.
    pub open spec fn free_size_below(self, k: nat) -> nat
        decreases k,
    {
        if k == 0 {
            0
        } else {
            self.free_size_below((k - 1) as nat) + crate::bits::count_true(
                self.order_view((k - 1) as nat).free,
            ) * pow2((k - 1) as nat)
        }
    }

    /// Number of free blocks of all orders.
    pub open spec fn free_count(self) -> nat {
        self.free_count_below(self.max_order + 1)
    }

    /// Units in the free blocks of all orders.
    pub open spec fn free_size(self) -> nat {
        self.free_size_below(self.max_order + 1)
    }

    /// The pool after a scan of each order of `from..to`.
    pub open spec fn scanned(self, from: int, to: int) -> BlocksView {
        BlocksView {
            cursors: Seq::new(
                self.cursors.len(),
                |o: int|
                    if from <= o < to {
                        self.order_view(o as nat).scanned().cursor
                    } else {
                        self.cursors[o]
                    },
            ),
            ..self
        }
    }

    /// The pool after a scan of each order of `from..to` that the summary does
    /// not rule out.
    pub open spec fn scanned_where(self, from: int, to: int, summary: Option<usize>) -> BlocksView {
        BlocksView {
            cursors: Seq::new(
                self.cursors.len(),
                |o: int|
                    if from <= o < to && may_hold(summary, o) {
                        self.order_view(o as nat).scanned().cursor
                    } else {
                        self.cursors[o]
                    },
            ),
            ..self
        }
    }

    /// The pool with the block taken.
    pub open spec fn without(self, order: nat, idx: int) -> BlocksView {
        BlocksView { units: cleared(self.units, order, idx), ..self }
    }

    /// The pool with the block free.
    pub open spec fn with(self, order: nat, idx: int) -> BlocksView {
        BlocksView { units: filled(self.units, order, idx), ..self }
    }
}

/// The summary does not rule the order out. Without a summary none is.
pub open spec fn may_hold(summary: Option<usize>, order: int) -> bool {
    summary matches Some(bits) ==> crate::bits::bit(bits, order)
}

/// The pool of free blocks of one buddy region.
///
/// A free block stands in the bitmap of its order. Two free buddies never
/// stand beside each other: they are one block of the next order. A summary
/// word marks the orders that have a free block.
#[derive(Debug)]
pub struct BlockPool {
    free_bitmaps: Vec<Bitmap>,
    nonempty_orders: usize,
    max_order: usize,
}

/// The units of the blocks in the bitmaps.
spec fn units_in(maps: Seq<Bitmap>, max_order: nat) -> Seq<bool> {
    Seq::new(
        pow2(max_order),
        |u: int|
            exists|o: int|
                0 <= o <= max_order && #[trigger] maps[o]@.free[u / pow2(o as nat) as int],
    )
}

/// The bitmaps hold exactly the free blocks of `view`.
spec fn maps_hold(maps: Seq<Bitmap>, view: BlocksView) -> bool {
    &&& maps.len() == view.max_order + 1
    &&& forall|o: int|
        0 <= o <= view.max_order ==> (#[trigger] maps[o])@ == view.order_view(o as nat)
}

/// A unit's block index is within its order's bitmap.
proof fn lemma_block_index(max_order: nat, order: nat, u: int)
    requires
        order <= max_order,
        0 <= u < pow2(max_order),
    ensures
        0 <= u / pow2(order) as int,
        u / (pow2(order) as int) < pow2((max_order - order) as nat),
{
    crate::bits::lemma_pow2_step(order);
    lemma_pow2_adds(order, (max_order - order) as nat);
    let p = pow2(order) as int;
    let q = pow2((max_order - order) as nat) as int;
    lemma_div_pos_is_pos(u, p);
    lemma_multiply_divide_lt(u, p, q);
}

/// The bitmaps determine the units.
proof fn lemma_units_in(maps: Seq<Bitmap>, view: BlocksView)
    requires
        view.wf(),
        maps_hold(maps, view),
    ensures
        units_in(maps, view.max_order) == view.units,
{
    let max = view.max_order;
    assert forall|u: int| 0 <= u < pow2(max) implies units_in(maps, max)[u] == view.units[u] by {
        lemma_units_of_blocks(view.units, max, u);
        if view.units[u] {
            let o = choose|o: nat| #[trigger]
                free_block(view.units, max, o, u / pow2(o) as int) && o <= max;
            lemma_block_index(max, o, u);
            assert(maps[o as int]@ == view.order_view(o));
            assert(maps[o as int]@.free[u / pow2(o as int as nat) as int]);
        }
        if units_in(maps, max)[u] {
            let o = choose|o: int|
                0 <= o <= max && #[trigger] maps[o]@.free[u / pow2(o as nat) as int];
            lemma_block_index(max, o as nat, u);
            assert(maps[o]@ == view.order_view(o as nat));
            assert(free_block(view.units, max, o as nat, u / pow2(o as nat) as int));
        }
    }
    assert(units_in(maps, max) =~= view.units);
}

impl View for BlockPool {
    type V = BlocksView;

    closed spec fn view(&self) -> BlocksView {
        BlocksView {
            max_order: self.max_order as nat,
            units: units_in(self.free_bitmaps@, self.max_order as nat),
            cursors: Seq::new(
                (self.max_order + 1) as nat,
                |o: int| self.free_bitmaps@[o]@.cursor,
            ),
        }
    }
}

impl BlockPool {
    /// The bitmaps hold exactly the free blocks, and the summary is exact.
    pub closed spec fn wf(&self) -> bool {
        &&& self.shaped()
        &&& maps_hold(self.free_bitmaps@, self@)
        &&& forall|o: int| #[trigger]
            crate::bits::bit(self.nonempty_orders, o) <==> 0 <= o <= self.max_order
                && self.free_bitmaps@[o]@.any_free()
    }

    spec fn shaped(&self) -> bool {
        &&& pow2(self.max_order as nat) <= usize::MAX
        &&& self.free_bitmaps@.len() == self.max_order + 1
        &&& forall|o: int|
            0 <= o <= self.max_order ==> (#[trigger] self.free_bitmaps@[o]).wf()
    }

    /// Everything but the summary bit of `order` is as it should be.
    spec fn wf_but_summary(&self, order: int) -> bool {
        &&& self.shaped()
        &&& maps_hold(self.free_bitmaps@, self@)
        &&& forall|o: int|
            o != order ==> (#[trigger] crate::bits::bit(self.nonempty_orders, o) <==> 0 <= o
                <= self.max_order && self.free_bitmaps@[o]@.any_free())
    }

    /// Bitmaps that hold the blocks of `view` make the pool stand for `view`.
    proof fn lemma_stands_for(&self, view: BlocksView)
        requires
            view.wf(),
            self.max_order == view.max_order,
            maps_hold(self.free_bitmaps@, view),
        ensures
            self@ == view,
    {
        lemma_units_in(self.free_bitmaps@, view);
        assert forall|o: int| 0 <= o <= view.max_order implies self@.cursors[o]
            == view.cursors[o] by {
            assert(self.free_bitmaps@[o]@ == view.order_view(o as nat));
        }
        assert(self@ =~= view);
    }

    /// The region has as many units as blocks of order 0.
    pub proof fn lemma_shape(&self)
        requires
            self.wf(),
        ensures
            self@.wf(),
            pow2(self@.max_order) <= usize::MAX,
            self@.max_order < usize::BITS,
            block_lo(self@.max_order, 0) == 0,
            block_hi(self@.max_order, 0) == self@.units.len(),
    {
        crate::bits::lemma_exponent_bound(self.max_order as nat);
    }

    /// The summary marks exactly the orders with a free block.
    proof fn lemma_summary(&self)
        requires
            self.wf(),
        ensures
            forall|o: nat| #[trigger]
                self@.any_free(o) <==> crate::bits::bit(self.nonempty_orders, o as int),
            forall|o: int| #[trigger]
                crate::bits::bit(self.nonempty_orders, o) <==> 0 <= o && self@.any_free(o as nat),
    {
        assert forall|o: nat| #[trigger]
            self@.any_free(o) <==> crate::bits::bit(self.nonempty_orders, o as int) by {
            if o <= self.max_order {
                assert(self.free_bitmaps@[o as int]@ == self@.order_view(o));
            }
        }
        assert forall|o: int| #[trigger]
            crate::bits::bit(self.nonempty_orders, o) <==> 0 <= o && self@.any_free(o as nat) by {
            if 0 <= o {
                assert(self@.any_free(o as nat) <==> crate::bits::bit(self.nonempty_orders, o));
            }
        }
    }

    /// Clears the summary bit of an order without free blocks.
    fn maybe_clear_summary(&mut self, order: usize)
        requires
            old(self).wf_but_summary(order as int),
            order <= old(self).max_order,
            crate::bits::bit(old(self).nonempty_orders, order as int),
        ensures
            final(self).wf(),
            final(self)@ == old(self)@,
    {
        proof {
            crate::bits::lemma_exponent_bound(self.max_order as nat);
            crate::bits::lemma_bit_update(self.nonempty_orders, order);
        }
        if !self.free_bitmaps[order].any_free() {
            let mask: usize = 1usize << order;
            self.nonempty_orders = self.nonempty_orders & !mask;
            assert(self@ =~= old(self)@);
            assert forall|o: int| #[trigger]
                crate::bits::bit(self.nonempty_orders, o) <==> 0 <= o <= self.max_order
                    && self.free_bitmaps@[o]@.any_free() by {
                assert(crate::bits::bit(self.nonempty_orders, o) ==> 0 <= o < usize::BITS);
                if 0 <= o < usize::BITS && o != order {
                    assert(crate::bits::bit(old(self).nonempty_orders, o)
                        == crate::bits::bit(self.nonempty_orders, o));
                }
            }
        }
    }

    /// Takes the free block of `order` that the scan meets first.
    fn claim_from(&mut self, order: usize) -> (r: Option<usize>)
        requires
            old(self).wf(),
            order <= old(self)@.max_order,
        ensures
            final(self).wf(),
            match r {
                Some(idx) => {
                    &&& old(self)@.order_view(order as nat).picks(idx as int)
                    &&& final(self)@ == old(self)@.scanned(order as int, order + 1).without(
                        order as nat,
                        idx as int,
                    )
                },
                None => {
                    &&& !old(self)@.any_free(order as nat)
                    &&& final(self)@ == old(self)@.scanned(order as int, order + 1)
                },
            },
    {
        let ghost pre = self@;
        let ghost maps = self.free_bitmaps@;
        proof {
            self.lemma_shape();
            crate::bits::lemma_pow2_step((pre.max_order - order) as nat);
        }
        let claimed: Option<usize> = self.free_bitmaps[order].try_alloc();
        match claimed {
            Some(idx) => {
                proof {
                    lemma_clear_free_block(pre.units, pre.max_order, order as nat, idx as int);
                    let post = pre.scanned(order as int, order + 1).without(
                        order as nat,
                        idx as int,
                    );
                    assert forall|o: int| 0 <= o <= self.max_order implies (
                    #[trigger] self.free_bitmaps@[o])@ == post.order_view(o as nat) by {
                        assert(maps[o]@ == pre.order_view(o as nat));
                        assert(self.free_bitmaps@[o]@ =~= post.order_view(o as nat));
                    }
                    self.lemma_stands_for(post);
                    assert(crate::bits::bit(self.nonempty_orders, order as int)) by {
                        assert(maps[order as int]@.free[idx as int]);
                    }
                }
                self.maybe_clear_summary(order);
                Some(idx)
            },
            None => {
                proof {
                    let post = pre.scanned(order as int, order + 1);
                    assert forall|o: int| 0 <= o <= self.max_order implies (
                    #[trigger] self.free_bitmaps@[o])@ == post.order_view(o as nat) by {
                        assert(maps[o]@ == pre.order_view(o as nat));
                        assert(self.free_bitmaps@[o]@ =~= post.order_view(o as nat));
                    }
                    self.lemma_stands_for(post);
                    assert forall|o: int| 0 <= o <= self.max_order implies (
                    #[trigger] self.free_bitmaps@[o])@.any_free() == maps[o]@.any_free() by {
                        assert(self.free_bitmaps@[o]@.free == maps[o]@.free);
                    }
                }
                None
            },
        }
    }

    /// Takes exactly this block if it is a free block of its own.
    fn claim_exact(&mut self, order: usize, idx: usize) -> (r: bool)
        requires
            old(self).wf(),
            order <= old(self)@.max_order,
            idx < pow2((old(self)@.max_order - order) as nat),
        ensures
            final(self).wf(),
            r == free_block(
                old(self)@.units,
                old(self)@.max_order,
                order as nat,
                idx as int,
            ),
            final(self)@ == if r {
                old(self)@.without(order as nat, idx as int)
            } else {
                old(self)@
            },
    {
        let ghost pre = self@;
        let ghost maps = self.free_bitmaps@;
        proof {
            self.lemma_shape();
            assert(maps[order as int]@ == pre.order_view(order as nat));
        }
        let claimed: bool = self.free_bitmaps[order].try_claim_exact(idx);
        if claimed {
            proof {
                lemma_clear_free_block(pre.units, pre.max_order, order as nat, idx as int);
                let post = pre.without(order as nat, idx as int);
                assert forall|o: int| 0 <= o <= self.max_order implies (
                #[trigger] self.free_bitmaps@[o])@ == post.order_view(o as nat) by {
                    assert(maps[o]@ == pre.order_view(o as nat));
                    assert(self.free_bitmaps@[o]@ =~= post.order_view(o as nat));
                }
                self.lemma_stands_for(post);
                assert(crate::bits::bit(self.nonempty_orders, order as int)) by {
                    assert(maps[order as int]@.free[idx as int]);
                }
            }
            self.maybe_clear_summary(order);
        } else {
            proof {
                assert(self.free_bitmaps@[order as int]@ =~= maps[order as int]@);
                assert forall|o: int| 0 <= o <= self.max_order implies (
                #[trigger] self.free_bitmaps@[o])@ == pre.order_view(o as nat) by {
                    assert(maps[o]@ == pre.order_view(o as nat));
                }
                self.lemma_stands_for(pre);
                assert forall|o: int| 0 <= o <= self.max_order implies (
                #[trigger] self.free_bitmaps@[o])@.any_free() == maps[o]@.any_free() by {
                }
            }
        }
        claimed
    }

    /// Makes a taken block whose buddy is not free a free block of its own.
    fn publish(&mut self, order: usize, idx: usize)
        requires
            old(self).wf(),
            order <= old(self)@.max_order,
            held(old(self)@.units, order as nat, idx as int),
            order == old(self)@.max_order || !covered(
                old(self)@.units,
                order as nat,
                buddy_of(idx as int),
            ),
        ensures
            final(self).wf(),
            final(self)@ == old(self)@.with(order as nat, idx as int),
    {
        let ghost pre = self@;
        let ghost maps = self.free_bitmaps@;
        proof {
            self.lemma_shape();
            lemma_index_in_region(pre.max_order, order as nat, idx as int);
            assert(maps[order as int]@ == pre.order_view(order as nat));
            crate::bits::lemma_pow2_step(order as nat);
            lemma_nonneg(order as nat, idx as int);
            assert(!pre.units[block_lo(order as nat, idx as int)]);
            crate::bits::lemma_bit_update(self.nonempty_orders, order);
        }
        let mask: usize = 1usize << order;
        self.nonempty_orders = self.nonempty_orders | mask;
        self.free_bitmaps[order].free(idx);
        proof {
            lemma_fill_block(pre.units, pre.max_order, order as nat, idx as int);
            let post = pre.with(order as nat, idx as int);
            assert forall|o: int| 0 <= o <= self.max_order implies (
            #[trigger] self.free_bitmaps@[o])@ == post.order_view(o as nat) by {
                assert(maps[o]@ == pre.order_view(o as nat));
                assert(self.free_bitmaps@[o]@ =~= post.order_view(o as nat));
            }
            self.lemma_stands_for(post);
            assert(self.free_bitmaps@[order as int]@.free[idx as int]);
            assert forall|o: int| #[trigger]
                crate::bits::bit(self.nonempty_orders, o) <==> 0 <= o <= self.max_order
                    && self.free_bitmaps@[o]@.any_free() by {
                assert(crate::bits::bit(self.nonempty_orders, o) ==> 0 <= o < usize::BITS);
                if 0 <= o < usize::BITS && o != order {
                    assert(crate::bits::bit(old(self).nonempty_orders, o) == crate::bits::bit(
                        self.nonempty_orders,
                        o,
                    ));
                }
            }
        }
    }

    /// A pool of `pow2(max_order)` units, all free: one block of the top order.
    pub fn new(max_order: usize) -> (r: Self)
        requires
            pow2(max_order as nat) <= usize::MAX,
        ensures
            r.wf(),
            r@ == BlocksView::fresh(max_order as nat),
    {
        proof {
            crate::bits::lemma_exponent_bound(max_order as nat);
        }
        let mut free_bitmaps: Vec<Bitmap> = Vec::with_capacity(max_order + 1);
        let mut order: usize = 0;
        while order <= max_order
            invariant
                pow2(max_order as nat) <= usize::MAX,
                max_order < usize::BITS,
                order <= max_order + 1,
                free_bitmaps@.len() == order,
                forall|o: int| 0 <= o < order ==> (#[trigger] free_bitmaps@[o]).wf(),
                forall|o: int|
                    0 <= o < order ==> (#[trigger] free_bitmaps@[o])@
                        == (crate::bitmap::BitmapView {
                        free: Seq::new(pow2((max_order - o) as nat), |i: int| false),
                        cursor: 0,
                    }),
            decreases max_order + 1 - order,
        {
            let block_count: usize = blocks_at_order(max_order, order);
            free_bitmaps.push(Bitmap::new_empty(block_count));
            order = order + 1;
        }
        let mut pool = BlockPool { free_bitmaps, nonempty_orders: 0, max_order };
        proof {
            let none = BlocksView {
                max_order: max_order as nat,
                units: Seq::new(pow2(max_order as nat), |u: int| false),
                cursors: Seq::new((max_order + 1) as nat, |o: int| 0nat),
            };
            assert forall|o: int| 0 <= o <= max_order implies (#[trigger] pool.free_bitmaps@[o])@
                == none.order_view(o as nat) by {
                assert forall|i: int|
                    0 <= i < pow2((max_order - o) as nat) implies !(#[trigger] free_block(
                    none.units,
                    none.max_order,
                    o as nat,
                    i,
                )) by {
                    lemma_nonneg(o as nat, i);
                    if covered(none.units, o as nat, i) {
                        assert(none.units[block_lo(o as nat, i)]);
                    }
                }
                assert(pool.free_bitmaps@[o]@ =~= none.order_view(o as nat));
            }
            pool.lemma_stands_for(none);
            crate::bits::lemma_constant_words();
            crate::bits::lemma_pow2_step(max_order as nat);
            if covered(none.units, max_order as nat, buddy_of(0)) {
                assert(none.units[block_lo(max_order as nat, 1)]);
            }
        }
        pool.publish(max_order, 0);
        assert(pool@ =~= BlocksView::fresh(max_order as nat));
        pool
    }

    /// Takes a block from the least order, from `target_order` on, that the
    /// summary shows to have one.
    pub fn try_allocate_from_summary(&mut self, target_order: usize) -> (r: Option<(usize, usize)>)
        requires
            old(self).wf(),
        ensures
            final(self).wf(),
            match r {
                Some((order, idx)) => {
                    &&& old(self)@.serves(target_order as nat, order as nat)
                    &&& old(self)@.order_view(order as nat).picks(idx as int)
                    &&& final(self)@ == old(self)@.scanned(order as int, order + 1).without(
                        order as nat,
                        idx as int,
                    )
                },
                None => {
                    &&& old(self)@.starved(target_order as nat)
                    &&& final(self)@ == old(self)@
                },
            },
    {
        let summary: usize = self.nonempty_orders;
        let ghost pre = self@;
        let r: Option<(usize, usize)> = self.try_allocate_from_orders(target_order, Some(summary));
        proof {
            old(self).lemma_summary();
            let some = Some(summary);
            match r {
                Some((order, _)) => {
                    assert(pre.scanned_where(target_order as int, order + 1, some) =~= pre.scanned(
                        order as int,
                        order + 1,
                    ));
                },
                None => {
                    assert(pre.scanned_where(
                        target_order as int,
                        (pre.max_order + 1) as int,
                        some,
                    ) =~= pre);
                },
            }
        }
        r
    }

    /// Scans every order from `target_order` on for a free block.
    pub fn try_allocate_from_full_scan(
        &mut self,
        target_order: usize,
    ) -> (r: Option<(usize, usize)>)
        requires
            old(self).wf(),
        ensures
            final(self).wf(),
            match r {
                Some((order, idx)) => {
                    &&& old(self)@.serves(target_order as nat, order as nat)
                    &&& old(self)@.order_view(order as nat).picks(idx as int)
                    &&& final(self)@ == old(self)@.scanned(target_order as int, order + 1).without(
                        order as nat,
                        idx as int,
                    )
                },
                None => {
                    &&& old(self)@.starved(target_order as nat)
                    &&& final(self)@ == old(self)@.scanned(
                        target_order as int,
                        (old(self)@.max_order + 1) as int,
                    )
                },
            },
    {
        let ghost pre = self@;
        let r: Option<(usize, usize)> = self.try_allocate_from_orders(target_order, None);
        proof {
            assert forall|to: int| pre.scanned_where(target_order as int, to, None)
                == #[trigger] pre.scanned(target_order as int, to) by {
                assert(pre.scanned_where(target_order as int, to, None) =~= pre.scanned(
                    target_order as int,
                    to,
                ));
            }
        }
        r
    }

    /// Takes a block from the least order, from `target_order` on, that has one
    /// and is not ruled out by the summary.
    fn try_allocate_from_orders(
        &mut self,
        target_order: usize,
        summary: Option<usize>,
    ) -> (r: Option<(usize, usize)>)
        requires
            old(self).wf(),
        ensures
            final(self).wf(),
            match r {
                Some((order, idx)) => {
                    &&& target_order <= order
                    &&& may_hold(summary, order as int)
                    &&& old(self)@.any_free(order as nat)
                    &&& forall|o: nat|
                        target_order <= o < order && may_hold(summary, o as int)
                            ==> !#[trigger] old(self)@.any_free(o)
                    &&& old(self)@.order_view(order as nat).picks(idx as int)
                    &&& final(self)@ == old(self)@.scanned_where(
                        target_order as int,
                        order + 1,
                        summary,
                    ).without(order as nat, idx as int)
                },
                None => {
                    &&& forall|o: nat|
                        target_order <= o <= old(self)@.max_order && may_hold(summary, o as int)
                            ==> !#[trigger] old(self)@.any_free(o)
                    &&& final(self)@ == old(self)@.scanned_where(
                        target_order as int,
                        (old(self)@.max_order + 1) as int,
                        summary,
                    )
                },
            },
    {
        let ghost pre = self@;
        let mut order: usize = target_order;
        proof {
            self.lemma_shape();
            assert(pre.scanned_where(target_order as int, target_order as int, summary) =~= pre);
            if target_order > pre.max_order {
                assert(pre.scanned_where(
                    target_order as int,
                    (pre.max_order + 1) as int,
                    summary,
                ) =~= pre);
            }
        }
        while order <= self.max_order
            invariant
                self.wf(),
                pre == old(self)@,
                self@.max_order == pre.max_order,
                self.max_order == pre.max_order,
                pre.wf(),
                pre.max_order < usize::BITS,
                target_order <= order,
                order <= pre.max_order + 1 || order == target_order,
                self@ == pre.scanned_where(target_order as int, order as int, summary),
                forall|o: nat|
                    target_order <= o < order && may_hold(summary, o as int)
                        ==> !#[trigger] pre.any_free(o),
            decreases self.max_order + 1 - order,
        {
            let ghost mid = self@;
            let skip: bool = match summary {
                Some(bits) => {
                    proof {
                        crate::bits::lemma_bit_update(bits, order);
                    }
                    bits & (1usize << order) == 0
                },
                None => false,
            };
            assert(skip == !may_hold(summary, order as int));
            if skip {
                assert(mid =~= pre.scanned_where(target_order as int, order + 1, summary));
            } else {
                proof {
                    assert(mid.order_view(order as nat) =~= pre.order_view(order as nat));
                    assert(mid.scanned(order as int, order + 1) =~= pre.scanned_where(
                        target_order as int,
                        order + 1,
                        summary,
                    ));
                }
                match self.claim_from(order) {
                    Some(idx) => {
                        assert(pre.order_view(order as nat).free[idx as int]);
                        return Some((order, idx));
                    },
                    None => {},
                }
            }
            order = order + 1;
        }
        None
    }

    /// Splits a taken block down to `target_order`: the left half stays taken
    /// at each step and the right half becomes a free block.
    pub fn split_down(&mut self, order: usize, block_idx: usize, target_order: usize) -> (r: (
        usize,
        usize,
    ))
        requires
            old(self).wf(),
            target_order <= order <= old(self)@.max_order,
            held(old(self)@.units, order as nat, block_idx as int),
        ensures
            final(self).wf(),
            r.0 == target_order,
            r.1 == block_idx * pow2((order - target_order) as nat),
            final(self)@ == old(self)@.with(order as nat, block_idx as int).without(
                target_order as nat,
                r.1 as int,
            ),
    {
        let ghost pre = self@;
        let ghost whole = pre.with(order as nat, block_idx as int);
        let start_order: usize = order;
        let start_idx: usize = block_idx;
        let mut order: usize = order;
        let mut block_idx: usize = block_idx;
        proof {
            self.lemma_shape();
            crate::bits::lemma_pow2_step(0);
            assert(block_idx * pow2(0) == block_idx);
            lemma_nonneg(order as nat, block_idx as int);
            assert(self@ =~= whole.without(order as nat, block_idx as int));
        }
        while order > target_order
            invariant
                self.wf(),
                self@.max_order == pre.max_order,
                whole == pre.with(start_order as nat, start_idx as int),
                whole.wf(),
                target_order <= order <= start_order <= pre.max_order,
                covered(whole.units, order as nat, block_idx as int),
                block_idx == start_idx * pow2((start_order - order) as nat),
                self@ == whole.without(order as nat, block_idx as int),
            decreases order,
        {
            let child_order: usize = order - 1;
            proof {
                self.lemma_shape();
                lemma_halves(child_order as nat, block_idx as int);
                lemma_cover_within(
                    whole.units,
                    order as nat,
                    block_idx as int,
                    child_order as nat,
                    2 * block_idx,
                );
                lemma_cover_within(
                    whole.units,
                    order as nat,
                    block_idx as int,
                    child_order as nat,
                    2 * block_idx + 1,
                );
                lemma_index_in_region(pre.max_order, child_order as nat, 2 * block_idx + 1);
                crate::bits::lemma_pow2_le((pre.max_order - child_order) as nat, pre.max_order);
            }
            let left_child: usize = block_idx * 2;
            let right_child: usize = left_child + 1;
            proof {
                let units = self@.units;
                assert(held(units, child_order as nat, right_child as int));
                if covered(units, child_order as nat, left_child as int) {
                    assert(units[block_lo(child_order as nat, left_child as int)]);
                }
            }
            self.publish(child_order, right_child);
            proof {
                crate::bits::lemma_pow2_step((start_order - order) as nat);
                let p = pow2((start_order - order) as nat) as int;
                assert(start_idx * (2 * p) == (start_idx * p) * 2) by (nonlinear_arith);
                assert(self@ =~= whole.without(child_order as nat, left_child as int));
            }
            order = child_order;
            block_idx = left_child;
        }
        (order, block_idx)
    }

    /// Gives a taken block back. It merges with its buddy as long as that is
    /// free; the result is the order of the block that was published.
    pub fn release_block(&mut self, order: usize, block_idx: usize) -> (r: usize)
        requires
            old(self).wf(),
            order <= old(self)@.max_order,
            held(old(self)@.units, order as nat, block_idx as int),
        ensures
            final(self).wf(),
            final(self)@ == old(self)@.with(order as nat, block_idx as int),
            r == merge_order(
                old(self)@.units,
                old(self)@.max_order,
                order as nat,
                block_idx as int,
            ),
            order <= r <= old(self)@.max_order,
    {
        let ghost pre = self@;
        let ghost goal = pre.with(order as nat, block_idx as int);
        let ghost wanted = merge_order(
            pre.units,
            pre.max_order,
            order as nat,
            block_idx as int,
        );
        let start_order: usize = order;
        let mut order: usize = order;
        let mut block_idx: usize = block_idx;
        while order < self.max_order
            invariant
                self.wf(),
                pre.wf(),
                self@.max_order == pre.max_order,
                self.max_order == pre.max_order,
                start_order <= order <= pre.max_order,
                held(self@.units, order as nat, block_idx as int),
                self@.cursors == pre.cursors,
                forall|u: int|
                    0 <= u < pre.units.len() && !in_block(order as nat, block_idx as int, u)
                        ==> self@.units[u] == #[trigger] pre.units[u],
                self@.with(order as nat, block_idx as int) == goal,
                wanted == merge_order(
                    pre.units,
                    pre.max_order,
                    order as nat,
                    block_idx as int,
                ),
            ensures
                order == self.max_order || !covered(
                    self@.units,
                    order as nat,
                    buddy_of(block_idx as int),
                ),
                wanted == order,
            decreases self.max_order - order,
        {
            let ghost mid = self@;
            let buddy_idx: usize = block_idx ^ 1;
            proof {
                self.lemma_shape();
                assert(block_idx ^ 1 == if block_idx % 2 == 0 {
                    (block_idx + 1) as int
                } else {
                    block_idx - 1
                }) by (bit_vector);
                assert(buddy_idx == buddy_of(block_idx as int));
                lemma_buddy_in_region(pre.max_order, order as nat, block_idx as int);
                lemma_parent(order as nat, block_idx as int);
                lemma_same_cover(
                    pre.units,
                    mid.units,
                    order as nat,
                    block_idx as int,
                    buddy_idx as int,
                );
                if covered(mid.units, order as nat + 1, block_idx as int / 2) {
                    assert(mid.units[block_lo(order as nat, block_idx as int)]);
                }
            }
            if !self.claim_exact(order, buddy_idx) {
                break;
            }
            proof {
                lemma_merged(mid, goal, order as nat, block_idx as int);
            }
            block_idx = block_idx / 2;
            order = order + 1;
        }
        self.publish(order, block_idx);
        order
    }

    /// The greatest order that has a free block.
    pub fn largest_free_order(&self) -> (r: Option<usize>)
        requires
            self.wf(),
        ensures
            match r {
                Some(order) => self@.any_free(order as nat) && forall|o: nat|
                    order < o <= self@.max_order ==> !#[trigger] self@.any_free(o),
                None => self@.starved(0),
            },
    {
        proof {
            self.lemma_shape();
        }
        let mut left: usize = self.max_order + 1;
        while left > 0
            invariant
                self.wf(),
                left <= self@.max_order + 1,
                self@.max_order == self.max_order,
                forall|o: nat| left <= o <= self@.max_order ==> !#[trigger] self@.any_free(o),
            decreases left,
        {
            let order: usize = left - 1;
            assert(self.free_bitmaps@[order as int]@ == self@.order_view(order as nat));
            if self.free_bitmaps[order].any_free() {
                return Some(order);
            }
            left = order;
        }
        None
    }

    /// Greatest block order.
    pub fn max_order(&self) -> (r: usize)
        ensures
            r == self@.max_order,
    {
        self.max_order
    }

    /// Bit `o` of the result is set when order `o` has a free block.
    pub fn nonempty_orders(&self) -> (r: usize)
        requires
            self.wf(),
        ensures
            forall|o: int| #[trigger]
                crate::bits::bit(r, o) <==> 0 <= o && self@.any_free(o as nat),
    {
        proof {
            self.lemma_summary();
        }
        self.nonempty_orders
    }

    /// Number of free blocks of one order.
    pub fn free_block_count(&self, order: usize) -> (r: usize)
        requires
            self.wf(),
            order <= self@.max_order,
        ensures
            r == crate::bits::count_true(self@.order_view(order as nat).free),
    {
        assert(self.free_bitmaps@[order as int]@ == self@.order_view(order as nat));
        self.free_bitmaps[order].free_count()
    }

    /// Whether the block is a free block of its own.
    pub fn is_block_free(&self, order: usize, block_idx: usize) -> (r: bool)
        requires
            self.wf(),
            order <= self@.max_order,
            block_idx < pow2((self@.max_order - order) as nat),
        ensures
            r == free_block(self@.units, self@.max_order, order as nat, block_idx as int),
    {
        assert(self.free_bitmaps@[order as int]@ == self@.order_view(order as nat));
        self.free_bitmaps[order].is_free(block_idx)
    }
}

/// Blocks of order `order` in a region whose top order is `max_order`.
pub fn blocks_at_order(max_order: usize, order: usize) -> (r: usize)
    requires
        order <= max_order,
        pow2(max_order as nat) <= usize::MAX,
    ensures
        r == pow2((max_order - order) as nat),
{
    proof {
        crate::bits::lemma_exponent_bound(max_order as nat);
        crate::bits::lemma_pow2_le((max_order - order) as nat, max_order as nat);
        lemma_usize_shl_is_mul(1, (max_order - order) as usize);
    }
    1usize << (max_order - order)
}

proof fn lemma_buddy_in_region(max_order: nat, order: nat, idx: int)
    requires
        order < max_order,
        in_region(pow2(max_order), order, idx),
    ensures
        in_region(pow2(max_order), order, buddy_of(idx)),
        0 <= buddy_of(idx) < pow2((max_order - order) as nat),
        in_region(pow2(max_order), order + 1, idx / 2),
{
    lemma_index_in_region(max_order, order, idx);
    crate::bits::lemma_pow2_step((max_order - order - 1) as nat);
    lemma_index_in_region(max_order, order, buddy_of(idx));
    lemma_index_in_region(max_order, order + 1, idx / 2);
}

/// Outside the held block the units agree, so the buddy is covered in both or
/// in neither.
proof fn lemma_same_cover(a: Seq<bool>, b: Seq<bool>, order: nat, idx: int, other: int)
    requires
        a.len() == b.len(),
        other == buddy_of(idx),
        in_region(a.len(), order, other),
        forall|u: int| 0 <= u < a.len() && !in_block(order, idx, u) ==> b[u] == #[trigger] a[u],
    ensures
        covered(a, order, other) == covered(b, order, other),
{
    lemma_parent(order, idx);
    lemma_nonneg(order, other);
    assert forall|u: int| in_block(order, other, u) implies a[u] == #[trigger] b[u] by {
        assert(a[u] == a[u]);
    }
    if covered(a, order, other) {
        assert forall|u: int| in_block(order, other, u) implies #[trigger] b[u] by {
            assert(a[u]);
        }
    }
    if covered(b, order, other) {
        assert forall|u: int| in_block(order, other, u) implies #[trigger] a[u] by {
            assert(b[u]);
        }
    }
}

/// Taking the free buddy of a held block makes the parent held.
proof fn lemma_merged(mid: BlocksView, goal: BlocksView, order: nat, idx: int)
    requires
        mid.wf(),
        order < mid.max_order,
        held(mid.units, order, idx),
        covered(mid.units, order, buddy_of(idx)),
        mid.with(order, idx) == goal,
    ensures
        held(mid.without(order, buddy_of(idx)).units, order + 1, idx / 2),
        mid.without(order, buddy_of(idx)).with(order + 1, idx / 2) == goal,
        forall|u: int|
            0 <= u < mid.units.len() && !in_block(order + 1, idx / 2, u)
                ==> mid.without(order, buddy_of(idx)).units[u] == #[trigger] mid.units[u],
{
    let b = buddy_of(idx);
    let after = mid.without(order, b);
    lemma_parent(order, idx);
    lemma_parent(order, b);
    lemma_buddy_in_region(mid.max_order, order, idx);
    lemma_nonneg(order + 1, idx / 2);
    assert forall|u: int| in_block(order + 1, idx / 2, u) implies !#[trigger] after.units[u] by {
        if in_block(order, idx, u) {
            assert(!mid.units[u]);
        } else {
            assert(in_block(order, b, u));
        }
    }
    assert forall|u: int| 0 <= u < mid.units.len() implies #[trigger] after.with(
        order + 1,
        idx / 2,
    ).units[u] == goal.units[u] by {
        if in_block(order + 1, idx / 2, u) {
            if !in_block(order, idx, u) {
                assert(in_block(order, b, u));
                assert(mid.units[u]);
            }
        }
    }
    assert(after.with(order + 1, idx / 2) =~= goal);
}

/// A block of the region has an index below the number of blocks of its order.
pub proof fn lemma_index_in_region(max_order: nat, order: nat, idx: int)
    requires
        order <= max_order,
        0 <= idx,
    ensures
        in_region(pow2(max_order), order, idx) <==> idx < pow2((max_order - order) as nat),
{
    crate::bits::lemma_pow2_step(order);
    lemma_pow2_adds(order, (max_order - order) as nat);
    let p = pow2(order) as int;
    let q = pow2((max_order - order) as nat) as int;
    assert(idx * p + p <= p * q <==> idx < q) by (nonlinear_arith)
        requires
            p > 0,
    ;
}

/// A request of order `target` finds no block exactly when no aligned run of
/// units of that size is free: fragmentation is the only reason for refusal.
pub proof fn law_starved_means_no_room(view: BlocksView, target: nat)
    requires
        view.wf(),
        target <= view.max_order,
    ensures
        view.starved(target) <==> forall|i: int| !#[trigger] covered(view.units, target, i),
{
    let max = view.max_order;
    if view.starved(target) {
        assert forall|i: int| !#[trigger] covered(view.units, target, i) by {
            if covered(view.units, target, i) {
                lemma_nonneg(target, i);
                let u = block_lo(target, i);
                lemma_div_by_multiple(i, pow2(target) as int);
                let k = lemma_enclosing_free_block(view.units, max, target, u);
                lemma_block_index(max, k, u);
                assert(view.order_view(k).free[u / pow2(k) as int]);
                assert(view.any_free(k));
            }
        }
    }
    if forall|i: int| !#[trigger] covered(view.units, target, i) {
        assert forall|o: nat| target <= o <= max implies !#[trigger] view.any_free(o) by {
            if view.any_free(o) {
                let i = choose|i: int|
                    0 <= i < view.order_view(o).free.len() && #[trigger] view.order_view(o).free[i];
                let j = i * pow2((o - target) as nat);
                lemma_first_part(o, i, target);
                lemma_cover_within(view.units, o, i, target, j);
            }
        }
    }
}

/// The first part of order `target` of a block.
pub proof fn lemma_first_part(order: nat, idx: int, target: nat)
    requires
        target <= order,
        0 <= idx,
    ensures
        0 <= idx * pow2((order - target) as nat),
        block_lo(target, idx * pow2((order - target) as nat)) == block_lo(order, idx),
        block_hi(target, idx * pow2((order - target) as nat)) <= block_hi(order, idx),
{
    let q = pow2((order - target) as nat) as int;
    let p = pow2(target) as int;
    lemma_pow2_adds(target, (order - target) as nat);
    crate::bits::lemma_pow2_step(target);
    crate::bits::lemma_pow2_le(target, order);
    lemma_pow2_pos((order - target) as nat);
    assert((idx * q) * p == idx * (p * q)) by (nonlinear_arith);
    lemma_mul_nonnegative(idx, q);
}

/// Two free buddies never stand beside each other: they would be one block.
pub proof fn law_no_free_buddies(view: BlocksView, order: nat, idx: int)
    requires
        view.wf(),
        order < view.max_order,
        free_block(view.units, view.max_order, order, idx),
    ensures
        !free_block(view.units, view.max_order, order, buddy_of(idx)),
{
    let units = view.units;
    let b = buddy_of(idx);
    if free_block(units, view.max_order, order, b) {
        lemma_parent(order, idx);
        lemma_buddy_in_region(view.max_order, order, idx);
        assert forall|u: int| in_block(order + 1, idx / 2, u) implies #[trigger] units[u] by {
            assert(in_block(order, idx, u) || in_block(order, b, u));
        }
        assert(covered(units, order + 1, idx / 2));
    }
}

/// Two different free blocks share no unit.
pub proof fn law_free_blocks_are_disjoint(view: BlocksView, a: nat, i: int, b: nat, j: int)
    requires
        view.wf(),
        a <= view.max_order,
        b <= view.max_order,
        free_block(view.units, view.max_order, a, i),
        free_block(view.units, view.max_order, b, j),
        a != b || i != j,
    ensures
        !overlap(a, i, b, j),
{
    lemma_clear_at(view.units, view.max_order, a, i, b, j);
    lemma_cleared_cover(view.units, a, i, b, j);
}

/// A region whose units are all free is one block of the top order and no
/// other.
pub proof fn law_all_free_is_one_block(view: BlocksView, order: nat, idx: int)
    requires
        view.wf(),
        order <= view.max_order,
        forall|u: int| 0 <= u < view.units.len() ==> #[trigger] view.units[u],
    ensures
        free_block(view.units, view.max_order, order, idx) <==> order == view.max_order && idx == 0,
{
    let max = view.max_order;
    crate::bits::lemma_pow2_step(max);
    assert(block_lo(max, 0) == 0);
    assert(covered(view.units, max, 0));
    if order == max && idx != 0 && free_block(view.units, max, order, idx) {
        lemma_index_in_region(max, max, idx);
        crate::bits::lemma_pow2_step(0);
    }
    if order < max && covered(view.units, order, idx) {
        lemma_buddy_in_region(max, order, idx);
        lemma_nonneg(order + 1, idx / 2);
        assert(covered(view.units, order + 1, idx / 2));
    }
}

/// Giving back a block just taken restores the free units, and with them
/// every free block of every order.
pub proof fn law_release_undoes_take(view: BlocksView, order: nat, idx: int)
    requires
        view.wf(),
        covered(view.units, order, idx),
    ensures
        view.without(order, idx).with(order, idx) == view,
        held(view.without(order, idx).units, order, idx),
{
    lemma_nonneg(order, idx);
    assert(view.without(order, idx).with(order, idx).units =~= view.units);
}

/// The block that a released block ends up in is free afterwards.
pub proof fn lemma_merged_block(view: BlocksView, order: nat, idx: int) -> (k: int)
    requires
        view.wf(),
        order <= view.max_order,
        held(view.units, order, idx),
    ensures
        0 <= k,
        order <= merge_order(view.units, view.max_order, order, idx) <= view.max_order,
        covered(
            view.with(order, idx).units,
            merge_order(view.units, view.max_order, order, idx),
            k,
        ),
{
    lemma_nonneg(order, idx);
    let after = view.with(order, idx).units;
    assert(covered(after, order, idx));
    lemma_climb(view.units, after, view.max_order, order, idx)
}

proof fn lemma_climb(
    units: Seq<bool>,
    after: Seq<bool>,
    max_order: nat,
    order: nat,
    idx: int,
) -> (k: int)
    requires
        units.len() == pow2(max_order),
        after.len() == units.len(),
        order <= max_order,
        covered(after, order, idx),
        forall|u: int| 0 <= u < units.len() && #[trigger] units[u] ==> after[u],
    ensures
        0 <= k,
        order <= merge_order(units, max_order, order, idx) <= max_order,
        covered(after, merge_order(units, max_order, order, idx), k),
    decreases max_order - order,
{
    if order < max_order && covered(units, order, buddy_of(idx)) {
        let b = buddy_of(idx);
        lemma_parent(order, idx);
        lemma_buddy_in_region(max_order, order, idx);
        lemma_nonneg(order, b);
        assert forall|u: int| in_block(order + 1, idx / 2, u) implies #[trigger] after[u] by {
            if !in_block(order, idx, u) {
                assert(in_block(order, b, u));
                assert(units[u]);
            }
        }
        assert(covered(after, order + 1, idx / 2));
        lemma_climb(units, after, max_order, order + 1, idx / 2)
    } else {
        idx
    }
}

/// Changing one free block moves the number of free blocks by one, and the
/// units in them by the size of the block.
proof fn lemma_one_block_more(a: BlocksView, b: BlocksView, order: nat, idx: int, k: nat)
    requires
        a.max_order == b.max_order,
        order <= a.max_order,
        0 <= idx < pow2((a.max_order - order) as nat),
        forall|p: nat, j: int|
            #![trigger free_block(b.units, b.max_order, p, j)]
            p <= a.max_order ==> free_block(b.units, b.max_order, p, j) == (free_block(
                a.units,
                a.max_order,
                p,
                j,
            ) || (p == order && j == idx)),
        !free_block(a.units, a.max_order, order, idx),
        k <= a.max_order + 1,
    ensures
        b.free_count_below(k) == a.free_count_below(k) + if order < k {
            1nat
        } else {
            0nat
        },
        b.free_size_below(k) == a.free_size_below(k) + if order < k {
            pow2(order)
        } else {
            0nat
        },
    decreases k,
{
    if k > 0 {
        let p = (k - 1) as nat;
        lemma_one_block_more(a, b, order, idx, p);
        let x = a.order_view(p).free;
        let y = b.order_view(p).free;
        if p == order {
            assert(y =~= x.update(idx, true)) by {
                assert forall|j: int| 0 <= j < x.len() implies #[trigger] y[j] == x.update(
                    idx,
                    true,
                )[j] by {
                    assert(y[j] == free_block(b.units, b.max_order, p, j));
                }
            }
            crate::bits::lemma_count_update(x, idx, true);
            lemma_mul_is_distributive_add_other_way(
                pow2(p) as int,
                crate::bits::count_true(x) as int,
                1,
            );
        } else {
            assert(y =~= x) by {
                assert forall|j: int| 0 <= j < x.len() implies #[trigger] y[j] == x[j] by {
                    assert(y[j] == free_block(b.units, b.max_order, p, j));
                }
            }
        }
    }
}

/// Taking a free block leaves one free block less.
proof fn lemma_take_counts(view: BlocksView, order: nat, idx: int)
    requires
        view.wf(),
        order <= view.max_order,
        free_block(view.units, view.max_order, order, idx),
    ensures
        view.without(order, idx).free_count() + 1 == view.free_count(),
        view.without(order, idx).free_size() + pow2(order) == view.free_size(),
{
    let max = view.max_order;
    lemma_clear_free_block(view.units, max, order, idx);
    lemma_index_in_region(max, order, idx);
    lemma_one_block_more(view.without(order, idx), view, order, idx, max + 1);
}

/// Giving back a block whose buddy is not free makes one free block more.
proof fn lemma_give_counts(view: BlocksView, order: nat, idx: int)
    requires
        view.wf(),
        order <= view.max_order,
        held(view.units, order, idx),
        order == view.max_order || !covered(view.units, order, buddy_of(idx)),
    ensures
        view.with(order, idx).free_count() == view.free_count() + 1,
{
    let max = view.max_order;
    crate::bits::lemma_pow2_step(max);
    crate::bits::lemma_pow2_step(order);
    assert(block_lo(max, 0) == 0);
    lemma_fill_block(view.units, max, order, idx);
    lemma_index_in_region(max, order, idx);
    lemma_nonneg(order, idx);
    assert(!view.units[block_lo(order, idx)]);
    lemma_one_block_more(view, view.with(order, idx), order, idx, max + 1);
}

/// Handing out the first part of a free block, cut from it by halving, leaves
/// one free block less and one more for each cut.
pub proof fn lemma_cut_counts(view: BlocksView, order: nat, idx: int, target: nat)
    requires
        view.wf(),
        target <= order <= view.max_order,
        free_block(view.units, view.max_order, order, idx),
    ensures
        view.without(target, idx * pow2((order - target) as nat)).free_count() + 1
            == view.free_count() + (order - target),
{
    let taken = view.without(order, idx);
    lemma_take_counts(view, order, idx);
    lemma_clear_free_block(view.units, view.max_order, order, idx);
    lemma_nonneg(order, idx);
    assert(filled(taken.units, order, idx) =~= view.units);
    lemma_halving_counts(taken, order, idx, target);
}

proof fn lemma_halving_counts(view: BlocksView, order: nat, idx: int, target: nat)
    requires
        view.wf(),
        target <= order <= view.max_order,
        held(view.units, order, idx),
    ensures
        view.with(order, idx).without(target, idx * pow2((order - target) as nat)).free_count()
            == view.free_count() + (order - target),
    decreases order,
{
    let first = idx * pow2((order - target) as nat);
    lemma_nonneg(order, idx);
    if order == target {
        crate::bits::lemma_pow2_step(0);
        assert(idx * 1 == idx);
        assert(view.with(order, idx).without(target, first).units =~= view.units);
        assert(view.with(order, idx).without(target, first) =~= view);
    } else {
        let child = (order - 1) as nat;
        lemma_halves(child, idx);
        let right = view.with(child, 2 * idx + 1);
        lemma_nonneg(child, 2 * idx);
        if covered(view.units, child, 2 * idx) {
            assert(!view.units[block_lo(child, 2 * idx)]);
        }
        lemma_give_counts(view, child, 2 * idx + 1);
        assert(held(right.units, child, 2 * idx));
        lemma_halving_counts(right, child, 2 * idx, target);
        crate::bits::lemma_pow2_step((child - target) as nat);
        let q = pow2((child - target) as nat) as int;
        assert((2 * idx) * q == idx * (2 * q)) by (nonlinear_arith);
        let a = right.with(child, 2 * idx).without(target, first);
        let b = view.with(order, idx).without(target, first);
        assert(a.units =~= b.units);
        assert(a =~= b);
    }
}

/// Outside the block the units agree, so the block merges as far in both.
proof fn lemma_same_merge(a: Seq<bool>, b: Seq<bool>, max_order: nat, order: nat, idx: int)
    requires
        a.len() == b.len(),
        a.len() == pow2(max_order),
        order <= max_order,
        in_region(a.len(), order, idx),
        forall|u: int| 0 <= u < a.len() && !in_block(order, idx, u) ==> b[u] == #[trigger] a[u],
    ensures
        merge_order(a, max_order, order, idx) == merge_order(b, max_order, order, idx),
    decreases max_order - order,
{
    if order < max_order {
        lemma_buddy_in_region(max_order, order, idx);
        lemma_same_cover(a, b, order, idx, buddy_of(idx));
        lemma_parent(order, idx);
        lemma_same_merge(a, b, max_order, order + 1, idx / 2);
    }
}

/// A block that comes back makes one free block more, and each merge one less.
pub proof fn lemma_release_counts(view: BlocksView, order: nat, idx: int)
    requires
        view.wf(),
        order <= view.max_order,
        held(view.units, order, idx),
    ensures
        order <= merge_order(view.units, view.max_order, order, idx),
        view.with(order, idx).free_count() + (merge_order(
            view.units,
            view.max_order,
            order,
            idx,
        ) - order) == view.free_count() + 1,
    decreases view.max_order - order,
{
    let b = buddy_of(idx);
    if order < view.max_order && covered(view.units, order, b) {
        lemma_parent(order, idx);
        lemma_buddy_in_region(view.max_order, order, idx);
        lemma_nonneg(order, idx);
        if covered(view.units, order + 1, b / 2) {
            assert(in_block(order + 1, b / 2, block_lo(order, idx)));
            assert(view.units[block_lo(order, idx)]);
        }
        let mid = view.without(order, b);
        lemma_take_counts(view, order, b);
        lemma_merged(view, view.with(order, idx), order, idx);
        lemma_same_merge(view.units, mid.units, view.max_order, order + 1, idx / 2);
        lemma_release_counts(mid, order + 1, idx / 2);
    } else {
        lemma_give_counts(view, order, idx);
    }
}

/// The free blocks of all orders together hold every free unit once.
pub proof fn law_free_blocks_hold_the_free_units(view: BlocksView)
    requires
        view.wf(),
    ensures
        view.free_size() == crate::bits::count_true(view.units),
    decreases crate::bits::count_true(view.units),
{
    let max = view.max_order;
    crate::bits::lemma_count_bounds(view.units);
    if crate::bits::count_true(view.units) == 0 {
        lemma_nothing_free(view, max + 1);
    } else {
        let u = choose|u: int| 0 <= u < view.units.len() && view.units[u];
        lemma_units_of_blocks(view.units, max, u);
        let o = choose|o: nat| #[trigger]
            free_block(view.units, max, o, u / pow2(o) as int) && o <= max;
        let i = u / pow2(o) as int;
        let rest = view.without(o, i);
        lemma_take_counts(view, o, i);
        lemma_nonneg(o, i);
        crate::bits::lemma_count_range(view.units, rest.units, block_lo(o, i), block_hi(o, i), false);
        law_free_blocks_hold_the_free_units(rest);
    }
}

proof fn lemma_nothing_free(view: BlocksView, k: nat)
    requires
        forall|u: int| 0 <= u < view.units.len() ==> !view.units[u],
        k <= view.max_order + 1,
    ensures
        view.free_size_below(k) == 0,
        view.free_count_below(k) == 0,
    decreases k,
{
    if k > 0 {
        let p = (k - 1) as nat;
        lemma_nothing_free(view, p);
        let free = view.order_view(p).free;
        assert forall|j: int| 0 <= j < free.len() implies !free[j] by {
            lemma_nonneg(p, j);
            if covered(view.units, p, j) {
                assert(view.units[block_lo(p, j)]);
            }
        }
        crate::bits::lemma_count_bounds(free);
        assert(0 * pow2(p) == 0);
    }
}

/// A region whose units are all free has one free block.
pub proof fn lemma_all_free_count(view: BlocksView)
    requires
        view.wf(),
        forall|u: int| 0 <= u < view.units.len() ==> #[trigger] view.units[u],
    ensures
        view.free_count() == 1,
{
    let max = view.max_order;
    law_all_free_is_one_block(view, max, 0);
    crate::bits::lemma_pow2_step(max);
    let rest = view.without(max, 0);
    assert(block_lo(max, 0) == 0);
    lemma_take_counts(view, max, 0);
    lemma_nothing_free(rest, max + 1);
}

/// The block around a released block into which it merges: all of it is free
/// afterwards, and not all of the next larger one.
pub proof fn lemma_merged_run(view: BlocksView, order: nat, idx: int) -> (around: int)
    requires
        view.wf(),
        order <= view.max_order,
        held(view.units, order, idx),
    ensures
        ({
            let merged = merge_order(view.units, view.max_order, order, idx);
            let after = view.with(order, idx).units;
            &&& order <= merged <= view.max_order
            &&& around == idx / pow2((merged - order) as nat) as int
            &&& covered(after, merged, around)
            &&& merged == view.max_order || !covered(after, merged + 1, around / 2)
        }),
    decreases view.max_order - order,
{
    let b = buddy_of(idx);
    let after = view.with(order, idx).units;
    crate::bits::lemma_pow2_step(0);
    lemma_nonneg(order, idx);
    if order < view.max_order && covered(view.units, order, b) {
        lemma_parent(order, idx);
        lemma_buddy_in_region(view.max_order, order, idx);
        let mid = view.without(order, b);
        lemma_merged(view, view.with(order, idx), order, idx);
        lemma_same_merge(view.units, mid.units, view.max_order, order + 1, idx / 2);
        let around = lemma_merged_run(mid, order + 1, idx / 2);
        let merged = merge_order(view.units, view.max_order, order, idx);
        lemma_merged_block(mid, order + 1, idx / 2);
        crate::bits::lemma_pow2_step((merged - order - 1) as nat);
        lemma_div_denominator(idx, 2, pow2((merged - order - 1) as nat) as int);
        around
    } else {
        assert(idx / 1 == idx);
        if order < view.max_order && covered(after, order + 1, idx / 2) {
            lemma_parent(order, idx);
            lemma_buddy_in_region(view.max_order, order, idx);
            lemma_halves(order, idx / 2);
            assert(b == 2 * (idx / 2) || b == 2 * (idx / 2) + 1);
            lemma_cover_within(after, order + 1, idx / 2, order, b);
            assert forall|u: int| in_block(order, b, u) implies #[trigger] view.units[u] by {
                assert(after[u]);
            }
            assert(covered(view.units, order, b));
        }
        idx
    }
}

} // verus!
