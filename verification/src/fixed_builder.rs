//! Builders of fixed arenas.
use vstd::prelude::*;
use vstd::arithmetic::power2::*;
use vstd::arithmetic::mul::*;
use vstd::arithmetic::div_mod::*;
use std::marker::PhantomData;
use crate::arena::FixedArena;
use crate::async_alloc::{AsyncFixedArena, Waiter};
use crate::config::{AutoSpill, BuildConfig, HazmatRaw, InitPolicy, PageSize, Standard};
use crate::error::BuildError;
use crate::hazmat::RawFixedArena;
use crate::memory::Backing;
use crate::nonzero::NonZeroUsize;
use crate::sizing::SlotSpec;
use crate::unfaulted::Unfaulted;
use crate::waiters::NotifyWaiters;

verus! {

/// What a fixed builder was asked for.
pub struct FixedPlan {
    pub slot_count: nat,
    pub slot_capacity: nat,
    pub config: BuildConfig,
}

impl FixedPlan {
    /// Aligned slot capacity and total size, or the reason why there is no
    /// such arena.
    pub open spec fn layout(self) -> Result<(int, int), BuildError> {
        let alignment = self.config.alignment as int;
        let capacity = crate::bits::round_up(self.slot_capacity as int, alignment);
        let total = self.slot_count * capacity;
        if !is_pow2(alignment) {
            Err(BuildError::InvalidAlignment)
        } else if self.slot_capacity + alignment - 1 > usize::MAX || total > isize::MAX {
            Err(BuildError::SizeOverflow)
        } else {
            Ok((capacity, total))
        }
    }

    proof fn lemma_layout(self)
        ensures
            self.layout() matches Ok((capacity, total)) ==> 0 <= capacity && total
                == self.slot_count * capacity as nat,
    {
        if is_pow2(self.config.alignment as int) {
            reveal(is_pow2);
            crate::bits::lemma_round_down(
                self.slot_capacity + self.config.alignment - 1,
                self.config.alignment as int,
            );
        }
    }

    /// The bytes that the arena needs.
    pub open spec fn total(self) -> int {
        match self.layout() {
            Ok((_, total)) => total,
            Err(_) => 0,
        }
    }

    /// The new arena on `memory`, with slots of `capacity` bytes.
    pub open spec fn arena(self, memory: Seq<u8>, capacity: int) -> crate::arena::FixedView {
        crate::arena::FixedView::fresh(
            memory,
            self.slot_count,
            capacity as nat,
            self.config.auto_spill,
            self.config.init_policy,
        )
    }

    /// `r` is the outcome of building on `memory`.
    pub open spec fn built<M: Backing>(
        self,
        memory: Seq<u8>,
        r: Result<FixedArena<M>, BuildError>,
    ) -> bool {
        match self.layout() {
            Ok((capacity, _)) => r matches Ok(arena) && arena.valid() && arena@ == self.arena(
                memory,
                capacity,
            ),
            Err(e) => r matches Err(f) && f == e,
        }
    }

    /// `r` is the outcome of building with `waiters`.
    pub open spec fn built_async<W>(
        self,
        waiters: W,
        r: Result<AsyncFixedArena<W>, BuildError>,
    ) -> bool {
        match r {
            Ok(arena) => {
                &&& self.built(self.walked(self.own_memory()), Ok(arena.arena()))
                &&& arena.waiting() == waiters
                &&& arena.freed() == 0
            },
            Err(e) => self.layout() == Err::<(int, int), BuildError>(e),
        }
    }

    /// The zeroed memory that a builder allocates.
    pub open spec fn own_memory(self) -> Seq<u8> {
        Seq::new(self.total() as nat, |i: int| 0u8)
    }

    /// The memory after the prefault walk.
    pub open spec fn walked(self, memory: Seq<u8>) -> Seq<u8> {
        crate::memory::faulted(memory, self.total(), self.config.walk())
    }
}

/// Builder for [`FixedArena`].
///
/// The `Mode` parameter controls which build targets are available:
/// [`Standard`] builds a [`FixedArena`] and can turn into [`AutoSpill`] or
/// [`HazmatRaw`]; [`AutoSpill`] builds a [`FixedArena`] with heap overflow;
/// [`HazmatRaw`] builds a [`RawFixedArena`].
#[derive(Debug)]
pub struct FixedArenaBuilder<Mode = Standard> {
    slot_count: NonZeroUsize,
    slot_capacity: NonZeroUsize,
    config: BuildConfig,
    _mode: PhantomData<Mode>,
}

impl<Mode> View for FixedArenaBuilder<Mode> {
    type V = FixedPlan;

    closed spec fn view(&self) -> FixedPlan {
        FixedPlan {
            slot_count: self.slot_count@,
            slot_capacity: self.slot_capacity@,
            config: self.config,
        }
    }
}

impl FixedArena<Vec<u8>> {
    /// Creates a builder with per-slot capacity in bytes.
    pub fn with_slot_capacity(slot_count: NonZeroUsize, slot_capacity: NonZeroUsize) -> (r:
        FixedArenaBuilder)
        ensures
            r@ == (FixedPlan {
                slot_count: slot_count@,
                slot_capacity: slot_capacity@,
                config: BuildConfig::standard(),
            }),
    {
        FixedArenaBuilder {
            slot_count,
            slot_capacity,
            config: BuildConfig::new(),
            _mode: PhantomData,
        }
    }

    /// Creates a builder with total arena capacity in bytes.
    ///
    /// Per-slot capacity is the total over the slot count, rounded up, and is
    /// rounded up to the alignment at build time.
    pub fn with_arena_capacity(slot_count: NonZeroUsize, arena_capacity: NonZeroUsize) -> (r:
        FixedArenaBuilder)
        ensures
            r@ == (FixedPlan {
                slot_count: slot_count@,
                slot_capacity: ((arena_capacity@ + slot_count@ - 1) / slot_count@ as int) as nat,
                config: BuildConfig::standard(),
            }),
            r@.slot_count == slot_count@,
            arena_capacity@ <= r@.slot_count * r@.slot_capacity,
            r@.slot_count * (r@.slot_capacity - 1) < arena_capacity@,
    {
        let n: usize = slot_count.get();
        let total: usize = arena_capacity.get();
        let whole: usize = total / n;
        proof {
            lemma_ceil_div(total as int, n as int);
        }
        let per_slot: usize = if total % n == 0 {
            whole
        } else {
            whole + 1
        };
        FixedArenaBuilder {
            slot_count,
            slot_capacity: NonZeroUsize::new(per_slot).unwrap(),
            config: BuildConfig::new(),
            _mode: PhantomData,
        }
    }
}

/// Rounding a quotient up.
proof fn lemma_ceil_div(total: int, n: int)
    requires
        0 < n,
        0 < total,
    ensures
        (total + n - 1) / n == if total % n == 0 {
            total / n
        } else {
            total / n + 1
        },
        0 < (total + n - 1) / n <= total,
        total % n != 0 ==> total / n < total,
        total <= n * ((total + n - 1) / n),
        n * ((total + n - 1) / n - 1) < total,
{
    let q = total / n;
    let r = total % n;
    lemma_fundamental_div_mod(total, n);
    lemma_mod_bound(total, n);
    lemma_mul_is_commutative(n, q);
    if r == 0 {
        lemma_fundamental_div_mod_converse(total + n - 1, n, q, n - 1);
    } else {
        assert(total + n - 1 == n * (q + 1) + (r - 1)) by (nonlinear_arith)
            requires
                total == n * q + r,
        ;
        lemma_fundamental_div_mod_converse(total + n - 1, n, q + 1, r - 1);
    }
    assert(n * (q - 1) == n * q - n && n * (q + 1) == n * q + n) by (nonlinear_arith);
    assert(0 <= q && q <= total && (r == 0 ==> 0 < q) && (r != 0 ==> q < total))
        by (nonlinear_arith)
        requires
            total == n * q + r,
            0 < n,
            0 < total,
            0 <= r < n,
    ;
}

impl<M: Backing> FixedArena<M> {
    /// Creates a builder on memory that the caller provides. `None` stands for
    /// a region that is not there, which building refuses.
    pub fn from_raw(region: Option<M>, spec: SlotSpec) -> (r: RawBackedFixedArenaBuilder<M>)
        ensures
            r.region() == region,
            r.slots() == spec,
            r.config() == BuildConfig::standard(),
    {
        RawBackedFixedArenaBuilder { region, spec, config: BuildConfig::new() }
    }
}

impl FixedArena<&'static mut [u8]> {
    /// Creates a builder on a static buffer.
    pub fn from_static(buf: &'static mut [u8], spec: SlotSpec) -> (r: RawBackedFixedArenaBuilder<
        &'static mut [u8],
    >)
        ensures
            r.region() matches Some(region) && region.content() == old(buf)@,
            r.slots() == spec,
            r.config() == BuildConfig::standard(),
    {
        FixedArena::from_raw(Some(buf), spec)
    }
}

impl<Mode> FixedArenaBuilder<Mode> {
    /// Alignment of slot boundaries and slot capacities.
    ///
    /// Must be a power of 2. Default: 1 (no alignment constraint).
    pub fn alignment(self, n: usize) -> (r: Self)
        ensures
            r@ == (FixedPlan { config: BuildConfig { alignment: n, ..self@.config }, ..self@ }),
    {
        FixedArenaBuilder { config: BuildConfig { alignment: n, ..self.config }, ..self }
    }

    /// Sets the initialization policy for allocated buffers.
    pub fn init_policy(self, policy: InitPolicy) -> (r: Self)
        ensures
            r@ == (FixedPlan {
                config: BuildConfig { init_policy: policy, ..self@.config },
                ..self@
            }),
    {
        FixedArenaBuilder { config: BuildConfig { init_policy: policy, ..self.config }, ..self }
    }

    /// Sets the page size used for prefaulting.
    pub fn page_size(self, policy: PageSize) -> (r: Self)
        ensures
            r@ == (FixedPlan {
                config: BuildConfig { page_size: policy, ..self@.config },
                ..self@
            }),
    {
        FixedArenaBuilder { config: BuildConfig { page_size: policy, ..self.config }, ..self }
    }

    /// Tells the builder the page size of the operating system.
    pub fn os_page_size(self, size: NonZeroUsize) -> (r: Self)
        ensures
            r@ == (FixedPlan {
                config: BuildConfig { os_page_size: Some(size), ..self@.config },
                ..self@
            }),
    {
        FixedArenaBuilder {
            config: BuildConfig { os_page_size: Some(size), ..self.config },
            ..self
        }
    }

    /// Aligned slot capacity and total size of the arena to build.
    pub fn layout(&self) -> (r: Result<(usize, usize), BuildError>)
        ensures
            match r {
                Ok((capacity, total)) => {
                    &&& self@.layout() == Ok::<(int, int), BuildError>(
                        (capacity as int, total as int),
                    )
                    &&& 1 <= self@.slot_count <= usize::MAX
                    &&& 1 <= capacity
                    &&& capacity % self@.config.alignment == 0
                    &&& self@.slot_capacity <= capacity
                    &&& capacity < self@.slot_capacity + self@.config.alignment
                    &&& total == self@.slot_count * capacity
                },
                Err(e) => self@.layout() == Err::<(int, int), BuildError>(e),
            },
    {
        match self.config.validate_alignment() {
            Err(e) => {
                return Err(e);
            },
            Ok(()) => {},
        }
        let slot_count: usize = self.slot_count.get();
        let slot_capacity: usize = self.slot_capacity.get();
        let alignment: usize = self.config.alignment;
        proof {
            crate::bits::lemma_mask_is_mod(0, alignment);
            crate::bits::lemma_round_down(slot_capacity + alignment - 1, alignment as int);
        }
        match crate::bits::align_up(slot_capacity, alignment) {
            None => Err(BuildError::SizeOverflow),
            Some(aligned_capacity) => match slot_count.checked_mul(aligned_capacity) {
                None => Err(BuildError::SizeOverflow),
                Some(total_size) => {
                    if total_size > isize::MAX as usize {
                        return Err(BuildError::SizeOverflow);
                    }
                    Ok((aligned_capacity, total_size))
                },
            },
        }
    }

    /// The page size for the prefault walk.
    pub fn walk_page_size(&self) -> (r: Option<usize>)
        ensures
            r == self@.config.walk(),
            r matches Some(n) ==> n > 0,
    {
        self.config.walk_page_size()
    }

    /// Builds on `memory` without touching it.
    pub fn build_inner<M: Backing>(self, memory: M) -> (r: Result<FixedArena<M>, BuildError>)
        requires
            self@.total() <= memory.content().len(),
        ensures
            self@.built(memory.content(), r),
    {
        match self.layout() {
            Err(e) => Err(e),
            Ok((aligned_capacity, _)) => Ok(
                FixedArena::on_memory(
                    memory,
                    self.slot_count.get(),
                    aligned_capacity,
                    self.config.auto_spill,
                    self.config.init_policy,
                ),
            ),
        }
    }

    /// Builds on `memory` and walks its pages if a page size is configured.
    pub fn build_on<M: Backing>(self, memory: M) -> (r: Result<FixedArena<M>, BuildError>)
        requires
            self@.total() <= memory.content().len(),
        ensures
            self@.built(self@.walked(memory.content()), r),
    {
        proof {
            self@.lemma_layout();
        }
        let page_size: Option<usize> = self.walk_page_size();
        match self.build_inner(memory) {
            Err(e) => Err(e),
            Ok(arena) => {
                let unfaulted: Unfaulted<FixedArena<M>> = Unfaulted::<FixedArena<M>>::new(
                    page_size,
                    arena,
                );
                Ok(unfaulted.fault_pages())
            },
        }
    }

    fn build_fixed(self) -> (r: Result<FixedArena, BuildError>)
        ensures
            self@.built(self@.walked(self@.own_memory()), r),
    {
        match self.layout() {
            Err(e) => Err(e),
            Ok((_, total_size)) => {
                let memory: Vec<u8> = vec![0u8;total_size];
                assert(memory@ =~= self@.own_memory());
                self.build_on(memory)
            },
        }
    }

    fn build_fixed_unfaulted(self) -> (r: Result<Unfaulted<FixedArena>, BuildError>)
        ensures
            match r {
                Ok(unfaulted) => {
                    &&& self@.built(self@.own_memory(), Ok(unfaulted.inner()))
                    &&& unfaulted.page_size() == self@.config.walk()
                },
                Err(e) => self@.layout() == Err::<(int, int), BuildError>(e),
            },
    {
        match self.layout() {
            Err(e) => Err(e),
            Ok((_, total_size)) => {
                let memory: Vec<u8> = vec![0u8;total_size];
                assert(memory@ =~= self@.own_memory());
                let page_size: Option<usize> = self.walk_page_size();
                match self.build_inner(memory) {
                    Err(e) => Err(e),
                    Ok(arena) => Ok(Unfaulted::<FixedArena>::new(page_size, arena)),
                }
            },
        }
    }
}

impl<Mode> FixedArenaBuilder<Mode> {
    fn build_fixed_async_with<W: Waiter>(self, waiters: W) -> (r: Result<
        AsyncFixedArena<W>,
        BuildError,
    >)
        ensures
            self@.built_async(waiters, r),
    {
        match self.build_fixed() {
            Ok(arena) => Ok(AsyncFixedArena::new(arena, waiters)),
            Err(e) => Err(e),
        }
    }
}

impl FixedArenaBuilder<Standard> {
    /// Turns to auto-spill mode: overflowing writes copy to the heap and free
    /// the slot.
    pub fn auto_spill(self) -> (r: FixedArenaBuilder<AutoSpill>)
        ensures
            r@ == (FixedPlan { config: BuildConfig { auto_spill: true, ..self@.config }, ..self@ }),
    {
        FixedArenaBuilder {
            slot_count: self.slot_count,
            slot_capacity: self.slot_capacity,
            config: BuildConfig { auto_spill: true, ..self.config },
            _mode: PhantomData,
        }
    }

    /// Turns to raw-access mode.
    pub fn hazmat_raw_access(self) -> (r: FixedArenaBuilder<HazmatRaw>)
        ensures
            r@ == self@,
    {
        FixedArenaBuilder {
            slot_count: self.slot_count,
            slot_capacity: self.slot_capacity,
            config: self.config,
            _mode: PhantomData,
        }
    }

    /// Builds the arena, prefaulting pages if a page size is configured.
    pub fn build(self) -> (r: Result<FixedArena, BuildError>)
        ensures
            self@.built(self@.walked(self@.own_memory()), r),
    {
        self.build_fixed()
    }

    /// Builds the arena without prefaulting.
    pub fn build_unfaulted(self) -> (r: Result<Unfaulted<FixedArena>, BuildError>)
        ensures
            match r {
                Ok(unfaulted) => {
                    &&& self@.built(self@.own_memory(), Ok(unfaulted.inner()))
                    &&& unfaulted.page_size() == self@.config.walk()
                },
                Err(e) => self@.layout() == Err::<(int, int), BuildError>(e),
            },
    {
        self.build_fixed_unfaulted()
    }

    /// Builds an arena with waiters.
    pub fn build_async(self) -> (r: Result<AsyncFixedArena, BuildError>)
        ensures
            match r {
                Ok(arena) => {
                    &&& self@.built_async(arena.waiting(), r)
                    &&& arena.waiting()@ == crate::waiters::WaitersView::fresh(1)
                },
                Err(e) => self@.layout() == Err::<(int, int), BuildError>(e),
            },
    {
        self.build_fixed_async_with(NotifyWaiters::new(1))
    }

    /// Builds an arena with waiters of the caller's own.
    pub fn build_async_with<W: Waiter>(self, waiters: W) -> (r: Result<
        AsyncFixedArena<W>,
        BuildError,
    >)
        ensures
            self@.built_async(waiters, r),
    {
        self.build_fixed_async_with(waiters)
    }
}

impl FixedArenaBuilder<AutoSpill> {
    /// Builds the arena, prefaulting pages if a page size is configured.
    pub fn build(self) -> (r: Result<FixedArena, BuildError>)
        ensures
            self@.built(self@.walked(self@.own_memory()), r),
    {
        self.build_fixed()
    }

    /// Builds the arena without prefaulting.
    pub fn build_unfaulted(self) -> (r: Result<Unfaulted<FixedArena>, BuildError>)
        ensures
            match r {
                Ok(unfaulted) => {
                    &&& self@.built(self@.own_memory(), Ok(unfaulted.inner()))
                    &&& unfaulted.page_size() == self@.config.walk()
                },
                Err(e) => self@.layout() == Err::<(int, int), BuildError>(e),
            },
    {
        self.build_fixed_unfaulted()
    }

    /// Builds an arena with waiters.
    pub fn build_async(self) -> (r: Result<AsyncFixedArena, BuildError>)
        ensures
            match r {
                Ok(arena) => {
                    &&& self@.built_async(arena.waiting(), r)
                    &&& arena.waiting()@ == crate::waiters::WaitersView::fresh(1)
                },
                Err(e) => self@.layout() == Err::<(int, int), BuildError>(e),
            },
    {
        self.build_fixed_async_with(NotifyWaiters::new(1))
    }

    /// Builds an arena with waiters of the caller's own.
    pub fn build_async_with<W: Waiter>(self, waiters: W) -> (r: Result<
        AsyncFixedArena<W>,
        BuildError,
    >)
        ensures
            self@.built_async(waiters, r),
    {
        self.build_fixed_async_with(waiters)
    }
}

impl FixedArenaBuilder<HazmatRaw> {
    /// Builds the arena, prefaulting pages if a page size is configured.
    pub fn build(self) -> (r: Result<RawFixedArena, BuildError>)
        ensures
            match r {
                Ok(raw) => self@.built(self@.walked(self@.own_memory()), Ok(raw.arena())),
                Err(e) => self@.layout() == Err::<(int, int), BuildError>(e),
            },
    {
        match self.build_fixed() {
            Ok(arena) => Ok(RawFixedArena::new(arena)),
            Err(e) => Err(e),
        }
    }

    /// Builds the arena without prefaulting.
    pub fn build_unfaulted(self) -> (r: Result<Unfaulted<RawFixedArena>, BuildError>)
        ensures
            match r {
                Ok(unfaulted) => {
                    &&& self@.built(self@.own_memory(), Ok(unfaulted.inner().arena()))
                    &&& unfaulted.page_size() == self@.config.walk()
                },
                Err(e) => self@.layout() == Err::<(int, int), BuildError>(e),
            },
    {
        let page_size: Option<usize> = self.walk_page_size();
        match self.build_fixed_unfaulted() {
            Ok(unfaulted) => Ok(
                Unfaulted::<RawFixedArena>::new(
                    page_size,
                    RawFixedArena::new(unfaulted.into_inner()),
                ),
            ),
            Err(e) => Err(e),
        }
    }
}

/// Builder for a fixed arena on memory that the caller provides.
#[derive(Debug)]
pub struct RawBackedFixedArenaBuilder<M: Backing> {
    region: Option<M>,
    spec: SlotSpec,
    config: BuildConfig,
}

impl<M: Backing> RawBackedFixedArenaBuilder<M> {
    /// The memory that the caller provided.
    pub closed spec fn region(self) -> Option<M> {
        self.region
    }

    /// How the memory is cut up.
    pub closed spec fn slots(self) -> SlotSpec {
        self.spec
    }

    /// The settings.
    pub closed spec fn config(self) -> BuildConfig {
        self.config
    }

    /// Sets the initialization policy for allocated buffers.
    pub fn init_policy(self, policy: InitPolicy) -> (r: Self)
        ensures
            r.region() == self.region(),
            r.slots() == self.slots(),
            r.config() == (BuildConfig { init_policy: policy, ..self.config() }),
    {
        RawBackedFixedArenaBuilder {
            config: BuildConfig { init_policy: policy, ..self.config },
            ..self
        }
    }

    /// Sets the page size used for prefaulting.
    pub fn page_size(self, policy: PageSize) -> (r: Self)
        ensures
            r.region() == self.region(),
            r.slots() == self.slots(),
            r.config() == (BuildConfig { page_size: policy, ..self.config() }),
    {
        RawBackedFixedArenaBuilder {
            config: BuildConfig { page_size: policy, ..self.config },
            ..self
        }
    }

    /// Tells the builder the page size of the operating system.
    pub fn os_page_size(self, size: NonZeroUsize) -> (r: Self)
        ensures
            r.region() == self.region(),
            r.slots() == self.slots(),
            r.config() == (BuildConfig { os_page_size: Some(size), ..self.config() }),
    {
        RawBackedFixedArenaBuilder {
            config: BuildConfig { os_page_size: Some(size), ..self.config },
            ..self
        }
    }

    /// Sets the minimum alignment for each slot; slot sizes are padded down to
    /// it. Must be a power of two.
    pub fn alignment(self, align: usize) -> (r: Self)
        ensures
            r.region() == self.region(),
            r.slots() == self.slots(),
            r.config() == (BuildConfig { alignment: align, ..self.config() }),
    {
        RawBackedFixedArenaBuilder {
            config: BuildConfig { alignment: align, ..self.config },
            ..self
        }
    }

    /// Builds the arena. Tail bytes that do not fit a whole aligned slot are
    /// left unused.
    pub fn build(self) -> (r: Result<FixedArena<M>, BuildError>)
        ensures
            match self.region() {
                None => r matches Err(e) && e == BuildError::NullPointer,
                Some(region) => if !is_pow2(self.config().alignment as int) {
                    r matches Err(e) && e == BuildError::InvalidAlignment
                } else {
                    match self.slots().resolved(
                        region.content().len() as int,
                        self.config().alignment as int,
                    ) {
                        Err(e) => r matches Err(f) && f == e,
                        Ok((count, size)) => r matches Ok(arena) && arena.valid() && arena@
                            == crate::arena::FixedView::fresh(
                            crate::memory::faulted(
                                region.content(),
                                count * size,
                                self.config().walk(),
                            ),
                            count as nat,
                            size as nat,
                            false,
                            self.config().init_policy,
                        ),
                    }
                },
            },
    {
        match self.region {
            None => Err(BuildError::NullPointer),
            Some(region) => {
                match self.config.validate_alignment() {
                    Err(e) => {
                        return Err(e);
                    },
                    Ok(()) => {},
                }
                let page_size: Option<usize> = self.config.walk_page_size();
                match self.spec.resolve(region.size(), self.config.alignment) {
                    Err(e) => Err(e),
                    Ok((slot_count, slot_capacity)) => {
                        let arena: FixedArena<M> = FixedArena::on_memory(
                            region,
                            slot_count,
                            slot_capacity,
                            false,
                            self.config.init_policy,
                        );
                        let unfaulted: Unfaulted<FixedArena<M>> = Unfaulted::<FixedArena<M>>::new(
                            page_size,
                            arena,
                        );
                        Ok(unfaulted.fault_pages())
                    },
                }
            },
        }
    }
}

} // verus!
