//! Builders of buddy arenas.
use vstd::prelude::*;
use vstd::arithmetic::power2::*;
use vstd::arithmetic::mul::*;
use std::marker::PhantomData;
use crate::async_alloc::{AsyncBuddyArena, BuddyWaiter};
use crate::buddy::BuddyArena;
use crate::config::{AutoSpill, BuildConfig, HazmatRaw, InitPolicy, PageSize, Standard};
use crate::error::BuildError;
use crate::geometry::BuddyGeometry;
use crate::hazmat::RawBuddyArena;
use crate::memory::Backing;
use crate::nonzero::NonZeroUsize;
use crate::sizing::BuddyHint;
use crate::unfaulted::Unfaulted;
use crate::waiters::NotifyWaiters;

verus! {

/// What a buddy builder was asked for.
pub struct BuddyPlan {
    pub geometry: crate::geometry::GeometryView,
    pub config: BuildConfig,
}

impl BuddyPlan {
    /// The region can be allocated.
    pub open spec fn fits(self) -> bool {
        self.geometry.total_size <= isize::MAX
    }

    /// The new arena on `memory`.
    pub open spec fn arena(self, memory: Seq<u8>) -> crate::buddy::BuddyView {
        crate::buddy::BuddyView::fresh(
            memory,
            self.geometry.min_block_size as nat,
            self.geometry.max_order,
            self.config.auto_spill,
            self.geometry.cap_capacity,
            self.config.init_policy,
        )
    }

    /// `r` is the outcome of building on `memory`.
    pub open spec fn built<M: Backing>(
        self,
        memory: Seq<u8>,
        r: Result<BuddyArena<M>, BuildError>,
    ) -> bool {
        if self.fits() {
            r matches Ok(arena) && arena.valid() && arena@ == self.arena(memory)
        } else {
            r matches Err(e) && e == BuildError::SizeOverflow
        }
    }

    /// `r` is the outcome of building with `waiters`.
    pub open spec fn built_async<W>(
        self,
        waiters: W,
        r: Result<AsyncBuddyArena<W>, BuildError>,
    ) -> bool {
        match r {
            Ok(arena) => {
                &&& self.built(self.walked(self.own_memory()), Ok(arena.arena()))
                &&& arena.waiting() == waiters
                &&& arena.freed() == Seq::<usize>::empty()
            },
            Err(e) => e == BuildError::SizeOverflow && !self.fits(),
        }
    }

    /// The zeroed memory that a builder allocates.
    pub open spec fn own_memory(self) -> Seq<u8> {
        Seq::new(self.geometry.total_size as nat, |i: int| 0u8)
    }

    /// The memory after the prefault walk.
    pub open spec fn walked(self, memory: Seq<u8>) -> Seq<u8> {
        crate::memory::faulted(memory, self.geometry.total_size, self.config.walk())
    }
}

/// Builder for [`BuddyArena`].
///
/// The `Mode` parameter controls which build targets are available:
/// [`Standard`] builds a [`BuddyArena`] and can turn into [`AutoSpill`] or
/// [`HazmatRaw`]; [`AutoSpill`] builds a [`BuddyArena`] with heap overflow;
/// [`HazmatRaw`] builds a [`RawBuddyArena`].
#[derive(Debug)]
pub struct BuddyArenaBuilder<Mode = Standard> {
    geometry: BuddyGeometry,
    config: BuildConfig,
    _mode: PhantomData<Mode>,
}

impl<Mode> View for BuddyArenaBuilder<Mode> {
    type V = BuddyPlan;

    closed spec fn view(&self) -> BuddyPlan {
        BuddyPlan { geometry: self.geometry@, config: self.config }
    }
}

impl BuddyArena<Vec<u8>> {
    /// Creates a builder for a buddy arena.
    pub fn builder(geometry: BuddyGeometry) -> (r: BuddyArenaBuilder)
        ensures
            r@ == (BuddyPlan { geometry: geometry@, config: BuildConfig::standard() }),
    {
        BuddyArenaBuilder { geometry, config: BuildConfig::new(), _mode: PhantomData }
    }
}

impl<M: Backing> BuddyArena<M> {
    /// Creates a builder on memory that the caller provides. `None` stands for
    /// a region that is not there, which building refuses.
    pub fn from_raw(region: Option<M>, hint: BuddyHint) -> (r: RawBackedBuddyArenaBuilder<M>)
        ensures
            r.region() == region,
            r.hint() == hint,
            r.config() == BuildConfig::standard(),
    {
        RawBackedBuddyArenaBuilder { region, hint, config: BuildConfig::new() }
    }
}

impl BuddyArena<&'static mut [u8]> {
    /// Creates a builder on a static buffer.
    pub fn from_static(buf: &'static mut [u8], hint: BuddyHint) -> (r: RawBackedBuddyArenaBuilder<
        &'static mut [u8],
    >)
        ensures
            r.region() matches Some(region) && region.content() == old(buf)@,
            r.hint() == hint,
            r.config() == BuildConfig::standard(),
    {
        BuddyArena::from_raw(Some(buf), hint)
    }
}

impl<Mode> BuddyArenaBuilder<Mode> {
    /// Sets the initialization policy for allocated buffers.
    pub fn init_policy(self, policy: InitPolicy) -> (r: Self)
        ensures
            r@ == (BuddyPlan {
                config: BuildConfig { init_policy: policy, ..self@.config },
                ..self@
            }),
    {
        BuddyArenaBuilder { config: BuildConfig { init_policy: policy, ..self.config }, ..self }
    }

    /// Sets the page size used for prefaulting.
    pub fn page_size(self, policy: PageSize) -> (r: Self)
        ensures
            r@ == (BuddyPlan {
                config: BuildConfig { page_size: policy, ..self@.config },
                ..self@
            }),
    {
        BuddyArenaBuilder { config: BuildConfig { page_size: policy, ..self.config }, ..self }
    }

    /// Tells the builder the page size of the operating system.
    pub fn os_page_size(self, size: NonZeroUsize) -> (r: Self)
        ensures
            r@ == (BuddyPlan {
                config: BuildConfig { os_page_size: Some(size), ..self@.config },
                ..self@
            }),
    {
        BuddyArenaBuilder {
            config: BuildConfig { os_page_size: Some(size), ..self.config },
            ..self
        }
    }

    /// Bytes and alignment of the region to build on.
    pub fn layout(&self) -> (r: Result<(usize, usize), BuildError>)
        ensures
            match r {
                Ok((size, align)) => {
                    &&& self@.fits()
                    &&& size == self@.geometry.total_size
                    &&& align == self@.geometry.alignment
                    &&& self@.geometry.valid()
                },
                Err(e) => e == BuildError::SizeOverflow && !self@.fits(),
            },
    {
        let total_size: usize = self.geometry.total_size();
        let alignment: usize = self.geometry.alignment();
        if total_size > isize::MAX as usize {
            return Err(BuildError::SizeOverflow);
        }
        Ok((total_size, alignment))
    }

    /// The page size for the prefault walk.
    pub fn walk_page_size(&self) -> (r: Option<usize>)
        ensures
            r == self@.config.walk(),
            r matches Some(n) ==> n > 0,
    {
        self.config.walk_page_size()
    }

    /// Builds on `memory` without touching it.
    pub fn build_raw<M: Backing>(self, memory: M) -> (r: Result<BuddyArena<M>, BuildError>)
        requires
            self@.geometry.total_size <= memory.content().len(),
        ensures
            self@.built(memory.content(), r),
    {
        match self.layout() {
            Err(e) => Err(e),
            Ok(_) => Ok(
                BuddyArena::on_memory(
                    memory,
                    self.geometry.min_block_size(),
                    self.geometry.max_order(),
                    self.config.auto_spill,
                    self.geometry.cap_capacity(),
                    self.config.init_policy,
                ),
            ),
        }
    }

    /// Builds on `memory` and walks its pages if a page size is configured.
    pub fn build_on<M: Backing>(self, memory: M) -> (r: Result<BuddyArena<M>, BuildError>)
        requires
            self@.geometry.total_size <= memory.content().len(),
        ensures
            self@.built(self@.walked(memory.content()), r),
    {
        let page_size: Option<usize> = self.walk_page_size();
        match self.layout() {
            Err(e) => Err(e),
            Ok(_) => {
                proof {
                    reveal(is_pow2);
                }
                match self.build_raw(memory) {
                    Err(e) => Err(e),
                    Ok(arena) => {
                        let unfaulted: Unfaulted<BuddyArena<M>> = Unfaulted::<BuddyArena<M>>::new(
                            page_size,
                            arena,
                        );
                        Ok(unfaulted.fault_pages())
                    },
                }
            },
        }
    }

    fn build_buddy(self) -> (r: Result<BuddyArena, BuildError>)
        ensures
            self@.built(self@.walked(self@.own_memory()), r),
    {
        match self.layout() {
            Err(e) => Err(e),
            Ok((total_size, _)) => {
                let memory: Vec<u8> = vec![0u8;total_size];
                assert(memory@ =~= self@.own_memory());
                self.build_on(memory)
            },
        }
    }

    fn build_buddy_unfaulted(self) -> (r: Result<Unfaulted<BuddyArena>, BuildError>)
        ensures
            match r {
                Ok(unfaulted) => {
                    &&& self@.built(self@.own_memory(), Ok(unfaulted.inner()))
                    &&& unfaulted.page_size() == self@.config.walk()
                },
                Err(e) => e == BuildError::SizeOverflow && !self@.fits(),
            },
    {
        match self.layout() {
            Err(e) => Err(e),
            Ok((total_size, _)) => {
                let memory: Vec<u8> = vec![0u8;total_size];
                assert(memory@ =~= self@.own_memory());
                let page_size: Option<usize> = self.walk_page_size();
                match self.build_raw(memory) {
                    Err(e) => Err(e),
                    Ok(arena) => Ok(Unfaulted::<BuddyArena>::new(page_size, arena)),
                }
            },
        }
    }
}

impl<Mode> BuddyArenaBuilder<Mode> {
    fn build_buddy_async_with<W: BuddyWaiter>(self, waiters: W) -> (r: Result<
        AsyncBuddyArena<W>,
        BuildError,
    >)
        ensures
            self@.built_async(waiters, r),
    {
        match self.build_buddy() {
            Ok(arena) => Ok(AsyncBuddyArena::new(arena, waiters)),
            Err(e) => Err(e),
        }
    }

    /// Waiters for every order of the geometry.
    fn waiters_for_orders(&self) -> (r: NotifyWaiters)
        ensures
            r@ == crate::waiters::WaitersView::fresh(self@.geometry.max_order + 1),
    {
        let total_size: usize = self.geometry.total_size();
        let max_order: usize = self.geometry.max_order();
        proof {
            reveal(is_pow2);
            let m = self@.geometry.min_block_size;
            let p = pow2(max_order as nat) as int;
            assert(p <= m * p) by (nonlinear_arith)
                requires
                    m >= 1,
                    p >= 0,
            ;
            crate::bits::lemma_exponent_bound(max_order as nat);
        }
        NotifyWaiters::new(max_order + 1)
    }
}

impl BuddyArenaBuilder<Standard> {
    /// Turns to auto-spill mode: overflowing writes copy to the heap and free
    /// the block.
    pub fn auto_spill(self) -> (r: BuddyArenaBuilder<AutoSpill>)
        ensures
            r@ == (BuddyPlan { config: BuildConfig { auto_spill: true, ..self@.config }, ..self@ }),
    {
        BuddyArenaBuilder {
            geometry: self.geometry,
            config: BuildConfig { auto_spill: true, ..self.config },
            _mode: PhantomData,
        }
    }

    /// Turns to raw-access mode.
    pub fn hazmat_raw_access(self) -> (r: BuddyArenaBuilder<HazmatRaw>)
        ensures
            r@ == self@,
    {
        BuddyArenaBuilder { geometry: self.geometry, config: self.config, _mode: PhantomData }
    }

    /// Builds the arena, prefaulting pages if a page size is configured.
    pub fn build(self) -> (r: Result<BuddyArena, BuildError>)
        ensures
            self@.built(self@.walked(self@.own_memory()), r),
    {
        self.build_buddy()
    }

    /// Builds the arena without prefaulting.
    pub fn build_unfaulted(self) -> (r: Result<Unfaulted<BuddyArena>, BuildError>)
        ensures
            match r {
                Ok(unfaulted) => {
                    &&& self@.built(self@.own_memory(), Ok(unfaulted.inner()))
                    &&& unfaulted.page_size() == self@.config.walk()
                },
                Err(e) => e == BuildError::SizeOverflow && !self@.fits(),
            },
    {
        self.build_buddy_unfaulted()
    }

    /// Builds an arena with a queue of waiters per order.
    pub fn build_async(self) -> (r: Result<AsyncBuddyArena, BuildError>)
        ensures
            match r {
                Ok(arena) => {
                    &&& self@.built_async(arena.waiting(), r)
                    &&& arena.waiting()@ == crate::waiters::WaitersView::fresh(
                        self@.geometry.max_order + 1,
                    )
                },
                Err(e) => e == BuildError::SizeOverflow && !self@.fits(),
            },
    {
        let waiters: NotifyWaiters = self.waiters_for_orders();
        self.build_buddy_async_with(waiters)
    }

    /// Builds an arena with waiters of the caller's own.
    pub fn build_async_with<W: BuddyWaiter>(self, waiters: W) -> (r: Result<
        AsyncBuddyArena<W>,
        BuildError,
    >)
        ensures
            self@.built_async(waiters, r),
    {
        self.build_buddy_async_with(waiters)
    }
}

impl BuddyArenaBuilder<AutoSpill> {
    /// Builds the arena, prefaulting pages if a page size is configured.
    pub fn build(self) -> (r: Result<BuddyArena, BuildError>)
        ensures
            self@.built(self@.walked(self@.own_memory()), r),
    {
        self.build_buddy()
    }

    /// Builds the arena without prefaulting.
    pub fn build_unfaulted(self) -> (r: Result<Unfaulted<BuddyArena>, BuildError>)
        ensures
            match r {
                Ok(unfaulted) => {
                    &&& self@.built(self@.own_memory(), Ok(unfaulted.inner()))
                    &&& unfaulted.page_size() == self@.config.walk()
                },
                Err(e) => e == BuildError::SizeOverflow && !self@.fits(),
            },
    {
        self.build_buddy_unfaulted()
    }

    /// Builds an arena with a queue of waiters per order.
    pub fn build_async(self) -> (r: Result<AsyncBuddyArena, BuildError>)
        ensures
            match r {
                Ok(arena) => {
                    &&& self@.built_async(arena.waiting(), r)
                    &&& arena.waiting()@ == crate::waiters::WaitersView::fresh(
                        self@.geometry.max_order + 1,
                    )
                },
                Err(e) => e == BuildError::SizeOverflow && !self@.fits(),
            },
    {
        let waiters: NotifyWaiters = self.waiters_for_orders();
        self.build_buddy_async_with(waiters)
    }

    /// Builds an arena with waiters of the caller's own.
    pub fn build_async_with<W: BuddyWaiter>(self, waiters: W) -> (r: Result<
        AsyncBuddyArena<W>,
        BuildError,
    >)
        ensures
            self@.built_async(waiters, r),
    {
        self.build_buddy_async_with(waiters)
    }
}

impl BuddyArenaBuilder<HazmatRaw> {
    /// Builds the arena, prefaulting pages if a page size is configured.
    pub fn build(self) -> (r: Result<RawBuddyArena, BuildError>)
        ensures
            match r {
                Ok(raw) => self@.built(self@.walked(self@.own_memory()), Ok(raw.arena())),
                Err(e) => e == BuildError::SizeOverflow && !self@.fits(),
            },
    {
        match self.build_buddy() {
            Ok(arena) => Ok(RawBuddyArena::new(arena)),
            Err(e) => Err(e),
        }
    }

    /// Builds the arena without prefaulting.
    pub fn build_unfaulted(self) -> (r: Result<Unfaulted<RawBuddyArena>, BuildError>)
        ensures
            match r {
                Ok(unfaulted) => {
                    &&& self@.built(self@.own_memory(), Ok(unfaulted.inner().arena()))
                    &&& unfaulted.page_size() == self@.config.walk()
                },
                Err(e) => e == BuildError::SizeOverflow && !self@.fits(),
            },
    {
        let page_size: Option<usize> = self.walk_page_size();
        match self.build_buddy_unfaulted() {
            Ok(unfaulted) => Ok(
                Unfaulted::<RawBuddyArena>::new(
                    page_size,
                    RawBuddyArena::new(unfaulted.into_inner()),
                ),
            ),
            Err(e) => Err(e),
        }
    }
}

/// Builder for a buddy arena on memory that the caller provides.
#[derive(Debug)]
pub struct RawBackedBuddyArenaBuilder<M: Backing> {
    region: Option<M>,
    hint: BuddyHint,
    config: BuildConfig,
}

impl<M: Backing> RawBackedBuddyArenaBuilder<M> {
    /// The memory that the caller provided.
    pub closed spec fn region(self) -> Option<M> {
        self.region
    }

    /// How the geometry is derived.
    pub closed spec fn hint(self) -> BuddyHint {
        self.hint
    }

    /// The settings.
    pub closed spec fn config(self) -> BuildConfig {
        self.config
    }

    /// Sets the initialization policy for allocated buffers.
    pub fn init_policy(self, policy: InitPolicy) -> (r: Self)
        ensures
            r.region() == self.region(),
            r.hint() == self.hint(),
            r.config() == (BuildConfig { init_policy: policy, ..self.config() }),
    {
        RawBackedBuddyArenaBuilder {
            config: BuildConfig { init_policy: policy, ..self.config },
            ..self
        }
    }

    /// Sets the page size used for prefaulting.
    pub fn page_size(self, policy: PageSize) -> (r: Self)
        ensures
            r.region() == self.region(),
            r.hint() == self.hint(),
            r.config() == (BuildConfig { page_size: policy, ..self.config() }),
    {
        RawBackedBuddyArenaBuilder {
            config: BuildConfig { page_size: policy, ..self.config },
            ..self
        }
    }

    /// Tells the builder the page size of the operating system.
    pub fn os_page_size(self, size: NonZeroUsize) -> (r: Self)
        ensures
            r.region() == self.region(),
            r.hint() == self.hint(),
            r.config() == (BuildConfig { os_page_size: Some(size), ..self.config() }),
    {
        RawBackedBuddyArenaBuilder {
            config: BuildConfig { os_page_size: Some(size), ..self.config },
            ..self
        }
    }

    /// Builds the arena on as many doublings of the least block as the region
    /// holds. Tail bytes are left unused.
    pub fn build(self) -> (r: Result<BuddyArena<M>, BuildError>)
        ensures
            match self.region() {
                None => r matches Err(e) && e == BuildError::NullPointer,
                Some(region) => {
                    let len = region.content().len() as int;
                    let min_block = self.hint().min_block(len);
                    match r {
                        Ok(arena) => {
                            &&& arena.valid()
                            &&& arena@.total_size <= len < 2 * arena@.total_size
                            &&& arena@ == crate::buddy::BuddyView::fresh(
                                crate::memory::faulted(
                                    region.content(),
                                    arena@.total_size as int,
                                    self.config().walk(),
                                ),
                                min_block as nat,
                                arena@.blocks.max_order,
                                false,
                                false,
                                self.config().init_policy,
                            )
                        },
                        Err(e) => e == BuildError::ZeroUsableSlots && len < min_block,
                    }
                },
            },
    {
        match self.region {
            None => Err(BuildError::NullPointer),
            Some(region) => {
                let page_size: Option<usize> = self.config.walk_page_size();
                match self.hint.resolve(region.size()) {
                    Err(e) => Err(e),
                    Ok((min_block_size, max_order)) => {
                        proof {
                            crate::bits::lemma_pow2_step(max_order as nat);
                            let p = pow2(max_order as nat) as int;
                            assert(min_block_size * (2 * p) == 2 * (min_block_size * p))
                                by (nonlinear_arith);
                        }
                        let arena: BuddyArena<M> = BuddyArena::on_memory(
                            region,
                            min_block_size,
                            max_order,
                            false,
                            false,
                            self.config.init_policy,
                        );
                        let unfaulted: Unfaulted<BuddyArena<M>> = Unfaulted::<BuddyArena<M>>::new(
                            page_size,
                            arena,
                        );
                        Ok(unfaulted.fault_pages())
                    },
                }
            },
        }
    }
}

} // verus!
