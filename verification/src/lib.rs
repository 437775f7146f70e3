//! Arena allocators whose buffers are frozen without copying the payload.
//!
//! [`FixedArena`] hands out slots of one size; a bitmap records which are
//! free. [`BuddyArena`] hands out power-of-two blocks of one region; larger
//! blocks split on demand, and neighbours merge on release.
//!
//! Both give the same [`Buffer`]: it is written by appending, and
//! [`Buffer::freeze`] turns it into bytes that can be read and no longer
//! written. The slot or block goes back to the arena when the frozen value is
//! released.
//!
//! An arena is a plain value: whoever holds it exclusively operates on it, and
//! buffers name the arena that they belong to in each call.
#![allow(unused_imports)]

pub mod allocation;
pub mod arena;
pub mod async_alloc;
pub mod async_laws;
pub mod bitmap;
pub mod bits;
pub mod blocks;
pub mod buddy;
pub mod buddy_builder;
pub mod buffer;
pub mod builder_laws;
pub mod config;
pub mod effects;
pub mod error;
pub mod ext;
pub mod fixed_builder;
pub mod geometry;
pub mod handle;
pub mod hazmat;
pub mod histories;
pub mod laws;
pub mod memory;
pub mod metrics;
pub mod nonzero;
pub mod sizing;
pub mod unfaulted;
pub mod waiter_laws;
pub mod waiters;

pub use allocation::{AllocationKind, ArenaRef};
pub use arena::FixedArena;
pub use async_alloc::{AsyncBuddyArena, AsyncFixedArena, BuddyWaiter, WaitRegistration, Waiter};
pub use buddy::BuddyArena;
pub use buddy_builder::{BuddyArenaBuilder, RawBackedBuddyArenaBuilder};
pub use buffer::Buffer;
pub use config::{AutoSpill, HazmatRaw, InitPolicy, PageSize, Standard};
pub use error::{AllocError, BufferFullError, BuildError};
pub use ext::BytesExt;
pub use fixed_builder::{FixedArenaBuilder, RawBackedFixedArenaBuilder};
pub use geometry::BuddyGeometry;
pub use handle::{BufferHandle, Frozen};
pub use memory::Backing;
pub use metrics::{BuddyArenaMetrics, FixedArenaMetrics};
pub use nonzero::NonZeroUsize;
pub use sizing::{BuddyHint, SlotSpec};
pub use unfaulted::Unfaulted;
pub use waiters::{BuddyRegistration, Delivery, NotifyRegistration, NotifyWaiters};
