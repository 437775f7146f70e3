//! Allocator counters and their snapshots.
use vstd::prelude::*;

verus! {

/// Snapshot of fixed arena metrics.
#[non_exhaustive]
#[derive(Debug, Clone, Copy)]
pub struct FixedArenaMetrics {
    /// Successful arena-backed allocations.
    pub allocations_ok: u64,
    /// Failed allocation attempts that returned `ArenaFull`.
    pub allocations_failed: u64,
    /// Releases back to allocator control.
    pub frees: u64,
    /// Successful arena-backed freezes.
    pub frozen: u64,
    /// Spill transitions from arena-backed to heap-backed storage.
    pub spills: u64,
    /// Total bytes reserved by the arena instance.
    pub bytes_reserved: usize,
    /// Total retained arena-backed capacity currently live.
    pub bytes_live: usize,
}

/// Snapshot of buddy arena metrics.
#[non_exhaustive]
#[derive(Debug, Clone, Copy)]
pub struct BuddyArenaMetrics {
    /// Successful arena-backed allocations.
    pub allocations_ok: u64,
    /// Failed allocation attempts that returned `ArenaFull`.
    pub allocations_failed: u64,
    /// Releases back to allocator control.
    pub frees: u64,
    /// Successful arena-backed freezes.
    pub frozen: u64,
    /// Spill transitions from arena-backed to heap-backed storage.
    pub spills: u64,
    /// Blocks split in two to serve a smaller request.
    pub splits: u64,
    /// Pairs of buddies merged on release.
    pub coalesces: u64,
    /// Total bytes reserved by the arena instance.
    pub bytes_reserved: usize,
    /// Total retained arena-backed capacity currently live.
    pub bytes_live: usize,
    /// Size of the largest free block, 0 when nothing is free.
    pub largest_free_block: usize,
}

/// The counters of one arena. The event counters wrap round at `u64::MAX`.
#[derive(Debug, Clone, Copy)]
pub struct MetricsState {
    pub allocations_ok: u64,
    pub allocations_failed: u64,
    pub frees: u64,
    pub frozen: u64,
    pub spills: u64,
    pub splits: u64,
    pub coalesces: u64,
    pub bytes_reserved: usize,
    pub bytes_live: usize,
}

impl MetricsState {
    /// All counters at 0.
    pub open spec fn zero(bytes_reserved: usize) -> MetricsState {
        MetricsState {
            allocations_ok: 0,
            allocations_failed: 0,
            frees: 0,
            frozen: 0,
            spills: 0,
            splits: 0,
            coalesces: 0,
            bytes_reserved,
            bytes_live: 0,
        }
    }

    /// After a successful allocation of `capacity` bytes.
    pub open spec fn allocated(self, capacity: usize) -> MetricsState {
        MetricsState {
            allocations_ok: self.allocations_ok.wrapping_add(1),
            bytes_live: self.bytes_live.wrapping_add(capacity),
            ..self
        }
    }

    /// After a refused allocation.
    pub open spec fn refused(self) -> MetricsState {
        MetricsState { allocations_failed: self.allocations_failed.wrapping_add(1), ..self }
    }

    /// After `capacity` bytes came back.
    pub open spec fn freed(self, capacity: usize) -> MetricsState {
        MetricsState {
            frees: self.frees.wrapping_add(1),
            bytes_live: self.bytes_live.wrapping_sub(capacity),
            ..self
        }
    }

    /// After a freeze.
    pub open spec fn froze(self) -> MetricsState {
        MetricsState { frozen: self.frozen.wrapping_add(1), ..self }
    }

    /// After a spill.
    pub open spec fn spilled(self) -> MetricsState {
        MetricsState { spills: self.spills.wrapping_add(1), ..self }
    }

    /// After `steps` splits.
    pub open spec fn split(self, steps: u64) -> MetricsState {
        MetricsState { splits: self.splits.wrapping_add(steps), ..self }
    }

    /// After `steps` merges.
    pub open spec fn merged(self, steps: u64) -> MetricsState {
        MetricsState { coalesces: self.coalesces.wrapping_add(steps), ..self }
    }

    /// Fresh counters for an arena of `bytes_reserved` bytes.
    pub fn new(bytes_reserved: usize) -> (r: Self)
        ensures
            r == MetricsState::zero(bytes_reserved),
            r.bytes_reserved == bytes_reserved,
            r.bytes_live == 0,
    {
        MetricsState {
            allocations_ok: 0,
            allocations_failed: 0,
            frees: 0,
            frozen: 0,
            spills: 0,
            splits: 0,
            coalesces: 0,
            bytes_reserved,
            bytes_live: 0,
        }
    }

    /// Counts a successful allocation of `capacity` bytes.
    pub fn record_alloc_success(&mut self, capacity: usize)
        ensures
            *final(self) == old(self).allocated(capacity),
            *final(self) == (MetricsState {
                allocations_ok: old(self).allocations_ok.wrapping_add(1),
                bytes_live: old(self).bytes_live.wrapping_add(capacity),
                ..*old(self)
            }),
    {
        self.allocations_ok = self.allocations_ok.wrapping_add(1);
        self.bytes_live = self.bytes_live.wrapping_add(capacity);
    }

    /// Counts a refused allocation.
    pub fn record_alloc_failure(&mut self)
        ensures
            *final(self) == old(self).refused(),
            *final(self) == (MetricsState {
                allocations_failed: old(self).allocations_failed.wrapping_add(1),
                ..*old(self)
            }),
    {
        self.allocations_failed = self.allocations_failed.wrapping_add(1);
    }

    /// Counts a release of `capacity` bytes.
    pub fn record_free(&mut self, capacity: usize)
        ensures
            *final(self) == old(self).freed(capacity),
            *final(self) == (MetricsState {
                frees: old(self).frees.wrapping_add(1),
                bytes_live: old(self).bytes_live.wrapping_sub(capacity),
                ..*old(self)
            }),
    {
        self.frees = self.frees.wrapping_add(1);
        self.bytes_live = self.bytes_live.wrapping_sub(capacity);
    }

    /// Counts a freeze.
    pub fn record_frozen(&mut self)
        ensures
            *final(self) == old(self).froze(),
            *final(self) == (MetricsState {
                frozen: old(self).frozen.wrapping_add(1),
                ..*old(self)
            }),
    {
        self.frozen = self.frozen.wrapping_add(1);
    }

    /// Counts a spill.
    pub fn record_spill(&mut self)
        ensures
            *final(self) == old(self).spilled(),
            *final(self) == (MetricsState {
                spills: old(self).spills.wrapping_add(1),
                ..*old(self)
            }),
    {
        self.spills = self.spills.wrapping_add(1);
    }

    /// Counts `steps` splits.
    pub fn record_splits(&mut self, steps: u64)
        ensures
            *final(self) == old(self).split(steps),
            *final(self) == (MetricsState {
                splits: old(self).splits.wrapping_add(steps),
                ..*old(self)
            }),
    {
        self.splits = self.splits.wrapping_add(steps);
    }

    /// Counts `steps` merges of two buddies.
    pub fn record_coalesces(&mut self, steps: u64)
        ensures
            *final(self) == old(self).merged(steps),
            *final(self) == (MetricsState {
                coalesces: old(self).coalesces.wrapping_add(steps),
                ..*old(self)
            }),
    {
        self.coalesces = self.coalesces.wrapping_add(steps);
    }

    /// The counters that a fixed arena reports.
    pub open spec fn fixed(self) -> FixedArenaMetrics {
        FixedArenaMetrics {
            allocations_ok: self.allocations_ok,
            allocations_failed: self.allocations_failed,
            frees: self.frees,
            frozen: self.frozen,
            spills: self.spills,
            bytes_reserved: self.bytes_reserved,
            bytes_live: self.bytes_live,
        }
    }

    /// The counters that a buddy arena reports.
    pub open spec fn buddy(self, largest_free_block: usize) -> BuddyArenaMetrics {
        BuddyArenaMetrics {
            allocations_ok: self.allocations_ok,
            allocations_failed: self.allocations_failed,
            frees: self.frees,
            frozen: self.frozen,
            spills: self.spills,
            splits: self.splits,
            coalesces: self.coalesces,
            bytes_reserved: self.bytes_reserved,
            bytes_live: self.bytes_live,
            largest_free_block,
        }
    }

    /// Snapshot for a fixed arena.
    pub fn fixed_snapshot(&self) -> (r: FixedArenaMetrics)
        ensures
            r == self.fixed(),
            r.allocations_ok == self.allocations_ok,
            r.allocations_failed == self.allocations_failed,
            r.frees == self.frees,
            r.frozen == self.frozen,
            r.spills == self.spills,
            r.bytes_reserved == self.bytes_reserved,
            r.bytes_live == self.bytes_live,
    {
        FixedArenaMetrics {
            allocations_ok: self.allocations_ok,
            allocations_failed: self.allocations_failed,
            frees: self.frees,
            frozen: self.frozen,
            spills: self.spills,
            bytes_reserved: self.bytes_reserved,
            bytes_live: self.bytes_live,
        }
    }

    /// Snapshot for a buddy arena.
    pub fn buddy_snapshot(&self, largest_free_block: usize) -> (r: BuddyArenaMetrics)
        ensures
            r == self.buddy(largest_free_block),
            r.allocations_ok == self.allocations_ok,
            r.allocations_failed == self.allocations_failed,
            r.frees == self.frees,
            r.frozen == self.frozen,
            r.spills == self.spills,
            r.splits == self.splits,
            r.coalesces == self.coalesces,
            r.bytes_reserved == self.bytes_reserved,
            r.bytes_live == self.bytes_live,
            r.largest_free_block == largest_free_block,
    {
        BuddyArenaMetrics {
            allocations_ok: self.allocations_ok,
            allocations_failed: self.allocations_failed,
            frees: self.frees,
            frozen: self.frozen,
            spills: self.spills,
            splits: self.splits,
            coalesces: self.coalesces,
            bytes_reserved: self.bytes_reserved,
            bytes_live: self.bytes_live,
            largest_free_block,
        }
    }
}

/// A snapshot shows every counter under its own name, for both arenas.
pub proof fn law_snapshots_show_the_counters(state: MetricsState, largest: usize)
    ensures
        ({
            let r = state.fixed();
            &&& r.allocations_ok == state.allocations_ok
            &&& r.allocations_failed == state.allocations_failed
            &&& r.frees == state.frees
            &&& r.frozen == state.frozen
            &&& r.spills == state.spills
            &&& r.bytes_reserved == state.bytes_reserved
            &&& r.bytes_live == state.bytes_live
        }),
        ({
            let r = state.buddy(largest);
            &&& r.allocations_ok == state.allocations_ok
            &&& r.allocations_failed == state.allocations_failed
            &&& r.frees == state.frees
            &&& r.frozen == state.frozen
            &&& r.spills == state.spills
            &&& r.splits == state.splits
            &&& r.coalesces == state.coalesces
            &&& r.bytes_reserved == state.bytes_reserved
            &&& r.bytes_live == state.bytes_live
            &&& r.largest_free_block == largest
        }),
{
}

} // verus!
