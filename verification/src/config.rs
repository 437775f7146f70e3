//! Settings shared by the builders of both arenas.
use vstd::prelude::*;
use vstd::arithmetic::power2::*;
use crate::error::BuildError;
use crate::nonzero::NonZeroUsize;

verus! {

/// Page size used for prefaulting the arena backing allocation.
///
/// Building touches every page when the page size is known. Building
/// unfaulted defers the walk, for explicit control over placement.
#[derive(Debug, Clone, Copy, PartialEq, Eq)]
pub enum PageSize {
    /// Page size is not known. No prefaulting will occur.
    Unknown,
    /// The page size of the operating system, where the caller knows it.
    Auto,
    /// Caller-supplied page size.
    Size(NonZeroUsize),
}

impl PageSize {
    /// The page size to walk with, given the system's page size if known.
    pub open spec fn resolved(self, os_page_size: Option<NonZeroUsize>) -> Option<usize> {
        match self {
            PageSize::Unknown => None,
            PageSize::Auto => match os_page_size {
                Some(n) => Some(n@ as usize),
                None => None,
            },
            PageSize::Size(n) => Some(n@ as usize),
        }
    }

    /// The page size to walk with, given the system's page size if known.
    pub fn resolve(self, os_page_size: Option<NonZeroUsize>) -> (r: Option<usize>)
        ensures
            r == self.resolved(os_page_size),
            r matches Some(n) ==> n > 0,
            self is Unknown ==> r is None,
            self is Auto ==> (r is Some) == (os_page_size is Some),
            self is Auto && r is Some ==> r->0 == os_page_size->0@,
            self matches PageSize::Size(n) ==> r is Some && r->0 == n@,
    {
        match self {
            PageSize::Unknown => None,
            PageSize::Auto => match os_page_size {
                Some(n) => Some(n.get()),
                None => None,
            },
            PageSize::Size(n) => Some(n.get()),
        }
    }
}

/// Initialization policy for arena memory.
#[derive(Debug, Clone, Copy, PartialEq, Eq, Structural)]
pub enum InitPolicy {
    /// Leave memory as it is (default).
    Uninit,
    /// Zero-fill memory on return to the arena and on first allocation.
    ///
    /// On return the full slot or block is zeroed before it is marked free.
    /// On allocation only memory that was never returned is zeroed.
    Zero,
}

impl Default for InitPolicy {
    fn default() -> (r: Self)
        ensures
            r == InitPolicy::Uninit,
    {
        InitPolicy::Uninit
    }
}

/// Typestate marker for the default builder mode.
#[derive(Debug, Clone, Copy)]
pub struct Standard;

/// Typestate marker for auto-spill builder mode.
#[derive(Debug, Clone, Copy)]
pub struct AutoSpill;

/// Typestate marker for hazmat raw-access builder mode.
#[derive(Debug, Clone, Copy)]
pub struct HazmatRaw;

/// Shared builder configuration for both arena types.
#[derive(Debug, Clone, Copy)]
pub struct BuildConfig {
    /// Alignment of slots; must be a power of two.
    pub alignment: usize,
    /// Whether overflowing writes move to the heap.
    pub auto_spill: bool,
    /// Whether memory is zeroed.
    pub init_policy: InitPolicy,
    /// Page size for the prefault walk.
    pub page_size: PageSize,
    /// Page size of the operating system, if known.
    pub os_page_size: Option<NonZeroUsize>,
}

impl BuildConfig {
    /// The defaults.
    pub open spec fn standard() -> BuildConfig {
        BuildConfig {
            alignment: 1,
            auto_spill: false,
            init_policy: InitPolicy::Uninit,
            page_size: PageSize::Auto,
            os_page_size: None,
        }
    }

    /// The page size to walk with.
    pub open spec fn walk(self) -> Option<usize> {
        self.page_size.resolved(self.os_page_size)
    }

    /// The defaults.
    pub fn new() -> (r: Self)
        ensures
            r == BuildConfig::standard(),
            r.alignment == 1,
            !r.auto_spill,
            r.init_policy == InitPolicy::Uninit,
            r.page_size is Auto,
            r.os_page_size is None,
    {
        BuildConfig {
            alignment: 1,
            auto_spill: false,
            init_policy: InitPolicy::Uninit,
            page_size: PageSize::Auto,
            os_page_size: None,
        }
    }

    /// Refuses an alignment that is not a power of two.
    pub fn validate_alignment(&self) -> (r: Result<(), BuildError>)
        ensures
            r == if is_pow2(self.alignment as int) {
                Ok::<(), BuildError>(())
            } else {
                Err::<(), BuildError>(BuildError::InvalidAlignment)
            },
    {
        if !crate::bits::is_power_of_two(self.alignment) {
            return Err(BuildError::InvalidAlignment);
        }
        Ok(())
    }

    /// The page size to walk with.
    pub fn walk_page_size(&self) -> (r: Option<usize>)
        ensures
            r == self.walk(),
            r matches Some(n) ==> n > 0,
    {
        self.page_size.resolve(self.os_page_size)
    }
}

/// A builder starts without alignment, spilling or zeroing, and walks pages of
/// the operating system's size once that is known.
pub proof fn law_defaults(config: BuildConfig)
    requires
        config == BuildConfig::standard(),
    ensures
        config.alignment == 1,
        !config.auto_spill,
        config.init_policy == InitPolicy::Uninit,
        config.page_size is Auto,
        config.os_page_size is None,
        config.walk() is None,
{
}

/// Pages are walked with the size that was asked for: none where it is not
/// known, the system's where that was asked for and is known.
pub proof fn law_walk_size_is_the_one_asked_for(config: BuildConfig)
    ensures
        config.page_size is Unknown ==> config.walk() is None,
        config.page_size matches PageSize::Size(n) ==> config.walk() == Some(n@ as usize),
        config.page_size is Auto ==> match config.os_page_size {
            Some(n) => config.walk() == Some(n@ as usize),
            None => config.walk() is None,
        },
{
}

} // verus!
