//! Cache-invalidation strategy used after page-table mutations.

use vstd::prelude::*;

verus! {

/// Most implementations of paging are accelerated with a translation cache
/// that must be manually invalidated when changes to the page tables are
/// made. How the invalidation is performed is specific to the hardware; the
/// tables only require a flusher they can call after every batch of entry
/// mutations.
///
/// Flushing has no effect that the table model can observe, so the method
/// carries no contract: a flusher is a capability, not a computation.
pub trait PagingCacheFlusher {
    /// Flushes the whole cache.
    fn flush_whole_cache();
}

/// Flusher that doesn't flush.
///
/// Used by hierarchies that are not currently installed in the translation
/// hardware, where no cache can hold stale entries.
pub struct NoFlush;

impl PagingCacheFlusher for NoFlush {
    fn flush_whole_cache() {
    }
}

} // verus!
