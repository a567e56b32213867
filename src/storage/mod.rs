//! Byte-range bookkeeping, eviction policies and block addressing of the storage tiers.
pub mod evict;
pub mod range_set;
pub mod slice_buffer;
pub mod utility;

pub use evict::{LruEvict, MostModifiedBlockEvict, MostModifiedStripeEvict, NonEvict};
pub use range_set::RangeSet;
pub use utility::{check_block_range, check_slice_range};

use vstd::prelude::*;

verus! {

/// Blocks are numbered from zero; block `id` sits at index `id % m` of stripe `id / m`.
pub type BlockId = usize;

/// The number of a stripe.
#[derive(Debug, Clone, Copy, PartialEq, Eq, Hash, Structural)]
pub struct StripeId(pub usize);

impl StripeId {
    pub fn into_inner(self) -> (r: usize)
        ensures
            r == self.0,
    {
        self.0
    }

    /// The stripe that holds `block_id` when stripes have `m` blocks.
    pub fn of_block(block_id: BlockId, m: usize) -> (r: StripeId)
        requires
            m >= 1,
        ensures
            r.0 == block_id / m,
    {
        StripeId(block_id / m)
    }
}

} // verus!
